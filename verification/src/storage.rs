//! Finding the block device behind a path, to tell mechanical disks from solid-state ones.
//!
//! Reading `/proc/mounts` and `/sys/block/<device>/queue/rotational` is left to the
//! caller; this module decides from their text.
use vstd::prelude::*;
use vstd::string::{StrSliceExecFns, StringExecFns};
use vstd::utf8::encode_utf8;

use crate::text::{
    char_is_whitespace, chars_start_with, chars_to_string, copy_range, find_char, has_prefix,
    is_white_space, lemma_find_char, lemma_find_char_at, lines, split_lines, str_to_chars, trim,
    trim_bounds, views,
};

verus! {

// ---------------------------------------------------------------------------
// Partition names

/// `c` is an ASCII digit.
pub open spec fn is_ascii_digit(c: char) -> bool {
    0x30 <= (c as u32) && (c as u32) <= 0x39
}

/// `s` without its trailing ASCII digits.
pub open spec fn trim_end_digits(s: Seq<char>) -> Seq<char>
    decreases s.len(),
{
    if s.len() > 0 && is_ascii_digit(s.last()) {
        trim_end_digits(s.drop_last())
    } else {
        s
    }
}

pub open spec fn nvme_prefix() -> Seq<char> {
    seq!['n', 'v', 'm', 'e']
}

pub open spec fn mmcblk_prefix() -> Seq<char> {
    seq!['m', 'm', 'c', 'b', 'l', 'k']
}

pub open spec fn sd_prefix() -> Seq<char> {
    seq!['s', 'd']
}

pub open spec fn hd_prefix() -> Seq<char> {
    seq!['h', 'd']
}

pub open spec fn vd_prefix() -> Seq<char> {
    seq!['v', 'd']
}

/// The whole-disk name for a partition name: NVMe and MMC names lose everything from
/// their first `p` on; SCSI/SATA, IDE and VirtIO names lose their trailing digits; any
/// other name (device mapper, RAID, loop, ...) stays as it is.
pub open spec fn base_block_device(d: Seq<char>) -> Seq<char> {
    if has_prefix(d, nvme_prefix()) || has_prefix(d, mmcblk_prefix()) {
        let i = find_char(d, 'p');
        if 0 <= i < d.len() {
            d.take(i)
        } else {
            d
        }
    } else if has_prefix(d, sd_prefix()) || has_prefix(d, hd_prefix()) || has_prefix(
        d,
        vd_prefix(),
    ) {
        trim_end_digits(d)
    } else {
        d
    }
}

fn is_digit(c: char) -> (r: bool)
    ensures
        r == is_ascii_digit(c),
{
    let u = c as u32;
    0x30 <= u && u <= 0x39
}

/// Strips partition identifiers to isolate the primary block device name in `/sys/block/`.
///
/// `sda1` gives `sda`, `vda2` gives `vda`, `nvme0n1p1` gives `nvme0n1`, `mmcblk0p1` gives
/// `mmcblk0`; `dm-0` and `md0` keep their full name.
pub fn extract_base_block_device(dev_name: &str) -> (r: &str)
    ensures
        r@ == base_block_device(dev_name@),
{
    let cs = str_to_chars(dev_name);
    let n = cs.len();
    let nvme = vec!['n', 'v', 'm', 'e'];
    let mmcblk = vec!['m', 'm', 'c', 'b', 'l', 'k'];
    assert(nvme@ =~= nvme_prefix());
    assert(mmcblk@ =~= mmcblk_prefix());
    if chars_start_with(&cs, &nvme) || chars_start_with(&cs, &mmcblk) {
        let mut i: usize = 0;
        while i < n && cs[i] != 'p'
            invariant
                i <= n == cs.len(),
                forall|j: int| 0 <= j < i ==> cs@[j] != 'p',
            decreases n - i,
        {
            i = i + 1;
        }
        proof {
            lemma_find_char_at(cs@, 'p', i as int);
        }
        if i < n {
            return dev_name.substring_char(0, i);
        }
    } else {
        let sd = vec!['s', 'd'];
        let hd = vec!['h', 'd'];
        let vd = vec!['v', 'd'];
        assert(sd@ =~= sd_prefix());
        assert(hd@ =~= hd_prefix());
        assert(vd@ =~= vd_prefix());
        if chars_start_with(&cs, &sd) || chars_start_with(&cs, &hd) || chars_start_with(&cs, &vd) {
            let mut e = n;
            assert(cs@.take(n as int) =~= cs@);
            while e > 0 && is_digit(cs[e - 1])
                invariant
                    e <= n == cs.len(),
                    trim_end_digits(cs@) == trim_end_digits(cs@.take(e as int)),
                decreases e,
            {
                assert(cs@.take(e as int).drop_last() =~= cs@.take(e - 1));
                e = e - 1;
            }
            assert(cs@.subrange(0, e as int) =~= cs@.take(e as int));
            return dev_name.substring_char(0, e);
        }
    }
    dev_name
}

proof fn lemma_trim_end_digits(s: Seq<char>)
    ensures
        exists|k: int|
            0 <= k <= s.len() && trim_end_digits(s) == s.take(k) && (k > 0 ==> !is_ascii_digit(
                s[k - 1],
            )) && forall|j: int| k <= j < s.len() ==> is_ascii_digit(#[trigger] s[j]),
    decreases s.len(),
{
    if s.len() > 0 && is_ascii_digit(s.last()) {
        lemma_trim_end_digits(s.drop_last());
        let k = choose|k: int|
            0 <= k <= s.drop_last().len() && trim_end_digits(s.drop_last()) == s.drop_last().take(k)
                && (k > 0 ==> !is_ascii_digit(s.drop_last()[k - 1])) && forall|j: int|
                k <= j < s.drop_last().len() ==> is_ascii_digit(#[trigger] s.drop_last()[j]);
        assert(s.drop_last().take(k) =~= s.take(k));
        assert forall|j: int| k <= j < s.len() implies is_ascii_digit(#[trigger] s[j]) by {
            if j < s.len() - 1 {
                assert(s[j] == s.drop_last()[j]);
            }
        }
    } else {
        assert(s.take(s.len() as int) =~= s);
    }
}

/// Stripping the partition part twice is the same as stripping it once: the result
/// already names a whole disk.
pub proof fn lemma_base_block_device_idempotent(d: Seq<char>)
    ensures
        base_block_device(base_block_device(d)) == base_block_device(d),
{
    let b = base_block_device(d);
    if has_prefix(d, nvme_prefix()) || has_prefix(d, mmcblk_prefix()) {
        let i = find_char(d, 'p');
        lemma_find_char(d, 'p');
        if i < d.len() {
            let p = if has_prefix(d, nvme_prefix()) {
                nvme_prefix()
            } else {
                mmcblk_prefix()
            };
            assert(forall|j: int| 0 <= j < p.len() ==> p[j] != 'p');
            assert(d.take(p.len() as int) == p);
            assert forall|j: int| 0 <= j < p.len() implies d[j] != 'p' by {
                assert(d[j] == d.take(p.len() as int)[j]);
            }
            assert(i >= p.len());
            assert(b.take(p.len() as int) =~= d.take(p.len() as int));
            assert(has_prefix(b, p));
            lemma_find_char_at(b, 'p', b.len() as int);
        }
    } else if has_prefix(d, sd_prefix()) || has_prefix(d, hd_prefix()) || has_prefix(
        d,
        vd_prefix(),
    ) {
        lemma_trim_end_digits(d);
        let k = choose|k: int|
            0 <= k <= d.len() && trim_end_digits(d) == d.take(k) && (k > 0 ==> !is_ascii_digit(
                d[k - 1],
            )) && forall|j: int| k <= j < d.len() ==> is_ascii_digit(#[trigger] d[j]);
        assert(d[1] == d.take(2)[1]);
        assert(!is_ascii_digit(d[1]));
        assert(k >= 2);
        assert(b.take(2) =~= d.take(2));
        assert(b[0] == d[0]);
        assert(!has_prefix(b, nvme_prefix())) by {
            if has_prefix(b, nvme_prefix()) {
                assert(b[0] == b.take(4)[0]);
            }
        }
        assert(!has_prefix(b, mmcblk_prefix())) by {
            if has_prefix(b, mmcblk_prefix()) {
                assert(b[0] == b.take(6)[0]);
            }
        }
        assert(b.last() == d[k - 1]);
        assert(trim_end_digits(b) == b);
    }
}

/// What stripping the partition part removes: the result is always a prefix of the
/// name. SCSI/SATA, IDE and VirtIO names lose exactly their trailing digits; NVMe and
/// MMC names lose everything from their first `p` on, when they have one; other names
/// are kept whole.
pub proof fn lemma_base_block_device_shape(d: Seq<char>)
    ensures
        base_block_device(d).len() <= d.len(),
        d.take(base_block_device(d).len() as int) == base_block_device(d),
        (has_prefix(d, sd_prefix()) || has_prefix(d, hd_prefix()) || has_prefix(d, vd_prefix()))
            ==> (forall|k: int|
            base_block_device(d).len() <= k < d.len() ==> is_ascii_digit(#[trigger] d[k])) && (
        base_block_device(d).len() > 0 ==> !is_ascii_digit(base_block_device(d).last())),
        (has_prefix(d, nvme_prefix()) || has_prefix(d, mmcblk_prefix())) ==> (forall|k: int|
            0 <= k < base_block_device(d).len() ==> #[trigger] d[k] != 'p') && (
        base_block_device(d).len() < d.len() ==> d[base_block_device(d).len() as int] == 'p'),
        !(has_prefix(d, sd_prefix()) || has_prefix(d, hd_prefix()) || has_prefix(d, vd_prefix())
            || has_prefix(d, nvme_prefix()) || has_prefix(d, mmcblk_prefix())) ==> base_block_device(
            d,
        ) == d,
{
    let b = base_block_device(d);
    if has_prefix(d, nvme_prefix()) || has_prefix(d, mmcblk_prefix()) {
        lemma_find_char(d, 'p');
        assert(d.take(b.len() as int) =~= b);
    } else if has_prefix(d, sd_prefix()) || has_prefix(d, hd_prefix()) || has_prefix(
        d,
        vd_prefix(),
    ) {
        lemma_trim_end_digits(d);
        let k = choose|k: int|
            0 <= k <= d.len() && trim_end_digits(d) == d.take(k) && (k > 0 ==> !is_ascii_digit(
                d[k - 1],
            )) && forall|j: int| k <= j < d.len() ==> is_ascii_digit(#[trigger] d[j]);
        assert(d.take(b.len() as int) =~= b);
        if b.len() > 0 {
            assert(b.last() == d[k - 1]);
        }
    } else {
        assert(d.take(d.len() as int) =~= d);
    }
}

// ---------------------------------------------------------------------------
// Mount table

/// End of the word of `s` that starts at `k`: the first white space at or after `k`.
pub open spec fn word_end(s: Seq<char>, k: int) -> int
    decreases s.len() - k,
{
    if k < 0 || k >= s.len() || is_white_space(s[k]) {
        k
    } else {
        word_end(s, k + 1)
    }
}

pub proof fn lemma_word_end(s: Seq<char>, k: int)
    requires
        0 <= k <= s.len(),
    ensures
        k <= word_end(s, k) <= s.len(),
        k < s.len() && !is_white_space(s[k]) ==> word_end(s, k) > k,
        word_end(s, k) < s.len() ==> is_white_space(s[word_end(s, k)]),
        forall|j: int| k <= j < word_end(s, k) ==> !is_white_space(#[trigger] s[j]),
    decreases s.len() - k,
{
    if k < s.len() && !is_white_space(s[k]) {
        lemma_word_end(s, k + 1);
    }
}

/// The white-space separated words of `s` from index `k` on (`str::split_whitespace`).
pub open spec fn words_from(s: Seq<char>, k: int) -> Seq<Seq<char>>
    decreases s.len() - k,
{
    if k < 0 || k >= s.len() {
        seq![]
    } else if is_white_space(s[k]) {
        words_from(s, k + 1)
    } else {
        let e = word_end(s, k);
        proof {
            lemma_word_end(s, k);
        }
        seq![s.subrange(k, e)] + words_from(s, e)
    }
}

/// A mount table line names a device and a mount point: its first two words.
pub open spec fn mount_entry(line: Seq<char>) -> Option<(Seq<char>, Seq<char>)> {
    let w = words_from(line, 0);
    if w.len() >= 2 {
        Some((w[0], w[1]))
    } else {
        None
    }
}

/// The (device, mount point) pairs of the lines that have both, in order.
pub open spec fn mount_entries(ls: Seq<Seq<char>>) -> Seq<(Seq<char>, Seq<char>)>
    decreases ls.len(),
{
    if ls.len() == 0 {
        seq![]
    } else {
        let rest = mount_entries(ls.drop_last());
        match mount_entry(ls.last()) {
            Some(e) => rest.push(e),
            None => rest,
        }
    }
}

/// The entries of a mount table text such as `/proc/mounts`.
pub open spec fn mount_table(content: Seq<char>) -> Seq<(Seq<char>, Seq<char>)> {
    mount_entries(lines(content))
}

/// One entry of a mount table: where its device name lies in the table text, and its
/// mount point.
pub struct MountEntry {
    pub device_start: usize,
    pub device_end: usize,
    pub mount_point: String,
}

/// Skips white space from `k` on.
fn skip_white_space(line: &Vec<char>, k: usize) -> (r: usize)
    requires
        k <= line.len(),
    ensures
        k <= r <= line.len(),
        words_from(line@, k as int) == words_from(line@, r as int),
        r < line.len() ==> !is_white_space(line@[r as int]),
{
    let mut i = k;
    while i < line.len() && char_is_whitespace(line[i])
        invariant
            k <= i <= line.len(),
            words_from(line@, k as int) == words_from(line@, i as int),
        decreases line.len() - i,
    {
        i = i + 1;
    }
    i
}

/// The end of the word that starts at `k`.
fn end_of_word(line: &Vec<char>, k: usize) -> (r: usize)
    requires
        k <= line.len(),
    ensures
        r == word_end(line@, k as int),
{
    let mut i = k;
    proof {
        lemma_word_end(line@, k as int);
    }
    while i < line.len() && !char_is_whitespace(line[i])
        invariant
            k <= i <= line.len(),
            word_end(line@, k as int) == word_end(line@, i as int),
        decreases line.len() - i,
    {
        i = i + 1;
    }
    i
}

/// Bounds of the first two words of `line`, when it has two.
fn first_two_words(line: &Vec<char>) -> (r: Option<(usize, usize, usize, usize)>)
    ensures
        match r {
            Some((a, b, c, d)) => a <= b <= c <= d <= line.len() && mount_entry(line@) == Some(
                (line@.subrange(a as int, b as int), line@.subrange(c as int, d as int)),
            ),
            None => mount_entry(line@) is None,
        },
{
    let a = skip_white_space(line, 0);
    if a == line.len() {
        return None;
    }
    let b = end_of_word(line, a);
    proof {
        lemma_word_end(line@, a as int);
    }
    let c = skip_white_space(line, b);
    if c == line.len() {
        assert(words_from(line@, 0) =~= seq![line@.subrange(a as int, b as int)]);
        return None;
    }
    let d = end_of_word(line, c);
    proof {
        lemma_word_end(line@, c as int);
        let w = words_from(line@, 0);
        assert(w == seq![line@.subrange(a as int, b as int)] + words_from(line@, c as int));
        assert(words_from(line@, c as int) == seq![line@.subrange(c as int, d as int)]
            + words_from(line@, d as int));
        assert(w[0] == line@.subrange(a as int, b as int));
        assert(w[1] == line@.subrange(c as int, d as int));
    }
    Some((a, b, c, d))
}

/// Reads the device and mount point of each line of a mount table (`/proc/mounts`).
pub fn parse_mount_table(mounts_content: &str) -> (es: Vec<MountEntry>)
    ensures
        es.len() == mount_table(mounts_content@).len(),
        forall|i: int|
            0 <= i < es.len() ==> {
                let e = #[trigger] es@[i];
                &&& e.device_start <= e.device_end <= mounts_content@.len()
                &&& mounts_content@.subrange(e.device_start as int, e.device_end as int)
                    == mount_table(mounts_content@)[i].0
                &&& e.mount_point@ == mount_table(mounts_content@)[i].1
            },
{
    let cs = str_to_chars(mounts_content);
    let (ls, starts) = split_lines(&cs);
    let ghost vs = views(ls@);
    let mut es: Vec<MountEntry> = Vec::new();
    let mut i: usize = 0;
    while i < ls.len()
        invariant
            i <= ls.len(),
            cs@ == mounts_content@,
            vs == views(ls@),
            vs == lines(cs@),
            starts.len() == ls.len(),
            forall|k: int|
                0 <= k < ls.len() ==> starts@[k] + ls@[k].len() <= cs.len() && cs@.subrange(
                    #[trigger] starts@[k] as int,
                    starts@[k] + ls@[k].len(),
                ) == ls@[k]@,
            es.len() == mount_entries(vs.take(i as int)).len(),
            forall|k: int|
                0 <= k < es.len() ==> {
                    let e = #[trigger] es@[k];
                    &&& e.device_start <= e.device_end <= cs.len()
                    &&& cs@.subrange(e.device_start as int, e.device_end as int)
                        == mount_entries(vs.take(i as int))[k].0
                    &&& e.mount_point@ == mount_entries(vs.take(i as int))[k].1
                },
        decreases ls.len() - i,
    {
        let line = &ls[i];
        let start = starts[i];
        assert(vs.take(i + 1).drop_last() =~= vs.take(i as int));
        assert(vs.take(i + 1).last() == line@);
        match first_two_words(line) {
            Some((a, b, c, d)) => {
                let mp = copy_range(line, c, d);
                let mount_point = chars_to_string(&mp);
                proof {
                    let whole = cs@.subrange(start as int, start + line.len());
                    assert(cs@.subrange(start + a, start + b) =~= whole.subrange(
                        a as int,
                        b as int,
                    ));
                }
                es.push(MountEntry { device_start: start + a, device_end: start + b, mount_point });
            },
            None => {},
        }
        i = i + 1;
    }
    assert(vs.take(ls.len() as int) =~= vs);
    es
}

/// The length of `s` in UTF-8 bytes, as `str::len` returns it.
pub open spec fn byte_len(s: Seq<char>) -> nat {
    (encode_utf8(s).len() as usize) as nat
}

/// Entry `i` matches, and no matching entry has a longer mount point, nor one as long
/// before it. Entries past the end of `matches` do not match.
pub open spec fn is_longest_match(lens: Seq<nat>, matches: Seq<bool>, i: int) -> bool {
    &&& 0 <= i < lens.len()
    &&& i < matches.len() && matches[i]
    &&& forall|k: int|
        0 <= k < lens.len() && k < matches.len() && #[trigger] matches[k] ==> lens[k] <= lens[i]
            && (k < i ==> lens[k] < lens[i])
}

/// The byte lengths of the entries' mount points.
pub open spec fn mount_point_lens(es: Seq<MountEntry>) -> Seq<nat> {
    es.map_values(|e: MountEntry| byte_len(e.mount_point@))
}

/// Among the entries marked in `matches`, the first one with the longest mount point.
pub fn select_best_mount(entries: &Vec<MountEntry>, matches: &Vec<bool>) -> (r: Option<usize>)
    ensures
        match r {
            Some(i) => is_longest_match(mount_point_lens(entries@), matches@, i as int),
            None => forall|k: int|
                0 <= k < entries.len() && k < matches.len() ==> !#[trigger] matches@[k],
        },
{
    let ghost lens = mount_point_lens(entries@);
    let mut best: Option<usize> = None;
    let mut best_len: usize = 0;
    let mut k: usize = 0;
    while k < entries.len()
        invariant
            k <= entries.len(),
            lens == mount_point_lens(entries@),
            match best {
                Some(i) => i < k && i < matches.len() && matches@[i as int] && best_len
                    == lens[i as int] && forall|j: int|
                    0 <= j < k && j < matches.len() && #[trigger] matches@[j] ==> lens[j]
                        <= lens[i as int] && (j < i ==> lens[j] < lens[i as int]),
                None => forall|j: int| 0 <= j < k && j < matches.len() ==> !#[trigger] matches@[j],
            },
        decreases entries.len() - k,
    {
        if k < matches.len() && matches[k] {
            let len = entries[k].mount_point.as_str().len();
            assert(len == lens[k as int]);
            match best {
                Some(_) => {
                    if len > best_len {
                        best = Some(k);
                        best_len = len;
                    }
                },
                None => {
                    best = Some(k);
                    best_len = len;
                },
            }
        }
        k = k + 1;
    }
    best
}

/// Whether `path` starts with `base`, component by component, as `Path::starts_with`
/// decides it.
pub uninterp spec fn path_starts_with(path: Seq<char>, base: Seq<char>) -> bool;

/// `std::path::Path::starts_with` on two paths given as text.
///
/// The contract only names the result: a function of the two paths, left unstated
/// here (the standard library compares whole components).
#[verifier::external_body]
fn path_has_prefix(path: &str, base: &str) -> (r: bool)
    ensures
        r == path_starts_with(path@, base@),
{
    std::path::Path::new(path).starts_with(std::path::Path::new(base))
}

/// The device of the mount entry that holds `target`: of the entries whose mount point
/// is a prefix of `target`, the first with the longest mount point.
pub open spec fn is_best_mount(table: Seq<(Seq<char>, Seq<char>)>, target: Seq<char>, i: int) -> bool {
    is_longest_match(
        table.map_values(|e: (Seq<char>, Seq<char>)| byte_len(e.1)),
        table.map_values(|e: (Seq<char>, Seq<char>)| path_starts_with(target, e.1)),
        i,
    )
}

/// The device mounted most specifically over `target`, if any.
pub open spec fn best_mount_device(content: Seq<char>, target: Seq<char>) -> Option<Seq<char>> {
    let table = mount_table(content);
    if exists|i: int| is_best_mount(table, target, i) {
        Some(table[choose|i: int| is_best_mount(table, target, i)].0)
    } else {
        None
    }
}

/// At most one entry is the best one.
pub proof fn lemma_longest_match_unique(lens: Seq<nat>, matches: Seq<bool>, i: int, j: int)
    requires
        is_longest_match(lens, matches, i),
        is_longest_match(lens, matches, j),
    ensures
        i == j,
{
    assert(matches[i] && matches[j]);
}

/// Finds the most specific mount point in a mount table matching `target_path`, and
/// returns its device.
pub fn parse_best_mount<'a>(mounts_content: &'a str, target_path: &str) -> (r: Option<&'a str>)
    ensures
        match r {
            Some(dev) => best_mount_device(mounts_content@, target_path@) == Some(dev@),
            None => best_mount_device(mounts_content@, target_path@) is None,
        },
{
    let entries = parse_mount_table(mounts_content);
    let ghost table = mount_table(mounts_content@);
    let ghost lens = table.map_values(|e: (Seq<char>, Seq<char>)| byte_len(e.1));
    let ghost want = table.map_values(|e: (Seq<char>, Seq<char>)| path_starts_with(target_path@, e.1));
    let mut matches: Vec<bool> = Vec::new();
    let mut k: usize = 0;
    while k < entries.len()
        invariant
            k <= entries.len() == table.len(),
            matches@ == want.take(k as int),
            want == table.map_values(|e: (Seq<char>, Seq<char>)| path_starts_with(target_path@, e.1)),
            forall|i: int| 0 <= i < entries.len() ==> (#[trigger] entries@[i]).mount_point@ == table[i].1,
        decreases entries.len() - k,
    {
        let m = path_has_prefix(target_path, entries[k].mount_point.as_str());
        matches.push(m);
        assert(matches@ =~= want.take(k + 1));
        k = k + 1;
    }
    assert(matches@ =~= want);
    assert(mount_point_lens(entries@) =~= lens);
    match select_best_mount(&entries, &matches) {
        Some(i) => {
            assert(is_best_mount(table, target_path@, i as int));
            proof {
                let c = choose|c: int| is_best_mount(table, target_path@, c);
                lemma_longest_match_unique(lens, want, i as int, c);
            }
            let e = &entries[i];
            Some(mounts_content.substring_char(e.device_start, e.device_end))
        },
        None => {
            assert forall|i: int| !is_best_mount(table, target_path@, i) by {
                if 0 <= i < table.len() && is_best_mount(table, target_path@, i) {
                    assert(want[i]);
                }
            }
            None
        },
    }
}

// ---------------------------------------------------------------------------
// Every line takes part

/// Each line of a mount table with at least two words gives an entry made of its first
/// two words, whatever they are (a device path, `tmpfs`, `nas:/video`, ...).
pub proof fn lemma_every_line_is_an_entry(ls: Seq<Seq<char>>, i: int)
    requires
        0 <= i < ls.len(),
        words_from(ls[i], 0).len() >= 2,
    ensures
        exists|k: int|
            0 <= k < mount_entries(ls).len() && #[trigger] mount_entries(ls)[k] == (
                words_from(ls[i], 0)[0],
                words_from(ls[i], 0)[1],
            ),
    decreases ls.len(),
{
    let w = words_from(ls[i], 0);
    let e = mount_entries(ls);
    if i == ls.len() - 1 {
        assert(e[e.len() - 1] == (w[0], w[1]));
    } else {
        let rest = ls.drop_last();
        assert(rest[i] == ls[i]);
        lemma_every_line_is_an_entry(rest, i);
        let r = mount_entries(rest);
        let k = choose|k: int| 0 <= k < r.len() && #[trigger] r[k] == (w[0], w[1]);
        assert(e[k] == r[k]);
    }
}

/// The best of the first `n` entries: matching, none of them matching with a longer
/// mount point, none before it as long.
pub open spec fn best_among(lens: Seq<nat>, matches: Seq<bool>, n: int, i: int) -> bool {
    &&& 0 <= i < n
    &&& i < matches.len() && matches[i]
    &&& forall|k: int|
        0 <= k < n && k < matches.len() && #[trigger] matches[k] ==> lens[k] <= lens[i] && (k < i
            ==> lens[k] < lens[i])
}

proof fn lemma_best_exists(lens: Seq<nat>, matches: Seq<bool>, n: int, m: int)
    requires
        0 <= m < n <= lens.len(),
        m < matches.len() && matches[m],
    ensures
        exists|i: int| best_among(lens, matches, n, i),
    decreases n,
{
    let last = n - 1;
    let last_matches = last < matches.len() && matches[last];
    if m == last && !(exists|i: int| best_among(lens, matches, last, i)) {
        assert forall|k: int| 0 <= k < last && k < matches.len() && #[trigger] matches[k] implies false by {
            lemma_best_exists(lens, matches, last, k);
        }
        assert(best_among(lens, matches, n, last));
    } else {
        if m < last {
            lemma_best_exists(lens, matches, last, m);
        }
        let i = choose|i: int| best_among(lens, matches, last, i);
        if last_matches && lens[last] > lens[i] {
            assert(best_among(lens, matches, n, last));
        } else {
            assert(best_among(lens, matches, n, i));
        }
    }
}

/// Every line of the table takes part in the search: when a line's mount point (its
/// second word) holds the target, the chosen device is that of a mount point at least
/// as long, so the most specific mount wins over all lines.
pub proof fn lemma_best_mount_considers_every_line(content: Seq<char>, target: Seq<char>, i: int)
    requires
        0 <= i < lines(content).len(),
        words_from(lines(content)[i], 0).len() >= 2,
        path_starts_with(target, words_from(lines(content)[i], 0)[1]),
    ensures
        exists|c: int|
            is_best_mount(mount_table(content), target, c) && best_mount_device(content, target)
                == Some(mount_table(content)[c].0) && byte_len(
                words_from(lines(content)[i], 0)[1],
            ) <= byte_len(#[trigger] mount_table(content)[c].1),
{
    let ls = lines(content);
    let table = mount_table(content);
    let w = words_from(ls[i], 0);
    lemma_every_line_is_an_entry(ls, i);
    let k = choose|k: int| 0 <= k < table.len() && #[trigger] table[k] == (w[0], w[1]);
    let lens = table.map_values(|e: (Seq<char>, Seq<char>)| byte_len(e.1));
    let want = table.map_values(|e: (Seq<char>, Seq<char>)| path_starts_with(target, e.1));
    assert(want[k]);
    lemma_best_exists(lens, want, table.len() as int, k);
    let b = choose|b: int| best_among(lens, want, table.len() as int, b);
    assert(is_best_mount(table, target, b));
    let c = choose|c: int| is_best_mount(table, target, c);
    lemma_longest_match_unique(lens, want, b, c);
    assert(lens[k] <= lens[c]);
}

// ---------------------------------------------------------------------------
// The rotational flag

/// `/dev/`
pub open spec fn dev_dir() -> Seq<char> {
    seq!['/', 'd', 'e', 'v', '/']
}

/// `/sys/block/`
pub open spec fn sys_block_dir() -> Seq<char> {
    seq!['/', 's', 'y', 's', '/', 'b', 'l', 'o', 'c', 'k', '/']
}

/// `/queue/rotational`
pub open spec fn rotational_file() -> Seq<char> {
    seq!['/', 'q', 'u', 'e', 'u', 'e', '/', 'r', 'o', 't', 'a', 't', 'i', 'o', 'n', 'a', 'l']
}

/// `s` without any number of leading `/dev/` (`trim_start_matches("/dev/")`).
pub open spec fn strip_dev_dir(s: Seq<char>) -> Seq<char>
    decreases s.len(),
{
    if s.len() >= 5 && s.take(5) == dev_dir() {
        strip_dev_dir(s.skip(5))
    } else {
        s
    }
}

/// The sysfs file telling whether the disk that holds the device `dev_path` rotates:
/// `/sys/block/<disk>/queue/rotational`.
pub open spec fn rotational_flag_file(dev_path: Seq<char>) -> Seq<char> {
    sys_block_dir() + base_block_device(strip_dev_dir(dev_path)) + rotational_file()
}

/// The path of the sysfs rotational flag for a device path such as `/dev/sda2`.
pub fn rotational_flag_path(dev_path: &str) -> (p: String)
    ensures
        p@ == rotational_flag_file(dev_path@),
{
    let cs = str_to_chars(dev_path);
    let dev = vec!['/', 'd', 'e', 'v', '/'];
    assert(dev@ =~= dev_dir());
    let mut k: usize = 0;
    assert(cs@.skip(0) =~= cs@);
    while cs.len() - k >= 5 && chars_start_with(&copy_range(&cs, k, cs.len()), &dev)
        invariant
            k <= cs.len(),
            cs@ == dev_path@,
            dev@ == dev_dir(),
            strip_dev_dir(dev_path@) == strip_dev_dir(cs@.skip(k as int)),
        decreases cs.len() - k,
    {
        assert(cs@.subrange(k as int, cs.len() as int) =~= cs@.skip(k as int));
        assert(cs@.skip(k as int).skip(5) =~= cs@.skip(k + 5));
        k = k + 5;
    }
    proof {
        assert(cs@.subrange(k as int, cs.len() as int) =~= cs@.skip(k as int));
    }
    let name = dev_path.substring_char(k, cs.len());
    assert(name@ =~= cs@.skip(k as int));
    let base = extract_base_block_device(name);
    let prefix = "/sys/block/";
    let suffix = "/queue/rotational";
    proof {
        reveal_strlit("/sys/block/");
        reveal_strlit("/queue/rotational");
        assert(prefix@ =~= sys_block_dir());
        assert(suffix@ =~= rotational_file());
    }
    let mut p = String::from_str(prefix);
    p.append(base);
    p.append(suffix);
    p
}

/// The sysfs rotational flag text says the disk rotates: it is `1` once trimmed.
pub open spec fn is_rotational_text(content: Seq<char>) -> bool {
    trim(content) == seq!['1']
}

/// Reads the text of a `queue/rotational` file.
pub fn is_rotational_flag(content: &str) -> (r: bool)
    ensures
        r == is_rotational_text(content@),
{
    let cs = str_to_chars(content);
    let (a, b) = trim_bounds(&cs);
    let r = b - a == 1 && cs[a] == '1';
    proof {
        let t = cs@.subrange(a as int, b as int);
        if r {
            assert(t =~= seq!['1']);
        } else if t == seq!['1'] {
            assert(t.len() == 1);
            assert(t[0] == cs@[a as int]);
        }
    }
    r
}

} // verus!
