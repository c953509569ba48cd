//! Character-level text model shared by the subtitle, storage and scanner logic.
//!
//! Strings are modelled by their `Seq<char>` view. The spec functions here state
//! what the `str` operations used by the tool compute (`trim`, `lines`,
//! `eq_ignore_ascii_case`, ...), and the executable helpers are proved against them.
use vstd::prelude::*;

verus! {

/// The Unicode `White_Space` property, as used by `char::is_whitespace`.
pub open spec fn is_white_space(c: char) -> bool {
    let u = c as u32;
    (0x9 <= u && u <= 0xd) || u == 0x20 || u == 0x85 || u == 0xa0 || u == 0x1680 || (0x2000 <= u
        && u <= 0x200a) || u == 0x2028 || u == 0x2029 || u == 0x202f || u == 0x205f || u == 0x3000
}


/// `s` with leading white space removed (`str::trim_start`).
pub open spec fn trim_start(s: Seq<char>) -> Seq<char>
    decreases s.len(),
{
    if s.len() > 0 && is_white_space(s[0]) {
        trim_start(s.drop_first())
    } else {
        s
    }
}

/// `s` with trailing white space removed (`str::trim_end`).
pub open spec fn trim_end(s: Seq<char>) -> Seq<char>
    decreases s.len(),
{
    if s.len() > 0 && is_white_space(s.last()) {
        trim_end(s.drop_last())
    } else {
        s
    }
}

/// `s` with white space removed at both ends (`str::trim`).
pub open spec fn trim(s: Seq<char>) -> Seq<char> {
    trim_start(trim_end(s))
}

/// ASCII lower-casing of a character, as a code point.
pub open spec fn ascii_fold(c: char) -> u32 {
    let u = c as u32;
    if 0x41 <= u && u <= 0x5a {
        (u + 0x20) as u32
    } else {
        u
    }
}

/// `str::eq_ignore_ascii_case`: equal up to ASCII letter case.
pub open spec fn eq_ignore_ascii_case(a: Seq<char>, b: Seq<char>) -> bool {
    &&& a.len() == b.len()
    &&& forall|i: int| 0 <= i < a.len() ==> #[trigger] ascii_fold(a[i]) == ascii_fold(b[i])
}

/// Index of the first occurrence of `c` in `s`, or `s.len()` when there is none.
pub open spec fn find_char(s: Seq<char>, c: char) -> int
    decreases s.len(),
{
    if s.len() == 0 {
        0
    } else if s[0] == c {
        0
    } else {
        1 + find_char(s.drop_first(), c)
    }
}

/// `find_char` is the index of the first occurrence, or the length when there is none.
pub proof fn lemma_find_char(s: Seq<char>, c: char)
    ensures
        0 <= find_char(s, c) <= s.len(),
        find_char(s, c) < s.len() ==> s[find_char(s, c)] == c,
        forall|j: int| 0 <= j < find_char(s, c) ==> s[j] != c,
    decreases s.len(),
{
    if s.len() > 0 && s[0] != c {
        lemma_find_char(s.drop_first(), c);
        assert forall|j: int| 0 <= j < find_char(s, c) implies s[j] != c by {
            if j > 0 {
                assert(s[j] == s.drop_first()[j - 1]);
            }
        }
    }
}

/// Conversely, an index with `c` there and none before is `find_char`.
pub proof fn lemma_find_char_at(s: Seq<char>, c: char, k: int)
    requires
        0 <= k <= s.len(),
        k < s.len() ==> s[k] == c,
        forall|j: int| 0 <= j < k ==> s[j] != c,
    ensures
        find_char(s, c) == k,
    decreases s.len(),
{
    if s.len() > 0 && s[0] != c {
        assert forall|j: int| 0 <= j < k - 1 implies s.drop_first()[j] != c by {
            assert(s[j + 1] != c);
        }
        lemma_find_char_at(s.drop_first(), c, k - 1);
    }
}

/// A line as `str::lines` yields it: one trailing carriage return is dropped.
pub open spec fn strip_cr(s: Seq<char>) -> Seq<char> {
    if s.len() > 0 && s.last() == '\r' {
        s.drop_last()
    } else {
        s
    }
}

/// The lines of `s`, as `str::lines` yields them: split at `\n`, a `\r` before the
/// `\n` dropped, and no empty line after a final `\n`.
pub open spec fn lines(s: Seq<char>) -> Seq<Seq<char>>
    decreases s.len(),
{
    if s.len() == 0 {
        seq![]
    } else {
        let i = find_char(s, '\n');
        proof {
            lemma_find_char(s, '\n');
        }
        if i < s.len() {
            seq![strip_cr(s.take(i))] + lines(s.skip(i + 1))
        } else {
            seq![s]
        }
    }
}

/// The lines of `ls` joined by `\n` (`[String]::join("\n")`).
pub open spec fn join_lines(ls: Seq<Seq<char>>) -> Seq<char>
    decreases ls.len(),
{
    if ls.len() == 0 {
        seq![]
    } else if ls.len() == 1 {
        ls[0]
    } else {
        ls[0] + seq!['\n'] + join_lines(ls.drop_first())
    }
}

/// The character sequences held by a vector of lines.
pub open spec fn views(ls: Seq<Vec<char>>) -> Seq<Seq<char>> {
    ls.map_values(|l: Vec<char>| l@)
}

/// `s` holds no line feed.
pub open spec fn no_newline(s: Seq<char>) -> bool {
    forall|i: int| 0 <= i < s.len() ==> s[i] != '\n'
}

/// `char::is_whitespace` from std.
///
/// Its documentation says it returns true exactly for characters with the Unicode
/// `White_Space` property; the contract lists those code points.
#[verifier::external_body]
pub fn char_is_whitespace(c: char) -> (r: bool)
    ensures
        r == is_white_space(c),
{
    c.is_whitespace()
}

/// `String::push` from std: appends one character.
#[verifier::external_body]
pub fn string_push(s: &mut String, c: char)
    ensures
        final(s)@ == old(s)@.push(c),
{
    s.push(c);
}

/// The characters of `s`, in order.
pub fn str_to_chars(s: &str) -> (v: Vec<char>)
    ensures
        v@ == s@,
{
    let mut v: Vec<char> = Vec::new();
    for c in it: s.chars()
        invariant
            it.seq() == s@,
            v@ == it.seq().take(it.index() as int),
    {
        v.push(c);
    }
    v
}

/// Joining one more line appends a line feed and that line.
pub proof fn lemma_join_push(ls: Seq<Seq<char>>, x: Seq<char>)
    requires
        ls.len() >= 1,
    ensures
        join_lines(ls.push(x)) == join_lines(ls) + seq!['\n'] + x,
    decreases ls.len(),
{
    if ls.len() == 1 {
        assert(ls.push(x).drop_first() =~= seq![x]);
        assert(join_lines(seq![x]) == x);
        assert(join_lines(ls.push(x)) =~= ls[0] + seq!['\n'] + x);
    } else {
        assert(ls.push(x).drop_first() =~= ls.drop_first().push(x));
        lemma_join_push(ls.drop_first(), x);
        assert(join_lines(ls.push(x)) =~= join_lines(ls) + seq!['\n'] + x);
    }
}

/// The characters `s[a..b]` as a new vector.
pub fn copy_range(s: &Vec<char>, a: usize, b: usize) -> (v: Vec<char>)
    requires
        a <= b <= s.len(),
    ensures
        v@ == s@.subrange(a as int, b as int),
{
    let mut v: Vec<char> = Vec::new();
    let mut i = a;
    while i < b
        invariant
            a <= i <= b <= s.len(),
            v@ == s@.subrange(a as int, i as int),
        decreases b - i,
    {
        v.push(s[i]);
        i = i + 1;
        assert(v@ =~= s@.subrange(a as int, i as int));
    }
    v
}

/// The bounds of `trim(s)` inside `s`.
pub fn trim_bounds(s: &Vec<char>) -> (r: (usize, usize))
    ensures
        r.0 <= r.1 <= s.len(),
        s@.subrange(r.0 as int, r.1 as int) == trim(s@),
{
    let mut e = s.len();
    assert(s@.take(e as int) =~= s@);
    while e > 0 && char_is_whitespace(s[e - 1])
        invariant
            e <= s.len(),
            trim_end(s@) == trim_end(s@.take(e as int)),
        decreases e,
    {
        assert(s@.take(e as int).drop_last() =~= s@.take(e - 1));
        e = e - 1;
    }
    assert(trim_end(s@) == s@.take(e as int));
    let mut a: usize = 0;
    assert(s@.subrange(0, e as int) =~= s@.take(e as int));
    while a < e && char_is_whitespace(s[a])
        invariant
            a <= e <= s.len(),
            trim(s@) == trim_start(s@.subrange(a as int, e as int)),
        decreases e - a,
    {
        assert(s@.subrange(a as int, e as int).drop_first() =~= s@.subrange(a + 1, e as int));
        a = a + 1;
    }
    (a, e)
}

/// `trim(s)` as a new vector.
pub fn trimmed(s: &Vec<char>) -> (t: Vec<char>)
    ensures
        t@ == trim(s@),
{
    let (a, b) = trim_bounds(s);
    copy_range(s, a, b)
}

/// ASCII lower-casing of a character, as a code point.
pub fn fold_char(c: char) -> (r: u32)
    ensures
        r == ascii_fold(c),
{
    let u = c as u32;
    if 0x41 <= u && u <= 0x5a {
        u + 0x20
    } else {
        u
    }
}

/// Equality up to ASCII letter case.
pub fn chars_eq_ignore_ascii_case(a: &Vec<char>, b: &Vec<char>) -> (r: bool)
    ensures
        r == eq_ignore_ascii_case(a@, b@),
{
    if a.len() != b.len() {
        return false;
    }
    let mut i: usize = 0;
    while i < a.len()
        invariant
            i <= a.len() == b.len(),
            forall|j: int| 0 <= j < i ==> #[trigger] ascii_fold(a@[j]) == ascii_fold(b@[j]),
        decreases a.len() - i,
    {
        if fold_char(a[i]) != fold_char(b[i]) {
            return false;
        }
        i = i + 1;
    }
    true
}

/// The lines of `s`, as `str::lines` yields them, each with the index in `s` where it
/// starts.
pub fn split_lines(s: &Vec<char>) -> (r: (Vec<Vec<char>>, Vec<usize>))
    ensures
        views(r.0@) == lines(s@),
        r.1.len() == r.0.len(),
        forall|i: int|
            0 <= i < r.0.len() ==> r.1@[i] + r.0@[i].len() <= s.len() && s@.subrange(
                #[trigger] r.1@[i] as int,
                r.1@[i] + r.0@[i].len(),
            ) == r.0@[i]@,
{
    let mut ls: Vec<Vec<char>> = Vec::new();
    let mut starts: Vec<usize> = Vec::new();
    let mut start: usize = 0;
    let mut i: usize = 0;
    assert(s@.skip(0) =~= s@);
    while i < s.len()
        invariant
            start <= i <= s.len(),
            lines(s@) == views(ls@) + lines(s@.skip(start as int)),
            forall|j: int| start <= j < i ==> s@[j] != '\n',
            starts.len() == ls.len(),
            forall|k: int|
                0 <= k < ls.len() ==> starts@[k] + ls@[k].len() <= start && s@.subrange(
                    #[trigger] starts@[k] as int,
                    starts@[k] + ls@[k].len(),
                ) == ls@[k]@,
        decreases s.len() - i,
    {
        if s[i] == '\n' {
            let ghost t = s@.skip(start as int);
            proof {
                lemma_find_char_at(t, '\n', i - start);
                assert(t.take(i - start) =~= s@.subrange(start as int, i as int));
                assert(t.skip(i - start + 1) =~= s@.skip(i + 1));
            }
            let mut line = copy_range(s, start, i);
            if line.len() > 0 && line[line.len() - 1] == '\r' {
                line.pop();
            }
            assert(line@ =~= strip_cr(s@.subrange(start as int, i as int)));
            assert(s@.subrange(start as int, start + line.len()) =~= line@);
            let ghost before = views(ls@);
            ls.push(line);
            starts.push(start);
            assert(views(ls@) =~= before.push(strip_cr(s@.subrange(start as int, i as int))));
            start = i + 1;
        }
        i = i + 1;
    }
    if start < s.len() {
        let ghost t = s@.skip(start as int);
        proof {
            lemma_find_char_at(t, '\n', t.len() as int);
            assert(s@.subrange(start as int, s.len() as int) =~= t);
        }
        let line = copy_range(s, start, s.len());
        let ghost before = views(ls@);
        ls.push(line);
        starts.push(start);
        assert(views(ls@) =~= before.push(t));
    } else {
        assert(s@.skip(start as int).len() == 0);
    }
    assert(lines(s@) =~= views(ls@));
    (ls, starts)
}

/// The lines joined by `\n`.
pub fn join_with_newlines(ls: &Vec<Vec<char>>) -> (v: Vec<char>)
    ensures
        v@ == join_lines(views(ls@)),
{
    let mut v: Vec<char> = Vec::new();
    if ls.len() == 0 {
        return v;
    }
    let ghost dv = views(ls@);
    let mut i: usize = 0;
    while i < ls.len()
        invariant
            i <= ls.len(),
            dv == views(ls@),
            i == 0 ==> v@.len() == 0,
            i > 0 ==> v@ == join_lines(dv.take(i as int)),
        decreases ls.len() - i,
    {
        if i > 0 {
            v.push('\n');
        }
        let line = &ls[i];
        let mut k: usize = 0;
        let ghost base = v@;
        while k < line.len()
            invariant
                k <= line.len(),
                v@ == base + line@.take(k as int),
            decreases line.len() - k,
        {
            v.push(line[k]);
            k = k + 1;
            assert(v@ =~= base + line@.take(k as int));
        }
        proof {
            assert(line@.take(k as int) =~= dv[i as int]);
            if i == 0 {
                assert(dv.take(1) =~= seq![dv[0]]);
                assert(v@ =~= join_lines(dv.take(1)));
            } else {
                lemma_join_push(dv.take(i as int), dv[i as int]);
                assert(dv.take(i as int).push(dv[i as int]) =~= dv.take(i + 1));
                assert(v@ =~= join_lines(dv.take(i + 1)));
            }
        }
        i = i + 1;
    }
    assert(dv.take(ls.len() as int) =~= dv);
    v
}

/// A string holding the characters of `v`.
pub fn chars_to_string(v: &Vec<char>) -> (s: String)
    ensures
        s@ == v@,
{
    let mut s = String::new();
    let mut i: usize = 0;
    while i < v.len()
        invariant
            i <= v.len(),
            s@ == v@.take(i as int),
        decreases v.len() - i,
    {
        string_push(&mut s, v[i]);
        i = i + 1;
        assert(s@ =~= v@.take(i as int));
    }
    assert(v@.take(v.len() as int) =~= v@);
    s
}

/// `p` is a prefix of `s` (`str::starts_with`).
pub open spec fn has_prefix(s: Seq<char>, p: Seq<char>) -> bool {
    p.len() <= s.len() && s.take(p.len() as int) == p
}

/// Whether `s` starts with `p`.
pub fn chars_start_with(s: &Vec<char>, p: &Vec<char>) -> (r: bool)
    ensures
        r == has_prefix(s@, p@),
{
    if p.len() > s.len() {
        return false;
    }
    let mut i: usize = 0;
    while i < p.len()
        invariant
            i <= p.len() <= s.len(),
            forall|j: int| 0 <= j < i ==> s@[j] == p@[j],
        decreases p.len() - i,
    {
        if s[i] != p[i] {
            assert(s@.take(p.len() as int)[i as int] != p@[i as int]);
            return false;
        }
        i = i + 1;
    }
    assert(s@.take(p.len() as int) =~= p@);
    true
}

/// The decimal digit for `d < 10`.
pub open spec fn digit_char(d: nat) -> char {
    if d == 0 {
        '0'
    } else if d == 1 {
        '1'
    } else if d == 2 {
        '2'
    } else if d == 3 {
        '3'
    } else if d == 4 {
        '4'
    } else if d == 5 {
        '5'
    } else if d == 6 {
        '6'
    } else if d == 7 {
        '7'
    } else if d == 8 {
        '8'
    } else {
        '9'
    }
}

/// The decimal notation of `n`, as `Display` writes an unsigned integer.
pub open spec fn decimal(n: nat) -> Seq<char>
    decreases n,
{
    if n < 10 {
        seq![digit_char(n)]
    } else {
        decimal(n / 10).push(digit_char(n % 10))
    }
}

fn digit(d: u64) -> (c: char)
    requires
        d < 10,
    ensures
        c == digit_char(d as nat),
{
    if d == 0 {
        '0'
    } else if d == 1 {
        '1'
    } else if d == 2 {
        '2'
    } else if d == 3 {
        '3'
    } else if d == 4 {
        '4'
    } else if d == 5 {
        '5'
    } else if d == 6 {
        '6'
    } else if d == 7 {
        '7'
    } else if d == 8 {
        '8'
    } else {
        '9'
    }
}

/// Appends the decimal notation of `n` to `out`.
pub fn push_decimal(out: &mut String, n: u64)
    ensures
        final(out)@ == old(out)@ + decimal(n as nat),
    decreases n,
{
    if n >= 10 {
        push_decimal(out, n / 10);
    }
    string_push(out, digit(n % 10));
    proof {
        if n >= 10 {
            assert(old(out)@ + decimal(n as nat) =~= old(out)@ + decimal((n / 10) as nat) + seq![
                digit_char((n % 10) as nat),
            ]);
        } else {
            assert(old(out)@ + decimal(n as nat) =~= old(out)@ + seq![digit_char(n as nat)]);
        }
    }
}


/// The items joined by `sep` (`[String]::join(sep)`).
pub open spec fn joined(items: Seq<Seq<char>>, sep: Seq<char>) -> Seq<char>
    decreases items.len(),
{
    if items.len() == 0 {
        seq![]
    } else if items.len() == 1 {
        items[0]
    } else {
        joined(items.drop_last(), sep) + sep + items.last()
    }
}

} // verus!
