//! The `ScaledBorderAndShadow` fix applied to the text of an ASS/SSA script.
use vstd::prelude::*;

use crate::text::{
    chars_eq_ignore_ascii_case, chars_to_string, copy_range,
    eq_ignore_ascii_case, find_char, join_lines, join_with_newlines,
    lemma_find_char_at, lines, split_lines, str_to_chars, trim, trimmed, views,
};

verus! {

/// What `process_ass_content` decided for one script.
#[derive(Debug, PartialEq, Eq)]
pub enum SubtitleOutcome {
    /// The subtitle was already compliant, no changes needed.
    Unchanged,
    /// The subtitle was modified and contains the updated ASS content.
    Modified { new_content: String },
}

/// The byte order mark that may precede a script.
pub open spec fn bom() -> char {
    '\u{feff}'
}

/// `s` without its leading byte order marks (`trim_start_matches('\u{feff}')`).
pub open spec fn strip_bom(s: Seq<char>) -> Seq<char>
    decreases s.len(),
{
    if s.len() > 0 && s[0] == bom() {
        strip_bom(s.drop_first())
    } else {
        s
    }
}

/// `[Script Info]`, the title of the section that holds the flag.
pub open spec fn script_info_title() -> Seq<char> {
    seq!['[', 'S', 'c', 'r', 'i', 'p', 't', ' ', 'I', 'n', 'f', 'o', ']']
}

/// `ScaledBorderAndShadow`, the key of the flag.
pub open spec fn flag_key() -> Seq<char> {
    seq![
        'S', 'c', 'a', 'l', 'e', 'd', 'B', 'o', 'r', 'd', 'e', 'r', 'A', 'n', 'd', 'S', 'h', 'a',
        'd', 'o', 'w',
    ]
}

/// `ScaledBorderAndShadow: yes`, the line written when the flag is missing or wrong.
pub open spec fn flag_line() -> Seq<char> {
    flag_key() + seq![':', ' ', 'y', 'e', 's']
}

/// `yes`
pub open spec fn yes_value() -> Seq<char> {
    seq!['y', 'e', 's']
}

/// `1`
pub open spec fn one_value() -> Seq<char> {
    seq!['1']
}

/// The line opens the `[Script Info]` section (any letter case, any surrounding space).
pub open spec fn is_script_info_header(line: Seq<char>) -> bool {
    eq_ignore_ascii_case(trim(line), script_info_title())
}

/// The line opens some section: trimmed, it starts with `[` and ends with `]`.
pub open spec fn is_section_header(line: Seq<char>) -> bool {
    let t = trim(line);
    t.len() > 0 && t[0] == '[' && t.last() == ']'
}

/// For a `key: value` line whose key is `ScaledBorderAndShadow` (any letter case), the
/// trimmed value; the line is split at its first colon.
pub open spec fn flag_value(line: Seq<char>) -> Option<Seq<char>> {
    let t = trim(line);
    let i = find_char(t, ':');
    if i < t.len() && eq_ignore_ascii_case(trim(t.take(i)), flag_key()) {
        Some(trim(t.skip(i + 1)))
    } else {
        None
    }
}

/// A flag value that already asks for scaling: `yes` in any letter case, or `1`.
pub open spec fn is_compliant_value(v: Seq<char>) -> bool {
    eq_ignore_ascii_case(v, yes_value()) || v == one_value()
}

/// Index of the first `[Script Info]` line at or after `k`.
pub open spec fn first_script_info(ls: Seq<Seq<char>>, k: int) -> Option<int>
    decreases ls.len() - k,
{
    if k < 0 || k >= ls.len() {
        None
    } else if is_script_info_header(ls[k]) {
        Some(k)
    } else {
        first_script_info(ls, k + 1)
    }
}

/// Searching the `[Script Info]` section from line `k` on: the index of the flag line,
/// or `None` once another section starts or the lines run out. Repeated
/// `[Script Info]` titles do not end the section.
pub open spec fn find_flag(ls: Seq<Seq<char>>, k: int) -> Option<int>
    decreases ls.len() - k,
{
    if k < 0 || k >= ls.len() {
        None
    } else if is_script_info_header(ls[k]) {
        find_flag(ls, k + 1)
    } else if is_section_header(ls[k]) {
        None
    } else if flag_value(ls[k]) is Some {
        Some(k)
    } else {
        find_flag(ls, k + 1)
    }
}

/// The lines after the fix, or `None` when the script is left as it is: without a
/// `[Script Info]` section, or when its flag already asks for scaling. A wrong flag
/// line is replaced; a missing one is inserted right after the section title.
pub open spec fn fixed_lines(ls: Seq<Seq<char>>) -> Option<Seq<Seq<char>>> {
    match first_script_info(ls, 0) {
        None => None,
        Some(h) => match find_flag(ls, h + 1) {
            None => Some(ls.insert(h + 1, flag_line())),
            Some(j) => if is_compliant_value(flag_value(ls[j]).unwrap()) {
                None
            } else {
                Some(ls.update(j, flag_line()))
            },
        },
    }
}

/// `s` ends with a line feed.
pub open spec fn ends_with_newline(s: Seq<char>) -> bool {
    s.len() > 0 && s.last() == '\n'
}

/// The fixed script text, or `None` when the script is left as it is. The lines (after
/// the byte order marks) are rejoined by `\n`, with a final `\n` when the input had one.
pub open spec fn fix_script(content: Seq<char>) -> Option<Seq<char>> {
    match fixed_lines(lines(strip_bom(content))) {
        None => None,
        Some(out) => Some(
            join_lines(out) + if ends_with_newline(content) {
                seq!['\n']
            } else {
                Seq::<char>::empty()
            },
        ),
    }
}

fn script_info_title_chars() -> (v: Vec<char>)
    ensures
        v@ == script_info_title(),
{
    let v = vec!['[', 'S', 'c', 'r', 'i', 'p', 't', ' ', 'I', 'n', 'f', 'o', ']'];
    assert(v@ =~= script_info_title());
    v
}

fn flag_key_chars() -> (v: Vec<char>)
    ensures
        v@ == flag_key(),
{
    let v = vec![
        'S', 'c', 'a', 'l', 'e', 'd', 'B', 'o', 'r', 'd', 'e', 'r', 'A', 'n', 'd', 'S', 'h', 'a',
        'd', 'o', 'w',
    ];
    assert(v@ =~= flag_key());
    v
}

fn flag_line_chars() -> (v: Vec<char>)
    ensures
        v@ == flag_line(),
{
    let v = vec![
        'S', 'c', 'a', 'l', 'e', 'd', 'B', 'o', 'r', 'd', 'e', 'r', 'A', 'n', 'd', 'S', 'h', 'a',
        'd', 'o', 'w', ':', ' ', 'y', 'e', 's',
    ];
    assert(v@ =~= flag_line());
    v
}

fn is_script_info_line(line: &Vec<char>) -> (r: bool)
    ensures
        r == is_script_info_header(line@),
{
    let t = trimmed(line);
    let title = script_info_title_chars();
    chars_eq_ignore_ascii_case(&t, &title)
}

fn is_section_line(line: &Vec<char>) -> (r: bool)
    ensures
        r == is_section_header(line@),
{
    let t = trimmed(line);
    t.len() > 0 && t[0] == '[' && t[t.len() - 1] == ']'
}

fn flag_value_of(line: &Vec<char>) -> (r: Option<Vec<char>>)
    ensures
        match r {
            Some(v) => flag_value(line@) == Some(v@),
            None => flag_value(line@) is None,
        },
{
    let t = trimmed(line);
    let mut i: usize = 0;
    while i < t.len() && t[i] != ':'
        invariant
            i <= t.len(),
            forall|j: int| 0 <= j < i ==> t@[j] != ':',
        decreases t.len() - i,
    {
        i = i + 1;
    }
    proof {
        lemma_find_char_at(t@, ':', i as int);
    }
    if i == t.len() {
        return None;
    }
    let key = copy_range(&t, 0, i);
    let key_t = trimmed(&key);
    let wanted = flag_key_chars();
    assert(key@ =~= t@.take(i as int));
    if !chars_eq_ignore_ascii_case(&key_t, &wanted) {
        return None;
    }
    let value = copy_range(&t, i + 1, t.len());
    assert(value@ =~= t@.skip(i + 1));
    Some(trimmed(&value))
}

fn is_compliant(v: &Vec<char>) -> (r: bool)
    ensures
        r == is_compliant_value(v@),
{
    let yes = vec!['y', 'e', 's'];
    assert(yes@ =~= yes_value());
    if chars_eq_ignore_ascii_case(v, &yes) {
        return true;
    }
    let r = v.len() == 1 && v[0] == '1';
    assert(r ==> v@ =~= one_value());
    r
}

/// Executable `find_flag`: the flag line's index and trimmed value.
fn search_flag(ls: &Vec<Vec<char>>, from: usize) -> (r: Option<(usize, Vec<char>)>)
    ensures
        match r {
            Some((j, v)) => find_flag(views(ls@), from as int) == Some(j as int) && j < ls.len()
                && flag_value(ls@[j as int]@) == Some(v@),
            None => find_flag(views(ls@), from as int) is None,
        },
{
    let ghost vs = views(ls@);
    let mut j = from;
    while j < ls.len()
        invariant
            vs == views(ls@),
            from <= j,
            find_flag(vs, from as int) == find_flag(vs, j as int),
        decreases ls.len() - j,
    {
        assert(vs[j as int] == ls@[j as int]@);
        if is_script_info_line(&ls[j]) {
            j = j + 1;
        } else if is_section_line(&ls[j]) {
            return None;
        } else {
            match flag_value_of(&ls[j]) {
                Some(v) => {
                    return Some((j, v));
                },
                None => {
                    j = j + 1;
                },
            }
        }
    }
    None
}

/// Ensures the `[Script Info]` section of an ASS/SSA script sets
/// `ScaledBorderAndShadow: yes`.
///
/// A flag set to anything but `yes` (any case) or `1` is replaced; a missing flag is
/// inserted right after the section title. Leading byte order marks are dropped, lines
/// are rejoined with `\n`, and a final line feed is kept. Scripts without a
/// `[Script Info]` section, or whose flag is already compliant, are left unchanged.
pub fn process_ass_content(content: &str) -> (r: SubtitleOutcome)
    ensures
        match r {
            SubtitleOutcome::Unchanged => fix_script(content@) is None,
            SubtitleOutcome::Modified { new_content } => fix_script(content@) == Some(
                new_content@,
            ),
        },
{
    let chars = str_to_chars(content);
    let mut b: usize = 0;
    assert(chars@.skip(0) =~= chars@);
    while b < chars.len() && chars[b] == '\u{feff}'
        invariant
            b <= chars.len(),
            chars@ == content@,
            strip_bom(content@) == strip_bom(chars@.skip(b as int)),
        decreases chars.len() - b,
    {
        assert(chars@.skip(b as int).drop_first() =~= chars@.skip(b + 1));
        b = b + 1;
    }
    let clean = copy_range(&chars, b, chars.len());
    assert(clean@ =~= chars@.skip(b as int));
    assert(clean@ == strip_bom(content@));
    let (mut ls, _) = split_lines(&clean);
    let ghost vs = views(ls@);
    let mut h: usize = 0;
    while h < ls.len() && !is_script_info_line(&ls[h])
        invariant
            h <= ls.len(),
            vs == views(ls@),
            first_script_info(vs, 0) == first_script_info(vs, h as int),
        decreases ls.len() - h,
    {
        h = h + 1;
    }
    if h == ls.len() {
        return SubtitleOutcome::Unchanged;
    }
    assert(first_script_info(vs, 0) == Some(h as int));
    match search_flag(&ls, h + 1) {
        None => {
            ls.insert(h + 1, flag_line_chars());
            assert(views(ls@) =~= vs.insert(h + 1, flag_line()));
        },
        Some((j, v)) => {
            if is_compliant(&v) {
                return SubtitleOutcome::Unchanged;
            }
            ls[j] = flag_line_chars();
            assert(views(ls@) =~= vs.update(j as int, flag_line()));
        },
    }
    let mut out = join_with_newlines(&ls);
    if chars.len() > 0 && chars[chars.len() - 1] == '\n' {
        out.push('\n');
    }
    let new_content = chars_to_string(&out);
    SubtitleOutcome::Modified { new_content }
}

} // verus!
