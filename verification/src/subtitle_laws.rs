//! Properties of the `ScaledBorderAndShadow` fix that hold for every script.
use vstd::prelude::*;

use crate::subtitles::{
    bom, ends_with_newline, find_flag, first_script_info, fix_script, fixed_lines, flag_key,
    flag_line, flag_value, is_compliant_value, is_script_info_header, is_section_header,
    one_value, script_info_title, strip_bom, yes_value,
};
use crate::text::{
    ascii_fold, eq_ignore_ascii_case, find_char, is_white_space, join_lines, lemma_find_char,
    lemma_find_char_at, lines, no_newline, strip_cr, trim, trim_end, trim_start,
};

verus! {

/// Two lists of lines that agree line by line once trimmed.
pub open spec fn same_trimmed(a: Seq<Seq<char>>, b: Seq<Seq<char>>) -> bool {
    &&& a.len() == b.len()
    &&& forall|i: int| 0 <= i < a.len() ==> #[trigger] trim(a[i]) == trim(b[i])
}

/// Each line with its trailing carriage return dropped.
pub open spec fn strip_crs(ls: Seq<Seq<char>>) -> Seq<Seq<char>> {
    ls.map_values(|l: Seq<char>| strip_cr(l))
}

// ---------------------------------------------------------------------------
// `lines` and `join_lines`

proof fn lemma_lines_no_newline(s: Seq<char>)
    ensures
        forall|i: int| 0 <= i < lines(s).len() ==> no_newline(#[trigger] lines(s)[i]),
    decreases s.len(),
{
    if s.len() > 0 {
        let i = find_char(s, '\n');
        lemma_find_char(s, '\n');
        if i < s.len() {
            lemma_lines_no_newline(s.skip(i + 1));
            let first = strip_cr(s.take(i));
            assert(no_newline(first));
            assert forall|k: int| 0 <= k < lines(s).len() implies no_newline(
                #[trigger] lines(s)[k],
            ) by {
                if k > 0 {
                    assert(lines(s)[k] == lines(s.skip(i + 1))[k - 1]);
                }
            }
        }
    }
}

proof fn lemma_lines_cons(x: Seq<char>, rest: Seq<char>)
    requires
        no_newline(x),
    ensures
        lines(x + seq!['\n'] + rest) == seq![strip_cr(x)] + lines(rest),
{
    let s = x + seq!['\n'] + rest;
    lemma_find_char_at(s, '\n', x.len() as int);
    assert(s.take(x.len() as int) =~= x);
    assert(s.skip(x.len() as int + 1) =~= rest);
}

proof fn lemma_lines_single(x: Seq<char>)
    requires
        no_newline(x),
        x.len() > 0,
    ensures
        lines(x) == seq![x],
{
    lemma_find_char_at(x, '\n', x.len() as int);
}

proof fn lemma_lines_of_join_newline(ls: Seq<Seq<char>>)
    requires
        ls.len() >= 1,
        forall|i: int| 0 <= i < ls.len() ==> no_newline(#[trigger] ls[i]),
    ensures
        lines(join_lines(ls) + seq!['\n']) == strip_crs(ls),
    decreases ls.len(),
{
    if ls.len() == 1 {
        lemma_lines_cons(ls[0], Seq::empty());
        assert(ls[0] + seq!['\n'] + Seq::<char>::empty() =~= join_lines(ls) + seq!['\n']);
        assert(lines(Seq::<char>::empty()) =~= Seq::<Seq<char>>::empty());
        assert(lines(join_lines(ls) + seq!['\n']) =~= strip_crs(ls));
    } else {
        let tail = ls.drop_first();
        assert forall|i: int| 0 <= i < tail.len() implies no_newline(#[trigger] tail[i]) by {
            assert(tail[i] == ls[i + 1]);
        }
        lemma_lines_of_join_newline(tail);
        assert(no_newline(ls[0]));
        lemma_lines_cons(ls[0], join_lines(tail) + seq!['\n']);
        assert(join_lines(ls) + seq!['\n'] =~= ls[0] + seq!['\n'] + (join_lines(tail) + seq![
            '\n',
        ]));
        assert(lines(join_lines(ls) + seq!['\n']) =~= strip_crs(ls));
    }
}

proof fn lemma_lines_of_join(ls: Seq<Seq<char>>)
    requires
        ls.len() >= 1,
        forall|i: int| 0 <= i < ls.len() ==> no_newline(#[trigger] ls[i]),
        ls.last().len() > 0,
    ensures
        lines(join_lines(ls)) == strip_crs(ls.drop_last()).push(
            ls.last(),
        ),
    decreases ls.len(),
{
    if ls.len() == 1 {
        lemma_lines_single(ls[0]);
        assert(lines(join_lines(ls)) =~= strip_crs(ls.drop_last()).push(ls.last()));
    } else {
        let tail = ls.drop_first();
        assert forall|i: int| 0 <= i < tail.len() implies no_newline(#[trigger] tail[i]) by {
            assert(tail[i] == ls[i + 1]);
        }
        lemma_lines_of_join(tail);
        assert(no_newline(ls[0]));
        lemma_lines_cons(ls[0], join_lines(tail));
        assert(lines(join_lines(ls)) =~= strip_crs(ls.drop_last()).push(ls.last()));
    }
}

proof fn lemma_lines_last_nonempty(s: Seq<char>)
    requires
        s.len() > 0,
        !ends_with_newline(s),
    ensures
        lines(s).len() > 0,
        lines(s).last().len() > 0,
    decreases s.len(),
{
    let i = find_char(s, '\n');
    lemma_find_char(s, '\n');
    if i < s.len() {
        let rest = s.skip(i + 1);
        assert(rest.len() > 0);
        assert(rest.last() == s.last());
        lemma_lines_last_nonempty(rest);
    }
}

proof fn lemma_lines_first_char(s: Seq<char>)
    requires
        lines(s).len() > 0,
        lines(s)[0].len() > 0,
    ensures
        lines(s)[0][0] == s[0],
{
    lemma_find_char(s, '\n');
}

// ---------------------------------------------------------------------------
// Trimming

proof fn lemma_trim_strip_cr(x: Seq<char>)
    ensures
        trim(strip_cr(x)) == trim(x),
{
    if x.len() > 0 && x.last() == '\r' {
        assert(is_white_space('\r'));
        assert(trim_end(x) == trim_end(x.drop_last()));
    }
}

proof fn lemma_same_trimmed_strip_cr(ls: Seq<Seq<char>>)
    ensures
        same_trimmed(strip_crs(ls), ls),
{
    assert forall|i: int| 0 <= i < ls.len() implies #[trigger] trim(
        strip_crs(ls)[i],
    ) == trim(ls[i]) by {
        lemma_trim_strip_cr(ls[i]);
    }
}

// ---------------------------------------------------------------------------
// The decisions only look at trimmed lines

proof fn lemma_first_script_info_congruent(a: Seq<Seq<char>>, b: Seq<Seq<char>>, k: int)
    requires
        same_trimmed(a, b),
    ensures
        first_script_info(a, k) == first_script_info(b, k),
    decreases a.len() - k,
{
    if 0 <= k < a.len() {
        assert(trim(a[k]) == trim(b[k]));
        lemma_first_script_info_congruent(a, b, k + 1);
    }
}

proof fn lemma_find_flag_congruent(a: Seq<Seq<char>>, b: Seq<Seq<char>>, k: int)
    requires
        same_trimmed(a, b),
    ensures
        find_flag(a, k) == find_flag(b, k),
    decreases a.len() - k,
{
    if 0 <= k < a.len() {
        assert(trim(a[k]) == trim(b[k]));
        lemma_find_flag_congruent(a, b, k + 1);
    }
}

proof fn lemma_fixed_lines_congruent(a: Seq<Seq<char>>, b: Seq<Seq<char>>)
    requires
        same_trimmed(a, b),
    ensures
        fixed_lines(a) is None <==> fixed_lines(b) is None,
{
    lemma_first_script_info_congruent(a, b, 0);
    if let Some(h) = first_script_info(a, 0) {
        lemma_find_flag_congruent(a, b, h + 1);
        if let Some(j) = find_flag(a, h + 1) {
            lemma_find_flag_in_range(a, h + 1);
            assert(trim(a[j]) == trim(b[j]));
        }
    }
}

proof fn lemma_find_flag_in_range(ls: Seq<Seq<char>>, k: int)
    ensures
        find_flag(ls, k) matches Some(j) ==> k <= j < ls.len() && flag_value(ls[j]) is Some,
    decreases ls.len() - k,
{
    if 0 <= k < ls.len() {
        lemma_find_flag_in_range(ls, k + 1);
    }
}

proof fn lemma_first_script_info_in_range(ls: Seq<Seq<char>>, k: int)
    ensures
        first_script_info(ls, k) matches Some(h) ==> 0 <= k <= h < ls.len(),
    decreases ls.len() - k,
{
    if 0 <= k < ls.len() {
        lemma_first_script_info_in_range(ls, k + 1);
    }
}

// ---------------------------------------------------------------------------
// The line that the fix writes

proof fn lemma_flag_line_facts()
    ensures
        trim(flag_line()) == flag_line(),
        !is_script_info_header(flag_line()),
        !is_section_header(flag_line()),
        flag_value(flag_line()) == Some(yes_value()),
        is_compliant_value(yes_value()),
        no_newline(flag_line()),
        flag_line().len() > 0,
{
    let f = flag_line();
    assert(f.len() == 26);
    assert(f[0] == 'S');
    assert(f[25] == 's');
    assert(trim_end(f) == f);
    assert(trim_start(f) == f);
    assert forall|j: int| 0 <= j < 21 implies f[j] != ':' by {
        assert(f[j] == flag_key()[j]);
    }
    assert(f[21] == ':');
    lemma_find_char_at(f, ':', 21);
    let key = f.take(21);
    assert(key =~= flag_key());
    assert(key[0] == 'S');
    assert(key[20] == 'w');
    assert(trim_end(key) == key);
    assert(trim_start(key) == key);
    let v = f.skip(22);
    assert(v =~= seq![' ', 'y', 'e', 's']);
    assert(trim_end(v) == v);
    assert(v.drop_first() =~= yes_value());
    assert(trim_start(yes_value()) == yes_value());
    assert(trim_start(v) == yes_value());
    assert(no_newline(f)) by {
        assert forall|j: int| 0 <= j < f.len() implies f[j] != '\n' by {
            if j < 21 {
                assert(f[j] == flag_key()[j]);
            }
        }
    }
}

proof fn lemma_find_flag_after_update(ls: Seq<Seq<char>>, k: int, j: int)
    requires
        0 <= k <= j < ls.len(),
        find_flag(ls, k) == Some(j),
    ensures
        find_flag(ls.update(j, flag_line()), k) == Some(j),
    decreases j - k,
{
    lemma_flag_line_facts();
    if k < j {
        lemma_find_flag_after_update(ls, k + 1, j);
    }
}

proof fn lemma_first_script_info_after_change(
    ls: Seq<Seq<char>>,
    out: Seq<Seq<char>>,
    k: int,
    h: int,
)
    requires
        0 <= k <= h < ls.len(),
        h < out.len(),
        first_script_info(ls, k) == Some(h),
        forall|i: int| 0 <= i <= h ==> out[i] == ls[i],
    ensures
        first_script_info(out, k) == Some(h),
    decreases h - k,
{
    assert(out[k] == ls[k]);
    lemma_first_script_info_in_range(ls, k + 1);
    if k < h {
        lemma_first_script_info_after_change(ls, out, k + 1, h);
    }
}

/// The lines the fix produces need no further fix.
proof fn lemma_fixed_lines_stable(ls: Seq<Seq<char>>)
    requires
        fixed_lines(ls) is Some,
    ensures
        fixed_lines(fixed_lines(ls).unwrap()) is None,
{
    lemma_flag_line_facts();
    let h = first_script_info(ls, 0).unwrap();
    lemma_first_script_info_in_range(ls, 0);
    let out = fixed_lines(ls).unwrap();
    match find_flag(ls, h + 1) {
        None => {
            assert(out == ls.insert(h + 1, flag_line()));
            lemma_first_script_info_after_change(ls, out, 0, h);
            assert(out[h + 1] == flag_line());
            assert(find_flag(out, h + 1) == Some(h + 1));
        },
        Some(j) => {
            lemma_find_flag_in_range(ls, h + 1);
            assert(out == ls.update(j, flag_line()));
            lemma_first_script_info_after_change(ls, out, 0, h);
            lemma_find_flag_after_update(ls, h + 1, j);
        },
    }
}

// ---------------------------------------------------------------------------
// Byte order marks

proof fn lemma_strip_bom_first(s: Seq<char>)
    ensures
        strip_bom(s).len() > 0 ==> strip_bom(s)[0] != bom(),
        strip_bom(s).len() > 0 ==> strip_bom(s).last() == s.last(),
        strip_bom(s).len() <= s.len(),
    decreases s.len(),
{
    if s.len() > 0 && s[0] == bom() {
        lemma_strip_bom_first(s.drop_first());
    }
}

/// Which lines of the input keep their place in the fixed output.
proof fn lemma_fixed_lines_shape(ls: Seq<Seq<char>>)
    requires
        fixed_lines(ls) is Some,
    ensures
        ls.len() >= 1,
        fixed_lines(ls).unwrap().len() >= 2,
        fixed_lines(ls).unwrap()[0] == ls[0],
        fixed_lines(ls).unwrap().last() == ls.last() || fixed_lines(ls).unwrap().last()
            == flag_line(),
        forall|i: int|
            0 <= i < fixed_lines(ls).unwrap().len() ==> (#[trigger] fixed_lines(ls).unwrap()[i]
                == flag_line() || exists|k: int| 0 <= k < ls.len() && ls[k] == fixed_lines(
                ls,
            ).unwrap()[i]),
{
    let h = first_script_info(ls, 0).unwrap();
    lemma_first_script_info_in_range(ls, 0);
    let out = fixed_lines(ls).unwrap();
    match find_flag(ls, h + 1) {
        None => {
            assert forall|i: int| 0 <= i < out.len() implies (#[trigger] out[i] == flag_line()
                || exists|k: int| 0 <= k < ls.len() && ls[k] == out[i]) by {
                if i < h + 1 {
                    assert(ls[i] == out[i]);
                } else if i > h + 1 {
                    assert(ls[i - 1] == out[i]);
                }
            }
        },
        Some(j) => {
            lemma_find_flag_in_range(ls, h + 1);
            assert forall|i: int| 0 <= i < out.len() implies (#[trigger] out[i] == flag_line()
                || exists|k: int| 0 <= k < ls.len() && ls[k] == out[i]) by {
                if i != j {
                    assert(ls[i] == out[i]);
                }
            }
        },
    }
}

/// Fixing is idempotent: once the fix has rewritten a script, running it again on the
/// result leaves that result unchanged.
pub proof fn lemma_fix_idempotent(content: Seq<char>)
    requires
        fix_script(content) is Some,
    ensures
        fix_script(fix_script(content).unwrap()) is None,
{
    let clean = strip_bom(content);
    let ls = lines(clean);
    let out = fixed_lines(ls).unwrap();
    let fixed = fix_script(content).unwrap();
    lemma_fixed_lines_stable(ls);
    lemma_fixed_lines_shape(ls);
    lemma_flag_line_facts();
    lemma_lines_no_newline(clean);
    lemma_strip_bom_first(content);
    assert forall|i: int| 0 <= i < out.len() implies no_newline(#[trigger] out[i]) by {
        if out[i] != flag_line() {
            let k = choose|k: int| 0 <= k < ls.len() && ls[k] == out[i];
            assert(no_newline(ls[k]));
        }
    }
    // The fixed text starts with no byte order mark.
    assert(out =~= seq![out[0]] + out.drop_first());
    assert(join_lines(out) == out[0] + seq!['\n'] + join_lines(out.drop_first()));
    if out[0].len() > 0 {
        assert(ls[0].len() > 0);
        lemma_lines_first_char(clean);
        assert(fixed[0] == out[0][0]);
    } else {
        assert(fixed[0] == '\n');
    }
    assert(strip_bom(fixed) == fixed);
    if ends_with_newline(content) {
        assert(fixed == join_lines(out) + seq!['\n']);
        lemma_lines_of_join_newline(out);
        lemma_same_trimmed_strip_cr(out);
        lemma_fixed_lines_congruent(lines(fixed), out);
    } else {
        assert(fixed =~= join_lines(out));
        assert(clean.len() > 0);
        assert(!ends_with_newline(clean));
        lemma_lines_last_nonempty(clean);
        lemma_lines_of_join(out);
        let back = lines(fixed);
        assert forall|i: int| 0 <= i < back.len() implies #[trigger] trim(back[i]) == trim(
            out[i],
        ) by {
            if i < out.len() - 1 {
                lemma_trim_strip_cr(out[i]);
            }
        }
        lemma_fixed_lines_congruent(back, out);
    }
}

/// Leading byte order marks play no part in the fix: a script and the same script
/// behind a byte order mark are fixed alike.
pub proof fn lemma_fix_ignores_bom(content: Seq<char>)
    ensures
        fix_script(seq![bom()] + content) == fix_script(content),
{
    let s = seq![bom()] + content;
    assert(s.drop_first() =~= content);
    assert(strip_bom(s) == strip_bom(content));
    if content.len() == 0 {
        assert(strip_bom(content) == content);
        assert(lines(content) =~= Seq::<Seq<char>>::empty());
        assert(first_script_info(lines(content), 0) is None);
    } else {
        assert(s.last() == content.last());
    }
}

// ---------------------------------------------------------------------------
// Which lines end the search for the flag

/// A trimmed line that reads `[...]`, as a section title does.
pub open spec fn bracketed(t: Seq<char>) -> bool {
    t.len() > 0 && t[0] == '[' && t.last() == ']'
}

/// A trimmed line of the form `key: value` whose key, trimmed, is
/// `ScaledBorderAndShadow` in any letter case; split at the first colon.
pub open spec fn is_flag_text(t: Seq<char>) -> bool {
    let i = find_char(t, ':');
    i < t.len() && eq_ignore_ascii_case(trim(t.take(i)), flag_key())
}

/// The trimmed value of such a line.
pub open spec fn flag_text_value(t: Seq<char>) -> Seq<char> {
    trim(t.skip(find_char(t, ':') + 1))
}

/// A line that says nothing about the flag: neither a title nor a flag line. Comments,
/// blank lines and other keys are such lines.
pub open spec fn is_other_line(t: Seq<char>) -> bool {
    !bracketed(t) && !is_flag_text(t)
}

/// A line that reads `[Script Info]` in any letter case is a bracketed title.
proof fn lemma_title_is_bracketed(t: Seq<char>)
    requires
        eq_ignore_ascii_case(t, script_info_title()),
    ensures
        bracketed(t),
{
    let title = script_info_title();
    assert(title.len() == 13);
    assert(title[0] == '[' && title[12] == ']');
    assert(ascii_fold(t[0]) == ascii_fold(title[0]));
    assert(ascii_fold(t[12]) == ascii_fold(title[12]));
    assert(t[0] as u32 == 0x5b);
    assert(t[12] as u32 == 0x5d);
    vstd::utf8::char_u32_cast(t[0], 0x5bu32);
    vstd::utf8::char_u32_cast('[', 0x5bu32);
    vstd::utf8::char_u32_cast(t[12], 0x5du32);
    vstd::utf8::char_u32_cast(']', 0x5du32);
    assert(t[0] == '[');
    assert(t.last() == t[12]);
    assert(t[12] == ']');
}

proof fn lemma_first_title_at(ls: Seq<Seq<char>>, k: int, h: int)
    requires
        0 <= k <= h < ls.len(),
        eq_ignore_ascii_case(trim(ls[h]), script_info_title()),
        forall|m: int| 0 <= m < h ==> !eq_ignore_ascii_case(#[trigger] trim(ls[m]), script_info_title()),
    ensures
        first_script_info(ls, k) == Some(h),
    decreases h - k,
{
    if k < h {
        assert(!eq_ignore_ascii_case(trim(ls[k]), script_info_title()));
        lemma_first_title_at(ls, k + 1, h);
    }
}

proof fn lemma_flag_found_at(ls: Seq<Seq<char>>, k: int, j: int)
    requires
        0 <= k <= j < ls.len(),
        forall|m: int|
            k <= m < j ==> eq_ignore_ascii_case(#[trigger] trim(ls[m]), script_info_title())
                || is_other_line(trim(ls[m])),
        !bracketed(trim(ls[j])),
        is_flag_text(trim(ls[j])),
    ensures
        find_flag(ls, k) == Some(j),
        flag_value(ls[j]) == Some(flag_text_value(trim(ls[j]))),
    decreases j - k,
{
    if k < j {
        assert(eq_ignore_ascii_case(trim(ls[k]), script_info_title()) || is_other_line(
            trim(ls[k]),
        ));
        lemma_flag_found_at(ls, k + 1, j);
    } else {
        if eq_ignore_ascii_case(trim(ls[j]), script_info_title()) {
            lemma_title_is_bracketed(trim(ls[j]));
        }
    }
}

/// The search for the flag runs through the whole `[Script Info]` section: lines other
/// than titles (comments, blank lines, other keys) do not end it. So when the first
/// `[Script Info]` title is followed, before any other `[...]` title, by a
/// `ScaledBorderAndShadow` line whose value is `yes` (any case) or `1`, and no flag line
/// comes earlier in the section, the script is left unchanged.
pub proof fn lemma_compliant_flag_in_section_is_kept(content: Seq<char>, h: int, j: int)
    requires
        0 <= h < j < lines(strip_bom(content)).len(),
        eq_ignore_ascii_case(trim(lines(strip_bom(content))[h]), script_info_title()),
        forall|m: int|
            0 <= m < h ==> !eq_ignore_ascii_case(
                #[trigger] trim(lines(strip_bom(content))[m]),
                script_info_title(),
            ),
        forall|m: int|
            h < m < j ==> eq_ignore_ascii_case(
                #[trigger] trim(lines(strip_bom(content))[m]),
                script_info_title(),
            ) || is_other_line(trim(lines(strip_bom(content))[m])),
        !bracketed(trim(lines(strip_bom(content))[j])),
        is_flag_text(trim(lines(strip_bom(content))[j])),
        eq_ignore_ascii_case(flag_text_value(trim(lines(strip_bom(content))[j])), yes_value())
            || flag_text_value(trim(lines(strip_bom(content))[j])) == one_value(),
    ensures
        fix_script(content) is None,
{
    let ls = lines(strip_bom(content));
    lemma_first_title_at(ls, 0, h);
    lemma_flag_found_at(ls, h + 1, j);
}

proof fn lemma_flag_missing(ls: Seq<Seq<char>>, k: int, e: int)
    requires
        0 <= k <= e <= ls.len(),
        forall|m: int|
            k <= m < e ==> eq_ignore_ascii_case(#[trigger] trim(ls[m]), script_info_title())
                || is_other_line(trim(ls[m])),
        e < ls.len() ==> bracketed(trim(ls[e])) && !eq_ignore_ascii_case(
            trim(ls[e]),
            script_info_title(),
        ),
    ensures
        find_flag(ls, k) is None,
    decreases e - k,
{
    if k < e {
        assert(eq_ignore_ascii_case(trim(ls[k]), script_info_title()) || is_other_line(
            trim(ls[k]),
        ));
        lemma_flag_missing(ls, k + 1, e);
    }
}

/// The text after the fix: the lines joined by line feeds, with a final one when the
/// script had one.
pub open spec fn rejoined(ls: Seq<Seq<char>>, content: Seq<char>) -> Seq<char> {
    join_lines(ls) + if content.len() > 0 && content.last() == '\n' {
        seq!['\n']
    } else {
        Seq::<char>::empty()
    }
}

/// A flag line with any other value is replaced by `ScaledBorderAndShadow: yes`, and
/// every other line is kept.
pub proof fn lemma_wrong_flag_is_replaced(content: Seq<char>, h: int, j: int)
    requires
        0 <= h < j < lines(strip_bom(content)).len(),
        eq_ignore_ascii_case(trim(lines(strip_bom(content))[h]), script_info_title()),
        forall|m: int|
            0 <= m < h ==> !eq_ignore_ascii_case(
                #[trigger] trim(lines(strip_bom(content))[m]),
                script_info_title(),
            ),
        forall|m: int|
            h < m < j ==> eq_ignore_ascii_case(
                #[trigger] trim(lines(strip_bom(content))[m]),
                script_info_title(),
            ) || is_other_line(trim(lines(strip_bom(content))[m])),
        !bracketed(trim(lines(strip_bom(content))[j])),
        is_flag_text(trim(lines(strip_bom(content))[j])),
        !eq_ignore_ascii_case(flag_text_value(trim(lines(strip_bom(content))[j])), yes_value()),
        flag_text_value(trim(lines(strip_bom(content))[j])) != one_value(),
    ensures
        fix_script(content) == Some(
            rejoined(lines(strip_bom(content)).update(j, flag_line()), content),
        ),
{
    let ls = lines(strip_bom(content));
    lemma_first_title_at(ls, 0, h);
    lemma_flag_found_at(ls, h + 1, j);
}

/// When the `[Script Info]` section (up to the next other `[...]` title, or the end)
/// has no flag line, `ScaledBorderAndShadow: yes` is inserted right after its title, and
/// every other line is kept.
pub proof fn lemma_missing_flag_is_inserted(content: Seq<char>, h: int, e: int)
    requires
        0 <= h < e <= lines(strip_bom(content)).len(),
        eq_ignore_ascii_case(trim(lines(strip_bom(content))[h]), script_info_title()),
        forall|m: int|
            0 <= m < h ==> !eq_ignore_ascii_case(
                #[trigger] trim(lines(strip_bom(content))[m]),
                script_info_title(),
            ),
        forall|m: int|
            h < m < e ==> eq_ignore_ascii_case(
                #[trigger] trim(lines(strip_bom(content))[m]),
                script_info_title(),
            ) || is_other_line(trim(lines(strip_bom(content))[m])),
        e < lines(strip_bom(content)).len() ==> bracketed(trim(lines(strip_bom(content))[e]))
            && !eq_ignore_ascii_case(trim(lines(strip_bom(content))[e]), script_info_title()),
    ensures
        fix_script(content) == Some(
            rejoined(lines(strip_bom(content)).insert(h + 1, flag_line()), content),
        ),
{
    let ls = lines(strip_bom(content));
    lemma_first_title_at(ls, 0, h);
    lemma_flag_missing(ls, h + 1, e);
}

/// A script without a `[Script Info]` title is left unchanged.
pub proof fn lemma_no_section_is_kept(content: Seq<char>)
    requires
        forall|m: int|
            0 <= m < lines(strip_bom(content)).len() ==> !eq_ignore_ascii_case(
                #[trigger] trim(lines(strip_bom(content))[m]),
                script_info_title(),
            ),
    ensures
        fix_script(content) is None,
{
    lemma_no_title_from(lines(strip_bom(content)), 0);
}

proof fn lemma_no_title_from(ls: Seq<Seq<char>>, k: int)
    requires
        0 <= k,
        forall|m: int| 0 <= m < ls.len() ==> !eq_ignore_ascii_case(#[trigger] trim(ls[m]), script_info_title()),
    ensures
        first_script_info(ls, k) is None,
    decreases ls.len() - k,
{
    if k < ls.len() {
        assert(!eq_ignore_ascii_case(trim(ls[k]), script_info_title()));
        lemma_no_title_from(ls, k + 1);
    }
}

} // verus!
