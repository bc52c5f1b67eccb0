//! Decisions around the video platform's tool: which subtitle languages a
//! listing offers, which one to fetch, video ids, and file names.
use vstd::prelude::*;
use crate::text::{
    is_ws, trim_start, starts_with, contains, chars_of, matches_at, has_prefix, has_substring,
    same_text, is_whitespace_char, push_char, lemma_trim_start_skip,
};
use crate::srt::{is_blank, lines, lines_view, split_lines, is_blank_line};

verus! {

pub const MANUAL_HEADER: &'static str = "Available subtitles for";

pub const AUTO_HEADER: &'static str = "Available automatic captions for";

pub const COLUMN_HEADER: &'static str = "Language";

/// Length of the first word of `s`: up to its first whitespace character.
pub open spec fn word_len(s: Seq<char>) -> int
    decreases s.len(),
{
    if s.len() == 0 || is_ws(s[0]) {
        0
    } else {
        1 + word_len(s.drop_first())
    }
}

/// The first whitespace-separated word of a non-blank line.
pub open spec fn first_word(l: Seq<char>) -> Seq<char> {
    trim_start(l).take(word_len(trim_start(l)))
}

/// The languages listed in `ls[i..]`: the first word of each non-blank line
/// of a manual-subtitles section other than its column header.
pub open spec fn listed_from(ls: Seq<Seq<char>>, i: int, manual: bool) -> Seq<Seq<char>>
    decreases ls.len() - i,
{
    if i < 0 || i >= ls.len() {
        seq![]
    } else if contains(ls[i], MANUAL_HEADER@) {
        listed_from(ls, i + 1, true)
    } else if contains(ls[i], AUTO_HEADER@) {
        listed_from(ls, i + 1, false)
    } else if manual && !starts_with(ls[i], COLUMN_HEADER@) && !is_blank(ls[i]) {
        seq![first_word(ls[i])] + listed_from(ls, i + 1, manual)
    } else {
        listed_from(ls, i + 1, manual)
    }
}

pub open spec fn listed_languages(out: Seq<char>) -> Seq<Seq<char>> {
    listed_from(lines(out), 0, false)
}

pub open spec fn strings_view(v: Seq<String>) -> Seq<Seq<char>> {
    v.map_values(|s: String| s@)
}

proof fn lemma_word_len(s: Seq<char>, k: int)
    requires
        0 <= k <= s.len(),
        forall|m: int| 0 <= m < k ==> !is_ws(#[trigger] s[m]),
        k == s.len() || is_ws(s[k]),
    ensures
        word_len(s) == k,
    decreases k,
{
    if k > 0 {
        assert forall|m: int| 0 <= m < k - 1 implies !is_ws(#[trigger] s.drop_first()[m]) by {
            assert(s.drop_first()[m] == s[m + 1]);
        }
        lemma_word_len(s.drop_first(), k - 1);
    }
}

/// The first word of a line, as a string.
fn first_word_of(l: &Vec<char>) -> (r: String)
    ensures
        r@ == first_word(l@),
{
    let n = l.len();
    let mut a: usize = 0;
    assert(l@.subrange(0, n as int) =~= l@);
    while a < n && is_whitespace_char(l[a])
        invariant
            a <= n == l.len(),
            trim_start(l@) == trim_start(l@.subrange(a as int, n as int)),
        decreases n - a,
    {
        proof {
            lemma_trim_start_skip(l@, a as int, n as int);
        }
        a = a + 1;
    }
    let ghost t = l@.subrange(a as int, n as int);
    assert(trim_start(t) == t);
    let mut e = a;
    while e < n && !is_whitespace_char(l[e])
        invariant
            a <= e <= n == l.len(),
            t == l@.subrange(a as int, n as int),
            forall|m: int| a <= m < e ==> !is_ws(#[trigger] l@[m]),
        decreases n - e,
    {
        e = e + 1;
    }
    proof {
        assert forall|m: int| 0 <= m < e - a implies !is_ws(#[trigger] t[m]) by {
            assert(t[m] == l@[a + m]);
        }
        lemma_word_len(t, e - a);
    }
    let mut r = String::new();
    let mut k = a;
    while k < e
        invariant
            a <= k <= e <= n == l.len(),
            r@ == l@.subrange(a as int, k as int),
        decreases e - k,
    {
        push_char(&mut r, l[k]);
        assert(l@.subrange(a as int, k + 1) =~= l@.subrange(a as int, k as int).push(l@[k as int]));
        k = k + 1;
    }
    assert(t.take(e - a) =~= l@.subrange(a as int, e as int));
    r
}

/// The manually made subtitle languages in a listing printed by the video
/// tool: the first word of each line of the manual-subtitles section, other
/// than its column header and blank lines.
pub fn parse_subtitle_list(output: &str) -> (r: Vec<String>)
    ensures
        strings_view(r@) == listed_languages(output@),
{
    let cs = chars_of(output);
    let ls = split_lines(&cs);
    let ghost lv = lines_view(ls@);
    let manual_header = chars_of(MANUAL_HEADER);
    let auto_header = chars_of(AUTO_HEADER);
    let column_header = chars_of(COLUMN_HEADER);
    let mut r: Vec<String> = Vec::new();
    let mut manual = false;
    let mut i: usize = 0;
    assert(strings_view(r@) =~= seq![]);
    while i < ls.len()
        invariant
            i <= ls.len(),
            lv == lines_view(ls@),
            lv == lines(output@),
            manual_header@ == MANUAL_HEADER@,
            auto_header@ == AUTO_HEADER@,
            column_header@ == COLUMN_HEADER@,
            listed_languages(output@) == strings_view(r@) + listed_from(lv, i as int, manual),
        decreases ls.len() - i,
    {
        let l = &ls[i];
        assert(lv[i as int] == l@);
        let ghost before = strings_view(r@);
        if has_substring(l, &manual_header) {
            manual = true;
        } else if has_substring(l, &auto_header) {
            manual = false;
        } else if manual {
            let header = matches_at(l, &column_header, 0);
            assert(header == starts_with(l@, COLUMN_HEADER@)) by {
                assert(l@.take(column_header@.len() as int) =~= l@.subrange(
                    0,
                    column_header@.len() as int,
                ));
            }
            if !header && !is_blank_line(l) {
                let w = first_word_of(l);
                r.push(w);
                assert(strings_view(r@) =~= before.push(first_word(lv[i as int])));
                assert(before + (seq![first_word(lv[i as int])] + listed_from(lv, i + 1, manual))
                    =~= before.push(first_word(lv[i as int])) + listed_from(lv, i + 1, manual));
            }
        }
        i = i + 1;
    }
    assert(listed_from(lv, i as int, manual) =~= seq![]);
    r
}

pub const BASE_LANGUAGE: &'static str = "en";

pub const REGIONAL_PREFIX: &'static str = "en-";

/// The first index at or after `i` of a language equal to `BASE_LANGUAGE`.
pub open spec fn find_base(langs: Seq<Seq<char>>, i: int) -> Option<int>
    decreases langs.len() - i,
{
    if i < 0 || i >= langs.len() {
        None
    } else if langs[i] == BASE_LANGUAGE@ {
        Some(i)
    } else {
        find_base(langs, i + 1)
    }
}

/// The first index at or after `i` of a regional variant of `BASE_LANGUAGE`.
pub open spec fn find_regional(langs: Seq<Seq<char>>, i: int) -> Option<int>
    decreases langs.len() - i,
{
    if i < 0 || i >= langs.len() {
        None
    } else if starts_with(langs[i], REGIONAL_PREFIX@) {
        Some(i)
    } else {
        find_regional(langs, i + 1)
    }
}

pub open spec fn chosen_language(langs: Seq<Seq<char>>) -> Option<Seq<char>> {
    match find_base(langs, 0) {
        Some(k) => Some(langs[k]),
        None => match find_regional(langs, 0) {
            Some(k) => Some(langs[k]),
            None => None,
        },
    }
}

pub open spec fn option_view(o: Option<String>) -> Option<Seq<char>> {
    match o {
        Some(s) => Some(s@),
        None => None,
    }
}

/// The manual subtitle language to fetch: plain English if listed, else
/// the first regional English variant, else none.
pub fn choose_subtitle_language(langs: &Vec<String>) -> (r: Option<String>)
    ensures
        option_view(r) == chosen_language(strings_view(langs@)),
{
    let ghost lv = strings_view(langs@);
    let mut i: usize = 0;
    while i < langs.len()
        invariant
            i <= langs.len(),
            lv == strings_view(langs@),
            find_base(lv, 0) == find_base(lv, i as int),
        decreases langs.len() - i,
    {
        assert(lv[i as int] == langs@[i as int]@);
        if same_text(langs[i].as_str(), BASE_LANGUAGE) {
            return Some(langs[i].clone());
        }
        i = i + 1;
    }
    let mut k: usize = 0;
    while k < langs.len()
        invariant
            k <= langs.len(),
            lv == strings_view(langs@),
            find_base(lv, 0) is None,
            find_regional(lv, 0) == find_regional(lv, k as int),
        decreases langs.len() - k,
    {
        assert(lv[k as int] == langs@[k as int]@);
        if has_prefix(langs[k].as_str(), REGIONAL_PREFIX) {
            return Some(langs[k].clone());
        }
        k = k + 1;
    }
    None
}

} // verus!
