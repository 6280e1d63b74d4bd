//! The rule-based parser of natural-language search queries, and their
//! rendering in the query syntax of the Everything search engine.

use crate::text::{
    chars_to_string, contains_lit, first_match_from, matches_at, contains_sub, cviews, dec_str, eq_lit, find_sub, first_match, first_word,
    first_word_of, has_prefix, has_prefix_lit, has_sub, is_alnum, char_is_alnum, char_is_digit, is_digit,
    join, join_chars, lemma_find_bound, lemma_first_match_from, lemma_match_found, lowercase, parse_u64, parse_u64_spec, push_all, push_dec,
    push_lit, spec_lowercase, split_char, split_on, split_ws, starts_with, sub_chars, sviews, to_chars, trim,
    trim_chars, ws_tokens,
};
use crate::tree::push_absent;
use vstd::prelude::*;

verus! {

/// The characters of each literal.
pub open spec fn lits(v: Seq<&str>) -> Seq<Seq<char>> {
    v.map_values(|x: &str| x@)
}

/// Whether `t` is one of the literals.
fn in_lits(t: &Vec<char>, list: &Vec<&str>) -> (r: bool)
    ensures
        r == lits(list@).contains(t@),
{
    let mut k: usize = 0;
    while k < list.len()
        invariant
            k <= list.len(),
            forall|j: int| 0 <= j < k ==> lits(list@)[j] != t@,
        decreases list.len() - k,
    {
        if eq_lit(t, list[k]) {
            assert(lits(list@)[k as int] == t@);
            return true;
        }
        k = k + 1;
    }
    false
}

/// Whether one of the literals occurs in `h`.
fn any_lit_in(h: &Vec<char>, list: &Vec<&str>) -> (r: bool)
    ensures
        r == exists|j: int| 0 <= j < list.len() && has_sub(h@, #[trigger] lits(list@)[j]),
{
    let mut k: usize = 0;
    while k < list.len()
        invariant
            k <= list.len(),
            forall|j: int| 0 <= j < k ==> !has_sub(h@, #[trigger] lits(list@)[j]),
        decreases list.len() - k,
    {
        if contains_lit(h, list[k]) {
            assert(has_sub(h@, lits(list@)[k as int]));
            return true;
        }
        k = k + 1;
    }
    false
}

/// One of the words occurs in `h`.
pub open spec fn any_in(h: Seq<char>, words: Seq<Seq<char>>) -> bool {
    exists|j: int| 0 <= j < words.len() && has_sub(h, #[trigger] words[j])
}

/// A query parsed into the filters that it asks for.
#[derive(Debug, Default, PartialEq)]
pub struct ParsedQuery {
    /// Free words (file names among them).
    pub keywords: Vec<String>,
    /// Extensions to keep, such as `pdf`.
    pub extensions: Vec<String>,
    /// A path to search under, such as `src/`.
    pub path_filter: Option<String>,
    /// Smallest size, in bytes.
    pub min_size: Option<u64>,
    /// Largest size, in bytes.
    pub max_size: Option<u64>,
    /// A relative date in Everything's `dm:` syntax, such as `lastweek`.
    pub date_modified: Option<String>,
}


/// The first word after position `k` of `s`, or nothing when `k` lies past its end.
pub open spec fn word_after(s: Seq<char>, k: int) -> Seq<char> {
    if 0 <= k <= s.len() {
        first_word(s.skip(k))
    } else {
        Seq::empty()
    }
}

fn word_after_of(s: &Vec<char>, k: usize) -> (r: Vec<char>)
    ensures
        r@ == word_after(s@, k as int),
{
    if k <= s.len() {
        let rest = sub_chars(s, k, s.len());
        assert(rest@ =~= s@.skip(k as int));
        first_word_of(&rest)
    } else {
        Vec::new()
    }
}

/// The relative date that a lower-cased query names.
pub open spec fn spec_date_modifier(lower: Seq<char>) -> Option<Seq<char>> {
    if has_sub(lower, "今日"@) || has_sub(lower, "本日"@) || has_sub(lower, "today"@) {
        Some("today"@)
    } else if has_sub(lower, "昨日"@) || has_sub(lower, "yesterday"@) {
        Some("yesterday"@)
    } else if has_sub(lower, "今週"@) || has_sub(lower, "this week"@) {
        Some("thisweek"@)
    } else if has_sub(lower, "先週"@) || has_sub(lower, "last week"@) || has_sub(lower, "lastweek"@) {
        Some("lastweek"@)
    } else if has_sub(lower, "今月"@) || has_sub(lower, "this month"@) {
        Some("thismonth"@)
    } else if has_sub(lower, "先月"@) || has_sub(lower, "last month"@) {
        Some("lastmonth"@)
    } else if has_sub(lower, "今年"@) || has_sub(lower, "this year"@) {
        Some("thisyear"@)
    } else if has_sub(lower, "去年"@) || has_sub(lower, "昨年"@) || has_sub(lower, "last year"@) {
        Some("lastyear"@)
    } else {
        match first_match(lower, "dm:"@) {
            Some(i) => if word_after(lower, i + 3).len() > 0 {
                Some(word_after(lower, i + 3))
            } else {
                None
            },
            None => None,
        }
    }
}

/// Which relative date a lower-cased query names, by the words it holds, the
/// earlier words of this list winning: 今日, 本日 or "today" name today;
/// 昨日 or "yesterday" yesterday; 今週 or "this week" this week; 先週,
/// "last week" or "lastweek" last week; 今月 or "this month" this month;
/// 先月 or "last month" last month; 今年 or "this year" this year; 去年, 昨年
/// or "last year" last year.
pub proof fn lemma_date_words(lower: Seq<char>)
    ensures
        ({
            let today = has_sub(lower, "今日"@) || has_sub(lower, "本日"@) || has_sub(lower, "today"@);
            let yesterday = has_sub(lower, "昨日"@) || has_sub(lower, "yesterday"@);
            let this_week = has_sub(lower, "今週"@) || has_sub(lower, "this week"@);
            let last_week = has_sub(lower, "先週"@) || has_sub(lower, "last week"@) || has_sub(lower, "lastweek"@);
            let this_month = has_sub(lower, "今月"@) || has_sub(lower, "this month"@);
            let last_month = has_sub(lower, "先月"@) || has_sub(lower, "last month"@);
            let this_year = has_sub(lower, "今年"@) || has_sub(lower, "this year"@);
            let last_year = has_sub(lower, "去年"@) || has_sub(lower, "昨年"@) || has_sub(lower, "last year"@);
            let r = spec_date_modifier(lower);
            &&& today ==> r == Some("today"@)
            &&& !today && yesterday ==> r == Some("yesterday"@)
            &&& !today && !yesterday && this_week ==> r == Some("thisweek"@)
            &&& !today && !yesterday && !this_week && last_week ==> r == Some("lastweek"@)
            &&& !today && !yesterday && !this_week && !last_week && this_month ==> r == Some("thismonth"@)
            &&& !today && !yesterday && !this_week && !last_week && !this_month && last_month ==> r == Some("lastmonth"@)
            &&& !today && !yesterday && !this_week && !last_week && !this_month && !last_month && this_year ==> r == Some(
                "thisyear"@,
            )
            &&& !today && !yesterday && !this_week && !last_week && !this_month && !last_month && !this_year && last_year
                ==> r == Some("lastyear"@)
        }),
{
}

fn extract_date_modifier(lower: &str) -> (r: Option<String>)
    ensures
        match r {
            Some(d) => spec_date_modifier(lower@) == Some(d@),
            None => spec_date_modifier(lower@) is None,
        },
{
    let l = to_chars(lower);
    if contains_lit(&l, "今日") || contains_lit(&l, "本日") || contains_lit(&l, "today") {
        return Some("today".to_owned());
    }
    if contains_lit(&l, "昨日") || contains_lit(&l, "yesterday") {
        return Some("yesterday".to_owned());
    }
    if contains_lit(&l, "今週") || contains_lit(&l, "this week") {
        return Some("thisweek".to_owned());
    }
    if contains_lit(&l, "先週") || contains_lit(&l, "last week") || contains_lit(&l, "lastweek") {
        return Some("lastweek".to_owned());
    }
    if contains_lit(&l, "今月") || contains_lit(&l, "this month") {
        return Some("thismonth".to_owned());
    }
    if contains_lit(&l, "先月") || contains_lit(&l, "last month") {
        return Some("lastmonth".to_owned());
    }
    if contains_lit(&l, "今年") || contains_lit(&l, "this year") {
        return Some("thisyear".to_owned());
    }
    if contains_lit(&l, "去年") || contains_lit(&l, "昨年") || contains_lit(&l, "last year") {
        return Some("lastyear".to_owned());
    }
    let dm = to_chars("dm:");
    match find_sub(&l, &dm) {
        Some(idx) => {
            proof {
                reveal_strlit("dm:");
                lemma_first_match_from(l@, dm@, 0);
                assert(dm@.len() == 3);
                assert(first_match_from(l@, dm@, 0) == Some(idx as int));
                assert(matches_at(l@, dm@, idx as int));
                assert(idx + 3 <= l@.len());
                assert(idx + 3 <= l.len());
            }
            let value = word_after_of(&l, idx + 3);
            if value.len() > 0 {
                Some(chars_to_string(&value))
            } else {
                None
            }
        },
        None => None,
    }
}


/// The number of leading ASCII digits of `s`.
pub open spec fn digit_run(s: Seq<char>) -> nat
    decreases s.len(),
{
    if s.len() == 0 || !is_digit(s[0]) {
        0
    } else {
        1 + digit_run(s.drop_first())
    }
}

proof fn lemma_digit_run(s: Seq<char>, j: int)
    requires
        0 <= j <= s.len(),
        forall|k: int| 0 <= k < j ==> is_digit(#[trigger] s[k]),
        j == s.len() || !is_digit(s[j]),
    ensures
        digit_run(s) == j,
    decreases j,
{
    if j > 0 {
        assert forall|k: int| 0 <= k < j - 1 implies is_digit(#[trigger] s.drop_first()[k]) by {
            assert(s.drop_first()[k] == s[k + 1]);
        }
        if j < s.len() {
            assert(s.drop_first()[j - 1] == s[j]);
        }
        lemma_digit_run(s.drop_first(), j - 1);
    } else {
        if s.len() > 0 {
            assert(!is_digit(s[0]));
        }
    }
}

/// The multiplier that a unit after a number stands for.
pub open spec fn unit_multiplier(rest: Seq<char>) -> u64 {
    if starts_with(rest, "gb"@) {
        0x4000_0000
    } else if starts_with(rest, "mb"@) {
        0x10_0000
    } else if starts_with(rest, "kb"@) {
        1024
    } else {
        1
    }
}

/// The size units are binary: a number followed by "kb" counts 1024 bytes a
/// unit, by "mb" 1024 × 1024 and by "gb" 1024 × 1024 × 1024, whatever follows
/// the unit; without one of them a number counts bytes. The units that a
/// query's words are read with are the same, largest first.
pub proof fn lemma_size_units(t: Seq<char>)
    ensures
        unit_multiplier("kb"@ + t) == 1024,
        unit_multiplier("mb"@ + t) == 1024 * 1024,
        unit_multiplier("gb"@ + t) == 1024 * 1024 * 1024,
        !starts_with(t, "kb"@) && !starts_with(t, "mb"@) && !starts_with(t, "gb"@) ==> unit_multiplier(t) == 1,
        size_unit(0) == ("gb"@, (1024 * 1024 * 1024) as u64),
        size_unit(1) == ("mb"@, (1024 * 1024) as u64),
        size_unit(2) == ("kb"@, 1024u64),
{
    reveal_strlit("kb");
    reveal_strlit("mb");
    reveal_strlit("gb");
    assert(("kb"@ + t).take(2) =~= "kb"@);
    assert(("mb"@ + t).take(2) =~= "mb"@);
    assert(("gb"@ + t).take(2) =~= "gb"@);
    assert(("kb"@ + t).take(2)[0] == 'k');
    assert(("mb"@ + t).take(2)[0] == 'm');
}

/// A size written as a number and an optional unit (`10mb`), in bytes; none
/// when the byte count does not fit in `u64`.
pub open spec fn spec_size_value(s: Seq<char>) -> Option<u64> {
    let t = trim(s);
    let nd = digit_run(t) as int;
    if nd == 0 {
        None
    } else {
        match parse_u64_spec(t.take(nd)) {
            None => None,
            Some(num) => {
                let bytes = num * unit_multiplier(spec_lowercase(trim(t.skip(nd))));
                if bytes <= u64::MAX {
                    Some(bytes as u64)
                } else {
                    None
                }
            },
        }
    }
}

fn parse_size_value(s: &str) -> (r: Option<u64>)
    ensures
        r == spec_size_value(s@),
{
    let sc = to_chars(s);
    let t = trim_chars(&sc);
    let mut nd: usize = 0;
    while nd < t.len() && char_is_digit(t[nd])
        invariant
            nd <= t.len(),
            forall|k: int| 0 <= k < nd ==> is_digit(#[trigger] t@[k]),
        decreases t.len() - nd,
    {
        nd = nd + 1;
    }
    proof {
        lemma_digit_run(t@, nd as int);
    }
    if nd == 0 {
        return None;
    }
    let digits = sub_chars(&t, 0, nd);
    assert(digits@ =~= t@.take(nd as int));
    let num = match parse_u64(&digits) {
        Some(n) => n,
        None => {
            return None;
        },
    };
    let after = sub_chars(&t, nd, t.len());
    assert(after@ =~= t@.skip(nd as int));
    let rest_t = trim_chars(&after);
    let rest_s = chars_to_string(&rest_t);
    let rest_l = lowercase(rest_s.as_str());
    let rest = to_chars(rest_l.as_str());
    let multiplier: u64 = if has_prefix_lit(&rest, "gb") {
        0x4000_0000
    } else if has_prefix_lit(&rest, "mb") {
        0x10_0000
    } else if has_prefix_lit(&rest, "kb") {
        1024
    } else {
        1
    };
    num.checked_mul(multiplier)
}

/// The last word of `toks` that parses as a number.
pub open spec fn last_number(toks: Seq<Seq<char>>) -> Option<u64>
    decreases toks.len(),
{
    if toks.len() == 0 {
        None
    } else {
        match parse_u64_spec(toks.last()) {
            Some(n) => Some(n),
            None => last_number(toks.drop_last()),
        }
    }
}

fn extract_last_number(s: &str) -> (r: Option<u64>)
    ensures
        r == last_number(ws_tokens(s@)),
{
    let sc = to_chars(s);
    let tokens = split_ws(&sc);
    let mut i: usize = tokens.len();
    assert(cviews(tokens@).take(tokens.len() as int) =~= cviews(tokens@));
    while i > 0
        invariant
            i <= tokens.len(),
            cviews(tokens@) == ws_tokens(s@),
            last_number(ws_tokens(s@)) == last_number(cviews(tokens@).take(i as int)),
        decreases i,
    {
        let ghost tk = cviews(tokens@).take(i as int);
        proof {
            assert(tk.last() == tokens@[i - 1]@);
            assert(tk.drop_last() =~= cviews(tokens@).take(i - 1));
        }
        match parse_u64(&tokens[i - 1]) {
            Some(n) => {
                return Some(n);
            },
            None => {},
        }
        i = i - 1;
    }
    None
}

pub open spec fn above_markers() -> Seq<Seq<char>> {
    seq!["以上"@, "より大きい"@, "超"@, "over"@, "above"@, ">"@]
}

pub open spec fn below_markers() -> Seq<Seq<char>> {
    seq!["以下"@, "より小さい"@, "未満"@, "under"@, "below"@, "<"@]
}

/// A marker occurs in `a` or in `b`.
pub open spec fn marked(markers: Seq<Seq<char>>, a: Seq<char>, b: Seq<char>) -> bool {
    exists|j: int| 0 <= j < markers.len() && (has_sub(a, #[trigger] markers[j]) || has_sub(b, markers[j]))
}

fn marked_by(list: &Vec<&str>, a: &Vec<char>, b: &Vec<char>) -> (r: bool)
    ensures
        r == marked(lits(list@), a@, b@),
{
    let mut k: usize = 0;
    while k < list.len()
        invariant
            k <= list.len(),
            forall|j: int| 0 <= j < k ==> !(has_sub(a@, #[trigger] lits(list@)[j]) || has_sub(b@, lits(list@)[j])),
        decreases list.len() - k,
    {
        if contains_lit(a, list[k]) || contains_lit(b, list[k]) {
            assert(has_sub(a@, lits(list@)[k as int]) || has_sub(b@, lits(list@)[k as int]));
            return true;
        }
        k = k + 1;
    }
    false
}

/// The size units, with the bytes that each stands for.
pub open spec fn size_unit(k: int) -> (Seq<char>, u64) {
    if k == 0 {
        ("gb"@, 0x4000_0000u64)
    } else if k == 1 {
        ("mb"@, 0x10_0000u64)
    } else {
        ("kb"@, 1024u64)
    }
}

/// Takes a size written as `N <unit>` with a marker of direction near it.
pub open spec fn size_step(lower: Seq<char>, unit: Seq<char>, mult: u64, acc: (Option<u64>, Option<u64>)) -> (Option<u64>, Option<u64>) {
    match first_match(lower, unit) {
        None => acc,
        Some(idx) => {
            let before = lower.take(idx);
            match last_number(ws_tokens(before)) {
                None => acc,
                Some(num) => {
                    let combined = unit + lower.skip(idx + unit.len());
                    if num * mult > u64::MAX {
                        acc
                    } else if marked(above_markers(), combined, before) {
                        (if acc.0 is Some { acc.0 } else { Some((num * mult) as u64) }, acc.1)
                    } else if marked(below_markers(), combined, before) {
                        (acc.0, if acc.1 is Some { acc.1 } else { Some((num * mult) as u64) })
                    } else {
                        acc
                    }
                },
            }
        },
    }
}

/// The bounds after the direct `size:>` and `size:<` syntax and the first
/// `k` units.
pub open spec fn size_fold(lower: Seq<char>, k: int) -> (Option<u64>, Option<u64>)
    decreases k,
{
    if k <= 0 {
        let min = match first_match(lower, "size:>"@) {
            Some(i) => spec_size_value(lower.skip(i + 6)),
            None => None,
        };
        let max = match first_match(lower, "size:<"@) {
            Some(i) => spec_size_value(lower.skip(i + 6)),
            None => None,
        };
        (min, max)
    } else {
        size_step(lower, size_unit(k - 1).0, size_unit(k - 1).1, size_fold(lower, k - 1))
    }
}

/// The smallest and largest size that a lower-cased query asks for.
pub open spec fn spec_size(lower: Seq<char>) -> (Option<u64>, Option<u64>) {
    size_fold(lower, 3)
}

fn extract_size(lower: &str) -> (r: (Option<u64>, Option<u64>))
    ensures
        r == spec_size(lower@),
{
    let l = to_chars(lower);
    let mut min: Option<u64> = None;
    let mut max: Option<u64> = None;
    let pmin = to_chars("size:>");
    let pmax = to_chars("size:<");
    proof {
        reveal_strlit("size:>");
        reveal_strlit("size:<");
        lemma_first_match_from(l@, pmin@, 0);
        lemma_first_match_from(l@, pmax@, 0);
    }
    match find_sub(&l, &pmin) {
        Some(idx) => {
            proof {
                lemma_find_bound(l@, pmin@, idx as int);
            }
            assert(idx + 6 <= l@.len());
            assert(idx + 6 <= l.len());
            let rest = sub_chars(&l, idx + 6, l.len());
            assert(rest@ =~= l@.skip(idx + 6));
            let rest_s = chars_to_string(&rest);
            match parse_size_value(rest_s.as_str()) {
                Some(v) => {
                    min = Some(v);
                },
                None => {},
            }
        },
        None => {},
    }
    match find_sub(&l, &pmax) {
        Some(idx) => {
            proof {
                lemma_find_bound(l@, pmax@, idx as int);
            }
            assert(idx + 6 <= l@.len());
            assert(idx + 6 <= l.len());
            let rest = sub_chars(&l, idx + 6, l.len());
            assert(rest@ =~= l@.skip(idx + 6));
            let rest_s = chars_to_string(&rest);
            match parse_size_value(rest_s.as_str()) {
                Some(v) => {
                    max = Some(v);
                },
                None => {},
            }
        },
        None => {},
    }
    let above: Vec<&str> = vec!["以上", "より大きい", "超", "over", "above", ">"];
    let below: Vec<&str> = vec!["以下", "より小さい", "未満", "under", "below", "<"];
    assert(lits(above@) =~= above_markers());
    assert(lits(below@) =~= below_markers());
    let units: Vec<&str> = vec!["gb", "mb", "kb"];
    let mults: Vec<u64> = vec![0x4000_0000, 0x10_0000, 1024];
    let mut k: usize = 0;
    while k < 3
        invariant
            k <= 3,
            units@.len() == 3,
            mults@.len() == 3,
            forall|j: int| 0 <= j < 3 ==> units@[j]@ == #[trigger] size_unit(j).0 && mults@[j] == size_unit(j).1,
            lits(above@) == above_markers(),
            lits(below@) == below_markers(),
            (min, max) == size_fold(l@, k as int),
            l@ == lower@,
        decreases 3 - k,
    {
        let unit = to_chars(units[k]);
        let mult = mults[k];
        proof {
            assert(unit@ == size_unit(k as int).0);
            if k == 0 {
                reveal_strlit("gb");
            } else if k == 1 {
                reveal_strlit("mb");
            } else {
                reveal_strlit("kb");
            }
            lemma_first_match_from(l@, unit@, 0);
        }
        match find_sub(&l, &unit) {
            Some(idx) => {
                let before = sub_chars(&l, 0, idx);
                assert(before@ =~= l@.take(idx as int));
                let before_s = chars_to_string(&before);
                match extract_last_number(before_s.as_str()) {
                    Some(num) => match num.checked_mul(mult) {
                        None => {},
                        Some(bytes) => {
                        assert(idx + unit@.len() <= l@.len());
                        let after = sub_chars(&l, idx + unit.len(), l.len());
                        let mut combined = unit.clone();
                        push_all(&mut combined, &after);
                        assert(combined@ =~= unit@ + l@.skip(idx + unit@.len()));
                        if marked_by(&above, &combined, &before) {
                            if min.is_none() {
                                min = Some(bytes);
                            }
                        } else if marked_by(&below, &combined, &before) {
                            if max.is_none() {
                                max = Some(bytes);
                            }
                        }
                        },
                    },
                    None => {},
                }
            },
            None => {},
        }
        k = k + 1;
    }
    (min, max)
}


/// The trimmed pieces that are not empty, in order.
pub open spec fn nonempty_trimmed(ps: Seq<Seq<char>>) -> Seq<Seq<char>>
    decreases ps.len(),
{
    if ps.len() == 0 {
        Seq::empty()
    } else {
        let before = nonempty_trimmed(ps.drop_last());
        if trim(ps.last()).len() > 0 {
            before.push(trim(ps.last()))
        } else {
            before
        }
    }
}

/// The words that name a kind of file, and the extensions of that kind.
pub open spec fn alias_entry(k: int) -> (Seq<Seq<char>>, Seq<Seq<char>>) {
    if k == 0 {
        (seq!["pdf"@], seq!["pdf"@])
    } else if k == 1 {
        (seq!["excel"@, "エクセル"@, "xlsx"@, "xls"@], seq!["xlsx"@, "xls"@])
    } else if k == 2 {
        (seq!["word"@, "ワード"@, "docx"@, "doc"@], seq!["docx"@, "doc"@])
    } else if k == 3 {
        (seq!["powerpoint"@, "パワーポイント"@, "pptx"@, "ppt"@], seq!["pptx"@, "ppt"@])
    } else if k == 4 {
        (seq!["python"@, "パイソン"@], seq!["py"@])
    } else if k == 5 {
        (seq!["rust"@, "ラスト"@], seq!["rs"@])
    } else if k == 6 {
        (seq!["typescript"@, "タイプスクリプト"@, "tsx"@], seq!["ts"@, "tsx"@])
    } else if k == 7 {
        (seq!["javascript"@, "ジャバスクリプト"@, "jsx"@], seq!["js"@, "jsx"@])
    } else if k == 8 {
        (seq!["markdown"@, "マークダウン"@], seq!["md"@])
    } else if k == 9 {
        (seq!["csv"@], seq!["csv"@])
    } else if k == 10 {
        (seq!["json"@], seq!["json"@])
    } else if k == 11 {
        (seq!["toml"@], seq!["toml"@])
    } else if k == 12 {
        (seq!["yaml"@, "yml"@], seq!["yaml"@, "yml"@])
    } else if k == 13 {
        (seq!["zip"@, "アーカイブ"@], seq!["zip"@])
    } else if k == 14 {
        (seq!["画像"@, "image"@, "img"@], seq!["png"@, "jpg"@, "jpeg"@, "gif"@, "webp"@])
    } else if k == 15 {
        (seq!["動画"@, "video"@, "movie"@], seq!["mp4"@, "mov"@, "avi"@, "mkv"@])
    } else if k == 16 {
        (seq!["音楽"@, "音声"@, "audio"@], seq!["mp3"@, "wav"@, "flac"@, "aac"@])
    } else {
        (seq!["テキスト"@, "text file"@], seq!["txt"@])
    }
}

/// The number of entries in the alias table.
pub open spec fn alias_count() -> int {
    18
}

fn alias_entry_of(k: usize) -> (r: (Vec<&'static str>, Vec<&'static str>))
    requires
        k < 18,
    ensures
        lits(r.0@) == alias_entry(k as int).0,
        lits(r.1@) == alias_entry(k as int).1,
{
    let r: (Vec<&'static str>, Vec<&'static str>) = if k == 0 {
        (vec!["pdf"], vec!["pdf"])
    } else if k == 1 {
        (vec!["excel", "エクセル", "xlsx", "xls"], vec!["xlsx", "xls"])
    } else if k == 2 {
        (vec!["word", "ワード", "docx", "doc"], vec!["docx", "doc"])
    } else if k == 3 {
        (vec!["powerpoint", "パワーポイント", "pptx", "ppt"], vec!["pptx", "ppt"])
    } else if k == 4 {
        (vec!["python", "パイソン"], vec!["py"])
    } else if k == 5 {
        (vec!["rust", "ラスト"], vec!["rs"])
    } else if k == 6 {
        (vec!["typescript", "タイプスクリプト", "tsx"], vec!["ts", "tsx"])
    } else if k == 7 {
        (vec!["javascript", "ジャバスクリプト", "jsx"], vec!["js", "jsx"])
    } else if k == 8 {
        (vec!["markdown", "マークダウン"], vec!["md"])
    } else if k == 9 {
        (vec!["csv"], vec!["csv"])
    } else if k == 10 {
        (vec!["json"], vec!["json"])
    } else if k == 11 {
        (vec!["toml"], vec!["toml"])
    } else if k == 12 {
        (vec!["yaml", "yml"], vec!["yaml", "yml"])
    } else if k == 13 {
        (vec!["zip", "アーカイブ"], vec!["zip"])
    } else if k == 14 {
        (vec!["画像", "image", "img"], vec!["png", "jpg", "jpeg", "gif", "webp"])
    } else if k == 15 {
        (vec!["動画", "video", "movie"], vec!["mp4", "mov", "avi", "mkv"])
    } else if k == 16 {
        (vec!["音楽", "音声", "audio"], vec!["mp3", "wav", "flac", "aac"])
    } else {
        (vec!["テキスト", "text file"], vec!["txt"])
    };
    assert(lits(r.0@) =~= alias_entry(k as int).0);
    assert(lits(r.1@) =~= alias_entry(k as int).1);
    r
}

/// `acc` with each of `xs` appended unless held already.
pub open spec fn push_all_absent(acc: Seq<Seq<char>>, xs: Seq<Seq<char>>) -> Seq<Seq<char>>
    decreases xs.len(),
{
    if xs.len() == 0 {
        acc
    } else {
        push_absent(push_all_absent(acc, xs.drop_last()), xs.last())
    }
}

/// The extensions named by the first `k` entries of the alias table.
pub open spec fn alias_fold(lower: Seq<char>, k: int) -> Seq<Seq<char>>
    decreases k,
{
    if k <= 0 {
        Seq::empty()
    } else {
        let before = alias_fold(lower, k - 1);
        if any_in(lower, alias_entry(k - 1).0) {
            push_all_absent(before, alias_entry(k - 1).1)
        } else {
            before
        }
    }
}

/// The extensions that a lower-cased query asks for: those of the direct
/// `ext:` syntax if it names any, else those of the kinds of file named.
pub open spec fn spec_extensions(lower: Seq<char>) -> Seq<Seq<char>> {
    let direct = match first_match(lower, "ext:"@) {
        Some(i) => nonempty_trimmed(split_on(word_after(lower, i + 4), ',')),
        None => Seq::empty(),
    };
    if direct.len() > 0 {
        direct
    } else {
        alias_fold(lower, alias_count())
    }
}

/// `y` is kept by appending `xs` to `acc` exactly when `acc` or `xs` holds it.
proof fn lemma_push_all_absent_contains(acc: Seq<Seq<char>>, xs: Seq<Seq<char>>, y: Seq<char>)
    ensures
        push_all_absent(acc, xs).contains(y) <==> (acc.contains(y) || xs.contains(y)),
    decreases xs.len(),
{
    if xs.len() > 0 {
        let init = xs.drop_last();
        lemma_push_all_absent_contains(acc, init, y);
        let p = push_all_absent(acc, init);
        if !p.contains(xs.last()) {
            if p.push(xs.last()).contains(y) && !p.contains(y) {
                let j = choose|j: int| 0 <= j < p.push(xs.last()).len() && p.push(xs.last())[j] == y;
                assert(j == p.len());
            }
            if p.contains(y) {
                let j = choose|j: int| 0 <= j < p.len() && p[j] == y;
                assert(p.push(xs.last())[j] == y);
            }
            assert(p.push(xs.last())[p.len() as int] == xs.last());
        }
        if xs.contains(y) && !init.contains(y) {
            let j = choose|j: int| 0 <= j < xs.len() && xs[j] == y;
            if j < init.len() {
                assert(init[j] == y);
            }
        }
        if init.contains(y) {
            let j = choose|j: int| 0 <= j < init.len() && init[j] == y;
            assert(xs[j] == y);
        }
        assert(xs[xs.len() - 1] == xs.last());
    }
}

/// The extensions of the first `k` kinds of file: each belongs to a kind whose
/// word the query holds, and each such kind gives all of its extensions.
proof fn lemma_alias_fold_contains(lower: Seq<char>, k: int, x: Seq<char>)
    ensures
        alias_fold(lower, k).contains(x) <==> exists|m: int|
            0 <= m < k && #[trigger] any_in(lower, alias_entry(m).0) && alias_entry(m).1.contains(x),
    decreases k,
{
    if k > 0 {
        lemma_alias_fold_contains(lower, k - 1, x);
        lemma_push_all_absent_contains(alias_fold(lower, k - 1), alias_entry(k - 1).1, x);
        if !any_in(lower, alias_entry(k - 1).0) {
            if exists|m: int| 0 <= m < k && #[trigger] any_in(lower, alias_entry(m).0) && alias_entry(m).1.contains(x) {
                let m = choose|m: int| 0 <= m < k && #[trigger] any_in(lower, alias_entry(m).0) && alias_entry(m).1.contains(x);
                assert(m < k - 1);
            }
        } else {
            if exists|m: int| 0 <= m < k && #[trigger] any_in(lower, alias_entry(m).0) && alias_entry(m).1.contains(x) {
                let m = choose|m: int| 0 <= m < k && #[trigger] any_in(lower, alias_entry(m).0) && alias_entry(m).1.contains(x);
                if m < k - 1 {
                    assert(any_in(lower, alias_entry(m).0));
                }
            }
        }
    }
}

/// Without the direct `ext:` syntax, a query asks for the extensions of each
/// kind of file that it names, and for no others: "pdf" gives pdf; "excel",
/// エクセル, "xlsx" or "xls" give xlsx and xls; "word", ワード, "docx" or
/// "doc" give docx and doc; and so on for each kind of file stated here, down
/// to テキスト or "text file", which give txt.
pub proof fn lemma_extension_aliases(lower: Seq<char>)
    ensures
        !has_sub(lower, "ext:"@) ==> ({
            let e = spec_extensions(lower);
            &&& (has_sub(lower, "pdf"@))
                ==> e.contains("pdf"@)
            &&& (has_sub(lower, "excel"@) || has_sub(lower, "エクセル"@) || has_sub(lower, "xlsx"@) || has_sub(lower, "xls"@))
                ==> e.contains("xlsx"@) && e.contains("xls"@)
            &&& (has_sub(lower, "word"@) || has_sub(lower, "ワード"@) || has_sub(lower, "docx"@) || has_sub(lower, "doc"@))
                ==> e.contains("docx"@) && e.contains("doc"@)
            &&& (has_sub(lower, "powerpoint"@) || has_sub(lower, "パワーポイント"@) || has_sub(lower, "pptx"@) || has_sub(lower, "ppt"@))
                ==> e.contains("pptx"@) && e.contains("ppt"@)
            &&& (has_sub(lower, "python"@) || has_sub(lower, "パイソン"@))
                ==> e.contains("py"@)
            &&& (has_sub(lower, "rust"@) || has_sub(lower, "ラスト"@))
                ==> e.contains("rs"@)
            &&& (has_sub(lower, "typescript"@) || has_sub(lower, "タイプスクリプト"@) || has_sub(lower, "tsx"@))
                ==> e.contains("ts"@) && e.contains("tsx"@)
            &&& (has_sub(lower, "javascript"@) || has_sub(lower, "ジャバスクリプト"@) || has_sub(lower, "jsx"@))
                ==> e.contains("js"@) && e.contains("jsx"@)
            &&& (has_sub(lower, "markdown"@) || has_sub(lower, "マークダウン"@))
                ==> e.contains("md"@)
            &&& (has_sub(lower, "csv"@))
                ==> e.contains("csv"@)
            &&& (has_sub(lower, "json"@))
                ==> e.contains("json"@)
            &&& (has_sub(lower, "toml"@))
                ==> e.contains("toml"@)
            &&& (has_sub(lower, "yaml"@) || has_sub(lower, "yml"@))
                ==> e.contains("yaml"@) && e.contains("yml"@)
            &&& (has_sub(lower, "zip"@) || has_sub(lower, "アーカイブ"@))
                ==> e.contains("zip"@)
            &&& (has_sub(lower, "画像"@) || has_sub(lower, "image"@) || has_sub(lower, "img"@))
                ==> e.contains("png"@) && e.contains("jpg"@) && e.contains("jpeg"@) && e.contains("gif"@) && e.contains("webp"@)
            &&& (has_sub(lower, "動画"@) || has_sub(lower, "video"@) || has_sub(lower, "movie"@))
                ==> e.contains("mp4"@) && e.contains("mov"@) && e.contains("avi"@) && e.contains("mkv"@)
            &&& (has_sub(lower, "音楽"@) || has_sub(lower, "音声"@) || has_sub(lower, "audio"@))
                ==> e.contains("mp3"@) && e.contains("wav"@) && e.contains("flac"@) && e.contains("aac"@)
            &&& (has_sub(lower, "テキスト"@) || has_sub(lower, "text file"@))
                ==> e.contains("txt"@)
        }),
        !has_sub(lower, "ext:"@) ==> forall|x: Seq<char>|
            #[trigger] spec_extensions(lower).contains(x) ==> exists|m: int|
                0 <= m < alias_count() && #[trigger] any_in(lower, alias_entry(m).0) && alias_entry(m).1.contains(x),
{
    if !has_sub(lower, "ext:"@) {
        assert forall|x: Seq<char>| #[trigger] spec_extensions(lower).contains(x) implies exists|m: int|
            0 <= m < alias_count() && #[trigger] any_in(lower, alias_entry(m).0) && alias_entry(m).1.contains(x) by {
            lemma_alias_fold_contains(lower, 18, x);
        }
        assert((has_sub(lower, "pdf"@)) ==> spec_extensions(lower).contains("pdf"@)) by {
            if has_sub(lower, "pdf"@) {
                assert(alias_entry(0).0[0] == "pdf"@);
                assert(any_in(lower, alias_entry(0).0));
                assert(alias_entry(0).1[0] == "pdf"@);
                lemma_alias_row(lower, 0, "pdf"@);
            }
        }
        assert((has_sub(lower, "excel"@) || has_sub(lower, "エクセル"@) || has_sub(lower, "xlsx"@) || has_sub(lower, "xls"@)) ==> spec_extensions(lower).contains("xlsx"@) && spec_extensions(lower).contains("xls"@)) by {
            if has_sub(lower, "excel"@) || has_sub(lower, "エクセル"@) || has_sub(lower, "xlsx"@) || has_sub(lower, "xls"@) {
                assert(alias_entry(1).0[0] == "excel"@);
                assert(alias_entry(1).0[1] == "エクセル"@);
                assert(alias_entry(1).0[2] == "xlsx"@);
                assert(alias_entry(1).0[3] == "xls"@);
                assert(any_in(lower, alias_entry(1).0));
                assert(alias_entry(1).1[0] == "xlsx"@);
                lemma_alias_row(lower, 1, "xlsx"@);
                assert(alias_entry(1).1[1] == "xls"@);
                lemma_alias_row(lower, 1, "xls"@);
            }
        }
        assert((has_sub(lower, "word"@) || has_sub(lower, "ワード"@) || has_sub(lower, "docx"@) || has_sub(lower, "doc"@)) ==> spec_extensions(lower).contains("docx"@) && spec_extensions(lower).contains("doc"@)) by {
            if has_sub(lower, "word"@) || has_sub(lower, "ワード"@) || has_sub(lower, "docx"@) || has_sub(lower, "doc"@) {
                assert(alias_entry(2).0[0] == "word"@);
                assert(alias_entry(2).0[1] == "ワード"@);
                assert(alias_entry(2).0[2] == "docx"@);
                assert(alias_entry(2).0[3] == "doc"@);
                assert(any_in(lower, alias_entry(2).0));
                assert(alias_entry(2).1[0] == "docx"@);
                lemma_alias_row(lower, 2, "docx"@);
                assert(alias_entry(2).1[1] == "doc"@);
                lemma_alias_row(lower, 2, "doc"@);
            }
        }
        assert((has_sub(lower, "powerpoint"@) || has_sub(lower, "パワーポイント"@) || has_sub(lower, "pptx"@) || has_sub(lower, "ppt"@)) ==> spec_extensions(lower).contains("pptx"@) && spec_extensions(lower).contains("ppt"@)) by {
            if has_sub(lower, "powerpoint"@) || has_sub(lower, "パワーポイント"@) || has_sub(lower, "pptx"@) || has_sub(lower, "ppt"@) {
                assert(alias_entry(3).0[0] == "powerpoint"@);
                assert(alias_entry(3).0[1] == "パワーポイント"@);
                assert(alias_entry(3).0[2] == "pptx"@);
                assert(alias_entry(3).0[3] == "ppt"@);
                assert(any_in(lower, alias_entry(3).0));
                assert(alias_entry(3).1[0] == "pptx"@);
                lemma_alias_row(lower, 3, "pptx"@);
                assert(alias_entry(3).1[1] == "ppt"@);
                lemma_alias_row(lower, 3, "ppt"@);
            }
        }
        assert((has_sub(lower, "python"@) || has_sub(lower, "パイソン"@)) ==> spec_extensions(lower).contains("py"@)) by {
            if has_sub(lower, "python"@) || has_sub(lower, "パイソン"@) {
                assert(alias_entry(4).0[0] == "python"@);
                assert(alias_entry(4).0[1] == "パイソン"@);
                assert(any_in(lower, alias_entry(4).0));
                assert(alias_entry(4).1[0] == "py"@);
                lemma_alias_row(lower, 4, "py"@);
            }
        }
        assert((has_sub(lower, "rust"@) || has_sub(lower, "ラスト"@)) ==> spec_extensions(lower).contains("rs"@)) by {
            if has_sub(lower, "rust"@) || has_sub(lower, "ラスト"@) {
                assert(alias_entry(5).0[0] == "rust"@);
                assert(alias_entry(5).0[1] == "ラスト"@);
                assert(any_in(lower, alias_entry(5).0));
                assert(alias_entry(5).1[0] == "rs"@);
                lemma_alias_row(lower, 5, "rs"@);
            }
        }
        assert((has_sub(lower, "typescript"@) || has_sub(lower, "タイプスクリプト"@) || has_sub(lower, "tsx"@)) ==> spec_extensions(lower).contains("ts"@) && spec_extensions(lower).contains("tsx"@)) by {
            if has_sub(lower, "typescript"@) || has_sub(lower, "タイプスクリプト"@) || has_sub(lower, "tsx"@) {
                assert(alias_entry(6).0[0] == "typescript"@);
                assert(alias_entry(6).0[1] == "タイプスクリプト"@);
                assert(alias_entry(6).0[2] == "tsx"@);
                assert(any_in(lower, alias_entry(6).0));
                assert(alias_entry(6).1[0] == "ts"@);
                lemma_alias_row(lower, 6, "ts"@);
                assert(alias_entry(6).1[1] == "tsx"@);
                lemma_alias_row(lower, 6, "tsx"@);
            }
        }
        assert((has_sub(lower, "javascript"@) || has_sub(lower, "ジャバスクリプト"@) || has_sub(lower, "jsx"@)) ==> spec_extensions(lower).contains("js"@) && spec_extensions(lower).contains("jsx"@)) by {
            if has_sub(lower, "javascript"@) || has_sub(lower, "ジャバスクリプト"@) || has_sub(lower, "jsx"@) {
                assert(alias_entry(7).0[0] == "javascript"@);
                assert(alias_entry(7).0[1] == "ジャバスクリプト"@);
                assert(alias_entry(7).0[2] == "jsx"@);
                assert(any_in(lower, alias_entry(7).0));
                assert(alias_entry(7).1[0] == "js"@);
                lemma_alias_row(lower, 7, "js"@);
                assert(alias_entry(7).1[1] == "jsx"@);
                lemma_alias_row(lower, 7, "jsx"@);
            }
        }
        assert((has_sub(lower, "markdown"@) || has_sub(lower, "マークダウン"@)) ==> spec_extensions(lower).contains("md"@)) by {
            if has_sub(lower, "markdown"@) || has_sub(lower, "マークダウン"@) {
                assert(alias_entry(8).0[0] == "markdown"@);
                assert(alias_entry(8).0[1] == "マークダウン"@);
                assert(any_in(lower, alias_entry(8).0));
                assert(alias_entry(8).1[0] == "md"@);
                lemma_alias_row(lower, 8, "md"@);
            }
        }
        assert((has_sub(lower, "csv"@)) ==> spec_extensions(lower).contains("csv"@)) by {
            if has_sub(lower, "csv"@) {
                assert(alias_entry(9).0[0] == "csv"@);
                assert(any_in(lower, alias_entry(9).0));
                assert(alias_entry(9).1[0] == "csv"@);
                lemma_alias_row(lower, 9, "csv"@);
            }
        }
        assert((has_sub(lower, "json"@)) ==> spec_extensions(lower).contains("json"@)) by {
            if has_sub(lower, "json"@) {
                assert(alias_entry(10).0[0] == "json"@);
                assert(any_in(lower, alias_entry(10).0));
                assert(alias_entry(10).1[0] == "json"@);
                lemma_alias_row(lower, 10, "json"@);
            }
        }
        assert((has_sub(lower, "toml"@)) ==> spec_extensions(lower).contains("toml"@)) by {
            if has_sub(lower, "toml"@) {
                assert(alias_entry(11).0[0] == "toml"@);
                assert(any_in(lower, alias_entry(11).0));
                assert(alias_entry(11).1[0] == "toml"@);
                lemma_alias_row(lower, 11, "toml"@);
            }
        }
        assert((has_sub(lower, "yaml"@) || has_sub(lower, "yml"@)) ==> spec_extensions(lower).contains("yaml"@) && spec_extensions(lower).contains("yml"@)) by {
            if has_sub(lower, "yaml"@) || has_sub(lower, "yml"@) {
                assert(alias_entry(12).0[0] == "yaml"@);
                assert(alias_entry(12).0[1] == "yml"@);
                assert(any_in(lower, alias_entry(12).0));
                assert(alias_entry(12).1[0] == "yaml"@);
                lemma_alias_row(lower, 12, "yaml"@);
                assert(alias_entry(12).1[1] == "yml"@);
                lemma_alias_row(lower, 12, "yml"@);
            }
        }
        assert((has_sub(lower, "zip"@) || has_sub(lower, "アーカイブ"@)) ==> spec_extensions(lower).contains("zip"@)) by {
            if has_sub(lower, "zip"@) || has_sub(lower, "アーカイブ"@) {
                assert(alias_entry(13).0[0] == "zip"@);
                assert(alias_entry(13).0[1] == "アーカイブ"@);
                assert(any_in(lower, alias_entry(13).0));
                assert(alias_entry(13).1[0] == "zip"@);
                lemma_alias_row(lower, 13, "zip"@);
            }
        }
        assert((has_sub(lower, "画像"@) || has_sub(lower, "image"@) || has_sub(lower, "img"@)) ==> spec_extensions(lower).contains("png"@) && spec_extensions(lower).contains("jpg"@) && spec_extensions(lower).contains("jpeg"@) && spec_extensions(lower).contains("gif"@) && spec_extensions(lower).contains("webp"@)) by {
            if has_sub(lower, "画像"@) || has_sub(lower, "image"@) || has_sub(lower, "img"@) {
                assert(alias_entry(14).0[0] == "画像"@);
                assert(alias_entry(14).0[1] == "image"@);
                assert(alias_entry(14).0[2] == "img"@);
                assert(any_in(lower, alias_entry(14).0));
                assert(alias_entry(14).1[0] == "png"@);
                lemma_alias_row(lower, 14, "png"@);
                assert(alias_entry(14).1[1] == "jpg"@);
                lemma_alias_row(lower, 14, "jpg"@);
                assert(alias_entry(14).1[2] == "jpeg"@);
                lemma_alias_row(lower, 14, "jpeg"@);
                assert(alias_entry(14).1[3] == "gif"@);
                lemma_alias_row(lower, 14, "gif"@);
                assert(alias_entry(14).1[4] == "webp"@);
                lemma_alias_row(lower, 14, "webp"@);
            }
        }
        assert((has_sub(lower, "動画"@) || has_sub(lower, "video"@) || has_sub(lower, "movie"@)) ==> spec_extensions(lower).contains("mp4"@) && spec_extensions(lower).contains("mov"@) && spec_extensions(lower).contains("avi"@) && spec_extensions(lower).contains("mkv"@)) by {
            if has_sub(lower, "動画"@) || has_sub(lower, "video"@) || has_sub(lower, "movie"@) {
                assert(alias_entry(15).0[0] == "動画"@);
                assert(alias_entry(15).0[1] == "video"@);
                assert(alias_entry(15).0[2] == "movie"@);
                assert(any_in(lower, alias_entry(15).0));
                assert(alias_entry(15).1[0] == "mp4"@);
                lemma_alias_row(lower, 15, "mp4"@);
                assert(alias_entry(15).1[1] == "mov"@);
                lemma_alias_row(lower, 15, "mov"@);
                assert(alias_entry(15).1[2] == "avi"@);
                lemma_alias_row(lower, 15, "avi"@);
                assert(alias_entry(15).1[3] == "mkv"@);
                lemma_alias_row(lower, 15, "mkv"@);
            }
        }
        assert((has_sub(lower, "音楽"@) || has_sub(lower, "音声"@) || has_sub(lower, "audio"@)) ==> spec_extensions(lower).contains("mp3"@) && spec_extensions(lower).contains("wav"@) && spec_extensions(lower).contains("flac"@) && spec_extensions(lower).contains("aac"@)) by {
            if has_sub(lower, "音楽"@) || has_sub(lower, "音声"@) || has_sub(lower, "audio"@) {
                assert(alias_entry(16).0[0] == "音楽"@);
                assert(alias_entry(16).0[1] == "音声"@);
                assert(alias_entry(16).0[2] == "audio"@);
                assert(any_in(lower, alias_entry(16).0));
                assert(alias_entry(16).1[0] == "mp3"@);
                lemma_alias_row(lower, 16, "mp3"@);
                assert(alias_entry(16).1[1] == "wav"@);
                lemma_alias_row(lower, 16, "wav"@);
                assert(alias_entry(16).1[2] == "flac"@);
                lemma_alias_row(lower, 16, "flac"@);
                assert(alias_entry(16).1[3] == "aac"@);
                lemma_alias_row(lower, 16, "aac"@);
            }
        }
        assert((has_sub(lower, "テキスト"@) || has_sub(lower, "text file"@)) ==> spec_extensions(lower).contains("txt"@)) by {
            if has_sub(lower, "テキスト"@) || has_sub(lower, "text file"@) {
                assert(alias_entry(17).0[0] == "テキスト"@);
                assert(alias_entry(17).0[1] == "text file"@);
                assert(any_in(lower, alias_entry(17).0));
                assert(alias_entry(17).1[0] == "txt"@);
                lemma_alias_row(lower, 17, "txt"@);
            }
        }
    }
}

/// A kind of file that a query without the direct `ext:` syntax names gives
/// each of its extensions.
proof fn lemma_alias_row(lower: Seq<char>, m: int, x: Seq<char>)
    requires
        !has_sub(lower, "ext:"@),
        0 <= m < alias_count(),
        any_in(lower, alias_entry(m).0),
        alias_entry(m).1.contains(x),
    ensures
        spec_extensions(lower).contains(x),
{
    lemma_alias_fold_contains(lower, 18, x);
}

/// Whether `v` holds a string with the characters `x`.
fn contains_chars(v: &Vec<String>, x: &Vec<char>) -> (r: bool)
    ensures
        r == sviews(v@).contains(x@),
{
    let mut k: usize = 0;
    while k < v.len()
        invariant
            k <= v.len(),
            forall|j: int| 0 <= j < k ==> sviews(v@)[j] != x@,
        decreases v.len() - k,
    {
        let c = to_chars(v[k].as_str());
        if c.len() == x.len() && has_prefix(&c, x) {
            proof {
                assert(c@.take(x@.len() as int) =~= c@);
                assert(sviews(v@)[k as int] == x@);
            }
            return true;
        }
        proof {
            if c@ == x@ {
                assert(c@.take(x@.len() as int) =~= c@);
            }
        }
        k = k + 1;
    }
    false
}

fn extract_extensions(lower: &str) -> (r: Vec<String>)
    ensures
        sviews(r@) == spec_extensions(lower@),
{
    let l = to_chars(lower);
    let mut exts: Vec<String> = Vec::new();
    let p = to_chars("ext:");
    proof {
        reveal_strlit("ext:");
    }
    let ghost direct: Seq<Seq<char>> = match first_match(l@, "ext:"@) {
        Some(i) => nonempty_trimmed(split_on(word_after(l@, i + 4), ',')),
        None => Seq::empty(),
    };
    match find_sub(&l, &p) {
        Some(idx) => {
            proof {
                lemma_find_bound(l@, p@, idx as int);
            }
            assert(idx + 4 <= l.len());
            let value = word_after_of(&l, idx + 4);
            let pieces = split_char(&value, ',');
            let mut k: usize = 0;
            while k < pieces.len()
                invariant
                    k <= pieces.len(),
                    sviews(exts@) == nonempty_trimmed(cviews(pieces@).take(k as int)),
                decreases pieces.len() - k,
            {
                let ghost pk = cviews(pieces@).take(k + 1);
                proof {
                    assert(pk.drop_last() =~= cviews(pieces@).take(k as int));
                    assert(pk.last() == pieces@[k as int]@);
                }
                let e = trim_chars(&pieces[k]);
                if e.len() > 0 {
                    let ghost e0 = sviews(exts@);
                    exts.push(chars_to_string(&e));
                    assert(sviews(exts@) =~= e0.push(e@));
                }
                k = k + 1;
            }
            proof {
                assert(cviews(pieces@).take(pieces.len() as int) =~= cviews(pieces@));
            }
            if exts.len() > 0 {
                return exts;
            }
        },
        None => {},
    }
    assert(direct.len() == 0);
    let mut a: usize = 0;
    while a < 18
        invariant
            a <= 18,
            l@ == lower@,
            sviews(exts@) == alias_fold(l@, a as int),
        decreases 18 - a,
    {
        let (keys, mapped) = alias_entry_of(a);
        if any_lit_in(&l, &keys) {
            let mut b: usize = 0;
            let ghost base = alias_fold(l@, a as int);
            while b < mapped.len()
                invariant
                    b <= mapped.len(),
                    lits(mapped@) == alias_entry(a as int).1,
                    sviews(exts@) == push_all_absent(base, lits(mapped@).take(b as int)),
                decreases mapped.len() - b,
            {
                let ghost mb = lits(mapped@).take(b + 1);
                proof {
                    assert(mb.drop_last() =~= lits(mapped@).take(b as int));
                    assert(mb.last() == mapped@[b as int]@);
                }
                let e = to_chars(mapped[b]);
                if !contains_chars(&exts, &e) {
                    let ghost e0 = sviews(exts@);
                    exts.push(mapped[b].to_owned());
                    assert(sviews(exts@) =~= e0.push(e@));
                }
                b = b + 1;
            }
            proof {
                assert(lits(mapped@).take(mapped.len() as int) =~= lits(mapped@));
            }
        }
        a = a + 1;
    }
    exts
}


/// A character that may start the part of a path after a slash.
pub open spec fn path_start_char(c: char) -> bool {
    is_alnum(c) || c == '_' || c == '-' || c == '.'
}

/// A character that may continue a path.
pub open spec fn path_char(c: char) -> bool {
    path_start_char(c) || c == '/'
}

/// The number of leading path characters of `s`.
pub open spec fn path_run(s: Seq<char>) -> nat
    decreases s.len(),
{
    if s.len() == 0 || !path_char(s[0]) {
        0
    } else {
        1 + path_run(s.drop_first())
    }
}

proof fn lemma_path_run(s: Seq<char>, j: int)
    requires
        0 <= j <= s.len(),
        forall|k: int| 0 <= k < j ==> path_char(#[trigger] s[k]),
        j == s.len() || !path_char(s[j]),
    ensures
        path_run(s) == j,
    decreases j,
{
    if j > 0 {
        assert forall|k: int| 0 <= k < j - 1 implies path_char(#[trigger] s.drop_first()[k]) by {
            assert(s.drop_first()[k] == s[k + 1]);
        }
        if j < s.len() {
            assert(s.drop_first()[j - 1] == s[j]);
        }
        lemma_path_run(s.drop_first(), j - 1);
    }
}

/// The path that a word spells: the word up to its first slash and the
/// path characters that follow it (so `src/のTypeScript` spells `src/`), when
/// the word has a slash and does not start with `http`.
pub open spec fn word_path(tok: Seq<char>) -> Option<Seq<char>> {
    if starts_with(tok, "http"@) {
        None
    } else {
        match first_match(tok, seq!['/']) {
            None => None,
            Some(sp) => Some(tok.take(sp + 1 + path_run(tok.skip(sp + 1)))),
        }
    }
}

/// The path of the first word that spells one.
pub open spec fn first_word_path(toks: Seq<Seq<char>>) -> Option<Seq<char>>
    decreases toks.len(),
{
    if toks.len() == 0 {
        None
    } else {
        match word_path(toks[0]) {
            Some(p) => Some(p),
            None => first_word_path(toks.drop_first()),
        }
    }
}

/// `c` is `l`, or the upper-case ASCII letter of the lower-case letter `l`.
pub open spec fn ascii_ci_eq(c: char, l: char) -> bool {
    c == l || ('A' <= c <= 'Z' && c as int + 32 == l as int)
}

/// `path:`, in any case of its ASCII letters, starts at `i` in `s`.
pub open spec fn path_marker_at(s: Seq<char>, i: int) -> bool {
    &&& 0 <= i
    &&& i + 5 <= s.len()
    &&& ascii_ci_eq(s[i], 'p')
    &&& ascii_ci_eq(s[i + 1], 'a')
    &&& ascii_ci_eq(s[i + 2], 't')
    &&& ascii_ci_eq(s[i + 3], 'h')
    &&& s[i + 4] == ':'
}

/// Where the first `path:` (in any case) starts in `s`.
#[verifier::opaque]
pub open spec fn path_marker(s: Seq<char>) -> Option<int> {
    if exists|i: int| #[trigger] path_marker_at(s, i) {
        Some(choose|i: int| path_marker_at(s, i) && forall|j: int| 0 <= j < i ==> !#[trigger] path_marker_at(s, j))
    } else {
        None
    }
}

/// The path filter of a query: the word after the first `path:` (its
/// letters in any case), else the path that the first word with a slash spells.
pub open spec fn spec_path(input: Seq<char>) -> Option<Seq<char>> {
    let direct = match path_marker(input) {
        Some(i) => word_after(input, i + 5),
        None => Seq::empty(),
    };
    if direct.len() > 0 {
        Some(direct)
    } else {
        first_word_path(ws_tokens(input))
    }
}

fn is_path_start(c: char) -> (r: bool)
    ensures
        r == path_start_char(c),
{
    char_is_alnum(c) || c == '_' || c == '-' || c == '.'
}

fn is_path_char(c: char) -> (r: bool)
    ensures
        r == path_char(c),
{
    is_path_start(c) || c == '/'
}

fn word_path_of(tok: &Vec<char>) -> (r: Option<Vec<char>>)
    ensures
        match r {
            Some(p) => word_path(tok@) == Some(p@),
            None => word_path(tok@) is None,
        },
{
    if has_prefix_lit(tok, "http") {
        return None;
    }
    let slash: Vec<char> = vec!['/'];
    assert(slash@ =~= seq!['/']);
    match find_sub(tok, &slash) {
        None => None,
        Some(sp) => {
            proof {
                lemma_find_bound(tok@, slash@, sp as int);
            }
            assert(sp + 1 <= tok@.len());
            assert(sp + 1 <= tok.len());
            let after = sub_chars(tok, sp + 1, tok.len());
            assert(after@ =~= tok@.skip(sp + 1));
            let mut j: usize = 0;
            while j < after.len() && is_path_char(after[j])
                invariant
                    j <= after.len(),
                    forall|k: int| 0 <= k < j ==> path_char(#[trigger] after@[k]),
                decreases after.len() - j,
            {
                j = j + 1;
            }
            proof {
                lemma_path_run(after@, j as int);
            }
            let p = sub_chars(tok, 0, sp + 1 + j);
            assert(p@ =~= tok@.take(sp + 1 + j));
            Some(p)
        },
    }
}

fn char_ci_eq(c: char, l: char) -> (r: bool)
    ensures
        r == ascii_ci_eq(c, l),
{
    c == l || ('A' <= c && c <= 'Z' && (c as u32) + 32 == (l as u32))
}

fn find_path_marker(s: &Vec<char>) -> (r: Option<usize>)
    ensures
        match r {
            Some(i) => i + 5 <= s.len() && path_marker(s@) == Some(i as int),
            None => path_marker(s@) is None,
        },
{
    proof {
        reveal(path_marker);
    }
    let mut i: usize = 0;
    while i < s.len() && s.len() - i >= 5
        invariant
            i <= s.len(),
            forall|j: int| 0 <= j < i ==> !#[trigger] path_marker_at(s@, j),
        decreases s.len() - i,
    {
        if char_ci_eq(s[i], 'p') && char_ci_eq(s[i + 1], 'a') && char_ci_eq(s[i + 2], 't') && char_ci_eq(s[i + 3], 'h')
            && s[i + 4] == ':' {
            proof {
                assert(path_marker_at(s@, i as int));
                assert(path_marker_at(s@, i as int) && forall|k: int| 0 <= k < i ==> !#[trigger] path_marker_at(s@, k));
                let j = choose|j: int| path_marker_at(s@, j) && forall|k: int| 0 <= k < j ==> !#[trigger] path_marker_at(s@, k);
                assert(path_marker_at(s@, j));
                if j > i {
                    assert(!path_marker_at(s@, i as int));
                }
                if j < i {
                    assert(!path_marker_at(s@, j));
                }
                assert(j == i);
                reveal(path_marker);
                assert(path_marker(s@) == Some(i as int));
            }
            return Some(i);
        }
        i = i + 1;
    }
    proof {
        assert forall|j: int| !#[trigger] path_marker_at(s@, j) by {
            if path_marker_at(s@, j) {
                assert(j < i);
            }
        }
        reveal(path_marker);
    }
    None
}

fn extract_path(input: &str) -> (r: Option<String>)
    ensures
        opt_string(r) == spec_path(input@),
{
    let inp = to_chars(input);
    match find_path_marker(&inp) {
        Some(idx) => {
            let value = word_after_of(&inp, idx + 5);
            if value.len() > 0 {
                return Some(chars_to_string(&value));
            }
        },
        None => {},
    }
    let tokens = split_ws(&inp);
    let mut k: usize = 0;
    assert(cviews(tokens@).skip(0) =~= cviews(tokens@));
    while k < tokens.len()
        invariant
            k <= tokens.len(),
            cviews(tokens@) == ws_tokens(input@),
            spec_path(input@) == first_word_path(cviews(tokens@).skip(k as int)),
        decreases tokens.len() - k,
    {
        let ghost rest = cviews(tokens@).skip(k as int);
        proof {
            assert(rest[0] == tokens@[k as int]@);
            assert(rest.drop_first() =~= cviews(tokens@).skip(k + 1));
        }
        match word_path_of(&tokens[k]) {
            Some(pv) => {
                return Some(chars_to_string(&pv));
            },
            None => {},
        }
        k = k + 1;
    }
    None
}

/// The characters of an optional string.
pub open spec fn opt_string(o: Option<String>) -> Option<Seq<char>> {
    match o {
        Some(s) => Some(s@),
        None => None,
    }
}


/// The words that name a kind of file.
pub open spec fn extension_alias_words() -> Seq<Seq<char>> {
    seq![
        "pdf"@, "excel"@, "エクセル"@, "xlsx"@, "xls"@, "word"@, "ワード"@, "docx"@, "doc"@, "powerpoint"@,
        "パワーポイント"@, "pptx"@, "ppt"@, "python"@, "パイソン"@, "rust"@, "ラスト"@, "typescript"@,
        "タイプスクリプト"@, "tsx"@, "javascript"@, "ジャバスクリプト"@, "jsx"@, "markdown"@, "マークダウン"@,
        "csv"@, "json"@, "toml"@, "yaml"@, "yml"@, "zip"@, "アーカイブ"@, "画像"@, "image"@, "img"@, "動画"@,
        "video"@, "movie"@, "音楽"@, "音声"@, "audio"@, "テキスト"@,
    ]
}

/// The words that name a relative date.
pub open spec fn date_words() -> Seq<Seq<char>> {
    seq![
        "今日"@, "本日"@, "today"@, "昨日"@, "yesterday"@, "今週"@, "先週"@, "lastweek"@, "今月"@, "先月"@,
        "今年"@, "去年"@, "昨年"@,
    ]
}

/// The words that the date, size and extension rules consume, and particles.
pub open spec fn noise_words() -> Seq<Seq<char>> {
    seq![
        "今日"@, "昨日"@, "今週"@, "先週"@, "今月"@, "先月"@, "今年"@, "去年"@, "昨年"@, "以上"@, "以下"@,
        "より大きい"@, "より小さい"@, "超"@, "未満"@, "pdf"@, "excel"@, "エクセル"@, "word"@, "ワード"@,
        "python"@, "rust"@, "typescript"@, "javascript"@, "画像"@, "動画"@, "音楽"@, "音声"@, "の"@, "な"@,
        "で"@, "が"@, "を"@, "は"@, "に"@, "と"@, "も"@, "ファイル"@, "file"@, "files"@,
    ]
}

fn is_extension_alias(t: &str) -> (r: bool)
    ensures
        r == extension_alias_words().contains(t@),
{
    let list: Vec<&str> = vec![
        "pdf", "excel", "エクセル", "xlsx", "xls", "word", "ワード", "docx", "doc", "powerpoint",
        "パワーポイント", "pptx", "ppt", "python", "パイソン", "rust", "ラスト", "typescript",
        "タイプスクリプト", "tsx", "javascript", "ジャバスクリプト", "jsx", "markdown", "マークダウン",
        "csv", "json", "toml", "yaml", "yml", "zip", "アーカイブ", "画像", "image", "img", "動画",
        "video", "movie", "音楽", "音声", "audio", "テキスト",
    ];
    assert(lits(list@) =~= extension_alias_words());
    let tc = to_chars(t);
    in_lits(&tc, &list)
}

fn is_date_keyword(t: &str) -> (r: bool)
    ensures
        r == date_words().contains(t@),
{
    let list: Vec<&str> = vec![
        "今日", "本日", "today", "昨日", "yesterday", "今週", "先週", "lastweek", "今月", "先月",
        "今年", "去年", "昨年",
    ];
    assert(lits(list@) =~= date_words());
    let tc = to_chars(t);
    in_lits(&tc, &list)
}

fn is_noise_token(t: &str) -> (r: bool)
    ensures
        r == noise_words().contains(t@),
{
    let list: Vec<&str> = vec![
        "今日", "昨日", "今週", "先週", "今月", "先月", "今年", "去年", "昨年", "以上", "以下",
        "より大きい", "より小さい", "超", "未満", "pdf", "excel", "エクセル", "word", "ワード",
        "python", "rust", "typescript", "javascript", "画像", "動画", "音楽", "音声", "の", "な",
        "で", "が", "を", "は", "に", "と", "も", "ファイル", "file", "files",
    ];
    assert(lits(list@) =~= noise_words());
    let tc = to_chars(t);
    in_lits(&tc, &list)
}

/// Whether a word of the query stays a keyword: it is not noise, not direct
/// syntax, not a path, not consumed as a kind of file or a date, and does not
/// start with the path filter.
pub open spec fn keeps_word(
    tok: Seq<char>,
    has_exts: bool,
    has_date: bool,
    consumed_path: Seq<char>,
) -> bool {
    let t = spec_lowercase(tok);
    &&& !noise_words().contains(t)
    &&& !(starts_with(t, "path:"@) || starts_with(t, "ext:"@) || starts_with(t, "dm:"@) || starts_with(t, "size:"@))
    &&& !(has_sub(tok, seq!['/']) && !starts_with(tok, "http"@))
    &&& !(has_exts && extension_alias_words().contains(t))
    &&& !(has_date && date_words().contains(t))
    &&& !(consumed_path.len() > 0 && starts_with(tok, consumed_path))
}

/// The words that stay keywords, in order.
pub open spec fn kept_words(toks: Seq<Seq<char>>, has_exts: bool, has_date: bool, consumed_path: Seq<char>) -> Seq<
    Seq<char>,
>
    decreases toks.len(),
{
    if toks.len() == 0 {
        Seq::empty()
    } else {
        let before = kept_words(toks.drop_last(), has_exts, has_date, consumed_path);
        if keeps_word(toks.last(), has_exts, has_date, consumed_path) {
            before.push(toks.last())
        } else {
            before
        }
    }
}

/// The keywords of a query.
pub open spec fn spec_keywords(input: Seq<char>) -> Seq<Seq<char>> {
    let lower = spec_lowercase(input);
    kept_words(
        ws_tokens(input),
        spec_extensions(lower).len() > 0,
        spec_date_modifier(lower) is Some,
        match spec_path(input) {
            Some(p) => p,
            None => Seq::empty(),
        },
    )
}

/// Parses a natural-language query with fixed rules: relative dates
/// ("today", "先週", `dm:`), sizes ("10MB以上", `size:>`), kinds of file
/// ("PDF", "Excel", `ext:`), a path ("src/", `path:`); the remaining words are
/// keywords.
pub fn parse_query(input: &str) -> (q: ParsedQuery)
    ensures
        opt_string(q.date_modified) == spec_date_modifier(spec_lowercase(input@)),
        q.min_size == spec_size(spec_lowercase(input@)).0,
        q.max_size == spec_size(spec_lowercase(input@)).1,
        sviews(q.extensions@) == spec_extensions(spec_lowercase(input@)),
        opt_string(q.path_filter) == spec_path(input@),
        sviews(q.keywords@) == spec_keywords(input@),
{
    let lower = lowercase(input);
    let date_modified = extract_date_modifier(lower.as_str());
    let (min_size, max_size) = extract_size(lower.as_str());
    let extensions = extract_extensions(lower.as_str());
    let path_filter = extract_path(input);
    let consumed_path: Vec<char> = match &path_filter {
        Some(p) => to_chars(p.as_str()),
        None => Vec::new(),
    };
    let ghost has_exts = extensions.len() > 0;
    let ghost has_date = date_modified is Some;
    proof {
        assert(sviews(extensions@).len() == extensions.len());
        assert(opt_string(date_modified) is Some <==> date_modified is Some);
    }
    let inp = to_chars(input);
    let tokens = split_ws(&inp);
    let mut keywords: Vec<String> = Vec::new();
    let mut k: usize = 0;
    while k < tokens.len()
        invariant
            k <= tokens.len(),
            has_exts == (extensions.len() > 0),
            has_date == (date_modified is Some),
            sviews(keywords@) == kept_words(cviews(tokens@).take(k as int), has_exts, has_date, consumed_path@),
        decreases tokens.len() - k,
    {
        let ghost tk = cviews(tokens@).take(k + 1);
        proof {
            assert(tk.drop_last() =~= cviews(tokens@).take(k as int));
            assert(tk.last() == tokens@[k as int]@);
        }
        let token = &tokens[k];
        let token_s = chars_to_string(token);
        let t_s = lowercase(token_s.as_str());
        let t = to_chars(t_s.as_str());
        let keep = if is_noise_token(t_s.as_str()) {
            false
        } else if has_prefix_lit(&t, "path:") || has_prefix_lit(&t, "ext:") || has_prefix_lit(&t, "dm:")
            || has_prefix_lit(&t, "size:") {
            false
        } else if contains_lit(token, "/") && !has_prefix_lit(token, "http") {
            false
        } else if extensions.len() > 0 && is_extension_alias(t_s.as_str()) {
            false
        } else if date_modified.is_some() && is_date_keyword(t_s.as_str()) {
            false
        } else if consumed_path.len() > 0 && has_prefix(token, &consumed_path) {
            false
        } else {
            true
        };
        proof {
            reveal_strlit("/");
            assert("/"@ =~= seq!['/']);
        }
        if keep {
            let ghost kw0 = sviews(keywords@);
            keywords.push(token_s);
            assert(sviews(keywords@) =~= kw0.push(token@));
        }
        k = k + 1;
    }
    proof {
        assert(cviews(tokens@).take(tokens.len() as int) =~= cviews(tokens@));
    }
    ParsedQuery { keywords, extensions, path_filter, min_size, max_size, date_modified }
}


/// The word sent to Everything for a keyword: its first half, at least three
/// characters, so that a typo in the second half still finds the file. The
/// word is a prefix of the keyword, so an exact match is still found.
pub open spec fn spec_everything_term(kw: Seq<char>) -> Seq<char> {
    let keep = if kw.len() / 2 > 3 { kw.len() / 2 } else { 3 };
    if keep >= kw.len() {
        kw
    } else {
        kw.take(keep as int)
    }
}

/// The term sent for a keyword is a prefix of the keyword, so the keyword
/// holds it and a file named exactly by the keyword still matches it.
pub proof fn lemma_everything_term_is_prefix(kw: Seq<char>)
    ensures
        starts_with(kw, spec_everything_term(kw)),
        has_sub(kw, spec_everything_term(kw)),
{
    let t = spec_everything_term(kw);
    assert(kw.take(t.len() as int) =~= t);
    assert(kw.subrange(0, t.len() as int) =~= t);
    lemma_match_found(kw, t, 0, 0);
}

/// How much of a keyword is sent: a keyword of at most three characters is
/// sent whole, one of four to seven characters as its first three, and a
/// longer one as its first half (rounded down).
pub proof fn lemma_everything_term_length(kw: Seq<char>)
    ensures
        kw.len() <= 3 ==> spec_everything_term(kw) == kw,
        4 <= kw.len() <= 7 ==> spec_everything_term(kw) == kw.take(3),
        kw.len() >= 8 ==> spec_everything_term(kw) == kw.take((kw.len() / 2) as int),
{
}

fn everything_term(kw: &str) -> (r: String)
    ensures
        r@ == spec_everything_term(kw@),
{
    let chars = to_chars(kw);
    let len = chars.len();
    let keep = if len / 2 > 3 { len / 2 } else { 3 };
    if keep >= len {
        return kw.to_owned();
    }
    let t = sub_chars(&chars, 0, keep);
    assert(t@ =~= kw@.take(keep as int));
    chars_to_string(&t)
}

/// The part of an Everything query for a keyword: its term, quoted when it
/// holds a space.
pub open spec fn keyword_part(kw: Seq<char>) -> Seq<char> {
    let term = spec_everything_term(kw);
    if has_sub(term, seq![' ']) {
        seq!['"'] + term + seq!['"']
    } else {
        term
    }
}

/// The Everything query for the filters and keywords: `ext:`, `path:`,
/// `size:>`, `size:<` and `dm:` terms in that order, then a term for each
/// keyword, separated by spaces.
pub open spec fn spec_everything_query(
    keywords: Seq<Seq<char>>,
    extensions: Seq<Seq<char>>,
    path_filter: Option<Seq<char>>,
    min_size: Option<u64>,
    max_size: Option<u64>,
    date_modified: Option<Seq<char>>,
) -> Seq<char> {
    let p1: Seq<Seq<char>> = if extensions.len() > 0 {
        seq!["ext:"@ + join(extensions, ","@)]
    } else {
        Seq::empty()
    };
    let p2 = match path_filter {
        Some(p) => p1.push("path:"@ + p),
        None => p1,
    };
    let p3 = match min_size {
        Some(m) => p2.push("size:>"@ + dec_str(m as nat)),
        None => p2,
    };
    let p4 = match max_size {
        Some(m) => p3.push("size:<"@ + dec_str(m as nat)),
        None => p3,
    };
    let p5 = match date_modified {
        Some(d) => p4.push("dm:"@ + d),
        None => p4,
    };
    join(p5 + keywords.map_values(|kw: Seq<char>| keyword_part(kw)), " "@)
}

impl ParsedQuery {
    /// The query in Everything's syntax, such as `ext:pdf dm:lastweek rep`.
    pub fn to_everything_query(&self) -> (r: String)
        ensures
            r@ == spec_everything_query(
                sviews(self.keywords@),
                sviews(self.extensions@),
                opt_string(self.path_filter),
                self.min_size,
                self.max_size,
                opt_string(self.date_modified),
            ),
    {
        let mut parts: Vec<Vec<char>> = Vec::new();
        assert(cviews(parts@) =~= Seq::<Seq<char>>::empty());
        if self.extensions.len() > 0 {
            let mut ev: Vec<Vec<char>> = Vec::new();
            let mut k: usize = 0;
            while k < self.extensions.len()
                invariant
                    k <= self.extensions.len(),
                    cviews(ev@) == sviews(self.extensions@).take(k as int),
                decreases self.extensions.len() - k,
            {
                let ghost e0 = cviews(ev@);
                let c = to_chars(self.extensions[k].as_str());
                assert(c@ == sviews(self.extensions@)[k as int]);
                ev.push(c);
                assert(cviews(ev@) =~= e0.push(c@));
                assert(sviews(self.extensions@).take(k + 1) =~= sviews(self.extensions@).take(k as int).push(c@));
                k = k + 1;
            }
            assert(sviews(self.extensions@).take(self.extensions.len() as int) =~= sviews(self.extensions@));
            let comma = to_chars(",");
            let joined = join_chars(&ev, &comma);
            let mut part = to_chars("ext:");
            push_all(&mut part, &joined);
            let ghost pv = part@;
            parts.push(part);
            assert(cviews(parts@) =~= seq![pv]);
        }
        let ghost g1 = cviews(parts@);
        match &self.path_filter {
            Some(p) => {
                let mut part = to_chars("path:");
                push_lit(&mut part, p.as_str());
                let ghost pv = part@;
                parts.push(part);
                assert(cviews(parts@) =~= g1.push(pv));
            },
            None => {},
        }
        let ghost g2 = cviews(parts@);
        match self.min_size {
            Some(m) => {
                let mut part = to_chars("size:>");
                push_dec(&mut part, m);
                let ghost pv = part@;
                parts.push(part);
                assert(cviews(parts@) =~= g2.push(pv));
            },
            None => {},
        }
        let ghost g3 = cviews(parts@);
        match self.max_size {
            Some(m) => {
                let mut part = to_chars("size:<");
                push_dec(&mut part, m);
                let ghost pv = part@;
                parts.push(part);
                assert(cviews(parts@) =~= g3.push(pv));
            },
            None => {},
        }
        let ghost g4 = cviews(parts@);
        match &self.date_modified {
            Some(d) => {
                let mut part = to_chars("dm:");
                push_lit(&mut part, d.as_str());
                let ghost pv = part@;
                parts.push(part);
                assert(cviews(parts@) =~= g4.push(pv));
            },
            None => {},
        }
        let ghost g5 = cviews(parts@);
        let ghost kws = sviews(self.keywords@);
        let ghost kparts = kws.map_values(|kw: Seq<char>| keyword_part(kw));
        proof {
            let p1: Seq<Seq<char>> = if sviews(self.extensions@).len() > 0 {
                seq!["ext:"@ + join(sviews(self.extensions@), ","@)]
            } else {
                Seq::empty()
            };
            assert(g1 =~= p1);
        }
        let mut k: usize = 0;
        while k < self.keywords.len()
            invariant
                k <= self.keywords.len(),
                kws == sviews(self.keywords@),
                kparts == kws.map_values(|kw: Seq<char>| keyword_part(kw)),
                cviews(parts@) == g5 + kparts.take(k as int),
            decreases self.keywords.len() - k,
        {
            let term = everything_term(self.keywords[k].as_str());
            let tc = to_chars(term.as_str());
            let ghost p0 = cviews(parts@);
            if contains_lit(&tc, " ") {
                let mut part = to_chars("\"");
                push_all(&mut part, &tc);
                push_lit(&mut part, "\"");
                proof {
                    reveal_strlit("\"");
                    reveal_strlit(" ");
                    assert("\""@ =~= seq!['"']);
                    assert(" "@ =~= seq![' ']);
                }
                parts.push(part);
            } else {
                proof {
                    reveal_strlit(" ");
                    assert(" "@ =~= seq![' ']);
                }
                parts.push(tc);
            }
            proof {
                assert(kparts[k as int] == keyword_part(self.keywords@[k as int]@));
                assert(cviews(parts@) =~= p0.push(kparts[k as int]));
                assert(kparts.take(k + 1) =~= kparts.take(k as int).push(kparts[k as int]));
            }
            k = k + 1;
        }
        proof {
            assert(kparts.take(self.keywords.len() as int) =~= kparts);
            assert(cviews(parts@) =~= g5 + kparts);
        }
        let space = to_chars(" ");
        let joined = join_chars(&parts, &space);
        chars_to_string(&joined)
    }
}

} // verus!
