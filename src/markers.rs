//! The inline metadata markers of a task line (dates and priority), how each is
//! recognised at a position, and how they are stripped from display text.
use vstd::prelude::*;
use crate::text::{collapse_chars, collapse_from, skip_ws, starts_with_at, trim_chars, collapse, is_digit, is_ws, lemma_collapse_len, lemma_ws_run_bound, lemma_ws_tail_bound, occurs_at, trim, ws_run, ws_tail};

verus! {

/// The marker forms. A head form is a glyph or a `key:` followed by optional
/// whitespace and an ISO date; `DueCall` is `@due(DATE)`.
#[derive(Clone, Copy, Debug, PartialEq, Eq, Structural)]
pub enum Marker {
    DueGlyph,
    DueKey,
    DueCall,
    CreatedGlyph,
    CreatedKey,
    CompletedGlyph,
    CompletedKey,
    PriorityGlyph,
    PriorityText,
}

pub open spec fn due_glyph() -> char {
    '\u{1F4C5}'
}

pub open spec fn created_glyph() -> char {
    '\u{2795}'
}

pub open spec fn completed_glyph() -> char {
    '\u{2705}'
}

/// The four priority glyphs, highest first.
pub open spec fn is_priority_glyph(c: char) -> bool {
    c == '\u{23EB}' || c == '\u{1F53C}' || c == '\u{1F53D}' || c == '\u{23EC}'
}

pub open spec fn key_due() -> Seq<char> {
    seq!['d', 'u', 'e', ':']
}

pub open spec fn key_created() -> Seq<char> {
    seq!['c', 'r', 'e', 'a', 't', 'e', 'd', ':']
}

pub open spec fn key_completed() -> Seq<char> {
    seq!['c', 'o', 'm', 'p', 'l', 'e', 't', 'e', 'd', ':']
}

pub open spec fn key_priority() -> Seq<char> {
    seq!['p', 'r', 'i', 'o', 'r', 'i', 't', 'y', ':']
}

pub open spec fn call_open() -> Seq<char> {
    seq!['@', 'd', 'u', 'e', '(']
}

pub open spec fn word_high() -> Seq<char> {
    seq!['h', 'i', 'g', 'h']
}

pub open spec fn word_medium() -> Seq<char> {
    seq!['m', 'e', 'd', 'i', 'u', 'm']
}

pub open spec fn word_low() -> Seq<char> {
    seq!['l', 'o', 'w']
}

/// The text that opens a head form.
pub open spec fn head_of(m: Marker) -> Seq<char> {
    match m {
        Marker::DueGlyph => seq![due_glyph()],
        Marker::DueKey => key_due(),
        Marker::CreatedGlyph => seq![created_glyph()],
        Marker::CreatedKey => key_created(),
        Marker::CompletedGlyph => seq![completed_glyph()],
        Marker::CompletedKey => key_completed(),
        _ => seq![],
    }
}

pub open spec fn is_head_form(m: Marker) -> bool {
    m != Marker::DueCall && m != Marker::PriorityGlyph && m != Marker::PriorityText
}

/// `YYYY-MM-DD` in ASCII digits at position `i`.
pub open spec fn date_at(s: Seq<char>, i: int) -> bool {
    0 <= i && i + 10 <= s.len() && is_digit(s[i]) && is_digit(s[i + 1]) && is_digit(s[i + 2])
        && is_digit(s[i + 3]) && s[i + 4] == '-' && is_digit(s[i + 5]) && is_digit(s[i + 6])
        && s[i + 7] == '-' && is_digit(s[i + 8]) && is_digit(s[i + 9])
}

pub open spec fn ascii_lower(c: char) -> char {
    if 'A' <= c && c <= 'Z' {
        (((c as u8) + 32) as u8) as char
    } else {
        c
    }
}

/// `w` occurs at `i`, letters compared without regard to ASCII case when `ci`.
pub open spec fn word_at(s: Seq<char>, i: int, w: Seq<char>, ci: bool) -> bool {
    0 <= i && i + w.len() <= s.len() && forall|k: int|
        0 <= k < w.len() ==> (if ci {
            ascii_lower(#[trigger] s[i + k]) == w[k]
        } else {
            s[i + k] == w[k]
        })
}

/// Length of `priority:` + whitespace + `high|medium|low` at `i`, if it is there.
pub open spec fn priority_text_len(s: Seq<char>, i: int, ci: bool) -> Option<nat> {
    if word_at(s, i, key_priority(), ci) {
        let j = i + 9 + ws_run(s, i + 9);
        if word_at(s, j, word_high(), ci) {
            Some((j - i + 4) as nat)
        } else if word_at(s, j, word_medium(), ci) {
            Some((j - i + 6) as nat)
        } else if word_at(s, j, word_low(), ci) {
            Some((j - i + 3) as nat)
        } else {
            None
        }
    } else {
        None
    }
}

/// Length of the match of marker `m` at position `i` of `s`, if one starts there.
pub open spec fn marker_len(m: Marker, s: Seq<char>, i: int) -> Option<nat> {
    match m {
        Marker::DueCall => if occurs_at(s, call_open(), i) && date_at(s, i + 5) && i + 15 < s.len()
            && s[i + 15] == ')' {
            Some(16)
        } else {
            None
        },
        Marker::PriorityGlyph => if 0 <= i < s.len() && is_priority_glyph(s[i]) {
            Some(1)
        } else {
            None
        },
        Marker::PriorityText => priority_text_len(s, i, true),
        _ => {
            let h = head_of(m);
            let j = i + h.len();
            if occurs_at(s, h, i) && date_at(s, j + ws_run(s, j)) {
                Some((h.len() + ws_run(s, j) + 10) as nat)
            } else {
                None
            }
        },
    }
}

/// Leftmost-first removal of every match of `m`, from position `i` on.
pub open spec fn strip_from(m: Marker, s: Seq<char>, i: int) -> Seq<char>
    decreases s.len() - i,
{
    if i < 0 || i >= s.len() {
        seq![]
    } else {
        match marker_len(m, s, i) {
            Some(k) => if k > 0 {
                strip_from(m, s, i + k)
            } else {
                seq![s[i]] + strip_from(m, s, i + 1)
            },
            None => seq![s[i]] + strip_from(m, s, i + 1),
        }
    }
}

pub open spec fn strip(m: Marker, s: Seq<char>) -> Seq<char> {
    strip_from(m, s, 0)
}

pub open spec fn no_match_of(m: Marker, s: Seq<char>) -> bool {
    forall|i: int| 0 <= i < s.len() ==> #[trigger] marker_len(m, s, i) is None
}

/// No date or priority marker of any form occurs in `s`.
pub open spec fn marker_free(s: Seq<char>) -> bool {
    forall|m: Marker| #[trigger] no_match_of(m, s)
}

/// A leading `HH:MM ` becomes a single space.
pub open spec fn strip_timestamp(s: Seq<char>) -> Seq<char> {
    if s.len() >= 6 && is_digit(s[0]) && is_digit(s[1]) && s[2] == ':' && is_digit(s[3])
        && is_digit(s[4]) && s[5] == ' ' {
        seq![' '] + s.skip(6)
    } else {
        s
    }
}

/// All forms removed once, in the fixed order: dates, priority, created, completed.
pub open spec fn strip_all(s: Seq<char>) -> Seq<char> {
    strip(
        Marker::CompletedKey,
        strip(
            Marker::CompletedGlyph,
            strip(
                Marker::CreatedKey,
                strip(
                    Marker::CreatedGlyph,
                    strip(
                        Marker::PriorityText,
                        strip(
                            Marker::PriorityGlyph,
                            strip(Marker::DueCall, strip(Marker::DueKey, strip(Marker::DueGlyph, s))),
                        ),
                    ),
                ),
            ),
        ),
    )
}

/// The first cleaning pass: due dates, the leading timestamp, priority glyphs and
/// text, created and completed dates.
pub open spec fn first_pass(s: Seq<char>) -> Seq<char> {
    strip(
        Marker::CompletedKey,
        strip(
            Marker::CompletedGlyph,
            strip(
                Marker::CreatedKey,
                strip(
                    Marker::CreatedGlyph,
                    strip(
                        Marker::PriorityText,
                        strip(
                            Marker::PriorityGlyph,
                            strip_timestamp(
                                strip(
                                    Marker::DueCall,
                                    strip(Marker::DueKey, strip(Marker::DueGlyph, s)),
                                ),
                            ),
                        ),
                    ),
                ),
            ),
        ),
    )
}

/// Collapse whitespace and strip markers again until no marker is left, then trim.
pub open spec fn settle(s: Seq<char>) -> Seq<char>
    decreases s.len(),
{
    let c = collapse(s);
    let t = strip_all(c);
    if t.len() < c.len() && c.len() <= s.len() {
        settle(t)
    } else {
        trim(c)
    }
}

/// Display text of a task: markers and the timestamp removed, whitespace
/// collapsed to single spaces, trimmed. Tag tokens are not stripped as such,
/// but marker text is removed wherever it stands, also inside or against a
/// tag: `#priority: high` leaves `#`, `#overdue: 2025-01-20` leaves `#over`.
/// A body without markers keeps its tags (`lemma_plain_body_keeps_tags`).
pub open spec fn cleaned(s: Seq<char>) -> Seq<char> {
    settle(first_pass(s))
}

} // verus!

verus! {

pub proof fn lemma_marker_len_bound(m: Marker, s: Seq<char>, i: int)
    requires
        marker_len(m, s, i) is Some,
    ensures
        0 <= i,
        1 <= marker_len(m, s, i)->0,
        i + marker_len(m, s, i)->0 <= s.len(),
{
    match m {
        Marker::DueCall => {},
        Marker::PriorityGlyph => {},
        Marker::PriorityText => {
            lemma_ws_run_bound(s, i + 9);
        },
        _ => {
            let h = head_of(m);
            lemma_ws_run_bound(s, i + h.len());
        },
    }
}

proof fn lemma_strip_from_len(m: Marker, s: Seq<char>, i: int)
    requires
        0 <= i <= s.len(),
    ensures
        strip_from(m, s, i).len() <= s.len() - i,
        strip_from(m, s, i).len() == s.len() - i ==> strip_from(m, s, i) == s.skip(i) && (
        forall|j: int| i <= j < s.len() ==> #[trigger] marker_len(m, s, j) is None),
    decreases s.len() - i,
{
    if i < s.len() {
        match marker_len(m, s, i) {
            Some(k) => {
                lemma_marker_len_bound(m, s, i);
                lemma_strip_from_len(m, s, i + k);
            },
            None => {
                lemma_strip_from_len(m, s, i + 1);
                if strip_from(m, s, i).len() == s.len() - i {
                    assert(seq![s[i]] + s.skip(i + 1) =~= s.skip(i));
                    assert forall|j: int| i <= j < s.len() implies #[trigger] marker_len(
                        m,
                        s,
                        j,
                    ) is None by {
                        if j > i {
                        }
                    }
                }
            },
        }
    } else {
        assert(s.skip(i) =~= seq![]);
    }
}

/// Stripping never lengthens; when it keeps the length, nothing was removed and
/// no match was there.
pub proof fn lemma_strip_len(m: Marker, s: Seq<char>)
    ensures
        strip(m, s).len() <= s.len(),
        strip(m, s).len() == s.len() ==> strip(m, s) == s && no_match_of(m, s),
{
    lemma_strip_from_len(m, s, 0);
    assert(s.skip(0) =~= s);
}

proof fn lemma_strip_all_len(c: Seq<char>)
    ensures
        strip_all(c).len() <= c.len(),
        strip_all(c).len() == c.len() ==> marker_free(c),
{
    let s1 = strip(Marker::DueGlyph, c);
    let s2 = strip(Marker::DueKey, s1);
    let s3 = strip(Marker::DueCall, s2);
    let s4 = strip(Marker::PriorityGlyph, s3);
    let s5 = strip(Marker::PriorityText, s4);
    let s6 = strip(Marker::CreatedGlyph, s5);
    let s7 = strip(Marker::CreatedKey, s6);
    let s8 = strip(Marker::CompletedGlyph, s7);
    lemma_strip_len(Marker::DueGlyph, c);
    lemma_strip_len(Marker::DueKey, s1);
    lemma_strip_len(Marker::DueCall, s2);
    lemma_strip_len(Marker::PriorityGlyph, s3);
    lemma_strip_len(Marker::PriorityText, s4);
    lemma_strip_len(Marker::CreatedGlyph, s5);
    lemma_strip_len(Marker::CreatedKey, s6);
    lemma_strip_len(Marker::CompletedGlyph, s7);
    lemma_strip_len(Marker::CompletedKey, s8);
    if strip_all(c).len() == c.len() {
        assert forall|m: Marker| #[trigger] no_match_of(m, c) by {
            match m {
                Marker::DueGlyph => {},
                Marker::DueKey => {},
                Marker::DueCall => {},
                Marker::PriorityGlyph => {},
                Marker::PriorityText => {},
                Marker::CreatedGlyph => {},
                Marker::CreatedKey => {},
                Marker::CompletedGlyph => {},
                Marker::CompletedKey => {},
            }
        }
    }
}

proof fn lemma_ws_run_sub(s: Seq<char>, a: int, b: int, i: int)
    requires
        0 <= a <= b <= s.len(),
        0 <= i <= b - a,
        i + ws_run(s.subrange(a, b), i) < b - a,
    ensures
        ws_run(s, a + i) == ws_run(s.subrange(a, b), i),
    decreases b - a - i,
{
    let t = s.subrange(a, b);
    if is_ws(t[i]) {
        lemma_ws_run_sub(s, a, b, i + 1);
    }
}

proof fn lemma_word_at_sub(s: Seq<char>, a: int, b: int, i: int, w: Seq<char>, ci: bool)
    requires
        0 <= a <= b <= s.len(),
        word_at(s.subrange(a, b), i, w, ci),
    ensures
        word_at(s, a + i, w, ci),
{
    let t = s.subrange(a, b);
    assert forall|k: int| 0 <= k < w.len() implies (if ci {
        ascii_lower(#[trigger] s[a + i + k]) == w[k]
    } else {
        s[a + i + k] == w[k]
    }) by {
        assert(t[i + k] == s[a + i + k]);
    }
}

proof fn lemma_occurs_sub(s: Seq<char>, a: int, b: int, i: int, p: Seq<char>)
    requires
        0 <= a <= b <= s.len(),
        occurs_at(s.subrange(a, b), p, i),
    ensures
        occurs_at(s, p, a + i),
{
    assert(s.subrange(a, b).subrange(i, i + p.len()) =~= s.subrange(a + i, a + i + p.len()));
}

proof fn lemma_marker_sub(m: Marker, s: Seq<char>, a: int, b: int, i: int)
    requires
        0 <= a <= b <= s.len(),
        marker_len(m, s.subrange(a, b), i) is Some,
    ensures
        marker_len(m, s, a + i) is Some,
{
    let t = s.subrange(a, b);
    lemma_marker_len_bound(m, t, i);
    match m {
        Marker::DueCall => {
            lemma_occurs_sub(s, a, b, i, call_open());
            assert(t[i + 15] == s[a + i + 15]);
            assert(t[i + 5] == s[a + i + 5]);
            assert(t[i + 6] == s[a + i + 6]);
            assert(t[i + 7] == s[a + i + 7]);
            assert(t[i + 8] == s[a + i + 8]);
            assert(t[i + 9] == s[a + i + 9]);
            assert(t[i + 10] == s[a + i + 10]);
            assert(t[i + 11] == s[a + i + 11]);
            assert(t[i + 12] == s[a + i + 12]);
            assert(t[i + 13] == s[a + i + 13]);
            assert(t[i + 14] == s[a + i + 14]);
        },
        Marker::PriorityGlyph => {
            assert(t[i] == s[a + i]);
        },
        Marker::PriorityText => {
            lemma_word_at_sub(s, a, b, i, key_priority(), true);
            lemma_ws_run_bound(t, i + 9);
            let j = i + 9 + ws_run(t, i + 9);
            if word_at(t, j, word_high(), true) {
                lemma_ws_run_sub(s, a, b, i + 9);
                lemma_word_at_sub(s, a, b, j, word_high(), true);
            } else if word_at(t, j, word_medium(), true) {
                lemma_ws_run_sub(s, a, b, i + 9);
                lemma_word_at_sub(s, a, b, j, word_medium(), true);
            } else {
                lemma_ws_run_sub(s, a, b, i + 9);
                lemma_word_at_sub(s, a, b, j, word_low(), true);
            }
        },
        _ => {
            let h = head_of(m);
            let j = i + h.len();
            lemma_occurs_sub(s, a, b, i, h);
            lemma_ws_run_bound(t, j);
            lemma_ws_run_sub(s, a, b, j);
            let d = j + ws_run(t, j);
            assert(t[d] == s[a + d]);
            assert(t[d + 1] == s[a + d + 1]);
            assert(t[d + 2] == s[a + d + 2]);
            assert(t[d + 3] == s[a + d + 3]);
            assert(t[d + 4] == s[a + d + 4]);
            assert(t[d + 5] == s[a + d + 5]);
            assert(t[d + 6] == s[a + d + 6]);
            assert(t[d + 7] == s[a + d + 7]);
            assert(t[d + 8] == s[a + d + 8]);
            assert(t[d + 9] == s[a + d + 9]);
        },
    }
}

/// A piece cut out of marker-free text is marker-free.
pub proof fn lemma_marker_free_sub(s: Seq<char>, a: int, b: int)
    requires
        0 <= a <= b <= s.len(),
        marker_free(s),
    ensures
        marker_free(s.subrange(a, b)),
{
    let t = s.subrange(a, b);
    assert forall|m: Marker| #[trigger] no_match_of(m, t) by {
        assert forall|i: int| 0 <= i < t.len() implies #[trigger] marker_len(m, t, i) is None by {
            if marker_len(m, t, i) is Some {
                lemma_marker_sub(m, s, a, b, i);
                assert(no_match_of(m, s));
            }
        }
    }
}

proof fn lemma_trim_is_sub(s: Seq<char>)
    ensures
        exists|a: int, b: int| 0 <= a <= b <= s.len() && trim(s) == s.subrange(a, b),
{
    lemma_ws_run_bound(s, 0);
    let a = ws_run(s, 0) as int;
    let t = s.skip(a);
    lemma_ws_tail_bound(t);
    let b = a + t.len() - ws_tail(t);
    assert(trim(s) =~= s.subrange(a, b));
}

proof fn lemma_settle(s: Seq<char>)
    ensures
        marker_free(settle(s)),
    decreases s.len(),
{
    let c = collapse(s);
    let t = strip_all(c);
    lemma_collapse_len(s, 0);
    lemma_strip_all_len(c);
    if t.len() < c.len() && c.len() <= s.len() {
        lemma_settle(t);
    } else {
        lemma_trim_is_sub(c);
        let (a, b) = choose|a: int, b: int| 0 <= a <= b <= c.len() && trim(c) == c.subrange(a, b);
        lemma_marker_free_sub(c, a, b);
    }
}

/// Display text never holds a date or priority marker.
pub proof fn lemma_cleaned_marker_free(s: Seq<char>)
    ensures
        marker_free(cleaned(s)),
{
    lemma_settle(first_pass(s));
}

} // verus!

verus! {

fn is_digit_char(c: char) -> (r: bool)
    ensures
        r == is_digit(c),
{
    '0' <= c && c <= '9'
}

fn date_at_exec(s: &Vec<char>, i: usize) -> (r: bool)
    ensures
        r == date_at(s@, i as int),
{
    if s.len() < 10 || i > s.len() - 10 {
        return false;
    }
    is_digit_char(s[i]) && is_digit_char(s[i + 1]) && is_digit_char(s[i + 2]) && is_digit_char(
        s[i + 3],
    ) && s[i + 4] == '-' && is_digit_char(s[i + 5]) && is_digit_char(s[i + 6]) && s[i + 7] == '-'
        && is_digit_char(s[i + 8]) && is_digit_char(s[i + 9])
}

fn lower_ascii(c: char) -> (r: char)
    ensures
        r == ascii_lower(c),
{
    if 'A' <= c && c <= 'Z' {
        ((c as u8) + 32) as char
    } else {
        c
    }
}

fn word_at_exec(s: &Vec<char>, i: usize, w: &Vec<char>, ci: bool) -> (r: bool)
    ensures
        r == word_at(s@, i as int, w@, ci),
{
    if w.len() > s.len() || i > s.len() - w.len() {
        return false;
    }
    let n = s.len();
    let mut k: usize = 0;
    while k < w.len()
        invariant
            n == s@.len(),
            i + w@.len() <= s@.len(),
            k <= w@.len(),
            forall|q: int|
                0 <= q < k ==> (if ci {
                    ascii_lower(#[trigger] s@[i + q]) == w@[q]
                } else {
                    s@[i + q] == w@[q]
                }),
        decreases w@.len() - k,
    {
        let c = if ci {
            lower_ascii(s[i + k])
        } else {
            s[i + k]
        };
        if c != w[k] {
            return false;
        }
        k = k + 1;
    }
    true
}

fn head_chars(m: Marker) -> (r: Vec<char>)
    ensures
        r@ == head_of(m),
{
    let r = match m {
        Marker::DueGlyph => vec!['\u{1F4C5}'],
        Marker::DueKey => vec!['d', 'u', 'e', ':'],
        Marker::CreatedGlyph => vec!['\u{2795}'],
        Marker::CreatedKey => vec!['c', 'r', 'e', 'a', 't', 'e', 'd', ':'],
        Marker::CompletedGlyph => vec!['\u{2705}'],
        Marker::CompletedKey => vec!['c', 'o', 'm', 'p', 'l', 'e', 't', 'e', 'd', ':'],
        _ => Vec::new(),
    };
    assert(r@ =~= head_of(m));
    r
}

pub(crate) fn is_priority_glyph_char(c: char) -> (r: bool)
    ensures
        r == is_priority_glyph(c),
{
    c == '\u{23EB}' || c == '\u{1F53C}' || c == '\u{1F53D}' || c == '\u{23EC}'
}

/// Length of `priority:` + whitespace + `high|medium|low` at `i`, with the word
/// it names (0 high, 1 medium, 2 low).
pub(crate) fn priority_text_at(s: &Vec<char>, i: usize, ci: bool) -> (r: Option<(usize, u8)>)
    requires
        i <= s@.len(),
    ensures
        r is Some <==> priority_text_len(s@, i as int, ci) is Some,
        r is Some ==> ({
            let j = i + 9 + ws_run(s@, i + 9);
            &&& (r->0).0 == priority_text_len(s@, i as int, ci)->0
            &&& (r->0).1 <= 2
            &&& ((r->0).1 == 0 <==> word_at(s@, j, word_high(), ci))
            &&& ((r->0).1 == 1 <==> !word_at(s@, j, word_high(), ci) && word_at(
                s@,
                j,
                word_medium(),
                ci,
            ))
        }),
{
    let n = s.len();
    let kp = vec!['p', 'r', 'i', 'o', 'r', 'i', 't', 'y', ':'];
    assert(kp@ =~= key_priority());
    if !word_at_exec(s, i, &kp, ci) {
        return None;
    }
    let j = skip_ws(s, i + 9);
    let wh = vec!['h', 'i', 'g', 'h'];
    let wm = vec!['m', 'e', 'd', 'i', 'u', 'm'];
    let wl = vec!['l', 'o', 'w'];
    assert(wh@ =~= word_high());
    assert(wm@ =~= word_medium());
    assert(wl@ =~= word_low());
    if word_at_exec(s, j, &wh, ci) {
        Some((j - i + 4, 0))
    } else if word_at_exec(s, j, &wm, ci) {
        Some((j - i + 6, 1))
    } else if word_at_exec(s, j, &wl, ci) {
        Some((j - i + 3, 2))
    } else {
        None
    }
}

/// Length of the match of `m` at `i`, if one starts there.
pub(crate) fn marker_at(m: Marker, s: &Vec<char>, i: usize) -> (r: Option<usize>)
    requires
        i <= s@.len(),
    ensures
        r is Some <==> marker_len(m, s@, i as int) is Some,
        r is Some ==> r->0 == marker_len(m, s@, i as int)->0,
{
    let n = s.len();
    match m {
        Marker::DueCall => {
            let open = vec!['@', 'd', 'u', 'e', '('];
            assert(open@ =~= call_open());
            if starts_with_at(s, i, &open) && date_at_exec(s, i + 5) && i + 15 < s.len() && s[i
                + 15] == ')' {
                Some(16)
            } else {
                None
            }
        },
        Marker::PriorityGlyph => {
            if i < s.len() && is_priority_glyph_char(s[i]) {
                Some(1)
            } else {
                None
            }
        },
        Marker::PriorityText => match priority_text_at(s, i, true) {
            Some(p) => Some(p.0),
            None => None,
        },
        _ => {
            let h = head_chars(m);
            if !starts_with_at(s, i, &h) {
                return None;
            }
            let j = i + h.len();
            let d = skip_ws(s, j);
            if date_at_exec(s, d) {
                Some(d - i + 10)
            } else {
                None
            }
        },
    }
}

/// Removes every match of `m`, leftmost first.
pub fn strip_marker(m: Marker, s: &Vec<char>) -> (r: Vec<char>)
    ensures
        r@ == strip(m, s@),
{
    let mut r: Vec<char> = Vec::new();
    let mut i: usize = 0;
    while i < s.len()
        invariant
            i <= s@.len(),
            r@ + strip_from(m, s@, i as int) == strip(m, s@),
        decreases s@.len() - i,
    {
        match marker_at(m, s, i) {
            Some(k) => {
                proof {
                    lemma_marker_len_bound(m, s@, i as int);
                }
                i = i + k;
            },
            None => {
                r.push(s[i]);
                proof {
                    assert(r@ + strip_from(m, s@, i + 1) =~= r@.drop_last() + (seq![s@[i as int]]
                        + strip_from(m, s@, i + 1)));
                }
                i = i + 1;
            },
        }
    }
    proof {
        assert(r@ + strip_from(m, s@, i as int) =~= r@);
    }
    r
}

fn strip_timestamp_exec(s: &Vec<char>) -> (r: Vec<char>)
    ensures
        r@ == strip_timestamp(s@),
{
    if s.len() >= 6 && is_digit_char(s[0]) && is_digit_char(s[1]) && s[2] == ':' && is_digit_char(
        s[3],
    ) && is_digit_char(s[4]) && s[5] == ' ' {
        let mut r: Vec<char> = vec![' '];
        let mut k: usize = 6;
        while k < s.len()
            invariant
                6 <= k <= s@.len(),
                r@ == seq![' '] + s@.subrange(6, k as int),
            decreases s@.len() - k,
        {
            r.push(s[k]);
            proof {
                assert(r@ =~= seq![' '] + s@.subrange(6, k + 1));
            }
            k = k + 1;
        }
        proof {
            assert(s@.subrange(6, s@.len() as int) =~= s@.skip(6));
        }
        r
    } else {
        let mut r: Vec<char> = Vec::new();
        let mut k: usize = 0;
        while k < s.len()
            invariant
                k <= s@.len(),
                r@ == s@.take(k as int),
            decreases s@.len() - k,
        {
            r.push(s[k]);
            proof {
                assert(r@ =~= s@.take(k + 1));
            }
            k = k + 1;
        }
        proof {
            assert(s@.take(s@.len() as int) =~= s@);
        }
        r
    }
}

fn strip_priority_created_completed(s: Vec<char>) -> (r: Vec<char>)
    ensures
        r@ == strip(
            Marker::CompletedKey,
            strip(
                Marker::CompletedGlyph,
                strip(
                    Marker::CreatedKey,
                    strip(
                        Marker::CreatedGlyph,
                        strip(Marker::PriorityText, strip(Marker::PriorityGlyph, s@)),
                    ),
                ),
            ),
        ),
{
    let s = strip_marker(Marker::PriorityGlyph, &s);
    let s = strip_marker(Marker::PriorityText, &s);
    let s = strip_marker(Marker::CreatedGlyph, &s);
    let s = strip_marker(Marker::CreatedKey, &s);
    let s = strip_marker(Marker::CompletedGlyph, &s);
    strip_marker(Marker::CompletedKey, &s)
}

fn strip_due(s: &Vec<char>) -> (r: Vec<char>)
    ensures
        r@ == strip(Marker::DueCall, strip(Marker::DueKey, strip(Marker::DueGlyph, s@))),
{
    let s = strip_marker(Marker::DueGlyph, s);
    let s = strip_marker(Marker::DueKey, &s);
    strip_marker(Marker::DueCall, &s)
}

/// The display text of a task line's body: see [`cleaned`]. It holds no marker.
pub fn clean_content(s: &Vec<char>) -> (r: Vec<char>)
    ensures
        r@ == cleaned(s@),
        marker_free(r@),
{
    let d = strip_due(s);
    let t = strip_timestamp_exec(&d);
    let mut cur = strip_priority_created_completed(t);
    proof {
        lemma_cleaned_marker_free(s@);
    }
    loop
        invariant
            settle(cur@) == cleaned(s@),
            marker_free(cleaned(s@)),
        decreases cur@.len(),
    {
        let c = collapse_chars(&cur);
        let d2 = strip_due(&c);
        let t2 = strip_priority_created_completed(d2);
        proof {
            lemma_collapse_len(cur@, 0);
            lemma_strip_all_len(c@);
        }
        if t2.len() < c.len() {
            cur = t2;
        } else {
            return trim_chars(&c);
        }
    }
}

} // verus!

verus! {

/// Every blank of `s` is a single space between non-blank characters or at an end.
pub open spec fn single_spaced(s: Seq<char>) -> bool {
    forall|i: int|
        0 <= i < s.len() && is_ws(#[trigger] s[i]) ==> s[i] == ' ' && (i + 1 < s.len() ==> !is_ws(
            s[i + 1],
        ))
}

proof fn lemma_strip_from_identity(m: Marker, s: Seq<char>, i: int)
    requires
        0 <= i <= s.len(),
        no_match_of(m, s),
    ensures
        strip_from(m, s, i) == s.skip(i),
    decreases s.len() - i,
{
    if i < s.len() {
        assert(marker_len(m, s, i) is None);
        lemma_strip_from_identity(m, s, i + 1);
        assert(seq![s[i]] + s.skip(i + 1) =~= s.skip(i));
    } else {
        assert(s.skip(i) =~= seq![]);
    }
}

proof fn lemma_strip_identity(m: Marker, s: Seq<char>)
    requires
        no_match_of(m, s),
    ensures
        strip(m, s) == s,
{
    lemma_strip_from_identity(m, s, 0);
    assert(s.skip(0) =~= s);
}

proof fn lemma_collapse_identity(s: Seq<char>, i: int)
    requires
        0 <= i <= s.len(),
        single_spaced(s),
    ensures
        collapse_from(s, i) == s.skip(i),
    decreases s.len() - i,
{
    if i < s.len() {
        if is_ws(s[i]) {
            assert(ws_run(s, i + 1) == 0);
        }
        lemma_collapse_identity(s, i + 1);
        assert(seq![s[i]] + s.skip(i + 1) =~= s.skip(i));
    } else {
        assert(s.skip(i) =~= seq![]);
    }
}

/// A body with no marker, no leading `HH:MM ` stamp, single spaces and no blank
/// at either end is its own display text.
pub proof fn lemma_plain_body_unchanged(s: Seq<char>)
    requires
        marker_free(s),
        strip_timestamp(s) == s,
        single_spaced(s),
        s.len() > 0 ==> !is_ws(s[0]) && !is_ws(s.last()),
    ensures
        cleaned(s) == s,
{
    assert forall|m: Marker| strip(m, s) == s by {
        assert(no_match_of(m, s));
        lemma_strip_identity(m, s);
    }
    assert(first_pass(s) == s);
    lemma_collapse_identity(s, 0);
    assert(s.skip(0) =~= s);
    assert(collapse(s) == s);
    assert(strip_all(s) == s);
    assert(ws_run(s, 0) == 0);
    assert(ws_tail(s) == 0);
    assert(trim(s) =~= s);
}

} // verus!
