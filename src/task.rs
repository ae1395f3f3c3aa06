//! Checkbox tasks: the record type, the task-line grammar, inline metadata,
//! sub-items, and extraction from a file's text.
use vstd::prelude::*;
use crate::markers::{
    clean_content, cleaned, marker_at, marker_len, priority_text_at,
    priority_text_len, word_at, word_high, word_low, word_medium, Marker,
};
use crate::text::{
    chars_of, is_word_character, is_whitespace, is_ws, skip_ws, slice_chars,
    string_of, string_views, regex_word, ws_run,
};

verus! {

/// A checkbox task found in a markdown file.
#[derive(Debug, Clone)]
pub struct Task {
    pub content: String,
    pub status: String,
    pub file_path: String,
    pub file_name: String,
    pub line_number: usize,
    pub raw_line: String,
    pub tags: Vec<String>,
    pub sub_items: Vec<String>,
    pub summary: Option<String>,
    pub due_date: Option<String>,
    pub priority: Option<String>,
    pub created_date: Option<String>,
    pub completed_date: Option<String>,
}

pub open spec fn opt_view(o: Option<String>) -> Option<Seq<char>> {
    match o {
        Some(s) => Some(s@),
        None => None,
    }
}

/// A character that continues a `#tag`: the word class `\w`.
pub open spec fn is_word_char(c: char) -> bool {
    regex_word(c)
}

/// Number of consecutive word characters of `s` starting at `i`.
pub open spec fn word_run(s: Seq<char>, i: int) -> nat
    decreases s.len() - i,
{
    if 0 <= i < s.len() && is_word_char(s[i]) {
        1 + word_run(s, i + 1)
    } else {
        0
    }
}

proof fn lemma_word_run_bound(s: Seq<char>, i: int)
    requires
        0 <= i <= s.len(),
    ensures
        i + word_run(s, i) <= s.len(),
    decreases s.len() - i,
{
    if i < s.len() && is_word_char(s[i]) {
        lemma_word_run_bound(s, i + 1);
    }
}

/// The `#word` tokens of `s` from position `i` on, in order, repeats kept.
pub open spec fn tags_from(s: Seq<char>, i: int) -> Seq<Seq<char>>
    decreases s.len() - i,
    via tags_from_decreases
{
    if i < 0 || i >= s.len() {
        seq![]
    } else if s[i] == '#' && i + 1 < s.len() && is_word_char(s[i + 1]) {
        let w = word_run(s, i + 1);
        seq![s.subrange(i + 1, i + 1 + w)] + tags_from(s, i + 1 + w)
    } else {
        tags_from(s, i + 1)
    }
}

#[via_fn]
proof fn tags_from_decreases(s: Seq<char>, i: int) {
    if 0 <= i < s.len() && i + 1 < s.len() {
        lemma_word_run_bound(s, i + 1);
    }
}

pub open spec fn tags_in(s: Seq<char>) -> Seq<Seq<char>> {
    tags_from(s, 0)
}

/// Leftmost position at or after `i` where a match of `m` starts.
pub open spec fn find_from(m: Marker, s: Seq<char>, i: int) -> Option<int>
    decreases s.len() - i,
{
    if i < 0 || i >= s.len() {
        None
    } else if marker_len(m, s, i) is Some {
        Some(i)
    } else {
        find_from(m, s, i + 1)
    }
}

/// The date that the match of `m` at `j` carries.
pub open spec fn date_text(m: Marker, s: Seq<char>, j: int) -> Seq<char> {
    let k = marker_len(m, s, j)->0;
    if m == Marker::DueCall {
        s.subrange(j + 5, j + 15)
    } else {
        s.subrange(j + k - 10, j + k)
    }
}

/// The date of the first form, in order, that matches anywhere in `s`.
pub open spec fn first_date(forms: Seq<Marker>, s: Seq<char>) -> Option<Seq<char>>
    decreases forms.len(),
{
    if forms.len() == 0 {
        None
    } else {
        match find_from(forms[0], s, 0) {
            Some(j) => Some(date_text(forms[0], s, j)),
            None => first_date(forms.drop_first(), s),
        }
    }
}

pub open spec fn due_forms() -> Seq<Marker> {
    seq![Marker::DueGlyph, Marker::DueKey, Marker::DueCall]
}

pub open spec fn created_forms() -> Seq<Marker> {
    seq![Marker::CreatedGlyph, Marker::CreatedKey]
}

pub open spec fn completed_forms() -> Seq<Marker> {
    seq![Marker::CompletedGlyph, Marker::CompletedKey]
}

pub open spec fn has_char(s: Seq<char>, c: char) -> bool {
    exists|i: int| 0 <= i < s.len() && s[i] == c
}

/// Leftmost position at or after `i` of the lower-case text form `priority: word`.
pub open spec fn find_priority_text(s: Seq<char>, i: int) -> Option<int>
    decreases s.len() - i,
{
    if i < 0 || i >= s.len() {
        None
    } else if priority_text_len(s, i, false) is Some {
        Some(i)
    } else {
        find_priority_text(s, i + 1)
    }
}

/// The word of the text form at `j`.
pub open spec fn priority_word(s: Seq<char>, j: int) -> Seq<char> {
    let p = j + 9 + ws_run(s, j + 9);
    if word_at(s, p, word_high(), false) {
        word_high()
    } else if word_at(s, p, word_medium(), false) {
        word_medium()
    } else {
        word_low()
    }
}

pub open spec fn level_urgent() -> Seq<char> {
    seq!['u', 'r', 'g', 'e', 'n', 't']
}

pub open spec fn level_lowest() -> Seq<char> {
    seq!['l', 'o', 'w', 'e', 's', 't']
}

/// Priority of a task body: the glyphs are checked in the fixed order
/// urgent, high, low, lowest, wherever they stand; the text form comes last.
pub open spec fn priority_in(s: Seq<char>) -> Option<Seq<char>> {
    if has_char(s, '\u{23EB}') {
        Some(level_urgent())
    } else if has_char(s, '\u{1F53C}') {
        Some(word_high())
    } else if has_char(s, '\u{1F53D}') {
        Some(word_low())
    } else if has_char(s, '\u{23EC}') {
        Some(level_lowest())
    } else {
        match find_priority_text(s, 0) {
            Some(j) => Some(priority_word(s, j)),
            None => None,
        }
    }
}

} // verus!

verus! {

fn is_word(c: char) -> (r: bool)
    ensures
        r == is_word_char(c),
{
    is_word_character(c)
}

/// Every `#word` token of `s`, in order, duplicates kept.
pub fn extract_tags(s: &Vec<char>) -> (r: Vec<String>)
    ensures
        string_views(r@) == tags_in(s@),
{
    let mut r: Vec<String> = Vec::new();
    let mut i: usize = 0;
    while i < s.len()
        invariant
            i <= s@.len(),
            string_views(r@) + tags_from(s@, i as int) == tags_in(s@),
        decreases s@.len() - i,
    {
        if s[i] == '#' && i + 1 < s.len() && is_word(s[i + 1]) {
            let mut j = i + 1;
            while j < s.len() && is_word(s[j])
                invariant
                    i + 1 <= j <= s@.len(),
                    word_run(s@, i + 1) == (j - (i + 1)) + word_run(s@, j as int),
                decreases s@.len() - j,
            {
                j = j + 1;
            }
            let tag = string_of(&slice_chars(s, i + 1, j));
            let ghost before = string_views(r@);
            r.push(tag);
            proof {
                assert(string_views(r@) =~= before.push(s@.subrange(i + 1, j as int)));
            }
            i = j;
        } else {
            i = i + 1;
        }
    }
    proof {
        assert(string_views(r@) + tags_from(s@, i as int) =~= string_views(r@));
    }
    r
}

proof fn lemma_find_from(m: Marker, s: Seq<char>, i: int)
    requires
        find_from(m, s, i) is Some,
    ensures
        i <= find_from(m, s, i)->0 < s.len(),
        marker_len(m, s, find_from(m, s, i)->0) is Some,
    decreases s.len() - i,
{
    if 0 <= i < s.len() && marker_len(m, s, i) is None {
        lemma_find_from(m, s, i + 1);
    }
}

fn find_marker(m: Marker, s: &Vec<char>) -> (r: Option<usize>)
    ensures
        r is Some <==> find_from(m, s@, 0) is Some,
        r is Some ==> r->0 == find_from(m, s@, 0)->0 && r->0 < s@.len() && marker_len(
            m,
            s@,
            r->0 as int,
        ) is Some,
{
    proof {
        if find_from(m, s@, 0) is Some {
            lemma_find_from(m, s@, 0);
        }
    }
    let mut i: usize = 0;
    while i < s.len()
        invariant
            i <= s@.len(),
            find_from(m, s@, 0) == find_from(m, s@, i as int),
        decreases s@.len() - i,
    {
        if marker_at(m, s, i).is_some() {
            return Some(i);
        }
        i = i + 1;
    }
    None
}

/// The date of the first form of `forms` that matches anywhere in `s`.
fn first_date_exec(forms: &Vec<Marker>, s: &Vec<char>) -> (r: Option<String>)
    requires
        forall|q: int|
            0 <= q < forms@.len() ==> crate::markers::is_head_form(#[trigger] forms@[q])
                || forms@[q] == Marker::DueCall,
    ensures
        opt_view(r) == first_date(forms@, s@),
{
    let mut k: usize = 0;
    proof {
        assert(forms@.skip(0) =~= forms@);
    }
    while k < forms.len()
        invariant
            k <= forms@.len(),
            first_date(forms@, s@) == first_date(forms@.skip(k as int), s@),
            forall|q: int|
                0 <= q < forms@.len() ==> crate::markers::is_head_form(#[trigger] forms@[q])
                    || forms@[q] == Marker::DueCall,
        decreases forms@.len() - k,
    {
        let m = forms[k];
        match find_marker(m, s) {
            Some(j) => {
                let len = marker_at(m, s, j).unwrap();
                proof {
                    crate::markers::lemma_marker_len_bound(m, s@, j as int);
                }
                let n = s.len();
                proof {
                    if m == Marker::DueCall {
                        assert(j + 15 < s@.len());
                    } else {
                        assert(crate::markers::is_head_form(forms@[k as int]));
                        assert(len >= 10);
                    }
                }
                let d = if m == Marker::DueCall {
                    slice_chars(s, j + 5, j + 15)
                } else {
                    slice_chars(s, j + len - 10, j + len)
                };
                return Some(string_of(&d));
            },
            None => {
                proof {
                    assert(forms@.skip(k as int).drop_first() =~= forms@.skip(k + 1));
                }
                k = k + 1;
            },
        }
    }
    None
}

pub fn extract_due_date(s: &Vec<char>) -> (r: Option<String>)
    ensures
        opt_view(r) == first_date(due_forms(), s@),
{
    let forms = vec![Marker::DueGlyph, Marker::DueKey, Marker::DueCall];
    assert(forms@ =~= due_forms());
    first_date_exec(&forms, s)
}

pub fn extract_created_date(s: &Vec<char>) -> (r: Option<String>)
    ensures
        opt_view(r) == first_date(created_forms(), s@),
{
    let forms = vec![Marker::CreatedGlyph, Marker::CreatedKey];
    assert(forms@ =~= created_forms());
    first_date_exec(&forms, s)
}

pub fn extract_completed_date(s: &Vec<char>) -> (r: Option<String>)
    ensures
        opt_view(r) == first_date(completed_forms(), s@),
{
    let forms = vec![Marker::CompletedGlyph, Marker::CompletedKey];
    assert(forms@ =~= completed_forms());
    first_date_exec(&forms, s)
}

fn has_char_exec(s: &Vec<char>, c: char) -> (r: bool)
    ensures
        r == has_char(s@, c),
{
    let mut i: usize = 0;
    while i < s.len()
        invariant
            i <= s@.len(),
            forall|j: int| 0 <= j < i ==> s@[j] != c,
        decreases s@.len() - i,
    {
        if s[i] == c {
            return true;
        }
        i = i + 1;
    }
    false
}

pub fn extract_priority(s: &Vec<char>) -> (r: Option<String>)
    ensures
        opt_view(r) == priority_in(s@),
{
    if has_char_exec(s, '\u{23EB}') {
        let v = vec!['u', 'r', 'g', 'e', 'n', 't'];
        assert(v@ =~= level_urgent());
        return Some(string_of(&v));
    }
    if has_char_exec(s, '\u{1F53C}') {
        let v = vec!['h', 'i', 'g', 'h'];
        assert(v@ =~= word_high());
        return Some(string_of(&v));
    }
    if has_char_exec(s, '\u{1F53D}') {
        let v = vec!['l', 'o', 'w'];
        assert(v@ =~= word_low());
        return Some(string_of(&v));
    }
    if has_char_exec(s, '\u{23EC}') {
        let v = vec!['l', 'o', 'w', 'e', 's', 't'];
        assert(v@ =~= level_lowest());
        return Some(string_of(&v));
    }
    let mut i: usize = 0;
    while i < s.len()
        invariant
            i <= s@.len(),
            find_priority_text(s@, 0) == find_priority_text(s@, i as int),
            !has_char(s@, '\u{23EB}'),
            !has_char(s@, '\u{1F53C}'),
            !has_char(s@, '\u{1F53D}'),
            !has_char(s@, '\u{23EC}'),
        decreases s@.len() - i,
    {
        match priority_text_at(s, i, false) {
            Some(p) => {
                let v = if p.1 == 0 {
                    vec!['h', 'i', 'g', 'h']
                } else if p.1 == 1 {
                    vec!['m', 'e', 'd', 'i', 'u', 'm']
                } else {
                    vec!['l', 'o', 'w']
                };
                proof {
                    assert(v@ =~= priority_word(s@, i as int));
                }
                return Some(string_of(&v));
            },
            None => {
                i = i + 1;
            },
        }
    }
    None
}

} // verus!

verus! {

/// The checkbox grammar: indentation, `-`, optional whitespace, `[c]`, then a
/// non-empty rest. Yields the bracket character and the task body: the rest
/// without its leading whitespace, or its last character when it is all blank.
pub open spec fn task_line(line: Seq<char>) -> Option<(char, Seq<char>)> {
    let a = ws_run(line, 0) as int;
    let b = a + 1 + ws_run(line, a + 1);
    if a < line.len() && line[a] == '-' && b + 2 < line.len() && line[b] == '[' && line[b + 2]
        == ']' && b + 3 < line.len() {
        let rest = line.skip(b + 3);
        if ws_run(rest, 0) < rest.len() {
            Some((line[b + 1], rest.skip(ws_run(rest, 0) as int)))
        } else {
            Some((line[b + 1], seq![rest.last()]))
        }
    } else {
        None
    }
}

pub open spec fn status_incomplete() -> Seq<char> {
    seq!['i', 'n', 'c', 'o', 'm', 'p', 'l', 'e', 't', 'e']
}

pub open spec fn status_completed() -> Seq<char> {
    seq!['c', 'o', 'm', 'p', 'l', 'e', 't', 'e', 'd']
}

pub open spec fn status_cancelled() -> Seq<char> {
    seq!['c', 'a', 'n', 'c', 'e', 'l', 'l', 'e', 'd']
}

/// Status named by the bracket character: blank, `x`/`X`, `-`, or `other:<c>`.
pub open spec fn status_of(c: char) -> Seq<char> {
    if is_ws(c) {
        status_incomplete()
    } else if c == 'x' || c == 'X' {
        status_completed()
    } else if c == '-' {
        status_cancelled()
    } else {
        seq!['o', 't', 'h', 'e', 'r', ':', c]
    }
}

/// A line without its trailing `'\r'` and `'\n'` characters.
pub open spec fn raw_of(l: Seq<char>) -> Seq<char>
    decreases l.len(),
{
    if l.len() > 0 && (l.last() == '\r' || l.last() == '\n') {
        raw_of(l.drop_last())
    } else {
        l
    }
}

/// Bytes that `c` takes in UTF-8.
pub open spec fn utf8_len(c: char) -> nat {
    let u = c as u32;
    if u < 0x80 {
        1
    } else if u < 0x800 {
        2
    } else if u < 0x10000 {
        3
    } else {
        4
    }
}

pub open spec fn bytes_of(s: Seq<char>) -> nat
    decreases s.len(),
{
    if s.len() == 0 {
        0
    } else {
        bytes_of(s.drop_last()) + utf8_len(s.last())
    }
}

/// Byte length of the leading whitespace of `s`.
pub open spec fn indent(s: Seq<char>) -> nat {
    bytes_of(s.take(ws_run(s, 0) as int))
}

/// `line` is a sub-item of the task line `parent`: not blank, indented deeper,
/// and a `-` or `*` list item.
pub open spec fn is_sub_line(line: Seq<char>, parent: Seq<char>) -> bool {
    let a = ws_run(line, 0) as int;
    a < line.len() && indent(line) > indent(parent) && (line[a] == '-' || line[a] == '*')
}

/// The text of a sub-item line, its list marker (and checkbox) removed.
pub open spec fn sub_text(line: Seq<char>) -> Seq<char> {
    let t = crate::text::trim(line);
    if t.len() >= 6 && t[0] == '-' && t[1] == ' ' && t[2] == '[' && t[4] == ']' {
        crate::text::trim(t.skip(5))
    } else if t.len() >= 1 {
        crate::text::trim(t.skip(1))
    } else {
        seq![]
    }
}

/// Number of sub-item lines of `parent` from line `i` on.
pub open spec fn sub_count(lines: Seq<Seq<char>>, i: int, parent: Seq<char>) -> nat
    decreases lines.len() - i,
{
    if 0 <= i < lines.len() && is_sub_line(lines[i], parent) {
        1 + sub_count(lines, i + 1, parent)
    } else {
        0
    }
}

proof fn lemma_sub_count_bound(lines: Seq<Seq<char>>, i: int, parent: Seq<char>)
    requires
        0 <= i <= lines.len(),
    ensures
        i + sub_count(lines, i, parent) <= lines.len(),
        forall|k: int|
            i <= k < i + sub_count(lines, i, parent) ==> is_sub_line(#[trigger] lines[k], parent),
        i + sub_count(lines, i, parent) < lines.len() ==> !is_sub_line(
            lines[i + sub_count(lines, i, parent)],
            parent,
        ),
    decreases lines.len() - i,
{
    if i < lines.len() && is_sub_line(lines[i], parent) {
        lemma_sub_count_bound(lines, i + 1, parent);
    }
}

/// Indices of the task lines from line `i` on; sub-item lines are consumed by
/// the task above them and never read as tasks.
pub open spec fn task_starts(lines: Seq<Seq<char>>, i: int) -> Seq<int>
    decreases lines.len() - i,
    via task_starts_decreases
{
    if i < 0 || i >= lines.len() {
        seq![]
    } else if task_line(raw_of(lines[i])) is Some {
        seq![i] + task_starts(lines, i + 1 + sub_count(lines, i + 1, raw_of(lines[i])))
    } else {
        task_starts(lines, i + 1)
    }
}

#[via_fn]
proof fn task_starts_decreases(lines: Seq<Seq<char>>, i: int) {
    if 0 <= i < lines.len() {
        lemma_sub_count_bound(lines, i + 1, raw_of(lines[i]));
    }
}

/// The fields that come from a task's body text.
pub open spec fn body_fields(t: Task, body: Seq<char>) -> bool {
    &&& t.content@ == cleaned(body)
    &&& string_views(t.tags@) == tags_in(body)
    &&& opt_view(t.due_date) == first_date(due_forms(), body)
    &&& opt_view(t.created_date) == first_date(created_forms(), body)
    &&& opt_view(t.completed_date) == first_date(completed_forms(), body)
    &&& opt_view(t.priority) == priority_in(body)
    &&& t.summary is None
}

/// `t` is the task that line `i` of `lines` yields in the file at `path`.
pub open spec fn task_at(t: Task, lines: Seq<Seq<char>>, i: int, path: Seq<char>) -> bool {
    let raw = raw_of(lines[i]);
    let parsed = task_line(raw);
    &&& 0 <= i < lines.len()
    &&& parsed is Some
    &&& t.line_number == i + 1
    &&& t.raw_line@ == raw
    &&& t.file_path@ == path
    &&& t.file_name@ == crate::text::path_file_name(path)
    &&& t.status@ == status_of((parsed->0).0)
    &&& body_fields(t, (parsed->0).1)
    &&& string_views(t.sub_items@) == Seq::new(
        sub_count(lines, i + 1, raw),
        |k: int| sub_text(lines[i + 1 + k]),
    )
}

} // verus!

verus! {

/// The bracket character and body of a checkbox line, if it is one.
pub fn parse_task_line(line: &Vec<char>) -> (r: Option<(char, Vec<char>)>)
    ensures
        r is Some <==> task_line(line@) is Some,
        r is Some ==> (r->0).0 == (task_line(line@)->0).0 && (r->0).1@ == (task_line(
            line@,
        )->0).1,
{
    let n = line.len();
    let a = skip_ws(line, 0);
    if a >= n || line[a] != '-' {
        return None;
    }
    let b = skip_ws(line, a + 1);
    if b >= n || n - b <= 3 || line[b] != '[' || line[b + 2] != ']' {
        return None;
    }
    let c = line[b + 1];
    let rest = slice_chars(line, b + 3, n);
    proof {
        assert(rest@ =~= line@.skip(b + 3));
    }
    let w = skip_ws(&rest, 0);
    if w < rest.len() {
        let body = slice_chars(&rest, w, rest.len());
        proof {
            assert(body@ =~= rest@.skip(w as int));
        }
        Some((c, body))
    } else {
        let body = vec![rest[rest.len() - 1]];
        proof {
            assert(body@ =~= seq![rest@.last()]);
        }
        Some((c, body))
    }
}

pub fn status_text(c: char) -> (r: String)
    ensures
        r@ == status_of(c),
{
    let v = if is_whitespace(c) {
        vec!['i', 'n', 'c', 'o', 'm', 'p', 'l', 'e', 't', 'e']
    } else if c == 'x' || c == 'X' {
        vec!['c', 'o', 'm', 'p', 'l', 'e', 't', 'e', 'd']
    } else if c == '-' {
        vec!['c', 'a', 'n', 'c', 'e', 'l', 'l', 'e', 'd']
    } else {
        vec!['o', 't', 'h', 'e', 'r', ':', c]
    };
    assert(v@ =~= status_of(c));
    string_of(&v)
}

fn raw_line_of(l: &Vec<char>) -> (r: Vec<char>)
    ensures
        r@ == raw_of(l@),
{
    let mut e = l.len();
    proof {
        assert(l@.take(e as int) =~= l@);
    }
    while e > 0 && (l[e - 1] == '\r' || l[e - 1] == '\n')
        invariant
            e <= l@.len(),
            raw_of(l@) == raw_of(l@.take(e as int)),
        decreases e,
    {
        proof {
            assert(l@.take(e as int).drop_last() =~= l@.take(e - 1));
        }
        e = e - 1;
    }
    proof {
        assert(l@.take(l@.len() as int) =~= l@);
    }
    slice_chars(l, 0, e)
}

fn utf8_len_exec(c: char) -> (r: usize)
    ensures
        r == utf8_len(c),
        r <= 4,
{
    let u = c as u32;
    if u < 0x80 {
        1
    } else if u < 0x800 {
        2
    } else if u < 0x10000 {
        3
    } else {
        4
    }
}

proof fn lemma_bytes_of_bound(s: Seq<char>)
    ensures
        bytes_of(s) <= 4 * s.len(),
    decreases s.len(),
{
    if s.len() > 0 {
        lemma_bytes_of_bound(s.drop_last());
    }
}

/// Byte length of the leading whitespace of `s`.
fn indent_of(s: &Vec<char>) -> (r: u128)
    ensures
        r == indent(s@),
{
    let a = skip_ws(s, 0);
    let mut sum: u128 = 0;
    let mut k: usize = 0;
    while k < a
        invariant
            a <= s@.len(),
            k <= a,
            sum == bytes_of(s@.take(k as int)),
            sum <= 4 * k,
        decreases a - k,
    {
        proof {
            assert(s@.take(k + 1).drop_last() =~= s@.take(k as int));
        }
        sum = sum + utf8_len_exec(s[k]) as u128;
        k = k + 1;
    }
    sum
}

pub fn is_sub_item(line: &Vec<char>, parent_line: &Vec<char>) -> (r: bool)
    ensures
        r == is_sub_line(line@, parent_line@),
{
    let a = skip_ws(line, 0);
    if a >= line.len() {
        return false;
    }
    if indent_of(line) <= indent_of(parent_line) {
        return false;
    }
    line[a] == '-' || line[a] == '*'
}

pub fn parse_sub_item(line: &Vec<char>) -> (r: String)
    ensures
        r@ == sub_text(line@),
{
    let t = crate::text::trim_chars(line);
    let rest = if t.len() >= 6 && t[0] == '-' && t[1] == ' ' && t[2] == '[' && t[4] == ']' {
        slice_chars(&t, 5, t.len())
    } else if t.len() >= 1 {
        slice_chars(&t, 1, t.len())
    } else {
        Vec::new()
    };
    proof {
        if t@.len() >= 6 && t@[0] == '-' && t@[1] == ' ' && t@[2] == '[' && t@[4] == ']' {
            assert(rest@ =~= t@.skip(5));
        } else if t@.len() >= 1 {
            assert(rest@ =~= t@.skip(1));
        }
    }
    let r = crate::text::trim_chars(&rest);
    proof {
        if t@.len() == 0 {
            assert(r@ =~= seq![]);
        }
    }
    string_of(&r)
}

/// The task of a checkbox line whose bracket character is `c` and body `body`.
pub fn create_task(
    body: &Vec<char>,
    c: char,
    raw_line: &Vec<char>,
    file_path: &str,
    line_number: usize,
) -> (t: Task)
    ensures
        body_fields(t, body@),
        t.status@ == status_of(c),
        t.raw_line@ == raw_line@,
        t.file_path@ == file_path@,
        t.file_name@ == crate::text::path_file_name(file_path@),
        t.line_number == line_number,
        t.sub_items@.len() == 0,
{
    let content = string_of(&clean_content(body));
    let fp = string_of(&chars_of(file_path));
    Task {
        content,
        status: status_text(c),
        file_path: fp,
        file_name: crate::text::extract_file_name(file_path),
        line_number,
        raw_line: string_of(raw_line),
        tags: extract_tags(body),
        sub_items: Vec::new(),
        summary: None,
        due_date: extract_due_date(body),
        priority: extract_priority(body),
        created_date: extract_created_date(body),
        completed_date: extract_completed_date(body),
    }
}

/// Every task of a file's text, in file order, each with the sub-items that
/// follow it.
pub fn extract_tasks_from_content(content: &str, file_path: &str) -> (r: Vec<Task>)
    ensures
        r@.len() == task_starts(crate::text::lines_of(content@), 0).len(),
        forall|j: int|
            0 <= j < r@.len() ==> task_at(
                #[trigger] r@[j],
                crate::text::lines_of(content@),
                task_starts(crate::text::lines_of(content@), 0)[j],
                file_path@,
            ),
{
    let chars = chars_of(content);
    let lines = crate::text::split_lines(&chars);
    let ghost ls = crate::text::lines_of(content@);
    let ghost starts: Seq<int> = seq![];
    let mut tasks: Vec<Task> = Vec::new();
    let mut i: usize = 0;
    while i < lines.len()
        invariant
            crate::text::views(lines@) == ls,
            i <= lines@.len(),
            starts + task_starts(ls, i as int) == task_starts(ls, 0),
            tasks@.len() == starts.len(),
            forall|j: int| 0 <= j < tasks@.len() ==> task_at(#[trigger] tasks@[j], ls, starts[j], file_path@),
        decreases lines@.len() - i,
    {
        let raw = raw_line_of(&lines[i]);
        proof {
            assert(lines@[i as int]@ == ls[i as int]);
        }
        match parse_task_line(&raw) {
            Some(p) => {
                let mut task = create_task(&p.1, p.0, &raw, file_path, i + 1);
                let mut j = i + 1;
                proof {
                    lemma_sub_count_bound(ls, i + 1, raw@);
                }
                while j < lines.len() && is_sub_item(&lines[j], &raw)
                    invariant
                        crate::text::views(lines@) == ls,
                        i + 1 <= j <= lines@.len(),
                        task.raw_line@ == raw@,
                        task.status@ == status_of(p.0),
                        body_fields(task, p.1@),
                        task.file_path@ == file_path@,
                        task.file_name@ == crate::text::path_file_name(file_path@),
                        task.line_number == i + 1,
                        task_line(raw@) is Some,
                        p.0 == (task_line(raw@)->0).0,
                        p.1@ == (task_line(raw@)->0).1,
                        raw@ == raw_of(ls[i as int]),
                        i < lines@.len(),
                        sub_count(ls, i + 1, raw@) == (j - (i + 1)) + sub_count(ls, j as int, raw@),
                        string_views(task.sub_items@) == Seq::new(
                            (j - (i + 1)) as nat,
                            |k: int| sub_text(ls[i + 1 + k]),
                        ),
                    decreases lines@.len() - j,
                {
                    proof {
                        assert(lines@[j as int]@ == ls[j as int]);
                    }
                    let sub = parse_sub_item(&lines[j]);
                    let ghost before = string_views(task.sub_items@);
                    task.sub_items.push(sub);
                    proof {
                        assert(string_views(task.sub_items@) =~= before.push(sub@));
                        assert(string_views(task.sub_items@) =~= Seq::new(
                            (j + 1 - (i + 1)) as nat,
                            |k: int| sub_text(ls[i + 1 + k]),
                        ));
                    }
                    j = j + 1;
                }
                proof {
                    if j < lines@.len() {
                        assert(lines@[j as int]@ == ls[j as int]);
                    }
                    assert(sub_count(ls, j as int, raw@) == 0);
                    assert(string_views(task.sub_items@) =~= Seq::new(
                        sub_count(ls, i + 1, raw@),
                        |k: int| sub_text(ls[i + 1 + k]),
                    ));
                    assert(task_at(task, ls, i as int, file_path@));
                    starts = starts.push(i as int);
                }
                tasks.push(task);
                proof {
                    assert(task_starts(ls, i as int) == seq![i as int] + task_starts(ls, j as int));
                    assert(starts + task_starts(ls, j as int) =~= task_starts(ls, 0));
                }
                i = j;
            },
            None => {
                i = i + 1;
            },
        }
    }
    proof {
        assert(starts + task_starts(ls, i as int) =~= starts);
    }
    tasks
}

} // verus!

verus! {

/// Checkbox tasks of markdown text.
pub struct TaskExtractor;

impl TaskExtractor {
    pub fn new() -> (r: Self) {
        TaskExtractor
    }

    /// See [`extract_tasks_from_content`].
    pub fn extract_tasks_from_content(&self, content: &str, file_path: &str) -> (r: Vec<Task>)
        ensures
            r@.len() == task_starts(crate::text::lines_of(content@), 0).len(),
            forall|j: int|
                0 <= j < r@.len() ==> task_at(
                    #[trigger] r@[j],
                    crate::text::lines_of(content@),
                    task_starts(crate::text::lines_of(content@), 0)[j],
                    file_path@,
                ),
    {
        extract_tasks_from_content(content, file_path)
    }
}

/// No extracted task's content holds a date or priority marker.
pub proof fn lemma_task_content_marker_free(t: Task, lines: Seq<Seq<char>>, i: int, path: Seq<char>)
    requires
        task_at(t, lines, i, path),
    ensures
        crate::markers::marker_free(t.content@),
{
    crate::markers::lemma_cleaned_marker_free((task_line(raw_of(lines[i]))->0).1);
}

} // verus!

verus! {

/// A task body with no date or priority marker, no leading `HH:MM ` stamp,
/// single spaces and no blank at either end is shown as written, so its
/// content keeps every `#tag` token of the body.
pub proof fn lemma_plain_body_keeps_tags(body: Seq<char>)
    requires
        crate::markers::marker_free(body),
        crate::markers::strip_timestamp(body) == body,
        crate::markers::single_spaced(body),
        body.len() > 0 ==> !is_ws(body[0]) && !is_ws(body.last()),
    ensures
        cleaned(body) == body,
        tags_in(cleaned(body)) == tags_in(body),
{
    crate::markers::lemma_plain_body_unchanged(body);
}

} // verus!
