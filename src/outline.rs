//! Heading outlines: ATX heading recognition outside fenced code, the
//! hierarchy of headings, section text, and heading search.
use vstd::prelude::*;
use crate::text::{
    all_ws, chars_of, is_whitespace, is_ws, lemma_ws_run_bound, lines_of, skip_ws, slice_chars,
    split_lines, starts_with, string_of, trim, trim_chars, views, ws_run, lower_of, lowercase, contains, contains_chars, extract_file_name, path_file_name,
};

verus! {

/// A heading of a markdown file.
#[derive(Debug)]
pub struct Heading {
    pub title: String,
    pub level: u8,
    pub line_number: usize,
    pub children: Vec<Heading>,
}

/// Text under a heading, with the lines it spans.
#[derive(Debug)]
pub struct Section {
    pub heading: Heading,
    pub content: String,
    pub start_line: usize,
    pub end_line: usize,
}

/// A heading found by a search, with the file it is in.
#[derive(Debug)]
pub struct HeadingMatch {
    pub heading: Heading,
    pub file_path: String,
    pub file_name: String,
}

/// Number of `'#'` characters at the start of `s` from `i`.
pub open spec fn hash_run(s: Seq<char>, i: int) -> nat
    decreases s.len() - i,
{
    if 0 <= i < s.len() && s[i] == '#' {
        1 + hash_run(s, i + 1)
    } else {
        0
    }
}

/// Position of the first `'}'` of `s` at or after `i`.
pub open spec fn first_close(s: Seq<char>, i: int) -> Option<int>
    decreases s.len() - i,
{
    if i < 0 || i >= s.len() {
        None
    } else if s[i] == '}' {
        Some(i)
    } else {
        first_close(s, i + 1)
    }
}

/// `u` is blank, or an optional `{#id}` surrounded by whitespace.
pub open spec fn suffix_ok(u: Seq<char>) -> bool {
    let v = u.skip(ws_run(u, 0) as int);
    all_ws(u) || (v.len() >= 3 && v[0] == '{' && v[1] == '#' && first_close(v, 2) is Some
        && all_ws(v.skip(first_close(v, 2)->0 + 1)))
}

/// Shortest title length, at least `k`, after which only a blank or `{#id}`
/// suffix is left.
pub open spec fn title_end(body: Seq<char>, k: int) -> int
    decreases body.len() - k,
{
    if k >= body.len() {
        body.len() as int
    } else if suffix_ok(body.skip(k)) {
        k
    } else {
        title_end(body, k + 1)
    }
}

/// An ATX heading: 1 to 6 `#`, whitespace, then a title, an optional `{#id}`
/// suffix dropped and the title trimmed. Yields the level and the title.
pub open spec fn heading_of(line: Seq<char>) -> Option<(nat, Seq<char>)> {
    let h = hash_run(line, 0) as int;
    let body = line.skip(h + ws_run(line, h));
    if 1 <= h <= 6 && h < line.len() && is_ws(line[h]) && body.len() > 0 {
        Some((h as nat, trim(body.take(title_end(body, 1)))))
    } else {
        None
    }
}

pub open spec fn backtick_fence() -> Seq<char> {
    seq!['`', '`', '`']
}

pub open spec fn tilde_fence() -> Seq<char> {
    seq!['~', '~', '~']
}

pub open spec fn is_fence(l: Seq<char>) -> bool {
    starts_with(trim(l), backtick_fence()) || starts_with(trim(l), tilde_fence())
}

/// Fence state after the first `n` lines: `None` outside code, `Some(true)` inside
/// a backtick fence, `Some(false)` inside a tilde fence. Only a fence of the
/// same kind closes a block.
pub open spec fn fence_after(lines: Seq<Seq<char>>, n: int) -> Option<bool>
    decreases n,
{
    if n <= 0 {
        None
    } else {
        let prev = fence_after(lines, n - 1);
        let t = trim(lines[n - 1]);
        if !is_fence(lines[n - 1]) {
            prev
        } else {
            match prev {
                Some(b) => if (b && starts_with(t, backtick_fence())) || (!b && starts_with(
                    t,
                    tilde_fence(),
                )) {
                    None
                } else {
                    prev
                },
                None => Some(starts_with(t, backtick_fence())),
            }
        }
    }
}

/// Line `i` holds a heading that counts: outside code and not a fence line.
pub open spec fn heading_line(lines: Seq<Seq<char>>, i: int) -> bool {
    fence_after(lines, i) is None && !is_fence(lines[i]) && heading_of(lines[i]) is Some
}

/// Indices of the heading lines among the first `n` lines.
pub open spec fn heading_lines(lines: Seq<Seq<char>>, n: int) -> Seq<int>
    decreases n,
{
    if n <= 0 {
        seq![]
    } else if heading_line(lines, n - 1) {
        heading_lines(lines, n - 1).push(n - 1)
    } else {
        heading_lines(lines, n - 1)
    }
}

pub open spec fn all_headings(lines: Seq<Seq<char>>) -> Seq<int> {
    heading_lines(lines, lines.len() as int)
}

/// `h` is the flat heading of line `i`.
pub open spec fn heading_at(h: Heading, lines: Seq<Seq<char>>, i: int) -> bool {
    &&& 0 <= i < lines.len()
    &&& heading_of(lines[i]) is Some
    &&& h.level as nat == (heading_of(lines[i])->0).0
    &&& h.title@ == (heading_of(lines[i])->0).1
    &&& h.line_number == i + 1
    &&& h.children@.len() == 0
}

} // verus!

verus! {

fn all_ws_from(s: &Vec<char>, i: usize) -> (r: bool)
    requires
        i <= s@.len(),
    ensures
        r == all_ws(s@.skip(i as int)),
{
    let j = skip_ws(s, i);
    proof {
        lemma_ws_run_bound(s@, i as int);
        let t = s@.skip(i as int);
        if j < s@.len() {
            assert(t[j - i] == s@[j as int]);
        } else {
            assert forall|k: int| 0 <= k < t.len() implies is_ws(#[trigger] t[k]) by {
                assert(t[k] == s@[i + k]);
            }
        }
    }
    j == s.len()
}

proof fn lemma_first_close(s: Seq<char>, i: int)
    requires
        first_close(s, i) is Some,
    ensures
        i <= first_close(s, i)->0 < s.len(),
    decreases s.len() - i,
{
    if 0 <= i < s.len() && s[i] != '}' {
        lemma_first_close(s, i + 1);
    }
}

/// Whether `body[k..]` is a blank or `{#id}` suffix.
fn suffix_ok_at(body: &Vec<char>, k: usize) -> (r: bool)
    requires
        k <= body@.len(),
    ensures
        r == suffix_ok(body@.skip(k as int)),
{
    let ghost u = body@.skip(k as int);
    if all_ws_from(body, k) {
        return true;
    }
    let w = skip_ws(body, k);
    proof {
        lemma_ws_run_bound(body@, k as int);
        assert(ws_run(u, 0) == w - k) by {
            lemma_ws_run_shift(body@, k as int, 0);
        }
        assert(u.skip(w - k) =~= body@.skip(w as int));
    }
    let n = body.len();
    if n - w < 3 || body[w] != '{' || body[w + 1] != '#' {
        return false;
    }
    let ghost v = body@.skip(w as int);
    let mut c = w + 2;
    while c < n && body[c] != '}'
        invariant
            w + 2 <= c <= n,
            n == body@.len(),
            v == body@.skip(w as int),
            first_close(v, 2) == first_close(v, c - w),
        decreases n - c,
    {
        c = c + 1;
    }
    if c == n {
        return false;
    }
    proof {
        assert(v.skip(c - w + 1) =~= body@.skip(c + 1));
    }
    all_ws_from(body, c + 1)
}

proof fn lemma_ws_run_shift(s: Seq<char>, k: int, i: int)
    requires
        0 <= k <= s.len(),
        0 <= i <= s.len() - k,
    ensures
        ws_run(s.skip(k), i) == ws_run(s, k + i),
    decreases s.len() - k - i,
{
    if i < s.len() - k {
        assert(s.skip(k)[i] == s[k + i]);
        lemma_ws_run_shift(s, k, i + 1);
    }
}

/// The heading on `line`, numbered `line_number`, if the line is one.
pub fn parse_heading(line: &str, line_number: usize) -> (r: Option<Heading>)
    ensures
        r is Some <==> heading_of(line@) is Some,
        r is Some ==> (r->0).level as nat == (heading_of(line@)->0).0 && (r->0).title@ == (
        heading_of(line@)->0).1 && (r->0).line_number == line_number && (r->0).children@.len()
            == 0,
{
    let chars = chars_of(line);
    parse_heading_chars(&chars, line_number)
}

fn parse_heading_chars(line: &Vec<char>, line_number: usize) -> (r: Option<Heading>)
    ensures
        r is Some <==> heading_of(line@) is Some,
        r is Some ==> (r->0).level as nat == (heading_of(line@)->0).0 && (r->0).title@ == (
        heading_of(line@)->0).1 && (r->0).line_number == line_number && (r->0).children@.len()
            == 0,
{
    let n = line.len();
    let mut h: usize = 0;
    while h < n && line[h] == '#'
        invariant
            h <= n,
            n == line@.len(),
            hash_run(line@, 0) == h + hash_run(line@, h as int),
        decreases n - h,
    {
        h = h + 1;
    }
    if h < 1 || h > 6 || h >= n || !is_whitespace(line[h]) {
        return None;
    }
    let b = skip_ws(line, h);
    if b >= n {
        proof {
            assert(line@.skip(b as int).len() == 0);
        }
        return None;
    }
    let body = slice_chars(line, b, n);
    proof {
        assert(body@ =~= line@.skip(b as int));
    }
    let mut k: usize = 1;
    while k < body.len() && !suffix_ok_at(&body, k)
        invariant
            1 <= k <= body@.len(),
            title_end(body@, 1) == title_end(body@, k as int),
        decreases body@.len() - k,
    {
        k = k + 1;
    }
    let title = trim_chars(&slice_chars(&body, 0, k));
    proof {
        assert(body@.subrange(0, k as int) =~= body@.take(title_end(body@, 1)));
    }
    Some(Heading { title: string_of(&title), level: h as u8, line_number, children: Vec::new() })
}

fn is_fence_line(t: &Vec<char>) -> (r: (bool, bool))
    ensures
        r.0 == starts_with(t@, backtick_fence()),
        r.1 == starts_with(t@, tilde_fence()),
{
    let bt = vec!['`', '`', '`'];
    let tl = vec!['~', '~', '~'];
    assert(bt@ =~= backtick_fence());
    assert(tl@ =~= tilde_fence());
    let a = crate::text::starts_with_at(t, 0, &bt);
    let b = crate::text::starts_with_at(t, 0, &tl);
    proof {
        assert(t@.subrange(0, 3) =~= t@.take(3)) by {
            if t@.len() >= 3 {
            }
        }
    }
    (a, b)
}

/// The headings of a file's text, in order, skipping fenced code blocks.
pub fn extract_headings(content: &str) -> (r: Vec<Heading>)
    ensures
        r@.len() == all_headings(lines_of(content@)).len(),
        forall|j: int|
            0 <= j < r@.len() ==> heading_at(
                #[trigger] r@[j],
                lines_of(content@),
                all_headings(lines_of(content@))[j],
            ),
{
    let chars = chars_of(content);
    let lines = split_lines(&chars);
    let ghost ls = lines_of(content@);
    let mut out: Vec<Heading> = Vec::new();
    let mut state: Option<bool> = None;
    let mut i: usize = 0;
    while i < lines.len()
        invariant
            views(lines@) == ls,
            i <= lines@.len(),
            state == fence_after(ls, i as int),
            out@.len() == heading_lines(ls, i as int).len(),
            forall|j: int|
                0 <= j < out@.len() ==> heading_at(
                    #[trigger] out@[j],
                    ls,
                    heading_lines(ls, i as int)[j],
                ),
        decreases lines@.len() - i,
    {
        proof {
            assert(lines@[i as int]@ == ls[i as int]);
        }
        let t = trim_chars(&lines[i]);
        let (bt, tl) = is_fence_line(&t);
        if bt || tl {
            state = match state {
                Some(b) => if (b && bt) || (!b && tl) {
                    None
                } else {
                    Some(b)
                },
                None => Some(bt),
            };
        } else if state.is_none() {
            match parse_heading_chars(&lines[i], i + 1) {
                Some(h) => {
                    out.push(h);
                },
                None => {},
            }
        }
        i = i + 1;
    }
    out
}

} // verus!

verus! {

/// First index at or after `i` whose level is at most `lvl`, or `hs.len()`.
pub open spec fn next_at_or_above(hs: Seq<Heading>, i: int, lvl: u8) -> int
    decreases hs.len() - i,
{
    if i < 0 || i >= hs.len() {
        hs.len() as int
    } else if hs[i].level <= lvl {
        i
    } else {
        next_at_or_above(hs, i + 1, lvl)
    }
}

proof fn lemma_next_bound(hs: Seq<Heading>, i: int, lvl: u8)
    requires
        0 <= i <= hs.len(),
    ensures
        i <= next_at_or_above(hs, i, lvl) <= hs.len(),
        forall|k: int| i <= k < next_at_or_above(hs, i, lvl) ==> #[trigger] hs[k].level > lvl,
    decreases hs.len() - i,
{
    if i < hs.len() && hs[i].level > lvl {
        lemma_next_bound(hs, i + 1, lvl);
    }
}

/// End of the subtree of heading `lo` within `[lo, hi)`: the next heading
/// whose level is not deeper, or `hi`.
pub open spec fn subtree_end(hs: Seq<Heading>, lo: int, hi: int) -> int {
    let e = next_at_or_above(hs, lo + 1, hs[lo].level);
    if e < hi {
        e
    } else {
        hi
    }
}

/// `f` is the forest built from headings `hs[lo..hi]`: each heading is a child
/// of the nearest earlier heading of smaller level within the range, and the
/// headings without one are the roots, in order.
pub open spec fn forest_ok(f: Seq<Heading>, hs: Seq<Heading>, lo: int, hi: int) -> bool
    decreases hi - lo,
    via forest_ok_decreases
{
    if lo < 0 || hi > hs.len() || lo >= hi {
        f.len() == 0
    } else {
        let e = subtree_end(hs, lo, hi);
        &&& f.len() > 0
        &&& f[0].title@ == hs[lo].title@
        &&& f[0].level == hs[lo].level
        &&& f[0].line_number == hs[lo].line_number
        &&& forest_ok(f[0].children@, hs, lo + 1, e)
        &&& forest_ok(f.skip(1), hs, e, hi)
    }
}

#[via_fn]
proof fn forest_ok_decreases(f: Seq<Heading>, hs: Seq<Heading>, lo: int, hi: int) {
    if 0 <= lo < hi <= hs.len() {
        lemma_next_bound(hs, lo + 1, hs[lo].level);
    }
}

fn subtree_end_exec(hs: &Vec<Heading>, lo: usize, hi: usize) -> (e: usize)
    requires
        lo < hi <= hs@.len(),
    ensures
        e == subtree_end(hs@, lo as int, hi as int),
        lo < e <= hi,
{
    let lvl = hs[lo].level;
    let mut e = lo + 1;
    proof {
        lemma_next_bound(hs@, lo + 1, lvl);
    }
    while e < hi && hs[e].level > lvl
        invariant
            lo < e <= hi <= hs@.len(),
            lvl == hs@[lo as int].level,
            next_at_or_above(hs@, lo + 1, lvl) == next_at_or_above(hs@, e as int, lvl),
        decreases hi - e,
    {
        e = e + 1;
    }
    proof {
        lemma_next_bound(hs@, e as int, lvl);
    }
    e
}

fn copy_string(s: &String) -> (r: String)
    ensures
        r@ == s@,
{
    s.clone()
}

fn build_forest(hs: &Vec<Heading>, lo: usize, hi: usize) -> (r: Vec<Heading>)
    requires
        lo <= hi <= hs@.len(),
    ensures
        forest_ok(r@, hs@, lo as int, hi as int),
    decreases hi - lo,
{
    let mut out: Vec<Heading> = Vec::new();
    let mut i = lo;
    while i < hi
        invariant
            lo <= i <= hi <= hs@.len(),
            forall|g: Seq<Heading>|
                #[trigger] forest_ok(g, hs@, i as int, hi as int) ==> forest_ok(
                    out@ + g,
                    hs@,
                    lo as int,
                    hi as int,
                ),
        decreases hi - i,
    {
        let e = subtree_end_exec(hs, i, hi);
        let children = build_forest(hs, i + 1, e);
        let node = Heading {
            title: copy_string(&hs[i].title),
            level: hs[i].level,
            line_number: hs[i].line_number,
            children,
        };
        proof {
            assert forall|g: Seq<Heading>|
                #[trigger] forest_ok(g, hs@, e as int, hi as int) implies forest_ok(
                out@.push(node) + g,
                hs@,
                lo as int,
                hi as int,
            ) by {
                let g2 = seq![node] + g;
                assert(g2.skip(1) =~= g);
                assert(g2[0] == node);
                assert(forest_ok(g2, hs@, i as int, hi as int));
                assert(out@ + g2 =~= out@.push(node) + g);
            }
        }
        out.push(node);
        i = e;
    }
    proof {
        let empty: Seq<Heading> = seq![];
        assert(forest_ok(empty, hs@, i as int, hi as int));
        assert(out@ + empty =~= out@);
    }
    out
}

/// The headings arranged as a tree: each becomes a child of the nearest
/// preceding heading of strictly smaller level.
pub fn build_hierarchy(headings: &Vec<Heading>) -> (r: Vec<Heading>)
    ensures
        forest_ok(r@, headings@, 0, headings@.len() as int),
{
    build_forest(headings, 0, headings.len())
}

} // verus!

verus! {

/// Level of the `k`-th heading of `lines`, whose line indices are `hl`.
pub open spec fn hlevel(lines: Seq<Seq<char>>, hl: Seq<int>, k: int) -> nat {
    (heading_of(lines[hl[k]])->0).0
}

pub open spec fn htitle(lines: Seq<Seq<char>>, hl: Seq<int>, k: int) -> Seq<char> {
    (heading_of(lines[hl[k]])->0).1
}

/// First heading index after `k` whose level is not deeper than heading `k`'s.
pub open spec fn next_peer(lines: Seq<Seq<char>>, hl: Seq<int>, k: int, j: int) -> int
    decreases hl.len() - j,
{
    if j < 0 || j >= hl.len() {
        hl.len() as int
    } else if hlevel(lines, hl, j) <= hlevel(lines, hl, k) {
        j
    } else {
        next_peer(lines, hl, k, j + 1)
    }
}

/// Line index where the section of heading `k` stops (exclusive): the next
/// heading of any level, or with `include_sub` the next one not deeper; else
/// the end of the file.
pub open spec fn section_stop(lines: Seq<Seq<char>>, hl: Seq<int>, k: int, include_sub: bool) -> int {
    let e = if include_sub {
        next_peer(lines, hl, k, k + 1)
    } else {
        k + 1
    };
    if e < hl.len() {
        hl[e]
    } else {
        lines.len() as int
    }
}

/// Lines joined with `'\n'`.
pub open spec fn join_nl(ls: Seq<Seq<char>>) -> Seq<char>
    decreases ls.len(),
{
    if ls.len() == 0 {
        seq![]
    } else if ls.len() == 1 {
        ls[0]
    } else {
        join_nl(ls.drop_last()) + seq!['\n'] + ls.last()
    }
}

/// Trimmed text of lines `[a, b)`.
pub open spec fn section_text(lines: Seq<Seq<char>>, a: int, b: int) -> Seq<char> {
    if 0 <= a < lines.len() && a <= b <= lines.len() {
        trim(join_nl(lines.subrange(a, b)))
    } else {
        seq![]
    }
}

/// `s` is the section of the `k`-th heading of `lines`.
pub open spec fn section_ok(
    s: Section,
    lines: Seq<Seq<char>>,
    hl: Seq<int>,
    k: int,
    include_sub: bool,
) -> bool {
    let stop = section_stop(lines, hl, k, include_sub);
    &&& s.heading.title@ == htitle(lines, hl, k)
    &&& s.heading.level as nat == hlevel(lines, hl, k)
    &&& s.heading.line_number == hl[k] + 1
    &&& s.heading.children@.len() == 0
    &&& s.start_line == hl[k] + 1
    &&& s.end_line == stop
    &&& s.content@ == section_text(lines, hl[k] + 1, stop)
}

/// Heading indices below `n` whose folded title equals `folded`.
pub open spec fn title_matches(lines: Seq<Seq<char>>, hl: Seq<int>, folded: Seq<char>, n: int) -> Seq<
    int,
>
    decreases n,
{
    if n <= 0 {
        seq![]
    } else if lower_of(htitle(lines, hl, n - 1)) == folded {
        title_matches(lines, hl, folded, n - 1).push(n - 1)
    } else {
        title_matches(lines, hl, folded, n - 1)
    }
}

proof fn lemma_heading_lines_bound(lines: Seq<Seq<char>>, n: int)
    requires
        0 <= n <= lines.len(),
    ensures
        forall|j: int|
            0 <= j < heading_lines(lines, n).len() ==> 0 <= #[trigger] heading_lines(lines, n)[j]
                < n && heading_line(lines, heading_lines(lines, n)[j]),
        forall|a: int, b: int|
            0 <= a < b < heading_lines(lines, n).len() ==> #[trigger] heading_lines(lines, n)[a]
                < #[trigger] heading_lines(lines, n)[b],
    decreases n,
{
    if n > 0 {
        lemma_heading_lines_bound(lines, n - 1);
        let p = heading_lines(lines, n - 1);
        let q = heading_lines(lines, n);
        if heading_line(lines, n - 1) {
            assert(q == p.push(n - 1));
            assert forall|j: int| 0 <= j < q.len() implies 0 <= #[trigger] q[j] < n
                && heading_line(lines, q[j]) by {
                if j < p.len() {
                    assert(q[j] == p[j]);
                }
            }
            assert forall|a: int, b: int| 0 <= a < b < q.len() implies #[trigger] q[a]
                < #[trigger] q[b] by {
                assert(q[a] == p[a]);
                if b < p.len() {
                    assert(q[b] == p[b]);
                }
            }
        }
    }
}

fn join_lines(lines: &Vec<Vec<char>>, a: usize, b: usize) -> (r: Vec<char>)
    requires
        a <= b <= lines@.len(),
    ensures
        r@ == join_nl(views(lines@).subrange(a as int, b as int)),
{
    let mut r: Vec<char> = Vec::new();
    let mut k = a;
    while k < b
        invariant
            a <= k <= b <= lines@.len(),
            r@ == join_nl(views(lines@).subrange(a as int, k as int)),
        decreases b - k,
    {
        let ghost prev = views(lines@).subrange(a as int, k as int);
        if k > a {
            r.push('\n');
        }
        let line = &lines[k];
        let mut q: usize = 0;
        let ghost base = r@;
        while q < line.len()
            invariant
                q <= line@.len(),
                r@ == base + line@.take(q as int),
            decreases line@.len() - q,
        {
            r.push(line[q]);
            proof {
                assert(r@ =~= base + line@.take(q + 1));
            }
            q = q + 1;
        }
        proof {
            let next = views(lines@).subrange(a as int, k + 1);
            assert(next.drop_last() =~= prev);
            assert(next.last() == line@);
            assert(line@.take(q as int) =~= line@);
            if k == a {
                assert(next.len() == 1);
                assert(r@ =~= join_nl(next));
            } else {
                assert(r@ =~= join_nl(next));
            }
        }
        k = k + 1;
    }
    r
}

/// The sections under every heading whose title equals `target_heading` without
/// regard to case. Each runs from the line after its heading up to the next
/// heading, or with `include_subsections` up to the next heading that is not
/// deeper; the text is trimmed.
pub fn get_section(content: &str, target_heading: &str, include_subsections: bool) -> (r: Vec<
    Section,
>)
    ensures
        ({
            let ls = lines_of(content@);
            let hl = all_headings(ls);
            let m = title_matches(ls, hl, lower_of(target_heading@), hl.len() as int);
            &&& r@.len() == m.len()
            &&& forall|j: int|
                0 <= j < r@.len() ==> section_ok(#[trigger] r@[j], ls, hl, m[j], include_subsections)
        }),
{
    let chars = chars_of(content);
    let lines = split_lines(&chars);
    let ghost ls = lines_of(content@);
    let ghost hl = all_headings(ls);
    let hs = extract_headings(content);
    proof {
        lemma_heading_lines_bound(ls, ls.len() as int);
    }
    let target = lowercase(target_heading);
    let ghost m_all = title_matches(ls, hl, lower_of(target_heading@), hl.len() as int);
    let mut out: Vec<Section> = Vec::new();
    let mut idx: usize = 0;
    while idx < hs.len()
        invariant
            views(lines@) == ls,
            hs@.len() == hl.len(),
            forall|j: int| 0 <= j < hs@.len() ==> heading_at(#[trigger] hs@[j], ls, hl[j]),
            forall|j: int| 0 <= j < hl.len() ==> 0 <= #[trigger] hl[j] < ls.len(),
            forall|a: int, b: int| 0 <= a < b < hl.len() ==> #[trigger] hl[a] < #[trigger] hl[b],
            target@ == lower_of(target_heading@),
            idx <= hs@.len(),
            out@.len() == title_matches(ls, hl, target@, idx as int).len(),
            forall|j: int|
                0 <= j < out@.len() ==> section_ok(
                    #[trigger] out@[j],
                    ls,
                    hl,
                    title_matches(ls, hl, target@, idx as int)[j],
                    include_subsections,
                ),
        decreases hs@.len() - idx,
    {
        let folded = lowercase(hs[idx].title.as_str());
        if folded == target {
            let h = &hs[idx];
            let start = h.line_number;
            let e = if include_subsections {
                let mut e = idx + 1;
                while e < hs.len() && hs[e].level > h.level
                    invariant
                        idx < e <= hs@.len(),
                        *h == hs@[idx as int],
                        hs@.len() == hl.len(),
                        forall|j: int| 0 <= j < hs@.len() ==> heading_at(#[trigger] hs@[j], ls, hl[j]),
                        next_peer(ls, hl, idx as int, idx + 1) == next_peer(ls, hl, idx as int, e as int),
                    decreases hs@.len() - e,
                {
                    proof {
                        assert(heading_at(hs@[e as int], ls, hl[e as int]));
                        assert(heading_at(hs@[idx as int], ls, hl[idx as int]));
                    }
                    e = e + 1;
                }
                proof {
                    if e < hs@.len() {
                        assert(heading_at(hs@[e as int], ls, hl[e as int]));
                        assert(heading_at(hs@[idx as int], ls, hl[idx as int]));
                    }
                }
                e
            } else {
                idx + 1
            };
            let stop = if e < hs.len() {
                hs[e].line_number - 1
            } else {
                lines.len()
            };
            proof {
                assert(heading_at(hs@[idx as int], ls, hl[idx as int]));
                if e < hs@.len() {
                    assert(heading_at(hs@[e as int], ls, hl[e as int]));
                    assert(hl[idx as int] < hl[e as int]);
                }
            }
            let text = if start < lines.len() && stop <= lines.len() {
                trim_chars(&join_lines(&lines, start, stop))
            } else {
                Vec::new()
            };
            let sec = Section {
                heading: Heading {
                    title: copy_string(&h.title),
                    level: h.level,
                    line_number: h.line_number,
                    children: Vec::new(),
                },
                content: string_of(&text),
                start_line: start,
                end_line: stop,
            };
            proof {
                assert(text@ == section_text(ls, hl[idx as int] + 1, stop as int));
                assert(section_ok(sec, ls, hl, idx as int, include_subsections));
            }
            out.push(sec);
        }
        idx = idx + 1;
    }
    out
}

} // verus!

verus! {

/// A markdown file's path and text, as read by the caller.
#[derive(Debug, Clone)]
pub struct NoteFile {
    pub path: String,
    pub content: String,
}

pub open spec fn level_ok(level: nat, min_level: Option<u8>, max_level: Option<u8>) -> bool {
    (min_level is Some ==> level >= min_level->0) && (max_level is Some ==> level
        <= max_level->0)
}

/// Title, level and line number of a heading, with the path of its file.
pub type HitView = (Seq<char>, nat, int, Seq<char>);

/// The headings among the first `n` of `lines` whose level is within the bounds
/// and whose folded title holds the folded pattern `pf`.
pub open spec fn hits_upto(
    lines: Seq<Seq<char>>,
    hl: Seq<int>,
    pf: Seq<char>,
    min_level: Option<u8>,
    max_level: Option<u8>,
    path: Seq<char>,
    n: int,
) -> Seq<HitView>
    decreases n,
{
    if n <= 0 {
        seq![]
    } else {
        let prev = hits_upto(lines, hl, pf, min_level, max_level, path, n - 1);
        let k = n - 1;
        if level_ok(hlevel(lines, hl, k), min_level, max_level) && contains(
            lower_of(htitle(lines, hl, k)),
            pf,
        ) {
            prev.push((htitle(lines, hl, k), hlevel(lines, hl, k), hl[k] + 1, path))
        } else {
            prev
        }
    }
}

/// Every matching heading of one file, in order.
pub open spec fn file_hits(
    content: Seq<char>,
    path: Seq<char>,
    pf: Seq<char>,
    min_level: Option<u8>,
    max_level: Option<u8>,
) -> Seq<HitView> {
    let ls = lines_of(content);
    let hl = all_headings(ls);
    hits_upto(ls, hl, pf, min_level, max_level, path, hl.len() as int)
}

/// Matching headings of the first `n` files, file after file.
pub open spec fn files_hits(
    files: Seq<NoteFile>,
    pf: Seq<char>,
    min_level: Option<u8>,
    max_level: Option<u8>,
    n: int,
) -> Seq<HitView>
    decreases n,
{
    if n <= 0 {
        seq![]
    } else {
        files_hits(files, pf, min_level, max_level, n - 1) + file_hits(
            files[n - 1].content@,
            files[n - 1].path@,
            pf,
            min_level,
            max_level,
        )
    }
}

pub open spec fn hit_view(m: HeadingMatch) -> HitView {
    (m.heading.title@, m.heading.level as nat, m.heading.line_number as int, m.file_path@)
}

pub open spec fn hit_views(ms: Seq<HeadingMatch>) -> Seq<HitView> {
    ms.map_values(|m: HeadingMatch| hit_view(m))
}

/// `ms` are well-formed matches: no children, file name taken from the path.
pub open spec fn matches_wf(ms: Seq<HeadingMatch>) -> bool {
    forall|j: int|
        0 <= j < ms.len() ==> (#[trigger] ms[j]).heading.children@.len() == 0 && ms[j].file_name@
            == path_file_name(ms[j].file_path@)
}

pub open spec fn capped(s: Seq<HitView>, limit: Option<usize>) -> Seq<HitView> {
    match limit {
        Some(l) => if l < s.len() {
            s.take(l as int)
        } else {
            s
        },
        None => s,
    }
}

/// Whether a heading with folded title `folded_title` and level `level` is a hit
/// for the folded pattern `folded_pattern` within the level bounds.
pub fn heading_matches(
    folded_title: &str,
    folded_pattern: &str,
    level: u8,
    min_level: Option<u8>,
    max_level: Option<u8>,
) -> (r: bool)
    ensures
        r == (level_ok(level as nat, min_level, max_level) && contains(
            folded_title@,
            folded_pattern@,
        )),
{
    let in_bounds = match min_level {
        Some(m) => level >= m,
        None => true,
    } && match max_level {
        Some(m) => level <= m,
        None => true,
    };
    in_bounds && contains_chars(&chars_of(folded_title), &chars_of(folded_pattern))
}

/// Appends the matching headings of one file to `out`, stopping once `out`
/// holds `limit` matches.
fn search_file(
    content: &str,
    path: &String,
    folded_pattern: &String,
    min_level: Option<u8>,
    max_level: Option<u8>,
    limit: Option<usize>,
    out: &mut Vec<HeadingMatch>,
)
    requires
        matches_wf(old(out)@),
        limit is Some ==> old(out)@.len() <= limit->0,
    ensures
        matches_wf(final(out)@),
        limit is Some ==> final(out)@.len() <= limit->0,
        hit_views(final(out)@) == capped(
            hit_views(old(out)@) + file_hits(content@, path@, folded_pattern@, min_level, max_level),
            limit,
        ),
{
    let ghost ls = lines_of(content@);
    let ghost hl = all_headings(ls);
    let ghost pf = folded_pattern@;
    let ghost base = hit_views(out@);
    let hs = extract_headings(content);
    let mut idx: usize = 0;
    while idx < hs.len()
        invariant
            hs@.len() == hl.len(),
            forall|j: int| 0 <= j < hs@.len() ==> heading_at(#[trigger] hs@[j], ls, hl[j]),
            idx <= hs@.len(),
            ls == lines_of(content@),
            hl == all_headings(ls),
            pf == folded_pattern@,
            matches_wf(out@),
            base == hit_views(old(out)@),
            hit_views(out@) == capped(
                base + hits_upto(ls, hl, pf, min_level, max_level, path@, idx as int),
                limit,
            ),
            limit is Some ==> out@.len() <= limit->0,
        decreases hs@.len() - idx,
    {
        if let Some(l) = limit {
            if out.len() >= l {
                proof {
                    assert(hit_views(out@).len() == out@.len());
                    assert(file_hits(content@, path@, pf, min_level, max_level) == hits_upto(
                        ls,
                        hl,
                        pf,
                        min_level,
                        max_level,
                        path@,
                        hl.len() as int,
                    ));
                    lemma_capped_full(base, ls, hl, pf, min_level, max_level, path@, idx as int, hl.len() as int, l);
                }
                return;
            }
        }
        let h = &hs[idx];
        let folded = lowercase(h.title.as_str());
        proof {
            assert(heading_at(hs@[idx as int], ls, hl[idx as int]));
        }
        let hit = heading_matches(folded.as_str(), folded_pattern.as_str(), h.level, min_level, max_level);
        let ghost hv = hits_upto(ls, hl, pf, min_level, max_level, path@, idx as int);
        proof {
            assert(folded@ == lower_of(htitle(ls, hl, idx as int)));
            assert(hit == (level_ok(hlevel(ls, hl, idx as int), min_level, max_level) && contains(
                lower_of(htitle(ls, hl, idx as int)),
                pf,
            )));
            assert(hit_views(out@).len() == out@.len());
            if limit is Some {
                assert(out@.len() < limit->0);
                assert(capped(base + hv, limit) == base + hv);
            }
        }
        if hit {
            let m = HeadingMatch {
                heading: Heading {
                    title: copy_string(&h.title),
                    level: h.level,
                    line_number: h.line_number,
                    children: Vec::new(),
                },
                file_path: copy_string(path),
                file_name: extract_file_name(path.as_str()),
            };
            let ghost before = out@;
            out.push(m);
            proof {
                assert(hit_views(out@) =~= hit_views(before).push(hit_view(m)));
                assert(matches_wf(out@)) by {
                    assert forall|j: int| 0 <= j < out@.len() implies (#[trigger] out@[j]).heading.children@.len() == 0 && out@[j].file_name@
                        == path_file_name(out@[j].file_path@) by {
                        if j < before.len() {
                            assert(out@[j] == before[j]);
                        }
                    }
                }
                assert(hit_view(m) == (htitle(ls, hl, idx as int), hlevel(ls, hl, idx as int), hl[idx as int] + 1, path@));
                assert(base + hv.push(hit_view(m)) =~= (base + hv).push(hit_view(m)));
                assert(hits_upto(ls, hl, pf, min_level, max_level, path@, idx + 1) == hv.push(
                    hit_view(m),
                ));
            }
        }
        idx = idx + 1;
    }
}

proof fn lemma_capped_full(
    base: Seq<HitView>,
    ls: Seq<Seq<char>>,
    hl: Seq<int>,
    pf: Seq<char>,
    min_level: Option<u8>,
    max_level: Option<u8>,
    path: Seq<char>,
    i: int,
    n: int,
    l: usize,
)
    requires
        0 <= i <= n,
        capped(base + hits_upto(ls, hl, pf, min_level, max_level, path, i), Some(l)).len() >= l,
    ensures
        capped(base + hits_upto(ls, hl, pf, min_level, max_level, path, n), Some(l)) == capped(
            base + hits_upto(ls, hl, pf, min_level, max_level, path, i),
            Some(l),
        ),
    decreases n - i,
{
    if i < n {
        lemma_capped_full(base, ls, hl, pf, min_level, max_level, path, i, n - 1, l);
        let a = base + hits_upto(ls, hl, pf, min_level, max_level, path, n - 1);
        let b = base + hits_upto(ls, hl, pf, min_level, max_level, path, n);
        assert(a.len() >= l);
        assert(b.take(l as int) =~= a.take(l as int)) by {
            assert(b.len() >= a.len());
            assert forall|j: int| 0 <= j < l implies b[j] == a[j] by {}
        }
    }
}

/// Headings whose title holds `pattern` without regard to case, with levels
/// within the optional bounds, across `files` in order, at most `limit` of them.
/// Once the cap is reached no further file is read.
pub fn search_headings(
    files: &Vec<NoteFile>,
    pattern: &str,
    min_level: Option<u8>,
    max_level: Option<u8>,
    limit: Option<usize>,
) -> (r: Vec<HeadingMatch>)
    ensures
        matches_wf(r@),
        hit_views(r@) == capped(
            files_hits(files@, lower_of(pattern@), min_level, max_level, files@.len() as int),
            limit,
        ),
{
    let folded_pattern = lowercase(pattern);
    let mut out: Vec<HeadingMatch> = Vec::new();
    let mut k: usize = 0;
    proof {
        assert(hit_views(out@) =~= seq![]);
    }
    while k < files.len()
        invariant
            k <= files@.len(),
            folded_pattern@ == lower_of(pattern@),
            matches_wf(out@),
            hit_views(out@) == capped(
                files_hits(files@, folded_pattern@, min_level, max_level, k as int),
                limit,
            ),
            limit is Some ==> out@.len() <= limit->0,
        decreases files@.len() - k,
    {
        let ghost before = hit_views(out@);
        search_file(
            files[k].content.as_str(),
            &files[k].path,
            &folded_pattern,
            min_level,
            max_level,
            limit,
            &mut out,
        );
        proof {
            let p = files_hits(files@, folded_pattern@, min_level, max_level, k as int);
            let f = file_hits(files@[k as int].content@, files@[k as int].path@, folded_pattern@, min_level, max_level);
            lemma_capped_append(p, f, limit);
        }
        k = k + 1;
    }
    out
}

proof fn lemma_capped_append(p: Seq<HitView>, f: Seq<HitView>, limit: Option<usize>)
    ensures
        capped(capped(p, limit) + f, limit) == capped(p + f, limit),
{
    match limit {
        Some(l) => {
            if l < p.len() {
                assert(capped(p, limit) + f =~= p.take(l as int) + f);
                assert((p.take(l as int) + f).take(l as int) =~= (p + f).take(l as int));
            } else {
                assert(capped(p, limit) =~= p);
            }
        },
        None => {},
    }
}

/// Decides, before the next file is read, whether a heading search with
/// `limit` that has `found` matches goes on: `None` once the cap is reached,
/// else the number of matches still allowed (`None` inside when uncapped).
pub fn remaining_matches(limit: Option<usize>, found: usize) -> (r: Option<Option<usize>>)
    ensures
        match limit {
            None => r == Some(None::<usize>),
            Some(l) => if found >= l {
                r is None
            } else {
                r == Some(Some((l - found) as usize))
            },
        },
{
    match limit {
        None => Some(None),
        Some(l) => if found >= l {
            None
        } else {
            Some(Some(l - found))
        },
    }
}

/// Rejects level bounds outside 1 to 6 before any scanning.
pub fn validate_level_bounds(min_level: Option<u8>, max_level: Option<u8>) -> (r: Result<
    (),
    String,
>)
    ensures
        r is Ok <==> (min_level is Some ==> 1 <= min_level->0 <= 6) && (max_level is Some ==> 1
            <= max_level->0 <= 6),
{
    if let Some(m) = min_level {
        if m < 1 || m > 6 {
            return Err(String::from_str("min_level must be between 1 and 6"));
        }
    }
    if let Some(m) = max_level {
        if m < 1 || m > 6 {
            return Err(String::from_str("max_level must be between 1 and 6"));
        }
    }
    Ok(())
}

} // verus!

verus! {

/// Heading outlines of markdown text.
pub struct OutlineExtractor;

impl OutlineExtractor {
    pub fn new() -> (r: Self) {
        OutlineExtractor
    }

    /// See [`parse_heading`].
    pub fn parse_heading(&self, line: &str, line_number: usize) -> (r: Option<Heading>)
        ensures
            r is Some <==> heading_of(line@) is Some,
            r is Some ==> (r->0).level as nat == (heading_of(line@)->0).0 && (r->0).title@ == (
            heading_of(line@)->0).1 && (r->0).line_number == line_number,
    {
        parse_heading(line, line_number)
    }

    /// See [`extract_headings`].
    pub fn extract_headings(&self, content: &str) -> (r: Vec<Heading>)
        ensures
            r@.len() == all_headings(lines_of(content@)).len(),
            forall|j: int|
                0 <= j < r@.len() ==> heading_at(
                    #[trigger] r@[j],
                    lines_of(content@),
                    all_headings(lines_of(content@))[j],
                ),
    {
        extract_headings(content)
    }

    /// See [`build_hierarchy`].
    pub fn build_hierarchy(&self, headings: &Vec<Heading>) -> (r: Vec<Heading>)
        ensures
            forest_ok(r@, headings@, 0, headings@.len() as int),
    {
        build_hierarchy(headings)
    }

    /// The headings of `content`, flat or as a tree.
    pub fn get_outline(&self, content: &str, hierarchical: bool) -> (r: Vec<Heading>)
        ensures
            !hierarchical ==> r@.len() == all_headings(lines_of(content@)).len() && forall|j: int|
                0 <= j < r@.len() ==> heading_at(
                    #[trigger] r@[j],
                    lines_of(content@),
                    all_headings(lines_of(content@))[j],
                ),
            hierarchical ==> exists|flat: Seq<Heading>|
                flat.len() == all_headings(lines_of(content@)).len() && (forall|j: int|
                    0 <= j < flat.len() ==> heading_at(
                        #[trigger] flat[j],
                        lines_of(content@),
                        all_headings(lines_of(content@))[j],
                    )) && forest_ok(r@, flat, 0, flat.len() as int),
    {
        let flat = extract_headings(content);
        if hierarchical {
            let r = build_hierarchy(&flat);
            assert(forest_ok(r@, flat@, 0, flat@.len() as int));
            r
        } else {
            flat
        }
    }

    /// See [`get_section`].
    pub fn get_section(&self, content: &str, target_heading: &str, include_subsections: bool) -> (r:
        Vec<Section>)
        ensures
            ({
                let ls = lines_of(content@);
                let hl = all_headings(ls);
                let m = title_matches(ls, hl, lower_of(target_heading@), hl.len() as int);
                &&& r@.len() == m.len()
                &&& forall|j: int|
                    0 <= j < r@.len() ==> section_ok(
                        #[trigger] r@[j],
                        ls,
                        hl,
                        m[j],
                        include_subsections,
                    )
            }),
    {
        get_section(content, target_heading, include_subsections)
    }
}

} // verus!
