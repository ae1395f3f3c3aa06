//! Frontmatter tags: recognising the YAML block, reading its `tags` field, and
//! aggregating, counting and searching tags across files.
use vstd::prelude::*;
use crate::text::{
    chars_lt, chars_of, lines_of, lower_of, lowercase, path_file_name, seq_lt, split_lines,
    string_of, string_views, trim, trim_chars, views,
};
use crate::outline::join_nl;

verus! {

/// The shape of the `tags` field of a frontmatter document.
#[derive(Debug)]
pub enum YamlTags {
    /// A sequence; each entry is its text when it is a string.
    Sequence(Vec<Option<String>>),
    /// A single string.
    Scalar(String),
    /// Absent, or of any other shape.
    Other,
}

/// The model of [`YamlTags`].
pub enum YamlTagsView {
    Sequence(Seq<Option<Seq<char>>>),
    Scalar(Seq<char>),
    Other,
}

impl View for YamlTags {
    type V = YamlTagsView;

    open spec fn view(&self) -> YamlTagsView {
        match self {
            YamlTags::Sequence(v) => YamlTagsView::Sequence(
                v@.map_values(|o: Option<String>| crate::task::opt_view(o)),
            ),
            YamlTags::Scalar(s) => YamlTagsView::Scalar(s@),
            YamlTags::Other => YamlTagsView::Other,
        }
    }
}

/// What the YAML parser reads as the `tags` field of `text`; `None` when the
/// text is not valid YAML.
pub uninterp spec fn yaml_tags_field(text: Seq<char>) -> Option<YamlTagsView>;

/// Relies on `serde_yaml::from_str` into a `serde_yaml::Value`, `Value::get("tags")`
/// and `Value::as_str` on the entries of a sequence.
#[verifier::external_body]
fn read_tags_field(text: &str) -> (r: Option<YamlTags>)
    ensures
        match r {
            Some(t) => yaml_tags_field(text@) == Some(t@),
            None => yaml_tags_field(text@) is None,
        },
{
    match serde_yaml::from_str::<serde_yaml::Value>(text) {
        Err(_) => None,
        Ok(v) => Some(
            match v.get("tags") {
                Some(serde_yaml::Value::Sequence(seq)) => YamlTags::Sequence(
                    seq.iter().map(|e| e.as_str().map(|s| s.to_string())).collect(),
                ),
                Some(serde_yaml::Value::String(s)) => YamlTags::Scalar(s.clone()),
                _ => YamlTags::Other,
            },
        ),
    }
}

/// The string entries of a sequence, in order.
pub open spec fn present(s: Seq<Option<Seq<char>>>) -> Seq<Seq<char>>
    decreases s.len(),
{
    if s.len() == 0 {
        seq![]
    } else if s.last() is Some {
        present(s.drop_last()).push(s.last()->0)
    } else {
        present(s.drop_last())
    }
}

/// Tags given by a `tags` field: the strings of a sequence, or the one string.
pub open spec fn field_tags(f: YamlTagsView) -> Seq<Seq<char>> {
    match f {
        YamlTagsView::Sequence(s) => present(s),
        YamlTagsView::Scalar(s) => seq![s],
        YamlTagsView::Other => seq![],
    }
}

pub open spec fn dashes() -> Seq<char> {
    seq!['-', '-', '-']
}

/// Index of the first line at or after `i` whose trimmed text is `---`.
pub open spec fn closing_line(lines: Seq<Seq<char>>, i: int) -> Option<int>
    decreases lines.len() - i,
{
    if i < 0 || i >= lines.len() {
        None
    } else if trim(lines[i]) == dashes() {
        Some(i)
    } else {
        closing_line(lines, i + 1)
    }
}

/// The frontmatter of a document: the lines strictly between a first line that
/// is `---` and the next `---` line, joined with `'\n'`.
pub open spec fn frontmatter_of(content: Seq<char>) -> Option<Seq<char>> {
    let ls = lines_of(content);
    if ls.len() == 0 || trim(ls[0]) != dashes() {
        None
    } else {
        match closing_line(ls, 1) {
            Some(e) => Some(join_nl(ls.subrange(1, e))),
            None => None,
        }
    }
}

/// The frontmatter tags of a document; `None` when its frontmatter is not YAML.
pub open spec fn document_tags(content: Seq<char>) -> Option<Seq<Seq<char>>> {
    match frontmatter_of(content) {
        None => Some(seq![]),
        Some(fm) => match yaml_tags_field(fm) {
            Some(f) => Some(field_tags(f)),
            None => None,
        },
    }
}

/// Extracts frontmatter tags from markdown text.
pub struct TagExtractor;

proof fn lemma_closing_line(lines: Seq<Seq<char>>, i: int)
    requires
        closing_line(lines, i) is Some,
    ensures
        i <= closing_line(lines, i)->0 < lines.len(),
    decreases lines.len() - i,
{
    if 0 <= i < lines.len() && trim(lines[i]) != dashes() {
        lemma_closing_line(lines, i + 1);
    }
}

fn is_dashes(l: &Vec<char>) -> (r: bool)
    ensures
        r == (trim(l@) == dashes()),
{
    let t = trim_chars(l);
    let r = t.len() == 3 && t[0] == '-' && t[1] == '-' && t[2] == '-';
    proof {
        if t@.len() == 3 {
            if r {
                assert(t@ =~= dashes());
            } else {
                assert(t@ != dashes()) by {
                    if t@ == dashes() {
                        assert(t@[0] == '-' && t@[1] == '-' && t@[2] == '-');
                    }
                }
            }
        }
    }
    r
}

/// The tags a `tags` field gives: the strings of a sequence, or the one string.
pub fn tags_of_field(f: &YamlTags) -> (r: Vec<String>)
    ensures
        string_views(r@) == field_tags(f@),
{
    match f {
        YamlTags::Sequence(v) => {
            let mut r: Vec<String> = Vec::new();
            let mut k: usize = 0;
            while k < v.len()
                invariant
                    k <= v@.len(),
                    string_views(r@) == present(
                        v@.map_values(|o: Option<String>| crate::task::opt_view(o)).take(k as int),
                    ),
                decreases v@.len() - k,
            {
                let ghost m = v@.map_values(|o: Option<String>| crate::task::opt_view(o));
                proof {
                    assert(m.take(k + 1).drop_last() =~= m.take(k as int));
                }
                match &v[k] {
                    Some(s) => {
                        let ghost before = string_views(r@);
                        r.push(s.clone());
                        proof {
                            assert(string_views(r@) =~= before.push(s@));
                        }
                    },
                    None => {},
                }
                k = k + 1;
            }
            proof {
                let m = v@.map_values(|o: Option<String>| crate::task::opt_view(o));
                assert(m.take(k as int) =~= m);
            }
            r
        },
        YamlTags::Scalar(s) => {
            let r = vec![s.clone()];
            assert(string_views(r@) =~= seq![s@]);
            r
        },
        YamlTags::Other => {
            let r: Vec<String> = Vec::new();
            assert(string_views(r@) =~= seq![]);
            r
        },
    }
}

impl TagExtractor {
    pub fn new() -> (r: Self) {
        TagExtractor
    }

    /// The frontmatter block of `content`, if it opens with a `---` line and has
    /// a closing one.
    pub fn extract_frontmatter(&self, content: &str) -> (r: Result<Option<String>, String>)
        ensures
            r is Ok,
            match r {
                Ok(Some(s)) => frontmatter_of(content@) == Some(s@),
                Ok(None) => frontmatter_of(content@) is None,
                Err(_) => false,
            },
    {
        let chars = chars_of(content);
        let lines = split_lines(&chars);
        let ghost ls = lines_of(content@);
        if lines.len() == 0 || !is_dashes(&lines[0]) {
            proof {
                if ls.len() > 0 {
                    assert(lines@[0]@ == ls[0]);
                }
            }
            return Ok(None);
        }
        proof {
            assert(lines@[0]@ == ls[0]);
        }
        let mut e: usize = 1;
        while e < lines.len() && !is_dashes(&lines[e])
            invariant
                views(lines@) == ls,
                1 <= e <= lines@.len(),
                closing_line(ls, 1) == closing_line(ls, e as int),
            decreases lines@.len() - e,
        {
            proof {
                assert(lines@[e as int]@ == ls[e as int]);
            }
            e = e + 1;
        }
        if e == lines.len() {
            return Ok(None);
        }
        proof {
            assert(lines@[e as int]@ == ls[e as int]);
        }
        let mut fm: Vec<char> = Vec::new();
        let mut k: usize = 1;
        while k < e
            invariant
                views(lines@) == ls,
                1 <= k <= e < lines@.len(),
                fm@ == join_nl(ls.subrange(1, k as int)),
            decreases e - k,
        {
            let ghost prev = ls.subrange(1, k as int);
            if k > 1 {
                fm.push('\n');
            }
            let line = &lines[k];
            let ghost base = fm@;
            let mut q: usize = 0;
            while q < line.len()
                invariant
                    q <= line@.len(),
                    fm@ == base + line@.take(q as int),
                decreases line@.len() - q,
            {
                fm.push(line[q]);
                proof {
                    assert(fm@ =~= base + line@.take(q + 1));
                }
                q = q + 1;
            }
            proof {
                let next = ls.subrange(1, k + 1);
                assert(next.drop_last() =~= prev);
                assert(lines@[k as int]@ == ls[k as int]);
                assert(next.last() == line@);
                assert(line@.take(q as int) =~= line@);
                assert(fm@ =~= join_nl(next));
            }
            k = k + 1;
        }
        Ok(Some(string_of(&fm)))
    }

    /// The tags of a frontmatter block; an error when it is not valid YAML.
    pub fn parse_tags_from_frontmatter(&self, frontmatter: &str) -> (r: Result<Vec<String>, String>)
        ensures
            match r {
                Ok(t) => yaml_tags_field(frontmatter@) is Some && string_views(t@) == field_tags(
                    yaml_tags_field(frontmatter@)->0,
                ),
                Err(_) => yaml_tags_field(frontmatter@) is None,
            },
    {
        match read_tags_field(frontmatter) {
            Some(f) => Ok(tags_of_field(&f)),
            None => Err(String::from_str("frontmatter is not valid YAML")),
        }
    }

    /// The frontmatter tags of a document: none without frontmatter, an error
    /// when the frontmatter is not valid YAML.
    pub fn extract_tags_from_content(&self, content: &str) -> (r: Result<Vec<String>, String>)
        ensures
            match r {
                Ok(t) => document_tags(content@) == Some(string_views(t@)),
                Err(_) => document_tags(content@) is None,
            },
    {
        match self.extract_frontmatter(content) {
            Ok(Some(fm)) => self.parse_tags_from_frontmatter(fm.as_str()),
            _ => {
                let r: Vec<String> = Vec::new();
                assert(string_views(r@) =~= seq![]);
                Ok(r)
            },
        }
    }
}

} // verus!

verus! {

/// A tag with the number of documents that carry it.
#[derive(Debug, Clone)]
pub struct TagCount {
    pub tag: String,
    pub document_count: usize,
}

/// A file found by a tag search.
#[derive(Debug, Clone)]
pub struct TaggedFile {
    pub file_path: String,
    pub file_name: String,
    pub matched_tags: Vec<String>,
    pub all_tags: Vec<String>,
}

/// A file's path with its frontmatter tags.
#[derive(Debug, Clone)]
pub struct FileTags {
    pub file_path: String,
    pub tags: Vec<String>,
}

pub proof fn lemma_lt_irrefl(a: Seq<char>)
    ensures
        !seq_lt(a, a),
    decreases a.len(),
{
    if a.len() > 0 {
        lemma_lt_irrefl(a.drop_first());
    }
}

pub proof fn lemma_lt_trans(a: Seq<char>, b: Seq<char>, c: Seq<char>)
    requires
        seq_lt(a, b),
        seq_lt(b, c),
    ensures
        seq_lt(a, c),
    decreases a.len(),
{
    if a.len() > 0 && b.len() > 0 && c.len() > 0 && a[0] == b[0] && b[0] == c[0] {
        lemma_lt_trans(a.drop_first(), b.drop_first(), c.drop_first());
    }
}

pub proof fn lemma_lt_total(a: Seq<char>, b: Seq<char>)
    requires
        a != b,
    ensures
        seq_lt(a, b) || seq_lt(b, a),
    decreases a.len(),
{
    if a.len() > 0 && b.len() > 0 && a[0] == b[0] {
        assert(a.drop_first() != b.drop_first()) by {
            if a.drop_first() == b.drop_first() {
                assert(a =~= seq![a[0]] + a.drop_first());
                assert(b =~= seq![b[0]] + b.drop_first());
            }
        }
        lemma_lt_total(a.drop_first(), b.drop_first());
    } else if a.len() == 0 && b.len() == 0 {
        assert(a =~= b);
    } else if a.len() > 0 && b.len() > 0 {
    }
}

pub open spec fn strictly_sorted(s: Seq<Seq<char>>) -> bool {
    forall|i: int, j: int| 0 <= i < j < s.len() ==> seq_lt(#[trigger] s[i], #[trigger] s[j])
}

pub open spec fn in_some(files: Seq<Seq<Seq<char>>>, t: Seq<char>) -> bool {
    exists|f: int| 0 <= f < files.len() && (#[trigger] files[f]).contains(t)
}

pub open spec fn files_view(files: Seq<Vec<String>>) -> Seq<Seq<Seq<char>>> {
    files.map_values(|v: Vec<String>| string_views(v@))
}

/// Two strictly sorted sequences with the same elements are equal: the
/// sorted-unique arrangement of a set of tags is unique.
pub proof fn lemma_sorted_unique(a: Seq<Seq<char>>, b: Seq<Seq<char>>)
    requires
        strictly_sorted(a),
        strictly_sorted(b),
        forall|t: Seq<char>| a.contains(t) <==> b.contains(t),
    ensures
        a == b,
    decreases a.len() + b.len(),
{
    if a.len() == 0 || b.len() == 0 {
        if a.len() > 0 {
            assert(a.contains(a[0]));
        }
        if b.len() > 0 {
            assert(b.contains(b[0]));
        }
        assert(a =~= b);
    } else {
        // the first elements are both the least element
        assert(a.contains(a[0]));
        assert(b.contains(b[0]));
        let ia = choose|i: int| 0 <= i < b.len() && b[i] == a[0];
        let ib = choose|i: int| 0 <= i < a.len() && a[i] == b[0];
        if ia > 0 {
            assert(seq_lt(b[0], b[ia]));
            if ib > 0 {
                assert(seq_lt(a[0], a[ib]));
                lemma_lt_trans(a[0], b[0], a[0]);
                lemma_lt_irrefl(a[0]);
            } else {
                lemma_lt_irrefl(a[0]);
            }
        }
        assert(a[0] == b[0]);
        let a1 = a.drop_first();
        let b1 = b.drop_first();
        assert forall|t: Seq<char>| a1.contains(t) <==> b1.contains(t) by {
            if a1.contains(t) {
                let i = choose|i: int| 0 <= i < a1.len() && a1[i] == t;
                assert(a[i + 1] == t);
                assert(seq_lt(a[0], t));
                assert(b.contains(t));
                let j = choose|j: int| 0 <= j < b.len() && b[j] == t;
                if j == 0 {
                    lemma_lt_irrefl(t);
                }
                assert(b1[j - 1] == t);
            }
            if b1.contains(t) {
                let i = choose|i: int| 0 <= i < b1.len() && b1[i] == t;
                assert(b[i + 1] == t);
                assert(seq_lt(b[0], t));
                assert(a.contains(t));
                let j = choose|j: int| 0 <= j < a.len() && a[j] == t;
                if j == 0 {
                    lemma_lt_irrefl(t);
                }
                assert(a1[j - 1] == t);
            }
        }
        assert(strictly_sorted(a1)) by {
            assert forall|i: int, j: int| 0 <= i < j < a1.len() implies seq_lt(
                #[trigger] a1[i],
                #[trigger] a1[j],
            ) by {
                assert(a1[i] == a[i + 1] && a1[j] == a[j + 1]);
            }
        }
        assert(strictly_sorted(b1)) by {
            assert forall|i: int, j: int| 0 <= i < j < b1.len() implies seq_lt(
                #[trigger] b1[i],
                #[trigger] b1[j],
            ) by {
                assert(b1[i] == b[i + 1] && b1[j] == b[j + 1]);
            }
        }
        lemma_sorted_unique(a1, b1);
        assert(a =~= seq![a[0]] + a1);
        assert(b =~= seq![b[0]] + b1);
    }
}

fn string_eq(a: &String, b: &String) -> (r: bool)
    ensures
        r == (a@ == b@),
{
    *a == *b
}

fn string_lt(a: &String, b: &String) -> (r: bool)
    ensures
        r == seq_lt(a@, b@),
{
    chars_lt(&chars_of(a.as_str()), &chars_of(b.as_str()))
}

/// Inserts `t` into the strictly sorted `out` unless it is there already.
fn insert_sorted(out: &mut Vec<String>, t: &String)
    requires
        strictly_sorted(string_views(old(out)@)),
    ensures
        strictly_sorted(string_views(final(out)@)),
        forall|x: Seq<char>|
            string_views(final(out)@).contains(x) <==> (string_views(old(out)@).contains(x) || x
                == t@),
{
    let ghost s0 = string_views(out@);
    let mut p: usize = 0;
    while p < out.len() && string_lt(&out[p], t)
        invariant
            p <= out@.len(),
            string_views(out@) == s0,
            forall|i: int| 0 <= i < p ==> seq_lt(#[trigger] s0[i], t@),
        decreases out@.len() - p,
    {
        p = p + 1;
    }
    if p < out.len() && string_eq(&out[p], t) {
        proof {
            assert(s0[p as int] == t@);
        }
        return;
    }
    proof {
        if p < s0.len() {
            lemma_lt_total(s0[p as int], t@);
        }
    }
    out.insert(p, t.clone());
    proof {
        let s1 = string_views(out@);
        assert(s1 =~= s0.insert(p as int, t@));
        assert forall|i: int, j: int| 0 <= i < j < s1.len() implies seq_lt(
            #[trigger] s1[i],
            #[trigger] s1[j],
        ) by {
            if j < p {
            } else if j == p {
            } else if i < p {
                if j - 1 > p {
                    assert(seq_lt(s0[p as int], s0[j - 1]));
                    lemma_lt_trans(t@, s0[p as int], s0[j - 1]);
                }
                assert(seq_lt(t@, s1[j]));
                lemma_lt_trans(s1[i], t@, s1[j]);
            } else if i == p {
                if j - 1 > p {
                    assert(seq_lt(s0[p as int], s0[j - 1]));
                    lemma_lt_trans(t@, s0[p as int], s0[j - 1]);
                }
            } else {
                assert(s1[i] == s0[i - 1] && s1[j] == s0[j - 1]);
            }
        }
        assert forall|x: Seq<char>| s1.contains(x) <==> (s0.contains(x) || x == t@) by {
            if s1.contains(x) {
                let i = choose|i: int| 0 <= i < s1.len() && s1[i] == x;
                if i < p {
                    assert(s0[i] == x);
                } else if i > p {
                    assert(s0[i - 1] == x);
                }
            }
            if s0.contains(x) {
                let i = choose|i: int| 0 <= i < s0.len() && s0[i] == x;
                if i < p {
                    assert(s1[i] == x);
                } else {
                    assert(s1[i + 1] == x);
                }
            }
            if x == t@ {
                assert(s1[p as int] == x);
            }
        }
    }
}

/// The tags of all files, deduplicated and sorted.
pub fn aggregate_tags(files: &Vec<Vec<String>>) -> (r: Vec<String>)
    ensures
        strictly_sorted(string_views(r@)),
        forall|t: Seq<char>| string_views(r@).contains(t) <==> in_some(files_view(files@), t),
{
    let mut out: Vec<String> = Vec::new();
    let ghost fv = files_view(files@);
    let mut f: usize = 0;
    while f < files.len()
        invariant
            f <= files@.len(),
            fv == files_view(files@),
            strictly_sorted(string_views(out@)),
            forall|t: Seq<char>|
                string_views(out@).contains(t) <==> in_some(fv.take(f as int), t),
        decreases files@.len() - f,
    {
        let tags = &files[f];
        let mut k: usize = 0;
        while k < tags.len()
            invariant
                f < files@.len(),
                *tags == files@[f as int],
                k <= tags@.len(),
                fv == files_view(files@),
                strictly_sorted(string_views(out@)),
                forall|t: Seq<char>|
                    string_views(out@).contains(t) <==> (in_some(fv.take(f as int), t)
                        || string_views(tags@).take(k as int).contains(t)),
            decreases tags@.len() - k,
        {
            insert_sorted(&mut out, &tags[k]);
            proof {
                let tv = string_views(tags@);
                assert forall|t: Seq<char>| tv.take(k + 1).contains(t) <==> (tv.take(
                    k as int,
                ).contains(t) || t == tv[k as int]) by {
                    if tv.take(k + 1).contains(t) {
                        let i = choose|i: int| 0 <= i < k + 1 && #[trigger] tv.take(k + 1)[i] == t;
                        if i < k {
                            assert(tv.take(k as int)[i] == t);
                        }
                    }
                    if tv.take(k as int).contains(t) {
                        let i = choose|i: int| 0 <= i < k && #[trigger] tv.take(k as int)[i] == t;
                        assert(tv.take(k + 1)[i] == t);
                    }
                    if t == tv[k as int] {
                        assert(tv.take(k + 1)[k as int] == t);
                    }
                }
            }
            k = k + 1;
        }
        proof {
            let tv = string_views(tags@);
            assert(tv.take(k as int) =~= tv);
            assert(fv[f as int] == tv);
            assert forall|t: Seq<char>| in_some(fv.take(f + 1), t) <==> (in_some(
                fv.take(f as int),
                t,
            ) || tv.contains(t)) by {
                if in_some(fv.take(f + 1), t) {
                    let g = choose|g: int| 0 <= g < f + 1 && (#[trigger] fv.take(f + 1)[g]).contains(t);
                    if g < f {
                        assert(fv.take(f as int)[g] == fv.take(f + 1)[g]);
                    }
                }
                if in_some(fv.take(f as int), t) {
                    let g = choose|g: int| 0 <= g < f && (#[trigger] fv.take(f as int)[g]).contains(t);
                    assert(fv.take(f + 1)[g] == fv.take(f as int)[g]);
                }
                if tv.contains(t) {
                    assert(fv.take(f + 1)[f as int] == tv);
                }
            }
        }
        f = f + 1;
    }
    proof {
        assert(fv.take(f as int) =~= fv);
    }
    out
}

/// Aggregating the tags of a single file whose tag list is `tags` gives exactly
/// the sorted, duplicate-free arrangement of that list.
pub proof fn lemma_single_file_aggregate(
    tags: Vec<String>,
    r: Seq<Seq<char>>,
    sorted_unique: Seq<Seq<char>>,
)
    requires
        strictly_sorted(r),
        forall|t: Seq<char>| r.contains(t) <==> in_some(files_view(seq![tags]), t),
        strictly_sorted(sorted_unique),
        forall|t: Seq<char>| sorted_unique.contains(t) <==> string_views(tags@).contains(t),
    ensures
        r == sorted_unique,
{
    let fv = files_view(seq![tags]);
    assert(fv[0] == string_views(tags@));
    assert forall|t: Seq<char>| r.contains(t) <==> sorted_unique.contains(t) by {
        if in_some(fv, t) {
            let g = choose|g: int| 0 <= g < fv.len() && (#[trigger] fv[g]).contains(t);
            assert(g == 0);
        }
        if string_views(tags@).contains(t) {
            assert(fv[0].contains(t));
        }
    }
    lemma_sorted_unique(r, sorted_unique);
}

} // verus!

verus! {

/// Number of files whose tag list holds `t`; repeats within a file count once.
pub open spec fn doc_count(files: Seq<Seq<Seq<char>>>, t: Seq<char>) -> nat
    decreases files.len(),
{
    if files.len() == 0 {
        0
    } else {
        doc_count(files.drop_last(), t) + if files.last().contains(t) {
            1nat
        } else {
            0nat
        }
    }
}

proof fn lemma_doc_count_bound(files: Seq<Seq<Seq<char>>>, t: Seq<char>)
    ensures
        doc_count(files, t) <= files.len(),
    decreases files.len(),
{
    if files.len() > 0 {
        lemma_doc_count_bound(files.drop_last(), t);
    }
}

/// Repeating, within one file, a tag that file already lists leaves every
/// document count unchanged.
pub proof fn lemma_doc_count_ignores_repeats(
    files: Seq<Seq<Seq<char>>>,
    f: int,
    x: Seq<char>,
    t: Seq<char>,
)
    requires
        0 <= f < files.len(),
        files[f].contains(x),
    ensures
        doc_count(files.update(f, files[f].push(x)), t) == doc_count(files, t),
    decreases files.len(),
{
    let g = files.update(f, files[f].push(x));
    assert(files[f].push(x).contains(t) <==> files[f].contains(t)) by {
        if files[f].push(x).contains(t) {
            let i = choose|i: int| 0 <= i < files[f].push(x).len() && files[f].push(x)[i] == t;
            if i == files[f].len() {
                assert(t == x);
            } else {
                assert(files[f][i] == t);
            }
        }
        if files[f].contains(t) {
            let i = choose|i: int| 0 <= i < files[f].len() && files[f][i] == t;
            assert(files[f].push(x)[i] == t);
        }
    }
    if f == files.len() - 1 {
        assert(g.drop_last() =~= files.drop_last());
    } else {
        lemma_doc_count_ignores_repeats(files.drop_last(), f, x, t);
        assert(g.drop_last() =~= files.drop_last().update(f, files[f].push(x)));
    }
}

/// Whether `(c1, t1)` comes before `(c2, t2)`: higher count first, then by tag.
pub open spec fn ranks_before(c1: nat, t1: Seq<char>, c2: nat, t2: Seq<char>) -> bool {
    c1 > c2 || (c1 == c2 && seq_lt(t1, t2))
}

pub open spec fn counts_ordered(r: Seq<TagCount>) -> bool {
    forall|i: int, j: int|
        0 <= i < j < r.len() ==> ranks_before(
            (#[trigger] r[i]).document_count as nat,
            r[i].tag@,
            (#[trigger] r[j]).document_count as nat,
            r[j].tag@,
        )
}

pub open spec fn count_tags_view(r: Seq<TagCount>) -> Seq<Seq<char>> {
    r.map_values(|c: TagCount| c.tag@)
}

fn has_tag_exec(tags: &Vec<String>, t: &String) -> (r: bool)
    ensures
        r == string_views(tags@).contains(t@),
{
    let mut i: usize = 0;
    while i < tags.len()
        invariant
            i <= tags@.len(),
            forall|j: int| 0 <= j < i ==> (#[trigger] tags@[j])@ != t@,
        decreases tags@.len() - i,
    {
        if string_eq(&tags[i], t) {
            assert(string_views(tags@)[i as int] == t@);
            return true;
        }
        i = i + 1;
    }
    proof {
        if string_views(tags@).contains(t@) {
            let j = choose|j: int| 0 <= j < tags@.len() && string_views(tags@)[j] == t@;
            assert(tags@[j]@ == t@);
        }
    }
    false
}

fn doc_count_exec(files: &Vec<Vec<String>>, t: &String) -> (r: usize)
    ensures
        r == doc_count(files_view(files@), t@),
{
    let ghost fv = files_view(files@);
    let mut c: usize = 0;
    let mut f: usize = 0;
    while f < files.len()
        invariant
            f <= files@.len(),
            fv == files_view(files@),
            c == doc_count(fv.take(f as int), t@),
            c <= f,
        decreases files@.len() - f,
    {
        proof {
            assert(fv.take(f + 1).drop_last() =~= fv.take(f as int));
            assert(fv[f as int] == string_views(files@[f as int]@));
        }
        if has_tag_exec(&files[f], t) {
            c = c + 1;
        }
        f = f + 1;
    }
    proof {
        assert(fv.take(f as int) =~= fv);
    }
    c
}

/// Every tag of the files with the number of files that carry it, by
/// descending count, ties by ascending tag.
pub fn count_tags(files: &Vec<Vec<String>>) -> (r: Vec<TagCount>)
    ensures
        counts_ordered(r@),
        forall|i: int, j: int| 0 <= i < j < r@.len() ==> (#[trigger] r@[i]).tag@ != (#[trigger] r@[j]).tag@,
        forall|t: Seq<char>| count_tags_view(r@).contains(t) <==> in_some(files_view(files@), t),
        forall|i: int|
            0 <= i < r@.len() ==> (#[trigger] r@[i]).document_count == doc_count(
                files_view(files@),
                r@[i].tag@,
            ),
{
    let tags = aggregate_tags(files);
    let ghost fv = files_view(files@);
    let ghost tv = string_views(tags@);
    let mut out: Vec<TagCount> = Vec::new();
    let mut k: usize = 0;
    while k < tags.len()
        invariant
            k <= tags@.len(),
            fv == files_view(files@),
            tv == string_views(tags@),
            strictly_sorted(tv),
            forall|t: Seq<char>| tv.contains(t) <==> in_some(fv, t),
            counts_ordered(out@),
            forall|t: Seq<char>| count_tags_view(out@).contains(t) <==> tv.take(k as int).contains(t),
            forall|i: int| 0 <= i < out@.len() ==> (#[trigger] out@[i]).document_count == doc_count(fv, out@[i].tag@),
            forall|i: int, j: int| 0 <= i < j < out@.len() ==> (#[trigger] out@[i]).tag@ != (#[trigger] out@[j]).tag@,
        decreases tags@.len() - k,
    {
        let t = &tags[k];
        let c = doc_count_exec(files, t);
        let item = TagCount { tag: t.clone(), document_count: c };
        let ghost ov = out@;
        proof {
            assert(tv[k as int] == t@);
            assert(!count_tags_view(ov).contains(t@)) by {
                if count_tags_view(ov).contains(t@) {
                    let q = choose|q: int| 0 <= q < k && tv.take(k as int)[q] == t@;
                    assert(tv[q] == t@);
                    assert(seq_lt(tv[q], tv[k as int]));
                    lemma_lt_irrefl(t@);
                }
            }
        }
        let mut p: usize = 0;
        while p < out.len() && (out[p].document_count > c || (out[p].document_count == c
            && string_lt(&out[p].tag, t)))
            invariant
                p <= out@.len(),
                out@ == ov,
                forall|i: int| 0 <= i < p ==> ranks_before(
                    (#[trigger] ov[i]).document_count as nat,
                    ov[i].tag@,
                    c as nat,
                    t@,
                ),
            decreases out@.len() - p,
        {
            p = p + 1;
        }
        proof {
            if p < ov.len() {
                assert(ov[p as int].tag@ != t@) by {
                    assert(count_tags_view(ov)[p as int] == ov[p as int].tag@);
                }
                lemma_lt_total(ov[p as int].tag@, t@);
            }
        }
        out.insert(p, item);
        proof {
            let o1 = out@;
            assert(o1 =~= ov.insert(p as int, item));
            assert forall|i: int, j: int| 0 <= i < j < o1.len() implies ranks_before(
                (#[trigger] o1[i]).document_count as nat,
                o1[i].tag@,
                (#[trigger] o1[j]).document_count as nat,
                o1[j].tag@,
            ) by {
                if j < p {
                } else if j == p {
                } else if i <= p {
                    let a = ov[p as int];
                    let b = ov[j - 1];
                    if j - 1 > p {
                        assert(ranks_before(a.document_count as nat, a.tag@, b.document_count as nat, b.tag@));
                        if a.document_count == b.document_count && c == a.document_count {
                            lemma_lt_trans(t@, a.tag@, b.tag@);
                        }
                    }
                    if i < p {
                        let z = ov[i];
                        assert(ranks_before(z.document_count as nat, z.tag@, c as nat, t@));
                        if z.document_count == c && c == b.document_count {
                            lemma_lt_trans(z.tag@, t@, b.tag@);
                        }
                    }
                } else {
                    assert(o1[i] == ov[i - 1] && o1[j] == ov[j - 1]);
                }
            }
            assert forall|i: int| 0 <= i < o1.len() implies (#[trigger] o1[i]).document_count
                == doc_count(fv, o1[i].tag@) by {
                if i < p {
                    assert(o1[i] == ov[i]);
                } else if i > p {
                    assert(o1[i] == ov[i - 1]);
                }
            }
            assert forall|i: int, j: int| 0 <= i < j < o1.len() implies (#[trigger] o1[i]).tag@
                != (#[trigger] o1[j]).tag@ by {
                if i != p && j != p {
                    let i0 = if i < p { i } else { i - 1 };
                    let j0 = if j < p { j } else { j - 1 };
                    assert(o1[i] == ov[i0] && o1[j] == ov[j0]);
                } else if i == p {
                    let j0 = j - 1;
                    assert(o1[j] == ov[j0]);
                    assert(count_tags_view(ov)[j0] == ov[j0].tag@);
                } else {
                    assert(o1[i] == ov[i]);
                    assert(count_tags_view(ov)[i] == ov[i].tag@);
                }
            }
            assert forall|x: Seq<char>| count_tags_view(o1).contains(x) <==> tv.take(k + 1).contains(x) by {
                let cv = count_tags_view(ov);
                if count_tags_view(o1).contains(x) {
                    let i = choose|i: int| 0 <= i < o1.len() && #[trigger] count_tags_view(o1)[i] == x;
                    assert(count_tags_view(o1)[i] == o1[i].tag@);
                    if i < p {
                        assert(o1[i] == ov[i]);
                        assert(cv[i] == x);
                    } else if i > p {
                        assert(o1[i] == ov[i - 1]);
                        assert(cv[i - 1] == x);
                    } else {
                        assert(tv.take(k + 1)[k as int] == x);
                    }
                    if i != p {
                        assert(cv.contains(x));
                        assert(tv.take(k as int).contains(x));
                        let q = choose|q: int| 0 <= q < k && #[trigger] tv.take(k as int)[q] == x;
                        assert(tv.take(k + 1)[q] == x);
                    }
                }
                if tv.take(k + 1).contains(x) {
                    let q = choose|q: int| 0 <= q < k + 1 && #[trigger] tv.take(k + 1)[q] == x;
                    if q < k {
                        assert(tv.take(k as int)[q] == x);
                        assert(tv.take(k as int).contains(x));
                        assert(cv.contains(x));
                        let i = choose|i: int| 0 <= i < ov.len() && #[trigger] cv[i] == x;
                        if i < p {
                            assert(o1[i] == ov[i]);
                            assert(count_tags_view(o1)[i] == x);
                        } else {
                            assert(o1[i + 1] == ov[i]);
                            assert(count_tags_view(o1)[i + 1] == x);
                        }
                    } else {
                        assert(o1[p as int] == item);
                        assert(count_tags_view(o1)[p as int] == x);
                    }
                }
            }
        }
        k = k + 1;
    }
    proof {
        assert(tv.take(k as int) =~= tv);
    }
    out
}

} // verus!

verus! {

/// The query tags whose folded form is among the folded file tags, in query order.
pub open spec fn matched_of(
    folded_file: Seq<Seq<char>>,
    query: Seq<Seq<char>>,
    folded_query: Seq<Seq<char>>,
) -> Seq<Seq<char>>
    decreases query.len(),
{
    if query.len() == 0 || folded_query.len() != query.len() {
        seq![]
    } else {
        let prev = matched_of(folded_file, query.drop_last(), folded_query.drop_last());
        if folded_file.contains(folded_query.last()) {
            prev.push(query.last())
        } else {
            prev
        }
    }
}

pub open spec fn fold_all(s: Seq<Seq<char>>) -> Seq<Seq<char>> {
    s.map_values(|t: Seq<char>| lower_of(t))
}

/// Whether a file with these matched tags is selected: all of the query, or any.
pub open spec fn selected(matched: Seq<Seq<char>>, query_len: nat, match_all: bool) -> bool {
    if match_all {
        matched.len() == query_len
    } else {
        matched.len() > 0
    }
}

/// The query tags whose folded form is in `folded_file`, in query order.
pub fn matched_tags_folded(
    folded_file: &Vec<String>,
    query: &Vec<String>,
    folded_query: &Vec<String>,
) -> (r: Vec<String>)
    requires
        folded_query@.len() == query@.len(),
    ensures
        string_views(r@) == matched_of(
            string_views(folded_file@),
            string_views(query@),
            string_views(folded_query@),
        ),
{
    let mut r: Vec<String> = Vec::new();
    let mut k: usize = 0;
    while k < query.len()
        invariant
            k <= query@.len(),
            folded_query@.len() == query@.len(),
            string_views(r@) == matched_of(
                string_views(folded_file@),
                string_views(query@).take(k as int),
                string_views(folded_query@).take(k as int),
            ),
        decreases query@.len() - k,
    {
        proof {
            assert(string_views(query@).take(k + 1).drop_last() =~= string_views(query@).take(
                k as int,
            ));
            assert(string_views(folded_query@).take(k + 1).drop_last() =~= string_views(
                folded_query@,
            ).take(k as int));
        }
        if has_tag_exec(folded_file, &folded_query[k]) {
            let ghost before = string_views(r@);
            r.push(query[k].clone());
            proof {
                assert(string_views(r@) =~= before.push(query@[k as int]@));
            }
        }
        k = k + 1;
    }
    proof {
        assert(string_views(query@).take(k as int) =~= string_views(query@));
        assert(string_views(folded_query@).take(k as int) =~= string_views(folded_query@));
    }
    r
}

fn fold_tags(tags: &Vec<String>) -> (r: Vec<String>)
    ensures
        string_views(r@) == fold_all(string_views(tags@)),
{
    let mut r: Vec<String> = Vec::new();
    let mut k: usize = 0;
    while k < tags.len()
        invariant
            k <= tags@.len(),
            string_views(r@) == fold_all(string_views(tags@)).take(k as int),
        decreases tags@.len() - k,
    {
        let ghost before = string_views(r@);
        let low = lowercase(tags[k].as_str());
        r.push(low);
        proof {
            assert(string_views(r@) =~= before.push(lower_of(tags@[k as int]@)));
            assert(string_views(r@) =~= fold_all(string_views(tags@)).take(k + 1));
        }
        k = k + 1;
    }
    proof {
        assert(fold_all(string_views(tags@)).take(k as int) =~= fold_all(string_views(tags@)));
    }
    r
}

/// Path, matched tags and all tags of a search result.
pub type TaggedView = (Seq<char>, Seq<Seq<char>>, Seq<Seq<char>>);

/// Results of a tag search over the first `n` files.
pub open spec fn tag_search(
    files: Seq<FileTags>,
    query: Seq<Seq<char>>,
    match_all: bool,
    n: int,
) -> Seq<TaggedView>
    decreases n,
{
    if n <= 0 {
        seq![]
    } else {
        let prev = tag_search(files, query, match_all, n - 1);
        let f = files[n - 1];
        let m = matched_of(fold_all(string_views(f.tags@)), query, fold_all(query));
        if selected(m, query.len(), match_all) {
            prev.push((f.file_path@, m, string_views(f.tags@)))
        } else {
            prev
        }
    }
}

pub open spec fn tagged_views(r: Seq<TaggedFile>) -> Seq<TaggedView> {
    r.map_values(|t: TaggedFile| (t.file_path@, string_views(t.matched_tags@), string_views(t.all_tags@)))
}

/// Files whose tags hold the query tags without regard to case: all of them
/// with `match_all`, else any. Each result names the query tags that matched,
/// in their query spelling, and the file's own tags. An empty query is refused.
pub fn search_by_tags(files: &Vec<FileTags>, query: &Vec<String>, match_all: bool) -> (r: Result<
    Vec<TaggedFile>,
    String,
>)
    ensures
        r is Err <==> query@.len() == 0,
        match r {
            Ok(v) => tagged_views(v@) == tag_search(
                files@,
                string_views(query@),
                match_all,
                files@.len() as int,
            ) && forall|j: int|
                0 <= j < v@.len() ==> (#[trigger] v@[j]).file_name@ == path_file_name(
                    v@[j].file_path@,
                ),
            Err(_) => true,
        },
{
    if query.len() == 0 {
        return Err(String::from_str("tags cannot be empty"));
    }
    let folded_query = fold_tags(query);
    let mut out: Vec<TaggedFile> = Vec::new();
    let mut k: usize = 0;
    while k < files.len()
        invariant
            k <= files@.len(),
            query@.len() > 0,
            string_views(folded_query@) == fold_all(string_views(query@)),
            tagged_views(out@) == tag_search(files@, string_views(query@), match_all, k as int),
            forall|j: int| 0 <= j < out@.len() ==> (#[trigger] out@[j]).file_name@ == path_file_name(out@[j].file_path@),
        decreases files@.len() - k,
    {
        let f = &files[k];
        let folded = fold_tags(&f.tags);
        let matched = matched_tags_folded(&folded, query, &folded_query);
        let keep = if match_all {
            matched.len() == query.len()
        } else {
            matched.len() > 0
        };
        proof {
            assert(string_views(query@).len() == query@.len());
        }
        if keep {
            let mut all: Vec<String> = Vec::new();
            let mut q: usize = 0;
            while q < f.tags.len()
                invariant
                    q <= f.tags@.len(),
                    string_views(all@) == string_views(f.tags@).take(q as int),
                decreases f.tags@.len() - q,
            {
                let ghost before = string_views(all@);
                let s = f.tags[q].clone();
                all.push(s);
                proof {
                    assert(string_views(all@) =~= before.push(f.tags@[q as int]@));
                    assert(string_views(all@) =~= string_views(f.tags@).take(q + 1));
                }
                q = q + 1;
            }
            proof {
                assert(string_views(f.tags@).take(q as int) =~= string_views(f.tags@));
            }
            let item = TaggedFile {
                file_path: f.file_path.clone(),
                file_name: crate::text::extract_file_name(f.file_path.as_str()),
                matched_tags: matched,
                all_tags: all,
            };
            let ghost before = out@;
            out.push(item);
            proof {
                assert(tagged_views(out@) =~= tagged_views(before).push(
                    (item.file_path@, string_views(item.matched_tags@), string_views(item.all_tags@)),
                ));
                assert forall|j: int| 0 <= j < out@.len() implies (#[trigger] out@[j]).file_name@
                    == path_file_name(out@[j].file_path@) by {
                    if j < before.len() {
                        assert(out@[j] == before[j]);
                    }
                }
            }
        }
        k = k + 1;
    }
    Ok(out)
}

} // verus!

verus! {

/// Some document of `docs` with valid frontmatter lists `t`.
pub open spec fn some_document_has(docs: Seq<String>, t: Seq<char>) -> bool {
    exists|i: int|
        0 <= i < docs.len() && document_tags((#[trigger] docs[i])@) is Some && document_tags(
            docs[i]@,
        )->0.contains(t)
}

impl TagExtractor {
    /// Every frontmatter tag of the documents `docs`, deduplicated and sorted;
    /// a document whose frontmatter is not valid YAML contributes nothing.
    pub fn extract_tags(&self, docs: &Vec<String>) -> (r: Vec<String>)
        ensures
            strictly_sorted(string_views(r@)),
            forall|t: Seq<char>| string_views(r@).contains(t) <==> some_document_has(docs@, t),
    {
        let mut per_file: Vec<Vec<String>> = Vec::new();
        let mut k: usize = 0;
        while k < docs.len()
            invariant
                k <= docs@.len(),
                forall|t: Seq<char>|
                    in_some(files_view(per_file@), t) <==> some_document_has(docs@.take(k as int), t),
            decreases docs@.len() - k,
        {
            let ghost before = per_file@;
            let got = self.extract_tags_from_content(docs[k].as_str());
            proof {
                assert forall|t: Seq<char>| some_document_has(docs@.take(k + 1), t) <==> (
                some_document_has(docs@.take(k as int), t) || (document_tags(docs@[k as int]@) is Some
                    && document_tags(docs@[k as int]@)->0.contains(t))) by {
                    let d1 = docs@.take(k + 1);
                    let d0 = docs@.take(k as int);
                    if some_document_has(d1, t) {
                        let i = choose|i: int| 0 <= i < d1.len() && document_tags((#[trigger] d1[i])@) is Some && document_tags(d1[i]@)->0.contains(t);
                        if i < k {
                            assert(d0[i] == d1[i]);
                        }
                    }
                    if some_document_has(d0, t) {
                        let i = choose|i: int| 0 <= i < d0.len() && document_tags((#[trigger] d0[i])@) is Some && document_tags(d0[i]@)->0.contains(t);
                        assert(d1[i] == d0[i]);
                    }
                    if document_tags(docs@[k as int]@) is Some && document_tags(docs@[k as int]@)->0.contains(t) {
                        assert(d1[k as int] == docs@[k as int]);
                    }
                }
            }
            match got {
                Ok(tags) => {
                    let ghost tv = string_views(tags@);
                    per_file.push(tags);
                    proof {
                        let fv = files_view(per_file@);
                        let f0 = files_view(before);
                        assert(fv =~= f0.push(tv));
                        assert(document_tags(docs@[k as int]@) == Some(tv));
                        assert(fv[f0.len() as int] == tv);
                        assert forall|t: Seq<char>| in_some(fv, t) <==> (in_some(f0, t) || fv[f0.len() as int].contains(t)) by {
                            if in_some(fv, t) {
                                let g = choose|g: int| 0 <= g < fv.len() && (#[trigger] fv[g]).contains(t);
                                if g < f0.len() {
                                    assert(f0[g] == fv[g]);
                                }
                            }
                            if in_some(f0, t) {
                                let g = choose|g: int| 0 <= g < f0.len() && (#[trigger] f0[g]).contains(t);
                                assert(fv[g] == f0[g]);
                            }
                        }
                        assert forall|t: Seq<char>| in_some(fv, t) <==> some_document_has(docs@.take(k + 1), t) by {
                            assert(in_some(f0, t) <==> some_document_has(docs@.take(k as int), t));
                            assert(in_some(fv, t) <==> (in_some(f0, t) || fv[f0.len() as int].contains(t)));
                            assert(some_document_has(docs@.take(k + 1), t) <==> (some_document_has(
                                docs@.take(k as int),
                                t,
                            ) || (document_tags(docs@[k as int]@) is Some && document_tags(
                                docs@[k as int]@,
                            )->0.contains(t))));
                        }
                    }
                },
                Err(_) => {
                    assert(document_tags(docs@[k as int]@) is None);
                    assert forall|t: Seq<char>| in_some(files_view(per_file@), t) <==> some_document_has(docs@.take(k + 1), t) by {
                        assert(per_file@ == before);
                        assert(in_some(files_view(before), t) <==> some_document_has(docs@.take(k as int), t));
                    }
                },
            }
            k = k + 1;
        }
        proof {
            assert(docs@.take(k as int) =~= docs@);
        }
        aggregate_tags(&per_file)
    }
}

/// The tags of a single document whose frontmatter lists `tags` come out as
/// exactly the sorted, duplicate-free arrangement of that list.
pub proof fn lemma_single_document_tags(
    doc: String,
    tags: Seq<Seq<char>>,
    r: Seq<Seq<char>>,
    sorted_unique: Seq<Seq<char>>,
)
    requires
        document_tags(doc@) == Some(tags),
        strictly_sorted(r),
        forall|t: Seq<char>| r.contains(t) <==> some_document_has(seq![doc], t),
        strictly_sorted(sorted_unique),
        forall|t: Seq<char>| sorted_unique.contains(t) <==> tags.contains(t),
    ensures
        r == sorted_unique,
{
    let docs = seq![doc];
    assert forall|t: Seq<char>| r.contains(t) <==> sorted_unique.contains(t) by {
        if some_document_has(docs, t) {
            let i = choose|i: int| 0 <= i < docs.len() && document_tags((#[trigger] docs[i])@) is Some && document_tags(docs[i]@)->0.contains(t);
            assert(i == 0);
        }
        if tags.contains(t) {
            assert(docs[0] == doc);
        }
    }
    lemma_sorted_unique(r, sorted_unique);
}

} // verus!
