//! Configuration of the scan: which paths to leave out.
use vstd::prelude::*;
use crate::text::{chars_of, contains, contains_chars, string_of, trim, trim_chars};

verus! {

/// What the scan is told to leave out.
#[derive(Debug, Clone)]
pub struct Config {
    pub exclude_paths: Vec<String>,
}

/// Whether the glob `pattern` compiles and matches `path`.
pub uninterp spec fn glob_match(pattern: Seq<char>, path: Seq<char>) -> bool;

/// Relies on `glob::Pattern::new` and `glob::Pattern::matches`; a pattern that
/// does not compile matches nothing.
#[verifier::external_body]
fn glob_matches(pattern: &str, path: &str) -> (r: bool)
    ensures
        r == glob_match(pattern@, path@),
{
    match glob::Pattern::new(pattern) {
        Ok(p) => p.matches(path),
        Err(_) => false,
    }
}

/// `path` is left out by one of `patterns`: as a glob, or as a substring.
pub open spec fn excluded_by(patterns: Seq<String>, path: Seq<char>) -> bool {
    exists|i: int|
        0 <= i < patterns.len() && (glob_match((#[trigger] patterns[i])@, path) || contains(
            path,
            patterns[i]@,
        ))
}

/// The trimmed, non-empty items of a comma-separated list, in order.
pub open spec fn list_items(pieces: Seq<Seq<char>>) -> Seq<Seq<char>>
    decreases pieces.len(),
{
    if pieces.len() == 0 {
        seq![]
    } else if trim(pieces.last()).len() > 0 {
        list_items(pieces.drop_last()).push(trim(pieces.last()))
    } else {
        list_items(pieces.drop_last())
    }
}

/// The pieces of `s` between commas.
pub open spec fn split_commas(s: Seq<char>) -> Seq<Seq<char>>
    decreases s.len(),
{
    if s.len() == 0 {
        seq![seq![]]
    } else {
        let p = split_commas(s.drop_last());
        if s.last() == ',' {
            p.push(seq![])
        } else {
            p.update(p.len() - 1, p.last().push(s.last()))
        }
    }
}

proof fn lemma_split_commas_nonempty(s: Seq<char>)
    ensures
        split_commas(s).len() >= 1,
    decreases s.len(),
{
    if s.len() > 0 {
        lemma_split_commas_nonempty(s.drop_last());
    }
}

impl Default for Config {
    fn default() -> (r: Self)
        ensures
            r.exclude_paths@.len() == 0,
    {
        Config { exclude_paths: Vec::new() }
    }
}

impl Config {
    /// A configuration that leaves nothing out.
    pub fn new() -> (r: Self)
        ensures
            r.exclude_paths@.len() == 0,
    {
        Config { exclude_paths: Vec::new() }
    }

    /// Whether `path` matches one of the exclusion patterns, as a glob or as a
    /// plain substring.
    pub fn should_exclude(&self, path: &str) -> (r: bool)
        ensures
            r == excluded_by(self.exclude_paths@, path@),
    {
        let p = chars_of(path);
        let mut i: usize = 0;
        while i < self.exclude_paths.len()
            invariant
                i <= self.exclude_paths@.len(),
                p@ == path@,
                forall|j: int|
                    0 <= j < i ==> !(glob_match((#[trigger] self.exclude_paths@[j])@, path@)
                        || contains(path@, self.exclude_paths@[j]@)),
            decreases self.exclude_paths@.len() - i,
        {
            let pat = self.exclude_paths[i].as_str();
            if glob_matches(pat, path) || contains_chars(&p, &chars_of(pat)) {
                return true;
            }
            i = i + 1;
        }
        false
    }

    /// Adds the trimmed, non-empty items of the comma-separated `list` to the
    /// exclusion patterns.
    pub fn merge_exclude_list(&mut self, list: &str)
        ensures
            crate::text::string_views(final(self).exclude_paths@) == crate::text::string_views(
                old(self).exclude_paths@,
            ) + list_items(split_commas(list@)),
    {
        let s = chars_of(list);
        let ghost base = crate::text::string_views(self.exclude_paths@);
        let mut cur: Vec<char> = Vec::new();
        let mut i: usize = 0;
        proof {
            assert(s@.take(0) =~= seq![]);
        }
        while i < s.len()
            invariant
                i <= s@.len(),
                s@ == list@,
                ({
                    let p = split_commas(s@.take(i as int));
                    &&& p.len() >= 1
                    &&& cur@ == p.last()
                    &&& crate::text::string_views(self.exclude_paths@) == base + list_items(
                        p.drop_last(),
                    )
                }),
            decreases s@.len() - i,
        {
            proof {
                assert(s@.take(i + 1).drop_last() =~= s@.take(i as int));
                lemma_split_commas_nonempty(s@.take(i as int));
            }
            if s[i] == ',' {
                let t = trim_chars(&cur);
                if t.len() > 0 {
                    let ghost before = crate::text::string_views(self.exclude_paths@);
                    self.exclude_paths.push(string_of(&t));
                    proof {
                        assert(crate::text::string_views(self.exclude_paths@) =~= before.push(t@));
                    }
                }
                cur = Vec::new();
                proof {
                    let p = split_commas(s@.take(i as int));
                    let q = split_commas(s@.take(i + 1));
                    assert(q == p.push(seq![]));
                    assert(q.drop_last() =~= p);
                    assert(p =~= p.drop_last().push(p.last()));
                }
            } else {
                cur.push(s[i]);
                proof {
                    let p = split_commas(s@.take(i as int));
                    let q = split_commas(s@.take(i + 1));
                    assert(q.drop_last() =~= p.drop_last());
                }
            }
            i = i + 1;
        }
        let t = trim_chars(&cur);
        proof {
            assert(s@.take(i as int) =~= s@);
        }
        if t.len() > 0 {
            let ghost before = crate::text::string_views(self.exclude_paths@);
            self.exclude_paths.push(string_of(&t));
            proof {
                assert(crate::text::string_views(self.exclude_paths@) =~= before.push(t@));
            }
        }
        proof {
            let p = split_commas(list@);
            assert(p =~= p.drop_last().push(p.last()));
        }
    }
}

} // verus!
