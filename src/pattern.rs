//! Daily-note file names: `YYYY`, `MM` and `DD` placeholders filled from a date,
//! and the choice among the files that exist.
use vstd::prelude::*;
use crate::dates::{day_of, month_of, padded, parse_date, valid_date, year_of};
use crate::text::{chars_of, occurs_at, starts_with_at, string_of};

verus! {

/// `s` from position `i` on with each occurrence of `from`, left to right and
/// not overlapping, replaced by `to`.
pub open spec fn replace_from(s: Seq<char>, from: Seq<char>, to: Seq<char>, i: int) -> Seq<char>
    decreases s.len() - i,
{
    if i < 0 || i >= s.len() || from.len() == 0 {
        if 0 <= i < s.len() {
            s.skip(i)
        } else {
            seq![]
        }
    } else if occurs_at(s, from, i) {
        to + replace_from(s, from, to, i + from.len())
    } else {
        seq![s[i]] + replace_from(s, from, to, i + 1)
    }
}

pub open spec fn replace_all(s: Seq<char>, from: Seq<char>, to: Seq<char>) -> Seq<char> {
    replace_from(s, from, to, 0)
}

pub open spec fn yyyy() -> Seq<char> {
    seq!['Y', 'Y', 'Y', 'Y']
}

pub open spec fn mm() -> Seq<char> {
    seq!['M', 'M']
}

pub open spec fn dd() -> Seq<char> {
    seq!['D', 'D']
}

/// `pattern` with `YYYY`, then `MM`, then `DD` replaced by the zero-padded
/// year, month and day of `date`.
pub open spec fn pattern_for(pattern: Seq<char>, date: Seq<char>) -> Seq<char> {
    replace_all(
        replace_all(
            replace_all(pattern, yyyy(), padded(year_of(date), 4)),
            mm(),
            padded(month_of(date), 2),
        ),
        dd(),
        padded(day_of(date), 2),
    )
}

fn replace_all_exec(s: &Vec<char>, from: &Vec<char>, to: &Vec<char>) -> (r: Vec<char>)
    requires
        from@.len() > 0,
    ensures
        r@ == replace_all(s@, from@, to@),
{
    let mut r: Vec<char> = Vec::new();
    let mut i: usize = 0;
    while i < s.len()
        invariant
            i <= s@.len(),
            from@.len() > 0,
            r@ + replace_from(s@, from@, to@, i as int) == replace_all(s@, from@, to@),
        decreases s@.len() - i,
    {
        if starts_with_at(s, i, from) {
            let ghost before = r@;
            let mut k: usize = 0;
            while k < to.len()
                invariant
                    k <= to@.len(),
                    r@ == before + to@.take(k as int),
                decreases to@.len() - k,
            {
                r.push(to[k]);
                proof {
                    assert(r@ =~= before + to@.take(k + 1));
                }
                k = k + 1;
            }
            proof {
                assert(to@.take(k as int) =~= to@);
                assert(before + (to@ + replace_from(s@, from@, to@, i + from@.len())) =~= r@
                    + replace_from(s@, from@, to@, i + from@.len()));
            }
            i = i + from.len();
        } else {
            let ghost before = r@;
            r.push(s[i]);
            proof {
                assert(before + (seq![s@[i as int]] + replace_from(s@, from@, to@, i + 1)) =~= r@
                    + replace_from(s@, from@, to@, i + 1));
            }
            i = i + 1;
        }
    }
    proof {
        assert(r@ + replace_from(s@, from@, to@, i as int) =~= r@);
    }
    r
}

fn padded_chars(v: u32, width: usize) -> (r: Vec<char>)
    ensures
        r@ == padded(v as nat, width as nat),
{
    let mut out: Vec<char> = Vec::new();
    crate::dates::push_padded(&mut out, v as u64, width);
    assert(out@ =~= padded(v as nat, width as nat));
    out
}

/// `pattern` with its `YYYY`, `MM` and `DD` placeholders filled from `date`;
/// `None` when `date` is not a valid date.
pub fn apply_pattern(pattern: &str, date: &str) -> (r: Option<String>)
    ensures
        r is Some <==> valid_date(date@),
        match r {
            Some(p) => p@ == pattern_for(pattern@, date@),
            None => true,
        },
{
    match parse_date(date) {
        None => None,
        Some(t) => {
            let y = vec!['Y', 'Y', 'Y', 'Y'];
            let m = vec!['M', 'M'];
            let d = vec!['D', 'D'];
            assert(y@ =~= yyyy());
            assert(m@ =~= mm());
            assert(d@ =~= dd());
            let p = chars_of(pattern);
            let s1 = replace_all_exec(&p, &y, &padded_chars(t.0, 4));
            let s2 = replace_all_exec(&s1, &m, &padded_chars(t.1, 2));
            let s3 = replace_all_exec(&s2, &d, &padded_chars(t.2, 2));
            Some(string_of(&s3))
        },
    }
}

/// The note paths, relative to the vault, that `patterns` give for `date`, in
/// pattern order; an error naming the first pattern that cannot be filled.
pub fn daily_note_candidates(date: &str, patterns: &Vec<String>) -> (r: Result<Vec<String>, String>)
    ensures
        r is Ok <==> (patterns@.len() == 0 || valid_date(date@)),
        match r {
            Ok(v) => v@.len() == patterns@.len() && forall|i: int|
                0 <= i < v@.len() ==> (#[trigger] v@[i])@ == pattern_for(patterns@[i]@, date@),
            Err(_) => true,
        },
{
    let mut out: Vec<String> = Vec::new();
    let mut k: usize = 0;
    while k < patterns.len()
        invariant
            k <= patterns@.len(),
            k > 0 ==> valid_date(date@),
            out@.len() == k,
            forall|i: int| 0 <= i < k ==> (#[trigger] out@[i])@ == pattern_for(patterns@[i]@, date@),
        decreases patterns@.len() - k,
    {
        match apply_pattern(patterns[k].as_str(), date) {
            Some(p) => {
                out.push(p);
            },
            None => {
                let mut msg = String::from_str("Invalid pattern: ");
                msg.append(patterns[k].as_str());
                return Err(msg);
            },
        }
        k = k + 1;
    }
    Ok(out)
}

/// Whether all of `found` name one path.
pub open spec fn one_path(found: Seq<String>) -> bool {
    forall|i: int| 0 <= i < found.len() ==> (#[trigger] found[i])@ == found[0]@
}

/// The one daily note among the existing candidate paths `found` (two patterns
/// that give the same path count once): none when there is none, an error when
/// they name different files.
pub fn select_daily_note(date: &str, found: Vec<String>) -> (r: Result<Option<String>, String>)
    ensures
        found@.len() == 0 ==> r == Ok::<Option<String>, String>(None),
        r is Err <==> !one_path(found@),
        found@.len() > 0 && one_path(found@) ==> match r {
            Ok(Some(p)) => p@ == found@[0]@,
            _ => false,
        },
{
    if found.len() == 0 {
        return Ok(None);
    }
    let mut k: usize = 1;
    while k < found.len()
        invariant
            1 <= k <= found@.len(),
            forall|i: int| 0 <= i < k ==> (#[trigger] found@[i])@ == found@[0]@,
        decreases found@.len() - k,
    {
        if found[k] != found[0] {
            let mut msg = String::from_str("Multiple daily notes found for date ");
            msg.append(date);
            msg.append(": ");
            let mut q: usize = 0;
            while q < found.len()
                invariant
                    q <= found@.len(),
                decreases found@.len() - q,
            {
                if q > 0 {
                    msg.append(", ");
                }
                msg.append(found[q].as_str());
                q = q + 1;
            }
            assert(found@[k as int]@ != found@[0]@);
            return Err(msg);
        }
        k = k + 1;
    }
    Ok(Some(found[0].clone()))
}

} // verus!
