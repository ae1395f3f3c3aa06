//! Pure predicate layer over extracted tasks.
use vstd::prelude::*;
use crate::task::Task;
use crate::text::{seq_lt, str_lt};

verus! {

/// Criteria for narrowing a set of tasks; every criterion given must hold.
#[derive(Debug, Clone)]
pub struct FilterOptions {
    pub status: Option<String>,
    pub due_on: Option<String>,
    pub due_before: Option<String>,
    pub due_after: Option<String>,
    pub completed_on: Option<String>,
    pub completed_before: Option<String>,
    pub completed_after: Option<String>,
    pub tags: Option<Vec<String>>,
    pub exclude_tags: Option<Vec<String>>,
}

pub open spec fn has_tag(tags: Seq<String>, t: Seq<char>) -> bool {
    exists|i: int| 0 <= i < tags.len() && (#[trigger] tags[i])@ == t
}

/// An exact-date criterion: absent, or equal to the task's date.
pub open spec fn on_ok(bound: Option<String>, date: Option<String>) -> bool {
    match bound {
        None => true,
        Some(b) => date is Some && date->0@ == b@,
    }
}

/// A `before` criterion: absent, or the task has a date strictly below it.
pub open spec fn before_ok(bound: Option<String>, date: Option<String>) -> bool {
    match bound {
        None => true,
        Some(b) => date is Some && seq_lt(date->0@, b@),
    }
}

/// An `after` criterion: absent, or the task has a date strictly above it.
pub open spec fn after_ok(bound: Option<String>, date: Option<String>) -> bool {
    match bound {
        None => true,
        Some(b) => date is Some && seq_lt(b@, date->0@),
    }
}

pub open spec fn required_tags_ok(req: Option<Vec<String>>, tags: Seq<String>) -> bool {
    match req {
        None => true,
        Some(r) => all_present(tags, r@),
    }
}

pub open spec fn excluded_tags_ok(ex: Option<Vec<String>>, tags: Seq<String>) -> bool {
    match ex {
        None => true,
        Some(e) => none_present(tags, e@),
    }
}

/// Whether task `t` meets every criterion of `o`.
pub open spec fn task_passes(t: Task, o: FilterOptions) -> bool {
    &&& (o.status is Some ==> t.status@ == o.status->0@)
    &&& on_ok(o.due_on, t.due_date)
    &&& before_ok(o.due_before, t.due_date)
    &&& after_ok(o.due_after, t.due_date)
    &&& on_ok(o.completed_on, t.completed_date)
    &&& before_ok(o.completed_before, t.completed_date)
    &&& after_ok(o.completed_after, t.completed_date)
    &&& required_tags_ok(o.tags, t.tags@)
    &&& excluded_tags_ok(o.exclude_tags, t.tags@)
}

/// The tasks of `ts` that meet `o`, in the order given.
pub open spec fn filtered(ts: Seq<Task>, o: FilterOptions) -> Seq<Task>
    decreases ts.len(),
{
    if ts.len() == 0 {
        seq![]
    } else {
        let r = filtered(ts.drop_last(), o);
        if task_passes(ts.last(), o) {
            r.push(ts.last())
        } else {
            r
        }
    }
}

fn tags_contain(tags: &Vec<String>, t: &String) -> (r: bool)
    ensures
        r == has_tag(tags@, t@),
{
    let mut i: usize = 0;
    while i < tags.len()
        invariant
            i <= tags@.len(),
            forall|j: int| 0 <= j < i ==> (#[trigger] tags@[j])@ != t@,
        decreases tags@.len() - i,
    {
        if tags[i] == *t {
            return true;
        }
        i = i + 1;
    }
    false
}

fn on_check(bound: &Option<String>, date: &Option<String>) -> (r: bool)
    ensures
        r == on_ok(*bound, *date),
{
    match bound {
        None => true,
        Some(b) => match date {
            Some(d) => *d == *b,
            None => false,
        },
    }
}

fn before_check(bound: &Option<String>, date: &Option<String>) -> (r: bool)
    ensures
        r == before_ok(*bound, *date),
{
    match bound {
        None => true,
        Some(b) => match date {
            Some(d) => str_lt(d.as_str(), b.as_str()),
            None => false,
        },
    }
}

fn after_check(bound: &Option<String>, date: &Option<String>) -> (r: bool)
    ensures
        r == after_ok(*bound, *date),
{
    match bound {
        None => true,
        Some(b) => match date {
            Some(d) => str_lt(b.as_str(), d.as_str()),
            None => false,
        },
    }
}

pub open spec fn all_present(tags: Seq<String>, req: Seq<String>) -> bool {
    forall|i: int| 0 <= i < req.len() ==> has_tag(tags, (#[trigger] req[i])@)
}

pub open spec fn none_present(tags: Seq<String>, ex: Seq<String>) -> bool {
    forall|i: int| 0 <= i < ex.len() ==> !has_tag(tags, (#[trigger] ex[i])@)
}

fn all_present_check(tags: &Vec<String>, req: &Vec<String>) -> (r: bool)
    ensures
        r == all_present(tags@, req@),
{
    let mut i: usize = 0;
    while i < req.len()
        invariant
            i <= req@.len(),
            forall|j: int| 0 <= j < i ==> has_tag(tags@, (#[trigger] req@[j])@),
        decreases req@.len() - i,
    {
        if !tags_contain(tags, &req[i]) {
            return false;
        }
        i = i + 1;
    }
    true
}

fn none_present_check(tags: &Vec<String>, ex: &Vec<String>) -> (r: bool)
    ensures
        r == none_present(tags@, ex@),
{
    let mut i: usize = 0;
    while i < ex.len()
        invariant
            i <= ex@.len(),
            forall|j: int| 0 <= j < i ==> !has_tag(tags@, (#[trigger] ex@[j])@),
        decreases ex@.len() - i,
    {
        if tags_contain(tags, &ex[i]) {
            return false;
        }
        i = i + 1;
    }
    true
}

fn required_check(req: &Option<Vec<String>>, tags: &Vec<String>) -> (r: bool)
    ensures
        r == required_tags_ok(*req, tags@),
{
    match req {
        None => true,
        Some(rq) => all_present_check(tags, rq),
    }
}

fn excluded_check(ex: &Option<Vec<String>>, tags: &Vec<String>) -> (r: bool)
    ensures
        r == excluded_tags_ok(*ex, tags@),
{
    match ex {
        None => true,
        Some(e) => none_present_check(tags, e),
    }
}

/// Whether `task` meets every criterion of `options`.
pub fn task_matches(task: &Task, options: &FilterOptions) -> (r: bool)
    ensures
        r == task_passes(*task, *options),
{
    let status_ok = match &options.status {
        Some(s) => task.status == *s,
        None => true,
    };
    status_ok && on_check(&options.due_on, &task.due_date) && before_check(
        &options.due_before,
        &task.due_date,
    ) && after_check(&options.due_after, &task.due_date) && on_check(
        &options.completed_on,
        &task.completed_date,
    ) && before_check(&options.completed_before, &task.completed_date) && after_check(
        &options.completed_after,
        &task.completed_date,
    ) && required_check(&options.tags, &task.tags) && excluded_check(
        &options.exclude_tags,
        &task.tags,
    )
}

/// Keeps the tasks that meet every criterion of `options`, in their order.
pub fn filter_tasks(tasks: Vec<Task>, options: &FilterOptions) -> (r: Vec<Task>)
    ensures
        r@ == filtered(tasks@, *options),
{
    let ghost orig = tasks@;
    let n = tasks.len();
    let mut tasks = tasks;
    let mut rev: Vec<Task> = Vec::new();
    while tasks.len() > 0
        invariant
            n == orig.len(),
            tasks@ == orig.take(tasks@.len() as int),
            tasks@.len() + rev@.len() == n,
            forall|j: int| 0 <= j < rev@.len() ==> #[trigger] rev@[j] == orig[n - 1 - j],
        decreases tasks@.len(),
    {
        let t = tasks.pop().unwrap();
        rev.push(t);
        proof {
            assert(tasks@ =~= orig.take(tasks@.len() as int));
        }
    }
    let mut out: Vec<Task> = Vec::new();
    while rev.len() > 0
        invariant
            n == orig.len(),
            rev@.len() <= n,
            forall|j: int| 0 <= j < rev@.len() ==> #[trigger] rev@[j] == orig[n - 1 - j],
            out@ == filtered(orig.take(n - rev@.len()), *options),
        decreases rev@.len(),
    {
        let ghost k = n - rev@.len();
        let t = rev.pop().unwrap();
        proof {
            assert(orig.take(k + 1).drop_last() =~= orig.take(k));
            assert(orig.take(k + 1).last() == orig[k]);
        }
        if task_matches(&t, options) {
            out.push(t);
        }
    }
    proof {
        assert(orig.take(n as int) =~= orig);
    }
    out
}

/// Filtering is idempotent: applying the same criteria to an already filtered
/// set changes nothing.
pub proof fn lemma_filter_idempotent(tasks: Seq<Task>, options: FilterOptions)
    ensures
        filtered(filtered(tasks, options), options) == filtered(tasks, options),
{
    lemma_filtered_all_pass(tasks, options);
    lemma_filter_keeps_passing(filtered(tasks, options), options);
}

proof fn lemma_filtered_all_pass(ts: Seq<Task>, o: FilterOptions)
    ensures
        forall|i: int|
            0 <= i < filtered(ts, o).len() ==> task_passes(#[trigger] filtered(ts, o)[i], o),
    decreases ts.len(),
{
    if ts.len() > 0 {
        lemma_filtered_all_pass(ts.drop_last(), o);
        let r = filtered(ts.drop_last(), o);
        assert forall|i: int| 0 <= i < filtered(ts, o).len() implies task_passes(
            #[trigger] filtered(ts, o)[i],
            o,
        ) by {
            if i < r.len() {
                assert(filtered(ts, o)[i] == r[i]);
            }
        }
    }
}

proof fn lemma_filter_keeps_passing(ts: Seq<Task>, o: FilterOptions)
    requires
        forall|i: int| 0 <= i < ts.len() ==> task_passes(#[trigger] ts[i], o),
    ensures
        filtered(ts, o) == ts,
    decreases ts.len(),
{
    if ts.len() > 0 {
        lemma_filter_keeps_passing(ts.drop_last(), o);
        assert(ts.drop_last().push(ts.last()) =~= ts);
    }
}

} // verus!
