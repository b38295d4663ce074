//! Choosing the tasks that a listing shows, and laying out a task's text.

use vstd::prelude::*;
use crate::task::{views, Task, TaskView};

verus! {

broadcast use vstd::std_specs::vec::group_vec_axioms;

/// Where a task filed under `folder` stands relative to the listed folder
/// `filter`: the empty filter lists every task as it is; otherwise a task of
/// the folder itself stands at the root (`""`), one of a folder below it at the
/// path that follows `filter/`, and any other task is not listed (`None`).
pub open spec fn relative(folder: Seq<char>, filter: Seq<char>) -> Option<Seq<char>> {
    if filter.len() == 0 {
        Some(folder)
    } else if folder == filter {
        Some(Seq::empty())
    } else if folder.len() > filter.len() && folder.take(filter.len() as int) == filter
        && folder[filter.len() as int] == '/' {
        Some(folder.skip(filter.len() as int + 1))
    } else {
        None
    }
}

/// The tasks of `l` that a listing of `filter` shows, in the order of `l`, each
/// with its folder made relative to `filter`.
pub open spec fn selected(l: Seq<TaskView>, filter: Seq<char>) -> Seq<TaskView>
    decreases l.len(),
{
    if l.len() == 0 {
        Seq::empty()
    } else {
        let rest = selected(l.drop_last(), filter);
        let t = l.last();
        match relative(t.folder, filter) {
            Some(r) => rest.push(TaskView { folder: r, ..t }),
            None => rest,
        }
    }
}

/// The path of `folder` relative to the listed folder `filter`, if it is listed.
pub fn relative_folder(folder: &str, filter: &str) -> (r: Option<String>)
    ensures
        r is Some <==> relative(folder@, filter@) is Some,
        r matches Some(s) ==> s@ == relative(folder@, filter@)->Some_0,
{
    let nf = filter.unicode_len();
    let n = folder.unicode_len();
    if nf == 0 {
        return Some(String::from_str(folder));
    }
    if n < nf {
        return None;
    }
    let mut i: usize = 0;
    while i < nf
        invariant
            nf == filter@.len(),
            n == folder@.len(),
            nf <= n,
            i <= nf,
            folder@.take(i as int) == filter@.take(i as int),
        decreases nf - i,
    {
        if folder.get_char(i) != filter.get_char(i) {
            proof {
                assert(folder@.take(nf as int)[i as int] != filter@[i as int]);
                assert(folder@ != filter@);
            }
            return None;
        }
        assert(folder@.take(i as int + 1) =~= folder@.take(i as int).push(folder@[i as int]));
        assert(filter@.take(i as int + 1) =~= filter@.take(i as int).push(filter@[i as int]));
        i = i + 1;
    }
    assert(filter@.take(nf as int) =~= filter@);
    if n == nf {
        assert(folder@ =~= filter@);
        return Some(String::new());
    }
    if folder.get_char(nf) == '/' {
        Some(String::from_str(folder.substring_char(nf + 1, n)))
    } else {
        None
    }
}

/// The tasks that a listing of `filter` shows, in the order given, each with
/// its folder made relative to `filter`; body, id and status are kept.
pub fn select_under(tasks: &Vec<Task>, filter: &str) -> (r: Vec<Task>)
    ensures
        views(r@) == selected(views(tasks@), filter@),
{
    let mut out: Vec<Task> = Vec::new();
    let n = tasks.len();
    let mut i: usize = 0;
    while i < n
        invariant
            n == tasks@.len(),
            i <= n,
            views(out@) == selected(views(tasks@).take(i as int), filter@),
        decreases n - i,
    {
        let t = &tasks[i];
        let ghost l1 = views(tasks@).take(i as int + 1);
        proof {
            assert(l1.drop_last() =~= views(tasks@).take(i as int));
            assert(l1.last() == t@);
        }
        match relative_folder(t.folder.as_str(), filter) {
            Some(rel) => {
                let ghost before = out@;
                out.push(Task::new(rel, t.task.clone(), t.id, t.status.clone()));
                proof {
                    assert(views(out@) =~= views(before).push(out@.last()@));
                }
            },
            None => {},
        }
        i = i + 1;
    }
    proof {
        assert(views(tasks@).take(n as int) =~= views(tasks@));
    }
    out
}

/// The width that a task's text is laid out in.
pub const TASK_WIDTH: usize = 25;

/// `s` followed by spaces up to `width` characters.
pub open spec fn padded(s: Seq<char>, width: nat) -> Seq<char> {
    if s.len() < width {
        s + Seq::new((width - s.len()) as nat, |i: int| ' ')
    } else {
        s
    }
}

/// What `textwrap::fill` makes of a text at a given width.
pub uninterp spec fn wrapped(s: Seq<char>, width: nat) -> Seq<char>;

/// Relies on `textwrap::fill`: the text broken into lines of at most `width`
/// columns, a result that depends on the text and the width alone.
#[verifier::external_body]
fn fill_text(s: &str, width: usize) -> (r: String)
    ensures
        r@ == wrapped(s@, width as nat),
{
    textwrap::fill(s, width)
}

/// A task's text as it is shown: padded with spaces to the column width, then
/// broken into lines of that width.
pub fn format_task(task: &str) -> (r: String)
    ensures
        r@ == wrapped(padded(task@, TASK_WIDTH as nat), TASK_WIDTH as nat),
{
    let mut result = String::from_str(task);
    let n = task.unicode_len();
    let mut k: usize = n;
    while k < TASK_WIDTH
        invariant
            n == task@.len(),
            n <= k <= TASK_WIDTH || (n > TASK_WIDTH && k == n),
            result@ == task@ + Seq::new((k - n) as nat, |i: int| ' '),
        decreases TASK_WIDTH - k,
    {
        let ghost before = result@;
        result.append(" ");
        proof {
            reveal_strlit(" ");
            assert(result@ =~= before + seq![' ']);
            assert(result@ =~= task@ + Seq::new((k + 1 - n) as nat, |i: int| ' '));
        }
        k = k + 1;
    }
    proof {
        if n >= TASK_WIDTH {
            assert(result@ =~= task@);
        }
    }
    fill_text(result.as_str(), TASK_WIDTH)
}

} // verus!
