//! The decisions of the delete and update commands.

use vstd::prelude::*;
use crate::error::TaskError;
use crate::path::{valid_path, verify_path};
use crate::task::Task;
use crate::text::{blank, char_is_space, is_blank, is_space};

verus! {

broadcast use vstd::std_specs::vec::group_vec_axioms;

/// The fields that an update sets; a field left `None` keeps its value.
#[derive(Debug)]
pub struct UpdatePlan {
    pub task: Option<String>,
    pub folder: Option<String>,
    pub status: Option<String>,
}

/// Checks an update before anything is written: `InvalidPath` where the new
/// folder is not a valid path, `NoUpdateFields` where nothing is to change,
/// and otherwise the plan that sets exactly the fields given.
pub fn plan_update(task: Option<String>, folder: Option<String>, status: Option<String>) -> (r:
    Result<UpdatePlan, TaskError>)
    ensures
        (folder matches Some(p) && !valid_path(p@)) ==> r == Err::<UpdatePlan, TaskError>(
            TaskError::InvalidPath,
        ),
        (task is None && folder is None && status is None) ==> r == Err::<UpdatePlan, TaskError>(
            TaskError::NoUpdateFields,
        ),
        r is Ok <==> (!(task is None && folder is None && status is None) && (folder matches Some(
            p,
        ) ==> valid_path(p@))),
        r matches Ok(plan) ==> plan.task == task && plan.folder == folder && plan.status == status,
{
    match &folder {
        Some(p) => {
            if verify_path(p.clone()).is_err() {
                return Err(TaskError::InvalidPath);
            }
        },
        None => {},
    }
    if task.is_none() && folder.is_none() && status.is_none() {
        return Err(TaskError::NoUpdateFields);
    }
    Ok(UpdatePlan { task, folder, status })
}

/// The position of the first task with the given id; `NotFound` exactly when
/// no task has it.
pub fn find_task(tasks: &Vec<Task>, id: i64) -> (r: Result<usize, TaskError>)
    ensures
        r matches Ok(k) ==> k < tasks@.len() && tasks@[k as int].id == id && forall|m: int|
            0 <= m < k ==> tasks@[m].id != id,
        r is Err <==> forall|m: int| 0 <= m < tasks@.len() ==> tasks@[m].id != id,
        r is Err ==> r == Err::<usize, TaskError>(TaskError::NotFound),
{
    let n = tasks.len();
    let mut i: usize = 0;
    while i < n
        invariant
            n == tasks@.len(),
            i <= n,
            forall|m: int| 0 <= m < i ==> tasks@[m].id != id,
        decreases n - i,
    {
        if tasks[i].id == id {
            return Ok(i);
        }
        i = i + 1;
    }
    Err(TaskError::NotFound)
}

/// `s` is `w` with whitespace, or nothing, on either side: it trims to `w`.
pub open spec fn trims_to(s: Seq<char>, w: Seq<char>) -> bool {
    exists|i: int|
        0 <= i && i + w.len() <= s.len() && #[trigger] blank(s.take(i)) && s.subrange(i, i + w.len())
            == w && blank(s.skip(i + w.len()))
}

/// The index of the first character of `s` that is not whitespace, or its length.
fn first_non_space(s: &str) -> (r: usize)
    ensures
        r <= s@.len(),
        blank(s@.take(r as int)),
        r < s@.len() ==> !is_space(s@[r as int]),
{
    let n = s.unicode_len();
    let mut i: usize = 0;
    while i < n
        invariant
            n == s@.len(),
            i <= n,
            blank(s@.take(i as int)),
        decreases n - i,
    {
        if !char_is_space(s.get_char(i)) {
            return i;
        }
        assert(s@.take(i as int + 1) =~= s@.take(i as int).push(s@[i as int]));
        i = i + 1;
    }
    i
}

/// Whether `s` trims to the word `w`, which starts with a character that is
/// not whitespace.
fn trims_to_word(s: &str, w: &str) -> (r: bool)
    requires
        w@.len() > 0,
        !is_space(w@[0]),
    ensures
        r == trims_to(s@, w@),
{
    let n = s.unicode_len();
    let nw = w.unicode_len();
    let a = first_non_space(s);
    if nw > n - a {
        proof {
            if trims_to(s@, w@) {
                let i = choose|i: int|
                    0 <= i && i + w@.len() <= s@.len() && #[trigger] blank(s@.take(i)) && s@.subrange(
                        i,
                        i + w@.len(),
                    ) == w@ && blank(s@.skip(i + w@.len()));
                if i < a {
                    assert(s@.subrange(i, i + w@.len())[0] == s@[i]);
                    assert(s@.take(a as int)[i] == s@[i]);
                }
            }
        }
        return false;
    }
    let middle = s.substring_char(a, a + nw);
    let rest = s.substring_char(a + nw, n);
    let r = middle.unicode_len() == nw && is_eq(middle, w) && is_blank(rest);
    proof {
        assert(rest@ =~= s@.skip(a + w@.len()));
        if trims_to(s@, w@) {
            let i = choose|i: int|
                0 <= i && i + w@.len() <= s@.len() && #[trigger] blank(s@.take(i)) && s@.subrange(
                    i,
                    i + w@.len(),
                ) == w@ && blank(s@.skip(i + w@.len()));
            if i < a {
                assert(s@.subrange(i, i + w@.len())[0] == s@[i]);
                assert(s@.take(a as int)[i] == s@[i]);
            } else if i > a {
                assert(s@.take(i)[a as int] == s@[a as int]);
            }
        }
        if r {
            assert(0 <= a && a + w@.len() <= s@.len() && blank(s@.take(a as int)));
        }
    }
    r
}

/// Whether two texts are equal.
fn is_eq(a: &str, b: &str) -> (r: bool)
    ensures
        r == (a@ == b@),
{
    let n = a.unicode_len();
    if n != b.unicode_len() {
        return false;
    }
    let mut i: usize = 0;
    while i < n
        invariant
            n == a@.len(),
            n == b@.len(),
            i <= n,
            a@.take(i as int) == b@.take(i as int),
        decreases n - i,
    {
        if a.get_char(i) != b.get_char(i) {
            assert(a@[i as int] != b@[i as int]);
            return false;
        }
        assert(a@.take(i as int + 1) =~= a@.take(i as int).push(a@[i as int]));
        assert(b@.take(i as int + 1) =~= b@.take(i as int).push(b@[i as int]));
        i = i + 1;
    }
    assert(a@ =~= a@.take(n as int));
    assert(b@ =~= b@.take(n as int));
    true
}

/// Whether an answer, already upper-cased, says yes: it trims to `Y` or `YES`.
pub fn is_yes(upper: &str) -> (r: bool)
    ensures
        r == (trims_to(upper@, seq!['Y']) || trims_to(upper@, seq!['Y', 'E', 'S'])),
{
    let y = "Y";
    let yes = "YES";
    proof {
        reveal_strlit("Y");
        reveal_strlit("YES");
        assert(y@ =~= seq!['Y']);
        assert(yes@ =~= seq!['Y', 'E', 'S']);
    }
    trims_to_word(upper, y) || trims_to_word(upper, yes)
}

/// What `str::to_uppercase` makes of a text.
pub uninterp spec fn upper_of(s: Seq<char>) -> Seq<char>;

/// Relies on `str::to_uppercase`: the text upper-cased by the Unicode case
/// mapping, a result that depends on the text alone.
#[verifier::external_body]
fn uppercase(s: &str) -> (r: String)
    ensures
        r@ == upper_of(s@),
{
    s.to_uppercase()
}

/// Whether the answer to the deletion prompt confirms it: upper-cased, it
/// trims to `Y` or `YES`.
pub fn confirms(answer: &str) -> (r: bool)
    ensures
        r == (trims_to(upper_of(answer@), seq!['Y']) || trims_to(
            upper_of(answer@),
            seq!['Y', 'E', 'S'],
        )),
{
    let upper = uppercase(answer);
    is_yes(upper.as_str())
}

} // verus!
