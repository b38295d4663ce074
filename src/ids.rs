//! Task ids: small numbers drawn at random until a free one comes up.

use vstd::prelude::*;
use crate::error::TaskError;
use rand::Rng;

verus! {

broadcast use vstd::std_specs::vec::group_vec_axioms;

/// How many random draws are made before the smallest free id is taken instead.
pub const ID_DRAWS: usize = 64;

/// `id` may be given to a new task: it is in `0..=255` and no stored task has it.
pub open spec fn free_id(used: Seq<i64>, id: int) -> bool {
    0 <= id <= u8::MAX && !used.contains(id as i64)
}

/// The smallest free id from `c` on.
pub open spec fn lowest_free(used: Seq<i64>, c: int) -> Option<u8>
    decreases u8::MAX + 1 - c,
{
    if c < 0 || c > u8::MAX {
        None
    } else if free_id(used, c) {
        Some(c as u8)
    } else {
        lowest_free(used, c + 1)
    }
}

/// The id picked from the draws: the first draw that is free, else the
/// smallest free id, else none.
pub open spec fn pick(used: Seq<i64>, draws: Seq<u8>) -> Option<u8>
    decreases draws.len(),
{
    if draws.len() == 0 {
        lowest_free(used, 0)
    } else if free_id(used, draws[0] as int) {
        Some(draws[0])
    } else {
        pick(used, draws.drop_first())
    }
}

pub proof fn lemma_lowest_free(used: Seq<i64>, c: int)
    requires
        0 <= c,
    ensures
        lowest_free(used, c) matches Some(id) ==> free_id(used, id as int),
        lowest_free(used, c) is None <==> forall|id: int| c <= id <= u8::MAX ==> !free_id(used, id),
    decreases u8::MAX + 1 - c,
{
    if c <= u8::MAX && !free_id(used, c) {
        lemma_lowest_free(used, c + 1);
    }
}

/// The id picked is free, and none is picked exactly when every id is taken.
pub proof fn lemma_pick(used: Seq<i64>, draws: Seq<u8>)
    ensures
        pick(used, draws) matches Some(id) ==> free_id(used, id as int),
        pick(used, draws) is None <==> forall|id: int| 0 <= id <= u8::MAX ==> !free_id(used, id),
    decreases draws.len(),
{
    lemma_lowest_free(used, 0);
    if draws.len() > 0 {
        lemma_pick(used, draws.drop_first());
    }
}

fn is_used(used: &Vec<i64>, id: i64) -> (r: bool)
    ensures
        r == used@.contains(id),
{
    let n = used.len();
    let mut i: usize = 0;
    while i < n
        invariant
            n == used@.len(),
            i <= n,
            forall|k: int| 0 <= k < i ==> used@[k] != id,
        decreases n - i,
    {
        if used[i] == id {
            return true;
        }
        i = i + 1;
    }
    false
}

/// Picks an id given the stored ids and a sequence of draws: the first draw
/// that is free, else the smallest free id; `IdSpaceExhausted` when every id in
/// `0..=255` is taken.
pub fn choose_id(used: &Vec<i64>, draws: &Vec<u8>) -> (r: Result<u8, TaskError>)
    ensures
        r == match pick(used@, draws@) {
            Some(id) => Ok::<u8, TaskError>(id),
            None => Err(TaskError::IdSpaceExhausted),
        },
{
    let n = draws.len();
    let mut i: usize = 0;
    assert(draws@.skip(0) =~= draws@);
    while i < n
        invariant
            n == draws@.len(),
            i <= n,
            pick(used@, draws@) == pick(used@, draws@.skip(i as int)),
        decreases n - i,
    {
        let d = draws[i];
        proof {
            assert(draws@.skip(i as int)[0] == d);
            assert(draws@.skip(i as int).drop_first() =~= draws@.skip(i as int + 1));
        }
        if !is_used(used, d as i64) {
            return Ok(d);
        }
        i = i + 1;
    }
    let mut c: u16 = 0;
    while c <= 255
        invariant
            c <= 256,
            pick(used@, draws@) == lowest_free(used@, c as int),
        decreases 256 - c,
    {
        if !is_used(used, c as i64) {
            return Ok(c as u8);
        }
        c = c + 1;
    }
    Err(TaskError::IdSpaceExhausted)
}

/// Relies on `rand::Rng::gen` over the thread-local generator: a random `u8`,
/// of which nothing more is known.
#[verifier::external_body]
fn draw_id() -> (r: u8) {
    rand::thread_rng().gen()
}

/// A free id for a new task, drawn at random; `IdSpaceExhausted` exactly when
/// every id is taken.
pub fn allocate_id(used: &Vec<i64>) -> (r: Result<u8, TaskError>)
    ensures
        r matches Ok(id) ==> free_id(used@, id as int),
        r is Err <==> forall|id: int| 0 <= id <= u8::MAX ==> !free_id(used@, id),
        r is Err ==> r == Err::<u8, TaskError>(TaskError::IdSpaceExhausted),
{
    let mut draws: Vec<u8> = Vec::new();
    let mut i: usize = 0;
    while i < ID_DRAWS
        invariant
            i <= ID_DRAWS,
        decreases ID_DRAWS - i,
    {
        draws.push(draw_id());
        i = i + 1;
    }
    proof {
        lemma_pick(used@, draws@);
    }
    choose_id(used, &draws)
}

} // verus!
