//! Folder paths: `/`-separated segments, the empty path being the root.

use vstd::prelude::*;
use crate::text::{blank, is_blank};

verus! {

/// No `/` in `s`.
pub open spec fn no_slash(s: Seq<char>) -> bool {
    forall|i: int| 0 <= i < s.len() ==> s[i] != '/'
}

/// The index of the first `/` in `s`, or its length where there is none.
pub open spec fn slash_pos(s: Seq<char>) -> int {
    if exists|i: int| 0 <= i < s.len() && s[i] == '/' && no_slash(#[trigger] s.take(i)) {
        choose|i: int| 0 <= i < s.len() && s[i] == '/' && no_slash(#[trigger] s.take(i))
    } else {
        s.len() as int
    }
}

/// The first segment of a path: what stands before its first `/`.
pub open spec fn head(s: Seq<char>) -> Seq<char> {
    s.take(slash_pos(s))
}

/// What follows the first `/` of a path (empty where there is no `/`).
pub open spec fn tail(s: Seq<char>) -> Seq<char> {
    if slash_pos(s) < s.len() {
        s.skip(slash_pos(s) + 1)
    } else {
        Seq::empty()
    }
}

/// Every segment of `s` holds a character other than whitespace.
pub open spec fn segments_ok(s: Seq<char>) -> bool
    decreases s.len(),
{
    !blank(head(s)) && (slash_pos(s) < s.len() ==> segments_ok(tail(s)))
}

/// A path that may be stored: the root (the empty path), or segments that are
/// none of them blank. A leading, trailing or doubled `/` makes a blank segment,
/// and so does a path of whitespace alone.
pub open spec fn valid_path(s: Seq<char>) -> bool {
    s.len() == 0 || segments_ok(s)
}

/// The folder a task lands in, as the sequence of folder names from the root:
/// an empty remaining path is the current folder; otherwise the first segment
/// names the subfolder, which must not be blank, and the rest of the path
/// continues from there. `None` where a blank segment is met on the way.
pub open spec fn placement(s: Seq<char>) -> Option<Seq<Seq<char>>>
    decreases s.len(),
{
    if s.len() == 0 {
        Some(Seq::empty())
    } else if blank(head(s)) {
        None
    } else {
        match placement(tail(s)) {
            Some(rest) => Some(seq![head(s)] + rest),
            None => None,
        }
    }
}

pub proof fn lemma_slash_pos(s: Seq<char>, i: int)
    requires
        0 <= i <= s.len(),
        no_slash(s.take(i)),
        i == s.len() || s[i] == '/',
    ensures
        slash_pos(s) == i,
{
    if exists|j: int| 0 <= j < s.len() && s[j] == '/' && no_slash(#[trigger] s.take(j)) {
        let j = choose|j: int| 0 <= j < s.len() && s[j] == '/' && no_slash(#[trigger] s.take(j));
        if j < i {
            assert(s.take(i)[j] == '/');
        } else if j > i {
            assert(s.take(j)[i] == '/');
        }
    } else if i < s.len() {
        assert(0 <= i < s.len() && s[i] == '/' && no_slash(s.take(i)));
    }
}

/// The index of the first `/` in `s`, or its length.
fn find_slash(s: &str) -> (r: usize)
    ensures
        r == slash_pos(s@),
{
    let n = s.unicode_len();
    let mut i: usize = 0;
    while i < n
        invariant
            n == s@.len(),
            i <= n,
            no_slash(s@.take(i as int)),
        decreases n - i,
    {
        if s.get_char(i) == '/' {
            proof {
                lemma_slash_pos(s@, i as int);
            }
            return i;
        }
        assert(s@.take(i as int + 1) =~= s@.take(i as int).push(s@[i as int]));
        i = i + 1;
    }
    proof {
        lemma_slash_pos(s@, n as int);
    }
    n
}

/// The path after its first `/`, and the segment before it.
fn split_first(s: &str) -> (r: (String, String, bool))
    ensures
        r.0@ == head(s@),
        r.1@ == tail(s@),
        r.2 == (slash_pos(s@) < s@.len()),
{
    let n = s.unicode_len();
    let k = find_slash(s);
    let h = String::from_str(s.substring_char(0, k));
    if k < n {
        let t = String::from_str(s.substring_char(k + 1, n));
        (h, t, true)
    } else {
        proof {
            assert(tail(s@) =~= Seq::<char>::empty());
        }
        (h, String::new(), false)
    }
}

fn segments_valid(s: &str) -> (r: bool)
    ensures
        r == segments_ok(s@),
    decreases s@.len(),
{
    let (h, t, more) = split_first(s);
    if is_blank(h.as_str()) {
        return false;
    }
    if !more {
        return true;
    }
    segments_valid(t.as_str())
}

/// Checks a folder path before it is stored: `Ok` exactly for a valid path.
pub fn verify_path(path: String) -> (r: Result<(), crate::error::TaskError>)
    ensures
        r is Ok <==> valid_path(path@),
        r is Err ==> r == Err::<(), _>(crate::error::TaskError::InvalidPath),
{
    if path.as_str().is_empty() {
        return Ok(());
    }
    if segments_valid(path.as_str()) {
        Ok(())
    } else {
        Err(crate::error::TaskError::InvalidPath)
    }
}

/// The folder names from the root to the folder that a task with this path
/// lands in; `None` where the path holds a blank segment on the way.
pub fn path_segments(s: &str) -> (r: Option<Vec<String>>)
    ensures
        r is Some <==> placement(s@) is Some,
        r is Some ==> names(r->Some_0@) == placement(s@)->Some_0,
    decreases s@.len(),
{
    if s.is_empty() {
        proof {
            assert(names(Seq::<String>::empty()) =~= Seq::<Seq<char>>::empty());
        }
        return Some(Vec::new());
    }
    let (h, t, _more) = split_first(s);
    if is_blank(h.as_str()) {
        return None;
    }
    match path_segments(t.as_str()) {
        Some(rest) => {
            let ghost old_rest = rest@;
            let mut v = rest;
            v.insert(0, h);
            proof {
                assert(names(v@) =~= seq![head(s@)] + names(old_rest));
            }
            Some(v)
        },
        None => None,
    }
}

/// The texts of a sequence of names.
pub open spec fn names(v: Seq<String>) -> Seq<Seq<char>> {
    v.map_values(|x: String| x@)
}

} // verus!
