//! Properties that relate the library's functions to one another.

use vstd::prelude::*;
use crate::folder::{
    all_placed, filed, has_child, has_node, is_prefix, lemma_child_at, lemma_lex_irreflexive, lemma_lex_transitive,
    lex_lt, reached, sorted_names, tasks_at, tasks_in, Folder, Subfolder, wf,
};
use crate::path::{head, lemma_slash_pos, no_slash, placement, segments_ok, slash_pos, tail, valid_path};
use crate::render::{renders, Row};
use crate::task::TaskView;

verus! {

broadcast use vstd::std_specs::vec::group_vec_axioms;

/// The ids of a list of tasks are distinct, as those of stored tasks are.
pub open spec fn ids_distinct(l: Seq<TaskView>) -> bool {
    forall|i: int, j: int| 0 <= i < j < l.len() ==> #[trigger] l[i].id != #[trigger] l[j].id
}

/// The task at `k` of `tasks_in(l, p)` is one of `l`, as it stands in its
/// folder, and its path leads to `p`.
proof fn lemma_tasks_in_member(l: Seq<TaskView>, p: Seq<Seq<char>>, k: int)
    requires
        0 <= k < tasks_in(l, p).len(),
    ensures
        exists|j: int|
            0 <= j < l.len() && placement(l[j].folder) == Some(p) && tasks_in(l, p)[k] == filed(
                #[trigger] l[j],
            ),
{
    let pred = |t: TaskView| placement(t.folder) == Some(p);
    l.lemma_filter_pred(pred, k);
    assert(l.filter(pred).contains(l.filter(pred)[k]));
    l.lemma_filter_contains_rev(pred, l.filter(pred)[k]);
    let j = choose|j: int| 0 <= j < l.len() && l[j] == l.filter(pred)[k];
    assert(placement(l[j].folder) == Some(p) && tasks_in(l, p)[k] == filed(l[j]));
}

/// The task of `l` at `i`, as it stands in its folder, is among the tasks of
/// the folder that its path leads to.
proof fn lemma_tasks_in_has(l: Seq<TaskView>, i: int)
    requires
        0 <= i < l.len(),
        placement(l[i].folder) is Some,
    ensures
        tasks_in(l, placement(l[i].folder)->Some_0).contains(filed(l[i])),
{
    let home = placement(l[i].folder)->Some_0;
    let pred = |t: TaskView| placement(t.folder) == Some(home);
    l.lemma_filter_contains(pred, i);
    let m = choose|m: int| 0 <= m < l.filter(pred).len() && l.filter(pred)[m] == l[i];
    assert(tasks_in(l, home)[m] == filed(l[i]));
}

/// Each task of a list that `build` accepted, with ids distinct, is filed in
/// the folder that its path names, and no other folder of the tree holds a
/// task with its id.
pub proof fn lemma_task_filed_once(l: Seq<TaskView>, f: Folder, i: int, p: Seq<Seq<char>>)
    requires
        forall|q: Seq<Seq<char>>| #[trigger] tasks_at(f, q) == tasks_in(l, q),
        ids_distinct(l),
        0 <= i < l.len(),
        placement(l[i].folder) is Some,
    ensures
        p == placement(l[i].folder)->Some_0 ==> tasks_at(f, p).contains(filed(l[i])),
        (exists|k: int| 0 <= k < tasks_at(f, p).len() && (#[trigger] tasks_at(f, p)[k]).id == l[i].id)
            <==> p == placement(l[i].folder)->Some_0,
{
    let home = placement(l[i].folder)->Some_0;
    assert(tasks_at(f, home) == tasks_in(l, home));
    lemma_tasks_in_has(l, i);
    let m = choose|m: int| 0 <= m < tasks_in(l, home).len() && tasks_in(l, home)[m] == filed(l[i]);
    assert(tasks_at(f, home)[m].id == l[i].id);
    assert(tasks_at(f, p) == tasks_in(l, p));
    if exists|k: int| 0 <= k < tasks_at(f, p).len() && (#[trigger] tasks_at(f, p)[k]).id == l[i].id {
        let k = choose|k: int| 0 <= k < tasks_at(f, p).len() && (#[trigger] tasks_at(f, p)[k]).id == l[i].id;
        lemma_tasks_in_member(l, p, k);
        let j = choose|j: int|
            0 <= j < l.len() && placement(l[j].folder) == Some(p) && tasks_in(l, p)[k] == filed(
                #[trigger] l[j],
            );
        if j < i {
            assert(l[j].id != l[i].id);
        } else if j > i {
            assert(l[i].id != l[j].id);
        }
    }
}

/// A task that `add_task` accepted is added to exactly one folder, the one its
/// path names, as the last of its tasks; every other folder keeps its tasks.
pub proof fn lemma_add_task_filed_once(
    before: Folder,
    after: Folder,
    t: TaskView,
    p: Seq<Seq<char>>,
)
    requires
        placement(t.folder) is Some,
        forall|q: Seq<Seq<char>>| #[trigger]
            tasks_at(after, q) == if q == placement(t.folder)->Some_0 {
                tasks_at(before, q).push(filed(t))
            } else {
                tasks_at(before, q)
            },
    ensures
        tasks_at(after, p).len() == tasks_at(before, p).len() + if p == placement(t.folder)->Some_0 {
            1int
        } else {
            0int
        },
        p == placement(t.folder)->Some_0 ==> tasks_at(after, p).last() == filed(t),
        tasks_at(before, p) == tasks_at(after, p).take(tasks_at(before, p).len() as int),
{
    assert(tasks_at(after, p) == if p == placement(t.folder)->Some_0 {
        tasks_at(before, p).push(filed(t))
    } else {
        tasks_at(before, p)
    });
    assert(tasks_at(before, p) =~= tasks_at(after, p).take(tasks_at(before, p).len() as int));
}

/// The first `/` of `s` stands at or before any `/` of it.
proof fn lemma_first_slash(s: Seq<char>, j: int)
    requires
        0 <= j < s.len(),
        s[j] == '/',
    ensures
        slash_pos(s) <= j,
        s[slash_pos(s)] == '/',
        no_slash(s.take(slash_pos(s))),
    decreases j,
{
    if no_slash(s.take(j)) {
        lemma_slash_pos(s, j);
    } else {
        let m = choose|m: int| 0 <= m < s.take(j).len() && s.take(j)[m] == '/';
        lemma_first_slash(s, m);
    }
}

/// A path whose first character is `/` has a blank first segment.
proof fn lemma_leading_slash(s: Seq<char>)
    requires
        s.len() > 0,
        s[0] == '/',
    ensures
        !segments_ok(s),
{
    lemma_slash_pos(s, 0);
    assert(head(s) =~= Seq::<char>::empty());
}

proof fn lemma_trailing_slash(s: Seq<char>)
    requires
        s.len() > 0,
        s[s.len() - 1] == '/',
    ensures
        !segments_ok(s),
    decreases s.len(),
{
    lemma_first_slash(s, s.len() - 1);
    let k = slash_pos(s);
    if k < s.len() - 1 {
        assert(tail(s)[tail(s).len() - 1] == '/');
        lemma_trailing_slash(tail(s));
    } else {
        let e = Seq::<char>::empty();
        assert(tail(s) =~= e);
        lemma_slash_pos(e, 0);
        assert(head(e) =~= e);
        assert(!segments_ok(e));
        assert(!segments_ok(tail(s)));
    }
}

proof fn lemma_double_slash(s: Seq<char>, j: int)
    requires
        0 <= j,
        j + 1 < s.len(),
        s[j] == '/',
        s[j + 1] == '/',
    ensures
        !segments_ok(s),
    decreases s.len(),
{
    lemma_first_slash(s, j);
    let k = slash_pos(s);
    if k == j {
        lemma_leading_slash(tail(s));
    } else {
        assert(tail(s)[j - k - 1] == '/');
        assert(tail(s)[j - k] == '/');
        lemma_double_slash(tail(s), j - k - 1);
    }
}

/// A path with a leading `/`, a trailing `/` or a doubled `/` is not valid, so
/// `verify_path` refuses it; a valid one it accepts.
pub proof fn lemma_malformed_paths(s: Seq<char>)
    ensures
        (s.len() > 0 && s[0] == '/') ==> !valid_path(s),
        (s.len() > 0 && s[s.len() - 1] == '/') ==> !valid_path(s),
        (exists|j: int| 0 <= j && j + 1 < s.len() && s[j] == '/' && #[trigger] s[j + 1] == '/')
            ==> !valid_path(s),
{
    if s.len() > 0 && s[s.len() - 1] == '/' {
        lemma_trailing_slash(s);
    }
    if s.len() > 0 && s[0] == '/' {
        lemma_leading_slash(s);
    }
    if exists|j: int| 0 <= j && j + 1 < s.len() && s[j] == '/' && #[trigger] s[j + 1] == '/' {
        let j = choose|j: int| 0 <= j && j + 1 < s.len() && s[j] == '/' && #[trigger] s[j + 1] == '/';
        lemma_double_slash(s, j);
    }
}

/// Rendered with one level, a folder shows no subfolder: each stands as a
/// hidden row, and every other row is one of the folder's own tasks.
pub proof fn lemma_depth_one_hides(f: Folder, rows: Seq<Row>)
    requires
        renders(f, 1, rows),
    ensures
        forall|i: int| 0 <= i < f.subfolders@.len() ==> (#[trigger] rows[i]) is Hidden,
        forall|i: int|
            0 <= i < rows.len() ==> !((#[trigger] rows[i]) is Folder) && (rows[i] is Task ==> exists|j: int|
                0 <= j < f.tasks@.len() && rows[i]->Task_0@ == #[trigger] f.tasks@[j]@),
{
    let ns = f.subfolders@.len();
    assert forall|i: int| 0 <= i < rows.len() implies !((#[trigger] rows[i]) is Folder) && (
    rows[i] is Task ==> exists|j: int|
        0 <= j < f.tasks@.len() && rows[i]->Task_0@ == #[trigger] f.tasks@[j]@) by {
        if i >= ns {
            assert(rows[ns + (i - ns)] == rows[i]);
        }
    }
}

/// `d` is at least the height of `f`: no path down from `f` passes through
/// more than `d` folders, `f` included.
pub open spec fn height_within(f: Folder, d: int) -> bool
    decreases f,
{
    d >= 1 && forall|i: int|
        0 <= i < f.subfolders@.len() ==> height_within(#[trigger] f.subfolders@[i].folder, d - 1)
}

/// Every subfolder row, at every level of `rows`, is expanded.
pub open spec fn all_expanded(f: Folder, rows: Seq<Row>) -> bool
    decreases f,
{
    forall|i: int|
        0 <= i < f.subfolders@.len() ==> (#[trigger] rows[i]) is Folder && all_expanded(
            f.subfolders@[i].folder,
            rows[i]->Folder_rows@,
        )
}

/// Rendered with at least as many levels as the tree is high, a folder shows
/// everything: no subfolder row anywhere is left hidden.
pub proof fn lemma_full_depth_shows_all(f: Folder, d: int, rows: Seq<Row>)
    requires
        height_within(f, d),
        renders(f, d, rows),
    ensures
        all_expanded(f, rows),
    decreases f,
{
    assert forall|i: int| 0 <= i < f.subfolders@.len() implies (#[trigger] rows[i]) is Folder
        && all_expanded(f.subfolders@[i].folder, rows[i]->Folder_rows@) by {
        assert(height_within(f.subfolders@[i].folder, d - 1));
        assert(d > 1);
        lemma_full_depth_shows_all(f.subfolders@[i].folder, d - 1, rows[i]->Folder_rows@);
    }
}


/// Some subfolder of `s` is named `n`.
pub open spec fn has_name(s: Seq<Subfolder>, n: Seq<char>) -> bool {
    exists|i: int| 0 <= i < s.len() && (#[trigger] s[i]).name@ == n
}

/// Two sorted sequences of subfolders with the same names have them at the
/// same places.
proof fn lemma_same_names(s1: Seq<Subfolder>, s2: Seq<Subfolder>)
    requires
        sorted_names(s1),
        sorted_names(s2),
        forall|n: Seq<char>|
            #![trigger has_name(s1, n)]
            #![trigger has_name(s2, n)]
            has_name(s1, n) == has_name(s2, n),
    ensures
        s1.len() == s2.len(),
        forall|i: int| 0 <= i < s1.len() ==> (#[trigger] s1[i]).name@ == s2[i].name@,
    decreases s1.len() + s2.len(),
{
    if s1.len() == 0 || s2.len() == 0 {
        if s1.len() > 0 {
            assert(has_name(s1, s1[0].name@));
        }
        if s2.len() > 0 {
            assert(has_name(s2, s2[0].name@));
        }
        return;
    }
    let a = s1[0].name@;
    let b = s2[0].name@;
    assert(has_name(s1, a));
    assert(has_name(s2, b));
    let j = choose|j: int| 0 <= j < s2.len() && (#[trigger] s2[j]).name@ == a;
    let i = choose|i: int| 0 <= i < s1.len() && (#[trigger] s1[i]).name@ == b;
    lemma_lex_irreflexive(a);
    if j > 0 && i > 0 {
        assert(lex_lt(s2[0].name@, s2[j].name@));
        assert(lex_lt(s1[0].name@, s1[i].name@));
        lemma_lex_transitive(a, b, a);
    } else if j > 0 {
        assert(lex_lt(s2[0].name@, s2[j].name@));
    } else if i > 0 {
        assert(lex_lt(s1[0].name@, s1[i].name@));
    }
    assert(a == b);
    let t1 = s1.drop_first();
    let t2 = s2.drop_first();
    assert forall|n: Seq<char>|
        #![trigger has_name(t1, n)]
        #![trigger has_name(t2, n)]
        has_name(t1, n) == has_name(t2, n) by {
        if has_name(t1, n) {
            let k = choose|k: int| 0 <= k < t1.len() && (#[trigger] t1[k]).name@ == n;
            assert(s1[k + 1] == t1[k]);
            assert(lex_lt(s1[0].name@, s1[k + 1].name@));
            assert(has_name(s1, n));
            let m = choose|m: int| 0 <= m < s2.len() && (#[trigger] s2[m]).name@ == n;
            if m == 0 {
                lemma_lex_irreflexive(n);
            }
            assert(t2[m - 1] == s2[m]);
        }
        if has_name(t2, n) {
            let k = choose|k: int| 0 <= k < t2.len() && (#[trigger] t2[k]).name@ == n;
            assert(s2[k + 1] == t2[k]);
            assert(lex_lt(s2[0].name@, s2[k + 1].name@));
            assert(has_name(s2, n));
            let m = choose|m: int| 0 <= m < s1.len() && (#[trigger] s1[m]).name@ == n;
            if m == 0 {
                lemma_lex_irreflexive(n);
            }
            assert(t1[m - 1] == s1[m]);
        }
    }
    lemma_same_names(t1, t2);
    assert forall|k: int| 0 <= k < s1.len() implies (#[trigger] s1[k]).name@ == s2[k].name@ by {
        if k > 0 {
            assert(s1[k] == t1[k - 1]);
            assert(s2[k] == t2[k - 1]);
        }
    }
}

/// Two well-formed trees that hold the same folders and the same tasks in each
/// render alike.
proof fn lemma_renders_determined(f1: Folder, f2: Folder, d: int, rows: Seq<Row>)
    requires
        wf(f1),
        wf(f2),
        forall|p: Seq<Seq<char>>| #[trigger] tasks_at(f1, p) == tasks_at(f2, p),
        forall|p: Seq<Seq<char>>| #[trigger] has_node(f1, p) == has_node(f2, p),
        renders(f1, d, rows),
    ensures
        renders(f2, d, rows),
    decreases d,
{
    let s1 = f1.subfolders@;
    let s2 = f2.subfolders@;
    assert forall|n: Seq<char>|
        #![trigger has_name(s1, n)]
        #![trigger has_name(s2, n)]
        has_name(s1, n) == has_name(s2, n) by {
        let p = seq![n];
        assert(p[0] == n);
        assert(p.drop_first() =~= Seq::<Seq<char>>::empty());
        assert(has_node(f1, p) == has_node(f2, p));
        assert(has_node(crate::folder::child(f1, n), p.drop_first()));
        assert(has_node(crate::folder::child(f2, n), p.drop_first()));
        assert(has_node(f1, p) == has_child(f1, n));
        assert(has_node(f2, p) == has_child(f2, n));
    }
    lemma_same_names(s1, s2);
    let e = Seq::<Seq<char>>::empty();
    assert(tasks_at(f1, e) == tasks_at(f2, e));
    assert(f1.tasks@.len() == f2.tasks@.len());
    assert forall|j: int| 0 <= j < f2.tasks@.len() implies f1.tasks@[j]@ == (
    #[trigger] f2.tasks@[j])@ by {
        assert(tasks_at(f1, e)[j] == tasks_at(f2, e)[j]);
    }
    let ns = s1.len();
    assert forall|j: int| 0 <= j < f2.tasks@.len() implies (#[trigger] rows[ns + j]) is Task
        && rows[ns + j]->Task_0@ == f2.tasks@[j]@ by {
        assert(f1.tasks@[j]@ == f2.tasks@[j]@);
    }
    if d > 1 {
        assert forall|i: int| 0 <= i < ns implies renders(
            s2[i].folder,
            d - 1,
            (#[trigger] rows[i])->Folder_rows@,
        ) by {
            let n = s1[i].name@;
            lemma_child_at(f1, i);
            lemma_child_at(f2, i);
            let c1 = s1[i].folder;
            let c2 = s2[i].folder;
            assert forall|q: Seq<Seq<char>>| #[trigger] tasks_at(c1, q) == tasks_at(c2, q) by {
                let p = seq![n] + q;
                assert(p.drop_first() =~= q);
                assert(tasks_at(f1, p) == tasks_at(f2, p));
            }
            assert forall|q: Seq<Seq<char>>| #[trigger] has_node(c1, q) == has_node(c2, q) by {
                let p = seq![n] + q;
                assert(p.drop_first() =~= q);
                assert(has_node(f1, p) == has_node(f2, p));
            }
            lemma_renders_determined(c1, c2, d - 1, rows[i]->Folder_rows@);
        }
    }
}

proof fn lemma_reached_kept(l1: Seq<TaskView>, l2: Seq<TaskView>, p: Seq<Seq<char>>)
    requires
        all_placed(l1),
        forall|q: Seq<Seq<char>>| #[trigger] tasks_in(l1, q) == tasks_in(l2, q),
        reached(l1, p),
    ensures
        reached(l2, p),
{
    if p.len() > 0 {
        let i = choose|i: int|
            0 <= i < l1.len() && is_prefix(p, (#[trigger] placement(l1[i].folder))->Some_0);
        let home = placement(l1[i].folder)->Some_0;
        lemma_tasks_in_has(l1, i);
        assert(tasks_in(l1, home) == tasks_in(l2, home));
        let k = choose|k: int| 0 <= k < tasks_in(l2, home).len() && tasks_in(l2, home)[k] == filed(l1[i]);
        lemma_tasks_in_member(l2, home, k);
        let j = choose|j: int|
            0 <= j < l2.len() && placement(l2[j].folder) == Some(home) && tasks_in(l2, home)[k]
                == filed(#[trigger] l2[j]);
        assert(is_prefix(p, (placement(l2[j].folder))->Some_0));
    }
}

/// Two lists that agree folder by folder, however the tasks of different
/// folders are interleaved, build the same tree: the same folders, and the same
/// tasks in the same order in each.
pub proof fn lemma_build_order_free(
    l1: Seq<TaskView>,
    l2: Seq<TaskView>,
    f1: Folder,
    f2: Folder,
)
    requires
        forall|q: Seq<Seq<char>>| #[trigger] tasks_in(l1, q) == tasks_in(l2, q),
        all_placed(l1),
        all_placed(l2),
        forall|p: Seq<Seq<char>>| #[trigger] tasks_at(f1, p) == tasks_in(l1, p),
        forall|p: Seq<Seq<char>>| #[trigger] has_node(f1, p) == reached(l1, p),
        forall|p: Seq<Seq<char>>| #[trigger] tasks_at(f2, p) == tasks_in(l2, p),
        forall|p: Seq<Seq<char>>| #[trigger] has_node(f2, p) == reached(l2, p),
    ensures
        forall|p: Seq<Seq<char>>| #[trigger] tasks_at(f1, p) == tasks_at(f2, p),
        forall|p: Seq<Seq<char>>| #[trigger] has_node(f1, p) == has_node(f2, p),
{
    assert forall|p: Seq<Seq<char>>| #[trigger] tasks_at(f1, p) == tasks_at(f2, p) by {
        assert(tasks_in(l1, p) == tasks_in(l2, p));
    }
    assert forall|p: Seq<Seq<char>>| #[trigger] has_node(f1, p) == has_node(f2, p) by {
        if reached(l1, p) {
            lemma_reached_kept(l1, l2, p);
        }
        if reached(l2, p) {
            lemma_reached_kept(l2, l1, p);
        }
    }
}

/// The rendering of the tree built from a list depends on the tasks of each
/// folder and their order alone: two lists that agree folder by folder,
/// however the tasks of different folders are interleaved, render alike.
pub proof fn lemma_render_deterministic(
    l1: Seq<TaskView>,
    l2: Seq<TaskView>,
    f1: Folder,
    f2: Folder,
    d: int,
    rows: Seq<Row>,
)
    requires
        forall|q: Seq<Seq<char>>| #[trigger] tasks_in(l1, q) == tasks_in(l2, q),
        all_placed(l1),
        all_placed(l2),
        wf(f1),
        wf(f2),
        forall|p: Seq<Seq<char>>| #[trigger] tasks_at(f1, p) == tasks_in(l1, p),
        forall|p: Seq<Seq<char>>| #[trigger] has_node(f1, p) == reached(l1, p),
        forall|p: Seq<Seq<char>>| #[trigger] tasks_at(f2, p) == tasks_in(l2, p),
        forall|p: Seq<Seq<char>>| #[trigger] has_node(f2, p) == reached(l2, p),
        renders(f1, d, rows),
    ensures
        renders(f2, d, rows),
{
    lemma_build_order_free(l1, l2, f1, f2);
    lemma_renders_determined(f1, f2, d, rows);
}

} // verus!
