//! The folder tree, rebuilt from the flat list of stored tasks.

use vstd::prelude::*;
use crate::error::TaskError;
use crate::path::{names, path_segments, placement};
use crate::task::{views, Task, TaskView};

verus! {

broadcast use vstd::std_specs::vec::group_vec_axioms;

/// A named child of a folder.
#[derive(Debug)]
pub struct Subfolder {
    pub name: String,
    pub folder: Folder,
}

/// A folder: the tasks filed directly in it, in the order they were added, and
/// its subfolders, in increasing order of name.
#[derive(Debug)]
pub struct Folder {
    pub tasks: Vec<Task>,
    pub subfolders: Vec<Subfolder>,
}

/// Strict lexicographic order of texts by code point, which is the order of
/// `String`'s bytes.
pub open spec fn lex_lt(a: Seq<char>, b: Seq<char>) -> bool
    decreases a.len(),
{
    if a.len() == 0 {
        b.len() > 0
    } else if b.len() == 0 {
        false
    } else if a[0] != b[0] {
        a[0] < b[0]
    } else {
        lex_lt(a.drop_first(), b.drop_first())
    }
}

pub open spec fn sorted_names(subs: Seq<Subfolder>) -> bool {
    forall|i: int, j: int|
        0 <= i < j < subs.len() ==> lex_lt(#[trigger] subs[i].name@, #[trigger] subs[j].name@)
}

/// Every folder of the tree keeps its subfolders in increasing order of name.
pub open spec fn wf(f: Folder) -> bool
    decreases f,
{
    sorted_names(f.subfolders@) && forall|i: int|
        0 <= i < f.subfolders@.len() ==> wf(#[trigger] f.subfolders@[i].folder)
}

pub open spec fn has_child(f: Folder, n: Seq<char>) -> bool {
    exists|i: int| 0 <= i < f.subfolders@.len() && (#[trigger] f.subfolders@[i]).name@ == n
}

pub open spec fn child_index(f: Folder, n: Seq<char>) -> int {
    choose|i: int| 0 <= i < f.subfolders@.len() && (#[trigger] f.subfolders@[i]).name@ == n
}

pub open spec fn child(f: Folder, n: Seq<char>) -> Folder {
    f.subfolders@[child_index(f, n)].folder
}

/// The tasks filed directly in the folder reached from `f` by the names `p`
/// (none where there is no such folder).
pub open spec fn tasks_at(f: Folder, p: Seq<Seq<char>>) -> Seq<TaskView>
    decreases p.len(),
{
    if p.len() == 0 {
        views(f.tasks@)
    } else if has_child(f, p[0]) {
        tasks_at(child(f, p[0]), p.drop_first())
    } else {
        Seq::empty()
    }
}

/// Whether the names `p` lead from `f` to a folder.
pub open spec fn has_node(f: Folder, p: Seq<Seq<char>>) -> bool
    decreases p.len(),
{
    p.len() == 0 || (has_child(f, p[0]) && has_node(child(f, p[0]), p.drop_first()))
}

pub open spec fn is_prefix(p: Seq<Seq<char>>, q: Seq<Seq<char>>) -> bool {
    p.len() <= q.len() && q.take(p.len() as int) == p
}

pub proof fn lemma_lex_irreflexive(a: Seq<char>)
    ensures
        !lex_lt(a, a),
    decreases a.len(),
{
    if a.len() > 0 {
        lemma_lex_irreflexive(a.drop_first());
    }
}

pub proof fn lemma_lex_transitive(a: Seq<char>, b: Seq<char>, c: Seq<char>)
    requires
        lex_lt(a, b),
        lex_lt(b, c),
    ensures
        lex_lt(a, c),
    decreases a.len(),
{
    if a.len() > 0 && b.len() > 0 && c.len() > 0 && a[0] == b[0] && b[0] == c[0] {
        lemma_lex_transitive(a.drop_first(), b.drop_first(), c.drop_first());
    }
}

pub proof fn lemma_lex_total(a: Seq<char>, b: Seq<char>)
    requires
        a != b,
    ensures
        lex_lt(a, b) || lex_lt(b, a),
    decreases a.len(),
{
    if a.len() > 0 && b.len() > 0 && a[0] == b[0] {
        if a.drop_first() == b.drop_first() {
            assert(a =~= seq![a[0]] + a.drop_first());
            assert(b =~= seq![b[0]] + b.drop_first());
        }
        lemma_lex_total(a.drop_first(), b.drop_first());
    } else if a.len() == 0 && b.len() == 0 {
        assert(a =~= b);
    }
}

/// In a folder with sorted names, the subfolder at `i` is the child of its name.
pub proof fn lemma_child_at(f: Folder, i: int)
    requires
        sorted_names(f.subfolders@),
        0 <= i < f.subfolders@.len(),
    ensures
        has_child(f, f.subfolders@[i].name@),
        child(f, f.subfolders@[i].name@) == f.subfolders@[i].folder,
{
    let n = f.subfolders@[i].name@;
    assert(0 <= i < f.subfolders@.len() && f.subfolders@[i].name@ == n);
    let j = child_index(f, n);
    if j < i {
        lemma_lex_irreflexive(n);
        assert(lex_lt(f.subfolders@[j].name@, f.subfolders@[i].name@));
    } else if j > i {
        lemma_lex_irreflexive(n);
        assert(lex_lt(f.subfolders@[i].name@, f.subfolders@[j].name@));
    }
}


pub proof fn lemma_empty_folder(f: Folder, p: Seq<Seq<char>>)
    requires
        f.tasks@.len() == 0,
        f.subfolders@.len() == 0,
    ensures
        tasks_at(f, p) == Seq::<TaskView>::empty(),
        has_node(f, p) == (p.len() == 0),
{
    if p.len() == 0 {
        assert(views(f.tasks@) =~= Seq::<TaskView>::empty());
    }
}

/// Replacing the subfolder at `idx` by one of the same name keeps every other child.
proof fn lemma_child_kept_update(fa: Folder, fb: Folder, idx: int, n: Seq<char>)
    requires
        sorted_names(fa.subfolders@),
        sorted_names(fb.subfolders@),
        0 <= idx < fa.subfolders@.len(),
        fb.subfolders@ == fa.subfolders@.update(idx, fb.subfolders@[idx]),
        fb.subfolders@[idx].name@ == fa.subfolders@[idx].name@,
        n != fa.subfolders@[idx].name@,
    ensures
        has_child(fb, n) == has_child(fa, n),
        has_child(fa, n) ==> child(fb, n) == child(fa, n),
{
    if has_child(fa, n) {
        let i = child_index(fa, n);
        lemma_child_at(fa, i);
        assert(fb.subfolders@[i] == fa.subfolders@[i]);
        lemma_child_at(fb, i);
    }
    if has_child(fb, n) {
        let i = child_index(fb, n);
        assert(fb.subfolders@[i] == fa.subfolders@[i]);
        lemma_child_at(fa, i);
    }
}

/// Inserting a subfolder of another name at `idx` keeps every other child.
proof fn lemma_child_kept_insert(fa: Folder, fb: Folder, idx: int, n: Seq<char>)
    requires
        sorted_names(fa.subfolders@),
        sorted_names(fb.subfolders@),
        0 <= idx <= fa.subfolders@.len(),
        fb.subfolders@ == fa.subfolders@.insert(idx, fb.subfolders@[idx]),
        n != fb.subfolders@[idx].name@,
    ensures
        has_child(fb, n) == has_child(fa, n),
        has_child(fa, n) ==> child(fb, n) == child(fa, n),
{
    if has_child(fa, n) {
        let i = child_index(fa, n);
        lemma_child_at(fa, i);
        let j = if i < idx { i } else { i + 1 };
        assert(fb.subfolders@[j] == fa.subfolders@[i]);
        lemma_child_at(fb, j);
    }
    if has_child(fb, n) {
        let j = child_index(fb, n);
        let i = if j < idx { j } else { j - 1 };
        assert(fb.subfolders@[j] == fa.subfolders@[i]);
        lemma_child_at(fa, i);
    }
}

/// Whether `a` comes before `b` in the order of `lex_lt`.
fn name_lt(a: &str, b: &str) -> (r: bool)
    ensures
        r == lex_lt(a@, b@),
{
    let na = a.unicode_len();
    let nb = b.unicode_len();
    let mut i: usize = 0;
    assert(a@.skip(0) =~= a@);
    assert(b@.skip(0) =~= b@);
    while i < na && i < nb
        invariant
            na == a@.len(),
            nb == b@.len(),
            i <= na,
            i <= nb,
            lex_lt(a@, b@) == lex_lt(a@.skip(i as int), b@.skip(i as int)),
        decreases na - i,
    {
        let ca = a.get_char(i);
        let cb = b.get_char(i);
        if ca != cb {
            return ca < cb;
        }
        assert(a@.skip(i as int).drop_first() =~= a@.skip(i as int + 1));
        assert(b@.skip(i as int).drop_first() =~= b@.skip(i as int + 1));
        i = i + 1;
    }
    i == na && i < nb
}

/// Where a subfolder named `name` stands, or would stand, among sorted subfolders.
fn locate(subs: &Vec<Subfolder>, name: &str) -> (r: (usize, bool))
    requires
        sorted_names(subs@),
    ensures
        r.0 <= subs@.len(),
        forall|j: int| 0 <= j < r.0 ==> lex_lt(#[trigger] subs@[j].name@, name@),
        r.1 ==> r.0 < subs@.len() && subs@[r.0 as int].name@ == name@,
        !r.1 ==> forall|j: int| r.0 <= j < subs@.len() ==> lex_lt(name@, #[trigger] subs@[j].name@),
{
    let n = subs.len();
    let mut i: usize = 0;
    while i < n
        invariant
            n == subs@.len(),
            i <= n,
            sorted_names(subs@),
            forall|j: int| 0 <= j < i ==> lex_lt(#[trigger] subs@[j].name@, name@),
        decreases n - i,
    {
        if !name_lt(subs[i].name.as_str(), name) {
            if subs[i].name.as_str().unicode_len() == name.unicode_len() && !name_lt(name, subs[i].name.as_str()) {
                proof {
                    if subs@[i as int].name@ != name@ {
                        lemma_lex_total(subs@[i as int].name@, name@);
                    }
                }
                return (i, true);
            }
            proof {
                if subs@[i as int].name@ == name@ {
                    lemma_lex_irreflexive(name@);
                }
                lemma_lex_total(subs@[i as int].name@, name@);
                assert forall|j: int| i <= j < subs@.len() implies lex_lt(name@, #[trigger] subs@[j].name@) by {
                    if j > i {
                        lemma_lex_transitive(name@, subs@[i as int].name@, subs@[j].name@);
                    }
                }
            }
            return (i, false);
        }
        i = i + 1;
    }
    (n, false)
}

impl Folder {
    /// A folder with no tasks and no subfolders.
    pub fn new() -> (r: Folder)
        ensures
            r.tasks@.len() == 0,
            r.subfolders@.len() == 0,
            wf(r),
    {
        Folder { tasks: Vec::new(), subfolders: Vec::new() }
    }

    /// Files `task` in the folder reached by the names `segs` from index `k`
    /// on, making the folders on the way that do not exist yet.
    fn insert_at(&mut self, segs: &Vec<String>, k: usize, task: Task)
        requires
            wf(*old(self)),
            k <= segs@.len(),
        ensures
            wf(*final(self)),
            forall|p: Seq<Seq<char>>| #[trigger]
                tasks_at(*final(self), p) == if p == names(segs@).skip(k as int) {
                    tasks_at(*old(self), p).push(filed(task@))
                } else {
                    tasks_at(*old(self), p)
                },
            forall|p: Seq<Seq<char>>| #[trigger]
                has_node(*final(self), p) == (has_node(*old(self), p) || is_prefix(
                    p,
                    names(segs@).skip(k as int),
                )),
        decreases segs@.len() - k,
    {
        let ghost f0 = *self;
        let ghost target = names(segs@).skip(k as int);
        let ghost tv = task@;
        if k == segs.len() {
            let mut task = task;
            task.folder = String::new();
            self.tasks.push(task);
            proof {
                assert(self.subfolders@ =~= f0.subfolders@);
                assert(target.len() == 0);
                assert forall|p: Seq<Seq<char>>| #[trigger]
                    tasks_at(*self, p) == if p == target {
                        tasks_at(f0, p).push(filed(tv))
                    } else {
                        tasks_at(f0, p)
                    } by {
                    if p.len() == 0 {
                        assert(p =~= target);
                        assert(views(self.tasks@) =~= views(f0.tasks@).push(filed(tv)));
                    } else {
                        assert(has_child(*self, p[0]) == has_child(f0, p[0]));
                    }
                }
                assert forall|p: Seq<Seq<char>>| #[trigger]
                    has_node(*self, p) == (has_node(f0, p) || is_prefix(p, target)) by {
                    if p.len() > 0 {
                        assert(has_child(*self, p[0]) == has_child(f0, p[0]));
                    }
                }
            }
            return;
        }
        let (idx, found) = locate(&self.subfolders, segs[k].as_str());
        if !found {
            let sub = Subfolder { name: segs[k].clone(), folder: Folder::new() };
            self.subfolders.insert(idx, sub);
            proof {
                assert forall|i: int, j: int|
                    0 <= i < j < self.subfolders@.len() implies lex_lt(
                    #[trigger] self.subfolders@[i].name@,
                    #[trigger] self.subfolders@[j].name@,
                ) by {
                    if i < idx && j > idx {
                        lemma_lex_transitive(
                            self.subfolders@[i].name@,
                            segs@[k as int]@,
                            self.subfolders@[j].name@,
                        );
                    }
                }
            }
        }
        let ghost f1 = *self;
        let mut sub = self.subfolders.remove(idx);
        let ghost sub0 = sub.folder;
        proof {
            lemma_child_at(f1, idx as int);
            assert(wf(sub0));
        }
        sub.folder.insert_at(segs, k + 1, task);
        self.subfolders.insert(idx, sub);
        proof {
            let name = segs@[k as int]@;
            assert(target[0] == name);
            assert(names(segs@).skip(k as int + 1) =~= target.drop_first());
            assert(self.subfolders@ =~= f1.subfolders@.update(idx as int, self.subfolders@[idx as int]));
            assert(sorted_names(self.subfolders@));
            assert(wf(*self));
            lemma_child_at(*self, idx as int);
            if !found {
                assert(f1.subfolders@ =~= f0.subfolders@.insert(idx as int, f1.subfolders@[idx as int]));
                assert(!has_child(f0, name)) by {
                    if has_child(f0, name) {
                        let i = child_index(f0, name);
                        lemma_lex_irreflexive(name);
                    }
                }
            } else {
                lemma_child_at(f0, idx as int);
                assert(f1 == f0);
            }
            let ghost fin = *self;
            assert forall|p: Seq<Seq<char>>|
                #![trigger tasks_at(fin, p)]
                #![trigger has_node(fin, p)]
                tasks_at(fin, p) == (if p == target {
                    tasks_at(f0, p).push(filed(tv))
                } else {
                    tasks_at(f0, p)
                }) && has_node(fin, p) == (has_node(f0, p) || is_prefix(p, target)) by {
                if p.len() > 0 {
                    let q = p.drop_first();
                    if p[0] != name {
                        lemma_child_kept_update(f1, fin, idx as int, p[0]);
                        if !found {
                            lemma_child_kept_insert(f0, f1, idx as int, p[0]);
                        }
                        assert(p != target);
                        if is_prefix(p, target) {
                            assert(target.take(p.len() as int)[0] == p[0]);
                        }
                    } else {
                        if !found {
                            lemma_empty_folder(sub0, q);
                        }
                        assert(child(fin, name) == fin.subfolders@[idx as int].folder);
                        assert(tasks_at(fin, p) == tasks_at(fin.subfolders@[idx as int].folder, q));
                        assert(has_node(fin, p) == has_node(fin.subfolders@[idx as int].folder, q));
                        assert(p =~= seq![name] + q);
                        assert(target =~= seq![name] + target.drop_first());
                        assert((q == target.drop_first()) == (p == target));
                        if q.len() == 0 {
                            assert(target.drop_first().take(0) =~= q);
                            assert(target.take(1) =~= p);
                        }
                        if is_prefix(p, target) {
                            assert(target.drop_first().take(q.len() as int) =~= q);
                        }
                        if is_prefix(q, target.drop_first()) {
                            assert(target.take(p.len() as int) =~= p);
                        }
                    }
                } else {
                    assert(p != target);
                    assert(fin.tasks@ == f0.tasks@);
                    assert(is_prefix(p, target)) by {
                        assert(target.take(0) =~= p);
                    }
                }
            }
        }
    }
}


/// A task as it stands in its folder: the path that led there is used up, so
/// its folder is empty.
pub open spec fn filed(t: TaskView) -> TaskView {
    TaskView { folder: Seq::empty(), ..t }
}

/// The tasks of `l` that are filed in the folder reached by the names `p`, in
/// the order of `l`, as they stand there.
pub open spec fn tasks_in(l: Seq<TaskView>, p: Seq<Seq<char>>) -> Seq<TaskView> {
    l.filter(|t: TaskView| placement(t.folder) == Some(p)).map_values(|t: TaskView| filed(t))
}

/// Every task of `l` has a path that leads to a folder.
pub open spec fn all_placed(l: Seq<TaskView>) -> bool {
    forall|i: int| 0 <= i < l.len() ==> (#[trigger] placement(l[i].folder)) is Some
}

/// The names `p` lead to a folder of the tree built from `l`: the root, and
/// every folder on the way to where a task of `l` is filed.
pub open spec fn reached(l: Seq<TaskView>, p: Seq<Seq<char>>) -> bool {
    p.len() == 0 || exists|i: int|
        0 <= i < l.len() && is_prefix(p, (#[trigger] placement(l[i].folder))->Some_0)
}

impl Folder {
    /// Files `task` where its folder path leads: in this folder where the path
    /// is empty, else in the subfolder named by its first segment (made where
    /// it does not exist), continuing with the rest of the path. The task is
    /// stored with the path used up, that is with an empty folder. A blank
    /// segment on the way is an `InvalidPath`, and then nothing changes.
    pub fn add_task(&mut self, task: Task) -> (r: Result<(), TaskError>)
        requires
            wf(*old(self)),
        ensures
            wf(*final(self)),
            r is Ok <==> placement(task@.folder) is Some,
            r is Err ==> r == Err::<(), TaskError>(TaskError::InvalidPath) && *final(self) == *old(
                self,
            ),
            r is Ok ==> forall|p: Seq<Seq<char>>| #[trigger]
                tasks_at(*final(self), p) == if p == placement(task@.folder)->Some_0 {
                    tasks_at(*old(self), p).push(filed(task@))
                } else {
                    tasks_at(*old(self), p)
                },
            r is Ok ==> forall|p: Seq<Seq<char>>| #[trigger]
                has_node(*final(self), p) == (has_node(*old(self), p) || is_prefix(
                    p,
                    placement(task@.folder)->Some_0,
                )),
    {
        match path_segments(task.folder.as_str()) {
            None => Err(TaskError::InvalidPath),
            Some(segs) => {
                proof {
                    assert(names(segs@).skip(0) =~= names(segs@));
                }
                self.insert_at(&segs, 0, task);
                Ok(())
            },
        }
    }
}

impl Default for Folder {
    fn default() -> (r: Folder)
        ensures
            r.tasks@.len() == 0,
            r.subfolders@.len() == 0,
            wf(r),
    {
        Folder::new()
    }
}

/// Builds the folder tree of a list of tasks. Each task is filed in the folder
/// that its path names, and nowhere else, with its folder used up (empty);
/// tasks of one folder keep the order of
/// the list; the tree holds the root and the folders on the way to a task, no
/// more. `InvalidPath` exactly where a task's path holds a blank segment.
pub fn build(tasks: &Vec<Task>) -> (r: Result<Folder, TaskError>)
    ensures
        r is Ok <==> all_placed(views(tasks@)),
        r is Err ==> r == Err::<Folder, TaskError>(TaskError::InvalidPath),
        r matches Ok(f) ==> wf(f),
        r matches Ok(f) ==> forall|p: Seq<Seq<char>>| #[trigger]
            tasks_at(f, p) == tasks_in(views(tasks@), p),
        r matches Ok(f) ==> forall|p: Seq<Seq<char>>| #[trigger]
            has_node(f, p) == reached(views(tasks@), p),
{
    let mut root = Folder::new();
    let n = tasks.len();
    let mut i: usize = 0;
    while i < n
        invariant
            n == tasks@.len(),
            i <= n,
            wf(root),
            all_placed(views(tasks@).take(i as int)),
            forall|p: Seq<Seq<char>>| #[trigger]
                tasks_at(root, p) == tasks_in(views(tasks@).take(i as int), p),
            forall|p: Seq<Seq<char>>| #[trigger]
                has_node(root, p) == reached(views(tasks@).take(i as int), p),
        decreases n - i,
    {
        let t = tasks[i].duplicate();
        let ghost prev = root;
        let ghost tv = t@;
        let ghost l = views(tasks@).take(i as int);
        let ghost l1 = views(tasks@).take(i as int + 1);
        proof {
            assert(l1 =~= l.push(tv));
        }
        match root.add_task(t) {
            Err(e) => {
                proof {
                    assert(l1[i as int] == tv);
                    assert(views(tasks@)[i as int] == tv);
                }
                return Err(e);
            },
            Ok(()) => {},
        }
        proof {
            let pl = placement(tv.folder)->Some_0;
            assert forall|p: Seq<Seq<char>>| #[trigger]
                tasks_at(root, p) == tasks_in(l1, p) by {
                let pred = |t: TaskView| placement(t.folder) == Some(p);
                l.lemma_filter_push(tv, pred);
                assert(l.filter(pred).push(tv).map_values(|t: TaskView| filed(t)) =~= l.filter(
                    pred,
                ).map_values(|t: TaskView| filed(t)).push(filed(tv)));
            }
            assert forall|p: Seq<Seq<char>>| #[trigger]
                has_node(root, p) == reached(l1, p) by {
                if reached(l, p) && p.len() > 0 {
                    let j = choose|j: int|
                        0 <= j < l.len() && is_prefix(p, (#[trigger] placement(l[j].folder))->Some_0);
                    assert(l1[j] == l[j]);
                }
                if is_prefix(p, pl) {
                    assert(l1[i as int] == tv);
                }
                if reached(l1, p) && p.len() > 0 {
                    let j = choose|j: int|
                        0 <= j < l1.len() && is_prefix(p, (#[trigger] placement(l1[j].folder))->Some_0);
                    if j < i {
                        assert(l1[j] == l[j]);
                    }
                }
            }
            assert forall|j: int| 0 <= j < l1.len() implies (#[trigger] placement(l1[j].folder)) is Some by {
                if j < i {
                    assert(l1[j] == l[j]);
                }
            }
        }
        i = i + 1;
    }
    proof {
        assert(views(tasks@).take(n as int) =~= views(tasks@));
    }
    Ok(root)
}

} // verus!
