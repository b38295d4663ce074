//! Depth-bounded rendering of a folder tree into nested rows.

use vstd::prelude::*;
use crate::folder::{Folder, wf};
use crate::task::Task;

verus! {

broadcast use vstd::std_specs::vec::group_vec_axioms;

/// One row of a rendered folder.
#[derive(Debug)]
pub enum Row {
    /// An expanded subfolder: its name and its own rows.
    Folder { name: String, rows: Vec<Row> },
    /// A subfolder left unexpanded: neither its name nor its contents show.
    Hidden,
    /// A task filed directly in the folder.
    Task(Task),
}

/// `rows` is the rendering of `f` with `d` levels of expansion left: first one
/// row per subfolder, in the folder's order, expanded with `d - 1` levels where
/// `d > 1` and hidden otherwise; then one row per task, in the folder's order.
pub open spec fn renders(f: Folder, d: int, rows: Seq<Row>) -> bool
    decreases d,
{
    let ns = f.subfolders@.len();
    &&& rows.len() == ns + f.tasks@.len()
    &&& forall|i: int|
        0 <= i < ns ==> if d > 1 {
            &&& (#[trigger] rows[i]) is Folder
            &&& rows[i]->Folder_name@ == f.subfolders@[i].name@
            &&& renders(f.subfolders@[i].folder, d - 1, rows[i]->Folder_rows@)
        } else {
            (#[trigger] rows[i]) is Hidden
        }
    &&& forall|j: int|
        0 <= j < f.tasks@.len() ==> (#[trigger] rows[ns + j]) is Task && rows[ns + j]->Task_0@
            == f.tasks@[j]@
}

impl Folder {
    /// Renders the folder, expanding `max_depth` levels of subfolders, this
    /// one included. The folder itself is left as it is.
    pub fn render(&self, max_depth: i32) -> (r: Vec<Row>)
        ensures
            renders(*self, max_depth as int, r@),
        decreases max_depth,
    {
        let mut rows: Vec<Row> = Vec::new();
        let ns = self.subfolders.len();
        let mut i: usize = 0;
        while i < ns
            invariant
                ns == self.subfolders@.len(),
                i <= ns,
                rows@.len() == i,
                forall|k: int|
                    0 <= k < i ==> if max_depth > 1 {
                        &&& (#[trigger] rows@[k]) is Folder
                        &&& rows@[k]->Folder_name@ == self.subfolders@[k].name@
                        &&& renders(self.subfolders@[k].folder, max_depth - 1, rows@[k]->Folder_rows@)
                    } else {
                        (#[trigger] rows@[k]) is Hidden
                    },
            decreases ns - i,
        {
            if max_depth > 1 {
                let sub = &self.subfolders[i];
                let inner = sub.folder.render(max_depth - 1);
                rows.push(Row::Folder { name: sub.name.clone(), rows: inner });
            } else {
                rows.push(Row::Hidden);
            }
            i = i + 1;
        }
        let nt = self.tasks.len();
        let mut j: usize = 0;
        while j < nt
            invariant
                ns == self.subfolders@.len(),
                nt == self.tasks@.len(),
                j <= nt,
                rows@.len() == ns + j,
                forall|k: int|
                    0 <= k < ns ==> if max_depth > 1 {
                        &&& (#[trigger] rows@[k]) is Folder
                        &&& rows@[k]->Folder_name@ == self.subfolders@[k].name@
                        &&& renders(self.subfolders@[k].folder, max_depth - 1, rows@[k]->Folder_rows@)
                    } else {
                        (#[trigger] rows@[k]) is Hidden
                    },
                forall|k: int|
                    0 <= k < j ==> (#[trigger] rows@[ns + k]) is Task && rows@[ns + k]->Task_0@
                        == self.tasks@[k]@,
            decreases nt - j,
        {
            rows.push(Row::Task(self.tasks[j].duplicate()));
            proof {
                assert(rows@[ns + j as int]->Task_0@ == self.tasks@[j as int]@);
            }
            j = j + 1;
        }
        rows
    }
}

} // verus!
