use rusty_tasks::commands::{confirms, find_task, is_yes, plan_update};
use rusty_tasks::error::TaskError;
use rusty_tasks::folder::{build, Folder};
use rusty_tasks::ids::{allocate_id, choose_id};
use rusty_tasks::listing::{format_task, relative_folder, select_under};
use rusty_tasks::path::{path_segments, verify_path};
use rusty_tasks::render::Row;
use rusty_tasks::task::Task;

fn task(folder: &str, body: &str, id: i64) -> Task {
    Task::new(folder.to_string(), body.to_string(), id, "Incomplete".to_string())
}

fn body(row: &Row) -> Option<String> {
    match row {
        Row::Task(t) => Some(t.task.clone()),
        _ => None,
    }
}

#[test]
fn valid_paths_accepted() {
    for p in ["", "home", "home/errands", "a/b/c", " a / b "] {
        assert_eq!(verify_path(p.to_string()), Ok(()), "{p:?}");
    }
}

#[test]
fn malformed_paths_rejected() {
    for p in ["/home", "home/", "home//errands", "/", "a/ /b", "a/b/ ", "   ", " "] {
        assert_eq!(verify_path(p.to_string()), Err(TaskError::InvalidPath), "{p:?}");
    }
}

#[test]
fn segments_follow_the_path() {
    let s = path_segments("home/errands").unwrap();
    assert_eq!(s, vec!["home".to_string(), "errands".to_string()]);
    assert_eq!(path_segments("").unwrap(), Vec::<String>::new());
    assert_eq!(path_segments("  "), None);
    assert_eq!(path_segments("a/ "), None);
    assert_eq!(path_segments("a/"), Some(vec!["a".to_string()]));
    assert_eq!(path_segments("/a"), None);
}

#[test]
fn build_files_each_task_once() {
    let tasks = vec![task("a/b", "one", 1), task("", "two", 2), task("a", "three", 3), task("c", "four", 4)];
    let root = build(&tasks).unwrap();
    assert_eq!(root.tasks.len(), 1);
    assert_eq!(root.tasks[0].task, "two");
    let names: Vec<&str> = root.subfolders.iter().map(|s| s.name.as_str()).collect();
    assert_eq!(names, vec!["a", "c"]);
    let a = &root.subfolders[0].folder;
    assert_eq!(a.tasks.len(), 1);
    assert_eq!(a.tasks[0].task, "three");
    assert_eq!(a.subfolders.len(), 1);
    assert_eq!(a.subfolders[0].name, "b");
    assert_eq!(a.subfolders[0].folder.tasks[0].task, "one");
    assert_eq!(a.subfolders[0].folder.tasks[0].folder, "");
    assert_eq!(a.tasks[0].folder, "");
    assert_eq!(root.subfolders[1].folder.tasks[0].task, "four");
}

#[test]
fn build_rejects_blank_segment() {
    let tasks = vec![task("a", "ok", 1), task("a//b", "bad", 2)];
    assert!(matches!(build(&tasks), Err(TaskError::InvalidPath)));
}

#[test]
fn add_task_leaves_folder_on_error() {
    let mut f = Folder::new();
    assert_eq!(f.add_task(task(" /x", "bad", 1)), Err(TaskError::InvalidPath));
    assert!(f.subfolders.is_empty() && f.tasks.is_empty());
    assert_eq!(f.add_task(task("x/ ", "bad", 2)), Err(TaskError::InvalidPath));
    assert_eq!(f.add_task(task("  ", "bad", 3)), Err(TaskError::InvalidPath));
    assert!(f.subfolders.is_empty() && f.tasks.is_empty());
    assert_eq!(f.add_task(task("x/", "ok", 4)), Ok(()));
    assert_eq!(f.subfolders[0].name, "x");
    assert_eq!(f.subfolders[0].folder.tasks.len(), 1);
    assert_eq!(f.subfolders[0].folder.tasks[0].folder, "");
    assert_eq!(f.subfolders[0].folder.tasks[0].task, "ok");
    assert_eq!(f.subfolders[0].folder.tasks[0].id, 4);
}

#[test]
fn subfolders_sorted_whatever_the_input_order() {
    let l1 = vec![task("b", "x", 1), task("a", "y", 2), task("", "z", 3), task("b", "w", 4)];
    let l2 = vec![task("a", "y", 2), task("b", "x", 1), task("b", "w", 4), task("", "z", 3)];
    let r1 = build(&l1).unwrap().render(3);
    let r2 = build(&l2).unwrap().render(3);
    assert_eq!(format!("{r1:?}"), format!("{r2:?}"));
    match &r1[0] {
        Row::Folder { name, rows } => {
            assert_eq!(name, "a");
            assert_eq!(body(&rows[0]).as_deref(), Some("y"));
        }
        other => panic!("{other:?}"),
    }
    match &r1[1] {
        Row::Folder { name, rows } => {
            assert_eq!(name, "b");
            assert_eq!(body(&rows[0]).as_deref(), Some("x"));
            assert_eq!(body(&rows[1]).as_deref(), Some("w"));
        }
        other => panic!("{other:?}"),
    }
    assert_eq!(body(&r1[2]).as_deref(), Some("z"));
}

#[test]
fn depth_one_hides_subfolders() {
    let tasks = vec![task("a/b", "deep", 1), task("a", "mid", 2), task("", "top", 3)];
    let root = build(&tasks).unwrap();
    let rows = root.render(1);
    assert_eq!(rows.len(), 2);
    assert!(matches!(rows[0], Row::Hidden));
    assert_eq!(body(&rows[1]).as_deref(), Some("top"));
    let rows0 = root.render(0);
    assert_eq!(format!("{rows:?}"), format!("{rows0:?}"));
}

#[test]
fn full_depth_shows_everything() {
    let tasks = vec![task("a/b", "deep", 1), task("a", "mid", 2)];
    let root = build(&tasks).unwrap();
    let rows = root.render(3);
    let text = format!("{rows:?}");
    assert!(!text.contains("Hidden"));
    assert!(text.contains("deep") && text.contains("mid"));
    let rows2 = root.render(2);
    match &rows2[0] {
        Row::Folder { rows, .. } => assert!(matches!(rows[0], Row::Hidden)),
        other => panic!("{other:?}"),
    }
}

#[test]
fn list_filter_strips_prefix() {
    let stored = vec![task("home/errands", "Buy milk", 7), task("work", "Report", 8)];
    let listed = select_under(&stored, "home");
    assert_eq!(listed.len(), 1);
    assert_eq!(listed[0].folder, "errands");
    assert_eq!(listed[0].task, "Buy milk");
    assert_eq!(listed[0].id, 7);
    let rows = build(&listed).unwrap().render(3);
    assert_eq!(rows.len(), 1);
    match &rows[0] {
        Row::Folder { name, rows } => {
            assert_eq!(name, "errands");
            assert_eq!(body(&rows[0]).as_deref(), Some("Buy milk"));
        }
        other => panic!("{other:?}"),
    }
}

#[test]
fn relative_folders() {
    assert_eq!(relative_folder("home/errands", "home").as_deref(), Some("errands"));
    assert_eq!(relative_folder("home", "home").as_deref(), Some(""));
    assert_eq!(relative_folder("homework", "home"), None);
    assert_eq!(relative_folder("work", "home"), None);
    assert_eq!(relative_folder("work/x", "").as_deref(), Some("work/x"));
}

#[test]
fn root_tasks_keep_order() {
    let tasks = vec![task("", "A", 1), task("", "B", 2)];
    let rows = build(&tasks).unwrap().render(3);
    assert_eq!(rows.len(), 2);
    assert_eq!(body(&rows[0]).as_deref(), Some("A"));
    assert_eq!(body(&rows[1]).as_deref(), Some("B"));
    assert!(rows.iter().all(|r| !matches!(r, Row::Folder { .. } | Row::Hidden)));
}

#[test]
fn empty_list_renders_nothing() {
    let rows = build(&Vec::new()).unwrap().render(3);
    assert!(rows.is_empty());
}

#[test]
fn delete_missing_id() {
    let tasks = vec![task("", "A", 1), task("x", "B", 2)];
    let r = find_task(&tasks, 9);
    assert_eq!(r, Err(TaskError::NotFound));
    assert_eq!(TaskError::NotFound.message(), "No Task with that ID");
    assert_eq!(find_task(&tasks, 2), Ok(1));
}

#[test]
fn update_without_fields() {
    let r = plan_update(None, None, None);
    assert_eq!(r.err(), Some(TaskError::NoUpdateFields));
}

#[test]
fn update_checks_folder() {
    let r = plan_update(Some("x".to_string()), Some("a//b".to_string()), None);
    assert_eq!(r.err(), Some(TaskError::InvalidPath));
    let plan = plan_update(None, None, Some("Complete".to_string())).unwrap();
    assert_eq!(plan.status.as_deref(), Some("Complete"));
    assert!(plan.task.is_none() && plan.folder.is_none());
}

#[test]
fn ids_first_free_draw() {
    assert_eq!(choose_id(&vec![3, 4], &vec![3, 4, 9, 1]), Ok(9));
    assert_eq!(choose_id(&vec![0, 1], &vec![255, 0]), Ok(255));
    assert_eq!(choose_id(&vec![0, 1], &vec![1, 0]), Ok(2));
    assert_eq!(choose_id(&vec![], &vec![]), Ok(0));
}

#[test]
fn ids_exhausted() {
    let used: Vec<i64> = (0..=255).collect();
    assert_eq!(choose_id(&used, &vec![1, 2]), Err(TaskError::IdSpaceExhausted));
    assert_eq!(allocate_id(&used), Err(TaskError::IdSpaceExhausted));
}

#[test]
fn allocated_id_is_free() {
    let used: Vec<i64> = (0..200).collect();
    let id = allocate_id(&used).unwrap();
    assert!(id >= 200);
}

#[test]
fn last_id_is_given_out() {
    let used: Vec<i64> = (0..255).collect();
    assert_eq!(allocate_id(&used), Ok(255));
}

#[test]
fn format_task_wraps() {
    let s = format_task("one two three four five six seven eight");
    assert!(s.contains('\n'));
    for line in s.lines() {
        assert!(line.chars().count() <= 25);
    }
    assert!(format_task("milk").starts_with("milk"));
}

#[test]
fn confirmation_answers() {
    assert!(confirms("y\n"));
    assert!(confirms("  Yes "));
    assert!(!confirms("no"));
    assert!(!confirms("yess"));
    assert!(!confirms(""));
    assert!(is_yes(" YES"));
    assert!(!is_yes("yes"));
}
