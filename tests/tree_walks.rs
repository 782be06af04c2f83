use batch_transcode::tree::{clear_children, collect_files, copy_steps, Entry, Node, LOCK_NAME};

fn file(name: &str) -> Entry {
    Entry { name: name.to_string(), node: Node::File }
}

fn dir(name: &str, entries: Vec<Entry>) -> Entry {
    Entry { name: name.to_string(), node: Node::Dir(entries) }
}

fn path(parts: &[&str]) -> Vec<String> {
    parts.iter().map(|s| s.to_string()).collect()
}

fn sorted(mut v: Vec<Vec<String>>) -> Vec<Vec<String>> {
    v.sort();
    v
}

fn sample_input() -> Node {
    Node::Dir(vec![file("a.mp4"), file("b.mov"), dir("sub", vec![file("c.mp4")])])
}

#[test]
fn staged_directory_collects_three_files() {
    let input = sample_input();
    let steps = copy_steps(&input);
    let staged_paths: Vec<Vec<String>> =
        steps.iter().filter(|s| !s.is_dir).map(|s| s.path.clone()).collect();
    assert_eq!(
        sorted(staged_paths),
        vec![path(&["a.mp4"]), path(&["b.mov"]), path(&["sub", "c.mp4"])]
    );
    let staged = sample_input();
    let files = collect_files(&staged);
    assert_eq!(files.len(), 3);
    assert_eq!(
        sorted(files),
        vec![path(&["a.mp4"]), path(&["b.mov"]), path(&["sub", "c.mp4"])]
    );
}

#[test]
fn collect_skips_marker_at_any_depth() {
    let root = Node::Dir(vec![
        file(LOCK_NAME),
        file("x.mp4"),
        dir("d", vec![file(LOCK_NAME), file("y.mkv"), dir("e", vec![])]),
    ]);
    let files = sorted(collect_files(&root));
    assert_eq!(files, vec![path(&["d", "y.mkv"]), path(&["x.mp4"])]);
}

#[test]
fn collect_of_marker_only_is_empty() {
    let root = Node::Dir(vec![file("folder.lock")]);
    assert!(collect_files(&root).is_empty());
}

#[test]
fn collect_on_file_root_is_empty() {
    assert!(collect_files(&Node::File).is_empty());
    assert!(collect_files(&Node::Dir(vec![])).is_empty());
}

#[test]
fn copy_steps_make_parents_first() {
    let src = Node::Dir(vec![
        dir("a", vec![dir("b", vec![file("f.mp4")]), file("g.mp4")]),
        file("h.mov"),
    ]);
    let steps = copy_steps(&src);
    let listed: Vec<(Vec<String>, bool)> =
        steps.iter().map(|s| (s.path.clone(), s.is_dir)).collect();
    assert_eq!(
        listed,
        vec![
            (path(&["a"]), true),
            (path(&["a", "b"]), true),
            (path(&["a", "b", "f.mp4"]), false),
            (path(&["a", "g.mp4"]), false),
            (path(&["h.mov"]), false),
        ]
    );
}

#[test]
fn copy_steps_of_file_root_are_empty() {
    assert!(copy_steps(&Node::File).is_empty());
}

#[test]
fn copy_steps_keep_empty_directories() {
    let src = Node::Dir(vec![dir("empty", vec![])]);
    let steps = copy_steps(&src);
    assert_eq!(steps.len(), 1);
    assert_eq!(steps[0].path, path(&["empty"]));
    assert!(steps[0].is_dir);
}

#[test]
fn clear_children_twice() {
    let mut staged = Node::Dir(vec![file(LOCK_NAME), file("a.mp4"), dir("sub", vec![file("c.mp4")])]);
    let first = clear_children(&mut staged);
    let listed: Vec<(String, bool)> = first.iter().map(|r| (r.name.clone(), r.is_dir)).collect();
    assert_eq!(
        listed,
        vec![
            (LOCK_NAME.to_string(), false),
            ("a.mp4".to_string(), false),
            ("sub".to_string(), true),
        ]
    );
    assert!(matches!(&staged, Node::Dir(es) if es.is_empty()));
    let second = clear_children(&mut staged);
    assert!(second.is_empty());
    assert!(matches!(&staged, Node::Dir(es) if es.is_empty()));
    assert!(collect_files(&staged).is_empty());
}

#[test]
fn clear_children_leaves_file_alone() {
    let mut n = Node::File;
    assert!(clear_children(&mut n).is_empty());
    assert!(matches!(n, Node::File));
}

#[test]
fn collect_lists_in_entry_order() {
    let root = Node::Dir(vec![
        file("b.mov"),
        dir("sub", vec![file("d.mp4"), file("c.mp4")]),
        file("a.mp4"),
    ]);
    let expected = vec![
        path(&["b.mov"]),
        path(&["sub", "d.mp4"]),
        path(&["sub", "c.mp4"]),
        path(&["a.mp4"]),
    ];
    assert_eq!(collect_files(&root), expected);
    assert_eq!(collect_files(&root), collect_files(&root));
}
