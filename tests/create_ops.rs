use rfm::path::FsPath;
use rfm::tree::{FileTree, FsError, Node, Op};
use rfm::{clean, ls, mkdir, rm, touch};

fn path(parts: &[&str]) -> FsPath {
    FsPath::new(parts.iter().map(|s| s.to_string()).collect())
}

fn has(fs: &FileTree, parts: &[&str]) -> Option<Node> {
    fs.get(&path(parts))
}

fn dir(fs: &mut FileTree, parts: &[&str]) {
    fs.add_entry(path(parts), Node::Dir { size: 4096 }).unwrap();
}

fn file(fs: &mut FileTree, parts: &[&str], content: u64, size: u64) {
    fs.add_entry(path(parts), Node::File { content, size }).unwrap();
}

#[test]
fn mkdir_creates_missing_ancestors() {
    let mut fs = FileTree::new();
    assert_eq!(mkdir(&mut fs, &vec![path(&["x", "y", "z"])]), Ok(()));
    assert_eq!(has(&fs, &["x"]), Some(Node::Dir { size: 0 }));
    assert_eq!(has(&fs, &["x", "y"]), Some(Node::Dir { size: 0 }));
    assert_eq!(has(&fs, &["x", "y", "z"]), Some(Node::Dir { size: 0 }));
    let ops = fs.take_journal();
    assert_eq!(ops.len(), 3);
    assert!(matches!(&ops[0], Op::CreateDir(p) if p.parts == vec!["x".to_string()]));
}

#[test]
fn mkdir_single_existing_fails() {
    let mut fs = FileTree::new();
    dir(&mut fs, &["a"]);
    assert_eq!(mkdir(&mut fs, &vec![path(&["a"])]), Err(FsError::AlreadyExists));
}

#[test]
fn mkdir_batch_passes_over_failures() {
    let mut fs = FileTree::new();
    dir(&mut fs, &["a"]);
    let r = mkdir(&mut fs, &vec![path(&["a"]), path(&["b", "c"])]);
    assert_eq!(r, Ok(()));
    assert_eq!(has(&fs, &["b", "c"]), Some(Node::Dir { size: 0 }));
}

#[test]
fn mkdir_below_file_fails() {
    let mut fs = FileTree::new();
    file(&mut fs, &["f"], 7, 3);
    assert_eq!(mkdir(&mut fs, &vec![path(&["f", "g", "h"])]), Err(FsError::IoFailure));
    assert_eq!(has(&fs, &["f", "g"]), None);
}

#[test]
fn mkdir_empty_list_fails() {
    let mut fs = FileTree::new();
    assert_eq!(mkdir(&mut fs, &vec![]), Err(FsError::InvalidInput));
}

#[test]
fn touch_creates_and_truncates() {
    let mut fs = FileTree::new();
    dir(&mut fs, &["t"]);
    file(&mut fs, &["t", "old.txt"], 9, 100);
    let r = touch(&mut fs, &vec![path(&["t", "new.txt"]), path(&["t", "old.txt"])]);
    assert_eq!(r, Ok(()));
    assert_eq!(has(&fs, &["t", "new.txt"]), Some(Node::File { content: 0, size: 0 }));
    assert_eq!(has(&fs, &["t", "old.txt"]), Some(Node::File { content: 0, size: 0 }));
}

#[test]
fn touch_without_parent_fails() {
    let mut fs = FileTree::new();
    assert_eq!(touch(&mut fs, &vec![path(&["no", "f.txt"])]), Err(FsError::NotFound));
    assert_eq!(touch(&mut fs, &vec![]), Err(FsError::InvalidInput));
}

#[test]
fn rm_removes_subtree() {
    let mut fs = FileTree::new();
    dir(&mut fs, &["r"]);
    dir(&mut fs, &["r", "d"]);
    file(&mut fs, &["r", "d", "f"], 1, 1);
    file(&mut fs, &["r", "g"], 2, 2);
    assert_eq!(rm(&mut fs, &vec![path(&["r", "d"]), path(&["r", "g"])]), Ok(()));
    assert_eq!(has(&fs, &["r", "d"]), None);
    assert_eq!(has(&fs, &["r", "d", "f"]), None);
    assert_eq!(has(&fs, &["r", "g"]), None);
    assert!(has(&fs, &["r"]).is_some());
}

#[test]
fn rm_twice_reports_not_found() {
    let mut fs = FileTree::new();
    file(&mut fs, &["f"], 1, 1);
    assert_eq!(rm(&mut fs, &vec![path(&["f"])]), Ok(()));
    assert_eq!(rm(&mut fs, &vec![path(&["f"])]), Err(FsError::NotFound));
    assert_eq!(rm(&mut fs, &vec![]), Err(FsError::InvalidInput));
}

#[test]
fn clean_empties_directory() {
    let mut fs = FileTree::new();
    dir(&mut fs, &["c"]);
    file(&mut fs, &["c", "file-1.txt"], 1, 1);
    file(&mut fs, &["c", "file-2.txt"], 2, 1);
    dir(&mut fs, &["c", "dir-1"]);
    assert_eq!(clean(&mut fs, &vec![path(&["c"])]), Ok(()));
    assert_eq!(ls(&fs, &path(&["c"])).unwrap().len(), 0);
    assert_eq!(has(&fs, &["c"]), Some(Node::Dir { size: 0 }));
    assert_eq!(clean(&mut fs, &vec![path(&["none"])]), Err(FsError::NotFound));
}

#[test]
fn ls_lists_children_only() {
    let mut fs = FileTree::new();
    dir(&mut fs, &["l"]);
    dir(&mut fs, &["l", "sub"]);
    file(&mut fs, &["l", "sub", "deep"], 1, 1);
    file(&mut fs, &["l", "f"], 1, 1);
    let v = ls(&fs, &path(&["l"])).unwrap();
    assert_eq!(v.len(), 2);
    assert_eq!(v[0].parts, vec!["l".to_string(), "sub".to_string()]);
    assert_eq!(v[1].parts, vec!["l".to_string(), "f".to_string()]);
    assert_eq!(ls(&fs, &path(&["l", "f"])).unwrap_err(), FsError::InvalidInput);
    assert_eq!(ls(&fs, &path(&["zz"])).unwrap_err(), FsError::NotFound);
}
