use rfm::path::FsPath;
use rfm::tree::{FileTree, FsError, Node, Op};
use rfm::{clean, cp, extract, get_size, ls, mkdir, mv, rm, touch};

fn path(parts: &[&str]) -> FsPath {
    FsPath::new(parts.iter().map(|s| s.to_string()).collect())
}

fn join(base: &[&str], rest: &[&str]) -> FsPath {
    let mut v: Vec<&str> = base.to_vec();
    v.extend_from_slice(rest);
    path(&v)
}

fn dir(fs: &mut FileTree, parts: &[&str]) {
    fs.add_entry(path(parts), Node::Dir { size: 4096 }).unwrap();
}

fn file(fs: &mut FileTree, parts: &[&str], content: u64, size: u64) {
    fs.add_entry(path(parts), Node::File { content, size }).unwrap();
}

fn present(fs: &FileTree, p: &FsPath) -> bool {
    fs.get(p).is_some()
}

const DATA: [&str; 3] = ["tests", "testing", "data"];
const CP: [&str; 3] = ["tests", "testing", "cp"];

fn data_tree() -> FileTree {
    let mut fs = FileTree::new();
    dir(&mut fs, &["tests"]);
    dir(&mut fs, &["tests", "testing"]);
    dir(&mut fs, &DATA);
    file(&mut fs, &["tests", "testing", "data", "file-1.txt"], 1, 10);
    file(&mut fs, &["tests", "testing", "data", "file-2.txt"], 2, 20);
    dir(&mut fs, &["tests", "testing", "data", "dir-1"]);
    file(&mut fs, &["tests", "testing", "data", "dir-1", "file-1.txt"], 3, 30);
    file(&mut fs, &["tests", "testing", "data", "dir-1", "file-2.txt"], 4, 40);
    dir(&mut fs, &["tests", "testing", "data", "dir-2"]);
    dir(&mut fs, &["tests", "testing", "data", "dir-2", "foo"]);
    file(&mut fs, &["tests", "testing", "data", "dir-2", "file-1.txt"], 5, 50);
    dir(&mut fs, &["tests", "testing", "data", "dir-2", "foo", "bar"]);
    file(&mut fs, &["tests", "testing", "data", "dir-2", "foo", "file-1.txt"], 6, 60);
    file(&mut fs, &["tests", "testing", "data", "dir-2", "foo", "bar", "file-1.txt"], 7, 70);
    dir(&mut fs, &["tests", "testing", "data", "dir-3"]);
    file(&mut fs, &["tests", "testing", "data", "dir-3", "file-1.txt"], 8, 1);
    dir(&mut fs, &["tests", "testing", "data", "dir-3", "a"]);
    file(&mut fs, &["tests", "testing", "data", "dir-3", "a", "file-2.txt"], 9, 1);
    dir(&mut fs, &["tests", "testing", "data", "dir-3", "a", "b"]);
    file(&mut fs, &["tests", "testing", "data", "dir-3", "a", "b", "file-3.txt"], 10, 1);
    dir(&mut fs, &["tests", "testing", "data", "dir-3", "c"]);
    file(&mut fs, &["tests", "testing", "data", "dir-3", "c", "file-4.txt"], 11, 1);
    fs
}

#[test]
fn test_ls() {
    let mut fs = data_tree();
    dir(&mut fs, &["tests", "testing", "ls"]);
    let content_of_empty_dir = ls(&fs, &path(&["tests", "testing", "ls"])).unwrap();
    let content_of_dir = ls(&fs, &path(&DATA)).unwrap();
    assert!(!content_of_dir.is_empty(), "ls of not empty dir should return list with content of dir");
    assert!(content_of_empty_dir.is_empty(), "ls of empty dir should return empty list");
}

#[test]
fn test_cp() {
    let mut fs = data_tree();
    dir(&mut fs, &CP);
    let files = vec![join(&DATA, &["file-1.txt"]), join(&DATA, &["file-2.txt"])];
    let dirs = vec![join(&DATA, &["dir-1"]), join(&DATA, &["dir-2"])];
    let to_path = path(&CP);
    cp(&mut fs, &files, &to_path).ok();
    cp(&mut fs, &dirs, &to_path).ok();
    assert!(present(&fs, &join(&CP, &["file-1.txt"])), "Copied file should exist");
    assert!(present(&fs, &join(&CP, &["file-2.txt"])), "Copied file should exist");
    assert!(present(&fs, &join(&CP, &["dir-1"])), "Copied dir should exist");
    let expected = [
        join(&CP, &["dir-1", "file-1.txt"]),
        join(&CP, &["dir-1", "file-2.txt"]),
        join(&CP, &["dir-2", "foo"]),
        join(&CP, &["dir-2", "file-1.txt"]),
        join(&CP, &["dir-2", "foo", "bar"]),
        join(&CP, &["dir-2", "foo", "file-1.txt"]),
        join(&CP, &["dir-2", "foo", "bar", "file-1.txt"]),
    ];
    for p in expected.iter() {
        assert!(present(&fs, p), "Copied dirs content should exist");
    }
}

#[test]
fn test_rm() {
    let mut fs = FileTree::new();
    dir(&mut fs, &["tests"]);
    dir(&mut fs, &["tests", "testing"]);
    dir(&mut fs, &["tests", "testing", "rm"]);
    dir(&mut fs, &["tests", "testing", "rm", "dir-2"]);
    file(&mut fs, &["tests", "testing", "rm", "file-1.txt"], 1, 0);
    let d = path(&["tests", "testing", "rm", "dir-2"]);
    let f = path(&["tests", "testing", "rm", "file-1.txt"]);
    rm(&mut fs, &vec![d.duplicate(), f.duplicate()]).ok();
    assert!(!present(&fs, &d), "Deleted dir should not exist");
    assert!(!present(&fs, &f), "Deleted file should not exist");
}

#[test]
fn test_mkdir() {
    let mut fs = FileTree::new();
    dir(&mut fs, &["tests"]);
    dir(&mut fs, &["tests", "testing"]);
    dir(&mut fs, &["tests", "testing", "mkdir"]);
    let dir_foo = path(&["tests", "testing", "mkdir", "foo"]);
    let few_dirs = path(&["tests", "testing", "mkdir", "dir-2", "foo", "bar"]);
    mkdir(&mut fs, &vec![dir_foo.duplicate(), few_dirs.duplicate()]).ok();
    assert!(present(&fs, &dir_foo), "Created dir should exist");
    assert!(present(&fs, &few_dirs), "Created dirs should exist");
}

#[test]
fn test_touch() {
    let mut fs = FileTree::new();
    dir(&mut fs, &["tests"]);
    dir(&mut fs, &["tests", "testing"]);
    dir(&mut fs, &["tests", "testing", "touch"]);
    let file_1 = path(&["tests", "testing", "touch", "file-1.txt"]);
    let file_2 = path(&["tests", "testing", "touch", "file-2.txt"]);
    touch(&mut fs, &vec![file_1.duplicate(), file_2.duplicate()]).ok();
    assert!(present(&fs, &file_1), "Created file should exist");
    assert!(present(&fs, &file_2), "Created file should exist");
}

#[test]
fn test_clean() {
    let mut fs = FileTree::new();
    dir(&mut fs, &["tests"]);
    dir(&mut fs, &["tests", "testing"]);
    dir(&mut fs, &["tests", "testing", "clean"]);
    file(&mut fs, &["tests", "testing", "clean", "file-1.txt"], 1, 0);
    file(&mut fs, &["tests", "testing", "clean", "file-2.txt"], 2, 0);
    dir(&mut fs, &["tests", "testing", "clean", "dir-1"]);
    clean(&mut fs, &vec![path(&["tests", "testing", "clean"])]).ok();
    assert!(!present(&fs, &path(&["tests", "testing", "clean", "file-1.txt"])), "Cleaned dir should not exist any files");
    assert!(!present(&fs, &path(&["tests", "testing", "clean", "file-2.txt"])), "Cleaned dir should not exist any files");
    assert!(!present(&fs, &path(&["tests", "testing", "clean", "dir-1"])), "Cleaned dir should not exist any dirs");
}

#[test]
fn test_mv() {
    let mut fs = FileTree::new();
    dir(&mut fs, &["tests"]);
    dir(&mut fs, &["tests", "testing"]);
    dir(&mut fs, &["tests", "testing", "mv"]);
    dir(&mut fs, &["tests", "testing", "mv", "dir-1"]);
    dir(&mut fs, &["tests", "testing", "mv", "dir-2"]);
    file(&mut fs, &["tests", "testing", "mv", "dir-2", "file-1.txt"], 1, 0);
    let dir_1 = path(&["tests", "testing", "mv", "dir-1"]);
    let dir_2 = path(&["tests", "testing", "mv", "dir-2"]);
    mv(&mut fs, &vec![dir_2.duplicate()], &dir_1).ok();
    assert!(present(&fs, &path(&["tests", "testing", "mv", "dir-1", "dir-2"])), "Files/dirs should exist at the endpoint");
    assert!(present(&fs, &path(&["tests", "testing", "mv", "dir-1", "dir-2", "file-1.txt"])), "Files/dirs should exist at the endpoint");
    assert!(!present(&fs, &dir_2), "The files/directories must not be at the starting point after the transfer");
}

#[test]
fn test_extract() {
    let mut fs = data_tree();
    dir(&mut fs, &["tests", "testing", "extract"]);
    let extract_dir = path(&["tests", "testing", "extract"]);
    extract(&mut fs, &vec![join(&DATA, &["dir-3"])], &extract_dir).ok();
    assert!(present(&fs, &extract_dir), "Extract dir should exist");
    for name in ["file-1.txt", "file-2.txt", "file-3.txt", "file-4.txt"] {
        assert!(present(&fs, &path(&["tests", "testing", "extract", name])), "File should exist after extraction");
    }
}

#[test]
fn copy_dir_mirrors_tree_and_content() {
    let mut fs = FileTree::new();
    dir(&mut fs, &["a"]);
    file(&mut fs, &["a", "file1.txt"], 41, 5);
    dir(&mut fs, &["a", "sub"]);
    file(&mut fs, &["a", "sub", "file2.txt"], 42, 6);
    dir(&mut fs, &["d"]);
    assert_eq!(cp(&mut fs, &vec![path(&["a"])], &path(&["d"])), Ok(()));
    assert_eq!(fs.get(&path(&["d", "a"])), Some(Node::Dir { size: 4096 }));
    assert_eq!(fs.get(&path(&["d", "a", "file1.txt"])), Some(Node::File { content: 41, size: 5 }));
    assert_eq!(fs.get(&path(&["d", "a", "sub"])), Some(Node::Dir { size: 4096 }));
    assert_eq!(fs.get(&path(&["d", "a", "sub", "file2.txt"])), Some(Node::File { content: 42, size: 6 }));
    assert_eq!(fs.get(&path(&["a", "sub", "file2.txt"])), Some(Node::File { content: 42, size: 6 }));
    assert_eq!(ls(&fs, &path(&["d", "a"])).unwrap().len(), 2);
    let ops = fs.take_journal();
    assert_eq!(ops.len(), 4);
    assert!(matches!(&ops[0], Op::CreateDir(p) if p.parts == vec!["d".to_string(), "a".to_string()]));
    assert!(matches!(&ops[1], Op::CopyFile(_, p) if p.parts.len() == 3));
}

#[test]
fn copy_files_keeps_content() {
    let mut fs = FileTree::new();
    dir(&mut fs, &["src"]);
    file(&mut fs, &["src", "x"], 7, 70);
    file(&mut fs, &["src", "y"], 8, 80);
    dir(&mut fs, &["dst"]);
    file(&mut fs, &["dst", "x"], 99, 1);
    assert_eq!(cp(&mut fs, &vec![path(&["src", "x"]), path(&["src", "y"])], &path(&["dst"])), Ok(()));
    assert_eq!(fs.get(&path(&["dst", "x"])), Some(Node::File { content: 7, size: 70 }));
    assert_eq!(fs.get(&path(&["dst", "y"])), Some(Node::File { content: 8, size: 80 }));
}

#[test]
fn copy_empty_list_changes_nothing() {
    let mut fs = FileTree::new();
    dir(&mut fs, &["d"]);
    assert_eq!(cp(&mut fs, &vec![], &path(&["d"])), Err(FsError::InvalidInput));
    assert_eq!(fs.entries.len(), 1);
    assert_eq!(fs.take_journal().len(), 0);
}

#[test]
fn copy_errors() {
    let mut fs = FileTree::new();
    dir(&mut fs, &["a"]);
    file(&mut fs, &["f"], 1, 1);
    dir(&mut fs, &["d"]);
    dir(&mut fs, &["d", "f"]);
    assert_eq!(cp(&mut fs, &vec![path(&["nope"])], &path(&["d"])), Err(FsError::NotFound));
    assert_eq!(cp(&mut fs, &vec![path(&["a"])], &path(&["nope"])), Err(FsError::NotFound));
    assert_eq!(cp(&mut fs, &vec![path(&["a"])], &path(&["f"])), Err(FsError::InvalidInput));
    assert_eq!(cp(&mut fs, &vec![path(&["f"])], &path(&["d"])), Err(FsError::IoFailure));
    assert_eq!(cp(&mut fs, &vec![path(&["a"])], &path(&["d"])), Ok(()));
    assert_eq!(cp(&mut fs, &vec![path(&["a"])], &path(&["d"])), Err(FsError::AlreadyExists));
    assert_eq!(cp(&mut fs, &vec![path(&[])], &path(&["d"])), Err(FsError::InvalidInput));
}

#[test]
fn move_removes_sources_after_copy() {
    let mut fs = FileTree::new();
    dir(&mut fs, &["s"]);
    file(&mut fs, &["s", "f"], 3, 3);
    dir(&mut fs, &["s", "g"]);
    file(&mut fs, &["s", "g", "h"], 4, 4);
    dir(&mut fs, &["t"]);
    assert_eq!(mv(&mut fs, &vec![path(&["s", "f"]), path(&["s", "g"])], &path(&["t"])), Ok(()));
    assert_eq!(fs.get(&path(&["s", "f"])), None);
    assert_eq!(fs.get(&path(&["s", "g"])), None);
    assert_eq!(fs.get(&path(&["t", "f"])), Some(Node::File { content: 3, size: 3 }));
    assert_eq!(fs.get(&path(&["t", "g", "h"])), Some(Node::File { content: 4, size: 4 }));
    assert!(fs.get(&path(&["s"])).is_some());
}

#[test]
fn move_failed_copy_keeps_sources() {
    let mut fs = FileTree::new();
    dir(&mut fs, &["s"]);
    dir(&mut fs, &["t"]);
    dir(&mut fs, &["t", "s"]);
    assert_eq!(mv(&mut fs, &vec![path(&["s"])], &path(&["t"])), Err(FsError::AlreadyExists));
    assert!(fs.get(&path(&["s"])).is_some());
    assert_eq!(mv(&mut fs, &vec![], &path(&["t"])), Err(FsError::InvalidInput));
}

#[test]
fn extract_flattens_and_later_wins() {
    let mut fs = FileTree::new();
    dir(&mut fs, &["src"]);
    file(&mut fs, &["src", "same.txt"], 1, 1);
    dir(&mut fs, &["src", "deep"]);
    file(&mut fs, &["src", "deep", "same.txt"], 2, 2);
    file(&mut fs, &["src", "deep", "other.txt"], 3, 3);
    dir(&mut fs, &["out"]);
    assert_eq!(extract(&mut fs, &vec![path(&["src"])], &path(&["out"])), Ok(()));
    assert_eq!(fs.get(&path(&["out", "same.txt"])), Some(Node::File { content: 2, size: 2 }));
    assert_eq!(fs.get(&path(&["out", "other.txt"])), Some(Node::File { content: 3, size: 3 }));
    let listed = ls(&fs, &path(&["out"])).unwrap();
    assert_eq!(listed.len(), 2);
    for p in listed.iter() {
        assert!(matches!(fs.get(p), Some(Node::File { .. })));
    }
}

#[test]
fn extract_errors() {
    let mut fs = FileTree::new();
    dir(&mut fs, &["src"]);
    file(&mut fs, &["src", "a"], 1, 1);
    file(&mut fs, &["f"], 1, 1);
    dir(&mut fs, &["out"]);
    dir(&mut fs, &["out", "a"]);
    assert_eq!(extract(&mut fs, &vec![], &path(&["out"])), Err(FsError::InvalidInput));
    assert_eq!(extract(&mut fs, &vec![path(&["nope"])], &path(&["out"])), Err(FsError::NotFound));
    assert_eq!(extract(&mut fs, &vec![path(&["f"])], &path(&["out"])), Err(FsError::InvalidInput));
    assert_eq!(extract(&mut fs, &vec![path(&["src"])], &path(&["nope"])), Err(FsError::NotFound));
    assert_eq!(extract(&mut fs, &vec![path(&["src"])], &path(&["f"])), Err(FsError::InvalidInput));
    assert_eq!(extract(&mut fs, &vec![path(&["src"])], &path(&["out"])), Err(FsError::IoFailure));
    assert_eq!(fs.take_journal().len(), 0);
}

#[test]
fn size_counts_directories_too() {
    let fs = data_tree();
    assert_eq!(get_size(&fs, &join(&DATA, &["file-1.txt"])), Ok(10));
    // dir-1 holds two files: 30 + 40.
    assert_eq!(get_size(&fs, &join(&DATA, &["dir-1"])), Ok(70));
    // dir-2: foo (4096) + file 50 + bar (4096) + 60 + 70.
    assert_eq!(get_size(&fs, &join(&DATA, &["dir-2"])), Ok(4096 + 50 + 4096 + 60 + 70));
    assert_eq!(get_size(&fs, &path(&["nope"])), Err(FsError::NotFound));
}

#[test]
fn size_overflow_is_reported() {
    let mut fs = FileTree::new();
    dir(&mut fs, &["big"]);
    file(&mut fs, &["big", "a"], 1, u64::MAX);
    file(&mut fs, &["big", "b"], 2, 1);
    assert_eq!(get_size(&fs, &path(&["big"])), Err(FsError::IoFailure));
}

#[test]
fn add_entry_rejects_orphans() {
    let mut fs = FileTree::new();
    assert_eq!(fs.add_entry(path(&["a", "b"]), Node::Dir { size: 0 }), Err(FsError::InvalidInput));
    assert_eq!(fs.add_entry(path(&[]), Node::Dir { size: 0 }), Err(FsError::InvalidInput));
    file(&mut fs, &["f"], 1, 1);
    assert_eq!(fs.add_entry(path(&["f", "x"]), Node::Dir { size: 0 }), Err(FsError::InvalidInput));
    assert_eq!(fs.add_entry(path(&["f"]), Node::Dir { size: 0 }), Err(FsError::InvalidInput));
}
