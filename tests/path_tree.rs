use syncron::model::TreeError;
use syncron::path_tree::{Directory, Entry, File, Tree};

fn path(parts: &[&str]) -> Vec<Vec<u8>> {
    parts.iter().map(|p| p.as_bytes().to_vec()).collect()
}

#[test]
fn path_tree_insert_get_update_remove() {
    let mut t: Tree<u32> = Tree::new(b"root".to_vec(), 0);
    assert_eq!(t.get(&[]), Ok(&0));
    assert_eq!(t.insert(&path(&["a"]), 1), Ok(()));
    assert_eq!(t.insert(&path(&["a", "b"]), 2), Ok(()));
    assert_eq!(t.get(&path(&["a", "b"])), Ok(&2));
    assert_eq!(t.insert(&path(&["a", "b"]), 3), Err(TreeError::AlreadyExists(path(&["a", "b"]))));
    assert_eq!(t.insert(&path(&["z", "b"]), 3), Err(TreeError::NotFound(path(&["z", "b"]))));
    assert_eq!(t.update(&path(&["a", "b"]), 5), Ok(()));
    assert_eq!(t.get(&path(&["a", "b"])), Ok(&5));
    assert_eq!(t.update(&[], 9), Ok(()));
    assert_eq!(t.get(&[]), Ok(&9));
    assert_eq!(t.remove(&path(&["a"])), Ok(()));
    assert_eq!(t.get(&path(&["a", "b"])), Err(TreeError::NotFound(path(&["a", "b"]))));
    assert_eq!(t.remove(&path(&["a"])), Err(TreeError::NotFound(path(&["a"]))));
}

#[test]
fn path_tree_holds_entries() {
    let f = Entry::File(File { path: path(&["r", "f"]), last_modified: 3, file_size: 9, hash: vec![1, 2] });
    let d = Entry::Directory(Directory { path: path(&["r"]), last_modified: 0, hash: vec![] });
    let mut t = Tree::new(b"r".to_vec(), d);
    t.insert(&path(&["f"]), f).unwrap();
    match t.get(&path(&["f"])).unwrap() {
        Entry::File(file) => assert_eq!(file.file_size, 9),
        Entry::Directory(_) => panic!("expected a file"),
    }
}
