use syncron::bytes::{bytes_equal, compare_segments};
use syncron::diff::find_moves;
use syncron::diff::Change;
use syncron::entry::{MerkleDir, MerkleEntry, MerkleFile};
use syncron::merkle_tree::MerkleTree;
use syncron::model::TreeError;

fn seg(s: &str) -> Vec<u8> {
    s.as_bytes().to_vec()
}

fn path(parts: &[&str]) -> Vec<Vec<u8>> {
    parts.iter().map(|p| seg(p)).collect()
}

fn file(parts: &[&str], hash: &[u8], last_modified: u64) -> MerkleEntry {
    MerkleEntry::File(MerkleFile {
        path: path(parts),
        last_modified,
        file_size: 0,
        hash: hash.to_vec(),
    })
}

fn dir(parts: &[&str]) -> MerkleEntry {
    MerkleEntry::Directory(MerkleDir::from_path(path(parts)))
}

fn digest_of(parts: &[&[u8]]) -> Vec<u8> {
    let mut h = blake3::Hasher::new();
    for p in parts {
        h.update(p);
    }
    h.finalize().as_bytes().to_vec()
}

fn h(name: &str) -> Vec<u8> {
    blake3::hash(name.as_bytes()).as_bytes().to_vec()
}

fn root_tree() -> MerkleTree {
    MerkleTree::new(seg("r"), dir(&["r"]))
}

#[test]
fn empty_to_one_insertion() {
    let mut t = root_tree();
    let ha = h("content a");
    assert_eq!(t.insert(&path(&["a"]), file(&["r", "a"], &ha, 10)), Ok(()));
    assert_eq!(t.root_hash(), digest_of(&[&ha, b"a"]));
    assert_eq!(t.get_hash(&path(&["a"])), Ok(ha));
}

#[test]
fn two_siblings_ordering() {
    let mut t = root_tree();
    let ha = h("content a");
    let hb = h("content b");
    t.insert(&path(&["b"]), file(&["r", "b"], &hb, 10)).unwrap();
    t.insert(&path(&["a"]), file(&["r", "a"], &ha, 10)).unwrap();
    assert_eq!(t.root_hash(), digest_of(&[&ha, b"a", &hb, b"b"]));
}

#[test]
fn removal_restores() {
    let mut t = root_tree();
    let ha = h("content a");
    let hb = h("content b");
    t.insert(&path(&["b"]), file(&["r", "b"], &hb, 10)).unwrap();
    t.insert(&path(&["a"]), file(&["r", "a"], &ha, 10)).unwrap();
    let both = t.root_hash();
    assert_eq!(t.remove(&path(&["a"])), Ok(()));
    assert_eq!(t.root_hash(), digest_of(&[&hb, b"b"]));
    t.insert(&path(&["a"]), file(&["r", "a"], &ha, 10)).unwrap();
    assert_eq!(t.root_hash(), both);
}

#[test]
fn remove_only_child_then_reinsert_restores() {
    let mut t = root_tree();
    let ha = h("content a");
    t.insert(&path(&["a"]), file(&["r", "a"], &ha, 10)).unwrap();
    let one = t.root_hash();
    t.remove(&path(&["a"])).unwrap();
    // a node left without children takes its entry's hash and time again
    assert_eq!(t.root_hash(), h("r"));
    assert_eq!(t.get_last_modified(&[]), Ok(0));
    t.insert(&path(&["a"]), file(&["r", "a"], &ha, 10)).unwrap();
    assert_eq!(t.root_hash(), one);
}

#[test]
fn nested_insert_recomputes_ancestors() {
    let mut t = root_tree();
    let hy = h("content y");
    t.insert(&path(&["x"]), dir(&["r", "x"])).unwrap();
    assert_eq!(t.get_hash(&path(&["x"])), Ok(h("x")));
    t.insert(&path(&["x", "y"]), file(&["r", "x", "y"], &hy, 7)).unwrap();
    let hx = digest_of(&[&hy, b"y"]);
    assert_eq!(t.get_hash(&path(&["x"])), Ok(hx.clone()));
    assert_eq!(t.root_hash(), digest_of(&[&hx, b"x"]));
    assert_eq!(t.get_last_modified(&path(&["x", "y"])), Ok(7));
}

#[test]
fn insert_existing_fails() {
    let mut t = root_tree();
    let ha = h("content a");
    t.insert(&path(&["a"]), file(&["r", "a"], &ha, 10)).unwrap();
    let before = t.root_hash();
    assert_eq!(
        t.insert(&path(&["a"]), file(&["r", "a"], &h("other"), 11)),
        Err(TreeError::AlreadyExists(path(&["a"])))
    );
    assert_eq!(t.root_hash(), before);
    assert_eq!(t.get_hash(&path(&["a"])), Ok(ha));
}

#[test]
fn insert_new_path_changes_root_hash() {
    let mut t = root_tree();
    t.insert(&path(&["a"]), file(&["r", "a"], &h("content a"), 10)).unwrap();
    let before = t.root_hash();
    t.insert(&path(&["b"]), file(&["r", "b"], &h("content a"), 10)).unwrap();
    assert_ne!(t.root_hash(), before);
}

#[test]
fn insert_missing_parent_not_found() {
    let mut t = root_tree();
    assert_eq!(
        t.insert(&path(&["x", "y"]), file(&["r", "x", "y"], &h("y"), 1)),
        Err(TreeError::NotFound(path(&["x", "y"])))
    );
}

#[test]
fn remove_and_update_missing_not_found() {
    let mut t = root_tree();
    assert_eq!(t.remove(&path(&["nope"])), Err(TreeError::NotFound(path(&["nope"]))));
    assert_eq!(
        t.update(&path(&["nope"]), dir(&["r", "nope"])),
        Err(TreeError::NotFound(path(&["nope"])))
    );
    assert!(t.get(&path(&["nope"])).is_err());
    assert_eq!(
        t.get_hash(&path(&["nope", "deeper"])),
        Err(TreeError::NotFound(path(&["nope", "deeper"])))
    );
}

#[test]
fn get_root_with_empty_path() {
    let t = root_tree();
    let e = t.get(&[]).unwrap();
    assert_eq!(e.get_path(), &path(&["r"]));
    assert_eq!(t.root_hash(), h("r"));
    assert_eq!(t.get_last_modified(&[]), Ok(0));
}

#[test]
fn update_leaf_takes_entry_hash() {
    let mut t = root_tree();
    t.insert(&path(&["a"]), file(&["r", "a"], &h("v1"), 10)).unwrap();
    let h2 = h("v2");
    t.update(&path(&["a"]), file(&["r", "a"], &h2, 20)).unwrap();
    assert_eq!(t.get_hash(&path(&["a"])), Ok(h2.clone()));
    assert_eq!(t.get_last_modified(&path(&["a"])), Ok(20));
    assert_eq!(t.root_hash(), digest_of(&[&h2, b"a"]));
}

#[test]
fn update_interior_keeps_hash() {
    let mut t = root_tree();
    t.insert(&path(&["x"]), dir(&["r", "x"])).unwrap();
    t.insert(&path(&["x", "y"]), file(&["r", "x", "y"], &h("y"), 1)).unwrap();
    let hx = t.get_hash(&path(&["x"])).unwrap();
    t.update(&path(&["x"]), file(&["r", "x"], &h("other"), 5)).unwrap();
    assert_eq!(t.get_hash(&path(&["x"])), Ok(hx));
    let e = t.get(&path(&["x"])).unwrap();
    assert_eq!(e.get_hash(), h("other"));
}

fn tree_of(files: &[(&str, &[u8], u64)]) -> MerkleTree {
    let mut t = root_tree();
    for (name, hash, lm) in files {
        t.insert(&path(&[name]), file(&["r", name], hash, *lm)).unwrap();
    }
    t
}

fn paths(cs: &[Change]) -> Vec<Vec<Vec<u8>>> {
    cs.iter().map(|c| c.path.clone()).collect()
}

#[test]
fn diff_detects_right_only_add() {
    let ha = h("content a");
    let hb = h("content b");
    let t1 = tree_of(&[("a", &ha, 10)]);
    let t2 = tree_of(&[("a", &ha, 10), ("b", &hb, 10)]);
    let d = t1.find_difference(&t2).unwrap();
    assert!(d.left.is_empty());
    assert_eq!(paths(&d.right), vec![path(&["b"])]);
    assert_eq!(d.right[0].hash, hb);
}

#[test]
fn leaf_timestamp_tie_break() {
    let t1 = MerkleTree::new(seg("f"), file(&["f"], &h("one"), 100));
    let t2 = MerkleTree::new(seg("f"), file(&["f"], &h("two"), 50));
    let d = t1.find_difference(&t2).unwrap();
    assert_eq!(paths(&d.left), vec![path(&[])]);
    assert!(d.right.is_empty());
    assert_eq!(d.left[0].last_modified, 100);
}

#[test]
fn equal_timestamps_go_right() {
    let t1 = MerkleTree::new(seg("f"), file(&["f"], &h("one"), 50));
    let t2 = MerkleTree::new(seg("f"), file(&["f"], &h("two"), 50));
    let d = t1.find_difference(&t2).unwrap();
    assert!(d.left.is_empty());
    assert_eq!(d.right[0].hash, h("two"));
}

#[test]
fn move_detection() {
    let hf = h("same content");
    let mut t1 = root_tree();
    t1.insert(&path(&["x"]), dir(&["r", "x"])).unwrap();
    t1.insert(&path(&["x", "y"]), file(&["r", "x", "y"], &hf, 10)).unwrap();
    let mut t2 = root_tree();
    t2.insert(&path(&["x"]), dir(&["r", "x"])).unwrap();
    t2.insert(&path(&["x", "z"]), file(&["r", "x", "z"], &hf, 10)).unwrap();
    let d = t1.find_difference(&t2).unwrap();
    assert_eq!(paths(&d.left), vec![path(&["x", "y"])]);
    assert_eq!(paths(&d.right), vec![path(&["x", "z"])]);
    assert_eq!(d.moves, vec![(0, 0)]);
}

#[test]
fn diff_identical_is_none() {
    let t = tree_of(&[("a", &h("a"), 1), ("b", &h("b"), 2)]);
    assert!(t.find_difference(&t).is_none());
    let empty1 = root_tree();
    let empty2 = root_tree();
    assert!(empty1.find_difference(&empty2).is_none());
}

#[test]
fn diff_symmetric_swaps_sides() {
    let t1 = tree_of(&[("a", &h("a1"), 30), ("b", &h("b"), 2), ("c", &h("c"), 3)]);
    let t2 = tree_of(&[("a", &h("a2"), 20), ("b", &h("b"), 2), ("d", &h("d"), 4)]);
    let d12 = t1.find_difference(&t2).unwrap();
    let d21 = t2.find_difference(&t1).unwrap();
    assert_eq!(paths(&d12.left), paths(&d21.right));
    assert_eq!(paths(&d12.right), paths(&d21.left));
    assert_eq!(paths(&d12.left), vec![path(&["a"]), path(&["c"])]);
    assert_eq!(paths(&d12.right), vec![path(&["d"])]);
}

#[test]
fn diff_leaf_against_interior_reports_leaves() {
    let mut t1 = root_tree();
    t1.insert(&path(&["x"]), file(&["r", "x"], &h("x file"), 5)).unwrap();
    let mut t2 = root_tree();
    t2.insert(&path(&["x"]), dir(&["r", "x"])).unwrap();
    t2.insert(&path(&["x", "p"]), dir(&["r", "x", "p"])).unwrap();
    t2.insert(&path(&["x", "p", "q"]), file(&["r", "x", "p", "q"], &h("q"), 5)).unwrap();
    t2.insert(&path(&["x", "s"]), file(&["r", "x", "s"], &h("s"), 5)).unwrap();
    let d = t1.find_difference(&t2).unwrap();
    assert!(d.left.is_empty());
    assert_eq!(paths(&d.right), vec![path(&["x", "p", "q"]), path(&["x", "s"])]);
}

#[test]
fn moves_pair_every_equal_hash() {
    let c = |p: &str, hash: &[u8]| Change { path: path(&[p]), hash: hash.to_vec(), last_modified: 0 };
    let left = vec![c("a", b"h1"), c("b", b"h2")];
    let right = vec![c("c", b"h2"), c("d", b"h1"), c("e", b"h2")];
    assert_eq!(find_moves(&left, &right), vec![(0, 1), (1, 0), (1, 2)]);
    assert!(find_moves(&left, &Vec::new()).is_empty());
}

#[test]
fn entry_hashes_cover_name() {
    let f = MerkleFile::from_contents(path(&["home", "notes.txt"]), 42, b"hello");
    assert_eq!(f.hash, digest_of(&[b"notes.txt", b"hello"]));
    assert_eq!(f.file_size, 5);
    assert_eq!(f.last_modified, 42);
    let g = MerkleFile::from_contents(path(&["home", "other.txt"]), 42, b"hello");
    assert_ne!(f.hash, g.hash);
    let d = MerkleDir::from_path(path(&["home", "docs"]));
    assert_eq!(d.hash, h("docs"));
    assert_eq!(d.last_modified, 0);
    let e = MerkleEntry::File(f);
    assert_eq!(e.get_last_modified(), 42);
    assert_eq!(e.path_segments(), path(&["home", "notes.txt"]));
}

#[test]
fn segment_order_is_bytewise() {
    assert!(compare_segments(b"a", b"b") < 0);
    assert!(compare_segments(b"b", b"a") > 0);
    assert_eq!(compare_segments(b"ab", b"ab"), 0);
    assert!(compare_segments(b"a", b"ab") < 0);
    assert!(compare_segments(b"", b"a") < 0);
    assert!(compare_segments(b"Z", b"a") < 0);
    assert!(bytes_equal(b"xyz", b"xyz"));
    assert!(!bytes_equal(b"xyz", b"xy"));
}

#[test]
fn insertion_order_does_not_change_root_hash() {
    let ha = h("a");
    let hy = h("y");
    let mut t1 = root_tree();
    t1.insert(&path(&["x"]), dir(&["r", "x"])).unwrap();
    t1.insert(&path(&["a"]), file(&["r", "a"], &ha, 1)).unwrap();
    t1.insert(&path(&["x", "y"]), file(&["r", "x", "y"], &hy, 2)).unwrap();
    let mut t2 = root_tree();
    t2.insert(&path(&["a"]), file(&["r", "a"], &ha, 1)).unwrap();
    t2.insert(&path(&["x"]), dir(&["r", "x"])).unwrap();
    t2.insert(&path(&["x", "y"]), file(&["r", "x", "y"], &hy, 2)).unwrap();
    assert_eq!(t1.root_hash(), t2.root_hash());
    assert!(t1.find_difference(&t2).is_none());
}

#[test]
fn leaves_hold_their_entry_hashes() {
    let mut t = root_tree();
    t.insert(&path(&["x"]), dir(&["r", "x"])).unwrap();
    t.insert(&path(&["x", "y"]), file(&["r", "x", "y"], &h("y"), 2)).unwrap();
    t.insert(&path(&["z"]), file(&["r", "z"], &h("z"), 3)).unwrap();
    for p in [path(&["x", "y"]), path(&["z"])] {
        let entry_hash = t.get(&p).unwrap().get_hash();
        assert_eq!(t.get_hash(&p), Ok(entry_hash));
    }
    assert_ne!(t.get_hash(&path(&["x"])), Ok(t.get(&path(&["x"])).unwrap().get_hash()));
}

#[test]
fn emptied_directory_holds_entry_hash() {
    let mut t = root_tree();
    t.insert(&path(&["x"]), dir(&["r", "x"])).unwrap();
    t.insert(&path(&["x", "y"]), file(&["r", "x", "y"], &h("y"), 4)).unwrap();
    assert_ne!(t.get_hash(&path(&["x"])), Ok(h("x")));
    t.remove(&path(&["x", "y"])).unwrap();
    assert_eq!(t.get_hash(&path(&["x"])), Ok(h("x")));
    assert_eq!(t.get_last_modified(&path(&["x"])), Ok(0));
    assert_eq!(t.root_hash(), digest_of(&[&h("x"), b"x"]));
}

#[test]
fn moves_swap_with_sides() {
    let hf = h("same content");
    let t1 = tree_of(&[("p", &hf, 10), ("q", &h("q1"), 30)]);
    let t2 = tree_of(&[("s", &hf, 10), ("q", &h("q2"), 20)]);
    let d12 = t1.find_difference(&t2).unwrap();
    let d21 = t2.find_difference(&t1).unwrap();
    assert_eq!(paths(&d12.left), vec![path(&["p"]), path(&["q"])]);
    assert_eq!(paths(&d12.right), vec![path(&["s"])]);
    assert_eq!(d12.moves, vec![(0, 0)]);
    let swapped: Vec<(usize, usize)> = d21.moves.iter().map(|(i, j)| (*j, *i)).collect();
    assert_eq!(swapped, d12.moves);
}

#[test]
fn subtree_removed_and_reinserted_restores_hashes() {
    let mut t = root_tree();
    t.insert(&path(&["b"]), file(&["r", "b"], &h("b"), 1)).unwrap();
    t.insert(&path(&["x"]), dir(&["r", "x"])).unwrap();
    t.insert(&path(&["x", "p"]), dir(&["r", "x", "p"])).unwrap();
    t.insert(&path(&["x", "p", "q"]), file(&["r", "x", "p", "q"], &h("q"), 2)).unwrap();
    t.insert(&path(&["x", "y"]), file(&["r", "x", "y"], &h("y"), 3)).unwrap();
    let root = t.root_hash();
    let hx = t.get_hash(&path(&["x"])).unwrap();
    let hp = t.get_hash(&path(&["x", "p"])).unwrap();
    t.remove(&path(&["x"])).unwrap();
    assert_ne!(t.root_hash(), root);
    t.insert(&path(&["x"]), dir(&["r", "x"])).unwrap();
    t.insert(&path(&["x", "p"]), dir(&["r", "x", "p"])).unwrap();
    t.insert(&path(&["x", "p", "q"]), file(&["r", "x", "p", "q"], &h("q"), 2)).unwrap();
    t.insert(&path(&["x", "y"]), file(&["r", "x", "y"], &h("y"), 3)).unwrap();
    assert_eq!(t.root_hash(), root);
    assert_eq!(t.get_hash(&path(&["x"])), Ok(hx));
    assert_eq!(t.get_hash(&path(&["x", "p"])), Ok(hp));
}
