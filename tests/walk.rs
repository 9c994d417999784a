use ignore::gitignore::{Gitignore, GitignoreBuilder};
use std::path::PathBuf;
use syncron::walk::Verdict::{Ignored, Unmatched, Whitelisted};
use syncron::walk::{initial_state, repo_boundary, retain_decision, should_retain_path, WalkState};

fn patterns(root: &str, lines: &[&str]) -> Gitignore {
    let mut b = GitignoreBuilder::new(root);
    for l in lines {
        b.add_line(None, l).unwrap();
    }
    b.build().unwrap()
}

#[test]
fn decision_table() {
    assert!(retain_decision(false, &vec![Ignored], true));
    assert!(retain_decision(true, &vec![Unmatched, Unmatched], false));
    assert!(!retain_decision(true, &vec![Unmatched], true));
    assert!(retain_decision(true, &vec![Whitelisted], true));
    assert!(!retain_decision(true, &vec![Ignored, Unmatched], false));
    // innermost is last: a closer-in whitelist wins
    assert!(retain_decision(true, &vec![Ignored, Whitelisted], false));
    assert!(!retain_decision(true, &vec![Whitelisted, Ignored], false));
    assert!(retain_decision(true, &vec![], false));
    assert!(!retain_decision(true, &vec![], true));
}

#[test]
fn boundary_is_nearest_git_ancestor() {
    assert_eq!(repo_boundary(&vec![false, true, true]), Some(1));
    assert_eq!(repo_boundary(&vec![false, false]), None);
    assert_eq!(repo_boundary(&vec![]), None);
}

#[test]
fn initial_layers_outermost_first() {
    let inner = patterns("/repo/sub", &["*.tmp"]);
    let outer = patterns("/repo", &["*.log"]);
    let s = initial_state(None, vec![inner, outer], true);
    assert!(s.in_repo);
    assert_eq!(s.layers.len(), 2);
    assert_eq!(s.layers[1].num_ignores(), 1);
    let p = PathBuf::from("/repo/sub/a.tmp");
    assert!(!should_retain_path(&p, false, &s));
    let outside = initial_state(None, vec![patterns("/x", &["*"])], false);
    assert!(outside.layers.is_empty());
    assert!(should_retain_path(&PathBuf::from("/x/y"), false, &outside));
}

#[test]
fn retain_follows_patterns() {
    let mut s = WalkState::default();
    assert!(s.enter_dir(true));
    s.push_layer(patterns("/repo", &["*.log", "!keep.log"]));
    assert!(!should_retain_path(&PathBuf::from("/repo/a.log"), false, &s));
    assert!(should_retain_path(&PathBuf::from("/repo/keep.log"), false, &s));
    assert!(should_retain_path(&PathBuf::from("/repo/a.txt"), false, &s));
    // a closer-in layer re-includes what an outer one ignored
    assert!(s.enter_dir(false));
    s.push_layer(patterns("/repo/sub", &["!b.log"]));
    assert!(should_retain_path(&PathBuf::from("/repo/sub/b.log"), false, &s));
    assert!(!should_retain_path(&PathBuf::from("/repo/sub/c.log"), false, &s));
    // a nested repository drops the enclosing layers
    assert!(s.enter_dir(true));
    assert!(s.layers.is_empty());
}

#[test]
fn global_patterns_decide_when_layers_do_not() {
    let mut s = initial_state(Some(patterns("/repo", &["*.bak"])), vec![Gitignore::empty()], true);
    assert!(!should_retain_path(&PathBuf::from("/repo/x.bak"), false, &s));
    s.push_layer(patterns("/repo", &["!x.bak"]));
    assert!(should_retain_path(&PathBuf::from("/repo/x.bak"), false, &s));
}

#[test]
fn not_in_repo_keeps_everything() {
    let mut s = WalkState::default();
    assert!(!s.enter_dir(false));
    assert!(should_retain_path(&PathBuf::from("/any/.hidden"), false, &s));
}
