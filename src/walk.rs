use vstd::prelude::*;
use ignore::gitignore::Gitignore;
use std::path::PathBuf;

verus! {

/// `ignore::gitignore::Gitignore`, a compiled set of `.gitignore` patterns,
/// carried through as an opaque value.
#[verifier::external_type_specification]
#[verifier::external_body]
pub struct ExGitignore(ignore::gitignore::Gitignore);

/// `std::path::PathBuf`, the path handed to the pattern matcher, carried
/// through as an opaque value.
#[verifier::external_type_specification]
#[verifier::external_body]
pub struct ExPathBuf(std::path::PathBuf);

/// How one set of ignore patterns judges a path.
#[derive(Clone, Copy, Debug, PartialEq, Eq, Structural)]
pub enum Verdict {
    /// No pattern matches the path.
    Unmatched,
    /// The deciding pattern ignores the path.
    Ignored,
    /// The deciding pattern is a negation (`!pattern`) that keeps the path.
    Whitelisted,
}

/// The verdict of the highest-precedence pattern of `g` that matches `path`
/// (a directory when `is_dir`).
pub uninterp spec fn matched_of(g: Gitignore, path: PathBuf, is_dir: bool) -> Verdict;

/// Relies on `ignore::gitignore::Gitignore::matched`: its result depends on
/// the patterns, the path and `is_dir` alone.
#[verifier::external_body]
fn verdict_of(g: &Gitignore, path: &PathBuf, is_dir: bool) -> (r: Verdict)
    ensures
        r == matched_of(*g, *path, is_dir),
{
    match g.matched(path, is_dir) {
        ignore::Match::None => Verdict::Unmatched,
        ignore::Match::Ignore(_) => Verdict::Ignored,
        ignore::Match::Whitelist(_) => Verdict::Whitelisted,
    }
}

/// The ignore state of a directory being walked: the global patterns, the
/// stack of `.gitignore` layers in force (outermost first, innermost last),
/// and whether the directory lies inside a Git repository.
#[derive(Clone, Debug)]
pub struct WalkState {
    pub global: Option<Gitignore>,
    pub layers: Vec<Gitignore>,
    pub in_repo: bool,
}

impl Default for WalkState {
    fn default() -> (r: WalkState)
        ensures
            r.global is None,
            r.layers@.len() == 0,
            !r.in_repo,
    {
        WalkState { global: None, layers: Vec::new(), in_repo: false }
    }
}

/// The layer, counted from the innermost (0) outward, of the innermost layer
/// whose verdict is `v`; `verdicts` is in stack order, innermost last.
pub open spec fn innermost_layer(verdicts: Seq<Verdict>, v: Verdict) -> Option<nat>
    decreases verdicts.len(),
{
    if verdicts.len() == 0 {
        None
    } else if verdicts.last() == v {
        Some(0)
    } else {
        match innermost_layer(verdicts.drop_last(), v) {
            None => None,
            Some(l) => Some(l + 1),
        }
    }
}

/// Whether a path is kept, given whether the walk is inside a repository,
/// the verdict of each layer (stack order) and whether the global patterns
/// ignore it: outside a repository everything is kept; a whitelisting layer
/// closer in than every ignoring layer keeps the path; with no layer
/// deciding, the global patterns decide.
pub open spec fn retained(in_repo: bool, verdicts: Seq<Verdict>, global_ignored: bool) -> bool {
    if !in_repo {
        true
    } else {
        match (innermost_layer(verdicts, Verdict::Ignored), innermost_layer(verdicts, Verdict::Whitelisted)) {
            (None, None) => !global_ignored,
            (None, Some(_)) => true,
            (Some(_), None) => false,
            (Some(i), Some(w)) => w < i,
        }
    }
}

/// The innermost layer with verdict `v`, counted from the innermost outward.
fn find_innermost(verdicts: &Vec<Verdict>, v: Verdict) -> (r: Option<usize>)
    ensures
        match r {
            None => innermost_layer(verdicts@, v) is None,
            Some(x) => innermost_layer(verdicts@, v) == Some(x as nat),
        },
{
    let mut k: usize = verdicts.len();
    assert(verdicts@.subrange(0, k as int) =~= verdicts@);
    while k > 0
        invariant
            k <= verdicts@.len(),
            innermost_layer(verdicts@, v) == match innermost_layer(verdicts@.subrange(0, k as int), v) {
                None => None,
                Some(l) => Some(l + (verdicts@.len() - k) as nat),
            },
        decreases k,
    {
        let ghost s = verdicts@.subrange(0, k as int);
        assert(s.drop_last() =~= verdicts@.subrange(0, k - 1));
        if verdicts[k - 1] == v {
            return Some(verdicts.len() - k);
        }
        k = k - 1;
    }
    assert(verdicts@.subrange(0, 0) =~= Seq::<Verdict>::empty());
    None
}

/// Decides whether a path is kept; see `retained`.
pub fn retain_decision(in_repo: bool, verdicts: &Vec<Verdict>, global_ignored: bool) -> (r: bool)
    ensures
        r == retained(in_repo, verdicts@, global_ignored),
{
    if !in_repo {
        return true;
    }
    let ignored = find_innermost(verdicts, Verdict::Ignored);
    let whitelisted = find_innermost(verdicts, Verdict::Whitelisted);
    match (ignored, whitelisted) {
        (None, None) => !global_ignored,
        (None, Some(_)) => true,
        (Some(_), None) => false,
        (Some(i), Some(w)) => w < i,
    }
}

/// The verdict of each layer on `path`, in stack order.
pub open spec fn layer_verdicts(layers: Seq<Gitignore>, path: PathBuf, is_dir: bool) -> Seq<Verdict> {
    Seq::new(layers.len(), |i: int| matched_of(layers[i], path, is_dir))
}

/// Whether the global patterns ignore `path`.
pub open spec fn globally_ignored(global: Option<Gitignore>, path: PathBuf, is_dir: bool) -> bool {
    match global {
        Some(g) => matched_of(g, path, is_dir) == Verdict::Ignored,
        None => false,
    }
}

/// Whether the walk keeps `path` (a directory when `is_dir`): every layer and
/// the global patterns judge it, and `retained` decides.
pub fn should_retain_path(path: &PathBuf, is_dir: bool, state: &WalkState) -> (r: bool)
    ensures
        r == retained(
            state.in_repo,
            layer_verdicts(state.layers@, *path, is_dir),
            globally_ignored(state.global, *path, is_dir),
        ),
{
    if !state.in_repo {
        return true;
    }
    let mut verdicts: Vec<Verdict> = Vec::new();
    let mut k: usize = 0;
    while k < state.layers.len()
        invariant
            0 <= k <= state.layers@.len(),
            verdicts@ =~= Seq::new(k as nat, |i: int| matched_of(state.layers@[i], *path, is_dir)),
        decreases state.layers.len() - k,
    {
        let v = verdict_of(&state.layers[k], path, is_dir);
        verdicts.push(v);
        k = k + 1;
    }
    let global_ignored = match &state.global {
        Some(g) => verdict_of(g, path, is_dir) == Verdict::Ignored,
        None => false,
    };
    assert(verdicts@ =~= layer_verdicts(state.layers@, *path, is_dir));
    retain_decision(true, &verdicts, global_ignored)
}

/// The index of the nearest ancestor (0 = the parent) that holds a `.git`
/// directory, if any: the root of the repository the walk starts in.
pub fn repo_boundary(has_git: &Vec<bool>) -> (r: Option<usize>)
    ensures
        match r {
            None => forall|k: int| 0 <= k < has_git@.len() ==> !has_git@[k],
            Some(k) => k < has_git@.len() && has_git@[k as int]
                && forall|j: int| 0 <= j < k ==> !has_git@[j],
        },
{
    let mut k: usize = 0;
    while k < has_git.len()
        invariant
            0 <= k <= has_git@.len(),
            forall|j: int| 0 <= j < k ==> !has_git@[j],
        decreases has_git.len() - k,
    {
        if has_git[k] {
            return Some(k);
        }
        k = k + 1;
    }
    None
}

/// The state at the start of a walk. `nearest_first` holds the patterns of
/// the ancestors from the parent up to the repository root; inside a
/// repository they are stacked outermost first, outside one none applies.
pub fn initial_state(global: Option<Gitignore>, nearest_first: Vec<Gitignore>, in_repo: bool) -> (r: WalkState)
    ensures
        r.global == global,
        r.in_repo == in_repo,
        in_repo ==> r.layers@ == nearest_first@.reverse(),
        !in_repo ==> r.layers@.len() == 0,
{
    let mut layers: Vec<Gitignore> = Vec::new();
    if in_repo {
        let mut rest = nearest_first;
        while rest.len() > 0
            invariant
                rest@ + layers@.reverse() == nearest_first@,
            decreases rest.len(),
        {
            let ghost before = layers@;
            let g = rest.pop().unwrap();
            layers.push(g);
            assert(layers@.reverse() =~= seq![g] + before.reverse());
        }
        assert(layers@.reverse() =~= nearest_first@);
        assert(layers@.reverse().reverse() =~= layers@);
    }
    WalkState { global, layers, in_repo }
}

impl WalkState {
    /// Enters a directory: one that holds `.git` starts a new repository and
    /// drops the layers of the enclosing one. Returns whether the directory's
    /// own `.gitignore` patterns are to be pushed.
    pub fn enter_dir(&mut self, has_git_dir: bool) -> (r: bool)
        ensures
            final(self).global == old(self).global,
            final(self).in_repo == (old(self).in_repo || has_git_dir),
            has_git_dir ==> final(self).layers@.len() == 0,
            !has_git_dir ==> final(self).layers@ == old(self).layers@,
            r == final(self).in_repo,
    {
        if has_git_dir {
            self.layers.clear();
            self.in_repo = true;
        }
        self.in_repo
    }

    /// Pushes the patterns of the directory just entered as the innermost
    /// layer.
    pub fn push_layer(&mut self, g: Gitignore)
        ensures
            final(self).global == old(self).global,
            final(self).in_repo == old(self).in_repo,
            final(self).layers@ == old(self).layers@.push(g),
    {
        self.layers.push(g);
    }
}

} // verus!
