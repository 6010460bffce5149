//! The directory reconciler: diffs the remote catalog against the local
//! directory tree and plans the minimal set of filesystem operations that
//! bring the tree up to date.
//!
//! The local tree is modelled as the sets of category and challenge
//! directories that exist under the active root and under the done root.
//! Reconciliation returns the filesystem actions to perform together with the
//! tree as it stands once they are applied.

use vstd::prelude::*;
use crate::models::{Catalog, CategoryChallenges, ChallengeSummary};

verus! {

/// A challenge directory: `<root>/<category>/<name>`.
pub struct ChallengeDir {
    pub category: String,
    pub name: String,
}

/// The local tree: which category and challenge directories exist under the
/// active root and under the done root.
pub struct Tree {
    pub active_categories: Vec<String>,
    pub done_categories: Vec<String>,
    pub active: Vec<ChallengeDir>,
    pub done: Vec<ChallengeDir>,
}

/// `v` holds a string whose characters are `x`.
pub open spec fn seq_has_str(v: Seq<String>, x: Seq<char>) -> bool {
    exists|i: int| 0 <= i < v.len() && v[i]@ == x
}

/// `v` holds the directory `cat/name`.
pub open spec fn seq_has_dir(v: Seq<ChallengeDir>, cat: Seq<char>, name: Seq<char>) -> bool {
    exists|i: int| 0 <= i < v.len() && v[i].category@ == cat && v[i].name@ == name
}

impl Tree {
    pub open spec fn has_active_cat(&self, cat: Seq<char>) -> bool {
        seq_has_str(self.active_categories@, cat)
    }

    pub open spec fn has_done_cat(&self, cat: Seq<char>) -> bool {
        seq_has_str(self.done_categories@, cat)
    }

    pub open spec fn has_active(&self, cat: Seq<char>, name: Seq<char>) -> bool {
        seq_has_dir(self.active@, cat, name)
    }

    pub open spec fn has_done(&self, cat: Seq<char>, name: Seq<char>) -> bool {
        seq_has_dir(self.done@, cat, name)
    }

    /// No challenge directory exists under both roots at once.
    pub open spec fn wf_pairs(&self) -> bool {
        forall|c: Seq<char>, n: Seq<char>|
            !(#[trigger] self.has_active(c, n) && self.has_done(c, n))
    }

    /// An empty tree: nothing materialized yet.
    pub fn new() -> (r: Tree)
        ensures
            forall|c: Seq<char>| !r.has_active_cat(c) && !r.has_done_cat(c),
            forall|c: Seq<char>, n: Seq<char>| !r.has_active(c, n) && !r.has_done(c, n),
    {
        Tree {
            active_categories: Vec::new(),
            done_categories: Vec::new(),
            active: Vec::new(),
            done: Vec::new(),
        }
    }

    /// The directory `cat/name` exists under the active root.
    pub fn has_active_dir(&self, cat: &str, name: &str) -> (r: bool)
        ensures
            r == self.has_active(cat@, name@),
    {
        vec_has_dir(&self.active, cat, name)
    }

    /// The directory `.done/cat/name` exists under the done root.
    pub fn has_done_dir(&self, cat: &str, name: &str) -> (r: bool)
        ensures
            r == self.has_done(cat@, name@),
    {
        vec_has_dir(&self.done, cat, name)
    }
}

fn vec_has_str(v: &Vec<String>, x: &str) -> (r: bool)
    ensures
        r == seq_has_str(v@, x@),
{
    let mut i: usize = 0;
    while i < v.len()
        invariant
            i <= v@.len(),
            forall|j: int| 0 <= j < i ==> v@[j]@ != x@,
        decreases v@.len() - i,
    {
        if crate::text::str_eq(v[i].as_str(), x) {
            return true;
        }
        i += 1;
    }
    false
}

fn vec_has_dir(v: &Vec<ChallengeDir>, cat: &str, name: &str) -> (r: bool)
    ensures
        r == seq_has_dir(v@, cat@, name@),
{
    let mut i: usize = 0;
    while i < v.len()
        invariant
            i <= v@.len(),
            forall|j: int| 0 <= j < i ==> !(v@[j].category@ == cat@ && v@[j].name@ == name@),
        decreases v@.len() - i,
    {
        if crate::text::str_eq(v[i].category.as_str(), cat)
            && crate::text::str_eq(v[i].name.as_str(), name) {
            return true;
        }
        i += 1;
    }
    false
}

/// Adds `x` unless an equal string is already present.
fn push_str_if_missing(v: &mut Vec<String>, x: &str)
    ensures
        forall|s: Seq<char>| seq_has_str(final(v)@, s) == (seq_has_str(old(v)@, s) || s == x@),
{
    if !vec_has_str(v, x) {
        let owned = String::from_str(x);
        v.push(owned);
        proof {
            assert forall|s: Seq<char>|
                seq_has_str(v@, s) == (seq_has_str(old(v)@, s) || s == x@) by {
                if seq_has_str(v@, s) {
                    let i = choose|i: int| 0 <= i < v@.len() && v@[i]@ == s;
                    if i < old(v)@.len() {
                        assert(old(v)@[i]@ == s);
                    } else {
                        assert(v@[i]@ == x@);
                    }
                }
                if seq_has_str(old(v)@, s) {
                    let i = choose|i: int| 0 <= i < old(v)@.len() && old(v)@[i]@ == s;
                    assert(v@[i]@ == s);
                }
                if s == x@ {
                    assert(v@[old(v)@.len() as int]@ == s);
                }
            }
        }
    }
}

/// Adds the directory `cat/name` unless it is already present.
pub(crate) fn push_dir_if_missing(v: &mut Vec<ChallengeDir>, cat: &str, name: &str)
    ensures
        forall|c: Seq<char>, n: Seq<char>|
            seq_has_dir(final(v)@, c, n) == (seq_has_dir(old(v)@, c, n) || (c == cat@ && n == name@)),
{
    if !vec_has_dir(v, cat, name) {
        let d = ChallengeDir { category: String::from_str(cat), name: String::from_str(name) };
        v.push(d);
        proof {
            assert forall|c: Seq<char>, n: Seq<char>|
                seq_has_dir(v@, c, n) == (seq_has_dir(old(v)@, c, n) || (c == cat@ && n == name@)) by {
                if seq_has_dir(v@, c, n) {
                    let i = choose|i: int|
                        0 <= i < v@.len() && v@[i].category@ == c && v@[i].name@ == n;
                    if i < old(v)@.len() {
                        assert(old(v)@[i].category@ == c && old(v)@[i].name@ == n);
                    }
                }
                if seq_has_dir(old(v)@, c, n) {
                    let i = choose|i: int|
                        0 <= i < old(v)@.len() && old(v)@[i].category@ == c && old(v)@[i].name@ == n;
                    assert(v@[i].category@ == c && v@[i].name@ == n);
                }
                if c == cat@ && n == name@ {
                    assert(v@[old(v)@.len() as int].category@ == c);
                    assert(v@[old(v)@.len() as int].name@ == n);
                }
            }
        }
    }
}

/// Removes every occurrence of the directory `cat/name`.
pub(crate) fn remove_dir(v: &mut Vec<ChallengeDir>, cat: &str, name: &str)
    ensures
        forall|c: Seq<char>, n: Seq<char>|
            seq_has_dir(final(v)@, c, n)
                == (seq_has_dir(old(v)@, c, n) && !(c == cat@ && n == name@)),
{
    let mut out: Vec<ChallengeDir> = Vec::new();
    let mut i: usize = 0;
    while i < v.len()
        invariant
            i <= v@.len(),
            forall|c: Seq<char>, n: Seq<char>|
                seq_has_dir(out@, c, n)
                    == (seq_has_dir(v@.take(i as int), c, n) && !(c == cat@ && n == name@)),
        decreases v@.len() - i,
    {
        let keep = !(crate::text::str_eq(v[i].category.as_str(), cat)
            && crate::text::str_eq(v[i].name.as_str(), name));
        let ghost prev_out = out@;
        if keep {
            let d = ChallengeDir {
                category: v[i].category.clone(),
                name: v[i].name.clone(),
            };
            proof {
                assert(d.category@ == v@[i as int].category@);
                assert(d.name@ == v@[i as int].name@);
            }
            out.push(d);
        }
        proof {
            let ip1: int = i + 1;
            assert(v@.take(ip1) =~= v@.take(i as int).push(v@[i as int]));
            assert forall|c: Seq<char>, n: Seq<char>|
                seq_has_dir(out@, c, n)
                    == (seq_has_dir(v@.take(ip1), c, n) && !(c == cat@ && n == name@)) by {
                let ti = v@.take(i as int);
                let tip1 = v@.take(ip1);
                if seq_has_dir(out@, c, n) {
                    let k = choose|k: int|
                        0 <= k < out@.len() && out@[k].category@ == c && out@[k].name@ == n;
                    if k < prev_out.len() {
                        assert(out@[k] == prev_out[k]);
                        assert(seq_has_dir(prev_out, c, n));
                        assert(seq_has_dir(ti, c, n) && !(c == cat@ && n == name@));
                        let k2 = choose|k2: int|
                            0 <= k2 < ti.len() && ti[k2].category@ == c && ti[k2].name@ == n;
                        assert(tip1[k2] == ti[k2]);
                        assert(seq_has_dir(tip1, c, n));
                    } else {
                        assert(keep);
                        assert(out@[k].category@ == v@[i as int].category@);
                        assert(out@[k].name@ == v@[i as int].name@);
                        assert(tip1[i as int] == v@[i as int]);
                        assert(seq_has_dir(tip1, c, n));
                        assert(!(c == cat@ && n == name@));
                    }
                }
                if seq_has_dir(tip1, c, n) && !(c == cat@ && n == name@) {
                    let k = choose|k: int|
                        0 <= k < tip1.len() && tip1[k].category@ == c && tip1[k].name@ == n;
                    if k < i {
                        assert(ti[k] == tip1[k]);
                        assert(seq_has_dir(ti, c, n));
                        assert(seq_has_dir(prev_out, c, n));
                        let k2 = choose|k2: int|
                            0 <= k2 < prev_out.len() && prev_out[k2].category@ == c
                                && prev_out[k2].name@ == n;
                        assert(out@[k2] == prev_out[k2]);
                        assert(seq_has_dir(out@, c, n));
                    } else {
                        assert(tip1[k] == v@[i as int]);
                        assert(v@[i as int].category@ == c && v@[i as int].name@ == n);
                        assert(keep);
                        assert(out@[prev_out.len() as int].category@ == c);
                        assert(out@[prev_out.len() as int].name@ == n);
                        assert(seq_has_dir(out@, c, n));
                    }
                }
            }
            assert(forall|c: Seq<char>, n: Seq<char>|
                seq_has_dir(out@, c, n)
                    == (seq_has_dir(v@.take(ip1), c, n) && !(c == cat@ && n == name@)));
        }
        i += 1;
    }
    proof {
        assert(v@.take(i as int) =~= v@);
    }
    *v = out;
}

/// The root a category directory is created under.
pub enum RootKind {
    Active,
    Done,
}

/// One filesystem operation of a reconciliation plan.
///
/// `CreateCategoryDir` creates `<category>` under the given root.
/// `MoveToDone` renames `<category>/<challenge>` to `.done/<category>/<challenge>`.
/// `PopulateDone` and `PopulateActive` materialize a challenge directory fresh
/// (directory, README, attachments) under the respective root.
pub enum FsAction {
    CreateCategoryDir { root: RootKind, category: String },
    MoveToDone { category: String, challenge: String },
    PopulateDone { category: String, challenge: String },
    PopulateActive { category: String, challenge: String },
}

pub open spec fn is_create_cat(a: FsAction, root: RootKind, cat: Seq<char>) -> bool {
    match a {
        FsAction::CreateCategoryDir { root: r, category } => r == root && category@ == cat,
        _ => false,
    }
}

pub open spec fn is_move(a: FsAction, cat: Seq<char>, name: Seq<char>) -> bool {
    match a {
        FsAction::MoveToDone { category, challenge } => category@ == cat && challenge@ == name,
        _ => false,
    }
}

pub open spec fn is_populate_done(a: FsAction, cat: Seq<char>, name: Seq<char>) -> bool {
    match a {
        FsAction::PopulateDone { category, challenge } => category@ == cat && challenge@ == name,
        _ => false,
    }
}

pub open spec fn is_populate_active(a: FsAction, cat: Seq<char>, name: Seq<char>) -> bool {
    match a {
        FsAction::PopulateActive { category, challenge } => category@ == cat && challenge@ == name,
        _ => false,
    }
}

pub open spec fn has_create_cat(s: Seq<FsAction>, root: RootKind, cat: Seq<char>) -> bool {
    exists|i: int| 0 <= i < s.len() && is_create_cat(s[i], root, cat)
}

pub open spec fn has_move(s: Seq<FsAction>, cat: Seq<char>, name: Seq<char>) -> bool {
    exists|i: int| 0 <= i < s.len() && is_move(s[i], cat, name)
}

pub open spec fn has_populate_done(s: Seq<FsAction>, cat: Seq<char>, name: Seq<char>) -> bool {
    exists|i: int| 0 <= i < s.len() && is_populate_done(s[i], cat, name)
}

pub open spec fn has_populate_active(s: Seq<FsAction>, cat: Seq<char>, name: Seq<char>) -> bool {
    exists|i: int| 0 <= i < s.len() && is_populate_active(s[i], cat, name)
}

/// Appends an action, tracking how each kind of action membership changes.
fn push_action(actions: &mut Vec<FsAction>, a: FsAction)
    ensures
        final(actions)@.len() == old(actions)@.len() + 1,
        forall|i: int| 0 <= i < old(actions)@.len() ==> final(actions)@[i] == old(actions)@[i],
        final(actions)@[old(actions)@.len() as int] == a,
        forall|root: RootKind, c: Seq<char>|
            has_create_cat(final(actions)@, root, c)
                == (has_create_cat(old(actions)@, root, c) || is_create_cat(a, root, c)),
        forall|c: Seq<char>, n: Seq<char>|
            has_move(final(actions)@, c, n) == (has_move(old(actions)@, c, n) || is_move(a, c, n)),
        forall|c: Seq<char>, n: Seq<char>|
            has_populate_done(final(actions)@, c, n)
                == (has_populate_done(old(actions)@, c, n) || is_populate_done(a, c, n)),
        forall|c: Seq<char>, n: Seq<char>|
            has_populate_active(final(actions)@, c, n)
                == (has_populate_active(old(actions)@, c, n) || is_populate_active(a, c, n)),
{
    let ghost av = a;
    actions.push(a);
    proof {
        let prev = old(actions)@;
        let cur = actions@;
        assert(cur =~= prev.push(av));
        assert forall|root: RootKind, c: Seq<char>|
            has_create_cat(cur, root, c) == (has_create_cat(prev, root, c) || is_create_cat(av, root, c)) by {
            if has_create_cat(cur, root, c) {
                let i = choose|i: int| 0 <= i < cur.len() && is_create_cat(cur[i], root, c);
                if i < prev.len() {
                    assert(is_create_cat(prev[i], root, c));
                }
            }
            if has_create_cat(prev, root, c) {
                let i = choose|i: int| 0 <= i < prev.len() && is_create_cat(prev[i], root, c);
                assert(is_create_cat(cur[i], root, c));
            }
            if is_create_cat(av, root, c) {
                assert(is_create_cat(cur[prev.len() as int], root, c));
            }
        }
        assert forall|c: Seq<char>, n: Seq<char>|
            has_move(cur, c, n) == (has_move(prev, c, n) || is_move(av, c, n)) by {
            if has_move(cur, c, n) {
                let i = choose|i: int| 0 <= i < cur.len() && is_move(cur[i], c, n);
                if i < prev.len() {
                    assert(is_move(prev[i], c, n));
                }
            }
            if has_move(prev, c, n) {
                let i = choose|i: int| 0 <= i < prev.len() && is_move(prev[i], c, n);
                assert(is_move(cur[i], c, n));
            }
            if is_move(av, c, n) {
                assert(is_move(cur[prev.len() as int], c, n));
            }
        }
        assert forall|c: Seq<char>, n: Seq<char>|
            has_populate_done(cur, c, n) == (has_populate_done(prev, c, n) || is_populate_done(av, c, n)) by {
            if has_populate_done(cur, c, n) {
                let i = choose|i: int| 0 <= i < cur.len() && is_populate_done(cur[i], c, n);
                if i < prev.len() {
                    assert(is_populate_done(prev[i], c, n));
                }
            }
            if has_populate_done(prev, c, n) {
                let i = choose|i: int| 0 <= i < prev.len() && is_populate_done(prev[i], c, n);
                assert(is_populate_done(cur[i], c, n));
            }
            if is_populate_done(av, c, n) {
                assert(is_populate_done(cur[prev.len() as int], c, n));
            }
        }
        assert forall|c: Seq<char>, n: Seq<char>|
            has_populate_active(cur, c, n)
                == (has_populate_active(prev, c, n) || is_populate_active(av, c, n)) by {
            if has_populate_active(cur, c, n) {
                let i = choose|i: int| 0 <= i < cur.len() && is_populate_active(cur[i], c, n);
                if i < prev.len() {
                    assert(is_populate_active(prev[i], c, n));
                }
            }
            if has_populate_active(prev, c, n) {
                let i = choose|i: int| 0 <= i < prev.len() && is_populate_active(prev[i], c, n);
                assert(is_populate_active(cur[i], c, n));
            }
            if is_populate_active(av, c, n) {
                assert(is_populate_active(cur[prev.len() as int], c, n));
            }
        }
    }
}

/// Whether the active directory of a challenge exists after its
/// reconciliation step, given what existed before.
pub open spec fn expected_active(a: bool, d: bool, solved: bool) -> bool {
    if solved {
        a && d
    } else {
        true
    }
}

/// Whether the done directory of a challenge exists after its reconciliation
/// step, given what existed before.
pub open spec fn expected_done(a: bool, d: bool, solved: bool) -> bool {
    if solved {
        true
    } else {
        d
    }
}

/// A challenge needs no step: solved challenges sit under the done root,
/// unsolved ones under the active root.
pub open spec fn settled_chal(t: Tree, cat: Seq<char>, ch: ChallengeSummary) -> bool {
    if ch.spec_solved() {
        t.has_done(cat, ch.name@)
    } else {
        t.has_active(cat, ch.name@)
    }
}

/// Reconciles one challenge of one category.
///
/// Solved and already under done: nothing. Solved and under active: moved.
/// Solved and nowhere: populated under done. Unsolved and absent: populated
/// under active. Unsolved and present: left untouched, preserving local edits.
fn reconcile_challenge(tree: &mut Tree, actions: &mut Vec<FsAction>, cat: &str, ch: &ChallengeSummary)
    ensures
        final(tree).active_categories == old(tree).active_categories,
        final(tree).done_categories == old(tree).done_categories,
        forall|c: Seq<char>, n: Seq<char>| !(c == cat@ && n == ch.name@) ==>
            (final(tree).has_active(c, n) == old(tree).has_active(c, n)
            && final(tree).has_done(c, n) == old(tree).has_done(c, n)),
        final(tree).has_active(cat@, ch.name@) == expected_active(
            old(tree).has_active(cat@, ch.name@),
            old(tree).has_done(cat@, ch.name@),
            ch.spec_solved(),
        ),
        final(tree).has_done(cat@, ch.name@) == expected_done(
            old(tree).has_active(cat@, ch.name@),
            old(tree).has_done(cat@, ch.name@),
            ch.spec_solved(),
        ),
        forall|i: int| 0 <= i < old(actions)@.len() ==> final(actions)@[i] == old(actions)@[i],
        final(actions)@.len() >= old(actions)@.len(),
        (final(actions)@.len() == old(actions)@.len()) == settled_chal(*old(tree), cat@, *ch),
        forall|root: RootKind, c: Seq<char>|
            has_create_cat(final(actions)@, root, c) == has_create_cat(old(actions)@, root, c),
        forall|c: Seq<char>, n: Seq<char>|
            has_move(final(actions)@, c, n) == (has_move(old(actions)@, c, n)
                || (c == cat@ && n == ch.name@ && ch.spec_solved()
                    && !old(tree).has_done(cat@, ch.name@) && old(tree).has_active(cat@, ch.name@))),
        forall|c: Seq<char>, n: Seq<char>|
            has_populate_done(final(actions)@, c, n) == (has_populate_done(old(actions)@, c, n)
                || (c == cat@ && n == ch.name@ && ch.spec_solved()
                    && !old(tree).has_done(cat@, ch.name@) && !old(tree).has_active(cat@, ch.name@))),
        forall|c: Seq<char>, n: Seq<char>|
            has_populate_active(final(actions)@, c, n) == (has_populate_active(old(actions)@, c, n)
                || (c == cat@ && n == ch.name@ && !ch.spec_solved()
                    && !old(tree).has_active(cat@, ch.name@))),
{
    let a = tree.has_active_dir(cat, ch.name.as_str());
    let d = tree.has_done_dir(cat, ch.name.as_str());
    if ch.solved() {
        if d {
            // already reconciled
        } else if a {
            remove_dir(&mut tree.active, cat, ch.name.as_str());
            push_dir_if_missing(&mut tree.done, cat, ch.name.as_str());
            push_action(actions, FsAction::MoveToDone {
                category: String::from_str(cat),
                challenge: ch.name.clone(),
            });
        } else {
            push_dir_if_missing(&mut tree.done, cat, ch.name.as_str());
            push_action(actions, FsAction::PopulateDone {
                category: String::from_str(cat),
                challenge: ch.name.clone(),
            });
        }
    } else {
        if !a {
            push_dir_if_missing(&mut tree.active, cat, ch.name.as_str());
            push_action(actions, FsAction::PopulateActive {
                category: String::from_str(cat),
                challenge: ch.name.clone(),
            });
        }
    }
}

/// Both roots hold a directory for the category.
pub open spec fn category_dirs_present(t: Tree, cat: Seq<char>) -> bool {
    t.has_active_cat(cat) && t.has_done_cat(cat)
}

/// Creates the category directory under both roots where missing.
fn ensure_category_dirs(tree: &mut Tree, actions: &mut Vec<FsAction>, cat: &str)
    ensures
        final(tree).active == old(tree).active,
        final(tree).done == old(tree).done,
        forall|c: Seq<char>|
            final(tree).has_active_cat(c) == (old(tree).has_active_cat(c) || c == cat@),
        forall|c: Seq<char>|
            final(tree).has_done_cat(c) == (old(tree).has_done_cat(c) || c == cat@),
        forall|i: int| 0 <= i < old(actions)@.len() ==> final(actions)@[i] == old(actions)@[i],
        final(actions)@.len() >= old(actions)@.len(),
        (final(actions)@.len() == old(actions)@.len()) == category_dirs_present(*old(tree), cat@),
        forall|root: RootKind, c: Seq<char>|
            has_create_cat(final(actions)@, root, c) == (has_create_cat(old(actions)@, root, c)
                || (c == cat@ && root == RootKind::Active && !old(tree).has_active_cat(c))
                || (c == cat@ && root == RootKind::Done && !old(tree).has_done_cat(c))),
        forall|c: Seq<char>, n: Seq<char>|
            has_move(final(actions)@, c, n) == has_move(old(actions)@, c, n),
        forall|c: Seq<char>, n: Seq<char>|
            has_populate_done(final(actions)@, c, n) == has_populate_done(old(actions)@, c, n),
        forall|c: Seq<char>, n: Seq<char>|
            has_populate_active(final(actions)@, c, n) == has_populate_active(old(actions)@, c, n),
{
    let a = vec_has_str(&tree.active_categories, cat);
    let d = vec_has_str(&tree.done_categories, cat);
    if !a {
        push_str_if_missing(&mut tree.active_categories, cat);
        push_action(actions, FsAction::CreateCategoryDir {
            root: RootKind::Active,
            category: String::from_str(cat),
        });
    }
    if !d {
        push_str_if_missing(&mut tree.done_categories, cat);
        push_action(actions, FsAction::CreateCategoryDir {
            root: RootKind::Done,
            category: String::from_str(cat),
        });
    }
}

/// One of the first `j` challenges of the category is named `n`.
pub open spec fn lists_upto(cc: CategoryChallenges, j: int, n: Seq<char>) -> bool {
    exists|l: int| 0 <= l < j && cc.challenges[l].name@ == n
}

/// One of the first `j` challenges of the category, named `n`, is solved and
/// sits under the active root but not yet under the done root of `t`.
pub open spec fn move_upto(t: Tree, cat: Seq<char>, cc: CategoryChallenges, j: int, n: Seq<char>) -> bool {
    exists|l: int| 0 <= l < j && cc.challenges[l].name@ == n
        && cc.challenges[l].spec_solved()
        && !t.has_done(cat, n) && t.has_active(cat, n)
}

/// One of the first `j` challenges, named `n`, is solved and exists under
/// neither root of `t`.
pub open spec fn pop_done_upto(t: Tree, cat: Seq<char>, cc: CategoryChallenges, j: int, n: Seq<char>) -> bool {
    exists|l: int| 0 <= l < j && cc.challenges[l].name@ == n
        && cc.challenges[l].spec_solved()
        && !t.has_done(cat, n) && !t.has_active(cat, n)
}

/// One of the first `j` challenges, named `n`, is unsolved and missing from
/// the active root of `t`.
pub open spec fn pop_active_upto(t: Tree, cat: Seq<char>, cc: CategoryChallenges, j: int, n: Seq<char>) -> bool {
    exists|l: int| 0 <= l < j && cc.challenges[l].name@ == n
        && !cc.challenges[l].spec_solved()
        && !t.has_active(cat, n)
}

/// The first `j` challenges of the category are settled in `t`.
pub open spec fn settled_upto(t: Tree, cc: CategoryChallenges, j: int) -> bool {
    forall|l: int| 0 <= l < j ==> settled_chal(t, cc.category@, #[trigger] cc.challenges[l])
}

/// The whole category is settled: its directories exist under both roots and
/// every challenge of it sits under the root its solve state asks for.
pub open spec fn settled_category(t: Tree, cc: CategoryChallenges) -> bool {
    category_dirs_present(t, cc.category@) && settled_upto(t, cc, cc.challenges.len() as int)
}

/// The category's challenge names are pairwise distinct.
pub open spec fn category_names_unique(cc: CategoryChallenges) -> bool {
    forall|j1: int, j2: int|
        0 <= j1 < j2 < cc.challenges.len()
            ==> #[trigger] cc.challenges[j1].name@ != #[trigger] cc.challenges[j2].name@
}

/// How the action list grows over the first `j` challenges of a category:
/// relative to the actions `a0` present at the start, exactly the moves and
/// populations that the tree `t0` called for have been added.
pub open spec fn category_actions_upto(
    actions: Seq<FsAction>,
    a0: Seq<FsAction>,
    t0: Tree,
    cat: Seq<char>,
    cc: CategoryChallenges,
    j: int,
) -> bool {
    &&& forall|c: Seq<char>, n: Seq<char>|
        has_move(actions, c, n) == (has_move(a0, c, n)
            || (c == cat && move_upto(t0, cat, cc, j, n)))
    &&& forall|c: Seq<char>, n: Seq<char>|
        has_populate_done(actions, c, n) == (has_populate_done(a0, c, n)
            || (c == cat && pop_done_upto(t0, cat, cc, j, n)))
    &&& forall|c: Seq<char>, n: Seq<char>|
        has_populate_active(actions, c, n) == (has_populate_active(a0, c, n)
            || (c == cat && pop_active_upto(t0, cat, cc, j, n)))
}

/// Reconciles one category: ensures its directories under both roots, then
/// steps every challenge filed under it.
#[verifier::loop_isolation(false)]
#[verifier::rlimit(100)]
fn reconcile_category(tree: &mut Tree, actions: &mut Vec<FsAction>, cc: &CategoryChallenges)
    requires
        category_names_unique(*cc),
    ensures
        forall|c: Seq<char>|
            final(tree).has_active_cat(c) == (old(tree).has_active_cat(c) || c == cc.category@),
        forall|c: Seq<char>|
            final(tree).has_done_cat(c) == (old(tree).has_done_cat(c) || c == cc.category@),
        forall|c: Seq<char>, n: Seq<char>|
            !(c == cc.category@ && lists_upto(*cc, cc.challenges@.len() as int, n)) ==>
                (final(tree).has_active(c, n) == old(tree).has_active(c, n)
                && final(tree).has_done(c, n) == old(tree).has_done(c, n)),
        forall|j: int| 0 <= j < cc.challenges@.len() ==>
            (final(tree).has_active(cc.category@, #[trigger] cc.challenges@[j].name@)
                == expected_active(
                    old(tree).has_active(cc.category@, cc.challenges@[j].name@),
                    old(tree).has_done(cc.category@, cc.challenges@[j].name@),
                    cc.challenges@[j].spec_solved(),
                )
            && final(tree).has_done(cc.category@, cc.challenges@[j].name@)
                == expected_done(
                    old(tree).has_active(cc.category@, cc.challenges@[j].name@),
                    old(tree).has_done(cc.category@, cc.challenges@[j].name@),
                    cc.challenges@[j].spec_solved(),
                )),
        settled_category(*final(tree), *cc),
        forall|i: int| 0 <= i < old(actions)@.len() ==> final(actions)@[i] == old(actions)@[i],
        final(actions)@.len() >= old(actions)@.len(),
        (final(actions)@.len() == old(actions)@.len()) == settled_category(*old(tree), *cc),
        forall|root: RootKind, c: Seq<char>|
            has_create_cat(final(actions)@, root, c) == (has_create_cat(old(actions)@, root, c)
                || (c == cc.category@ && root == RootKind::Active && !old(tree).has_active_cat(c))
                || (c == cc.category@ && root == RootKind::Done && !old(tree).has_done_cat(c))),
        forall|c: Seq<char>, n: Seq<char>|
            has_move(final(actions)@, c, n) == (has_move(old(actions)@, c, n)
                || (c == cc.category@
                    && move_upto(*old(tree), cc.category@, *cc, cc.challenges@.len() as int, n))),
        forall|c: Seq<char>, n: Seq<char>|
            has_populate_done(final(actions)@, c, n) == (has_populate_done(old(actions)@, c, n)
                || (c == cc.category@
                    && pop_done_upto(*old(tree), cc.category@, *cc, cc.challenges@.len() as int, n))),
        forall|c: Seq<char>, n: Seq<char>|
            has_populate_active(final(actions)@, c, n) == (has_populate_active(old(actions)@, c, n)
                || (c == cc.category@
                    && pop_active_upto(*old(tree), cc.category@, *cc, cc.challenges@.len() as int, n))),
{
    ensure_category_dirs(tree, actions, cc.category.as_str());
    let ghost t1 = *tree;
    let ghost a1 = actions@;
    let ghost cat = cc.category@;
    proof {
        assert(category_actions_upto(actions@, actions@, *tree, cat, *cc, 0));
    }
    let mut j: usize = 0;
    while j < cc.challenges.len()
        invariant
            j <= cc.challenges@.len(),
            category_names_unique(*cc),
            tree.active_categories == t1.active_categories,
            tree.done_categories == t1.done_categories,
            forall|c: Seq<char>, n: Seq<char>| !(c == cat && lists_upto(*cc, j as int, n)) ==>
                (tree.has_active(c, n) == t1.has_active(c, n)
                && tree.has_done(c, n) == t1.has_done(c, n)),
            forall|l: int| 0 <= l < j ==>
                (tree.has_active(cat, #[trigger] cc.challenges@[l].name@)
                    == expected_active(
                        t1.has_active(cat, cc.challenges@[l].name@),
                        t1.has_done(cat, cc.challenges@[l].name@),
                        cc.challenges@[l].spec_solved(),
                    )
                && tree.has_done(cat, cc.challenges@[l].name@)
                    == expected_done(
                        t1.has_active(cat, cc.challenges@[l].name@),
                        t1.has_done(cat, cc.challenges@[l].name@),
                        cc.challenges@[l].spec_solved(),
                    )),
            forall|i: int| 0 <= i < a1.len() ==> actions@[i] == a1[i],
            actions@.len() >= a1.len(),
            (actions@.len() == a1.len()) == settled_upto(t1, *cc, j as int),
            forall|root: RootKind, c: Seq<char>|
                has_create_cat(actions@, root, c) == has_create_cat(a1, root, c),
            category_actions_upto(actions@, a1, t1, cat, *cc, j as int),
        decreases cc.challenges@.len() - j,
    {
        let ghost tpre = *tree;
        let ghost apre = actions@;
        let ghost chj = cc.challenges@[j as int];
        proof {
            // the pair of challenge j is untouched so far
            assert(!lists_upto(*cc, j as int, chj.name@));
            assert(tree.has_active(cat, chj.name@) == t1.has_active(cat, chj.name@));
            assert(tree.has_done(cat, chj.name@) == t1.has_done(cat, chj.name@));
        }
        reconcile_challenge(tree, actions, cc.category.as_str(), &cc.challenges[j]);
        proof {
            // the step's action bookkeeping, restated over this loop's snapshots
            assert(forall|c: Seq<char>, n: Seq<char>|
                has_move(actions@, c, n) == (has_move(apre, c, n)
                    || (c == cat && n == chj.name@ && chj.spec_solved()
                        && !tpre.has_done(cat, chj.name@) && tpre.has_active(cat, chj.name@))));
            assert(forall|c: Seq<char>, n: Seq<char>|
                has_populate_done(actions@, c, n) == (has_populate_done(apre, c, n)
                    || (c == cat && n == chj.name@ && chj.spec_solved()
                        && !tpre.has_done(cat, chj.name@) && !tpre.has_active(cat, chj.name@))));
            assert(forall|c: Seq<char>, n: Seq<char>|
                has_populate_active(actions@, c, n) == (has_populate_active(apre, c, n)
                    || (c == cat && n == chj.name@ && !chj.spec_solved()
                        && !tpre.has_active(cat, chj.name@))));
            let jp1: int = j + 1;
            assert forall|n: Seq<char>| lists_upto(*cc, jp1, n)
                == (lists_upto(*cc, j as int, n) || n == chj.name@) by {
                if lists_upto(*cc, jp1, n) {
                    let l = choose|l: int| 0 <= l < jp1 && cc.challenges@[l].name@ == n;
                    if l < j {
                        assert(lists_upto(*cc, j as int, n));
                    }
                }
                if lists_upto(*cc, j as int, n) {
                    let l = choose|l: int| 0 <= l < j && cc.challenges@[l].name@ == n;
                    assert(0 <= l < jp1 && cc.challenges@[l].name@ == n);
                }
                if n == chj.name@ {
                    assert(0 <= j < jp1 && cc.challenges@[j as int].name@ == n);
                }
            }
            assert forall|n: Seq<char>| move_upto(t1, cat, *cc, jp1, n)
                == (move_upto(t1, cat, *cc, j as int, n)
                    || (n == chj.name@ && chj.spec_solved()
                        && !t1.has_done(cat, n) && t1.has_active(cat, n))) by {
                if move_upto(t1, cat, *cc, jp1, n) {
                    let l = choose|l: int| 0 <= l < jp1 && cc.challenges@[l].name@ == n
                        && cc.challenges@[l].spec_solved()
                        && !t1.has_done(cat, n) && t1.has_active(cat, n);
                    if l < j {
                        assert(move_upto(t1, cat, *cc, j as int, n));
                    }
                }
                if move_upto(t1, cat, *cc, j as int, n) {
                    let l = choose|l: int| 0 <= l < j && cc.challenges@[l].name@ == n
                        && cc.challenges@[l].spec_solved()
                        && !t1.has_done(cat, n) && t1.has_active(cat, n);
                    assert(0 <= l < jp1);
                }
                if n == chj.name@ && chj.spec_solved() && !t1.has_done(cat, n) && t1.has_active(cat, n) {
                    assert(0 <= j < jp1 && cc.challenges@[j as int].name@ == n);
                }
            }
            assert forall|n: Seq<char>| pop_done_upto(t1, cat, *cc, jp1, n)
                == (pop_done_upto(t1, cat, *cc, j as int, n)
                    || (n == chj.name@ && chj.spec_solved()
                        && !t1.has_done(cat, n) && !t1.has_active(cat, n))) by {
                if pop_done_upto(t1, cat, *cc, jp1, n) {
                    let l = choose|l: int| 0 <= l < jp1 && cc.challenges@[l].name@ == n
                        && cc.challenges@[l].spec_solved()
                        && !t1.has_done(cat, n) && !t1.has_active(cat, n);
                    if l < j {
                        assert(pop_done_upto(t1, cat, *cc, j as int, n));
                    }
                }
                if pop_done_upto(t1, cat, *cc, j as int, n) {
                    let l = choose|l: int| 0 <= l < j && cc.challenges@[l].name@ == n
                        && cc.challenges@[l].spec_solved()
                        && !t1.has_done(cat, n) && !t1.has_active(cat, n);
                    assert(0 <= l < jp1);
                }
                if n == chj.name@ && chj.spec_solved() && !t1.has_done(cat, n) && !t1.has_active(cat, n) {
                    assert(0 <= j < jp1 && cc.challenges@[j as int].name@ == n);
                }
            }
            assert forall|n: Seq<char>| pop_active_upto(t1, cat, *cc, jp1, n)
                == (pop_active_upto(t1, cat, *cc, j as int, n)
                    || (n == chj.name@ && !chj.spec_solved() && !t1.has_active(cat, n))) by {
                if pop_active_upto(t1, cat, *cc, jp1, n) {
                    let l = choose|l: int| 0 <= l < jp1 && cc.challenges@[l].name@ == n
                        && !cc.challenges@[l].spec_solved()
                        && !t1.has_active(cat, n);
                    if l < j {
                        assert(pop_active_upto(t1, cat, *cc, j as int, n));
                    }
                }
                if pop_active_upto(t1, cat, *cc, j as int, n) {
                    let l = choose|l: int| 0 <= l < j && cc.challenges@[l].name@ == n
                        && !cc.challenges@[l].spec_solved()
                        && !t1.has_active(cat, n);
                    assert(0 <= l < jp1);
                }
                if n == chj.name@ && !chj.spec_solved() && !t1.has_active(cat, n) {
                    assert(0 <= j < jp1 && cc.challenges@[j as int].name@ == n);
                }
            }
            // names of other challenges differ from challenge j's
            assert forall|l: int| 0 <= l < j implies cc.challenges@[l].name@ != chj.name@ by {
                assert(cc.challenges@[l].name@ != cc.challenges@[j as int].name@);
            }
            // settledness of challenge j in the pre-step tree matches t1
            assert(settled_chal(tpre, cat, chj) == settled_chal(t1, cat, chj));
            // carry the action-membership invariants across the step
            assert forall|c: Seq<char>, n: Seq<char>|
                has_move(actions@, c, n) == (has_move(a1, c, n)
                    || (c == cat && move_upto(t1, cat, *cc, jp1, n))) by {
                assert(has_move(apre, c, n) == (has_move(a1, c, n)
                    || (c == cat && move_upto(t1, cat, *cc, j as int, n))));
            }
            assert forall|c: Seq<char>, n: Seq<char>|
                has_populate_done(actions@, c, n) == (has_populate_done(a1, c, n)
                    || (c == cat && pop_done_upto(t1, cat, *cc, jp1, n))) by {
                assert(has_populate_done(apre, c, n) == (has_populate_done(a1, c, n)
                    || (c == cat && pop_done_upto(t1, cat, *cc, j as int, n))));
            }
            assert forall|c: Seq<char>, n: Seq<char>|
                has_populate_active(actions@, c, n) == (has_populate_active(a1, c, n)
                    || (c == cat && pop_active_upto(t1, cat, *cc, jp1, n))) by {
                assert(has_populate_active(apre, c, n) == (has_populate_active(a1, c, n)
                    || (c == cat && pop_active_upto(t1, cat, *cc, j as int, n))));
            }
            assert(category_actions_upto(actions@, a1, t1, cat, *cc, jp1));
            // frame against t1, over the first j + 1 challenges
            assert forall|c: Seq<char>, n: Seq<char>| !(c == cat && lists_upto(*cc, jp1, n)) implies
                (tree.has_active(c, n) == t1.has_active(c, n)
                && tree.has_done(c, n) == t1.has_done(c, n)) by {
                assert(!(c == cat && lists_upto(*cc, j as int, n)));
                assert(!(c == cat && n == chj.name@));
                assert(tpre.has_active(c, n) == t1.has_active(c, n));
                assert(tpre.has_done(c, n) == t1.has_done(c, n));
                assert(tree.has_active(c, n) == tpre.has_active(c, n));
                assert(tree.has_done(c, n) == tpre.has_done(c, n));
            }
            // transitions over the first j + 1 challenges
            assert forall|l: int| 0 <= l < jp1 implies
                (tree.has_active(cat, #[trigger] cc.challenges@[l].name@)
                    == expected_active(
                        t1.has_active(cat, cc.challenges@[l].name@),
                        t1.has_done(cat, cc.challenges@[l].name@),
                        cc.challenges@[l].spec_solved(),
                    )
                && tree.has_done(cat, cc.challenges@[l].name@)
                    == expected_done(
                        t1.has_active(cat, cc.challenges@[l].name@),
                        t1.has_done(cat, cc.challenges@[l].name@),
                        cc.challenges@[l].spec_solved(),
                    )) by {
                if l < j {
                    assert(cc.challenges@[l].name@ != chj.name@);
                    assert(tree.has_active(cat, cc.challenges@[l].name@)
                        == tpre.has_active(cat, cc.challenges@[l].name@));
                    assert(tree.has_done(cat, cc.challenges@[l].name@)
                        == tpre.has_done(cat, cc.challenges@[l].name@));
                } else {
                    assert(cc.challenges@[l] == chj);
                    assert(tree.has_active(cat, chj.name@) == expected_active(
                        tpre.has_active(cat, chj.name@),
                        tpre.has_done(cat, chj.name@),
                        chj.spec_solved(),
                    ));
                    assert(tree.has_done(cat, chj.name@) == expected_done(
                        tpre.has_active(cat, chj.name@),
                        tpre.has_done(cat, chj.name@),
                        chj.spec_solved(),
                    ));
                    assert(tpre.has_active(cat, chj.name@) == t1.has_active(cat, chj.name@));
                    assert(tpre.has_done(cat, chj.name@) == t1.has_done(cat, chj.name@));
                }
            }
        }
        j += 1;
    }
    proof {
        let len: int = cc.challenges@.len() as int;
        // every challenge is settled in the final tree
        assert forall|l: int| 0 <= l < len implies
            settled_chal(*tree, cat, #[trigger] cc.challenges@[l]) by {
            let n = cc.challenges@[l].name@;
            assert(tree.has_active(cat, n) == expected_active(
                t1.has_active(cat, n),
                t1.has_done(cat, n),
                cc.challenges@[l].spec_solved(),
            ));
            assert(tree.has_done(cat, n) == expected_done(
                t1.has_active(cat, n),
                t1.has_done(cat, n),
                cc.challenges@[l].spec_solved(),
            ));
        }
        assert(settled_upto(*tree, *cc, len));
        // the category directories exist in the final tree
        assert(t1.has_active_cat(cat) && t1.has_done_cat(cat));
        assert(tree.has_active_cat(cat) && tree.has_done_cat(cat));
        // settledness before the pass reads the same on t1 as on the tree at entry,
        // since ensuring the category directories does not touch challenge pairs
        assert forall|l: int| 0 <= l < len implies
            settled_chal(t1, cat, #[trigger] cc.challenges@[l])
                == settled_chal(*old(tree), cat, cc.challenges@[l]) by {
            assert(t1.active == old(tree).active && t1.done == old(tree).done);
        }
        assert(settled_upto(t1, *cc, len) == settled_upto(*old(tree), *cc, len));
        // transitions stated against the tree at entry
        assert forall|l: int| 0 <= l < len implies
            (tree.has_active(cat, #[trigger] cc.challenges@[l].name@)
                == expected_active(
                    old(tree).has_active(cat, cc.challenges@[l].name@),
                    old(tree).has_done(cat, cc.challenges@[l].name@),
                    cc.challenges@[l].spec_solved(),
                )
            && tree.has_done(cat, cc.challenges@[l].name@)
                == expected_done(
                    old(tree).has_active(cat, cc.challenges@[l].name@),
                    old(tree).has_done(cat, cc.challenges@[l].name@),
                    cc.challenges@[l].spec_solved(),
                )) by {
            assert(t1.active == old(tree).active && t1.done == old(tree).done);
        }
        // frame stated against the tree at entry
        assert forall|c: Seq<char>, n: Seq<char>|
            !(c == cat && lists_upto(*cc, len, n)) implies
                (tree.has_active(c, n) == old(tree).has_active(c, n)
                && tree.has_done(c, n) == old(tree).has_done(c, n)) by {
            assert(t1.active == old(tree).active && t1.done == old(tree).done);
            assert(tree.has_active(c, n) == t1.has_active(c, n));
            assert(tree.has_done(c, n) == t1.has_done(c, n));
        }
        // the move/populate conditions read the same on t1 as at entry
        assert forall|n: Seq<char>|
            (move_upto(t1, cat, *cc, len, n) == move_upto(*old(tree), cat, *cc, len, n))
            && (pop_done_upto(t1, cat, *cc, len, n) == pop_done_upto(*old(tree), cat, *cc, len, n))
            && (pop_active_upto(t1, cat, *cc, len, n)
                == pop_active_upto(*old(tree), cat, *cc, len, n)) by {
            assert(t1.active == old(tree).active && t1.done == old(tree).done);
        }
    }
}

/// One of the first `k` categories is named `c`.
pub open spec fn cats_upto(catalog: Catalog, k: int, c: Seq<char>) -> bool {
    exists|k2: int| 0 <= k2 < k && catalog.categories[k2].category@ == c
}

/// One of the first `k` categories, named `c`, files a challenge named `n`.
pub open spec fn pair_upto(catalog: Catalog, k: int, c: Seq<char>, n: Seq<char>) -> bool {
    exists|k2: int, j: int|
        0 <= k2 < k && 0 <= j < catalog.categories[k2].challenges.len()
        && catalog.categories[k2].category@ == c
        && catalog.categories[k2].challenges[j].name@ == n
}

/// A move of `c/n` to done is called for by one of the first `k` categories.
pub open spec fn move_planned_upto(catalog: Catalog, t0: Tree, k: int, c: Seq<char>, n: Seq<char>) -> bool {
    exists|k2: int| 0 <= k2 < k && catalog.categories[k2].category@ == c
        && move_upto(t0, c, catalog.categories[k2],
            catalog.categories[k2].challenges.len() as int, n)
}

/// A fresh population of `.done/c/n` is called for by one of the first `k` categories.
pub open spec fn pop_done_planned_upto(catalog: Catalog, t0: Tree, k: int, c: Seq<char>, n: Seq<char>) -> bool {
    exists|k2: int| 0 <= k2 < k && catalog.categories[k2].category@ == c
        && pop_done_upto(t0, c, catalog.categories[k2],
            catalog.categories[k2].challenges.len() as int, n)
}

/// A fresh population of `c/n` is called for by one of the first `k` categories.
pub open spec fn pop_active_planned_upto(catalog: Catalog, t0: Tree, k: int, c: Seq<char>, n: Seq<char>) -> bool {
    exists|k2: int| 0 <= k2 < k && catalog.categories[k2].category@ == c
        && pop_active_upto(t0, c, catalog.categories[k2],
            catalog.categories[k2].challenges.len() as int, n)
}

/// The first `k` categories of the catalog are settled in `t`.
pub open spec fn settled_upto_cats(t: Tree, catalog: Catalog, k: int) -> bool {
    forall|k2: int| 0 <= k2 < k ==> settled_category(t, #[trigger] catalog.categories[k2])
}

/// The whole catalog is settled in `t`: nothing left for reconciliation to do.
pub open spec fn settled(t: Tree, catalog: Catalog) -> bool {
    settled_upto_cats(t, catalog, catalog.categories.len() as int)
}

/// No challenge the catalog reports unsolved has a done directory in `t`.
pub open spec fn tree_matches_solves(t: Tree, catalog: Catalog) -> bool {
    forall|k: int, j: int|
        #![trigger catalog.categories[k].challenges[j]]
        0 <= k < catalog.categories.len()
        && 0 <= j < catalog.categories[k].challenges.len()
        && !catalog.categories[k].challenges[j].spec_solved()
            ==> !t.has_done(catalog.categories[k].category@,
                    catalog.categories[k].challenges[j].name@)
}

/// How the tree evolves over the first `k` categories: category directories
/// are added, pairs of later categories are untouched, and every pair of a
/// processed category carries the expected transition.
pub open spec fn reconcile_tree_upto(tree: Tree, t0: Tree, catalog: Catalog, k: int) -> bool {
    &&& forall|c: Seq<char>|
        tree.has_active_cat(c) == (t0.has_active_cat(c) || cats_upto(catalog, k, c))
    &&& forall|c: Seq<char>|
        tree.has_done_cat(c) == (t0.has_done_cat(c) || cats_upto(catalog, k, c))
    &&& forall|c: Seq<char>, n: Seq<char>| !pair_upto(catalog, k, c, n) ==>
        (tree.has_active(c, n) == t0.has_active(c, n)
        && tree.has_done(c, n) == t0.has_done(c, n))
    &&& forall|k2: int, j: int|
        #![trigger catalog.categories[k2].challenges[j]]
        0 <= k2 < k && 0 <= j < catalog.categories[k2].challenges.len() ==>
        (tree.has_active(catalog.categories[k2].category@, catalog.categories[k2].challenges[j].name@)
            == expected_active(
                t0.has_active(catalog.categories[k2].category@, catalog.categories[k2].challenges[j].name@),
                t0.has_done(catalog.categories[k2].category@, catalog.categories[k2].challenges[j].name@),
                catalog.categories[k2].challenges[j].spec_solved(),
            )
        && tree.has_done(catalog.categories[k2].category@, catalog.categories[k2].challenges[j].name@)
            == expected_done(
                t0.has_active(catalog.categories[k2].category@, catalog.categories[k2].challenges[j].name@),
                t0.has_done(catalog.categories[k2].category@, catalog.categories[k2].challenges[j].name@),
                catalog.categories[k2].challenges[j].spec_solved(),
            ))
}

/// How the action list looks after the first `k` categories, starting from an
/// empty list: exactly the creations, moves and populations that the catalog
/// and the starting tree `t0` call for.
pub open spec fn catalog_actions_upto(actions: Seq<FsAction>, t0: Tree, catalog: Catalog, k: int) -> bool {
    &&& forall|root: RootKind, c: Seq<char>|
        #![trigger has_create_cat(actions, root, c)]
        has_create_cat(actions, root, c) == (cats_upto(catalog, k, c)
            && ((root == RootKind::Active && !t0.has_active_cat(c))
                || (root == RootKind::Done && !t0.has_done_cat(c))))
    &&& forall|c: Seq<char>, n: Seq<char>|
        #![trigger has_move(actions, c, n)]
        has_move(actions, c, n) == move_planned_upto(catalog, t0, k, c, n)
    &&& forall|c: Seq<char>, n: Seq<char>|
        #![trigger has_populate_done(actions, c, n)]
        has_populate_done(actions, c, n) == pop_done_planned_upto(catalog, t0, k, c, n)
    &&& forall|c: Seq<char>, n: Seq<char>|
        #![trigger has_populate_active(actions, c, n)]
        has_populate_active(actions, c, n) == pop_active_planned_upto(catalog, t0, k, c, n)
}

proof fn lemma_catalog_actions_at(actions: Seq<FsAction>, t0: Tree, catalog: Catalog, k: int, c: Seq<char>, n: Seq<char>)
    requires
        catalog_actions_upto(actions, t0, catalog, k),
    ensures
        has_create_cat(actions, RootKind::Active, c) == (cats_upto(catalog, k, c) && !t0.has_active_cat(c)),
        has_create_cat(actions, RootKind::Done, c) == (cats_upto(catalog, k, c) && !t0.has_done_cat(c)),
        has_move(actions, c, n) == move_planned_upto(catalog, t0, k, c, n),
        has_populate_done(actions, c, n) == pop_done_planned_upto(catalog, t0, k, c, n),
        has_populate_active(actions, c, n) == pop_active_planned_upto(catalog, t0, k, c, n),
{
}

/// Reconciles the local tree with the remote catalog and returns the
/// filesystem actions that bring the real tree to the same state.
///
/// The returned actions are exactly the creations, moves and populations the
/// catalog calls for on the incoming tree; the tree afterwards is settled, and
/// the action list is empty exactly when the tree was settled already. If no
/// challenge sits under both roots at once and no unsolved challenge already
/// sits under the done root, then after the pass every catalog challenge sits
/// under exactly one root.
#[verifier::loop_isolation(false)]
#[verifier::rlimit(100)]
pub fn reconcile(catalog: &Catalog, tree: &mut Tree) -> (actions: Vec<FsAction>)
    requires
        catalog.wf(),
    ensures
        reconcile_tree_upto(*final(tree), *old(tree), *catalog, catalog.categories@.len() as int),
        settled(*final(tree), *catalog),
        (actions@.len() == 0) == settled(*old(tree), *catalog),
        catalog_actions_upto(actions@, *old(tree), *catalog, catalog.categories@.len() as int),
        (old(tree).wf_pairs() && tree_matches_solves(*old(tree), *catalog)) ==>
            (final(tree).wf_pairs()
            && forall|k: int, j: int|
                #![trigger catalog.categories@[k].challenges@[j]]
                0 <= k < catalog.categories@.len()
                && 0 <= j < catalog.categories@[k].challenges@.len() ==>
                    (final(tree).has_active(catalog.categories@[k].category@,
                        catalog.categories@[k].challenges@[j].name@)
                    != final(tree).has_done(catalog.categories@[k].category@,
                        catalog.categories@[k].challenges@[j].name@))),
{
    let ghost t0 = *tree;
    let mut actions: Vec<FsAction> = Vec::new();
    proof {
        assert(reconcile_tree_upto(*tree, t0, *catalog, 0));
        assert(catalog_actions_upto(actions@, t0, *catalog, 0));
    }
    let mut k: usize = 0;
    while k < catalog.categories.len()
        invariant
            k <= catalog.categories@.len(),
            reconcile_tree_upto(*tree, t0, *catalog, k as int),
            catalog_actions_upto(actions@, t0, *catalog, k as int),
            (actions@.len() == 0) == settled_upto_cats(t0, *catalog, k as int),
        decreases catalog.categories@.len() - k,
    {
        let ghost kk: int = k as int;
        let ghost cck = catalog.categories@[kk];
        let ghost cat = cck.category@;
        let ghost tpre = *tree;
        let ghost apre = actions@;
        proof {
            assert(reconcile_tree_upto(tpre, t0, *catalog, kk));
            assert(catalog_actions_upto(apre, t0, *catalog, kk));
            // this category's name is distinct from those already processed
            assert forall|k2: int| 0 <= k2 < kk implies
                catalog.categories@[k2].category@ != cat by {
                assert(catalog.categories@[k2].category@ != catalog.categories@[kk].category@);
            }
            assert(!cats_upto(*catalog, kk, cat));
            // its pairs are therefore untouched so far
            assert forall|n: Seq<char>| !pair_upto(*catalog, kk, cat, n) by {
                if pair_upto(*catalog, kk, cat, n) {
                    let (k2, j) = choose|k2: int, j: int|
                        0 <= k2 < kk && 0 <= j < catalog.categories@[k2].challenges.len()
                        && catalog.categories@[k2].category@ == cat
                        && catalog.categories@[k2].challenges[j].name@ == n;
                    assert(false);
                }
            }
            // challenge names within this category are distinct
            assert forall|j1: int, j2: int|
                0 <= j1 < j2 < cck.challenges.len() implies
                #[trigger] cck.challenges[j1].name@ != #[trigger] cck.challenges[j2].name@ by {
                assert(catalog.categories@[kk].challenges[j1].name@
                    != catalog.categories@[kk].challenges[j2].name@);
            }
            assert(category_names_unique(cck));
        }
        reconcile_category(tree, &mut actions, &catalog.categories[k]);
        proof {
            let kp1: int = k + 1;
            // the category step's contract, restated over this loop's snapshots
            assert(forall|c: Seq<char>|
                tree.has_active_cat(c) == (tpre.has_active_cat(c) || c == cat));
            assert(forall|c: Seq<char>|
                tree.has_done_cat(c) == (tpre.has_done_cat(c) || c == cat));
            assert(forall|c: Seq<char>, n: Seq<char>|
                !(c == cat && lists_upto(cck, cck.challenges@.len() as int, n)) ==>
                    (tree.has_active(c, n) == tpre.has_active(c, n)
                    && tree.has_done(c, n) == tpre.has_done(c, n)));
            assert(forall|j: int| 0 <= j < cck.challenges@.len() ==>
                (tree.has_active(cat, #[trigger] cck.challenges@[j].name@)
                    == expected_active(
                        tpre.has_active(cat, cck.challenges@[j].name@),
                        tpre.has_done(cat, cck.challenges@[j].name@),
                        cck.challenges@[j].spec_solved(),
                    )
                && tree.has_done(cat, cck.challenges@[j].name@)
                    == expected_done(
                        tpre.has_active(cat, cck.challenges@[j].name@),
                        tpre.has_done(cat, cck.challenges@[j].name@),
                        cck.challenges@[j].spec_solved(),
                    )));
            assert(forall|root: RootKind, c: Seq<char>|
                has_create_cat(actions@, root, c) == (has_create_cat(apre, root, c)
                    || (c == cat && root == RootKind::Active && !tpre.has_active_cat(c))
                    || (c == cat && root == RootKind::Done && !tpre.has_done_cat(c))));
            assert(forall|c: Seq<char>, n: Seq<char>|
                has_move(actions@, c, n) == (has_move(apre, c, n)
                    || (c == cat && move_upto(tpre, cat, cck, cck.challenges@.len() as int, n))));
            assert(forall|c: Seq<char>, n: Seq<char>|
                has_populate_done(actions@, c, n) == (has_populate_done(apre, c, n)
                    || (c == cat && pop_done_upto(tpre, cat, cck, cck.challenges@.len() as int, n))));
            assert(forall|c: Seq<char>, n: Seq<char>|
                has_populate_active(actions@, c, n) == (has_populate_active(apre, c, n)
                    || (c == cat && pop_active_upto(tpre, cat, cck, cck.challenges@.len() as int, n))));
            // decompositions of the catalog-level conditions at k + 1
            assert forall|c: Seq<char>| cats_upto(*catalog, kp1, c)
                == (cats_upto(*catalog, kk, c) || c == cat) by {
                if cats_upto(*catalog, kp1, c) {
                    let k2 = choose|k2: int| 0 <= k2 < kp1 && catalog.categories@[k2].category@ == c;
                    if k2 < kk {
                        assert(cats_upto(*catalog, kk, c));
                    }
                }
                if cats_upto(*catalog, kk, c) {
                    let k2 = choose|k2: int| 0 <= k2 < kk && catalog.categories@[k2].category@ == c;
                    assert(0 <= k2 < kp1 && catalog.categories@[k2].category@ == c);
                }
                if c == cat {
                    assert(0 <= kk < kp1 && catalog.categories@[kk].category@ == c);
                }
            }
            assert forall|c: Seq<char>, n: Seq<char>| pair_upto(*catalog, kp1, c, n)
                == (pair_upto(*catalog, kk, c, n)
                    || (c == cat && lists_upto(cck, cck.challenges.len() as int, n))) by {
                if pair_upto(*catalog, kp1, c, n) {
                    let (k2, j) = choose|k2: int, j: int|
                        0 <= k2 < kp1 && 0 <= j < catalog.categories@[k2].challenges.len()
                        && catalog.categories@[k2].category@ == c
                        && catalog.categories@[k2].challenges[j].name@ == n;
                    if k2 < kk {
                        assert(pair_upto(*catalog, kk, c, n));
                    } else {
                        assert(0 <= j < cck.challenges.len() && cck.challenges[j].name@ == n);
                        assert(lists_upto(cck, cck.challenges.len() as int, n));
                    }
                }
                if pair_upto(*catalog, kk, c, n) {
                    let (k2, j) = choose|k2: int, j: int|
                        0 <= k2 < kk && 0 <= j < catalog.categories@[k2].challenges.len()
                        && catalog.categories@[k2].category@ == c
                        && catalog.categories@[k2].challenges[j].name@ == n;
                    assert(0 <= k2 < kp1 && 0 <= j < catalog.categories@[k2].challenges.len()
                        && catalog.categories@[k2].category@ == c
                        && catalog.categories@[k2].challenges[j].name@ == n);
                }
                if c == cat && lists_upto(cck, cck.challenges.len() as int, n) {
                    let j = choose|j: int|
                        0 <= j < cck.challenges.len() && cck.challenges[j].name@ == n;
                    assert(0 <= kk < kp1 && 0 <= j < catalog.categories@[kk].challenges.len()
                        && catalog.categories@[kk].category@ == c
                        && catalog.categories@[kk].challenges[j].name@ == n);
                }
            }
            assert forall|c: Seq<char>, n: Seq<char>| move_planned_upto(*catalog, t0, kp1, c, n)
                == (move_planned_upto(*catalog, t0, kk, c, n)
                    || (c == cat && move_upto(t0, c, cck, cck.challenges.len() as int, n))) by {
                if move_planned_upto(*catalog, t0, kp1, c, n) {
                    let k2 = choose|k2: int| 0 <= k2 < kp1 && catalog.categories@[k2].category@ == c
                        && move_upto(t0, c, catalog.categories@[k2],
                            catalog.categories@[k2].challenges.len() as int, n);
                    if k2 < kk {
                        assert(move_planned_upto(*catalog, t0, kk, c, n));
                    }
                }
                if move_planned_upto(*catalog, t0, kk, c, n) {
                    let k2 = choose|k2: int| 0 <= k2 < kk && catalog.categories@[k2].category@ == c
                        && move_upto(t0, c, catalog.categories@[k2],
                            catalog.categories@[k2].challenges.len() as int, n);
                    assert(0 <= k2 < kp1);
                }
                if c == cat && move_upto(t0, c, cck, cck.challenges.len() as int, n) {
                    assert(0 <= kk < kp1 && catalog.categories@[kk].category@ == c
                        && move_upto(t0, c, catalog.categories@[kk],
                            catalog.categories@[kk].challenges.len() as int, n));
                }
            }
            assert forall|c: Seq<char>, n: Seq<char>| pop_done_planned_upto(*catalog, t0, kp1, c, n)
                == (pop_done_planned_upto(*catalog, t0, kk, c, n)
                    || (c == cat && pop_done_upto(t0, c, cck, cck.challenges.len() as int, n))) by {
                if pop_done_planned_upto(*catalog, t0, kp1, c, n) {
                    let k2 = choose|k2: int| 0 <= k2 < kp1 && catalog.categories@[k2].category@ == c
                        && pop_done_upto(t0, c, catalog.categories@[k2],
                            catalog.categories@[k2].challenges.len() as int, n);
                    if k2 < kk {
                        assert(pop_done_planned_upto(*catalog, t0, kk, c, n));
                    }
                }
                if pop_done_planned_upto(*catalog, t0, kk, c, n) {
                    let k2 = choose|k2: int| 0 <= k2 < kk && catalog.categories@[k2].category@ == c
                        && pop_done_upto(t0, c, catalog.categories@[k2],
                            catalog.categories@[k2].challenges.len() as int, n);
                    assert(0 <= k2 < kp1);
                }
                if c == cat && pop_done_upto(t0, c, cck, cck.challenges.len() as int, n) {
                    assert(0 <= kk < kp1 && catalog.categories@[kk].category@ == c
                        && pop_done_upto(t0, c, catalog.categories@[kk],
                            catalog.categories@[kk].challenges.len() as int, n));
                }
            }
            assert forall|c: Seq<char>, n: Seq<char>| pop_active_planned_upto(*catalog, t0, kp1, c, n)
                == (pop_active_planned_upto(*catalog, t0, kk, c, n)
                    || (c == cat && pop_active_upto(t0, c, cck, cck.challenges.len() as int, n))) by {
                if pop_active_planned_upto(*catalog, t0, kp1, c, n) {
                    let k2 = choose|k2: int| 0 <= k2 < kp1 && catalog.categories@[k2].category@ == c
                        && pop_active_upto(t0, c, catalog.categories@[k2],
                            catalog.categories@[k2].challenges.len() as int, n);
                    if k2 < kk {
                        assert(pop_active_planned_upto(*catalog, t0, kk, c, n));
                    }
                }
                if pop_active_planned_upto(*catalog, t0, kk, c, n) {
                    let k2 = choose|k2: int| 0 <= k2 < kk && catalog.categories@[k2].category@ == c
                        && pop_active_upto(t0, c, catalog.categories@[k2],
                            catalog.categories@[k2].challenges.len() as int, n);
                    assert(0 <= k2 < kp1);
                }
                if c == cat && pop_active_upto(t0, c, cck, cck.challenges.len() as int, n) {
                    assert(0 <= kk < kp1 && catalog.categories@[kk].category@ == c
                        && pop_active_upto(t0, c, catalog.categories@[kk],
                            catalog.categories@[kk].challenges.len() as int, n));
                }
            }
            // the category step saw, at its own pairs and directories, the
            // membership of t0
            assert(tpre.has_active_cat(cat) == t0.has_active_cat(cat));
            assert(tpre.has_done_cat(cat) == t0.has_done_cat(cat));
            assert forall|n: Seq<char>|
                tpre.has_active(cat, n) == t0.has_active(cat, n)
                && tpre.has_done(cat, n) == t0.has_done(cat, n) by {
                assert(!pair_upto(*catalog, kk, cat, n));
            }
            // hence the per-category conditions over tpre equal those over t0
            assert forall|n: Seq<char>|
                move_upto(tpre, cat, cck, cck.challenges.len() as int, n)
                    == move_upto(t0, cat, cck, cck.challenges.len() as int, n)
                && pop_done_upto(tpre, cat, cck, cck.challenges.len() as int, n)
                    == pop_done_upto(t0, cat, cck, cck.challenges.len() as int, n)
                && pop_active_upto(tpre, cat, cck, cck.challenges.len() as int, n)
                    == pop_active_upto(t0, cat, cck, cck.challenges.len() as int, n) by {
                let len: int = cck.challenges.len() as int;
                if move_upto(tpre, cat, cck, len, n) {
                    assert(move_upto(t0, cat, cck, len, n));
                }
                if move_upto(t0, cat, cck, len, n) {
                    assert(move_upto(tpre, cat, cck, len, n));
                }
                if pop_done_upto(tpre, cat, cck, len, n) {
                    assert(pop_done_upto(t0, cat, cck, len, n));
                }
                if pop_done_upto(t0, cat, cck, len, n) {
                    assert(pop_done_upto(tpre, cat, cck, len, n));
                }
                if pop_active_upto(tpre, cat, cck, len, n) {
                    assert(pop_active_upto(t0, cat, cck, len, n));
                }
                if pop_active_upto(t0, cat, cck, len, n) {
                    assert(pop_active_upto(tpre, cat, cck, len, n));
                }
            }
            assert forall|l: int| 0 <= l < cck.challenges.len() implies
                settled_chal(tpre, cat, #[trigger] cck.challenges[l])
                    == settled_chal(t0, cat, cck.challenges[l]) by {
                assert(tpre.has_active(cat, cck.challenges[l].name@)
                    == t0.has_active(cat, cck.challenges[l].name@));
                assert(tpre.has_done(cat, cck.challenges[l].name@)
                    == t0.has_done(cat, cck.challenges[l].name@));
            }
            assert(settled_category(tpre, cck) == settled_category(t0, cck));
            // close the tree bundle at k + 1
            assert forall|c: Seq<char>|
                tree.has_active_cat(c) == (t0.has_active_cat(c) || cats_upto(*catalog, kp1, c))
                && tree.has_done_cat(c) == (t0.has_done_cat(c) || cats_upto(*catalog, kp1, c)) by {
                assert(tree.has_active_cat(c) == (tpre.has_active_cat(c) || c == cat));
                assert(tree.has_done_cat(c) == (tpre.has_done_cat(c) || c == cat));
            }
            assert forall|c: Seq<char>, n: Seq<char>| !pair_upto(*catalog, kp1, c, n) implies
                (tree.has_active(c, n) == t0.has_active(c, n)
                && tree.has_done(c, n) == t0.has_done(c, n)) by {
                assert(!pair_upto(*catalog, kk, c, n));
                assert(!(c == cat && lists_upto(cck, cck.challenges.len() as int, n)));
                assert(tree.has_active(c, n) == tpre.has_active(c, n));
                assert(tree.has_done(c, n) == tpre.has_done(c, n));
            }
            assert forall|k2: int, j: int|
                0 <= k2 < kp1 && 0 <= j < catalog.categories@[k2].challenges.len() implies
                (tree.has_active(catalog.categories@[k2].category@,
                    (#[trigger] catalog.categories@[k2].challenges[j]).name@)
                    == expected_active(
                        t0.has_active(catalog.categories@[k2].category@, catalog.categories@[k2].challenges[j].name@),
                        t0.has_done(catalog.categories@[k2].category@, catalog.categories@[k2].challenges[j].name@),
                        catalog.categories@[k2].challenges[j].spec_solved(),
                    )
                && tree.has_done(catalog.categories@[k2].category@, catalog.categories@[k2].challenges[j].name@)
                    == expected_done(
                        t0.has_active(catalog.categories@[k2].category@, catalog.categories@[k2].challenges[j].name@),
                        t0.has_done(catalog.categories@[k2].category@, catalog.categories@[k2].challenges[j].name@),
                        catalog.categories@[k2].challenges[j].spec_solved(),
                    )) by {
                let c2 = catalog.categories@[k2].category@;
                let nm = catalog.categories@[k2].challenges[j].name@;
                if k2 < kk {
                    // untouched by this category's step: its category differs
                    assert(c2 != cat);
                    assert(!(c2 == cat && lists_upto(cck, cck.challenges.len() as int, nm)));
                    assert(tree.has_active(c2, nm) == tpre.has_active(c2, nm));
                    assert(tree.has_done(c2, nm) == tpre.has_done(c2, nm));
                } else {
                    // this category's own challenge: the step's transition,
                    // read over t0 through the untouched pre-state
                    assert(catalog.categories@[k2] == cck);
                    assert(tree.has_active(cat, nm) == expected_active(
                        tpre.has_active(cat, nm),
                        tpre.has_done(cat, nm),
                        cck.challenges[j].spec_solved(),
                    ));
                    assert(tree.has_done(cat, nm) == expected_done(
                        tpre.has_active(cat, nm),
                        tpre.has_done(cat, nm),
                        cck.challenges[j].spec_solved(),
                    ));
                    assert(tpre.has_active(cat, nm) == t0.has_active(cat, nm));
                    assert(tpre.has_done(cat, nm) == t0.has_done(cat, nm));
                }
            }
            assert(reconcile_tree_upto(*tree, t0, *catalog, kp1));
            // close the action bundle at k + 1
            assert forall|root: RootKind, c: Seq<char>|
                #[trigger] has_create_cat(actions@, root, c) == (cats_upto(*catalog, kp1, c)
                    && ((root == RootKind::Active && !t0.has_active_cat(c))
                        || (root == RootKind::Done && !t0.has_done_cat(c)))) by {
                lemma_catalog_actions_at(apre, t0, *catalog, kk, c, c);
                assert(cats_upto(*catalog, kp1, c) == (cats_upto(*catalog, kk, c) || c == cat));
                assert(RootKind::Active != RootKind::Done);
                if c == cat {
                    assert(!cats_upto(*catalog, kk, cat));
                    assert(tpre.has_active_cat(c) == t0.has_active_cat(c));
                    assert(tpre.has_done_cat(c) == t0.has_done_cat(c));
                }
            }
            assert forall|c: Seq<char>, n: Seq<char>|
                has_move(actions@, c, n) == move_planned_upto(*catalog, t0, kp1, c, n)
                && has_populate_done(actions@, c, n) == pop_done_planned_upto(*catalog, t0, kp1, c, n)
                && has_populate_active(actions@, c, n)
                    == pop_active_planned_upto(*catalog, t0, kp1, c, n) by {
                let len: int = cck.challenges@.len() as int;
                lemma_catalog_actions_at(apre, t0, *catalog, kk, c, n);
                assert(move_planned_upto(*catalog, t0, kp1, c, n)
                    == (move_planned_upto(*catalog, t0, kk, c, n)
                        || (c == cat && move_upto(t0, c, cck, len, n))));
                assert(pop_done_planned_upto(*catalog, t0, kp1, c, n)
                    == (pop_done_planned_upto(*catalog, t0, kk, c, n)
                        || (c == cat && pop_done_upto(t0, c, cck, len, n))));
                assert(pop_active_planned_upto(*catalog, t0, kp1, c, n)
                    == (pop_active_planned_upto(*catalog, t0, kk, c, n)
                        || (c == cat && pop_active_upto(t0, c, cck, len, n))));
                if c == cat {
                    assert(move_upto(tpre, cat, cck, len, n) == move_upto(t0, cat, cck, len, n));
                    assert(pop_done_upto(tpre, cat, cck, len, n)
                        == pop_done_upto(t0, cat, cck, len, n));
                    assert(pop_active_upto(tpre, cat, cck, len, n)
                        == pop_active_upto(t0, cat, cck, len, n));
                }
            }
            assert(catalog_actions_upto(actions@, t0, *catalog, kp1));
            // the action count stays zero exactly while everything was settled
            assert forall|k2: int| 0 <= k2 < kp1 && settled_upto_cats(t0, *catalog, kp1)
                implies settled_category(t0, #[trigger] catalog.categories@[k2]) by {}
            assert(settled_upto_cats(t0, *catalog, kp1)
                == (settled_upto_cats(t0, *catalog, kk) && settled_category(t0, cck)));
            assert((actions@.len() == apre.len()) == settled_category(t0, cck));
            assert((actions@.len() == 0) == settled_upto_cats(t0, *catalog, kp1));
        }
        k += 1;
    }
    proof {
        let len: int = catalog.categories@.len() as int;
        // everything is settled afterwards
        assert forall|k2: int| 0 <= k2 < len implies
            settled_category(*tree, #[trigger] catalog.categories@[k2]) by {
            let cc2 = catalog.categories@[k2];
            let c2 = cc2.category@;
            assert(tree.has_active_cat(c2) && tree.has_done_cat(c2));
            assert forall|j: int| 0 <= j < cc2.challenges.len() implies
                settled_chal(*tree, c2, #[trigger] cc2.challenges[j]) by {
                let nm = cc2.challenges[j].name@;
                assert(tree.has_active(c2, nm) == expected_active(
                    t0.has_active(c2, nm),
                    t0.has_done(c2, nm),
                    cc2.challenges[j].spec_solved(),
                ));
                assert(tree.has_done(c2, nm) == expected_done(
                    t0.has_active(c2, nm),
                    t0.has_done(c2, nm),
                    cc2.challenges[j].spec_solved(),
                ));
            }
        }
        assert(settled(*tree, *catalog));
        // mutual exclusion under the stated preconditions
        if t0.wf_pairs() && tree_matches_solves(t0, *catalog) {
            assert forall|c: Seq<char>, n: Seq<char>|
                !(#[trigger] tree.has_active(c, n) && tree.has_done(c, n)) by {
                if pair_upto(*catalog, len, c, n) {
                    let (k2, j) = choose|k2: int, j: int|
                        0 <= k2 < len && 0 <= j < catalog.categories@[k2].challenges.len()
                        && catalog.categories@[k2].category@ == c
                        && catalog.categories@[k2].challenges[j].name@ == n;
                    assert(tree.has_active(c, n) == expected_active(
                        t0.has_active(c, n), t0.has_done(c, n),
                        catalog.categories@[k2].challenges[j].spec_solved(),
                    ));
                    assert(tree.has_done(c, n) == expected_done(
                        t0.has_active(c, n), t0.has_done(c, n),
                        catalog.categories@[k2].challenges[j].spec_solved(),
                    ));
                    assert(!(t0.has_active(c, n) && t0.has_done(c, n)));
                } else {
                    assert(tree.has_active(c, n) == t0.has_active(c, n));
                    assert(tree.has_done(c, n) == t0.has_done(c, n));
                    assert(!(t0.has_active(c, n) && t0.has_done(c, n)));
                }
            }
            assert forall|k2: int, j: int|
                0 <= k2 < len && 0 <= j < catalog.categories@[k2].challenges@.len() implies
                (tree.has_active(catalog.categories@[k2].category@,
                    (#[trigger] catalog.categories@[k2].challenges@[j]).name@)
                != tree.has_done(catalog.categories@[k2].category@,
                    catalog.categories@[k2].challenges@[j].name@)) by {
                let c2 = catalog.categories@[k2].category@;
                let nm = catalog.categories@[k2].challenges@[j].name@;
                let solved = catalog.categories@[k2].challenges@[j].spec_solved();
                assert(tree.has_active(c2, nm) == expected_active(
                    t0.has_active(c2, nm), t0.has_done(c2, nm), solved));
                assert(tree.has_done(c2, nm) == expected_done(
                    t0.has_active(c2, nm), t0.has_done(c2, nm), solved));
                assert(!(t0.has_active(c2, nm) && t0.has_done(c2, nm)));
                if !solved {
                    assert(!t0.has_done(c2, nm));
                }
            }
        }
    }
    actions
}

/// Law: reconciliation is idempotent. Running it twice in a row against an
/// unchanged catalog plans no filesystem action at all the second time.
pub fn reconcile_twice(catalog: &Catalog, tree: &mut Tree) -> (r: (Vec<FsAction>, Vec<FsAction>))
    requires
        catalog.wf(),
    ensures
        r.1@.len() == 0,
{
    let first = reconcile(catalog, tree);
    let second = reconcile(catalog, tree);
    (first, second)
}

} // verus!
