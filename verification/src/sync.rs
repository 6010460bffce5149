//! The sync pass: gate on a clean working tree, reconcile against the
//! catalog, and the flag-dump follow-up that moves a freshly solved challenge
//! to done without waiting for the next catalog fetch.

use vstd::prelude::*;
use crate::models::{catalog_from, challenge_declares, declares_pair, Catalog, Challenge, SubmitFlagResult};
use crate::reconcile::{
    catalog_actions_upto, reconcile, reconcile_tree_upto, settled, settled_category, settled_chal,
    tree_matches_solves, ChallengeDir, FsAction, Tree,
};

verus! {

/// Why a sync pass refused to run.
#[derive(Clone, Copy, Debug, PartialEq, Eq, Structural)]
pub enum SyncError {
    /// The working tree has uncommitted changes and no force flag was given.
    DirtyWorkingTree,
}

/// The cleanliness gate: with uncommitted changes present and no force flag
/// the pass aborts before any fetch or mutation.
pub fn sync_gate(dirty: bool, force: bool) -> (r: Result<(), SyncError>)
    ensures
        (r is Ok) == (force || !dirty),
        r is Err ==> r == Err::<(), SyncError>(SyncError::DirtyWorkingTree),
{
    if dirty && !force {
        Err(SyncError::DirtyWorkingTree)
    } else {
        Ok(())
    }
}

/// Plans one sync pass: refused outright, with the tree untouched, when the
/// working tree is dirty and no force flag is given; otherwise exactly the
/// reconciliation of the catalog against the tree.
pub fn plan_sync(dirty: bool, force: bool, catalog: &Catalog, tree: &mut Tree) -> (r: Result<
    Vec<FsAction>,
    SyncError,
>)
    requires
        catalog.wf(),
    ensures
        (r is Ok) == (force || !dirty),
        r is Err ==> *final(tree) == *old(tree)
            && r == Err::<Vec<FsAction>, SyncError>(SyncError::DirtyWorkingTree),
        r matches Ok(actions) ==> {
            &&& reconcile_tree_upto(*final(tree), *old(tree), *catalog,
                catalog.categories@.len() as int)
            &&& settled(*final(tree), *catalog)
            &&& (actions@.len() == 0) == settled(*old(tree), *catalog)
            &&& catalog_actions_upto(actions@, *old(tree), *catalog,
                catalog.categories@.len() as int)
            &&& (old(tree).wf_pairs() && tree_matches_solves(*old(tree), *catalog))
                ==> final(tree).wf_pairs()
        },
{
    match sync_gate(dirty, force) {
        Err(e) => Err(e),
        Ok(()) => Ok(reconcile(catalog, tree)),
    }
}

/// The challenge directories the flag-dump phase scans: every challenge
/// directory under the active root, in order.
pub fn flag_candidates(tree: &Tree) -> (r: Vec<ChallengeDir>)
    ensures
        r@.len() == tree.active@.len(),
        forall|i: int| 0 <= i < r@.len() ==>
            (#[trigger] r@[i]).category@ == tree.active@[i].category@
            && r@[i].name@ == tree.active@[i].name@,
{
    let mut out: Vec<ChallengeDir> = Vec::new();
    let mut i: usize = 0;
    while i < tree.active.len()
        invariant
            i <= tree.active@.len(),
            out@.len() == i,
            forall|j: int| 0 <= j < i ==>
                (#[trigger] out@[j]).category@ == tree.active@[j].category@
                && out@[j].name@ == tree.active@[j].name@,
        decreases tree.active@.len() - i,
    {
        out.push(ChallengeDir {
            category: tree.active[i].category.clone(),
            name: tree.active[i].name.clone(),
        });
        i += 1;
    }
    out
}

/// Law: fan-out. A challenge that declares a category — any of several —
/// appears in the grouped catalog as its own entry under that category, and
/// once a sync pass has settled the tree, its directory exists under that
/// category, under one of the two roots.
pub proof fn lemma_fan_out(
    challenges: Seq<Challenge>,
    catalog: Catalog,
    tree: Tree,
    i: int,
    c: Seq<char>,
)
    requires
        catalog_from(challenges, catalog),
        settled(tree, catalog),
        0 <= i < challenges.len(),
        challenge_declares(challenges[i], c),
    ensures
        catalog.has_pair(c, challenges[i].name@),
        tree.has_active(c, challenges[i].name@) || tree.has_done(c, challenges[i].name@),
{
    let n = challenges[i].name@;
    assert(challenges[i].name@ == n && challenge_declares(challenges[i], c));
    assert(declares_pair(challenges, c, n));
    assert(catalog.has_pair(c, n));
    let (k, j) = choose|k: int, j: int|
        0 <= k < catalog.categories.len() && 0 <= j < catalog.categories[k].challenges.len()
            && catalog.categories[k].category@ == c
            && catalog.categories[k].challenges[j].name@ == n;
    assert(settled_category(tree, catalog.categories@[k]));
    assert(settled_chal(tree, c, catalog.categories@[k].challenges@[j]));
}

/// The flag-dump follow-up on a submission outcome: a correct flag moves the
/// challenge's directory from active to done at once; any other outcome
/// leaves the tree untouched.
pub fn flagdump_followup(tree: &mut Tree, outcome: SubmitFlagResult, category: &str, name: &str) -> (moved: bool)
    ensures
        moved == (outcome == SubmitFlagResult::Correct),
        moved ==> final(tree).active_categories == old(tree).active_categories
            && final(tree).done_categories == old(tree).done_categories
            && (forall|c: Seq<char>, n: Seq<char>|
                final(tree).has_active(c, n)
                    == (old(tree).has_active(c, n) && !(c == category@ && n == name@)))
            && (forall|c: Seq<char>, n: Seq<char>|
                final(tree).has_done(c, n)
                    == (old(tree).has_done(c, n) || (c == category@ && n == name@))),
        !moved ==> *final(tree) == *old(tree),
{
    match outcome {
        SubmitFlagResult::Correct => {
            crate::reconcile::remove_dir(&mut tree.active, category, name);
            crate::reconcile::push_dir_if_missing(&mut tree.done, category, name);
            true
        }
        _ => false,
    }
}

} // verus!
