//! Reconciliation: idempotence, mutual exclusion, fan-out, and the two
//! end-to-end scenarios around one challenge.

use berg_cli::models::{build_catalog, Attachment, Challenge};
use berg_cli::reconcile::{reconcile, reconcile_twice, FsAction, RootKind, Tree};
use berg_cli::repo::populate_plan;
use berg_cli::sync::plan_sync;

fn challenge(
    name: &str,
    categories: &[&str],
    solved_by_player: bool,
    solved_by_team: bool,
    attachments: Vec<Attachment>,
) -> Challenge {
    Challenge {
        name: name.to_string(),
        author: "author-x".to_string(),
        description: "<p>desc</p>".to_string(),
        categories: categories.iter().map(|c| c.to_string()).collect(),
        solved_by_player,
        solved_by_team,
        attachments,
    }
}

fn empty_tree() -> Tree {
    Tree {
        active_categories: Vec::new(),
        done_categories: Vec::new(),
        active: Vec::new(),
        done: Vec::new(),
    }
}

fn count_actions(actions: &[FsAction]) -> (usize, usize, usize, usize) {
    let mut creates = 0;
    let mut moves = 0;
    let mut pop_done = 0;
    let mut pop_active = 0;
    for a in actions {
        match a {
            FsAction::CreateCategoryDir { .. } => creates += 1,
            FsAction::MoveToDone { .. } => moves += 1,
            FsAction::PopulateDone { .. } => pop_done += 1,
            FsAction::PopulateActive { .. } => pop_active += 1,
        }
    }
    (creates, moves, pop_done, pop_active)
}

#[test]
fn reconcile_is_idempotent() {
    let challenges = vec![
        challenge("baby-rop", &["pwn"], false, false, Vec::new()),
        challenge("warmup", &["rev"], true, false, Vec::new()),
    ];
    let catalog = build_catalog(&challenges);
    let mut tree = empty_tree();
    let (first, second) = reconcile_twice(&catalog, &mut tree);
    assert!(!first.is_empty());
    assert!(second.is_empty());
    // and a third pass still plans nothing
    let third = reconcile(&catalog, &mut tree);
    assert!(third.is_empty());
}

#[test]
fn mutual_exclusion_after_pass() {
    let challenges = vec![
        challenge("a", &["pwn"], false, false, Vec::new()),
        challenge("b", &["pwn"], true, false, Vec::new()),
        challenge("c", &["web"], false, true, Vec::new()),
    ];
    let catalog = build_catalog(&challenges);
    let mut tree = empty_tree();
    reconcile(&catalog, &mut tree);
    for (cat, name) in [("pwn", "a"), ("pwn", "b"), ("web", "c")] {
        let active = tree.has_active_dir(cat, name);
        let done = tree.has_done_dir(cat, name);
        assert!(active != done, "exactly one of active/done for {cat}/{name}");
    }
    assert!(tree.has_active_dir("pwn", "a"));
    assert!(tree.has_done_dir("pwn", "b"));
    assert!(tree.has_done_dir("web", "c"));
}

#[test]
fn fan_out_under_both_categories() {
    let challenges = vec![challenge("double", &["pwn", "misc"], false, false, Vec::new())];
    let catalog = build_catalog(&challenges);
    let mut tree = empty_tree();
    let actions = reconcile(&catalog, &mut tree);
    assert!(tree.has_active_dir("pwn", "double"));
    assert!(tree.has_active_dir("misc", "double"));
    let (creates, moves, pop_done, pop_active) = count_actions(&actions);
    assert_eq!(creates, 4); // pwn and misc under both roots
    assert_eq!(moves, 0);
    assert_eq!(pop_done, 0);
    assert_eq!(pop_active, 2); // one independent directory per category
}

#[test]
fn no_category_goes_to_uncategorized() {
    let challenges = vec![challenge("stray", &[], false, false, Vec::new())];
    let catalog = build_catalog(&challenges);
    let mut tree = empty_tree();
    reconcile(&catalog, &mut tree);
    assert!(tree.has_active_dir("Uncategorized", "stray"));
}

#[test]
fn dirty_gate_blocks_and_force_overrides() {
    let challenges = vec![challenge("a", &["pwn"], false, false, Vec::new())];
    let catalog = build_catalog(&challenges);
    let mut tree = empty_tree();
    // dirty without force: refused, no plan, tree untouched
    let refused = plan_sync(true, false, &catalog, &mut tree);
    assert!(refused.is_err());
    assert!(!tree.has_active_dir("pwn", "a"));
    assert!(tree.active_categories.is_empty());
    // dirty with force: proceeds
    let forced = plan_sync(true, true, &catalog, &mut tree);
    assert!(forced.is_ok());
    assert!(!forced.unwrap().is_empty());
    assert!(tree.has_active_dir("pwn", "a"));
}

#[test]
fn unsolved_challenge_is_populated_active() {
    // the first scenario around baby-rop: unsolved, one tar.gz attachment
    let att = Attachment {
        file_name: "baby-rop.tar.gz".to_string(),
        download_url: "/api/attachments/baby-rop.tar.gz".to_string(),
    };
    let challenges = vec![challenge("baby-rop", &["pwn"], false, false, vec![att])];
    let catalog = build_catalog(&challenges);
    let mut tree = empty_tree();
    let actions = reconcile(&catalog, &mut tree);
    assert!(tree.has_active_dir("pwn", "baby-rop"));
    assert!(!tree.has_done_dir("pwn", "baby-rop"));
    let mut saw_populate_active = false;
    for a in &actions {
        if let FsAction::PopulateActive { category, challenge } = a {
            assert_eq!(category, "pwn");
            assert_eq!(challenge, "baby-rop");
            saw_populate_active = true;
        }
    }
    assert!(saw_populate_active);
    // its README holds the challenge name and the author
    let plan = populate_plan("https://ctf.example/", &challenges[0]);
    assert!(plan.readme.contains("baby-rop"));
    assert!(plan.readme.contains("author-x"));
    // the HTML description was rendered, not copied
    assert!(plan.readme.contains("desc"));
    assert!(!plan.readme.contains("<p>"));
    // and the attachment is fetched as an archive, from the joined URL
    assert_eq!(plan.steps.len(), 1);
    match &plan.steps[0] {
        berg_cli::repo::AttachmentStep::FetchArchive { file_name, url } => {
            assert_eq!(file_name, "baby-rop.tar.gz");
            assert_eq!(url, "https://ctf.example/api/attachments/baby-rop.tar.gz");
        }
        _ => panic!("expected an archive fetch"),
    }
}

#[test]
fn solved_challenge_is_moved_not_redownloaded() {
    // the second scenario: the same challenge reported solved while its
    // active directory exists and its done directory does not
    let challenges = vec![challenge("baby-rop", &["pwn"], true, false, Vec::new())];
    let catalog = build_catalog(&challenges);
    let mut tree = empty_tree();
    tree.active_categories.push("pwn".to_string());
    tree.done_categories.push("pwn".to_string());
    tree.active.push(berg_cli::reconcile::ChallengeDir {
        category: "pwn".to_string(),
        name: "baby-rop".to_string(),
    });
    let actions = reconcile(&catalog, &mut tree);
    assert!(!tree.has_active_dir("pwn", "baby-rop"));
    assert!(tree.has_done_dir("pwn", "baby-rop"));
    let (creates, moves, pop_done, pop_active) = count_actions(&actions);
    assert_eq!(creates, 0);
    assert_eq!(moves, 1, "moved");
    assert_eq!(pop_done, 0, "not re-downloaded");
    assert_eq!(pop_active, 0);
    match &actions[0] {
        FsAction::MoveToDone { category, challenge } => {
            assert_eq!(category, "pwn");
            assert_eq!(challenge, "baby-rop");
        }
        _ => panic!("expected a move"),
    }
}

#[test]
fn solved_and_already_done_is_a_no_op() {
    let challenges = vec![challenge("baby-rop", &["pwn"], true, true, Vec::new())];
    let catalog = build_catalog(&challenges);
    let mut tree = empty_tree();
    tree.active_categories.push("pwn".to_string());
    tree.done_categories.push("pwn".to_string());
    tree.done.push(berg_cli::reconcile::ChallengeDir {
        category: "pwn".to_string(),
        name: "baby-rop".to_string(),
    });
    let actions = reconcile(&catalog, &mut tree);
    assert!(actions.is_empty());
}

#[test]
fn category_dirs_created_under_both_roots() {
    let challenges = vec![challenge("a", &["pwn"], false, false, Vec::new())];
    let catalog = build_catalog(&challenges);
    let mut tree = empty_tree();
    let actions = reconcile(&catalog, &mut tree);
    let mut active_cat = false;
    let mut done_cat = false;
    for a in &actions {
        if let FsAction::CreateCategoryDir { root, category } = a {
            assert_eq!(category, "pwn");
            match root {
                RootKind::Active => active_cat = true,
                RootKind::Done => done_cat = true,
            }
        }
    }
    assert!(active_cat && done_cat);
}
