//! The tried-flags cache: the persistence round trip and the no-resubmit
//! guarantee of the submission gate.

use berg_cli::flag_cache::FlagCache;
use berg_cli::models::SubmitFlagResult;
use berg_cli::submission::{gate_precheck, gate_settle, no_resubmit};
use berg_cli::sync::flagdump_followup;

#[test]
fn save_load_is_identity_on_nonempty_cache() {
    let mut cache = FlagCache::new();
    cache.record("baby-rop", "flag{first_try}");
    cache.record("baby-rop", "flag{second_try}");
    cache.record("warmup", "flag{hello}");
    let text = cache.save();
    let loaded = FlagCache::load(Some(text.as_str())).expect("a saved cache loads");
    assert_eq!(loaded.len(), 3);
    assert!(loaded.contains("baby-rop", "flag{first_try}"));
    assert!(loaded.contains("baby-rop", "flag{second_try}"));
    assert!(loaded.contains("warmup", "flag{hello}"));
    assert!(!loaded.contains("warmup", "flag{first_try}"));
    // and saving the loaded cache reproduces the file, character for character
    assert_eq!(loaded.save(), text);
}

#[test]
fn save_load_roundtrip_with_special_characters() {
    let mut cache = FlagCache::new();
    cache.record("odd\tname", "flag{with\\backslash}");
    cache.record("other", "multi\nline\tflag");
    let text = cache.save();
    let loaded = FlagCache::load(Some(text.as_str())).expect("escaped pairs load back");
    assert!(loaded.contains("odd\tname", "flag{with\\backslash}"));
    assert!(loaded.contains("other", "multi\nline\tflag"));
    assert_eq!(loaded.len(), 2);
}

#[test]
fn loading_a_missing_file_yields_an_empty_cache() {
    let loaded = FlagCache::load(None).expect("a missing file is an empty cache, not an error");
    assert_eq!(loaded.len(), 0);
}

#[test]
fn loading_a_corrupt_file_is_an_error() {
    // a dangling escape cannot be parsed
    assert!(FlagCache::load(Some("chall\tflag\\")).is_err());
    // a line with a single token is malformed
    assert!(FlagCache::load(Some("only-one-token\n")).is_err());
    // text not terminated by a newline is malformed
    assert!(FlagCache::load(Some("chall\tflag")).is_err());
}

#[test]
fn record_is_idempotent() {
    let mut cache = FlagCache::new();
    cache.record("c", "f");
    cache.record("c", "f");
    assert_eq!(cache.len(), 1);
    assert!(cache.contains("c", "f"));
    assert!(!cache.contains("c", "g"));
    assert!(!cache.contains("d", "f"));
}

#[test]
fn recorded_flag_is_never_resubmitted() {
    let mut cache = FlagCache::new();
    let r = no_resubmit(&mut cache, "baby-rop", "flag{tried}");
    assert_eq!(r, Some(SubmitFlagResult::Incorrect));
    // the precheck short-circuits it on every later attempt too
    assert_eq!(
        gate_precheck(&cache, "baby-rop", "flag{tried}"),
        Some(SubmitFlagResult::Incorrect)
    );
    // an untried pair passes through to the remote
    assert_eq!(gate_precheck(&cache, "baby-rop", "flag{fresh}"), None);
    assert_eq!(gate_precheck(&cache, "other", "flag{tried}"), None);
}

#[test]
fn settle_records_recognized_outcomes_only() {
    let mut cache = FlagCache::new();
    assert!(gate_settle(&mut cache, "c", "wrong", SubmitFlagResult::Incorrect));
    assert!(gate_settle(&mut cache, "c", "right", SubmitFlagResult::Correct));
    assert!(gate_settle(&mut cache, "c", "limited", SubmitFlagResult::RateLimited));
    assert!(!gate_settle(&mut cache, "c", "odd", SubmitFlagResult::Unknown));
    assert!(cache.contains("c", "wrong"));
    assert!(cache.contains("c", "right"));
    assert!(cache.contains("c", "limited"));
    assert!(!cache.contains("c", "odd"));
}

#[test]
fn correct_flagdump_outcome_moves_the_directory() {
    let mut tree = berg_cli::reconcile::Tree {
        active_categories: vec!["pwn".to_string()],
        done_categories: vec!["pwn".to_string()],
        active: vec![berg_cli::reconcile::ChallengeDir {
            category: "pwn".to_string(),
            name: "baby-rop".to_string(),
        }],
        done: Vec::new(),
    };
    let moved = flagdump_followup(&mut tree, SubmitFlagResult::Correct, "pwn", "baby-rop");
    assert!(moved);
    assert!(!tree.has_active_dir("pwn", "baby-rop"));
    assert!(tree.has_done_dir("pwn", "baby-rop"));
}

#[test]
fn incorrect_flagdump_outcome_leaves_the_tree() {
    let mut tree = berg_cli::reconcile::Tree {
        active_categories: vec!["pwn".to_string()],
        done_categories: vec!["pwn".to_string()],
        active: vec![berg_cli::reconcile::ChallengeDir {
            category: "pwn".to_string(),
            name: "baby-rop".to_string(),
        }],
        done: Vec::new(),
    };
    let moved = flagdump_followup(&mut tree, SubmitFlagResult::Incorrect, "pwn", "baby-rop");
    assert!(!moved);
    assert!(tree.has_active_dir("pwn", "baby-rop"));
    assert!(!tree.has_done_dir("pwn", "baby-rop"));
}
