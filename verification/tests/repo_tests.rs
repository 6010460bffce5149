//! Repository layout, configuration round trip, root search, the wire decode
//! table, and the client configuration.

use berg_cli::cli::{Cli, Commands, InstanceCommands};
use berg_cli::client::{endpoint_url, instance_start_decision, ClientConfig, InstanceStartAction};
use berg_cli::models::{submit_result_from_code, SubmitFlagResult};
use berg_cli::repo::{
    config_text, find_berg_toml_dir, parse_config, BergRepo, RepoConfig,
};

fn repo() -> BergRepo {
    BergRepo {
        path: "/home/player/ctf".to_string(),
        config: RepoConfig { server: "https://ctf.example/".to_string() },
    }
}

#[test]
fn repository_paths() {
    let r = repo();
    assert_eq!(r.done_path(), "/home/player/ctf/.done");
    assert_eq!(r.berg_dir(), "/home/player/ctf/.berg");
    assert_eq!(r.auth_path(), "/home/player/ctf/.berg/auth");
    assert_eq!(r.config_path(), "/home/player/ctf/.berg.toml");
    assert_eq!(r.tried_flags_path(), "/home/player/ctf/.berg/tried_flags");
}

#[test]
fn config_text_is_one_toml_line() {
    let r = repo();
    assert_eq!(config_text(&r.config), "server = \"https://ctf.example/\"\n");
}

#[test]
fn config_roundtrips_through_toml() {
    let text = config_text(&RepoConfig { server: "https://ctf.example/".to_string() });
    let parsed = parse_config(&text).expect("the file the library writes parses back");
    assert_eq!(parsed.server, "https://ctf.example/");
    // escaped characters survive the round trip
    let odd = RepoConfig { server: "we\"ird\\server\n".to_string() };
    let parsed_odd = parse_config(&config_text(&odd)).expect("escapes parse back");
    assert_eq!(parsed_odd.server, "we\"ird\\server\n");
}

#[test]
fn config_without_server_is_malformed() {
    assert!(parse_config("title = \"x\"\n").is_err());
    assert!(parse_config("server = 17\n").is_err());
    assert!(parse_config("not toml at all [").is_err());
}

#[test]
fn root_search_walks_up_to_the_marker() {
    let marked = vec!["/home/player/ctf".to_string()];
    assert_eq!(
        find_berg_toml_dir("/home/player/ctf/pwn/baby-rop", &marked),
        Some("/home/player/ctf".to_string())
    );
    assert_eq!(
        find_berg_toml_dir("/home/player/ctf", &marked),
        Some("/home/player/ctf".to_string())
    );
    assert_eq!(find_berg_toml_dir("/home/player/elsewhere", &marked), None);
    assert_eq!(find_berg_toml_dir("relative", &marked), None);
}

#[test]
fn root_search_prefers_the_nearest_marker() {
    let marked = vec!["/a".to_string(), "/a/b".to_string()];
    assert_eq!(find_berg_toml_dir("/a/b/c", &marked), Some("/a/b".to_string()));
}

#[test]
fn init_plan_lists_structure_and_files() {
    let r = repo();
    let plan = r.init_plan(false, &Some("SECRET-REDACTED".to_string())).expect("empty dir");
    assert_eq!(plan.dirs, vec![
        "/home/player/ctf/.done".to_string(),
        "/home/player/ctf/.berg".to_string(),
    ]);
    assert_eq!(plan.files.len(), 3);
    assert_eq!(plan.files[0].0, "/home/player/ctf/.gitignore");
    assert_eq!(plan.files[0].1, ".berg/auth");
    assert_eq!(plan.files[1].0, "/home/player/ctf/.berg.toml");
    assert_eq!(plan.files[1].1, "server = \"https://ctf.example/\"\n");
    assert_eq!(plan.files[2].0, "/home/player/ctf/.berg/auth");
    assert_eq!(plan.files[2].1, "SECRET-REDACTED");
    // without a token only two files are written
    let plan2 = r.init_plan(false, &None).unwrap();
    assert_eq!(plan2.files.len(), 2);
}

#[test]
fn init_plan_refuses_a_nonempty_directory() {
    let r = repo();
    assert!(r.init_plan(true, &None).is_err());
}

#[test]
fn submit_result_decode_table() {
    assert_eq!(submit_result_from_code(0), SubmitFlagResult::Correct);
    assert_eq!(submit_result_from_code(1), SubmitFlagResult::Incorrect);
    assert_eq!(submit_result_from_code(2), SubmitFlagResult::RateLimited);
    assert_eq!(submit_result_from_code(3), SubmitFlagResult::AlreadySolved);
    assert_eq!(submit_result_from_code(4), SubmitFlagResult::CtfNotStarted);
    assert_eq!(submit_result_from_code(5), SubmitFlagResult::CtfHasEnded);
    assert_eq!(submit_result_from_code(6), SubmitFlagResult::Unknown);
    assert_eq!(submit_result_from_code(-1), SubmitFlagResult::Unknown);
    assert_eq!(submit_result_from_code(i32::MAX), SubmitFlagResult::Unknown);
}

#[test]
fn endpoint_url_strips_one_leading_slash() {
    assert_eq!(endpoint_url("https://x.y/", "/api/challenges"), "https://x.y/api/challenges");
    assert_eq!(endpoint_url("https://x.y/", "api/challenges"), "https://x.y/api/challenges");
    assert_eq!(endpoint_url("https://x.y/", ""), "https://x.y/");
}

#[test]
fn client_config_with_token_is_a_new_value() {
    let base = ClientConfig::new("https://x.y/");
    assert!(base.token.is_none());
    let with = base.with_token("SECRET-REDACTED");
    assert_eq!(with.server, "https://x.y/");
    assert_eq!(with.token.as_deref(), Some("SECRET-REDACTED"));
    assert!(base.token.is_none());
}

#[test]
fn instance_start_decision_table() {
    assert_eq!(instance_start_decision("", "a", false), InstanceStartAction::Start);
    assert_eq!(instance_start_decision("a", "a", false), InstanceStartAction::AlreadyRunning);
    assert_eq!(instance_start_decision("a", "a", true), InstanceStartAction::AlreadyRunning);
    assert_eq!(instance_start_decision("b", "a", true), InstanceStartAction::StopThenStart);
    assert_eq!(instance_start_decision("b", "a", false), InstanceStartAction::Refuse);
}

#[test]
fn only_init_and_sync_touch_the_tree() {
    let init = Cli { command: Commands::Init { server: "s".to_string(), path: None } };
    let sync = Cli { command: Commands::Sync { flagdump: true } };
    let auth = Cli { command: Commands::Authenticate {} };
    let submit = Cli {
        command: Commands::Submit { challenge: "c".to_string(), flag: "f".to_string() },
    };
    let info = Cli { command: Commands::Instance { command: InstanceCommands::Info {} } };
    assert!(init.mutates_tree());
    assert!(sync.mutates_tree());
    assert!(!auth.mutates_tree());
    assert!(!submit.mutates_tree());
    assert!(!info.mutates_tree());
}

#[test]
fn decode_table_matches_its_specification() {
    // the spec-level table and the executable decode agree on the boundary
    for code in [-2, -1, 0, 1, 2, 3, 4, 5, 6, 7, 100] {
        let got = submit_result_from_code(code);
        let expected = match code {
            0 => SubmitFlagResult::Correct,
            1 => SubmitFlagResult::Incorrect,
            2 => SubmitFlagResult::RateLimited,
            3 => SubmitFlagResult::AlreadySolved,
            4 => SubmitFlagResult::CtfNotStarted,
            5 => SubmitFlagResult::CtfHasEnded,
            _ => SubmitFlagResult::Unknown,
        };
        assert_eq!(got, expected);
    }
}
