use tack::hook::{
    command_contains_git, deny_message, find_tack_root, git_command, git_subcommand, pre_tool_use,
    shell_tokens, Level,
};
use tack::json::Json;

// ── git-detection unit tests ──────────────────────────────────────────────────

#[test]
fn detects_git_as_first_token() {
    assert!(command_contains_git("git status"));
}

#[test]
fn detects_bare_git_alone() {
    assert!(command_contains_git("git"));
}

#[test]
fn detects_git_after_and_separator() {
    assert!(command_contains_git("ls && git commit -m 'x'"));
}

#[test]
fn detects_git_after_pipe() {
    assert!(command_contains_git("echo foo | git commit --allow-empty"));
}

#[test]
fn detects_git_after_or_separator() {
    assert!(command_contains_git("true || git status"));
}

#[test]
fn detects_git_after_semicolon() {
    assert!(command_contains_git("echo hi; git log"));
}

#[test]
fn detects_git_after_open_paren() {
    assert!(command_contains_git("( git status )"));
}

#[test]
fn does_not_match_gitk() {
    assert!(!command_contains_git("gitk"));
}

#[test]
fn does_not_match_digit_x() {
    assert!(!command_contains_git("digit x"));
}

#[test]
fn does_not_match_git_as_argument() {
    // `git` is an argument to `echo`, not a command.
    assert!(!command_contains_git("echo git"));
}

#[test]
fn does_not_match_full_path_git() {
    // Full paths are intentionally not matched in v0.
    assert!(!command_contains_git("/usr/bin/git status"));
}

#[test]
fn does_not_match_git_foo_hyphenated() {
    assert!(!command_contains_git("git-foo bar"));
}

// ── subcommand extraction ─────────────────────────────────────────────────────

#[test]
fn extracts_subcommand_commit() {
    assert_eq!(git_subcommand("git commit -m hi").as_deref(), Some("commit"));
}

#[test]
fn extracts_subcommand_after_separator() {
    assert_eq!(git_subcommand("ls && git log --oneline").as_deref(), Some("log"));
}

#[test]
fn extracts_none_for_bare_git() {
    assert_eq!(git_subcommand("git"), None);
}

#[test]
fn extracts_none_when_no_git() {
    assert_eq!(git_subcommand("echo git"), None);
}

// ── deny message coverage ─────────────────────────────────────────────────────

#[test]
fn deny_message_maps_known_subcommands() {
    assert!(deny_message(Some("commit")).contains("tack snap"));
    assert!(deny_message(Some("status")).contains("tack status"));
    assert!(deny_message(Some("add")).contains("staging area"));
    assert!(deny_message(Some("diff")).contains("tack diff"));
    assert!(deny_message(Some("log")).contains("tack log"));
    assert!(deny_message(Some("checkout")).contains("tack restore"));
    assert!(deny_message(Some("switch")).contains("tack restore"));
    assert!(deny_message(Some("reset")).contains("tack restore"));
    assert!(deny_message(Some("revert")).contains("tack restore"));
    assert!(deny_message(Some("init")).contains("already a tack repo"));
    assert!(deny_message(Some("branch")).contains("tack lanes"));
    assert!(deny_message(Some("merge")).contains("tack backport"));
    assert!(deny_message(Some("rebase")).contains("fast-forward"));
    assert!(deny_message(Some("cherry-pick")).contains("tack backport"));
    assert!(deny_message(Some("push")).contains("local-only"));
    assert!(deny_message(Some("pull")).contains("local-only"));
    assert!(deny_message(Some("fetch")).contains("local-only"));
    assert!(deny_message(Some("clone")).contains("local-only"));
    assert!(deny_message(Some("remote")).contains("local-only"));
}

#[test]
fn deny_message_fallback_for_unknown_subcommand() {
    assert!(deny_message(Some("stash")).contains("tack schema"));
    assert!(deny_message(None).contains("tack schema"));
}

// ── decisions ────────────────────────────────────────────────────────────────

const TACK_ONLY: Level = Level { has_tack: true, has_git: false };
const MIXED: Level = Level { has_tack: true, has_git: true };
const PLAIN: Level = Level { has_tack: false, has_git: false };

fn make_event(tool_name: &str, command: &str) -> Json {
    Json::Object(vec![
        ("tool_name".to_owned(), Json::text(tool_name)),
        (
            "tool_input".to_owned(),
            Json::Object(vec![("command".to_owned(), Json::text(command))]),
        ),
    ])
}

// ── self-gate: tack-only repo → deny ─────────────────────────────────────────

#[test]
fn denies_git_in_tack_only_repo() {
    let value = pre_tool_use(&make_event("Bash", "git status"), &[TACK_ONLY]).expect("deny output");
    let details = value.get("hookSpecificOutput").expect("details");
    assert_eq!(details.get_str("permissionDecision"), Some("deny"), "decision must be deny");
    assert_eq!(details.get_str("hookEventName"), Some("PreToolUse"));
    // The reason must reference tack.
    let reason = details.get_str("permissionDecisionReason").expect("reason must be a string");
    assert!(reason.contains("tack"), "reason must mention tack: {reason}");
}

#[test]
fn deny_output_has_exact_shape() {
    let value = pre_tool_use(&make_event("Bash", "git commit -m 'hello'"), &[TACK_ONLY])
        .expect("deny output");
    // All required fields must be present with correct values.
    let details = value.get("hookSpecificOutput").expect("details");
    assert_eq!(details.get_str("hookEventName"), Some("PreToolUse"));
    assert_eq!(details.get_str("permissionDecision"), Some("deny"));
    assert!(details.get_str("permissionDecisionReason").is_some_and(|r| r.contains("tack snap")));
}

// ── self-gate: mixed repo (.tack + .git) → allow ─────────────────────────────

#[test]
fn allows_git_in_mixed_repo() {
    assert!(pre_tool_use(&make_event("Bash", "git status"), &[MIXED]).is_none());
}

// ── self-gate: no tack root → allow ──────────────────────────────────────────

#[test]
fn allows_git_in_plain_directory() {
    assert!(pre_tool_use(&make_event("Bash", "git status"), &[PLAIN, PLAIN]).is_none());
}

// ── non-Bash tool → always allow ─────────────────────────────────────────────

#[test]
fn allows_non_bash_tool() {
    assert!(pre_tool_use(&make_event("Edit", "git status"), &[TACK_ONLY]).is_none());
}

// ── no git in command → allow ────────────────────────────────────────────────

#[test]
fn allows_bash_without_git() {
    assert!(pre_tool_use(&make_event("Bash", "cargo build --release"), &[TACK_ONLY]).is_none());
}

// ── cwd walk: child subdir of tack root → deny ───────────────────────────────

#[test]
fn denies_git_from_subdir_of_tack_repo() {
    let levels = [PLAIN, PLAIN, TACK_ONLY];
    assert!(pre_tool_use(&make_event("Bash", "git log"), &levels).is_some());
    assert_eq!(find_tack_root(&levels), Some((2, false)));
}

#[test]
fn the_innermost_tack_root_decides() {
    assert!(pre_tool_use(&make_event("Bash", "git log"), &[PLAIN, MIXED, TACK_ONLY]).is_none());
    assert!(pre_tool_use(&make_event("Bash", "git log"), &[TACK_ONLY, MIXED]).is_some());
}

// ── missing tool_input.command → allow ───────────────────────────────────────

#[test]
fn allows_when_command_field_is_absent() {
    let event = Json::Object(vec![
        ("tool_name".to_owned(), Json::text("Bash")),
        ("tool_input".to_owned(), Json::empty_object()),
    ]);
    assert!(pre_tool_use(&event, &[TACK_ONLY]).is_none());
}

// ── an event that is no object → allow (never crash) ─────────────────────────

#[test]
fn allows_an_event_that_is_no_object() {
    assert!(pre_tool_use(&Json::Null, &[TACK_ONLY]).is_none());
    assert!(git_command(&Json::Array(vec![])).is_none());
}

#[test]
fn tokens_are_split_at_separators() {
    assert_eq!(shell_tokens("a|b;(c  d"), vec!["a", "|", "b", ";", "(", "c", "d"]);
    assert!(command_contains_git("true;git push"));
    // `&` is no separator character: only a free-standing `&&` separates.
    assert_eq!(shell_tokens("true&&git push"), vec!["true&&git", "push"]);
    assert!(!command_contains_git("true&&git push"));
}

#[test]
fn subcommand_skips_separators() {
    assert_eq!(git_subcommand("git | less").as_deref(), Some("less"));
    assert_eq!(git_subcommand("git ;"), None);
}
