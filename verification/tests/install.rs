use std::collections::BTreeMap;

use tack::install::{
    accepts_hooks, accepts_servers, codex_mcp_add_hint, codex_mcp_remove_hint, install,
    install_steps, instruction_block_content, merge_hook_entry, missing_repository, our_hook_command, register_mcp,
    remove_block,
    remove_hook_config, remove_hook_entry, remove_instruction_block, remove_mcp_json, uninstall,
    unregister_mcp, upsert_block, write_hook_config, write_instruction_block, write_mcp_json, Agent, ConfigEdit, Edit,
    InstallStep, MissingRepository, Report, Targets, BLOCK_BEGIN, BLOCK_END, CAVEAT,
};
use tack::json::{parse_json, render_json, Json};
use tack::output::OutputFormat;

const EXE: &str = r"C:\fake\tack.exe";

// ── upsert_block ──────────────────────────────────────────────────────────────

#[test]
fn upsert_block_appends_to_empty_file() {
    let block = format!("{BLOCK_BEGIN}\ncontent\n{BLOCK_END}");
    let result = upsert_block("", &block);
    assert!(result.contains(BLOCK_BEGIN));
    assert!(result.contains(BLOCK_END));
}

#[test]
fn upsert_block_appends_to_existing_content() {
    let existing = "# Existing docs\n\nsome text\n";
    let block = format!("{BLOCK_BEGIN}\ncontent\n{BLOCK_END}");
    let result = upsert_block(existing, &block);
    assert!(result.starts_with("# Existing docs"));
    assert!(result.contains(BLOCK_BEGIN));
}

#[test]
fn upsert_block_replaces_existing_block() {
    let old_block = format!("{BLOCK_BEGIN}\nold content\n{BLOCK_END}");
    let existing = format!("# Header\n\n{old_block}\n\n# Footer\n");
    let new_block = format!("{BLOCK_BEGIN}\nnew content\n{BLOCK_END}");
    let result = upsert_block(&existing, &new_block);
    assert!(!result.contains("old content"), "old content must be gone");
    assert!(result.contains("new content"), "new content must appear");
    // Header and footer must survive.
    assert!(result.contains("# Header"));
    assert!(result.contains("# Footer"));
}

#[test]
fn upsert_block_idempotent_on_identical_block() {
    let block = instruction_block_content();
    let first = upsert_block("", &block);
    let second = upsert_block(&first, &block);
    assert_eq!(first, second, "second upsert must be a no-op");
}

// ── remove_block ──────────────────────────────────────────────────────────────

#[test]
fn remove_block_removes_managed_block() {
    let block = format!("{BLOCK_BEGIN}\ncontent\n{BLOCK_END}");
    let existing = format!("# Header\n\n{block}\n\n# Footer\n");
    let result = remove_block(&existing);
    assert!(!result.contains(BLOCK_BEGIN));
    assert!(!result.contains(BLOCK_END));
    assert!(result.contains("# Header"));
    assert!(result.contains("# Footer"));
}

#[test]
fn remove_block_no_op_when_absent() {
    let text = "# No managed block here\n";
    assert_eq!(remove_block(text), text);
}

// ── merge_hook_entry ──────────────────────────────────────────────────────────

fn object(members: Vec<(&str, Json)>) -> Json {
    Json::Object(members.into_iter().map(|(k, v)| (k.to_owned(), v)).collect())
}

fn entries(value: &Json) -> &[Json] {
    value
        .get("hooks")
        .and_then(|h| h.get("PreToolUse"))
        .and_then(|e| e.as_array())
        .expect("array")
}

fn foreign_entry(matcher: &str, command: &str) -> Json {
    object(vec![
        ("matcher", Json::text(matcher)),
        (
            "hooks",
            Json::Array(vec![object(vec![
                ("type", Json::text("command")),
                ("command", Json::text(command)),
            ])]),
        ),
    ])
}

fn with_entries(entries: Vec<Json>) -> Json {
    object(vec![("hooks", object(vec![("PreToolUse", Json::Array(entries))]))])
}

#[test]
fn merge_hook_entry_adds_to_empty_value() {
    let mut value = Json::empty_object();
    let changed = merge_hook_entry(&mut value, EXE, "Bash");
    assert!(changed);
    assert_eq!(entries(&value).len(), 1);
    assert_eq!(entries(&value)[0].get_str("matcher"), Some("Bash"));
}

#[test]
fn merge_hook_entry_idempotent() {
    let mut value = Json::empty_object();
    merge_hook_entry(&mut value, EXE, "Bash");
    let changed = merge_hook_entry(&mut value, EXE, "Bash");
    assert!(!changed, "second merge must report no change");
    assert_eq!(entries(&value).len(), 1, "must not duplicate");
}

#[test]
fn merge_hook_entry_preserves_unrelated_keys() {
    let mut value = object(vec![
        ("customKey", Json::text("preserved")),
        ("other", Json::Number("42".to_owned())),
    ]);
    merge_hook_entry(&mut value, EXE, "Bash");
    assert_eq!(value.get_str("customKey"), Some("preserved"));
    assert!(matches!(value.get("other"), Some(Json::Number(n)) if n == "42"));
}

#[test]
fn merge_hook_entry_preserves_existing_hook_entries() {
    let mut value = with_entries(vec![foreign_entry("SomeTool", "other-tool")]);
    merge_hook_entry(&mut value, EXE, "Bash");
    assert_eq!(entries(&value).len(), 2, "existing entry must be preserved");
    // Our entry is present.
    let our_cmd = our_hook_command(EXE);
    let has_ours = entries(&value).iter().any(|e| {
        e.get("hooks")
            .and_then(|h| h.as_array())
            .is_some_and(|h| h.iter().any(|h| h.get_str("command") == Some(our_cmd.as_str())))
    });
    assert!(has_ours);
}

#[test]
fn configurations_that_cannot_take_hooks_are_told() {
    assert!(accepts_hooks(&Json::empty_object()));
    assert!(!accepts_hooks(&Json::Null));
    assert!(!accepts_hooks(&object(vec![("hooks", Json::text("x"))])));
    assert!(accepts_servers(&Json::empty_object()));
    assert!(!accepts_servers(&Json::Array(vec![])));
}

// ── remove_hook_entry ─────────────────────────────────────────────────────────

#[test]
fn remove_hook_entry_removes_our_entry() {
    let mut value = Json::empty_object();
    merge_hook_entry(&mut value, EXE, "Bash");
    let removed = remove_hook_entry(&mut value, EXE);
    assert!(removed);
    assert!(entries(&value).is_empty());
}

#[test]
fn remove_hook_entry_leaves_unrelated_entries() {
    let mut value = with_entries(vec![foreign_entry("Other", "other")]);
    merge_hook_entry(&mut value, EXE, "Bash");
    remove_hook_entry(&mut value, EXE);
    assert_eq!(entries(&value).len(), 1);
    assert_eq!(entries(&value)[0].get_str("matcher"), Some("Other"));
}

#[test]
fn remove_hook_entry_no_op_when_absent() {
    let mut value = object(vec![("unrelated", Json::Bool(true))]);
    let removed = remove_hook_entry(&mut value, EXE);
    assert!(!removed);
}

// ── files ─────────────────────────────────────────────────────────────────────

/// The files of a repository: texts, and configurations.
#[derive(Default)]
struct Files {
    texts: BTreeMap<String, String>,
    configs: BTreeMap<String, String>,
}

fn label(agent: Agent) -> String {
    format!("{agent:?}")
}

fn instructions(agent: Agent) -> String {
    agent.instructions(&label(agent))
}

fn hooks(agent: Agent) -> String {
    agent.hooks(&label(agent))
}

#[test]
fn files_are_named_after_the_agent() {
    let name = label(Agent::Claude);
    assert_eq!(instructions(Agent::Claude), format!("{}.md", name.to_uppercase()));
    assert_eq!(hooks(Agent::Claude), format!(".{}/settings.json", name.to_lowercase()));
    assert_eq!(instructions(Agent::Codex), "AGENTS.md");
    assert_eq!(hooks(Agent::Codex), ".codex/hooks.json");
}

impl Files {
    fn text(&self, path: &str) -> &str {
        self.texts.get(path).map_or("", |t| t.as_str())
    }

    fn config(&self, path: &str) -> Json {
        self.configs.get(path).map_or_else(Json::empty_object, |c| parse_json(c).expect("JSON"))
    }

    fn existing(&self, path: &str) -> Option<&str> {
        self.configs.get(path).map(|c| c.as_str())
    }

    fn apply(&mut self, path: &str, change: ConfigEdit) -> Edit {
        let ConfigEdit::Edited(edit, content) = change else { panic!("an edit") };
        if matches!(edit, Edit::Write(_)) {
            self.configs.insert(path.to_owned(), content);
        }
        edit
    }

    fn run_install(&mut self, targets: Targets, dry_run: bool) {
        for step in install_steps(targets, false) {
            match step {
                InstallStep::Block(agent) => {
                    let path = instructions(agent);
                    let (edit, updated) =
                        write_instruction_block(self.text(&path), &path, &label(agent), dry_run);
                    if matches!(edit, Edit::Write(_)) {
                        self.texts.insert(path, updated);
                    }
                }
                InstallStep::Hooks(agent) => {
                    let path = hooks(agent);
                    let change = write_hook_config(
                        self.existing(&path),
                        &path,
                        EXE,
                        agent.matcher(),
                        &label(agent),
                        dry_run,
                    );
                    self.apply(&path, change);
                }
                InstallStep::Shim | InstallStep::Mcp(_) => {}
            }
        }
    }

    fn run_uninstall(&mut self, targets: Targets, dry_run: bool) {
        for step in install_steps(targets, false) {
            match step {
                InstallStep::Block(agent) => {
                    let path = instructions(agent);
                    let existing = self.texts.get(&path).map(|t| t.as_str());
                    let (edit, updated) =
                        remove_instruction_block(existing, &path, &label(agent), dry_run);
                    if matches!(edit, Edit::Write(_)) {
                        self.texts.insert(path, updated);
                    }
                }
                InstallStep::Hooks(agent) => {
                    let path = hooks(agent);
                    let existing = self.existing(&path);
                    let change =
                        remove_hook_config(existing, &path, EXE, &label(agent), dry_run);
                    self.apply(&path, change);
                }
                InstallStep::Shim | InstallStep::Mcp(_) => {}
            }
        }
    }

    fn write_mcp_json(&mut self, dry_run: bool) -> Edit {
        let existing = self.existing(".mcp.json");
        let change = write_mcp_json(existing, "Agent", ".mcp.json", EXE, dry_run);
        self.apply(".mcp.json", change)
    }

    fn remove_mcp_json(&mut self, dry_run: bool) -> Edit {
        let existing = self.existing(".mcp.json");
        let change = remove_mcp_json(existing, "Agent", ".mcp.json", dry_run);
        self.apply(".mcp.json", change)
    }
}

/// A value as text, to compare by.
fn shown(value: &Json) -> String {
    format!("{value:?}")
}

#[test]
fn install_creates_claude_md_and_settings() {
    let mut files = Files::default();
    files.run_install(Targets::from_flags(true, false), false);

    let md = files.text(&instructions(Agent::Claude));
    assert!(md.contains(BLOCK_BEGIN));
    assert!(md.contains("tack snap"));
    assert_eq!(entries(&files.config(&hooks(Agent::Claude))).len(), 1);
    assert!(!files.texts.contains_key("AGENTS.md"));
}

#[test]
fn install_creates_agents_md_and_codex_hooks() {
    let mut files = Files::default();
    files.run_install(Targets::from_flags(false, true), false);

    assert!(files.texts.contains_key("AGENTS.md"));
    let config = files.config(".codex/hooks.json");
    assert_eq!(entries(&config)[0].get_str("matcher"), Some("^Bash$"));
}

#[test]
fn install_idempotent_no_duplicate_entries() {
    let mut files = Files::default();
    let targets = Targets::from_flags(true, true);

    files.run_install(targets, false);
    let md_first = files.text(&instructions(Agent::Claude)).to_owned();
    let settings_first = shown(&files.config(&hooks(Agent::Claude)));

    files.run_install(targets, false);
    let settings = files.config(&hooks(Agent::Claude));
    assert_eq!(md_first, files.text(&instructions(Agent::Claude)));
    assert_eq!(settings_first, shown(&settings), "settings must be identical on re-run");

    // Confirm no duplicate hook entries.
    assert_eq!(entries(&settings).len(), 1, "must have exactly one hook entry");
}

#[test]
fn install_preserves_pre_existing_json_keys() {
    let mut files = Files::default();
    files.configs.insert(
        hooks(Agent::Claude),
        r#"{"existingKey":"preserved","anotherKey":99}"#.to_owned(),
    );
    files.run_install(Targets::from_flags(true, false), false);

    let config = files.config(&hooks(Agent::Claude));
    assert_eq!(config.get_str("existingKey"), Some("preserved"), "pre-existing key must survive");
    assert!(matches!(config.get("anotherKey"), Some(Json::Number(n)) if n == "99"));
}

#[test]
fn instruction_block_insert_then_replace_gives_one_block() {
    let mut files = Files::default();
    let targets = Targets::from_flags(true, false);

    // First install.
    files.run_install(targets, false);
    // Second install — must replace, not append.
    files.run_install(targets, false);

    let md = files.text(&instructions(Agent::Claude));
    assert_eq!(md.matches(BLOCK_BEGIN).count(), 1, "exactly one begin marker");
    assert_eq!(md.matches(BLOCK_END).count(), 1, "exactly one end marker");
}

#[test]
fn dry_run_writes_nothing() {
    let mut files = Files::default();
    files.run_install(Targets::from_flags(true, true), true);
    assert!(files.texts.is_empty(), "dry-run must not create an instruction file");
    assert!(files.configs.is_empty(), "dry-run must not create a configuration");
}

#[test]
fn uninstall_removes_block_and_hook_but_keeps_unrelated_keys() {
    let mut files = Files::default();
    let targets = Targets::from_flags(true, true);
    let md_path = instructions(Agent::Claude);
    let settings_path = hooks(Agent::Claude);

    // Pre-existing content and key.
    files.configs.insert(settings_path.clone(), r#"{"retainMe":true}"#.to_owned());
    files.texts.insert(md_path.clone(), "# Existing\n\nHello\n".to_owned());

    files.run_install(targets, false);

    // Confirm installed.
    assert!(files.text(&md_path).contains(BLOCK_BEGIN));
    assert!(!entries(&files.config(&settings_path)).is_empty());

    // Uninstall.
    files.run_uninstall(targets, false);

    let md_after = files.text(&md_path);
    assert!(!md_after.contains(BLOCK_BEGIN), "block must be removed after uninstall");
    assert!(md_after.contains("# Existing"), "pre-existing content must survive");

    let after = files.config(&settings_path);
    assert!(matches!(after.get("retainMe"), Some(Json::Bool(true))), "unrelated key must survive");
    assert!(entries(&after).is_empty(), "hook entry must be removed");
}

#[test]
fn dry_run_uninstall_writes_nothing() {
    let mut files = Files::default();
    let targets = Targets::from_flags(true, true);

    // First do a real install.
    files.run_install(targets, false);
    let md_before = files.text(&instructions(Agent::Claude)).to_owned();
    let settings_before = shown(&files.config(&hooks(Agent::Claude)));

    // Dry-run uninstall must change nothing.
    files.run_uninstall(targets, true);
    assert_eq!(md_before, files.text(&instructions(Agent::Claude)));
    assert_eq!(settings_before, shown(&files.config(&hooks(Agent::Claude))));
}

// ── Targets helper ────────────────────────────────────────────────────────────

#[test]
fn targets_defaults_to_both_when_neither_flag_set() {
    let t = Targets::from_flags(false, false);
    assert!(t.claude && t.codex);
}

#[test]
fn targets_respects_explicit_flags() {
    let t = Targets::from_flags(true, false);
    assert!(t.claude && !t.codex);
    let t = Targets::from_flags(false, true);
    assert!(!t.claude && t.codex);
}

#[test]
fn steps_come_agent_by_agent() {
    assert_eq!(
        install_steps(Targets::from_flags(false, false), true),
        vec![
            InstallStep::Shim,
            InstallStep::Block(Agent::Claude),
            InstallStep::Hooks(Agent::Claude),
            InstallStep::Mcp(Agent::Claude),
            InstallStep::Block(Agent::Codex),
            InstallStep::Hooks(Agent::Codex),
            InstallStep::Mcp(Agent::Codex),
        ]
    );
}

// ── MCP install (write_mcp_json / remove_mcp_json) ────────────────────────────

fn server<'a>(config: &'a Json, name: &str) -> Option<&'a Json> {
    config.get("mcpServers").and_then(|s| s.get(name))
}

#[test]
fn with_mcp_writes_mcp_json_for_claude() {
    let mut files = Files::default();
    files.run_install(Targets::from_flags(true, false), false);
    let edit = files.write_mcp_json(false);
    assert_eq!(edit, Edit::Write("Agent (MCP): wrote tack MCP entry to .mcp.json".to_owned()));

    let config = files.config(".mcp.json");
    let tack = server(&config, "tack").expect("tack server");
    assert_eq!(tack.get_str("command"), Some(EXE), "tack command must match the exe path");
    let args = tack.get("args").and_then(|a| a.as_array()).expect("args");
    assert_eq!(args[0].as_str(), Some("mcp"));
}

#[test]
fn with_mcp_idempotent_two_runs_leave_one_entry() {
    let mut files = Files::default();
    files.write_mcp_json(false);
    let first = shown(&files.config(".mcp.json"));
    let edit = files.write_mcp_json(false);
    assert_eq!(edit, Edit::Keep("Agent (MCP): .mcp.json: no change needed".to_owned()));
    let second = files.config(".mcp.json");
    assert_eq!(first, shown(&second), "second write must be idempotent");

    // Exactly one tack entry, not a duplicate.
    let Some(Json::Object(servers)) = second.get("mcpServers") else { panic!("object") };
    assert_eq!(servers.iter().filter(|(k, _)| k == "tack").count(), 1, "exactly one tack entry");
}

fn other_server() -> Json {
    object(vec![("command", Json::text("other-cmd")), ("args", Json::Array(vec![]))])
}

#[test]
fn with_mcp_preserves_pre_existing_server_keys() {
    let mut files = Files::default();
    files.configs.insert(
        ".mcp.json".to_owned(),
        render_json(&object(vec![("mcpServers", object(vec![("other", other_server())]))])),
    );
    files.write_mcp_json(false);

    let config = files.config(".mcp.json");
    assert!(server(&config, "other").is_some(), "pre-existing server must be preserved");
    assert!(server(&config, "tack").is_some(), "tack server must be added");
}

#[test]
fn with_mcp_dry_run_writes_nothing() {
    let mut files = Files::default();
    let edit = files.write_mcp_json(true);
    let Edit::Preview(message) = edit else { panic!("preview") };
    let preview = message
        .strip_prefix("Agent (MCP): would write .mcp.json with:\n")
        .expect("the words before the preview");
    let config = parse_json(preview).expect("the preview is JSON");
    assert_eq!(server(&config, "tack").and_then(|t| t.get_str("command")), Some(EXE));
    assert!(preview.starts_with("{\n  \"mcpServers\": {\n"), "the preview is indented");
    assert!(files.configs.is_empty(), "dry-run must not create .mcp.json");
}

#[test]
fn with_mcp_uninstall_removes_tack_entry_keeps_others() {
    let mut files = Files::default();
    let tack = object(vec![
        ("command", Json::text("tack")),
        ("args", Json::Array(vec![Json::text("mcp")])),
    ]);
    files.configs.insert(
        ".mcp.json".to_owned(),
        render_json(&object(vec![(
            "mcpServers",
            object(vec![("other", other_server()), ("tack", tack)]),
        )])),
    );
    files.remove_mcp_json(false);

    let config = files.config(".mcp.json");
    assert!(server(&config, "other").is_some(), "other server must survive uninstall");
    assert!(server(&config, "tack").is_none(), "tack entry must be removed");
}

#[test]
fn with_mcp_uninstall_dry_run_writes_nothing() {
    let mut files = Files::default();
    files.write_mcp_json(false);
    let before = shown(&files.config(".mcp.json"));
    files.remove_mcp_json(true);
    assert_eq!(before, shown(&files.config(".mcp.json")));
}

#[test]
fn codex_mcp_add_hint_contains_correct_command() {
    let hint = codex_mcp_add_hint(EXE);
    assert!(
        hint.contains("codex mcp add tack"),
        "hint must contain 'codex mcp add tack', got: {hint}"
    );
    assert!(hint.contains("mcp"), "hint must reference the mcp subcommand, got: {hint}");
}

#[test]
fn codex_mcp_remove_hint_contains_correct_command() {
    let hint = codex_mcp_remove_hint();
    assert!(
        hint.contains("codex mcp remove tack"),
        "hint must contain 'codex mcp remove tack', got: {hint}"
    );
}

// ── reports ───────────────────────────────────────────────────────────────────

#[test]
fn reports_list_the_messages() {
    let messages = vec!["one".to_owned(), "two".to_owned()];
    let Report::Text(text) = install(OutputFormat::Human, &messages, false) else {
        panic!("text");
    };
    assert_eq!(text, format!("one\ntwo\n\n{CAVEAT}\n"));
    let Report::Text(text) = uninstall(OutputFormat::Human, &messages, false) else {
        panic!("text");
    };
    assert_eq!(text, "one\ntwo\n");
    let Report::Json(json) = install(OutputFormat::Json, &messages, true) else { panic!("json") };
    assert!(matches!(json.get("ok"), Some(Json::Bool(true))));
    assert!(matches!(json.get("dry_run"), Some(Json::Bool(true))));
    assert_eq!(json.get_str("note"), Some(CAVEAT));
    let changes = json.get("changes").and_then(|c| c.as_array()).expect("changes");
    assert_eq!(changes[1].as_str(), Some("two"));
    let Report::Json(json) = uninstall(OutputFormat::Json, &messages, true) else { panic!("json") };
    assert!(json.get("note").is_none());
}

#[test]
fn taking_the_server_out_undoes_putting_it_in() {
    let server = Json::Object(vec![("command".to_owned(), Json::text("other"))]);
    let servers = Json::Object(vec![("other".to_owned(), server)]);
    let mut config = Json::Object(vec![("mcpServers".to_owned(), servers)]);
    let before = format!("{config:?}");
    assert!(register_mcp(&mut config, EXE));
    assert!(!register_mcp(&mut config, EXE));
    assert_ne!(format!("{config:?}"), before);
    assert!(unregister_mcp(&mut config));
    assert!(!unregister_mcp(&mut config));
    assert_eq!(format!("{config:?}"), before);
}

#[test]
fn stray_markers_do_not_multiply_the_block() {
    let block = format!("{BLOCK_BEGIN}\nx\n{BLOCK_END}");
    let text = format!("{BLOCK_END}\n");
    let first = upsert_block(&text, &block);
    assert_eq!(first, format!("{BLOCK_END}\n\n{block}\n"));
    assert_eq!(upsert_block(&first, &block), first);
    assert_eq!(remove_block(&first), text);

    let text = format!("{BLOCK_BEGIN}\nabandoned\n");
    let first = upsert_block(&text, &block);
    assert_eq!(first, format!("{text}\n{block}\n"));
    assert_eq!(upsert_block(&first, &block), first);

    let text = format!("{BLOCK_BEGIN}\nabandoned\n{BLOCK_BEGIN}\nold\n{BLOCK_END}\nend\n");
    let first = upsert_block(&text, &block);
    assert_eq!(first, format!("{BLOCK_BEGIN}\nabandoned\n{block}\nend\n"));
    assert_eq!(upsert_block(&first, &block), first);
}

#[test]
fn a_server_with_other_arguments_is_written_again() {
    let text = r#"{"mcpServers":{"other":{"command":"o","args":[]},"tack":{"command":"E","args":[]}}}"#;
    let ConfigEdit::Edited(edit, content) =
        write_mcp_json(Some(text), "Agent", ".mcp.json", "E", false)
    else {
        panic!("an edit")
    };
    assert!(matches!(edit, Edit::Write(_)));
    let config = parse_json(&content).expect("JSON");
    let tack = server(&config, "tack").expect("tack");
    assert_eq!(render_json(tack), r#"{"args":["mcp"],"command":"E"}"#);
    assert_eq!(
        render_json(server(&config, "other").expect("other")),
        r#"{"args":[],"command":"o"}"#
    );
    let again = write_mcp_json(Some(&content), "Agent", ".mcp.json", "E", false);
    let ConfigEdit::Edited(edit, _) = again else { panic!("an edit") };
    assert_eq!(edit, Edit::Keep("Agent (MCP): .mcp.json: no change needed".to_owned()));
}

#[test]
fn files_that_hold_no_configuration_are_told() {
    let broken = write_hook_config(Some("{"), "p", EXE, "Bash", "Agent", false);
    assert!(matches!(&broken, ConfigEdit::Invalid(reason) if reason.starts_with("EOF")));
    assert_eq!(remove_hook_config(Some("{"), "p", EXE, "Agent", false), broken);
    assert_eq!(write_mcp_json(Some("{"), "Agent", "p", EXE, false), broken);
    assert_eq!(remove_mcp_json(Some("{"), "Agent", "p", false), broken);
    let list = write_hook_config(Some("[]"), "p", EXE, "Bash", "Agent", false);
    assert_eq!(list, ConfigEdit::Refused);
    assert_eq!(write_mcp_json(Some("[]"), "Agent", "p", EXE, false), ConfigEdit::Refused);
    assert_eq!(
        remove_hook_config(None, "p", EXE, "Agent", false),
        ConfigEdit::Edited(Edit::Keep("Agent: p not found, skipped".to_owned()), String::new())
    );
    assert_eq!(
        remove_mcp_json(None, "Agent", "p", false),
        ConfigEdit::Edited(
            Edit::Keep("Agent (MCP): p not found, skipped".to_owned()),
            String::new()
        )
    );
}

#[test]
fn a_dry_run_creates_no_repository() {
    assert_eq!(missing_repository(false, false), MissingRepository::Create);
    assert_eq!(missing_repository(false, true), MissingRepository::Show);
    assert_eq!(missing_repository(true, false), MissingRepository::Fail);
    assert_eq!(missing_repository(true, true), MissingRepository::Fail);
}
