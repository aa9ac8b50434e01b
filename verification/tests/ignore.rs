use tack::ignore::{glob_match, IgnoreRules};

fn ignored(rules: &IgnoreRules, path: &str, is_dir: bool) -> bool {
    rules.is_ignored(path, is_dir)
}

// ── glob primitives ──────────────────────────────────────────────────────

#[test]
fn star_matches_within_segment_only() {
    assert!(glob_match("*.log", "error.log"));
    assert!(glob_match("a*c", "abc"));
    assert!(glob_match("a*c", "ac"));
    assert!(!glob_match("*.log", "dir/error.log"), "single * must not cross /");
}

#[test]
fn question_matches_one_non_slash() {
    assert!(glob_match("a?c", "abc"));
    assert!(!glob_match("a?c", "ac"));
    assert!(!glob_match("a?c", "a/c"));
}

#[test]
fn double_star_crosses_segments() {
    assert!(glob_match("**/foo", "foo"));
    assert!(glob_match("**/foo", "a/b/foo"));
    assert!(glob_match("a/**/z", "a/z"));
    assert!(glob_match("a/**/z", "a/b/c/z"));
    assert!(glob_match("src/**", "src/a/b.rs"));
}

#[test]
fn literal_match() {
    assert!(glob_match("README.md", "README.md"));
    assert!(!glob_match("README.md", "README.markdown"));
}

// ── .tack always ignored ─────────────────────────────────────────────────

#[test]
fn tack_dir_always_ignored_even_with_empty_rules() {
    let rules = IgnoreRules::empty();
    assert!(ignored(&rules, ".tack", true));
    assert!(ignored(&rules, ".tack/objects/aa/bb", false));
}

#[test]
fn tack_dir_cannot_be_unignored_by_negation() {
    // Even an explicit "!.tack" must not re-include the control dir.
    let rules = IgnoreRules::parse("!.tack\n");
    assert!(ignored(&rules, ".tack", true));
}

// ── basename matching (unanchored, slash-free) ───────────────────────────

#[test]
fn slash_free_pattern_matches_basename_at_any_depth() {
    let rules = IgnoreRules::parse("*.log\n");
    assert!(ignored(&rules, "error.log", false));
    assert!(ignored(&rules, "deep/nested/error.log", false));
    assert!(!ignored(&rules, "error.txt", false));
}

#[test]
fn literal_name_matches_anywhere() {
    let rules = IgnoreRules::parse("target\n");
    assert!(ignored(&rules, "target", true));
    assert!(ignored(&rules, "crate/target", true));
    assert!(!ignored(&rules, "targets", true));
}

// ── anchoring ────────────────────────────────────────────────────────────

#[test]
fn leading_slash_anchors_to_root() {
    let rules = IgnoreRules::parse("/build\n");
    assert!(ignored(&rules, "build", true));
    assert!(!ignored(&rules, "sub/build", true), "anchored rule must not match nested");
}

#[test]
fn interior_slash_anchors_pattern() {
    let rules = IgnoreRules::parse("src/generated\n");
    assert!(ignored(&rules, "src/generated", true));
    assert!(!ignored(&rules, "other/src/generated", true));
}

#[test]
fn double_star_prefix_matches_at_any_depth() {
    let rules = IgnoreRules::parse("**/node_modules\n");
    assert!(ignored(&rules, "node_modules", true));
    assert!(ignored(&rules, "a/b/node_modules", true));
}

// ── directory-only ───────────────────────────────────────────────────────

#[test]
fn trailing_slash_matches_directories_only() {
    let rules = IgnoreRules::parse("cache/\n");
    assert!(ignored(&rules, "cache", true), "dir matches dir-only rule");
    assert!(!ignored(&rules, "cache", false), "file must not match dir-only rule");
    assert!(ignored(&rules, "a/cache", true));
}

// ── negation / last-match-wins ───────────────────────────────────────────

#[test]
fn negation_reincludes() {
    let rules = IgnoreRules::parse("*.log\n!keep.log\n");
    assert!(ignored(&rules, "debug.log", false));
    assert!(!ignored(&rules, "keep.log", false), "negation must re-include");
}

#[test]
fn last_match_wins_order_matters() {
    // Re-ignore after a negation.
    let rules = IgnoreRules::parse("*.log\n!keep.log\nkeep.log\n");
    assert!(ignored(&rules, "keep.log", false));
}

// ── comments / blanks ────────────────────────────────────────────────────

#[test]
fn comments_and_blank_lines_skipped() {
    let rules = IgnoreRules::parse("# a comment\n\n   \n*.tmp\n");
    assert_eq!(rules.len(), 1);
    assert!(ignored(&rules, "x.tmp", false));
}

#[test]
fn escaped_hash_is_literal() {
    let rules = IgnoreRules::parse("\\#notacomment\n");
    assert!(ignored(&rules, "#notacomment", false));
}

// ── windows separators ───────────────────────────────────────────────────

#[test]
fn backslash_paths_are_normalized() {
    let rules = IgnoreRules::parse("src/generated\n");
    assert!(rules.is_ignored("src\\generated", true));
}

#[test]
fn a_question_mark_takes_one_character() {
    let rules = IgnoreRules::parse("?.txt\n");
    assert!(rules.is_ignored("\u{e9}.txt", false));
    assert!(rules.is_ignored("a.txt", false));
    assert!(!rules.is_ignored("ab.txt", false));
    assert!(!rules.is_ignored(".txt", false));
}

#[test]
fn blank_lines_and_comments_change_nothing() {
    let rules = IgnoreRules::parse("\n  \n# a comment\n*.log  \t\n   # more\n\\#x\nbuild/ \n");
    let tidy = IgnoreRules::parse("*.log\n\\#x\nbuild/");
    assert_eq!(rules.len(), 3);
    assert_eq!(tidy.len(), 3);
    for (path, is_dir) in
        [("a.log", false), ("#x", false), ("build", true), ("build", false), ("b", false)]
    {
        assert_eq!(rules.is_ignored(path, is_dir), tidy.is_ignored(path, is_dir));
    }
    assert!(rules.is_ignored("#x", false));
    assert!(rules.is_ignored("build", true));
    assert!(!rules.is_ignored("build", false));
}
