//! `tack hook pre-tool-use`: the decision of a `PreToolUse` hook.
//!
//! A coding agent asks before it runs a tool. A `git` command inside a
//! tack-only repository is denied, with a hint at the tack command to use
//! instead; everything else is allowed, by saying nothing.
use vstd::prelude::*;
use vstd::string::*;

use crate::text;
use crate::json;
use crate::json::{add_member, add_text, Json, JsonV};
use crate::text::{chars_of, is_white, same_text};

verus! {

// ── shell words ──────────────────────────────────────────────────────────────

/// The characters that separate shell commands even within a word.
pub open spec fn separator_char(c: char) -> bool {
    c == ';' || c == '|' || c == '(' || c == ')'
}

/// A scan of a command: the words that are complete, and the one that is not.
pub struct Scan {
    pub words: Seq<Seq<char>>,
    pub current: Seq<char>,
}

/// The scan with its last word complete.
pub open spec fn completed(scan: Scan) -> Seq<Seq<char>> {
    if scan.current.len() == 0 {
        scan.words
    } else {
        scan.words.push(scan.current)
    }
}

/// The scan of a command. Words end at white space and at separator characters;
/// each of the latter is a word of its own.
pub open spec fn scanned(command: Seq<char>) -> Scan
    decreases command.len(),
{
    if command.len() == 0 {
        Scan { words: seq![], current: seq![] }
    } else {
        let before = scanned(command.drop_last());
        let c = command.last();
        if text::white(c) {
            Scan { words: completed(before), current: seq![] }
        } else if separator_char(c) {
            Scan { words: completed(before).push(seq![c]), current: seq![] }
        } else {
            Scan { words: before.words, current: before.current.push(c) }
        }
    }
}

/// The words of a shell command.
pub open spec fn shell_words(command: Seq<char>) -> Seq<Seq<char>> {
    completed(scanned(command))
}

/// Whether a word separates shell commands.
pub open spec fn separator(word: Seq<char>) -> bool {
    word == "&&"@ || word == "||"@ || word == "|"@ || word == ";"@ || word == "("@ || word == ")"@
}

/// Whether the word at `i` is the command `git`: it stands first, or behind a
/// separator.
pub open spec fn git_at(words: Seq<Seq<char>>, i: int) -> bool {
    &&& 0 <= i < words.len()
    &&& words[i] == "git"@
    &&& i == 0 || separator(words[i - 1])
}

/// Whether a shell command runs `git`.
pub open spec fn runs_git(command: Seq<char>) -> bool {
    exists|i: int| git_at(shell_words(command), i)
}

/// The first word from `from` on that is no separator.
pub open spec fn next_word(words: Seq<Seq<char>>, from: int) -> Option<Seq<char>>
    decreases words.len() - from,
{
    if from < 0 || from >= words.len() {
        None
    } else if separator(words[from]) {
        next_word(words, from + 1)
    } else {
        Some(words[from])
    }
}

/// The subcommand of the first `git` from the word `from` on.
pub open spec fn subcommand_from(words: Seq<Seq<char>>, from: int) -> Option<Seq<char>>
    decreases words.len() - from,
{
    if from < 0 || from >= words.len() {
        None
    } else if git_at(words, from) {
        next_word(words, from + 1)
    } else {
        subcommand_from(words, from + 1)
    }
}

/// The subcommand of the `git` that a shell command runs.
pub open spec fn subcommand_of(command: Seq<char>) -> Option<Seq<char>> {
    subcommand_from(shell_words(command), 0)
}

/// Completes the current word.
fn complete(words: &mut Vec<String>, current: &mut String)
    ensures
        text::texts(final(words)@) == completed(
            Scan { words: text::texts(old(words)@), current: old(current)@ },
        ),
        final(current)@ == Seq::<char>::empty(),
{
    let ghost was = words@;
    let mut word = String::new();
    std::mem::swap(&mut word, current);
    if !word.as_str().is_empty() {
        words.push(word);
        assert(text::texts(words@) =~= text::texts(was).push(word@));
    }
}

/// The words of a shell command: it is split at white space, and at separator
/// characters, each of which is a word of its own.
pub fn shell_tokens(command: &str) -> (r: Vec<String>)
    ensures
        text::texts(r@) == shell_words(command@),
{
    let chars = chars_of(command);
    let mut words: Vec<String> = Vec::new();
    let mut current = String::new();
    let mut i: usize = 0;
    proof {
        assert(text::texts(words@) =~= seq![]);
        assert(chars@.take(0) =~= seq![]);
        assert(current@ =~= seq![]);
    }
    while i < chars.len()
        invariant
            i <= chars@.len(),
            chars@ == command@,
            scanned(chars@.take(i as int)) == (Scan { words: text::texts(words@), current: current@ }),
        decreases chars.len() - i,
    {
        let c = chars[i];
        proof {
            assert(chars@.take(i + 1).drop_last() =~= chars@.take(i as int));
            assert(chars@.take(i + 1).last() == c);
        }
        if is_white(c) {
            complete(&mut words, &mut current);
        } else if c == ';' || c == '|' || c == '(' || c == ')' {
            complete(&mut words, &mut current);
            let ghost was = words@;
            let mut word = String::new();
            word.push(c);
            words.push(word);
            proof {
                assert(word@ =~= seq![c]);
                assert(text::texts(words@) =~= text::texts(was).push(seq![c]));
            }
        } else {
            current.push(c);
        }
        i += 1;
    }
    assert(chars@.take(i as int) =~= command@);
    complete(&mut words, &mut current);
    words
}

/// Whether a word is a shell separator.
fn is_separator(word: &str) -> (r: bool)
    ensures
        r == separator(word@),
{
    same_text(word, "&&") || same_text(word, "||") || same_text(word, "|") || same_text(word, ";")
        || same_text(word, "(") || same_text(word, ")")
}

/// Whether the word at `i` is the command `git`.
fn is_git_at(words: &[String], i: usize) -> (r: bool)
    requires
        i < words@.len(),
    ensures
        r == git_at(text::texts(words@), i as int),
{
    assert(text::texts(words@)[i as int] == words@[i as int]@);
    assert(i > 0 ==> text::texts(words@)[i - 1] == words@[i - 1]@);
    same_text(words[i].as_str(), "git") && (i == 0 || is_separator(words[i - 1].as_str()))
}

/// Returns `true` if the shell command contains a bare `git` invocation.
///
/// A word is the git command only when it equals exactly `git` and sits in
/// command position: first, or right behind a shell separator. Full paths like
/// `/usr/bin/git` are not matched.
pub fn command_contains_git(command: &str) -> (r: bool)
    ensures
        r == runs_git(command@),
{
    let words = shell_tokens(command);
    let ghost all = text::texts(words@);
    let mut i: usize = 0;
    while i < words.len()
        invariant
            i <= words@.len(),
            all == text::texts(words@),
            all == shell_words(command@),
            forall|k: int| 0 <= k < i ==> !git_at(all, k),
        decreases words.len() - i,
    {
        if is_git_at(words.as_slice(), i) {
            return true;
        }
        i += 1;
    }
    false
}

/// Extracts the git subcommand (the word behind `git`, separators skipped) from
/// a shell command. `None` if `git` is not in command position or nothing
/// follows.
pub fn git_subcommand(command: &str) -> (r: Option<String>)
    ensures
        match r {
            Some(word) => subcommand_of(command@) == Some(word@),
            None => subcommand_of(command@) is None,
        },
{
    let words = shell_tokens(command);
    let ghost all = text::texts(words@);
    let mut i: usize = 0;
    while i < words.len() && !is_git_at(words.as_slice(), i)
        invariant
            i <= words@.len(),
            all == text::texts(words@),
            subcommand_from(all, i as int) == subcommand_from(all, 0),
        decreases words.len() - i,
    {
        i += 1;
    }
    if i == words.len() {
        return None;
    }
    let mut j: usize = i + 1;
    while j < words.len() && is_separator(words[j].as_str())
        invariant
            j <= words@.len(),
            all == text::texts(words@),
            next_word(all, j as int) == subcommand_from(all, 0),
        decreases words.len() - j,
    {
        assert(all[j as int] == words@[j as int]@);
        j += 1;
    }
    if j == words.len() {
        return None;
    }
    assert(all[j as int] == words@[j as int]@);
    Some(words[j].clone())
}

// ── deny message ─────────────────────────────────────────────────────────────

/// Whether the subcommand is one of two.
pub open spec fn either(word: Seq<char>, a: Seq<char>, b: Seq<char>) -> bool {
    word == a || word == b
}

/// What to use in place of a git subcommand.
pub open spec fn deny_text(subcommand: Option<Seq<char>>) -> Seq<char> {
    match subcommand {
        None =>
            "This repo uses tack, not git. Run `tack schema` to see the command set."@,
        Some(word) => if word == "commit"@ {
            "This repo uses tack, not git. Use `tack snap -m \"msg\"` to make a named cut."@
        } else if word == "status"@ {
            "This repo uses tack. Use `tack status` (and `tack current` / `tack claims`)."@
        } else if word == "add"@ {
            "tack has no staging area — just edit files; a cut captures the live tree. No `git add` needed."@
        } else if word == "diff"@ {
            "Use `tack diff` (`--patch` / `--stat` for content)."@
        } else if word == "log"@ {
            "Use `tack log` (current lineage) or `tack cuts` (all lineages)."@
        } else if either(word, "checkout"@, "switch"@) || either(word, "reset"@, "revert"@) {
            "Use `tack restore --to <id>` or `tack undo` (both non-destructive)."@
        } else if word == "init"@ {
            "This is already a tack repo. Use `tack` commands, not git."@
        } else if word == "branch"@ {
            "tack derives lanes from admissions, not git branches. Use `tack lanes` and `tack admit <cut> --to <lane>`."@
        } else if either(word, "merge"@, "rebase"@) {
            "tack has no rebase or fast-forward flow. Use cuts, lane admission, and `tack backport` for release fixes."@
        } else if word == "cherry-pick"@ {
            "Use `tack backport <source-cut> --to <lane>` to port a fix into a release lane."@
        } else if either(word, "push"@, "pull"@) || either(word, "fetch"@, "clone"@) || word
            == "remote"@ {
            "tack is local-only in v0 — there is no remote yet."@
        } else {
            "This repo uses tack, not git. Run `tack schema` to see the command set."@
        },
    }
}

/// Maps a git subcommand to the tack-equivalent hint message.
pub fn deny_message(subcommand: Option<&str>) -> (r: &'static str)
    ensures
        r@ == deny_text(match subcommand {
            Some(s) => Some(s@),
            None => None,
        }),
{
    let word = match subcommand {
        Some(word) => word,
        None => {
            return "This repo uses tack, not git. Run `tack schema` to see the command set.";
        },
    };
    if same_text(word, "commit") {
        "This repo uses tack, not git. Use `tack snap -m \"msg\"` to make a named cut."
    } else if same_text(word, "status") {
        "This repo uses tack. Use `tack status` (and `tack current` / `tack claims`)."
    } else if same_text(word, "add") {
        "tack has no staging area — just edit files; a cut captures the live tree. No `git add` needed."
    } else if same_text(word, "diff") {
        "Use `tack diff` (`--patch` / `--stat` for content)."
    } else if same_text(word, "log") {
        "Use `tack log` (current lineage) or `tack cuts` (all lineages)."
    } else if same_text(word, "checkout") || same_text(word, "switch") || same_text(word, "reset")
        || same_text(word, "revert") {
        "Use `tack restore --to <id>` or `tack undo` (both non-destructive)."
    } else if same_text(word, "init") {
        "This is already a tack repo. Use `tack` commands, not git."
    } else if same_text(word, "branch") {
        "tack derives lanes from admissions, not git branches. Use `tack lanes` and `tack admit <cut> --to <lane>`."
    } else if same_text(word, "merge") || same_text(word, "rebase") {
        "tack has no rebase or fast-forward flow. Use cuts, lane admission, and `tack backport` for release fixes."
    } else if same_text(word, "cherry-pick") {
        "Use `tack backport <source-cut> --to <lane>` to port a fix into a release lane."
    } else if same_text(word, "push") || same_text(word, "pull") || same_text(word, "fetch")
        || same_text(word, "clone") || same_text(word, "remote") {
        "tack is local-only in v0 — there is no remote yet."
    } else {
        "This repo uses tack, not git. Run `tack schema` to see the command set."
    }
}

// ── the decision ─────────────────────────────────────────────────────────────

/// One directory on the way up from where a tool runs.
#[derive(Debug, Clone, Copy)]
pub struct Level {
    /// Whether it holds a `.tack` directory.
    pub has_tack: bool,
    /// Whether it holds a `.git`.
    pub has_git: bool,
}

/// The index of the first level with a `.tack`, from `from` on.
pub open spec fn root_from(levels: Seq<Level>, from: int) -> Option<int>
    decreases levels.len() - from,
{
    if from < 0 || from >= levels.len() {
        None
    } else if levels[from].has_tack {
        Some(from)
    } else {
        root_from(levels, from + 1)
    }
}

/// Finds the tack root among the levels, which are given from the innermost on:
/// its index, and whether it holds a `.git` too.
pub fn find_tack_root(levels: &[Level]) -> (r: Option<(usize, bool)>)
    ensures
        match r {
            Some((i, has_git)) => root_from(levels@, 0) == Some(i as int) && i < levels@.len()
                && has_git == levels@[i as int].has_git,
            None => root_from(levels@, 0) is None,
        },
{
    let mut i: usize = 0;
    while i < levels.len()
        invariant
            i <= levels@.len(),
            root_from(levels@, i as int) == root_from(levels@, 0),
        decreases levels.len() - i,
    {
        if levels[i].has_tack {
            return Some((i, levels[i].has_git));
        }
        i += 1;
    }
    None
}

/// The command of an event that runs the `Bash` tool.
pub open spec fn bash_command(event: JsonV) -> Option<Seq<char>> {
    if json::get_text(event, "tool_name"@) == Some("Bash"@) {
        match json::get(event, "tool_input"@) {
            Some(input) => json::get_text(input, "command"@),
            None => None,
        }
    } else {
        None
    }
}

/// The decision that denies a tool call for a reason.
pub open spec fn denial(reason: Seq<char>) -> JsonV {
    JsonV::Object(
        seq![
            (
                "hookSpecificOutput"@,
                JsonV::Object(
                    seq![
                        ("hookEventName"@, JsonV::Text("PreToolUse"@)),
                        ("permissionDecision"@, JsonV::Text("deny"@)),
                        ("permissionDecisionReason"@, JsonV::Text(reason)),
                    ],
                ),
            ),
        ],
    )
}

/// The decision on an event: a shell command that runs `git` is denied if the
/// innermost tack root has no `.git`; nothing is said of anything else.
pub open spec fn decision(event: JsonV, levels: Seq<Level>) -> Option<JsonV> {
    match bash_command(event) {
        None => None,
        Some(command) => if runs_git(command) {
            match root_from(levels, 0) {
                None => None,
                Some(i) => if levels[i].has_git {
                    None
                } else {
                    Some(denial(deny_text(subcommand_of(command))))
                },
            }
        } else {
            None
        },
    }
}

/// The decision that denies a tool call for a reason.
fn deny(reason: &str) -> (r: Json)
    ensures
        r@ == denial(reason@),
{
    let mut inner: Vec<(String, Json)> = Vec::new();
    add_text(&mut inner, "hookEventName", "PreToolUse");
    add_text(&mut inner, "permissionDecision", "deny");
    add_text(&mut inner, "permissionDecisionReason", reason);
    let mut outer: Vec<(String, Json)> = Vec::new();
    let ghost details = json::members_of(inner@);
    add_member(&mut outer, "hookSpecificOutput", Json::Object(inner));
    proof {
        assert(details =~= seq![
            ("hookEventName"@, JsonV::Text("PreToolUse"@)),
            ("permissionDecision"@, JsonV::Text("deny"@)),
            ("permissionDecisionReason"@, JsonV::Text(reason@)),
        ]);
        assert(json::members_of(outer@) =~= seq![("hookSpecificOutput"@, JsonV::Object(details))]);
    }
    Json::Object(outer)
}

/// The git command that an event is about, if it is one that runs `git` in a
/// shell.
pub fn git_command(event: &Json) -> (r: Option<&str>)
    ensures
        match r {
            Some(command) => bash_command(event@) == Some(command@) && runs_git(command@),
            None => match bash_command(event@) {
                Some(command) => !runs_git(command),
                None => true,
            },
        },
{
    match event.get_str("tool_name") {
        Some(name) => {
            if !same_text(name, "Bash") {
                return None;
            }
        },
        None => {
            return None;
        },
    }
    let command = match event.get("tool_input") {
        Some(input) => match input.get_str("command") {
            Some(command) => command,
            None => {
                return None;
            },
        },
        None => {
            return None;
        },
    };
    if command_contains_git(command) {
        Some(command)
    } else {
        None
    }
}

/// Decides a `PreToolUse` event. `None` allows the call; a value is the deny
/// decision to report.
///
/// `levels` are the directories from the working directory of the event upward.
pub fn pre_tool_use(event: &Json, levels: &[Level]) -> (r: Option<Json>)
    ensures
        match r {
            Some(json) => decision(event@, levels@) == Some(json@),
            None => decision(event@, levels@) is None,
        },
{
    let command = match git_command(event) {
        Some(command) => command,
        None => {
            return None;
        },
    };
    match find_tack_root(levels) {
        None => None,
        Some((_, has_git)) => {
            if has_git {
                // Both `.tack` and `.git`: git is not to be broken here.
                return None;
            }
            let subcommand = git_subcommand(command);
            let message = match &subcommand {
                Some(word) => deny_message(Some(word.as_str())),
                None => deny_message(None),
            };
            Some(deny(message))
        },
    }
}

/// Only `git` is ever denied, and only in a repository that is not git's too.
pub proof fn lemma_only_git_is_denied(event: JsonV, levels: Seq<Level>)
    requires
        decision(event, levels) is Some,
    ensures
        json::get_text(event, "tool_name"@) == Some("Bash"@),
        bash_command(event) is Some,
        runs_git(bash_command(event)->Some_0),
        root_from(levels, 0) is Some,
        !levels[root_from(levels, 0)->Some_0].has_git,
{
}

// ── what these come to ───────────────────────────────────────────────────────

/// A scan goes on behind a character that ends a word.
proof fn lemma_scan_behind(a: Seq<char>, c: char, b: Seq<char>)
    requires
        text::white(c) || separator_char(c),
    ensures
        ({
            let start = if text::white(c) {
                completed(scanned(a))
            } else {
                completed(scanned(a)).push(seq![c])
            };
            &&& scanned(a + seq![c] + b).words == start + scanned(b).words
            &&& scanned(a + seq![c] + b).current == scanned(b).current
        }),
    decreases b.len(),
{
    let all = a + seq![c] + b;
    if b.len() == 0 {
        assert(all.drop_last() =~= a);
        assert(all.last() == c);
        let start = if text::white(c) {
            completed(scanned(a))
        } else {
            completed(scanned(a)).push(seq![c])
        };
        assert(start + scanned(b).words =~= start);
    } else {
        lemma_scan_behind(a, c, b.drop_last());
        assert(all.drop_last() =~= a + seq![c] + b.drop_last());
        assert(all.last() == b.last());
        let start = if text::white(c) {
            completed(scanned(a))
        } else {
            completed(scanned(a)).push(seq![c])
        };
        let before = scanned(b.drop_last());
        assert(completed(scanned(all.drop_last())) =~= start + completed(before));
        assert(scanned(all).words =~= start + scanned(b).words);
    }
}

/// White space only ends a word: the words on both sides of it are the words.
pub proof fn law_words_at_white(a: Seq<char>, c: char, b: Seq<char>)
    requires
        text::white(c),
    ensures
        shell_words(a + seq![c] + b) == shell_words(a) + shell_words(b),
{
    lemma_scan_behind(a, c, b);
    assert(shell_words(a + seq![c] + b) =~= shell_words(a) + shell_words(b));
}

/// `;`, `|`, `(` and `)` end a word and are words themselves, with or without white
/// space around them.
pub proof fn law_words_at_separator(a: Seq<char>, c: char, b: Seq<char>)
    requires
        c == ';' || c == '|' || c == '(' || c == ')',
    ensures
        shell_words(a + seq![c] + b) == shell_words(a) + seq![seq![c]] + shell_words(b),
{
    lemma_scan_behind(a, c, b);
    assert(shell_words(a + seq![c] + b) =~= shell_words(a) + seq![seq![c]] + shell_words(b));
}

/// Whether a text is one word: no white space in it, and none of `;`, `|`, `(`, `)`.
pub open spec fn one_word(w: Seq<char>) -> bool {
    &&& w.len() > 0
    &&& forall|k: int|
        0 <= k < w.len() ==> {
            let c = #[trigger] w[k];
            !text::white(c) && c != ';' && c != '|' && c != '(' && c != ')'
        }
}

proof fn lemma_scan_word(w: Seq<char>)
    requires
        w.len() > 0 ==> one_word(w),
    ensures
        scanned(w).words == Seq::<Seq<char>>::empty(),
        scanned(w).current == w,
    decreases w.len(),
{
    if w.len() > 0 {
        let rest = w.drop_last();
        if rest.len() > 0 {
            assert forall|k: int| 0 <= k < rest.len() implies {
                let c = #[trigger] rest[k];
                !text::white(c) && c != ';' && c != '|' && c != '(' && c != ')'
            } by {
                assert(rest[k] == w[k]);
            }
        }
        lemma_scan_word(rest);
        assert(w[w.len() - 1] == w.last());
        assert(rest.push(w.last()) =~= w);
    }
}

/// A word is its only word; an empty text has none.
pub proof fn law_one_word(w: Seq<char>)
    ensures
        one_word(w) ==> shell_words(w) == seq![w],
        w.len() == 0 ==> shell_words(w) == Seq::<Seq<char>>::empty(),
{
    if one_word(w) || w.len() == 0 {
        lemma_scan_word(w);
        assert(Seq::<Seq<char>>::empty().push(w) =~= seq![w]);
    }
}

/// Whether `git` stands at `i`, first or right behind `&&`, `||`, `|`, `;`, `(` or
/// `)`.
pub open spec fn calls_git(words: Seq<Seq<char>>, i: int) -> bool {
    &&& 0 <= i < words.len()
    &&& words[i] == "git"@
    &&& i == 0 || words[i - 1] == "&&"@ || words[i - 1] == "||"@ || words[i - 1] == "|"@ || words[i
        - 1] == ";"@ || words[i - 1] == "("@ || words[i - 1] == ")"@
}

/// A command runs `git` exactly where one of its words calls it.
pub proof fn law_runs_git(command: Seq<char>)
    ensures
        runs_git(command) <==> exists|i: int| calls_git(shell_words(command), i),
{
    let words = shell_words(command);
    if runs_git(command) {
        let i = choose|i: int| git_at(words, i);
        assert(calls_git(words, i));
    }
    if exists|i: int| calls_git(words, i) {
        let i = choose|i: int| calls_git(words, i);
        assert(git_at(words, i));
    }
}

/// A command that begins with `git` and a subcommand runs `git`, with that
/// subcommand; so does one in which that follows `;` or another separator.
pub proof fn law_git_command(before: Seq<char>, mark: char, sub: Seq<char>, rest: Seq<char>)
    requires
        mark == ';' || mark == '|' || mark == '(' || mark == ')',
        one_word(sub),
        sub != "&&"@,
        !runs_git(before),
    ensures
        runs_git("git"@ + seq![' '] + sub + seq![' '] + rest),
        subcommand_of("git"@ + seq![' '] + sub + seq![' '] + rest) == Some(sub),
        runs_git(before + seq![mark] + ("git"@ + seq![' '] + sub + seq![' '] + rest)),
        subcommand_of(before + seq![mark] + ("git"@ + seq![' '] + sub + seq![' '] + rest)) == Some(
            sub,
        ),
{
    reveal_strlit("git");
    reveal_strlit("&&");
    reveal_strlit("||");
    reveal_strlit("|");
    reveal_strlit(";");
    reveal_strlit("(");
    reveal_strlit(")");
    let git = "git"@;
    assert(git.len() == 3 && git[0] == 'g' && git[1] == 'i' && git[2] == 't');
    assert(one_word(git));
    let call = git + seq![' '] + sub + seq![' '] + rest;
    law_one_word(git);
    law_one_word(sub);
    law_words_at_white(git + seq![' '] + sub, ' ', rest);
    law_words_at_white(git, ' ', sub);
    let words = shell_words(call);
    assert(words[0] == git && words[1] == sub);
    assert(sub[0] != '|' && sub[0] != ';' && sub[0] != '(' && sub[0] != ')');
    assert("||"@[0] == '|' && "|"@[0] == '|' && ";"@[0] == ';' && "("@[0] == '(' && ")"@[0] == ')');
    assert(!separator(sub));
    assert(git_at(words, 0));
    assert(next_word(words, 1) == Some(sub));
    assert(subcommand_from(words, 0) == Some(sub));
    let whole = before + seq![mark] + call;
    law_words_at_separator(before, mark, call);
    let all = shell_words(whole);
    let n = shell_words(before).len() as int;
    assert(all[n] == seq![mark]);
    assert(all[n + 1] == git && all[n + 2] == sub);
    assert(seq![mark] =~= "|"@ || seq![mark] =~= ";"@ || seq![mark] =~= "("@ || seq![mark]
        =~= ")"@);
    assert(separator(all[n]));
    assert(git_at(all, n + 1));
    assert(seq![mark] != git) by {
        assert(seq![mark].len() == 1);
    }
    assert(all.take(n) =~= shell_words(before));
    lemma_no_git_before(shell_words(before), all, 0, n + 1);
    assert(next_word(all, n + 2) == Some(sub));
}

/// Where the first words run no `git`, the search goes on behind them.
proof fn lemma_no_git_before(first: Seq<Seq<char>>, all: Seq<Seq<char>>, from: int, to: int)
    requires
        0 <= from <= to <= all.len(),
        to == first.len() + 1,
        all.take(first.len() as int) == first,
        all[first.len() as int] != "git"@,
        forall|i: int| !git_at(first, i),
    ensures
        subcommand_from(all, from) == subcommand_from(all, to),
    decreases to - from,
{
    if from < to {
        assert(!git_at(all, from)) by {
            if from < first.len() {
                assert(!git_at(first, from));
                assert(all.take(first.len() as int)[from] == all[from]);
                if from > 0 {
                    assert(all.take(first.len() as int)[from - 1] == all[from - 1]);
                }
            }
        }
        lemma_no_git_before(first, all, from + 1, to);
    }
}

/// `git` as an argument of another program is not run.
pub proof fn law_git_argument(program: Seq<char>, rest: Seq<char>)
    requires
        one_word(program),
        one_word(rest),
        program != "git"@,
        program != "&&"@,
        rest != "git"@,
    ensures
        !runs_git(program + seq![' '] + "git"@),
        !runs_git(program + seq![' '] + rest),
{
    reveal_strlit("git");
    reveal_strlit("||");
    reveal_strlit("|");
    reveal_strlit(";");
    reveal_strlit("(");
    reveal_strlit(")");
    let git = "git"@;
    assert(git.len() == 3 && git[0] == 'g' && git[1] == 'i' && git[2] == 't');
    assert(one_word(git));
    law_one_word(program);
    law_one_word(git);
    law_one_word(rest);
    law_words_at_white(program, ' ', git);
    law_words_at_white(program, ' ', rest);
    assert(program[0] != '|' && program[0] != ';' && program[0] != '(' && program[0] != ')');
    assert("||"@[0] == '|' && "|"@[0] == '|' && ";"@[0] == ';' && "("@[0] == '(' && ")"@[0] == ')');
    assert(!separator(program));
    assert(seq![program] + seq![git] =~= seq![program, git]);
    assert(seq![program] + seq![rest] =~= seq![program, rest]);
    assert forall|i: int| !git_at(seq![program, git], i) by {}
    assert forall|i: int| !git_at(seq![program, rest], i) by {}
}

proof fn lemma_root(levels: Seq<Level>, from: int)
    requires
        0 <= from,
    ensures
        match root_from(levels, from) {
            Some(i) => from <= i < levels.len() && levels[i].has_tack && forall|k: int|
                from <= k < i ==> !(#[trigger] levels[k]).has_tack,
            None => forall|k: int| from <= k < levels.len() ==> !(#[trigger] levels[k]).has_tack,
        },
    decreases levels.len() - from,
{
    if from < levels.len() && !levels[from].has_tack {
        lemma_root(levels, from + 1);
    }
}

/// A call of `Bash` whose command runs `git` is denied exactly where the innermost
/// directory with a `.tack` has no `.git`; every other call is allowed. A denial
/// says `deny` and gives the hint for the subcommand as its reason.
pub proof fn law_decision(event: JsonV, input: JsonV, command: Seq<char>, levels: Seq<Level>, i: int)
    requires
        json::get(event, "tool_input"@) == Some(input),
        json::get(input, "command"@) == Some(JsonV::Text(command)),
    ensures
        json::get(event, "tool_name"@) != Some(JsonV::Text("Bash"@)) ==> decision(event, levels)
            is None,
        !runs_git(command) ==> decision(event, levels) is None,
        (forall|k: int| 0 <= k < levels.len() ==> !(#[trigger] levels[k]).has_tack) ==> decision(
            event,
            levels,
        ) is None,
        json::get(event, "tool_name"@) == Some(JsonV::Text("Bash"@)) && runs_git(command) && 0 <= i
            < levels.len() && levels[i].has_tack && (forall|k: int|
            0 <= k < i ==> !(#[trigger] levels[k]).has_tack) ==> {
            &&& levels[i].has_git ==> decision(event, levels) is None
            &&& !levels[i].has_git ==> decision(event, levels) == Some(
                JsonV::Object(
                    seq![
                        (
                            "hookSpecificOutput"@,
                            JsonV::Object(
                                seq![
                                    ("hookEventName"@, JsonV::Text("PreToolUse"@)),
                                    ("permissionDecision"@, JsonV::Text("deny"@)),
                                    (
                                        "permissionDecisionReason"@,
                                        JsonV::Text(deny_text(subcommand_of(command))),
                                    ),
                                ],
                            ),
                        ),
                    ],
                ),
            )
        },
{
    lemma_root(levels, 0);
    if let Some(r) = root_from(levels, 0) {
        if 0 <= i < levels.len() && levels[i].has_tack && (forall|k: int|
            0 <= k < i ==> !(#[trigger] levels[k]).has_tack) {
            assert(r == i) by {
                if r < i {
                    assert(!levels[r].has_tack);
                } else if i < r {
                    assert(!levels[i].has_tack);
                }
            }
        }
    }
}

/// The hint names the tack command that takes the place of a git subcommand.
pub proof fn law_hints()
    ensures
        text::occurs_in(deny_text(Some("commit"@)), "`tack snap -m "@),
        text::occurs_in(deny_text(Some("status"@)), "`tack status`"@),
        text::occurs_in(deny_text(Some("add"@)), "No `git add` needed"@),
        text::occurs_in(deny_text(Some("diff"@)), "`tack diff`"@),
        text::occurs_in(deny_text(Some("log"@)), "`tack log`"@),
        text::occurs_in(deny_text(Some("checkout"@)), "`tack restore --to <id>`"@),
        deny_text(Some("switch"@)) == deny_text(Some("checkout"@)),
        deny_text(Some("reset"@)) == deny_text(Some("checkout"@)),
        deny_text(Some("revert"@)) == deny_text(Some("checkout"@)),
        text::occurs_in(deny_text(Some("branch"@)), "`tack lanes`"@),
        text::occurs_in(deny_text(Some("merge"@)), "`tack backport`"@),
        deny_text(Some("rebase"@)) == deny_text(Some("merge"@)),
        text::occurs_in(deny_text(Some("cherry-pick"@)), "`tack backport <source-cut>"@),
        text::occurs_in(deny_text(Some("push"@)), "there is no remote yet"@),
        deny_text(Some("pull"@)) == deny_text(Some("push"@)),
        deny_text(Some("fetch"@)) == deny_text(Some("push"@)),
        deny_text(Some("clone"@)) == deny_text(Some("push"@)),
        deny_text(Some("remote"@)) == deny_text(Some("push"@)),
        text::occurs_in(deny_text(None), "`tack schema`"@),
{
    reveal_strlit("commit");
    reveal_strlit("status");
    reveal_strlit("add");
    reveal_strlit("diff");
    reveal_strlit("log");
    reveal_strlit("checkout");
    reveal_strlit("switch");
    reveal_strlit("reset");
    reveal_strlit("revert");
    reveal_strlit("init");
    reveal_strlit("branch");
    reveal_strlit("merge");
    reveal_strlit("rebase");
    reveal_strlit("cherry-pick");
    reveal_strlit("push");
    reveal_strlit("pull");
    reveal_strlit("fetch");
    reveal_strlit("clone");
    reveal_strlit("remote");
    reveal_strlit("This repo uses tack, not git. Run `tack schema` to see the command set.");
    reveal_strlit("This repo uses tack, not git. Use `tack snap -m \"msg\"` to make a named cut.");
    reveal_strlit("This repo uses tack. Use `tack status` (and `tack current` / `tack claims`).");
    reveal_strlit("tack has no staging area — just edit files; a cut captures the live tree. No `git add` needed.");
    reveal_strlit("Use `tack diff` (`--patch` / `--stat` for content).");
    reveal_strlit("Use `tack log` (current lineage) or `tack cuts` (all lineages).");
    reveal_strlit("Use `tack restore --to <id>` or `tack undo` (both non-destructive).");
    reveal_strlit("This is already a tack repo. Use `tack` commands, not git.");
    reveal_strlit("tack derives lanes from admissions, not git branches. Use `tack lanes` and `tack admit <cut> --to <lane>`.");
    reveal_strlit("tack has no rebase or fast-forward flow. Use cuts, lane admission, and `tack backport` for release fixes.");
    reveal_strlit("Use `tack backport <source-cut> --to <lane>` to port a fix into a release lane.");
    reveal_strlit("tack is local-only in v0 — there is no remote yet.");
    reveal_strlit("`tack snap -m ");
    reveal_strlit("`tack status`");
    reveal_strlit("No `git add` needed");
    reveal_strlit("`tack diff`");
    reveal_strlit("`tack log`");
    reveal_strlit("`tack restore --to <id>`");
    reveal_strlit("`tack lanes`");
    reveal_strlit("`tack backport`");
    reveal_strlit("`tack backport <source-cut>");
    reveal_strlit("there is no remote yet");
    reveal_strlit("`tack schema`");
    assert("commit"@.len() == 6 && "commit"@[0] == 'c' && "commit"@[2] == 'm');
    assert("status"@.len() == 6 && "status"@[0] == 's' && "status"@[2] == 'a');
    assert("add"@.len() == 3 && "add"@[0] == 'a' && "add"@[2] == 'd');
    assert("diff"@.len() == 4 && "diff"@[0] == 'd' && "diff"@[2] == 'f');
    assert("log"@.len() == 3 && "log"@[0] == 'l' && "log"@[2] == 'g');
    assert("checkout"@.len() == 8 && "checkout"@[0] == 'c' && "checkout"@[2] == 'e');
    assert("switch"@.len() == 6 && "switch"@[0] == 's' && "switch"@[2] == 'i');
    assert("reset"@.len() == 5 && "reset"@[0] == 'r' && "reset"@[2] == 's');
    assert("revert"@.len() == 6 && "revert"@[0] == 'r' && "revert"@[2] == 'v');
    assert("init"@.len() == 4 && "init"@[0] == 'i' && "init"@[2] == 'i');
    assert("branch"@.len() == 6 && "branch"@[0] == 'b' && "branch"@[2] == 'a');
    assert("merge"@.len() == 5 && "merge"@[0] == 'm' && "merge"@[2] == 'r');
    assert("rebase"@.len() == 6 && "rebase"@[0] == 'r' && "rebase"@[2] == 'b');
    assert("cherry-pick"@.len() == 11 && "cherry-pick"@[0] == 'c' && "cherry-pick"@[2] == 'e');
    assert("push"@.len() == 4 && "push"@[0] == 'p' && "push"@[2] == 's');
    assert("pull"@.len() == 4 && "pull"@[0] == 'p' && "pull"@[2] == 'l');
    assert("fetch"@.len() == 5 && "fetch"@[0] == 'f' && "fetch"@[2] == 't');
    assert("clone"@.len() == 5 && "clone"@[0] == 'c' && "clone"@[2] == 'o');
    assert("remote"@.len() == 6 && "remote"@[0] == 'r' && "remote"@[2] == 'm');
    assert(text::occurs_at("This repo uses tack, not git. Use `tack snap -m \"msg\"` to make a named cut."@, "`tack snap -m "@, 34)) by {
        assert("This repo uses tack, not git. Use `tack snap -m \"msg\"` to make a named cut."@.subrange(34, 48) =~= "`tack snap -m "@);
    }
    assert(text::occurs_at("This repo uses tack. Use `tack status` (and `tack current` / `tack claims`)."@, "`tack status`"@, 25)) by {
        assert("This repo uses tack. Use `tack status` (and `tack current` / `tack claims`)."@.subrange(25, 38) =~= "`tack status`"@);
    }
    assert(text::occurs_at("tack has no staging area — just edit files; a cut captures the live tree. No `git add` needed."@, "No `git add` needed"@, 74)) by {
        assert("tack has no staging area — just edit files; a cut captures the live tree. No `git add` needed."@.subrange(74, 93) =~= "No `git add` needed"@);
    }
    assert(text::occurs_at("Use `tack diff` (`--patch` / `--stat` for content)."@, "`tack diff`"@, 4)) by {
        assert("Use `tack diff` (`--patch` / `--stat` for content)."@.subrange(4, 15) =~= "`tack diff`"@);
    }
    assert(text::occurs_at("Use `tack log` (current lineage) or `tack cuts` (all lineages)."@, "`tack log`"@, 4)) by {
        assert("Use `tack log` (current lineage) or `tack cuts` (all lineages)."@.subrange(4, 14) =~= "`tack log`"@);
    }
    assert(text::occurs_at("Use `tack restore --to <id>` or `tack undo` (both non-destructive)."@, "`tack restore --to <id>`"@, 4)) by {
        assert("Use `tack restore --to <id>` or `tack undo` (both non-destructive)."@.subrange(4, 28) =~= "`tack restore --to <id>`"@);
    }
    assert(text::occurs_at("tack derives lanes from admissions, not git branches. Use `tack lanes` and `tack admit <cut> --to <lane>`."@, "`tack lanes`"@, 58)) by {
        assert("tack derives lanes from admissions, not git branches. Use `tack lanes` and `tack admit <cut> --to <lane>`."@.subrange(58, 70) =~= "`tack lanes`"@);
    }
    assert(text::occurs_at("tack has no rebase or fast-forward flow. Use cuts, lane admission, and `tack backport` for release fixes."@, "`tack backport`"@, 71)) by {
        assert("tack has no rebase or fast-forward flow. Use cuts, lane admission, and `tack backport` for release fixes."@.subrange(71, 86) =~= "`tack backport`"@);
    }
    assert(text::occurs_at("Use `tack backport <source-cut> --to <lane>` to port a fix into a release lane."@, "`tack backport <source-cut>"@, 4)) by {
        assert("Use `tack backport <source-cut> --to <lane>` to port a fix into a release lane."@.subrange(4, 31) =~= "`tack backport <source-cut>"@);
    }
    assert(text::occurs_at("tack is local-only in v0 — there is no remote yet."@, "there is no remote yet"@, 27)) by {
        assert("tack is local-only in v0 — there is no remote yet."@.subrange(27, 49) =~= "there is no remote yet"@);
    }
    assert(text::occurs_at("This repo uses tack, not git. Run `tack schema` to see the command set."@, "`tack schema`"@, 34)) by {
        assert("This repo uses tack, not git. Run `tack schema` to see the command set."@.subrange(34, 47) =~= "`tack schema`"@);
    }
}

} // verus!
