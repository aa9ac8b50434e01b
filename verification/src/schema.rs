//! The self-description of the agent API: every method, its parameters, and the
//! shape of its response.
use vstd::prelude::*;
use vstd::string::*;

use crate::encoding;
verus! {

/// One parameter of an API method.
#[derive(Debug, Clone, PartialEq, Eq)]
pub struct ParamInfo {
    /// The JSON field name.
    pub name: String,
    /// The JSON type (`"string"`, `"bool"`, `"string?"` for optional,
    /// `"[string]"`).
    pub ty: String,
    /// Whether the field is required.
    pub required: bool,
    /// A one-line description of the parameter.
    pub description: String,
}

/// One parameter of an API method.
pub struct ParamInfoV {
    pub name: Seq<char>,
    pub ty: Seq<char>,
    pub required: bool,
    pub description: Seq<char>,
}

impl View for ParamInfo {
    type V = ParamInfoV;

    open spec fn view(&self) -> ParamInfoV {
        ParamInfoV {
            name: self.name@,
            ty: self.ty@,
            required: self.required,
            description: self.description@,
        }
    }
}

/// A self-description of one agent-API method.
#[derive(Debug, Clone, PartialEq, Eq)]
pub struct MethodInfo {
    /// The `method` tag value (e.g. `"diff"`).
    pub method: String,
    /// A one-line summary of what the method does.
    pub summary: String,
    /// The method's parameters (empty for no-arg methods).
    pub params: Vec<ParamInfo>,
    /// A one-line description of the success response shape.
    pub returns: String,
}

/// A self-description of one agent-API method.
pub struct MethodInfoV {
    pub method: Seq<char>,
    pub summary: Seq<char>,
    pub params: Seq<ParamInfoV>,
    pub returns: Seq<char>,
}

impl View for MethodInfo {
    type V = MethodInfoV;

    open spec fn view(&self) -> MethodInfoV {
        MethodInfoV {
            method: self.method@,
            summary: self.summary@,
            params: encoding::views(self.params@),
            returns: self.returns@,
        }
    }
}

/// A parameter, as it is described.
pub open spec fn param(
    name: Seq<char>,
    ty: Seq<char>,
    required: bool,
    description: Seq<char>,
) -> ParamInfoV {
    ParamInfoV { name, ty, required, description }
}

/// A method, as it is described.
pub open spec fn method(
    method: Seq<char>,
    summary: Seq<char>,
    params: Seq<ParamInfoV>,
    shape: Seq<char>,
) -> MethodInfoV {
    MethodInfoV { method, summary, params, returns: shape }
}

/// Appends the description of a parameter.
fn push_param(
    params: &mut Vec<ParamInfo>,
    name: &str,
    ty: &str,
    required: bool,
    description: &str,
)
    ensures
        encoding::views(final(params)@) == encoding::views(old(params)@).push(
            param(name@, ty@, required, description@),
        ),
{
    params.push(
        ParamInfo {
            name: name.to_owned(),
            ty: ty.to_owned(),
            required,
            description: description.to_owned(),
        },
    );
    assert(encoding::views(params@) =~= encoding::views(old(params)@).push(
        param(name@, ty@, required, description@),
    ));
}

/// The description of a method.
fn describe(method: &str, summary: &str, params: Vec<ParamInfo>, shape: &str) -> (r: MethodInfo)
    ensures
        r@ == self::method(method@, summary@, encoding::views(params@), shape@),
{
    MethodInfo {
        method: method.to_owned(),
        summary: summary.to_owned(),
        params,
        returns: shape.to_owned(),
    }
}

/// The method `status`.
pub open spec fn status_method() -> MethodInfoV {
    method(
        "status"@,
        "Working directory vs the working-copy snapshot."@,
        seq![],
        "{status:\"status\", data:{added,modified,deleted,clean}}"@,
    )
}

fn status_info() -> (r: MethodInfo)
    ensures
        r@ == status_method(),
{
    let params: Vec<ParamInfo> = Vec::new();
    assert(encoding::views(params@) =~= status_method().params);
    describe(
        "status",
        "Working directory vs the working-copy snapshot.",
        params,
        "{status:\"status\", data:{added,modified,deleted,clean}}",
    )
}

/// The method `snapshot`.
pub open spec fn snapshot_method() -> MethodInfoV {
    method(
        "snapshot"@,
        "Auto-snapshot the working copy."@,
        seq![],
        "{status:\"snapshot\", snapshot, snapshot_short}"@,
    )
}

fn snapshot_info() -> (r: MethodInfo)
    ensures
        r@ == snapshot_method(),
{
    let params: Vec<ParamInfo> = Vec::new();
    assert(encoding::views(params@) =~= snapshot_method().params);
    describe(
        "snapshot",
        "Auto-snapshot the working copy.",
        params,
        "{status:\"snapshot\", snapshot, snapshot_short}",
    )
}

/// The method `named_cut`.
pub open spec fn named_cut_method() -> MethodInfoV {
    method(
        "named_cut"@,
        "Close a named cut (the analog of a commit)."@,
        seq![
            param("message"@, "string"@, true, "the cut message"@),
            param("author_name"@, "string"@, true, "author display name"@),
            param("author_email"@, "string"@, true, "author e-mail (never echoed back)"@),
        ],
        "{status:\"named_cut\", cut, cut_short}"@,
    )
}

fn named_cut_info() -> (r: MethodInfo)
    ensures
        r@ == named_cut_method(),
{
    let mut params: Vec<ParamInfo> = Vec::new();
    push_param(&mut params, "message", "string", true, "the cut message");
    push_param(&mut params, "author_name", "string", true, "author display name");
    push_param(&mut params, "author_email", "string", true, "author e-mail (never echoed back)");
    assert(encoding::views(params@) =~= named_cut_method().params);
    describe(
        "named_cut",
        "Close a named cut (the analog of a commit).",
        params,
        "{status:\"named_cut\", cut, cut_short}",
    )
}

/// The method `log`.
pub open spec fn log_method() -> MethodInfoV {
    method(
        "log"@,
        "Named cuts in the working copy's ancestry, newest-first."@,
        seq![],
        "{status:\"log\", cuts:[CutSummary]}"@,
    )
}

fn log_info() -> (r: MethodInfo)
    ensures
        r@ == log_method(),
{
    let params: Vec<ParamInfo> = Vec::new();
    assert(encoding::views(params@) =~= log_method().params);
    describe(
        "log",
        "Named cuts in the working copy's ancestry, newest-first.",
        params,
        "{status:\"log\", cuts:[CutSummary]}",
    )
}

/// The method `op_log`.
pub open spec fn op_log_method() -> MethodInfoV {
    method(
        "op_log"@,
        "The operation log, newest-first."@,
        seq![],
        "{status:\"op_log\", ops:[OpSummary]}"@,
    )
}

fn op_log_info() -> (r: MethodInfo)
    ensures
        r@ == op_log_method(),
{
    let params: Vec<ParamInfo> = Vec::new();
    assert(encoding::views(params@) =~= op_log_method().params);
    describe(
        "op_log",
        "The operation log, newest-first.",
        params,
        "{status:\"op_log\", ops:[OpSummary]}",
    )
}

/// The method `diff`.
pub open spec fn diff_method() -> MethodInfoV {
    method(
        "diff"@,
        "Diff the live working copy (or two snapshots); file-level, or per-file stat/patch."@,
        seq![
            param("from"@, "string?"@, false, "from id/prefix (default: the to-snapshot's parent cut)"@),
            param("to"@, "string?"@, false, "to id/prefix (default: the LIVE working copy — current files on disk, including dirty edits, the same on-disk bytes `status` reads; pass a snapshot id to diff a recorded snapshot instead). Accepts a snapshot OR an op id."@),
            param("stat"@, "bool"@, false, "per-file line counts (DiffStat)"@),
            param("patch"@, "bool"@, false, "per-file content hunks (DiffPatch); wins over stat"@),
        ],
        "{status:\"diff\"|\"diff_stat\"|\"diff_patch\", to_kind:\"live_working_copy\"|\"snapshot\", ...}"@,
    )
}

fn diff_info() -> (r: MethodInfo)
    ensures
        r@ == diff_method(),
{
    let mut params: Vec<ParamInfo> = Vec::new();
    push_param(&mut params, "from", "string?", false, "from id/prefix (default: the to-snapshot's parent cut)");
    push_param(&mut params, "to", "string?", false, "to id/prefix (default: the LIVE working copy — current files on disk, including dirty edits, the same on-disk bytes `status` reads; pass a snapshot id to diff a recorded snapshot instead). Accepts a snapshot OR an op id.");
    push_param(&mut params, "stat", "bool", false, "per-file line counts (DiffStat)");
    push_param(&mut params, "patch", "bool", false, "per-file content hunks (DiffPatch); wins over stat");
    assert(encoding::views(params@) =~= diff_method().params);
    describe(
        "diff",
        "Diff the live working copy (or two snapshots); file-level, or per-file stat/patch.",
        params,
        "{status:\"diff\"|\"diff_stat\"|\"diff_patch\", to_kind:\"live_working_copy\"|\"snapshot\", ...}",
    )
}

/// The method `restore`.
pub open spec fn restore_method() -> MethodInfoV {
    method(
        "restore"@,
        "Non-destructively restore the working copy to an op/snapshot."@,
        seq![
            param("target"@, "string"@, true, "op or snapshot id/prefix to restore to"@),
        ],
        "{status:\"restored\", op, working_copy, restored_cut, previous_op, hint}"@,
    )
}

fn restore_info() -> (r: MethodInfo)
    ensures
        r@ == restore_method(),
{
    let mut params: Vec<ParamInfo> = Vec::new();
    push_param(&mut params, "target", "string", true, "op or snapshot id/prefix to restore to");
    assert(encoding::views(params@) =~= restore_method().params);
    describe(
        "restore",
        "Non-destructively restore the working copy to an op/snapshot.",
        params,
        "{status:\"restored\", op, working_copy, restored_cut, previous_op, hint}",
    )
}

/// The method `undo`.
pub open spec fn undo_method() -> MethodInfoV {
    method(
        "undo"@,
        "Reverse the most recent operation (non-destructive)."@,
        seq![],
        "{status:\"undone\", op, undone_op, working_copy}"@,
    )
}

fn undo_info() -> (r: MethodInfo)
    ensures
        r@ == undo_method(),
{
    let params: Vec<ParamInfo> = Vec::new();
    assert(encoding::views(params@) =~= undo_method().params);
    describe(
        "undo",
        "Reverse the most recent operation (non-destructive).",
        params,
        "{status:\"undone\", op, undone_op, working_copy}",
    )
}

/// The method `cat`.
pub open spec fn cat_method() -> MethodInfoV {
    method(
        "cat"@,
        "An object's type tag and byte length."@,
        seq![
            param("id"@, "string"@, true, "object id/prefix"@),
        ],
        "{status:\"cat\", object:{id,id_short,kind,size}}"@,
    )
}

fn cat_info() -> (r: MethodInfo)
    ensures
        r@ == cat_method(),
{
    let mut params: Vec<ParamInfo> = Vec::new();
    push_param(&mut params, "id", "string", true, "object id/prefix");
    assert(encoding::views(params@) =~= cat_method().params);
    describe(
        "cat",
        "An object's type tag and byte length.",
        params,
        "{status:\"cat\", object:{id,id_short,kind,size}}",
    )
}

/// The method `ls`.
pub open spec fn ls_method() -> MethodInfoV {
    method(
        "ls"@,
        "Immediate entries of a tree (default: the LIVE working copy on disk)."@,
        seq![
            param("tree"@, "string?"@, false, "tree id/prefix (default: the live working copy — current files on disk, including un-snapshotted adds/removes)"@),
        ],
        "{status:\"ls\", entries:[TreeEntryData]}"@,
    )
}

fn ls_info() -> (r: MethodInfo)
    ensures
        r@ == ls_method(),
{
    let mut params: Vec<ParamInfo> = Vec::new();
    push_param(&mut params, "tree", "string?", false, "tree id/prefix (default: the live working copy — current files on disk, including un-snapshotted adds/removes)");
    assert(encoding::views(params@) =~= ls_method().params);
    describe(
        "ls",
        "Immediate entries of a tree (default: the LIVE working copy on disk).",
        params,
        "{status:\"ls\", entries:[TreeEntryData]}",
    )
}

/// The method `help`.
pub open spec fn help_method() -> MethodInfoV {
    method(
        "help"@,
        "This self-description of every method."@,
        seq![],
        "{status:\"help\", methods:[MethodInfo]}"@,
    )
}

fn help_info() -> (r: MethodInfo)
    ensures
        r@ == help_method(),
{
    let params: Vec<ParamInfo> = Vec::new();
    assert(encoding::views(params@) =~= help_method().params);
    describe(
        "help",
        "This self-description of every method.",
        params,
        "{status:\"help\", methods:[MethodInfo]}",
    )
}

/// The method `current`.
pub open spec fn current_method() -> MethodInfoV {
    method(
        "current"@,
        "Where the working copy is: op, base cut, heads, from_restore."@,
        seq![],
        "{status:\"current\", data:CurrentData}"@,
    )
}

fn current_info() -> (r: MethodInfo)
    ensures
        r@ == current_method(),
{
    let params: Vec<ParamInfo> = Vec::new();
    assert(encoding::views(params@) =~= current_method().params);
    describe(
        "current",
        "Where the working copy is: op, base cut, heads, from_restore.",
        params,
        "{status:\"current\", data:CurrentData}",
    )
}

/// The method `cuts`.
pub open spec fn cuts_method() -> MethodInfoV {
    method(
        "cuts"@,
        "Every named cut across all lineages, newest-first."@,
        seq![],
        "{status:\"cuts\", cuts:[CutSummary]}"@,
    )
}

fn cuts_info() -> (r: MethodInfo)
    ensures
        r@ == cuts_method(),
{
    let params: Vec<ParamInfo> = Vec::new();
    assert(encoding::views(params@) =~= cuts_method().params);
    describe(
        "cuts",
        "Every named cut across all lineages, newest-first.",
        params,
        "{status:\"cuts\", cuts:[CutSummary]}",
    )
}

/// The method `claims`.
pub open spec fn claims_method() -> MethodInfoV {
    method(
        "claims"@,
        "The currently-held advisory claims."@,
        seq![],
        "{status:\"claims\", claims:[Claim]}"@,
    )
}

fn claims_info() -> (r: MethodInfo)
    ensures
        r@ == claims_method(),
{
    let params: Vec<ParamInfo> = Vec::new();
    assert(encoding::views(params@) =~= claims_method().params);
    describe(
        "claims",
        "The currently-held advisory claims.",
        params,
        "{status:\"claims\", claims:[Claim]}",
    )
}

/// The method `claim`.
pub open spec fn claim_method() -> MethodInfoV {
    method(
        "claim"@,
        "Record an advisory claim on a path (never enforced)."@,
        seq![
            param("path"@, "string"@, true, "repo-relative path to claim"@),
            param("holder"@, "string"@, true, "actor id/username (never an e-mail)"@),
            param("note"@, "string"@, false, "optional advisory note"@),
        ],
        "{status:\"claimed\", claim, conflicts, op}"@,
    )
}

fn claim_info() -> (r: MethodInfo)
    ensures
        r@ == claim_method(),
{
    let mut params: Vec<ParamInfo> = Vec::new();
    push_param(&mut params, "path", "string", true, "repo-relative path to claim");
    push_param(&mut params, "holder", "string", true, "actor id/username (never an e-mail)");
    push_param(&mut params, "note", "string", false, "optional advisory note");
    assert(encoding::views(params@) =~= claim_method().params);
    describe(
        "claim",
        "Record an advisory claim on a path (never enforced).",
        params,
        "{status:\"claimed\", claim, conflicts, op}",
    )
}

/// The method `release`.
pub open spec fn release_method() -> MethodInfoV {
    method(
        "release"@,
        "Release an advisory claim on a path."@,
        seq![
            param("path"@, "string"@, true, "repo-relative path to release"@),
            param("holder"@, "string"@, true, "actor releasing the claim"@),
        ],
        "{status:\"claims\", claims:[Claim]}"@,
    )
}

fn release_info() -> (r: MethodInfo)
    ensures
        r@ == release_method(),
{
    let mut params: Vec<ParamInfo> = Vec::new();
    push_param(&mut params, "path", "string", true, "repo-relative path to release");
    push_param(&mut params, "holder", "string", true, "actor releasing the claim");
    assert(encoding::views(params@) =~= release_method().params);
    describe(
        "release",
        "Release an advisory claim on a path.",
        params,
        "{status:\"claims\", claims:[Claim]}",
    )
}

/// The method `scoped_cut`.
pub open spec fn scoped_cut_method() -> MethodInfoV {
    method(
        "scoped_cut"@,
        "A named cut capturing only the given paths from disk."@,
        seq![
            param("paths"@, "[string]"@, true, "repo-relative path selectors to capture"@),
            param("message"@, "string"@, true, "the cut message"@),
            param("author_name"@, "string"@, true, "author display name"@),
            param("author_email"@, "string"@, true, "author e-mail (never echoed back)"@),
            param("base"@, "string?"@, false, "base cut/op to overlay onto (default: current base cut)"@),
        ],
        "{status:\"scoped_cut\", data:ScopedCutData}"@,
    )
}

fn scoped_cut_info() -> (r: MethodInfo)
    ensures
        r@ == scoped_cut_method(),
{
    let mut params: Vec<ParamInfo> = Vec::new();
    push_param(&mut params, "paths", "[string]", true, "repo-relative path selectors to capture");
    push_param(&mut params, "message", "string", true, "the cut message");
    push_param(&mut params, "author_name", "string", true, "author display name");
    push_param(&mut params, "author_email", "string", true, "author e-mail (never echoed back)");
    push_param(&mut params, "base", "string?", false, "base cut/op to overlay onto (default: current base cut)");
    assert(encoding::views(params@) =~= scoped_cut_method().params);
    describe(
        "scoped_cut",
        "A named cut capturing only the given paths from disk.",
        params,
        "{status:\"scoped_cut\", data:ScopedCutData}",
    )
}

/// The method `lanes`.
pub open spec fn lanes_method() -> MethodInfoV {
    method(
        "lanes"@,
        "Current op-derived team/release lanes."@,
        seq![],
        "{status:\"lanes\", lanes:[LaneData]}"@,
    )
}

fn lanes_info() -> (r: MethodInfo)
    ensures
        r@ == lanes_method(),
{
    let params: Vec<ParamInfo> = Vec::new();
    assert(encoding::views(params@) =~= lanes_method().params);
    describe(
        "lanes",
        "Current op-derived team/release lanes.",
        params,
        "{status:\"lanes\", lanes:[LaneData]}",
    )
}

/// The method `admit`.
pub open spec fn admit_method() -> MethodInfoV {
    method(
        "admit"@,
        "Admit a cut to a team/release lane."@,
        seq![
            param("cut"@, "string"@, true, "cut id/prefix to admit"@),
            param("lane"@, "string"@, true, "target lane name"@),
            param("reason"@, "string"@, false, "admission reason"@),
        ],
        "{status:\"admitted\", data:AdmissionData}"@,
    )
}

fn admit_info() -> (r: MethodInfo)
    ensures
        r@ == admit_method(),
{
    let mut params: Vec<ParamInfo> = Vec::new();
    push_param(&mut params, "cut", "string", true, "cut id/prefix to admit");
    push_param(&mut params, "lane", "string", true, "target lane name");
    push_param(&mut params, "reason", "string", false, "admission reason");
    assert(encoding::views(params@) =~= admit_method().params);
    describe(
        "admit",
        "Admit a cut to a team/release lane.",
        params,
        "{status:\"admitted\", data:AdmissionData}",
    )
}

/// The method `backport`.
pub open spec fn backport_method() -> MethodInfoV {
    method(
        "backport"@,
        "Create a target-lane backport proposal from a source cut."@,
        seq![
            param("source"@, "string"@, true, "source fix cut id/prefix"@),
            param("target_lane"@, "string"@, true, "target lane name"@),
            param("message"@, "string?"@, false, "target cut message"@),
            param("reason"@, "string"@, false, "backport reason"@),
            param("author_name"@, "string"@, true, "author display name"@),
            param("author_email"@, "string"@, true, "author e-mail (never echoed back)"@),
            param("admit"@, "bool"@, false, "also admit the resulting cut when one is created"@),
        ],
        "{status:\"backport\", data:BackportData}"@,
    )
}

fn backport_info() -> (r: MethodInfo)
    ensures
        r@ == backport_method(),
{
    let mut params: Vec<ParamInfo> = Vec::new();
    push_param(&mut params, "source", "string", true, "source fix cut id/prefix");
    push_param(&mut params, "target_lane", "string", true, "target lane name");
    push_param(&mut params, "message", "string?", false, "target cut message");
    push_param(&mut params, "reason", "string", false, "backport reason");
    push_param(&mut params, "author_name", "string", true, "author display name");
    push_param(&mut params, "author_email", "string", true, "author e-mail (never echoed back)");
    push_param(&mut params, "admit", "bool", false, "also admit the resulting cut when one is created");
    assert(encoding::views(params@) =~= backport_method().params);
    describe(
        "backport",
        "Create a target-lane backport proposal from a source cut.",
        params,
        "{status:\"backport\", data:BackportData}",
    )
}

/// The method `backport_continue`.
pub open spec fn backport_continue_method() -> MethodInfoV {
    method(
        "backport_continue"@,
        "Finish the current manual backport settlement."@,
        seq![
            param("author_name"@, "string"@, true, "author display name"@),
            param("author_email"@, "string"@, true, "author e-mail (never echoed back)"@),
            param("admit"@, "bool"@, false, "also admit the resulting cut"@),
        ],
        "{status:\"backport\", data:BackportData}"@,
    )
}

fn backport_continue_info() -> (r: MethodInfo)
    ensures
        r@ == backport_continue_method(),
{
    let mut params: Vec<ParamInfo> = Vec::new();
    push_param(&mut params, "author_name", "string", true, "author display name");
    push_param(&mut params, "author_email", "string", true, "author e-mail (never echoed back)");
    push_param(&mut params, "admit", "bool", false, "also admit the resulting cut");
    assert(encoding::views(params@) =~= backport_continue_method().params);
    describe(
        "backport_continue",
        "Finish the current manual backport settlement.",
        params,
        "{status:\"backport\", data:BackportData}",
    )
}

/// The methods of the agent API.
pub open spec fn schema() -> Seq<MethodInfoV> {
    seq![
        status_method(),
        snapshot_method(),
        named_cut_method(),
        log_method(),
        op_log_method(),
        diff_method(),
        restore_method(),
        undo_method(),
        cat_method(),
        ls_method(),
        help_method(),
        current_method(),
        cuts_method(),
        claims_method(),
        claim_method(),
        release_method(),
        scoped_cut_method(),
        lanes_method(),
        admit_method(),
        backport_method(),
        backport_continue_method(),
    ]
}

/// Returns the agent-API schema (the same data the `help` method returns).
///
/// It needs no repository: API discovery should never require one.
#[must_use]
pub fn schema_methods() -> (r: Vec<MethodInfo>)
    ensures
        encoding::views(r@) == schema(),
{
    let mut out: Vec<MethodInfo> = Vec::new();
    out.push(status_info());
    out.push(snapshot_info());
    out.push(named_cut_info());
    out.push(log_info());
    out.push(op_log_info());
    out.push(diff_info());
    out.push(restore_info());
    out.push(undo_info());
    out.push(cat_info());
    out.push(ls_info());
    out.push(help_info());
    out.push(current_info());
    out.push(cuts_info());
    out.push(claims_info());
    out.push(claim_info());
    out.push(release_info());
    out.push(scoped_cut_info());
    out.push(lanes_info());
    out.push(admit_info());
    out.push(backport_info());
    out.push(backport_continue_info());
    assert(encoding::views(out@) =~= schema());
    out
}

// ── what holds of the whole description ──────────────────────────────────────

/// Whether a text is made of lower-case letters, digits and underscores, as a
/// tool name must be.
pub open spec fn is_snake_case(text: Seq<char>) -> bool {
    &&& text.len() > 0
    &&& forall|i: int|
        0 <= i < text.len() ==> 'a' <= #[trigger] text[i] <= 'z' || '0' <= text[i] <= '9'
            || text[i] == '_'
}

/// Whether no text of a method's description holds an at sign.
pub open spec fn holds_no_at(info: MethodInfoV) -> bool {
    &&& !info.method.contains('@')
    &&& !info.summary.contains('@')
    &&& !info.returns.contains('@')
    &&& forall|k: int|
        0 <= k < info.params.len() ==> !(#[trigger] info.params[k]).name.contains('@')
            && !info.params[k].ty.contains('@') && !info.params[k].description.contains('@')
}

/// Whether a method and its parameters have names in snake case, and no two
/// parameters have one name.
pub open spec fn well_named(info: MethodInfoV) -> bool {
    &&& is_snake_case(info.method)
    &&& forall|k: int| 0 <= k < info.params.len() ==> is_snake_case((#[trigger] info.params[k]).name)
    &&& forall|j: int, k: int|
        0 <= j < k < info.params.len() ==> (#[trigger] info.params[j]).name != (
        #[trigger] info.params[k]).name
}

proof fn lemma_status_described()
    ensures
        holds_no_at(status_method()),
        well_named(status_method()),
{
    reveal_strlit("status");
    reveal_strlit("Working directory vs the working-copy snapshot.");
    reveal_strlit("{status:\"status\", data:{added,modified,deleted,clean}}");
}

proof fn lemma_snapshot_described()
    ensures
        holds_no_at(snapshot_method()),
        well_named(snapshot_method()),
{
    reveal_strlit("snapshot");
    reveal_strlit("Auto-snapshot the working copy.");
    reveal_strlit("{status:\"snapshot\", snapshot, snapshot_short}");
}

proof fn lemma_named_cut_described()
    ensures
        holds_no_at(named_cut_method()),
        well_named(named_cut_method()),
{
    reveal_strlit("named_cut");
    reveal_strlit("Close a named cut (the analog of a commit).");
    reveal_strlit("message");
    reveal_strlit("string");
    reveal_strlit("the cut message");
    reveal_strlit("author_name");
    reveal_strlit("author display name");
    reveal_strlit("author_email");
    reveal_strlit("author e-mail (never echoed back)");
    reveal_strlit("{status:\"named_cut\", cut, cut_short}");
    assert("message"@.len() == 7);
    assert("author_name"@.len() == 11);
    assert("author_email"@.len() == 12);
}

proof fn lemma_log_described()
    ensures
        holds_no_at(log_method()),
        well_named(log_method()),
{
    reveal_strlit("log");
    reveal_strlit("Named cuts in the working copy's ancestry, newest-first.");
    reveal_strlit("{status:\"log\", cuts:[CutSummary]}");
}

proof fn lemma_op_log_described()
    ensures
        holds_no_at(op_log_method()),
        well_named(op_log_method()),
{
    reveal_strlit("op_log");
    reveal_strlit("The operation log, newest-first.");
    reveal_strlit("{status:\"op_log\", ops:[OpSummary]}");
}

proof fn lemma_diff_described()
    ensures
        holds_no_at(diff_method()),
        well_named(diff_method()),
{
    reveal_strlit("diff");
    reveal_strlit("Diff the live working copy (or two snapshots); file-level, or per-file stat/patch.");
    reveal_strlit("from");
    reveal_strlit("string?");
    reveal_strlit("from id/prefix (default: the to-snapshot's parent cut)");
    reveal_strlit("to");
    reveal_strlit("to id/prefix (default: the LIVE working copy — current files on disk, including dirty edits, the same on-disk bytes `status` reads; pass a snapshot id to diff a recorded snapshot instead). Accepts a snapshot OR an op id.");
    reveal_strlit("stat");
    reveal_strlit("bool");
    reveal_strlit("per-file line counts (DiffStat)");
    reveal_strlit("patch");
    reveal_strlit("per-file content hunks (DiffPatch); wins over stat");
    reveal_strlit("{status:\"diff\"|\"diff_stat\"|\"diff_patch\", to_kind:\"live_working_copy\"|\"snapshot\", ...}");
    assert("from"@.len() == 4 && "from"@[0] == 'f');
    assert("to"@.len() == 2 && "to"@[0] == 't');
    assert("stat"@.len() == 4 && "stat"@[0] == 's');
    assert("patch"@.len() == 5 && "patch"@[0] == 'p');
}

proof fn lemma_restore_described()
    ensures
        holds_no_at(restore_method()),
        well_named(restore_method()),
{
    reveal_strlit("restore");
    reveal_strlit("Non-destructively restore the working copy to an op/snapshot.");
    reveal_strlit("target");
    reveal_strlit("string");
    reveal_strlit("op or snapshot id/prefix to restore to");
    reveal_strlit("{status:\"restored\", op, working_copy, restored_cut, previous_op, hint}");
}

proof fn lemma_undo_described()
    ensures
        holds_no_at(undo_method()),
        well_named(undo_method()),
{
    reveal_strlit("undo");
    reveal_strlit("Reverse the most recent operation (non-destructive).");
    reveal_strlit("{status:\"undone\", op, undone_op, working_copy}");
}

proof fn lemma_cat_described()
    ensures
        holds_no_at(cat_method()),
        well_named(cat_method()),
{
    reveal_strlit("cat");
    reveal_strlit("An object's type tag and byte length.");
    reveal_strlit("id");
    reveal_strlit("string");
    reveal_strlit("object id/prefix");
    reveal_strlit("{status:\"cat\", object:{id,id_short,kind,size}}");
}

proof fn lemma_ls_described()
    ensures
        holds_no_at(ls_method()),
        well_named(ls_method()),
{
    reveal_strlit("ls");
    reveal_strlit("Immediate entries of a tree (default: the LIVE working copy on disk).");
    reveal_strlit("tree");
    reveal_strlit("string?");
    reveal_strlit("tree id/prefix (default: the live working copy — current files on disk, including un-snapshotted adds/removes)");
    reveal_strlit("{status:\"ls\", entries:[TreeEntryData]}");
}

proof fn lemma_help_described()
    ensures
        holds_no_at(help_method()),
        well_named(help_method()),
{
    reveal_strlit("help");
    reveal_strlit("This self-description of every method.");
    reveal_strlit("{status:\"help\", methods:[MethodInfo]}");
}

proof fn lemma_current_described()
    ensures
        holds_no_at(current_method()),
        well_named(current_method()),
{
    reveal_strlit("current");
    reveal_strlit("Where the working copy is: op, base cut, heads, from_restore.");
    reveal_strlit("{status:\"current\", data:CurrentData}");
}

proof fn lemma_cuts_described()
    ensures
        holds_no_at(cuts_method()),
        well_named(cuts_method()),
{
    reveal_strlit("cuts");
    reveal_strlit("Every named cut across all lineages, newest-first.");
    reveal_strlit("{status:\"cuts\", cuts:[CutSummary]}");
}

proof fn lemma_claims_described()
    ensures
        holds_no_at(claims_method()),
        well_named(claims_method()),
{
    reveal_strlit("claims");
    reveal_strlit("The currently-held advisory claims.");
    reveal_strlit("{status:\"claims\", claims:[Claim]}");
}

proof fn lemma_claim_described()
    ensures
        holds_no_at(claim_method()),
        well_named(claim_method()),
{
    reveal_strlit("claim");
    reveal_strlit("Record an advisory claim on a path (never enforced).");
    reveal_strlit("path");
    reveal_strlit("string");
    reveal_strlit("repo-relative path to claim");
    reveal_strlit("holder");
    reveal_strlit("actor id/username (never an e-mail)");
    reveal_strlit("note");
    reveal_strlit("optional advisory note");
    reveal_strlit("{status:\"claimed\", claim, conflicts, op}");
    assert("path"@.len() == 4 && "path"@[0] == 'p');
    assert("holder"@.len() == 6 && "holder"@[0] == 'h');
    assert("note"@.len() == 4 && "note"@[0] == 'n');
}

proof fn lemma_release_described()
    ensures
        holds_no_at(release_method()),
        well_named(release_method()),
{
    reveal_strlit("release");
    reveal_strlit("Release an advisory claim on a path.");
    reveal_strlit("path");
    reveal_strlit("string");
    reveal_strlit("repo-relative path to release");
    reveal_strlit("holder");
    reveal_strlit("actor releasing the claim");
    reveal_strlit("{status:\"claims\", claims:[Claim]}");
    assert("path"@.len() == 4);
    assert("holder"@.len() == 6);
}

proof fn lemma_scoped_cut_described()
    ensures
        holds_no_at(scoped_cut_method()),
        well_named(scoped_cut_method()),
{
    reveal_strlit("scoped_cut");
    reveal_strlit("A named cut capturing only the given paths from disk.");
    reveal_strlit("paths");
    reveal_strlit("[string]");
    reveal_strlit("repo-relative path selectors to capture");
    reveal_strlit("message");
    reveal_strlit("string");
    reveal_strlit("the cut message");
    reveal_strlit("author_name");
    reveal_strlit("author display name");
    reveal_strlit("author_email");
    reveal_strlit("author e-mail (never echoed back)");
    reveal_strlit("base");
    reveal_strlit("string?");
    reveal_strlit("base cut/op to overlay onto (default: current base cut)");
    reveal_strlit("{status:\"scoped_cut\", data:ScopedCutData}");
    assert("paths"@.len() == 5);
    assert("message"@.len() == 7);
    assert("author_name"@.len() == 11);
    assert("author_email"@.len() == 12);
    assert("base"@.len() == 4);
}

proof fn lemma_lanes_described()
    ensures
        holds_no_at(lanes_method()),
        well_named(lanes_method()),
{
    reveal_strlit("lanes");
    reveal_strlit("Current op-derived team/release lanes.");
    reveal_strlit("{status:\"lanes\", lanes:[LaneData]}");
}

proof fn lemma_admit_described()
    ensures
        holds_no_at(admit_method()),
        well_named(admit_method()),
{
    reveal_strlit("admit");
    reveal_strlit("Admit a cut to a team/release lane.");
    reveal_strlit("cut");
    reveal_strlit("string");
    reveal_strlit("cut id/prefix to admit");
    reveal_strlit("lane");
    reveal_strlit("target lane name");
    reveal_strlit("reason");
    reveal_strlit("admission reason");
    reveal_strlit("{status:\"admitted\", data:AdmissionData}");
    assert("cut"@.len() == 3);
    assert("lane"@.len() == 4);
    assert("reason"@.len() == 6);
}

proof fn lemma_backport_described()
    ensures
        holds_no_at(backport_method()),
        well_named(backport_method()),
{
    reveal_strlit("backport");
    reveal_strlit("Create a target-lane backport proposal from a source cut.");
    reveal_strlit("source");
    reveal_strlit("string");
    reveal_strlit("source fix cut id/prefix");
    reveal_strlit("target_lane");
    reveal_strlit("target lane name");
    reveal_strlit("message");
    reveal_strlit("string?");
    reveal_strlit("target cut message");
    reveal_strlit("reason");
    reveal_strlit("backport reason");
    reveal_strlit("author_name");
    reveal_strlit("author display name");
    reveal_strlit("author_email");
    reveal_strlit("author e-mail (never echoed back)");
    reveal_strlit("admit");
    reveal_strlit("bool");
    reveal_strlit("also admit the resulting cut when one is created");
    reveal_strlit("{status:\"backport\", data:BackportData}");
    assert("source"@.len() == 6 && "source"@[0] == 's');
    assert("target_lane"@.len() == 11 && "target_lane"@[0] == 't');
    assert("message"@.len() == 7 && "message"@[0] == 'm');
    assert("reason"@.len() == 6 && "reason"@[0] == 'r');
    assert("author_name"@.len() == 11 && "author_name"@[0] == 'a');
    assert("author_email"@.len() == 12 && "author_email"@[0] == 'a');
    assert("admit"@.len() == 5 && "admit"@[0] == 'a');
}

proof fn lemma_backport_continue_described()
    ensures
        holds_no_at(backport_continue_method()),
        well_named(backport_continue_method()),
{
    reveal_strlit("backport_continue");
    reveal_strlit("Finish the current manual backport settlement.");
    reveal_strlit("author_name");
    reveal_strlit("string");
    reveal_strlit("author display name");
    reveal_strlit("author_email");
    reveal_strlit("author e-mail (never echoed back)");
    reveal_strlit("admit");
    reveal_strlit("bool");
    reveal_strlit("also admit the resulting cut");
    reveal_strlit("{status:\"backport\", data:BackportData}");
    assert("author_name"@.len() == 11);
    assert("author_email"@.len() == 12);
    assert("admit"@.len() == 5);
}

/// The place of the method with the given name in the description.
spec fn place(name: Seq<char>) -> int {
    if name == "status"@ {
        0
    } else if name == "snapshot"@ {
        1
    } else if name == "named_cut"@ {
        2
    } else if name == "log"@ {
        3
    } else if name == "op_log"@ {
        4
    } else if name == "diff"@ {
        5
    } else if name == "restore"@ {
        6
    } else if name == "undo"@ {
        7
    } else if name == "cat"@ {
        8
    } else if name == "ls"@ {
        9
    } else if name == "help"@ {
        10
    } else if name == "current"@ {
        11
    } else if name == "cuts"@ {
        12
    } else if name == "claims"@ {
        13
    } else if name == "claim"@ {
        14
    } else if name == "release"@ {
        15
    } else if name == "scoped_cut"@ {
        16
    } else if name == "lanes"@ {
        17
    } else if name == "admit"@ {
        18
    } else if name == "backport"@ {
        19
    } else if name == "backport_continue"@ {
        20
    } else {
        -1
    }
}

proof fn lemma_places()
    ensures
        forall|i: int| 0 <= i < schema().len() ==> place((#[trigger] schema()[i]).method) == i,
{
    reveal_strlit("status");
    reveal_strlit("snapshot");
    reveal_strlit("named_cut");
    reveal_strlit("log");
    reveal_strlit("op_log");
    reveal_strlit("diff");
    reveal_strlit("restore");
    reveal_strlit("undo");
    reveal_strlit("cat");
    reveal_strlit("ls");
    reveal_strlit("help");
    reveal_strlit("current");
    reveal_strlit("cuts");
    reveal_strlit("claims");
    reveal_strlit("claim");
    reveal_strlit("release");
    reveal_strlit("scoped_cut");
    reveal_strlit("lanes");
    reveal_strlit("admit");
    reveal_strlit("backport");
    reveal_strlit("backport_continue");
    assert("status"@.len() == 6 && "status"@[0] == 's' && "status"@[2] == 'a');
    assert("snapshot"@.len() == 8 && "snapshot"@[0] == 's' && "snapshot"@[2] == 'a');
    assert("named_cut"@.len() == 9 && "named_cut"@[0] == 'n' && "named_cut"@[2] == 'm');
    assert("log"@.len() == 3 && "log"@[0] == 'l' && "log"@[2] == 'g');
    assert("op_log"@.len() == 6 && "op_log"@[0] == 'o' && "op_log"@[2] == '_');
    assert("diff"@.len() == 4 && "diff"@[0] == 'd' && "diff"@[2] == 'f');
    assert("restore"@.len() == 7 && "restore"@[0] == 'r' && "restore"@[2] == 's');
    assert("undo"@.len() == 4 && "undo"@[0] == 'u' && "undo"@[2] == 'd');
    assert("cat"@.len() == 3 && "cat"@[0] == 'c' && "cat"@[2] == 't');
    assert("ls"@.len() == 2 && "ls"@[0] == 'l');
    assert("help"@.len() == 4 && "help"@[0] == 'h' && "help"@[2] == 'l');
    assert("current"@.len() == 7 && "current"@[0] == 'c' && "current"@[2] == 'r');
    assert("cuts"@.len() == 4 && "cuts"@[0] == 'c' && "cuts"@[2] == 't');
    assert("claims"@.len() == 6 && "claims"@[0] == 'c' && "claims"@[2] == 'a');
    assert("claim"@.len() == 5 && "claim"@[0] == 'c' && "claim"@[2] == 'a');
    assert("release"@.len() == 7 && "release"@[0] == 'r' && "release"@[2] == 'l');
    assert("scoped_cut"@.len() == 10 && "scoped_cut"@[0] == 's' && "scoped_cut"@[2] == 'o');
    assert("lanes"@.len() == 5 && "lanes"@[0] == 'l' && "lanes"@[2] == 'n');
    assert("admit"@.len() == 5 && "admit"@[0] == 'a' && "admit"@[2] == 'm');
    assert("backport"@.len() == 8 && "backport"@[0] == 'b' && "backport"@[2] == 'c');
    assert("backport_continue"@.len() == 17 && "backport_continue"@[0] == 'b' && "backport_continue"@[2] == 'c');
}

/// No two methods of the description have one name.
pub proof fn lemma_method_names_distinct(i: int, j: int)
    requires
        0 <= i < j < schema().len(),
    ensures
        schema()[i].method != schema()[j].method,
{
    lemma_places();
    assert(place(schema()[i].method) == i);
    assert(place(schema()[j].method) == j);
}

/// No text of the description holds an at sign, so it gives away no e-mail
/// address. All names are in snake case, and no two parameters of a method have
/// one name.
pub proof fn lemma_schema_well_formed(i: int)
    requires
        0 <= i < schema().len(),
    ensures
        holds_no_at(schema()[i]),
        well_named(schema()[i]),
{
    lemma_status_described();
    lemma_snapshot_described();
    lemma_named_cut_described();
    lemma_log_described();
    lemma_op_log_described();
    lemma_diff_described();
    lemma_restore_described();
    lemma_undo_described();
    lemma_cat_described();
    lemma_ls_described();
    lemma_help_described();
    lemma_current_described();
    lemma_cuts_described();
    lemma_claims_described();
    lemma_claim_described();
    lemma_release_described();
    lemma_scoped_cut_described();
    lemma_lanes_described();
    lemma_admit_described();
    lemma_backport_described();
    lemma_backport_continue_described();
}

} // verus!
