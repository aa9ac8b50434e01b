//! The commands: the request that each one makes of its arguments, and the text
//! that it shows a person for the response.
//!
//! Every command answers agents with the response itself; only people get the
//! text that is built here.
use vstd::prelude::*;
use vstd::string::*;
use vstd::utf8::*;

use crate::text;
use crate::schema;
use crate::output;
use crate::encoding;
use crate::api::{
    AdmissionData, BackportData, CurrentData, CutSummary, DiffData, LaneData, OpSummary, Request,
    Response, ScopedCutData, StatusData, TreeEntryData,
};
use crate::author::{author_name_from_env, Author, AuthorEnv};
use crate::claims::Claim;
use crate::linediff::{DiffLine, FilePatch, FileStat, Hunk};
use crate::output::{push_line, push_prefixed, OutputFormat};
use crate::schema::{schema_methods, MethodInfo, ParamInfo};
use crate::text::{append_decimal, append_text, decimal, decimal_signed, pad, same_text};

verus! {

// ── results ──────────────────────────────────────────────────────────────────

/// What a command shows for a response.
#[derive(Debug)]
pub enum Rendered {
    /// The response, as JSON.
    Json,
    /// A text.
    Text(String),
    /// The command fails with a message.
    Failed(String),
    /// The command fails: the response is none of those it can have.
    Unexpected,
}

/// Whether a command shows the text for the response where the format is for
/// people. Without a text, the command fails: with the message of an error
/// response, or because the response is unexpected.
pub open spec fn shows(
    r: Rendered,
    format: OutputFormat,
    response: Response,
    text: Option<Seq<char>>,
) -> bool {
    if format is Json {
        r is Json
    } else {
        match text {
            Some(t) => r matches Rendered::Text(s) && s@ == t,
            None => match response {
                Response::Error { message } => r matches Rendered::Failed(m) && m@ == message@,
                _ => r is Unexpected,
            },
        }
    }
}

/// Surfaces an error response, or any other one that is not expected.
fn render_error(response: &Response) -> (r: Rendered)
    ensures
        shows(r, OutputFormat::Human, *response, None),
{
    match response {
        Response::Error { message } => Rendered::Failed(message.clone()),
        _ => Rendered::Unexpected,
    }
}

/// The first 12 bytes of an id, or all of it where it has fewer, or where they
/// end inside a character.
pub open spec fn short_id(id: Seq<char>) -> Seq<char> {
    if is_char_boundary(encode_utf8(id), 12) {
        decode_utf8(encode_utf8(id).subrange(0, 12))
    } else {
        id
    }
}

/// The beginning of an id, for people.
pub fn short(id: &str) -> (r: &str)
    ensures
        r@ == short_id(id@),
{
    if id.is_char_boundary(12) {
        let (head, _) = id.split_at(12);
        proof {
            encode_utf8_decode_utf8(head@);
            assert(encode_utf8(head@) =~= encode_utf8(id@).subrange(0, 12));
        }
        head
    } else {
        id
    }
}

/// The blocks of the items, one after the other.
pub open spec fn blocks<T>(items: Seq<T>, block: spec_fn(T) -> Seq<char>) -> Seq<char>
    decreases items.len(),
{
    if items.len() == 0 {
        seq![]
    } else {
        blocks(items.drop_last(), block) + block(items.last())
    }
}

proof fn lemma_next_block<T>(items: Seq<T>, block: spec_fn(T) -> Seq<char>, i: int)
    requires
        0 <= i < items.len(),
    ensures
        blocks(items.take(i + 1), block) == blocks(items.take(i), block) + block(items[i]),
{
    assert(items.take(i + 1).drop_last() =~= items.take(i));
}

// ── init ─────────────────────────────────────────────────────────────────────

/// `tack init` created a repository in `dir`.
///
/// `init` is no method of the API: there is no repository to serve yet.
pub fn init(dir: &str, format: OutputFormat) -> (r: Rendered)
    ensures
        shows(
            r,
            format,
            Response::Acknowledged,
            Some(output::line("initialized empty tack repository in "@ + dir@)),
        ),
{
    match format {
        OutputFormat::Json => Rendered::Json,
        OutputFormat::Human => {
            let mut out = "initialized empty tack repository in ".to_owned();
            append_text(&mut out, dir);
            out.push('\n');
            Rendered::Text(out)
        },
    }
}

// ── status ───────────────────────────────────────────────────────────────────

/// What is shown for a status.
pub open spec fn status_text(data: StatusData) -> Seq<char> {
    if data.clean {
        output::line("working copy is clean"@)
    } else {
        output::prefixed_lines("A  "@, text::texts(data.added@)) + output::prefixed_lines("M  "@, text::texts(data.modified@))
            + output::prefixed_lines("D  "@, text::texts(data.deleted@))
    }
}

/// What is shown for the response to a status, if it is one.
pub open spec fn status_shown(response: Response) -> Option<Seq<char>> {
    match response {
        Response::Status { data } => Some(status_text(data)),
        _ => None,
    }
}

/// `tack status`: the working directory against the working-copy snapshot.
pub fn status(response: &Response, format: OutputFormat) -> (r: Rendered)
    ensures
        shows(r, format, *response, status_shown(*response)),
{
    if matches!(format, OutputFormat::Json) {
        return Rendered::Json;
    }
    match response {
        Response::Status { data } => {
            let mut out = String::new();
            if data.clean {
                push_line(&mut out, "working copy is clean");
            } else {
                push_prefixed(&mut out, "A  ", data.added.as_slice());
                push_prefixed(&mut out, "M  ", data.modified.as_slice());
                push_prefixed(&mut out, "D  ", data.deleted.as_slice());
            }
            assert(out@ =~= status_text(*data));
            Rendered::Text(out)
        },
        _ => render_error(response),
    }
}

// ── snap ─────────────────────────────────────────────────────────────────────

/// The message of a scoped cut without a name.
pub const SCOPED_NEEDS_MESSAGE: &'static str =
    "`tack snap --only <path>` requires a message (-m/--message)";

/// Whether `r` is the request of `tack snap`. A scoped cut must be named: a
/// scoped checkpoint without a message has nothing to identify it. Without a
/// message the working copy is snapshotted.
pub open spec fn snaps(
    r: Result<Request, String>,
    message: Option<String>,
    only: Vec<String>,
    base: Option<String>,
    env: AuthorEnv,
) -> bool {
    if only@.len() > 0 {
        match message {
            Some(text) => r matches Ok(
                Request::ScopedCut { paths, message, author_name, author_email, base: on },
            ) && {
                &&& paths == only
                &&& message == text
                &&& author_name@ == env.name()
                &&& author_email@ == env.email(env.name())
                &&& on == base
            },
            None => r matches Err(e) && e@ == SCOPED_NEEDS_MESSAGE@,
        }
    } else {
        match message {
            Some(text) => r matches Ok(
                Request::NamedCut { message, author_name, author_email },
            ) && {
                &&& message == text
                &&& author_name@ == env.name()
                &&& author_email@ == env.email(env.name())
            },
            None => r == Ok::<Request, String>(Request::Snapshot),
        }
    }
}

/// The request of `tack snap`.
pub fn snap_request(
    message: Option<String>,
    only: Vec<String>,
    base: Option<String>,
    env: &AuthorEnv,
) -> (r: Result<Request, String>)
    ensures
        snaps(r, message, only, base, *env),
{
    if only.len() > 0 {
        match message {
            Some(message) => {
                let author = Author::from_env(env);
                Ok(
                    Request::ScopedCut {
                        paths: only,
                        message,
                        author_name: author.name,
                        author_email: author.email,
                        base,
                    },
                )
            },
            None => Err(SCOPED_NEEDS_MESSAGE.to_owned()),
        }
    } else {
        match message {
            Some(message) => {
                let author = Author::from_env(env);
                Ok(
                    Request::NamedCut {
                        message,
                        author_name: author.name,
                        author_email: author.email,
                    },
                )
            },
            None => Ok(Request::Snapshot),
        }
    }
}

/// What is shown for a scoped cut.
pub open spec fn scoped_text(data: ScopedCutData) -> Seq<char> {
    output::line(
        "scoped cut "@ + short_id(data.cut@) + " ("@ + text::decimal_text(data.captured@.len())
            + " captured, "@ + text::decimal_text(data.outside_changes@.len())
            + " uncaptured outside scope)"@,
    ) + output::prefixed_lines("  captured "@, text::texts(data.captured@)) + output::prefixed_lines(
        "  outside  "@,
        text::texts(data.outside_changes@),
    )
}

fn scoped(data: &ScopedCutData) -> (r: String)
    ensures
        r@ == scoped_text(*data),
{
    let mut out = "scoped cut ".to_owned();
    append_text(&mut out, short(data.cut.as_str()));
    append_text(&mut out, " (");
    append_decimal(&mut out, data.captured.len() as u64);
    append_text(&mut out, " captured, ");
    append_decimal(&mut out, data.outside_changes.len() as u64);
    append_text(&mut out, " uncaptured outside scope)");
    out.push('\n');
    push_prefixed(&mut out, "  captured ", data.captured.as_slice());
    push_prefixed(&mut out, "  outside  ", data.outside_changes.as_slice());
    out
}

/// What is shown for a cut.
pub open spec fn snap_text(response: Response) -> Option<Seq<char>> {
    match response {
        Response::ScopedCut { data } => Some(scoped_text(data)),
        Response::NamedCut { cut, .. } => Some(output::line("created cut "@ + short_id(cut@))),
        Response::Snapshot { snapshot, .. } => Some(output::line("snapshot "@ + short_id(snapshot@))),
        _ => None,
    }
}

/// `tack snap`: a named or scoped cut, or a snapshot.
pub fn snap(response: &Response, format: OutputFormat) -> (r: Rendered)
    ensures
        shows(r, format, *response, snap_text(*response)),
{
    if matches!(format, OutputFormat::Json) {
        return Rendered::Json;
    }
    match response {
        Response::ScopedCut { data } => Rendered::Text(scoped(data)),
        Response::NamedCut { cut, .. } => {
            let mut out = "created cut ".to_owned();
            append_text(&mut out, short(cut.as_str()));
            out.push('\n');
            Rendered::Text(out)
        },
        Response::Snapshot { snapshot, .. } => {
            let mut out = "snapshot ".to_owned();
            append_text(&mut out, short(snapshot.as_str()));
            out.push('\n');
            Rendered::Text(out)
        },
        _ => render_error(response),
    }
}

// ── log ──────────────────────────────────────────────────────────────────────

/// What `tack log` asks for.
pub open spec fn history_request(all: bool) -> Request {
    if all {
        Request::Cuts
    } else {
        Request::Log
    }
}

/// The request of `tack log`: every cut, or those of the current lineage.
pub fn log_request(all: bool) -> (r: Request)
    ensures
        r == history_request(all),
{
    if all {
        Request::Cuts
    } else {
        Request::Log
    }
}

/// The line of a cut.
pub open spec fn cut_line() -> spec_fn(CutSummary) -> Seq<char> {
    |cut: CutSummary|
        output::line(
            short_id(cut.id@) + " "@ + cut.message@ + " ("@ + cut.author_name@ + ", "@
                + text::signed_text(cut.timestamp as int) + ")"@,
        )
}

/// What is shown for cuts.
pub open spec fn cuts_text(cuts: Seq<CutSummary>) -> Seq<char> {
    if cuts.len() == 0 {
        output::line("no named cuts yet"@)
    } else {
        blocks(cuts, cut_line())
    }
}

fn cut_lines(cuts: &[CutSummary]) -> (r: String)
    ensures
        r@ == cuts_text(cuts@),
{
    let mut out = String::new();
    if cuts.len() == 0 {
        push_line(&mut out, "no named cuts yet");
        assert(out@ =~= cuts_text(cuts@));
        return out;
    }
    let mut i: usize = 0;
    assert(out@ =~= blocks(cuts@.take(0), cut_line()));
    while i < cuts.len()
        invariant
            i <= cuts@.len(),
            out@ == blocks(cuts@.take(i as int), cut_line()),
        decreases cuts.len() - i,
    {
        let ghost was = out@;
        let cut = &cuts[i];
        append_text(&mut out, short(cut.id.as_str()));
        append_text(&mut out, " ");
        append_text(&mut out, cut.message.as_str());
        append_text(&mut out, " (");
        append_text(&mut out, cut.author_name.as_str());
        append_text(&mut out, ", ");
        append_text(&mut out, decimal_signed(cut.timestamp).as_str());
        append_text(&mut out, ")");
        out.push('\n');
        proof {
            lemma_next_block(cuts@, cut_line(), i as int);
            assert(out@ =~= was + cut_line()(cuts@[i as int]));
        }
        i += 1;
    }
    assert(cuts@.take(i as int) =~= cuts@);
    out
}

/// What is shown for the response to a log, if it is one.
pub open spec fn log_shown(response: Response) -> Option<Seq<char>> {
    match response {
        Response::Log { cuts } => Some(cuts_text(cuts@)),
        Response::Cuts { cuts } => Some(cuts_text(cuts@)),
        _ => None,
    }
}

/// `tack log`: the named cuts, newest-first.
pub fn log(response: &Response, format: OutputFormat) -> (r: Rendered)
    ensures
        shows(r, format, *response, log_shown(*response)),
{
    if matches!(format, OutputFormat::Json) {
        return Rendered::Json;
    }
    match response {
        Response::Log { cuts } => Rendered::Text(cut_lines(cuts.as_slice())),
        Response::Cuts { cuts } => Rendered::Text(cut_lines(cuts.as_slice())),
        _ => render_error(response),
    }
}

/// `tack cuts`: every named cut, as `tack log --all` shows them.
pub fn cuts(response: &Response, format: OutputFormat) -> (r: Rendered)
    ensures
        shows(r, format, *response, log_shown(*response)),
{
    log(response, format)
}

// ── lanes ────────────────────────────────────────────────────────────────────

/// The line of a lane.
pub open spec fn lane_line() -> spec_fn(LaneData) -> Seq<char> {
    |lane: LaneData|
        output::line(
            lane.name@ + " "@ + short_id(lane.cut@) + " (admitted by "@ + short_id(lane.admission@)
                + ")"@,
        )
}

/// What is shown for lanes.
pub open spec fn lanes_text(lanes: Seq<LaneData>) -> Seq<char> {
    if lanes.len() == 0 {
        output::line("no lanes"@)
    } else {
        blocks(lanes, lane_line())
    }
}

fn lane_lines(lanes: &[LaneData]) -> (r: String)
    ensures
        r@ == lanes_text(lanes@),
{
    let mut out = String::new();
    if lanes.len() == 0 {
        push_line(&mut out, "no lanes");
        assert(out@ =~= lanes_text(lanes@));
        return out;
    }
    let mut i: usize = 0;
    assert(out@ =~= blocks(lanes@.take(0), lane_line()));
    while i < lanes.len()
        invariant
            i <= lanes@.len(),
            out@ == blocks(lanes@.take(i as int), lane_line()),
        decreases lanes.len() - i,
    {
        let ghost was = out@;
        let lane = &lanes[i];
        append_text(&mut out, lane.name.as_str());
        append_text(&mut out, " ");
        append_text(&mut out, short(lane.cut.as_str()));
        append_text(&mut out, " (admitted by ");
        append_text(&mut out, short(lane.admission.as_str()));
        append_text(&mut out, ")");
        out.push('\n');
        proof {
            lemma_next_block(lanes@, lane_line(), i as int);
            assert(out@ =~= was + lane_line()(lanes@[i as int]));
        }
        i += 1;
    }
    assert(lanes@.take(i as int) =~= lanes@);
    out
}

/// What is shown for the response to a list of lanes, if it is one.
pub open spec fn lanes_shown(response: Response) -> Option<Seq<char>> {
    match response {
        Response::Lanes { lanes } => Some(lanes_text(lanes@)),
        _ => None,
    }
}

/// `tack lanes`: the team and release lanes.
pub fn lanes(response: &Response, format: OutputFormat) -> (r: Rendered)
    ensures
        shows(r, format, *response, lanes_shown(*response)),
{
    if matches!(format, OutputFormat::Json) {
        return Rendered::Json;
    }
    match response {
        Response::Lanes { lanes } => Rendered::Text(lane_lines(lanes.as_slice())),
        _ => render_error(response),
    }
}

/// The text of an option, or none at all.
pub open spec fn or_empty(text: Option<String>) -> Seq<char> {
    match text {
        Some(s) => s@,
        None => seq![],
    }
}

fn unwrap_or_empty(text: Option<String>) -> (r: String)
    ensures
        r@ == or_empty(text),
{
    match text {
        Some(s) => s,
        None => {
            let empty = String::new();
            assert(empty@ =~= seq![]);
            empty
        },
    }
}

/// Whether a request admits a cut to a lane.
pub open spec fn admits(r: Request, cut: String, lane: String, reason: Option<String>) -> bool {
    r matches Request::Admit { cut: c, lane: l, reason: why } && c == cut && l == lane && why@
        == or_empty(reason)
}

/// The request of `tack admit`; the reason may be left out.
pub fn admission_request(cut: String, lane: String, reason: Option<String>) -> (r: Request)
    ensures
        admits(r, cut, lane, reason),
{
    Request::Admit { cut, lane, reason: unwrap_or_empty(reason) }
}

/// What is shown for an admission.
pub open spec fn admission_text(data: AdmissionData) -> Seq<char> {
    output::line(
        "admitted "@ + short_id(data.cut@) + " to "@ + data.lane@ + " (op "@ + short_id(data.op@)
            + ")"@,
    )
}

/// What is shown for the response to an admission, if it is one.
pub open spec fn admission_shown(response: Response) -> Option<Seq<char>> {
    match response {
        Response::Admitted { data } => Some(admission_text(data)),
        _ => None,
    }
}

/// `tack admit`: a cut was admitted to a lane.
pub fn admission(response: &Response, format: OutputFormat) -> (r: Rendered)
    ensures
        shows(r, format, *response, admission_shown(*response)),
{
    if matches!(format, OutputFormat::Json) {
        return Rendered::Json;
    }
    match response {
        Response::Admitted { data } => {
            let mut out = "admitted ".to_owned();
            append_text(&mut out, short(data.cut.as_str()));
            append_text(&mut out, " to ");
            append_text(&mut out, data.lane.as_str());
            append_text(&mut out, " (op ");
            append_text(&mut out, short(data.op.as_str()));
            append_text(&mut out, ")");
            out.push('\n');
            Rendered::Text(out)
        },
        _ => render_error(response),
    }
}

// ── backport ─────────────────────────────────────────────────────────────────

/// The message of a continuation that was given more than it takes.
pub const CONTINUE_TAKES_NOTHING: &'static str =
    "`tack backport --continue` does not take source, --to, -m, or --reason";

/// The message of a backport without a source.
pub const BACKPORT_NEEDS_SOURCE: &'static str = "`tack backport` requires a source cut";

/// The message of a backport without a target.
pub const BACKPORT_NEEDS_LANE: &'static str = "`tack backport` requires --to <lane>";

/// Whether `r` is the request of `tack backport`.
pub open spec fn backports(
    r: Result<Request, String>,
    source: Option<String>,
    target_lane: Option<String>,
    message: Option<String>,
    reason: Option<String>,
    continue_settlement: bool,
    also_admit: bool,
    env: AuthorEnv,
) -> bool {
    if continue_settlement {
        if source is Some || target_lane is Some || message is Some || reason is Some {
            r matches Err(e) && e@ == CONTINUE_TAKES_NOTHING@
        } else {
            r matches Ok(
                Request::BackportContinue { author_name, author_email, also_admit: wanted },
            ) && {
                &&& author_name@ == env.name()
                &&& author_email@ == env.email(env.name())
                &&& wanted == also_admit
            }
        }
    } else {
        match (source, target_lane) {
            (None, _) => r matches Err(e) && e@ == BACKPORT_NEEDS_SOURCE@,
            (Some(_), None) => r matches Err(e) && e@ == BACKPORT_NEEDS_LANE@,
            (Some(from), Some(lane)) => r matches Ok(
                Request::Backport {
                    source: s,
                    target_lane: t,
                    message: m,
                    reason: why,
                    author_name,
                    author_email,
                    also_admit: wanted,
                },
            ) && {
                &&& s == from
                &&& t == lane
                &&& m == message
                &&& why@ == or_empty(reason)
                &&& author_name@ == env.name()
                &&& author_email@ == env.email(env.name())
                &&& wanted == also_admit
            },
        }
    }
}

/// The request of `tack backport`.
pub fn backport_request(
    source: Option<String>,
    target_lane: Option<String>,
    message: Option<String>,
    reason: Option<String>,
    continue_settlement: bool,
    also_admit: bool,
    env: &AuthorEnv,
) -> (r: Result<Request, String>)
    ensures
        backports(
            r,
            source,
            target_lane,
            message,
            reason,
            continue_settlement,
            also_admit,
            *env,
        ),
{
    let author = Author::from_env(env);
    if continue_settlement {
        if source.is_some() || target_lane.is_some() || message.is_some() || reason.is_some() {
            return Err(CONTINUE_TAKES_NOTHING.to_owned());
        }
        return Ok(
            Request::BackportContinue {
                author_name: author.name,
                author_email: author.email,
                also_admit,
            },
        );
    }
    match (source, target_lane) {
        (None, _) => Err(BACKPORT_NEEDS_SOURCE.to_owned()),
        (Some(_), None) => Err(BACKPORT_NEEDS_LANE.to_owned()),
        (Some(source), Some(target_lane)) => Ok(
            Request::Backport {
                source,
                target_lane,
                message,
                reason: unwrap_or_empty(reason),
                author_name: author.name,
                author_email: author.email,
                also_admit,
            },
        ),
    }
}

/// The cut of a backport, as it is shown.
pub open spec fn backport_cut(data: BackportData) -> Seq<char> {
    match data.cut {
        Some(cut) => short_id(cut@),
        None => short_id("<none>"@),
    }
}

/// What is shown for the outcome of a backport.
pub open spec fn outcome_text(data: BackportData) -> Seq<char> {
    let source = short_id(data.provenance.source_cut@);
    let lane = data.provenance.target_lane@;
    if data.outcome@ == "created"@ {
        output::line(
            "backport "@ + source + " to "@ + lane + " created "@ + backport_cut(data) + " ("@
                + data.method@ + ")"@,
        )
    } else if data.outcome@ == "already_ported"@ {
        output::line("already backported "@ + source + " to "@ + lane + " as "@ + backport_cut(data))
    } else if data.outcome@ == "settlement"@ {
        output::line("backport "@ + source + " to "@ + lane + " needs settlement"@) + output::prefixed_lines(
            "  conflict "@,
            text::texts(data.conflicts@),
        ) + output::line("resolve the working copy, then run `tack backport --continue`"@)
    } else {
        output::line("backport outcome "@ + data.outcome@)
    }
}

/// What is shown for a backport.
pub open spec fn backport_text(data: BackportData) -> Seq<char> {
    match data.admission {
        Some(admission) => outcome_text(data) + output::line(
            "admitted to "@ + admission.lane@ + " (op "@ + short_id(admission.op@) + ")"@,
        ),
        None => outcome_text(data),
    }
}

fn shown_cut(data: &BackportData) -> (r: &str)
    ensures
        r@ == backport_cut(*data),
{
    match &data.cut {
        Some(cut) => short(cut.as_str()),
        None => short("<none>"),
    }
}

fn outcome(data: &BackportData) -> (r: String)
    ensures
        r@ == outcome_text(*data),
{
    let source = short(data.provenance.source_cut.as_str());
    let lane = data.provenance.target_lane.as_str();
    if same_text(data.outcome.as_str(), "created") {
        let mut out = "backport ".to_owned();
        append_text(&mut out, source);
        append_text(&mut out, " to ");
        append_text(&mut out, lane);
        append_text(&mut out, " created ");
        append_text(&mut out, shown_cut(data));
        append_text(&mut out, " (");
        append_text(&mut out, data.method.as_str());
        append_text(&mut out, ")");
        out.push('\n');
        out
    } else if same_text(data.outcome.as_str(), "already_ported") {
        let mut out = "already backported ".to_owned();
        append_text(&mut out, source);
        append_text(&mut out, " to ");
        append_text(&mut out, lane);
        append_text(&mut out, " as ");
        append_text(&mut out, shown_cut(data));
        out.push('\n');
        out
    } else if same_text(data.outcome.as_str(), "settlement") {
        let mut out = "backport ".to_owned();
        append_text(&mut out, source);
        append_text(&mut out, " to ");
        append_text(&mut out, lane);
        append_text(&mut out, " needs settlement");
        out.push('\n');
        push_prefixed(&mut out, "  conflict ", data.conflicts.as_slice());
        push_line(&mut out, "resolve the working copy, then run `tack backport --continue`");
        out
    } else {
        let mut out = "backport outcome ".to_owned();
        append_text(&mut out, data.outcome.as_str());
        out.push('\n');
        out
    }
}

/// Renders a backport.
pub fn render_backport(data: &BackportData) -> (r: String)
    ensures
        r@ == backport_text(*data),
{
    let mut out = outcome(data);
    if let Some(admission) = &data.admission {
        let mut shown = "admitted to ".to_owned();
        append_text(&mut shown, admission.lane.as_str());
        append_text(&mut shown, " (op ");
        append_text(&mut shown, short(admission.op.as_str()));
        append_text(&mut shown, ")");
        push_line(&mut out, shown.as_str());
    }
    out
}

/// What is shown for the response to a backport, if it is one.
pub open spec fn backport_shown(response: Response) -> Option<Seq<char>> {
    match response {
        Response::Backport { data } => Some(backport_text(data)),
        _ => None,
    }
}

/// `tack backport`: a backport was proposed or settled.
pub fn backport(response: &Response, format: OutputFormat) -> (r: Rendered)
    ensures
        shows(r, format, *response, backport_shown(*response)),
{
    if matches!(format, OutputFormat::Json) {
        return Rendered::Json;
    }
    match response {
        Response::Backport { data } => Rendered::Text(render_backport(data)),
        _ => render_error(response),
    }
}

// ── op log ───────────────────────────────────────────────────────────────────

/// The line of an op.
pub open spec fn op_line() -> spec_fn(OpSummary) -> Seq<char> {
    |op: OpSummary|
        output::line(
            short_id(op.id@) + " "@ + op.description@ + " ("@ + text::signed_text(op.timestamp as int)
                + ")"@,
        )
}

fn op_lines(ops: &[OpSummary]) -> (r: String)
    ensures
        r@ == blocks(ops@, op_line()),
{
    let mut out = String::new();
    let mut i: usize = 0;
    assert(out@ =~= blocks(ops@.take(0), op_line()));
    while i < ops.len()
        invariant
            i <= ops@.len(),
            out@ == blocks(ops@.take(i as int), op_line()),
        decreases ops.len() - i,
    {
        let ghost was = out@;
        let op = &ops[i];
        append_text(&mut out, short(op.id.as_str()));
        append_text(&mut out, " ");
        append_text(&mut out, op.description.as_str());
        append_text(&mut out, " (");
        append_text(&mut out, decimal_signed(op.timestamp).as_str());
        append_text(&mut out, ")");
        out.push('\n');
        proof {
            lemma_next_block(ops@, op_line(), i as int);
            assert(out@ =~= was + op_line()(ops@[i as int]));
        }
        i += 1;
    }
    assert(ops@.take(i as int) =~= ops@);
    out
}

/// What is shown for the response to a list of ops, if it is one.
pub open spec fn op_log_shown(response: Response) -> Option<Seq<char>> {
    match response {
        Response::OpLog { ops } => Some(blocks(ops@, op_line())),
        _ => None,
    }
}

/// `tack op log`: the operations, newest-first.
pub fn op_log(response: &Response, format: OutputFormat) -> (r: Rendered)
    ensures
        shows(r, format, *response, op_log_shown(*response)),
{
    if matches!(format, OutputFormat::Json) {
        return Rendered::Json;
    }
    match response {
        Response::OpLog { ops } => Rendered::Text(op_lines(ops.as_slice())),
        _ => render_error(response),
    }
}

// ── diff ─────────────────────────────────────────────────────────────────────

/// What is shown for a file-level diff.
pub open spec fn diff_text(data: DiffData) -> Seq<char> {
    output::prefixed_lines("+ "@, text::texts(data.added@)) + output::prefixed_lines("- "@, text::texts(data.removed@))
        + output::prefixed_lines("~ "@, text::texts(data.modified@))
}

/// The line of a file's counts.
pub open spec fn stat_line() -> spec_fn(FileStat) -> Seq<char> {
    |file: FileStat|
        if file.binary {
            output::line("    bin       "@ + file.path@)
        } else {
            output::line(
                "  +"@ + text::padded(text::decimal_text(file.added_lines as nat), 5) + " -"@ + text::padded(
                    text::decimal_text(file.removed_lines as nat),
                    5,
                ) + " "@ + file.path@,
            )
        }
}

/// What is shown for line counts.
pub open spec fn stat_text(files: Seq<FileStat>, added: usize, removed: usize) -> Seq<char> {
    blocks(files, stat_line()) + output::line(
        "total +"@ + text::decimal_text(added as nat) + " -"@ + text::decimal_text(removed as nat),
    )
}

/// The line of a line of a hunk.
pub open spec fn hunk_line() -> spec_fn(DiffLine) -> Seq<char> {
    |l: DiffLine|
        output::line(
            (if l.tag@ == "insert"@ {
                "+"@
            } else if l.tag@ == "delete"@ {
                "-"@
            } else {
                " "@
            }) + l.content@,
        )
}

/// The block of a hunk.
pub open spec fn hunk_block() -> spec_fn(Hunk) -> Seq<char> {
    |hunk: Hunk|
        output::line(
            "@@ -"@ + text::decimal_text(hunk.old_start as nat) + ","@ + text::decimal_text(
                hunk.old_lines as nat,
            ) + " +"@ + text::decimal_text(hunk.new_start as nat) + ","@ + text::decimal_text(
                hunk.new_lines as nat,
            ) + " @@"@,
        ) + blocks(hunk.lines@, hunk_line())
}

/// The block of a file's patch.
pub open spec fn patch_block() -> spec_fn(FilePatch) -> Seq<char> {
    |file: FilePatch|
        output::line("--- "@ + file.path@ + " ("@ + file.change@ + ")"@) + (if file.binary {
            output::line("binary files differ"@)
        } else {
            blocks(file.hunks@, hunk_block())
        })
}

/// What is shown for a diff.
pub open spec fn any_diff_text(response: Response) -> Option<Seq<char>> {
    match response {
        Response::Diff { data, .. } => Some(diff_text(data)),
        Response::DiffStat { files, total_added, total_removed, .. } => Some(
            stat_text(files@, total_added, total_removed),
        ),
        Response::DiffPatch { files, .. } => Some(blocks(files@, patch_block())),
        _ => None,
    }
}

fn stat_lines(files: &[FileStat], total_added: usize, total_removed: usize) -> (r: String)
    ensures
        r@ == stat_text(files@, total_added, total_removed),
{
    let mut out = String::new();
    let mut i: usize = 0;
    assert(out@ =~= blocks(files@.take(0), stat_line()));
    while i < files.len()
        invariant
            i <= files@.len(),
            out@ == blocks(files@.take(i as int), stat_line()),
        decreases files.len() - i,
    {
        let ghost was = out@;
        let file = &files[i];
        if file.binary {
            append_text(&mut out, "    bin       ");
            append_text(&mut out, file.path.as_str());
        } else {
            append_text(&mut out, "  +");
            append_text(&mut out, pad(decimal(file.added_lines as u64).as_str(), 5).as_str());
            append_text(&mut out, " -");
            append_text(&mut out, pad(decimal(file.removed_lines as u64).as_str(), 5).as_str());
            append_text(&mut out, " ");
            append_text(&mut out, file.path.as_str());
        }
        out.push('\n');
        proof {
            lemma_next_block(files@, stat_line(), i as int);
            assert(out@ =~= was + stat_line()(files@[i as int]));
        }
        i += 1;
    }
    assert(files@.take(i as int) =~= files@);
    let mut total = "total +".to_owned();
    append_decimal(&mut total, total_added as u64);
    append_text(&mut total, " -");
    append_decimal(&mut total, total_removed as u64);
    push_line(&mut out, total.as_str());
    out
}

fn push_hunk(out: &mut String, hunk: &Hunk)
    ensures
        final(out)@ == old(out)@ + hunk_block()(*hunk),
{
    let mut head = "@@ -".to_owned();
    append_decimal(&mut head, hunk.old_start as u64);
    append_text(&mut head, ",");
    append_decimal(&mut head, hunk.old_lines as u64);
    append_text(&mut head, " +");
    append_decimal(&mut head, hunk.new_start as u64);
    append_text(&mut head, ",");
    append_decimal(&mut head, hunk.new_lines as u64);
    append_text(&mut head, " @@");
    push_line(out, head.as_str());
    let ghost start = out@;
    let mut i: usize = 0;
    assert(out@ =~= start + blocks(hunk.lines@.take(0), hunk_line()));
    while i < hunk.lines.len()
        invariant
            i <= hunk.lines@.len(),
            out@ == start + blocks(hunk.lines@.take(i as int), hunk_line()),
        decreases hunk.lines.len() - i,
    {
        let ghost was = out@;
        let l = &hunk.lines[i];
        let prefix = if same_text(l.tag.as_str(), "insert") {
            "+"
        } else if same_text(l.tag.as_str(), "delete") {
            "-"
        } else {
            " "
        };
        append_text(out, prefix);
        append_text(out, l.content.as_str());
        out.push('\n');
        proof {
            lemma_next_block(hunk.lines@, hunk_line(), i as int);
            assert(out@ =~= was + hunk_line()(hunk.lines@[i as int]));
            assert(out@ =~= start + blocks(hunk.lines@.take(i + 1), hunk_line()));
        }
        i += 1;
    }
    assert(hunk.lines@.take(i as int) =~= hunk.lines@);
    assert(out@ =~= old(out)@ + hunk_block()(*hunk));
}

fn push_patch(out: &mut String, file: &FilePatch)
    ensures
        final(out)@ == old(out)@ + patch_block()(*file),
{
    let mut head = "--- ".to_owned();
    append_text(&mut head, file.path.as_str());
    append_text(&mut head, " (");
    append_text(&mut head, file.change.as_str());
    append_text(&mut head, ")");
    push_line(out, head.as_str());
    if file.binary {
        push_line(out, "binary files differ");
        assert(out@ =~= old(out)@ + patch_block()(*file));
        return;
    }
    let ghost start = out@;
    let mut i: usize = 0;
    assert(out@ =~= start + blocks(file.hunks@.take(0), hunk_block()));
    while i < file.hunks.len()
        invariant
            i <= file.hunks@.len(),
            out@ == start + blocks(file.hunks@.take(i as int), hunk_block()),
        decreases file.hunks.len() - i,
    {
        push_hunk(out, &file.hunks[i]);
        proof {
            lemma_next_block(file.hunks@, hunk_block(), i as int);
            assert(out@ =~= start + blocks(file.hunks@.take(i + 1), hunk_block()));
        }
        i += 1;
    }
    assert(file.hunks@.take(i as int) =~= file.hunks@);
    assert(out@ =~= old(out)@ + patch_block()(*file));
}

fn patch_blocks(files: &[FilePatch]) -> (r: String)
    ensures
        r@ == blocks(files@, patch_block()),
{
    let mut out = String::new();
    let mut i: usize = 0;
    assert(out@ =~= blocks(files@.take(0), patch_block()));
    while i < files.len()
        invariant
            i <= files@.len(),
            out@ == blocks(files@.take(i as int), patch_block()),
        decreases files.len() - i,
    {
        push_patch(&mut out, &files[i]);
        proof {
            lemma_next_block(files@, patch_block(), i as int);
        }
        i += 1;
    }
    assert(files@.take(i as int) =~= files@);
    out
}

/// `tack diff`: changed files, line counts, or hunks.
pub fn diff(response: &Response, format: OutputFormat) -> (r: Rendered)
    ensures
        shows(r, format, *response, any_diff_text(*response)),
{
    if matches!(format, OutputFormat::Json) {
        return Rendered::Json;
    }
    match response {
        Response::Diff { data, .. } => {
            let mut out = String::new();
            push_prefixed(&mut out, "+ ", data.added.as_slice());
            push_prefixed(&mut out, "- ", data.removed.as_slice());
            push_prefixed(&mut out, "~ ", data.modified.as_slice());
            assert(out@ =~= diff_text(*data));
            Rendered::Text(out)
        },
        Response::DiffStat { files, total_added, total_removed, .. } => Rendered::Text(
            stat_lines(files.as_slice(), *total_added, *total_removed),
        ),
        Response::DiffPatch { files, .. } => Rendered::Text(patch_blocks(files.as_slice())),
        _ => render_error(response),
    }
}

// ── restore and undo ─────────────────────────────────────────────────────────

/// What a restore led to, as it is shown.
pub open spec fn restored_to(cut: Option<CutSummary>) -> Seq<char> {
    match cut {
        Some(cut) => short_id(cut.id@) + " "@ + cut.message@,
        None => "an unnamed snapshot"@,
    }
}

/// What is shown for a restore.
pub open spec fn restore_text(
    op: Seq<char>,
    cut: Option<CutSummary>,
    previous: Option<String>,
) -> Seq<char> {
    output::line("restored to "@ + restored_to(cut)) + output::line("  new op "@ + short_id(op)) + (
    match previous {
        Some(prev) => output::line(
            "  was at "@ + short_id(prev@) + " — run `tack undo` to return"@,
        ),
        None => seq![],
    })
}

fn restored(op: &str, cut: &Option<CutSummary>, previous: &Option<String>) -> (r: String)
    ensures
        r@ == restore_text(op@, *cut, *previous),
{
    let mut out = "restored to ".to_owned();
    match cut {
        Some(cut) => {
            let mut to = short(cut.id.as_str()).to_owned();
            append_text(&mut to, " ");
            append_text(&mut to, cut.message.as_str());
            append_text(&mut out, to.as_str());
        },
        None => append_text(&mut out, "an unnamed snapshot"),
    }
    out.push('\n');
    let mut new_op = "  new op ".to_owned();
    append_text(&mut new_op, short(op));
    push_line(&mut out, new_op.as_str());
    if let Some(prev) = previous {
        let mut was = "  was at ".to_owned();
        append_text(&mut was, short(prev.as_str()));
        append_text(&mut was, " — run `tack undo` to return");
        push_line(&mut out, was.as_str());
    }
    assert(out@ =~= restore_text(op@, *cut, *previous));
    out
}

/// What is shown for the response to a restore, if it is one.
pub open spec fn restore_shown(response: Response) -> Option<Seq<char>> {
    match response {
        Response::Restored { op, restored_cut, previous_op, .. } => Some(
            restore_text(op@, restored_cut, previous_op),
        ),
        _ => None,
    }
}

/// `tack restore`: the working copy was restored.
pub fn restore(response: &Response, format: OutputFormat) -> (r: Rendered)
    ensures
        shows(r, format, *response, restore_shown(*response)),
{
    if matches!(format, OutputFormat::Json) {
        return Rendered::Json;
    }
    match response {
        Response::Restored { op, restored_cut, previous_op, .. } => Rendered::Text(
            restored(op.as_str(), restored_cut, previous_op),
        ),
        _ => render_error(response),
    }
}

/// What is shown for an undo.
pub open spec fn undo_text(
    op: Seq<char>,
    undone: Option<String>,
    working_copy: Seq<char>,
) -> Seq<char> {
    output::line("undone (new op "@ + short_id(op) + ")"@) + (match undone {
        Some(undone) => output::line("  reversed op "@ + short_id(undone@)),
        None => seq![],
    }) + output::line("  working copy now "@ + short_id(working_copy))
}

fn undone(op: &str, undone_op: &Option<String>, working_copy: &str) -> (r: String)
    ensures
        r@ == undo_text(op@, *undone_op, working_copy@),
{
    let mut out = "undone (new op ".to_owned();
    append_text(&mut out, short(op));
    append_text(&mut out, ")");
    out.push('\n');
    if let Some(undone) = undone_op {
        let mut reversed = "  reversed op ".to_owned();
        append_text(&mut reversed, short(undone.as_str()));
        push_line(&mut out, reversed.as_str());
    }
    let mut now = "  working copy now ".to_owned();
    append_text(&mut now, short(working_copy));
    push_line(&mut out, now.as_str());
    assert(out@ =~= undo_text(op@, *undone_op, working_copy@));
    out
}

/// What is shown for the response to an undo, if it is one.
pub open spec fn undo_shown(response: Response) -> Option<Seq<char>> {
    match response {
        Response::Undone { op, undone_op, working_copy, .. } => Some(
            undo_text(op@, undone_op, working_copy@),
        ),
        _ => None,
    }
}

/// `tack undo`: the most recent operation was reversed.
pub fn undo(response: &Response, format: OutputFormat) -> (r: Rendered)
    ensures
        shows(r, format, *response, undo_shown(*response)),
{
    if matches!(format, OutputFormat::Json) {
        return Rendered::Json;
    }
    match response {
        Response::Undone { op, undone_op, working_copy, .. } => Rendered::Text(
            undone(op.as_str(), undone_op, working_copy.as_str()),
        ),
        _ => render_error(response),
    }
}

// ── cat and ls ───────────────────────────────────────────────────────────────

/// What is shown for an object.
pub open spec fn object_text(object: crate::api::ObjectInfo) -> Seq<char> {
    output::line(
        short_id(object.id@) + " "@ + object.kind@ + " "@ + text::decimal_text(object.size as nat)
            + " bytes"@,
    )
}

/// What is shown for the response to an object, if it is one.
pub open spec fn cat_shown(response: Response) -> Option<Seq<char>> {
    match response {
        Response::Cat { object } => Some(object_text(object)),
        _ => None,
    }
}

/// `tack cat`: the tag and the length of an object.
pub fn cat(response: &Response, format: OutputFormat) -> (r: Rendered)
    ensures
        shows(r, format, *response, cat_shown(*response)),
{
    if matches!(format, OutputFormat::Json) {
        return Rendered::Json;
    }
    match response {
        Response::Cat { object } => {
            let mut out = short(object.id.as_str()).to_owned();
            append_text(&mut out, " ");
            append_text(&mut out, object.kind.as_str());
            append_text(&mut out, " ");
            append_decimal(&mut out, object.size as u64);
            append_text(&mut out, " bytes");
            out.push('\n');
            Rendered::Text(out)
        },
        _ => render_error(response),
    }
}

/// The line of a tree entry.
pub open spec fn entry_line() -> spec_fn(TreeEntryData) -> Seq<char> {
    |entry: TreeEntryData|
        output::line(text::padded(entry.kind@, 8) + " "@ + short_id(entry.id@) + " "@ + entry.name@)
}

fn entry_lines(entries: &[TreeEntryData]) -> (r: String)
    ensures
        r@ == blocks(entries@, entry_line()),
{
    let mut out = String::new();
    let mut i: usize = 0;
    assert(out@ =~= blocks(entries@.take(0), entry_line()));
    while i < entries.len()
        invariant
            i <= entries@.len(),
            out@ == blocks(entries@.take(i as int), entry_line()),
        decreases entries.len() - i,
    {
        let ghost was = out@;
        let entry = &entries[i];
        append_text(&mut out, pad(entry.kind.as_str(), 8).as_str());
        append_text(&mut out, " ");
        append_text(&mut out, short(entry.id.as_str()));
        append_text(&mut out, " ");
        append_text(&mut out, entry.name.as_str());
        out.push('\n');
        proof {
            lemma_next_block(entries@, entry_line(), i as int);
            assert(out@ =~= was + entry_line()(entries@[i as int]));
        }
        i += 1;
    }
    assert(entries@.take(i as int) =~= entries@);
    out
}

/// What is shown for the response to a list of entries, if it is one.
pub open spec fn ls_shown(response: Response) -> Option<Seq<char>> {
    match response {
        Response::Ls { entries } => Some(blocks(entries@, entry_line())),
        _ => None,
    }
}

/// `tack ls`: the immediate entries of a tree.
pub fn ls(response: &Response, format: OutputFormat) -> (r: Rendered)
    ensures
        shows(r, format, *response, ls_shown(*response)),
{
    if matches!(format, OutputFormat::Json) {
        return Rendered::Json;
    }
    match response {
        Response::Ls { entries } => Rendered::Text(entry_lines(entries.as_slice())),
        _ => render_error(response),
    }
}

// ── schema ───────────────────────────────────────────────────────────────────

/// The line of a parameter.
pub open spec fn param_line() -> spec_fn(ParamInfo) -> Seq<char> {
    |param: ParamInfo|
        output::line(
            "    "@ + text::padded(param.name@, 14) + " "@ + text::padded(param.ty@, 9) + " "@
                + param.description@ + " ["@ + (if param.required {
                "required"@
            } else {
                "optional"@
            }) + "]"@,
        )
}

/// The block of a method.
pub open spec fn method_block() -> spec_fn(MethodInfo) -> Seq<char> {
    |method: MethodInfo|
        output::line(text::padded(method.method@, 11) + " "@ + method.summary@) + blocks(
            method.params@,
            param_line(),
        ) + output::line("    -> "@ + method.returns@)
}

fn push_method(out: &mut String, method: &MethodInfo)
    ensures
        final(out)@ == old(out)@ + method_block()(*method),
{
    let mut head = pad(method.method.as_str(), 11);
    append_text(&mut head, " ");
    append_text(&mut head, method.summary.as_str());
    push_line(out, head.as_str());
    let ghost start = out@;
    let mut i: usize = 0;
    assert(out@ =~= start + blocks(method.params@.take(0), param_line()));
    while i < method.params.len()
        invariant
            i <= method.params@.len(),
            out@ == start + blocks(method.params@.take(i as int), param_line()),
        decreases method.params.len() - i,
    {
        let ghost was = out@;
        let param = &method.params[i];
        let mut shown = "    ".to_owned();
        append_text(&mut shown, pad(param.name.as_str(), 14).as_str());
        append_text(&mut shown, " ");
        append_text(&mut shown, pad(param.ty.as_str(), 9).as_str());
        append_text(&mut shown, " ");
        append_text(&mut shown, param.description.as_str());
        append_text(&mut shown, " [");
        append_text(
            &mut shown,
            if param.required {
                "required"
            } else {
                "optional"
            },
        );
        append_text(&mut shown, "]");
        push_line(out, shown.as_str());
        proof {
            lemma_next_block(method.params@, param_line(), i as int);
            assert(out@ =~= was + param_line()(method.params@[i as int]));
            assert(out@ =~= start + blocks(method.params@.take(i + 1), param_line()));
        }
        i += 1;
    }
    assert(method.params@.take(i as int) =~= method.params@);
    let mut shape = "    -> ".to_owned();
    append_text(&mut shape, method.returns.as_str());
    push_line(out, shape.as_str());
    assert(out@ =~= old(out)@ + method_block()(*method));
}

/// The methods of the API, as text.
pub fn method_blocks(methods: &[MethodInfo]) -> (r: String)
    ensures
        r@ == blocks(methods@, method_block()),
{
    let mut out = String::new();
    let mut i: usize = 0;
    assert(out@ =~= blocks(methods@.take(0), method_block()));
    while i < methods.len()
        invariant
            i <= methods@.len(),
            out@ == blocks(methods@.take(i as int), method_block()),
        decreases methods.len() - i,
    {
        push_method(&mut out, &methods[i]);
        proof {
            lemma_next_block(methods@, method_block(), i as int);
        }
        i += 1;
    }
    assert(methods@.take(i as int) =~= methods@);
    out
}

/// `tack schema`: the description of the API. It needs no repository.
pub fn schema(format: OutputFormat) -> (r: (Response, Rendered))
    ensures
        r.0 matches Response::Help { methods } && {
            &&& encoding::views(methods@) == schema::schema()
            &&& shows(r.1, format, r.0, Some(blocks(methods@, method_block())))
        },
{
    let methods = schema_methods();
    let rendered = match format {
        OutputFormat::Json => Rendered::Json,
        OutputFormat::Human => Rendered::Text(method_blocks(methods.as_slice())),
    };
    (Response::Help { methods }, rendered)
}

// ── current ──────────────────────────────────────────────────────────────────

/// What is shown for where the working copy is.
pub open spec fn current_text(data: CurrentData) -> Seq<char> {
    output::line("op       "@ + short_id(data.op@) + " "@ + data.operation@) + output::line(
        "working  "@ + short_id(data.working_copy@) + " ("@ + (if data.clean {
            "clean"@
        } else {
            "dirty"@
        }) + ")"@,
    ) + (match data.base_cut {
        Some(cut) => output::line("base cut "@ + short_id(cut.id@) + " "@ + cut.message@),
        None => output::line("base cut (none)"@),
    }) + (if data.from_restore {
        output::line("note     current state came from a restore (`tack undo` to step back)"@)
    } else {
        seq![]
    })
}

fn current_lines(data: &CurrentData) -> (r: String)
    ensures
        r@ == current_text(*data),
{
    let mut out = "op       ".to_owned();
    append_text(&mut out, short(data.op.as_str()));
    append_text(&mut out, " ");
    append_text(&mut out, data.operation.as_str());
    out.push('\n');
    let mut working = "working  ".to_owned();
    append_text(&mut working, short(data.working_copy.as_str()));
    append_text(&mut working, " (");
    append_text(
        &mut working,
        if data.clean {
            "clean"
        } else {
            "dirty"
        },
    );
    append_text(&mut working, ")");
    push_line(&mut out, working.as_str());
    match &data.base_cut {
        Some(cut) => {
            let mut base = "base cut ".to_owned();
            append_text(&mut base, short(cut.id.as_str()));
            append_text(&mut base, " ");
            append_text(&mut base, cut.message.as_str());
            push_line(&mut out, base.as_str());
        },
        None => push_line(&mut out, "base cut (none)"),
    }
    if data.from_restore {
        push_line(
            &mut out,
            "note     current state came from a restore (`tack undo` to step back)",
        );
    }
    assert(out@ =~= current_text(*data));
    out
}

/// What is shown for the response to a current state, if it is one.
pub open spec fn current_shown(response: Response) -> Option<Seq<char>> {
    match response {
        Response::Current { data } => Some(current_text(data)),
        _ => None,
    }
}

/// `tack current`: where the working copy is.
pub fn current(response: &Response, format: OutputFormat) -> (r: Rendered)
    ensures
        shows(r, format, *response, current_shown(*response)),
{
    if matches!(format, OutputFormat::Json) {
        return Rendered::Json;
    }
    match response {
        Response::Current { data } => Rendered::Text(current_lines(data)),
        _ => render_error(response),
    }
}

// ── claims ───────────────────────────────────────────────────────────────────

/// The line of a claim.
pub open spec fn claim_line() -> spec_fn(Claim) -> Seq<char> {
    |claim: Claim|
        output::line(
            claim.path@ + " ["@ + claim.holder@ + "]"@ + (if claim.note@.len() == 0 {
                seq![]
            } else {
                " — "@ + claim.note@
            }),
        )
}

/// What is shown for claims.
pub open spec fn claims_text(claims: Seq<Claim>) -> Seq<char> {
    if claims.len() == 0 {
        output::line("no active claims"@)
    } else {
        blocks(claims, claim_line())
    }
}

fn claim_lines(claims: &[Claim]) -> (r: String)
    ensures
        r@ == claims_text(claims@),
{
    let mut out = String::new();
    if claims.len() == 0 {
        push_line(&mut out, "no active claims");
        assert(out@ =~= claims_text(claims@));
        return out;
    }
    let mut i: usize = 0;
    assert(out@ =~= blocks(claims@.take(0), claim_line()));
    while i < claims.len()
        invariant
            i <= claims@.len(),
            out@ == blocks(claims@.take(i as int), claim_line()),
        decreases claims.len() - i,
    {
        let ghost was = out@;
        let claim = &claims[i];
        append_text(&mut out, claim.path.as_str());
        append_text(&mut out, " [");
        append_text(&mut out, claim.holder.as_str());
        append_text(&mut out, "]");
        if !claim.note.as_str().is_empty() {
            append_text(&mut out, " — ");
            append_text(&mut out, claim.note.as_str());
        }
        out.push('\n');
        proof {
            lemma_next_block(claims@, claim_line(), i as int);
            assert(out@ =~= was + claim_line()(claims@[i as int]));
        }
        i += 1;
    }
    assert(claims@.take(i as int) =~= claims@);
    out
}

/// What is shown for the response to a list of claims, if it is one.
pub open spec fn claims_shown(response: Response) -> Option<Seq<char>> {
    match response {
        Response::Claims { claims } => Some(claims_text(claims@)),
        _ => None,
    }
}

/// `tack claims`: the claims that are held.
pub fn claims(response: &Response, format: OutputFormat) -> (r: Rendered)
    ensures
        shows(r, format, *response, claims_shown(*response)),
{
    if matches!(format, OutputFormat::Json) {
        return Rendered::Json;
    }
    match response {
        Response::Claims { claims } => Rendered::Text(claim_lines(claims.as_slice())),
        _ => render_error(response),
    }
}

/// Who a claim is made for: the given holder, or the author.
pub open spec fn holder_or_author(holder: Option<String>, env: AuthorEnv) -> Seq<char> {
    match holder {
        Some(h) => h@,
        None => env.name(),
    }
}

fn holder_of(holder: Option<String>, env: &AuthorEnv) -> (r: String)
    ensures
        r@ == holder_or_author(holder, *env),
{
    match holder {
        Some(holder) => holder,
        None => author_name_from_env(env),
    }
}

/// Whether a request claims a path.
pub open spec fn claims_path(
    r: Request,
    path: String,
    holder: Option<String>,
    note: Option<String>,
    env: AuthorEnv,
) -> bool {
    r matches Request::Claim { path: p, holder: h, note: n } && p == path && h@
        == holder_or_author(holder, env) && n@ == or_empty(note)
}

/// The request of `tack claim`.
pub fn claim_request(
    path: String,
    holder: Option<String>,
    note: Option<String>,
    env: &AuthorEnv,
) -> (r: Request)
    ensures
        claims_path(r, path, holder, note, *env),
{
    Request::Claim { path, holder: holder_of(holder, env), note: unwrap_or_empty(note) }
}

/// The line of a conflicting claim.
pub open spec fn conflict_line() -> spec_fn(Claim) -> Seq<char> {
    |claim: Claim| output::line("  conflict: "@ + claim.path@ + " also held by "@ + claim.holder@)
}

/// What is shown for a claim.
pub open spec fn claimed_text(claim: Claim, conflicts: Seq<Claim>) -> Seq<char> {
    output::line("claimed "@ + claim.path@ + " ["@ + claim.holder@ + "]"@) + blocks(
        conflicts,
        conflict_line(),
    )
}

fn claimed(claim: &Claim, conflicts: &[Claim]) -> (r: String)
    ensures
        r@ == claimed_text(*claim, conflicts@),
{
    let mut out = "claimed ".to_owned();
    append_text(&mut out, claim.path.as_str());
    append_text(&mut out, " [");
    append_text(&mut out, claim.holder.as_str());
    append_text(&mut out, "]");
    out.push('\n');
    let ghost start = out@;
    let mut i: usize = 0;
    assert(out@ =~= start + blocks(conflicts@.take(0), conflict_line()));
    while i < conflicts.len()
        invariant
            i <= conflicts@.len(),
            out@ == start + blocks(conflicts@.take(i as int), conflict_line()),
        decreases conflicts.len() - i,
    {
        let ghost was = out@;
        append_text(&mut out, "  conflict: ");
        append_text(&mut out, conflicts[i].path.as_str());
        append_text(&mut out, " also held by ");
        append_text(&mut out, conflicts[i].holder.as_str());
        out.push('\n');
        proof {
            lemma_next_block(conflicts@, conflict_line(), i as int);
            assert(out@ =~= was + conflict_line()(conflicts@[i as int]));
            assert(out@ =~= start + blocks(conflicts@.take(i + 1), conflict_line()));
        }
        i += 1;
    }
    assert(conflicts@.take(i as int) =~= conflicts@);
    out
}

/// What is shown for the response to a claim, if it is one.
pub open spec fn claim_shown(response: Response) -> Option<Seq<char>> {
    match response {
        Response::Claimed { claim, conflicts, .. } => Some(
            claimed_text(claim, conflicts@),
        ),
        _ => None,
    }
}

/// `tack claim`: a claim was recorded.
pub fn claim(response: &Response, format: OutputFormat) -> (r: Rendered)
    ensures
        shows(r, format, *response, claim_shown(*response)),
{
    if matches!(format, OutputFormat::Json) {
        return Rendered::Json;
    }
    match response {
        Response::Claimed { claim, conflicts, .. } => Rendered::Text(
            claimed(claim, conflicts.as_slice()),
        ),
        _ => render_error(response),
    }
}

/// Whether a request releases a path.
pub open spec fn releases_path(r: Request, path: String, holder: Option<String>, env: AuthorEnv) -> bool {
    r matches Request::Release { path: p, holder: h } && p == path && h@ == holder_or_author(
        holder,
        env,
    )
}

/// The request of `tack release`.
pub fn release_request(path: String, holder: Option<String>, env: &AuthorEnv) -> (r: Request)
    ensures
        releases_path(r, path, holder, *env),
{
    Request::Release { path, holder: holder_of(holder, env) }
}

/// What is shown for the response to a release, if it is one.
pub open spec fn release_shown(response: Response) -> Option<Seq<char>> {
    match response {
        Response::Claims { claims } => Some(
            output::line("released; "@ + text::decimal_text(claims@.len()) + " claim(s) remaining"@),
        ),
        _ => None,
    }
}

/// `tack release`: a claim was released.
pub fn release(response: &Response, format: OutputFormat) -> (r: Rendered)
    ensures
        shows(r, format, *response, release_shown(*response)),
{
    if matches!(format, OutputFormat::Json) {
        return Rendered::Json;
    }
    match response {
        Response::Claims { claims } => {
            let mut out = "released; ".to_owned();
            append_decimal(&mut out, claims.len() as u64);
            append_text(&mut out, " claim(s) remaining");
            out.push('\n');
            Rendered::Text(out)
        },
        _ => render_error(response),
    }
}

// ── watch and mount ──────────────────────────────────────────────────────────

/// `tack watch` started on `dir`.
pub fn watch(dir: &str, format: OutputFormat) -> (r: Rendered)
    ensures
        shows(
            r,
            format,
            Response::Acknowledged,
            Some(output::line("watching "@ + dir@ + " (read EOF on stdin or Ctrl-C to stop)"@)),
        ),
{
    match format {
        OutputFormat::Json => Rendered::Json,
        OutputFormat::Human => {
            let mut out = "watching ".to_owned();
            append_text(&mut out, dir);
            append_text(&mut out, " (read EOF on stdin or Ctrl-C to stop)");
            out.push('\n');
            Rendered::Text(out)
        },
    }
}

/// `tack mount` projected a snapshot at `dir`.
pub fn mount(dir: &str, format: OutputFormat) -> (r: Rendered)
    ensures
        shows(
            r,
            format,
            Response::Acknowledged,
            Some(output::line("mounted "@ + dir@ + " (read EOF on stdin or Ctrl-C to unmount)"@)),
        ),
{
    match format {
        OutputFormat::Json => Rendered::Json,
        OutputFormat::Human => {
            let mut out = "mounted ".to_owned();
            append_text(&mut out, dir);
            append_text(&mut out, " (read EOF on stdin or Ctrl-C to unmount)");
            out.push('\n');
            Rendered::Text(out)
        },
    }
}

} // verus!
