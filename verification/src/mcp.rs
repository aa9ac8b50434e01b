//! The MCP (Model Context Protocol) server: which tools it offers, what it makes
//! of each JSON-RPC 2.0 message, and how it answers.
//!
//! Reading lines, parsing them, and opening the repository a tool call works on
//! are left to the caller; [`route`] says what a message asks for.
use vstd::prelude::*;
use vstd::string::*;

use crate::author;
use crate::text;
use crate::schema;
use crate::json;
use crate::encoding;
use crate::author::{author_email_from_env, author_name_from_env, AuthorEnv};
use crate::json::{add_member, add_text, parse_json, render_json, set_member, Json, JsonV, Members};
use crate::output::{text2, text3};
use crate::schema::{schema_methods, MethodInfo, MethodInfoV, ParamInfoV};
use crate::text::{chars_of, same_text, string_of, text_begins_with, trim};

verus! {

// ── small objects ────────────────────────────────────────────────────────────

/// An object with one member.
fn object1(key: &str, value: Json) -> (r: Json)
    ensures
        r@ == JsonV::Object(seq![(key@, value@)]),
{
    let mut members: Vec<(String, Json)> = Vec::new();
    add_member(&mut members, key, value);
    assert(json::members_of(members@) =~= seq![(key@, value@)]);
    Json::Object(members)
}

/// An object with two members.
fn object2(key1: &str, value1: Json, key2: &str, value2: Json) -> (r: Json)
    ensures
        r@ == JsonV::Object(seq![(key1@, value1@), (key2@, value2@)]),
{
    let mut members: Vec<(String, Json)> = Vec::new();
    add_member(&mut members, key1, value1);
    add_member(&mut members, key2, value2);
    assert(json::members_of(members@) =~= seq![(key1@, value1@), (key2@, value2@)]);
    Json::Object(members)
}

/// An object with three members.
fn object3(key1: &str, value1: Json, key2: &str, value2: Json, key3: &str, value3: Json) -> (r: Json)
    ensures
        r@ == JsonV::Object(seq![(key1@, value1@), (key2@, value2@), (key3@, value3@)]),
{
    let mut members: Vec<(String, Json)> = Vec::new();
    add_member(&mut members, key1, value1);
    add_member(&mut members, key2, value2);
    add_member(&mut members, key3, value3);
    assert(json::members_of(members@) =~= seq![(key1@, value1@), (key2@, value2@), (key3@, value3@)]);
    Json::Object(members)
}

/// An array with one item.
fn array1(item: Json) -> (r: Json)
    ensures
        r@ == JsonV::Array(seq![item@]),
{
    let mut items: Vec<Json> = Vec::new();
    proof {
        json::lemma_values_push(items@, item);
    }
    items.push(item);
    assert(json::values_of(items@) =~= seq![item@]);
    Json::Array(items)
}

// ── JSON Schema ──────────────────────────────────────────────────────────────

/// Whether `author_name` and `author_email` are filled in for a method, and are
/// thus not required of the caller.
pub open spec fn author_filled(method: Seq<char>) -> bool {
    ||| method == "named_cut"@
    ||| method == "scoped_cut"@
    ||| method == "backport"@
    ||| method == "backport_continue"@
}

/// Whether the author is filled in for a method.
fn fills_author(method: &str) -> (r: bool)
    ensures
        r == author_filled(method@),
{
    same_text(method, "named_cut") || same_text(method, "scoped_cut") || same_text(
        method,
        "backport",
    ) || same_text(method, "backport_continue")
}

/// The JSON Schema of a parameter type.
pub open spec fn type_schema(ty: Seq<char>) -> Members {
    if ty == "bool"@ {
        seq![("type"@, JsonV::Text("boolean"@))]
    } else if ty == "[string]"@ {
        seq![
            ("type"@, JsonV::Text("array"@)),
            ("items"@, JsonV::Object(seq![("type"@, JsonV::Text("string"@))])),
        ]
    } else {
        seq![("type"@, JsonV::Text("string"@))]
    }
}

/// Maps a parameter type to its JSON Schema. Required and optional strings are
/// both strings.
fn param_type_to_json_schema(ty: &str) -> (r: Vec<(String, Json)>)
    ensures
        json::members_of(r@) == type_schema(ty@),
{
    let mut members: Vec<(String, Json)> = Vec::new();
    if same_text(ty, "bool") {
        add_text(&mut members, "type", "boolean");
    } else if same_text(ty, "[string]") {
        add_text(&mut members, "type", "array");
        add_member(&mut members, "items", object1("type", Json::text("string")));
    } else {
        add_text(&mut members, "type", "string");
    }
    assert(json::members_of(members@) =~= type_schema(ty@));
    members
}

/// The JSON Schema of a parameter.
pub open spec fn param_schema(param: ParamInfoV) -> JsonV {
    JsonV::Object(
        json::with_member(type_schema(param.ty), "description"@, JsonV::Text(param.description)),
    )
}

/// The properties of a parameter list.
pub open spec fn properties_of(params: Seq<ParamInfoV>) -> Members
    decreases params.len(),
{
    if params.len() == 0 {
        seq![]
    } else {
        json::with_member(
            properties_of(params.drop_last()),
            params.last().name,
            param_schema(params.last()),
        )
    }
}

/// Whether the caller of a method has to give a parameter.
pub open spec fn asked_for(method: Seq<char>, param: ParamInfoV) -> bool {
    param.required && !(author_filled(method) && (param.name == "author_name"@ || param.name
        == "author_email"@))
}

/// The parameters that the caller of a method has to give.
pub open spec fn required_of(method: Seq<char>, params: Seq<ParamInfoV>) -> Seq<JsonV>
    decreases params.len(),
{
    if params.len() == 0 {
        seq![]
    } else if asked_for(method, params.last()) {
        required_of(method, params.drop_last()).push(JsonV::Text(params.last().name))
    } else {
        required_of(method, params.drop_last())
    }
}

/// The JSON Schema of a method's arguments.
pub open spec fn input_schema(info: MethodInfoV) -> JsonV {
    let required = required_of(info.method, info.params);
    if info.params.len() == 0 {
        JsonV::Object(
            seq![
                ("type"@, JsonV::Text("object"@)),
                ("additionalProperties"@, JsonV::Bool(false)),
            ],
        )
    } else if required.len() == 0 {
        JsonV::Object(
            seq![
                ("type"@, JsonV::Text("object"@)),
                ("properties"@, JsonV::Object(properties_of(info.params))),
                ("additionalProperties"@, JsonV::Bool(false)),
            ],
        )
    } else {
        JsonV::Object(
            seq![
                ("type"@, JsonV::Text("object"@)),
                ("properties"@, JsonV::Object(properties_of(info.params))),
                ("additionalProperties"@, JsonV::Bool(false)),
                ("required"@, JsonV::Array(required)),
            ],
        )
    }
}

/// Builds the `inputSchema` of a method.
///
/// Where the author is filled in, the author fields stay properties but are not
/// required.
#[must_use]
pub fn tool_input_schema(info: &MethodInfo) -> (r: Json)
    ensures
        r@ == input_schema(info@),
{
    let ghost all = info@.params;
    assert(all.len() == info.params@.len());
    let mut schema: Vec<(String, Json)> = Vec::new();
    add_text(&mut schema, "type", "object");
    if info.params.len() == 0 {
        add_member(&mut schema, "additionalProperties", Json::Bool(false));
        assert(json::members_of(schema@) =~= seq![
            ("type"@, JsonV::Text("object"@)),
            ("additionalProperties"@, JsonV::Bool(false)),
        ]);
        return Json::Object(schema);
    }
    let author_fill = fills_author(info.method.as_str());
    let mut properties: Vec<(String, Json)> = Vec::new();
    let mut required: Vec<Json> = Vec::new();
    let mut i: usize = 0;
    proof {
        assert(all.take(0) =~= seq![]);
        assert(json::members_of(properties@) =~= seq![]);
        assert(json::values_of(required@) =~= seq![]);
    }
    while i < info.params.len()
        invariant
            i <= info.params@.len(),
            all == encoding::views(info.params@),
            author_fill == author_filled(info.method@),
            json::members_of(properties@) == properties_of(all.take(i as int)),
            json::values_of(required@) == required_of(info.method@, all.take(i as int)),
        decreases info.params.len() - i,
    {
        let param = &info.params[i];
        proof {
            assert(all.take(i + 1).drop_last() =~= all.take(i as int));
            assert(all.take(i + 1).last() == param@);
        }
        let mut of_param = param_type_to_json_schema(param.ty.as_str());
        set_member(&mut of_param, "description", Json::text(param.description.as_str()));
        set_member(&mut properties, param.name.as_str(), Json::Object(of_param));
        let is_author_field = same_text(param.name.as_str(), "author_name") || same_text(
            param.name.as_str(),
            "author_email",
        );
        if param.required && !(author_fill && is_author_field) {
            let name = Json::text(param.name.as_str());
            proof {
                json::lemma_values_push(required@, name);
            }
            required.push(name);
        }
        i += 1;
    }
    proof {
        assert(all.take(i as int) =~= all);
        json::lemma_values_at(required@);
    }
    add_member(&mut schema, "properties", Json::Object(properties));
    add_member(&mut schema, "additionalProperties", Json::Bool(false));
    if required.len() > 0 {
        add_member(&mut schema, "required", Json::Array(required));
    }
    assert(json::members_of(schema@) =~= input_schema(info@)->Object_0);
    Json::Object(schema)
}

// ── the tools ────────────────────────────────────────────────────────────────

/// A text without the dots at its end.
pub open spec fn without_dots(s: Seq<char>) -> Seq<char>
    decreases s.len(),
{
    if s.len() > 0 && s.last() == '.' {
        without_dots(s.drop_last())
    } else {
        s
    }
}

/// A copy of `s` without the dots at its end.
fn trim_dots(s: &str) -> (r: String)
    ensures
        r@ == without_dots(s@),
{
    let chars = chars_of(s);
    let mut n: usize = chars.len();
    assert(s@.take(n as int) =~= s@);
    while n > 0 && chars[n - 1] == '.'
        invariant
            n <= chars@.len(),
            chars@ == s@,
            without_dots(s@.take(n as int)) == without_dots(s@),
        decreases n,
    {
        assert(s@.take(n as int).drop_last() =~= s@.take(n - 1));
        n -= 1;
    }
    assert(chars@.subrange(0, n as int) =~= s@.take(n as int));
    string_of(&chars, 0, n)
}

/// The tool for a method: its name is the method's with a `tack_` in front.
pub open spec fn tool_of(info: MethodInfoV) -> JsonV {
    JsonV::Object(
        seq![
            ("name"@, JsonV::Text("tack_"@ + info.method)),
            (
                "description"@,
                JsonV::Text(without_dots(info.summary) + " Returns: "@ + info.returns),
            ),
            ("inputSchema"@, input_schema(info)),
        ],
    )
}

/// The tool for a method.
fn tool(info: &MethodInfo) -> (r: Json)
    ensures
        r@ == tool_of(info@),
{
    let name = text2("tack_", info.method.as_str());
    let description = text3(
        trim_dots(info.summary.as_str()).as_str(),
        " Returns: ",
        info.returns.as_str(),
    );
    object3(
        "name",
        Json::Text(name),
        "description",
        Json::Text(description),
        "inputSchema",
        tool_input_schema(info),
    )
}

/// The tools that are offered: one for each method of the API.
pub open spec fn tool_list() -> JsonV {
    JsonV::Object(
        seq![
            (
                "tools"@,
                JsonV::Array(schema::schema().map_values(|info: MethodInfoV| tool_of(info))),
            ),
        ],
    )
}

/// Builds the `tools/list` result.
#[must_use]
pub fn tools_list() -> (r: Json)
    ensures
        r@ == tool_list(),
{
    let methods = schema_methods();
    let ghost all = schema::schema().map_values(|info: MethodInfoV| tool_of(info));
    let mut tools: Vec<Json> = Vec::new();
    let mut i: usize = 0;
    assert(json::values_of(tools@) =~= all.take(0));
    while i < methods.len()
        invariant
            i <= methods@.len(),
            encoding::views(methods@) == schema::schema(),
            all == schema::schema().map_values(|info: MethodInfoV| tool_of(info)),
            json::values_of(tools@) == all.take(i as int),
        decreases methods.len() - i,
    {
        let tool = tool(&methods[i]);
        proof {
            json::lemma_values_push(tools@, tool);
            assert(encoding::views(methods@)[i as int] == methods@[i as int]@);
            assert(tool@ == all[i as int]);
            assert(all.take(i + 1) =~= all.take(i as int).push(all[i as int]));
        }
        tools.push(tool);
        i += 1;
    }
    proof {
        assert(encoding::views(methods@).len() == methods@.len());
        assert(all.take(i as int) =~= all);
    }
    object1("tools", Json::Array(tools))
}

// ── tool calls ───────────────────────────────────────────────────────────────

/// The request object of a tool call: the arguments and the method tag.
/// Arguments that are no object count as none.
pub open spec fn request_object(method: Seq<char>, args: JsonV) -> JsonV {
    let members = match args {
        JsonV::Object(members) => members,
        _ => seq![],
    };
    JsonV::Object(json::with_member(members, "method"@, JsonV::Text(method)))
}

/// Builds the request object from a method name and the tool-call arguments.
pub fn build_request(method: &str, args: &Json) -> (r: Json)
    ensures
        r@ == request_object(method@, args@),
{
    let object = match args {
        Json::Object(_) => args.copy(),
        _ => Json::empty_object(),
    };
    match object {
        Json::Object(members) => {
            let mut members = members;
            set_member(&mut members, "method", Json::text(method));
            Json::Object(members)
        },
        _ => object,
    }
}

/// The text under a key, or nothing.
pub open spec fn text_or_empty(json: JsonV, key: Seq<char>) -> Seq<char> {
    match json::get_text(json, key) {
        Some(s) => s,
        None => seq![],
    }
}

/// The members with `text` under the key, where the text there is absent or
/// empty.
pub open spec fn filled(members: Members, key: Seq<char>, text: Seq<char>) -> Members {
    if text_or_empty(JsonV::Object(members), key).len() == 0 {
        json::with_member(members, key, JsonV::Text(text))
    } else {
        members
    }
}

/// The arguments with the author filled in, for a method that takes one. Each
/// field is filled by itself: what is given is kept. The e-mail address is that of
/// the name, given or filled in.
pub open spec fn with_author(method: Seq<char>, args: JsonV, env: AuthorEnv) -> JsonV {
    match args {
        JsonV::Object(members) if author_filled(method) => {
            let named = filled(members, "author_name"@, env.name());
            let name = text_or_empty(JsonV::Object(named), "author_name"@);
            JsonV::Object(filled(named, "author_email"@, env.email(name)))
        },
        _ => args,
    }
}

/// The text under a key, or an empty one.
fn string_or_empty(json: &Json, key: &str) -> (r: String)
    ensures
        r@ == text_or_empty(json@, key@),
{
    match json.get_str(key) {
        Some(s) => s.to_owned(),
        None => {
            let empty = String::new();
            assert(empty@ =~= seq![]);
            empty
        },
    }
}

/// Fills in the author from the environment, for methods that require one, each
/// field if it is absent or empty.
pub fn maybe_fill_author(method: &str, args: &mut Json, env: &AuthorEnv)
    ensures
        final(args)@ == with_author(method@, old(args)@, *env),
{
    if !fills_author(method) {
        return;
    }
    let given = string_or_empty(args, "author_name");
    let email = string_or_empty(args, "author_email");
    let name_missing = given.as_str().unicode_len() == 0;
    let email_missing = email.as_str().unicode_len() == 0;
    let name = if name_missing {
        author_name_from_env(env)
    } else {
        given
    };
    let address = author_email_from_env(env, name.as_str());
    proof {
        if args@ is Object && name_missing {
            lemma_name_apart(args@->Object_0, env.name());
        }
    }
    match args {
        Json::Object(members) => {
            if name_missing {
                set_member(members, "author_name", Json::Text(name));
            }
            if email_missing {
                set_member(members, "author_email", Json::Text(address));
            }
        },
        _ => {},
    }
}

/// Setting the name of the author sets it, and leaves the e-mail address.
proof fn lemma_name_apart(members: Members, name: Seq<char>)
    ensures
        ({
            let named = JsonV::Object(
                json::with_member(members, "author_name"@, JsonV::Text(name)),
            );
            &&& text_or_empty(named, "author_name"@) == name
            &&& text_or_empty(named, "author_email"@) == text_or_empty(
                JsonV::Object(members),
                "author_email"@,
            )
        }),
{
    reveal_strlit("author_name");
    reveal_strlit("author_email");
    assert("author_name"@.len() != "author_email"@.len());
    json::lemma_with_member(members, "author_name"@, JsonV::Text(name), "author_name"@);
    json::lemma_with_member(members, "author_name"@, JsonV::Text(name), "author_email"@);
}

// ── JSON-RPC ─────────────────────────────────────────────────────────────────

/// A JSON-RPC success response.
pub open spec fn ok_of(id: JsonV, result: JsonV) -> JsonV {
    JsonV::Object(
        seq![("jsonrpc"@, JsonV::Text("2.0"@)), ("id"@, id), ("result"@, result)],
    )
}

/// A JSON-RPC error response.
pub open spec fn err_of(id: JsonV, code: Seq<char>, message: Seq<char>) -> JsonV {
    JsonV::Object(
        seq![
            ("jsonrpc"@, JsonV::Text("2.0"@)),
            ("id"@, id),
            (
                "error"@,
                JsonV::Object(
                    seq![("code"@, JsonV::Number(code)), ("message"@, JsonV::Text(message))],
                ),
            ),
        ],
    )
}

/// Constructs a JSON-RPC success response.
fn rpc_ok(id: &Json, result: Json) -> (r: Json)
    ensures
        r@ == ok_of(id@, result@),
{
    object3("jsonrpc", Json::text("2.0"), "id", id.copy(), "result", result)
}

/// Constructs a JSON-RPC error response.
fn rpc_err(id: &Json, code: &str, message: &str) -> (r: Json)
    ensures
        r@ == err_of(id@, code@, message@),
{
    let error = object2("code", Json::Number(code.to_owned()), "message", Json::text(message));
    object3("jsonrpc", Json::text("2.0"), "id", id.copy(), "error", error)
}

/// The answer to a line that is no JSON: a parse error without an id.
pub fn parse_error(reason: &str) -> (r: Json)
    ensures
        r@ == err_of(JsonV::Null, "-32700"@, "parse error: "@ + reason@),
{
    rpc_err(&Json::Null, "-32700", text2("parse error: ", reason).as_str())
}

/// The content of a tool result: one text.
pub open spec fn content_of(text: Seq<char>) -> JsonV {
    JsonV::Array(
        seq![JsonV::Object(seq![("type"@, JsonV::Text("text"@)), ("text"@, JsonV::Text(text))])],
    )
}

/// The content of a tool result.
fn content(text: &str) -> (r: Json)
    ensures
        r@ == content_of(text@),
{
    array1(object2("type", Json::text("text"), "text", Json::text(text)))
}

/// The result of a tool call that failed before it was carried out. It is no
/// protocol error.
pub open spec fn failure_of(text: Seq<char>) -> JsonV {
    JsonV::Object(seq![("content"@, content_of(text)), ("isError"@, JsonV::Bool(true))])
}

/// Constructs the result of a tool call that failed.
fn tool_error(text: &str) -> (r: Json)
    ensures
        r@ == failure_of(text@),
{
    object2("content", content(text), "isError", Json::Bool(true))
}

/// Whether a response says that it is an error.
pub open spec fn says_error(response: JsonV) -> bool {
    json::get_text(response, "status"@) == Some("error"@)
}

/// The result of a tool call that was carried out: the response, as a text and as
/// it is.
pub open spec fn success_of(response: JsonV) -> JsonV {
    JsonV::Object(
        seq![
            ("content"@, content_of(json::rendered_json(response))),
            ("structuredContent"@, response),
            ("isError"@, JsonV::Bool(says_error(response))),
        ],
    )
}

/// Constructs the result of a tool call that was carried out.
fn tool_ok(response: &Json) -> (r: Json)
    ensures
        r@ == success_of(response@),
{
    let text = render_json(response);
    let is_error = match response.get_str("status") {
        Some(s) => same_text(s, "error"),
        None => false,
    };
    object3(
        "content",
        content(text.as_str()),
        "structuredContent",
        response.copy(),
        "isError",
        Json::Bool(is_error),
    )
}

/// How a tool call came out.
#[derive(Debug)]
pub enum CallOutcome {
    /// The arguments make no request, for the given reason.
    InvalidArguments(String),
    /// The current directory cannot be read.
    NoDirectory,
    /// There is no repository at the given directory.
    NoRepository(String),
    /// The request was carried out, with the given response.
    Answered(Json),
}

/// The result of a tool call.
pub open spec fn result_of(outcome: CallOutcome) -> JsonV {
    match outcome {
        CallOutcome::InvalidArguments(reason) => failure_of("invalid arguments: "@ + reason@),
        CallOutcome::NoDirectory => failure_of("failed to read current directory"@),
        CallOutcome::NoRepository(dir) => failure_of("no tack repository at "@ + dir@),
        CallOutcome::Answered(response) => success_of(response@),
    }
}

/// Answers a tool call.
pub fn answer_call(id: &Json, outcome: &CallOutcome) -> (r: Json)
    ensures
        r@ == ok_of(id@, result_of(*outcome)),
{
    let result = match outcome {
        CallOutcome::InvalidArguments(reason) => tool_error(
            text2("invalid arguments: ", reason.as_str()).as_str(),
        ),
        CallOutcome::NoDirectory => tool_error("failed to read current directory"),
        CallOutcome::NoRepository(dir) => tool_error(
            text2("no tack repository at ", dir.as_str()).as_str(),
        ),
        CallOutcome::Answered(response) => tool_ok(response),
    };
    rpc_ok(id, result)
}

// ── routing ──────────────────────────────────────────────────────────────────

/// What a message asks for.
#[derive(Debug)]
pub enum Route {
    /// Nothing is to be said.
    Silent,
    /// The message is answered.
    Reply(Json),
    /// A tool is to be called, and its result sent under the id.
    Call {
        /// The id of the message.
        id: Json,
        /// The API method.
        method: String,
        /// The arguments of the call.
        arguments: Json,
    },
}

/// What a message asks for.
pub enum RouteV {
    Silent,
    Reply(JsonV),
    Call { id: JsonV, method: Seq<char>, arguments: JsonV },
}

impl View for Route {
    type V = RouteV;

    open spec fn view(&self) -> RouteV {
        match *self {
            Route::Silent => RouteV::Silent,
            Route::Reply(json) => RouteV::Reply(json@),
            Route::Call { id, method, arguments } => RouteV::Call {
                id: id@,
                method: method@,
                arguments: arguments@,
            },
        }
    }
}

/// The protocol version that is spoken with a client that names none.
pub const DEFAULT_PROTOCOL: &'static str = "2025-11-25";

/// What a client is told about this server.
pub const INSTRUCTIONS: &'static str =
    "This repository is versioned with tack, not git. Use these tack_* tools (and never shell `git`) for version control.";

/// The parameter of a message under a key.
pub open spec fn param_of(msg: JsonV, key: Seq<char>) -> Option<JsonV> {
    match json::get(msg, "params"@) {
        Some(params) => json::get(params, key),
        None => None,
    }
}

/// The text parameter of a message under a key, or nothing.
pub open spec fn text_param(msg: JsonV, key: Seq<char>) -> Seq<char> {
    match param_of(msg, key) {
        Some(JsonV::Text(s)) => s,
        _ => seq![],
    }
}

/// The result of the handshake: the client's protocol version is taken over.
pub open spec fn handshake(msg: JsonV, version: Seq<char>) -> JsonV {
    let wanted = text_param(msg, "protocolVersion"@);
    let protocol = if wanted.len() == 0 {
        DEFAULT_PROTOCOL@
    } else {
        wanted
    };
    JsonV::Object(
        seq![
            ("protocolVersion"@, JsonV::Text(protocol)),
            ("capabilities"@, JsonV::Object(seq![("tools"@, JsonV::Object(seq![]))])),
            (
                "serverInfo"@,
                JsonV::Object(
                    seq![("name"@, JsonV::Text("tack"@)), ("version"@, JsonV::Text(version))],
                ),
            ),
            ("instructions"@, JsonV::Text(INSTRUCTIONS@)),
        ],
    )
}

/// Whether the API has a method of the name.
pub open spec fn offers(method: Seq<char>) -> bool {
    exists|i: int|
        0 <= i < schema::schema().len() && (#[trigger] schema::schema()[i]).method == method
}

/// What a tool call asks for.
pub open spec fn called(msg: JsonV, id: JsonV) -> RouteV {
    let name = text_param(msg, "name"@);
    let method = name.skip("tack_"@.len() as int);
    if text::begins_with(name, "tack_"@) && offers(method) {
        RouteV::Call {
            id,
            method,
            arguments: match param_of(msg, "arguments"@) {
                Some(arguments) => arguments,
                None => JsonV::Object(seq![]),
            },
        }
    } else {
        RouteV::Reply(err_of(id, "-32602"@, "Unknown tool: "@ + name))
    }
}

/// What a message asks for. Messages without an id are notifications, and are
/// never answered.
pub open spec fn routed(msg: JsonV, version: Seq<char>) -> RouteV {
    match (json::get(msg, "id"@), json::get_text(msg, "method"@)) {
        (None, _) => RouteV::Silent,
        (Some(id), None) => RouteV::Reply(
            err_of(id, "-32600"@, "invalid request: missing method"@),
        ),
        (Some(id), Some(method)) => if method == "initialize"@ {
            RouteV::Reply(ok_of(id, handshake(msg, version)))
        } else if method == "ping"@ {
            RouteV::Reply(ok_of(id, JsonV::Object(seq![])))
        } else if method == "tools/list"@ {
            RouteV::Reply(ok_of(id, tool_list()))
        } else if method == "tools/call"@ {
            called(msg, id)
        } else if text::begins_with(method, "notifications/"@) {
            RouteV::Silent
        } else {
            RouteV::Reply(err_of(id, "-32601"@, "Method not found: "@ + method))
        },
    }
}

/// The parameter of a message under a key.
fn param<'a>(msg: &'a Json, key: &str) -> (r: Option<&'a Json>)
    ensures
        match r {
            Some(value) => param_of(msg@, key@) == Some(value@),
            None => param_of(msg@, key@) is None,
        },
{
    match msg.get("params") {
        Some(params) => params.get(key),
        None => None,
    }
}

/// The text parameter of a message under a key, or an empty text.
fn string_param(msg: &Json, key: &str) -> (r: String)
    ensures
        r@ == text_param(msg@, key@),
{
    let empty = String::new();
    assert(empty@ =~= seq![]);
    match param(msg, key) {
        Some(value) => match value.as_str() {
            Some(s) => s.to_owned(),
            None => empty,
        },
        None => empty,
    }
}

/// The result of the handshake.
fn initialize(msg: &Json, version: &str) -> (r: Json)
    ensures
        r@ == handshake(msg@, version@),
{
    let wanted = string_param(msg, "protocolVersion");
    let protocol = if wanted.as_str().unicode_len() == 0 {
        DEFAULT_PROTOCOL.to_owned()
    } else {
        wanted
    };
    let mut members: Vec<(String, Json)> = Vec::new();
    add_member(&mut members, "protocolVersion", Json::Text(protocol));
    add_member(&mut members, "capabilities", object1("tools", Json::empty_object()));
    add_member(
        &mut members,
        "serverInfo",
        object2("name", Json::text("tack"), "version", Json::text(version)),
    );
    add_text(&mut members, "instructions", INSTRUCTIONS);
    assert(json::members_of(members@) =~= handshake(msg@, version@)->Object_0);
    Json::Object(members)
}

/// Whether the API has a method of the name.
fn is_offered(method: &str) -> (r: bool)
    ensures
        r == offers(method@),
{
    let methods = schema_methods();
    assert(encoding::views(methods@).len() == methods@.len());
    let mut i: usize = 0;
    while i < methods.len()
        invariant
            i <= methods@.len(),
            methods@.len() == schema::schema().len(),
            encoding::views(methods@) == schema::schema(),
            forall|k: int| 0 <= k < i ==> (#[trigger] schema::schema()[k]).method != method@,
        decreases methods.len() - i,
    {
        assert(encoding::views(methods@)[i as int] == methods@[i as int]@);
        if same_text(methods[i].method.as_str(), method) {
            assert(schema::schema()[i as int].method == method@);
            return true;
        }
        i += 1;
    }
    false
}

/// Routes a `tools/call` message.
fn handle_tool_call(msg: &Json, id: &Json) -> (r: Route)
    ensures
        r@ == called(msg@, id@),
{
    let name = string_param(msg, "name");
    if text_begins_with(name.as_str(), "tack_") {
        let chars = chars_of(name.as_str());
        proof {
            reveal_strlit("tack_");
        }
        let method = string_of(&chars, 5, chars.len());
        assert(method@ =~= name@.skip("tack_"@.len() as int));
        if is_offered(method.as_str()) {
            let arguments = match param(msg, "arguments") {
                Some(arguments) => arguments.copy(),
                None => Json::empty_object(),
            };
            return Route::Call { id: id.copy(), method, arguments };
        }
    }
    Route::Reply(rpc_err(id, "-32602", text2("Unknown tool: ", name.as_str()).as_str()))
}

/// Routes one parsed message.
///
/// `version` is the version of this program.
pub fn route(msg: &Json, version: &str) -> (r: Route)
    ensures
        r@ == routed(msg@, version@),
{
    let id = match msg.get("id") {
        Some(id) => id,
        None => {
            return Route::Silent;
        },
    };
    let method = match msg.get_str("method") {
        Some(method) => method,
        None => {
            return Route::Reply(rpc_err(id, "-32600", "invalid request: missing method"));
        },
    };
    if same_text(method, "initialize") {
        Route::Reply(rpc_ok(id, initialize(msg, version)))
    } else if same_text(method, "ping") {
        Route::Reply(rpc_ok(id, Json::empty_object()))
    } else if same_text(method, "tools/list") {
        Route::Reply(rpc_ok(id, tools_list()))
    } else if same_text(method, "tools/call") {
        handle_tool_call(msg, id)
    } else if text_begins_with(method, "notifications/") {
        Route::Silent
    } else {
        Route::Reply(rpc_err(id, "-32601", text2("Method not found: ", method).as_str()))
    }
}

/// What a line of input asks for: nothing if it is blank.
pub open spec fn routed_line(line: Seq<char>, version: Seq<char>) -> RouteV {
    let message = text::trimmed(line);
    if message.len() == 0 {
        RouteV::Silent
    } else {
        match json::parsed_json(message) {
            Ok(msg) => routed(msg, version),
            Err(reason) => RouteV::Reply(
                err_of(JsonV::Null, "-32700"@, "parse error: "@ + reason),
            ),
        }
    }
}

/// Routes one line of input. Blank lines are skipped, and a line that is no JSON
/// is answered with a parse error.
pub fn route_line(line: &str, version: &str) -> (r: Route)
    ensures
        r@ == routed_line(line@, version@),
{
    let message = trim(line);
    if message.as_str().unicode_len() == 0 {
        return Route::Silent;
    }
    match parse_json(message.as_str()) {
        Ok(msg) => route(&msg, version),
        Err(reason) => Route::Reply(parse_error(reason.as_str())),
    }
}

// ── laws ─────────────────────────────────────────────────────────────────────

/// A notification is never answered, whatever it says.
pub proof fn lemma_notifications_are_silent(msg: JsonV, version: Seq<char>)
    requires
        json::get(msg, "id"@) is None,
    ensures
        routed(msg, version) is Silent,
{
}

/// A message with an id is answered under that id, or is a tool call to be
/// answered under it; only what calls itself a notification stays unanswered.
pub proof fn lemma_requests_are_answered(msg: JsonV, version: Seq<char>)
    requires
        json::get(msg, "id"@) is Some,
        json::get_text(msg, "method"@) matches Some(method) ==> !text::begins_with(
            method,
            "notifications/"@,
        ),
    ensures
        match routed(msg, version) {
            RouteV::Silent => false,
            RouteV::Reply(reply) => json::get(reply, "id"@) == json::get(msg, "id"@),
            RouteV::Call { id, .. } => Some(id) == json::get(msg, "id"@),
        },
{
    reveal_strlit("jsonrpc");
    reveal_strlit("id");
    assert("jsonrpc"@[0] != "id"@[0]);
    let id = json::get(msg, "id"@)->Some_0;
    if routed(msg, version) is Reply {
        let reply = routed(msg, version)->Reply_0;
        let members = reply->Object_0;
        assert(members[0].0 == "jsonrpc"@);
        assert(members.skip(1)[0] == ("id"@, id));
        reveal_with_fuel(json::member, 3);
    }
}

/// Every tool that is listed can be called: calling it by its name leads to its
/// method.
pub proof fn lemma_listed_tools_can_be_called(i: int, msg: JsonV, id: JsonV)
    requires
        0 <= i < schema::schema().len(),
        text_param(msg, "name"@) == "tack_"@ + schema::schema()[i].method,
    ensures
        called(msg, id) matches RouteV::Call { method, .. } && method
            == schema::schema()[i].method,
{
    let method = schema::schema()[i].method;
    let name = "tack_"@ + method;
    assert(name.skip("tack_"@.len() as int) =~= method);
    assert(name.subrange(0, "tack_"@.len() as int) =~= "tack_"@);
    assert(offers(method));
}

/// Tool names are made of lower-case letters, digits and underscores, and no two
/// tools have one name.
pub proof fn lemma_tool_names(i: int, j: int)
    requires
        0 <= i < schema::schema().len(),
        0 <= j < schema::schema().len(),
    ensures
        schema::is_snake_case("tack_"@ + schema::schema()[i].method),
        i != j ==> "tack_"@ + schema::schema()[i].method != "tack_"@ + schema::schema()[j].method,
{
    let a = schema::schema()[i].method;
    let b = schema::schema()[j].method;
    reveal_strlit("tack_");
    schema::lemma_schema_well_formed(i);
    let name = "tack_"@ + a;
    assert forall|k: int| 0 <= k < name.len() implies 'a' <= #[trigger] name[k] <= 'z' || '0'
        <= name[k] <= '9' || name[k] == '_' by {
        if k >= 5 {
            assert(name[k] == a[k - 5]);
        }
    }
    if i < j {
        schema::lemma_method_names_distinct(i, j);
    } else if j < i {
        schema::lemma_method_names_distinct(j, i);
    }
    if "tack_"@ + a == "tack_"@ + b {
        assert(a =~= ("tack_"@ + a).skip(5));
        assert(b =~= ("tack_"@ + b).skip(5));
    }
}

/// A request holds the method and the arguments as they are: under `method` the
/// method, whatever the arguments say there, and under any other key what the
/// arguments have.
pub proof fn lemma_request_keeps_arguments(method: Seq<char>, args: JsonV, key: Seq<char>)
    ensures
        json::get(request_object(method, args), key) == (if key == "method"@ {
            Some(JsonV::Text(method))
        } else {
            json::get(args, key)
        }),
{
    let members = match args {
        JsonV::Object(members) => members,
        _ => seq![],
    };
    json::lemma_with_member(members, "method"@, JsonV::Text(method), key);
}

/// A `method` among the arguments has no influence on the request.
pub proof fn lemma_method_argument_is_ignored(method: Seq<char>, members: Members, value: JsonV)
    ensures
        request_object(method, JsonV::Object(json::with_member(members, "method"@, value)))
            == request_object(method, JsonV::Object(members)),
{
    json::lemma_with_member_twice(members, "method"@, value, JsonV::Text(method));
}

/// Filling in the author twice is filling it in once: nothing is left to fill
/// in. What was given stays.
pub proof fn lemma_author_is_filled(method: Seq<char>, args: JsonV, env: AuthorEnv)
    ensures
        with_author(method, with_author(method, args, env), env) == with_author(method, args, env),
        args is Object && author_filled(method) ==> text_or_empty(
            with_author(method, args, env),
            "author_name"@,
        ).len() > 0 && text_or_empty(with_author(method, args, env), "author_email"@).len() > 0,
        text_or_empty(args, "author_name"@).len() > 0 ==> text_or_empty(
            with_author(method, args, env),
            "author_name"@,
        ) == text_or_empty(args, "author_name"@),
        text_or_empty(args, "author_email"@).len() > 0 ==> text_or_empty(
            with_author(method, args, env),
            "author_email"@,
        ) == text_or_empty(args, "author_email"@),
{
    if args is Object && author_filled(method) {
        let members = args->Object_0;
        let named = filled(members, "author_name"@, env.name());
        let name = text_or_empty(JsonV::Object(named), "author_name"@);
        let email = JsonV::Text(env.email(name));
        author::lemma_author_is_named(env, env.name());
        author::lemma_author_is_named(env, name);
        lemma_name_apart(members, env.name());
        reveal_strlit("author_name");
        reveal_strlit("author_email");
        assert("author_name"@.len() != "author_email"@.len());
        json::lemma_with_member(named, "author_email"@, email, "author_name"@);
        json::lemma_with_member(named, "author_email"@, email, "author_email"@);
    }
}

/// The value under two keys, one inside the other.
pub open spec fn inside(json: JsonV, outer: Seq<char>, inner: Seq<char>) -> Option<JsonV> {
    match json::get(json, outer) {
        Some(value) => json::get(value, inner),
        None => None,
    }
}

/// What an answer holds: the protocol, the id of the message, and either a result
/// or an error with its code and its message.
pub proof fn law_answer(id: JsonV, result: JsonV, code: Seq<char>, message: Seq<char>)
    ensures
        ({
            let ok = ok_of(id, result);
            let err = err_of(id, code, message);
            &&& json::get_text(ok, "jsonrpc"@) == Some("2.0"@)
            &&& json::get_text(err, "jsonrpc"@) == Some("2.0"@)
            &&& json::get(ok, "id"@) == Some(id)
            &&& json::get(err, "id"@) == Some(id)
            &&& json::get(ok, "result"@) == Some(result)
            &&& json::get(ok, "error"@) is None
            &&& json::get(err, "result"@) is None
            &&& inside(err, "error"@, "code"@) == Some(JsonV::Number(code))
            &&& inside(err, "error"@, "message"@) == Some(JsonV::Text(message))
        }),
{
    reveal_strlit("jsonrpc");
    reveal_strlit("id");
    reveal_strlit("result");
    reveal_strlit("error");
    reveal_strlit("code");
    reveal_strlit("message");
    assert("jsonrpc"@.len() == 7 && "id"@.len() == 2 && "result"@.len() == 6 && "error"@.len() == 5
        && "code"@.len() == 4 && "message"@.len() == 7);
    let ok = ok_of(id, result)->Object_0;
    let err = err_of(id, code, message)->Object_0;
    json::law_member(ok, "jsonrpc"@);
    json::law_member(ok, "id"@);
    json::law_member(ok, "result"@);
    json::law_member(ok, "error"@);
    json::law_member(err, "jsonrpc"@);
    json::law_member(err, "id"@);
    json::law_member(err, "result"@);
    json::law_member(err, "error"@);
    assert(json::first_at(ok, "jsonrpc"@, 0));
    assert(json::first_at(ok, "id"@, 1));
    assert(json::first_at(ok, "result"@, 2));
    assert(json::first_at(err, "jsonrpc"@, 0));
    assert(json::first_at(err, "id"@, 1));
    assert(json::first_at(err, "error"@, 2));
    let error = err[2].1->Object_0;
    json::law_member(error, "code"@);
    json::law_member(error, "message"@);
    assert(json::first_at(error, "code"@, 0));
    assert(json::first_at(error, "message"@, 1));
}

/// Whether a route is an answer with an error of the code and the message, under the
/// id.
pub open spec fn refuses(route: RouteV, id: JsonV, code: Seq<char>, message: Seq<char>) -> bool {
    route matches RouteV::Reply(reply) && json::get(reply, "id"@) == Some(id) && inside(
        reply,
        "error"@,
        "code"@,
    ) == Some(JsonV::Number(code)) && inside(reply, "error"@, "message"@) == Some(
        JsonV::Text(message),
    ) && json::get(reply, "result"@) is None
}

/// Whether a route is an answer with a result, under the id.
pub open spec fn grants(route: RouteV, id: JsonV, result: JsonV) -> bool {
    route matches RouteV::Reply(reply) && json::get(reply, "id"@) == Some(id) && json::get(
        reply,
        "result"@,
    ) == Some(result) && json::get(reply, "error"@) is None
}

proof fn lemma_method_names()
    ensures
        "initialize"@.len() == 10 && "ping"@.len() == 4 && "tools/list"@.len() == 10
            && "tools/call"@.len() == 10 && "notifications/"@.len() == 14,
        "initialize"@[0] == 'i',
        "tools/list"@[0] == 't',
        "tools/call"@[0] == 't',
        "tools/list"@[6] == 'l',
        "tools/call"@[6] == 'c',
{
    reveal_strlit("initialize");
    reveal_strlit("ping");
    reveal_strlit("tools/list");
    reveal_strlit("tools/call");
    reveal_strlit("notifications/");
}

/// A message without a method is refused, and so is one whose method is none of the
/// four that are known and no notification.
pub proof fn law_unknown_messages(msg: JsonV, id: JsonV, version: Seq<char>)
    requires
        json::get(msg, "id"@) == Some(id),
    ensures
        json::get_text(msg, "method"@) is None ==> refuses(
            routed(msg, version),
            id,
            "-32600"@,
            "invalid request: missing method"@,
        ),
        json::get_text(msg, "method"@) matches Some(method) ==> method != "initialize"@ && method
            != "ping"@ && method != "tools/list"@ && method != "tools/call"@
            && !text::begins_with(method, "notifications/"@) ==> refuses(
            routed(msg, version),
            id,
            "-32601"@,
            "Method not found: "@ + method,
        ),
        json::get_text(msg, "method"@) matches Some(method) ==> (exists|rest: Seq<char>|
            method == #[trigger] ("notifications/"@ + rest)) ==> routed(msg, version) is Silent,
{
    law_answer(id, JsonV::Null, "-32600"@, "invalid request: missing method"@);
    if let Some(method) = json::get_text(msg, "method"@) {
        law_answer(id, JsonV::Null, "-32601"@, "Method not found: "@ + method);
        if exists|rest: Seq<char>| method == #[trigger] ("notifications/"@ + rest) {
            let rest = choose|rest: Seq<char>| method == #[trigger] ("notifications/"@ + rest);
            lemma_method_names();
            assert(method.len() >= 14);
            assert(text::begins_with(method, "notifications/"@)) by {
                assert(method.subrange(0, 14) =~= "notifications/"@);
            }
        }
    }
}

/// `ping` is answered with an empty object.
pub proof fn law_ping(msg: JsonV, id: JsonV, version: Seq<char>)
    requires
        json::get(msg, "id"@) == Some(id),
        json::get_text(msg, "method"@) == Some("ping"@),
    ensures
        grants(routed(msg, version), id, JsonV::Object(seq![])),
{
    lemma_method_names();
    law_answer(id, JsonV::Object(seq![]), ""@, ""@);
}

/// The handshake is answered with the protocol version that the client names, or with
/// the default where it names none; with the name and the version of this program; and
/// with the word that there are tools.
pub proof fn law_initialize(msg: JsonV, id: JsonV, version: Seq<char>)
    requires
        json::get(msg, "id"@) == Some(id),
        json::get_text(msg, "method"@) == Some("initialize"@),
    ensures
        ({
            let result = handshake(msg, version);
            &&& grants(routed(msg, version), id, result)
            &&& inside(msg, "params"@, "protocolVersion"@) matches Some(JsonV::Text(s)) ==> s.len()
                > 0 ==> json::get_text(result, "protocolVersion"@) == Some(s)
            &&& inside(msg, "params"@, "protocolVersion"@) is None ==> json::get_text(
                result,
                "protocolVersion"@,
            ) == Some("2025-11-25"@)
            &&& inside(result, "capabilities"@, "tools"@) is Some
            &&& inside(result, "serverInfo"@, "name"@) == Some(JsonV::Text("tack"@))
            &&& inside(result, "serverInfo"@, "version"@) == Some(JsonV::Text(version))
            &&& json::get_text(result, "instructions"@) == Some(INSTRUCTIONS@)
        }),
{
    lemma_method_names();
    let result = handshake(msg, version);
    law_answer(id, result, ""@, ""@);
    reveal_strlit("protocolVersion");
    reveal_strlit("capabilities");
    reveal_strlit("serverInfo");
    reveal_strlit("instructions");
    reveal_strlit("name");
    reveal_strlit("version");
    assert("protocolVersion"@.len() == 15 && "capabilities"@.len() == 12 && "serverInfo"@.len()
        == 10 && "instructions"@.len() == 12 && "name"@.len() == 4 && "version"@.len() == 7);
    assert("capabilities"@[0] == 'c' && "instructions"@[0] == 'i');
    let members = result->Object_0;
    json::law_member(members, "protocolVersion"@);
    json::law_member(members, "capabilities"@);
    json::law_member(members, "serverInfo"@);
    json::law_member(members, "instructions"@);
    assert(json::first_at(members, "protocolVersion"@, 0));
    assert(json::first_at(members, "capabilities"@, 1));
    assert(json::first_at(members, "serverInfo"@, 2));
    assert(json::first_at(members, "instructions"@, 3));
    let able = members[1].1->Object_0;
    json::law_member(able, "tools"@);
    assert(json::first_at(able, "tools"@, 0));
    let server = members[2].1->Object_0;
    json::law_member(server, "name"@);
    json::law_member(server, "version"@);
    assert(json::first_at(server, "name"@, 0));
    assert(json::first_at(server, "version"@, 1));
}

/// The list of tools has one tool for each method of the API, in that order: its name
/// is the method's behind `tack_`, its description ends with what the method returns,
/// and its input schema is that of the method.
pub proof fn law_tools_list(msg: JsonV, id: JsonV, version: Seq<char>)
    requires
        json::get(msg, "id"@) == Some(id),
        json::get_text(msg, "method"@) == Some("tools/list"@),
    ensures
        ({
            let methods = schema::schema();
            &&& grants(routed(msg, version), id, tool_list())
            &&& json::get(tool_list(), "tools"@) matches Some(JsonV::Array(tools)) && tools.len()
                == methods.len() && forall|i: int|
                0 <= i < methods.len() ==> json::get_text(#[trigger] tools[i], "name"@) == Some(
                    "tack_"@ + methods[i].method,
                ) && json::get_text(tools[i], "description"@) == Some(
                    without_dots(methods[i].summary) + " Returns: "@ + methods[i].returns,
                ) && json::get(tools[i], "inputSchema"@) == Some(input_schema(methods[i]))
        }),
{
    lemma_method_names();
    law_answer(id, tool_list(), ""@, ""@);
    let methods = schema::schema();
    let members = tool_list()->Object_0;
    json::law_member(members, "tools"@);
    assert(json::first_at(members, "tools"@, 0));
    let tools = members[0].1->Array_0;
    reveal_strlit("name");
    reveal_strlit("description");
    reveal_strlit("inputSchema");
    assert("name"@.len() == 4 && "description"@.len() == 11 && "inputSchema"@.len() == 11);
    assert("description"@[0] == 'd' && "inputSchema"@[0] == 'i');
    assert forall|i: int| 0 <= i < methods.len() implies json::get_text(
        #[trigger] tools[i],
        "name"@,
    ) == Some("tack_"@ + methods[i].method) && json::get_text(tools[i], "description"@) == Some(
        without_dots(methods[i].summary) + " Returns: "@ + methods[i].returns,
    ) && json::get(tools[i], "inputSchema"@) == Some(input_schema(methods[i])) by {
        let tool = tools[i]->Object_0;
        json::law_member(tool, "name"@);
        json::law_member(tool, "description"@);
        json::law_member(tool, "inputSchema"@);
        assert(json::first_at(tool, "name"@, 0));
        assert(json::first_at(tool, "description"@, 1));
        assert(json::first_at(tool, "inputSchema"@, 2));
    }
}

/// The dots at the end of a text are left away, all of them, and nothing else.
pub proof fn law_without_dots(s: Seq<char>)
    ensures
        without_dots(s).len() <= s.len(),
        s.take(without_dots(s).len() as int) == without_dots(s),
        forall|k: int| without_dots(s).len() <= k < s.len() ==> #[trigger] s[k] == '.',
        without_dots(s).len() > 0 ==> without_dots(s).last() != '.',
    decreases s.len(),
{
    if s.len() > 0 && s.last() == '.' {
        law_without_dots(s.drop_last());
        assert(s.take(without_dots(s).len() as int) =~= s.drop_last().take(
            without_dots(s).len() as int,
        ));
        assert forall|k: int| without_dots(s).len() <= k < s.len() implies #[trigger] s[k] == '.' by {
            if k < s.len() - 1 {
                assert(s.drop_last()[k] == s[k]);
            }
        }
    } else {
        assert(s.take(s.len() as int) =~= s);
    }
}

/// A call of `tack_` and a method of the API goes to that method, with the arguments
/// of the call or with none; any other name is refused.
pub proof fn law_tools_call(msg: JsonV, id: JsonV, version: Seq<char>, name: Seq<char>)
    requires
        json::get(msg, "id"@) == Some(id),
        json::get_text(msg, "method"@) == Some("tools/call"@),
        inside(msg, "params"@, "name"@) == Some(JsonV::Text(name)),
    ensures
        forall|i: int|
            0 <= i < schema::schema().len() && name == "tack_"@ + (
            #[trigger] schema::schema()[i]).method ==> (routed(msg, version) matches RouteV::Call {
                id: asked,
                method,
                arguments,
            } && asked == id && method == schema::schema()[i].method && arguments == (
            match inside(msg, "params"@, "arguments"@) {
                Some(given) => given,
                None => JsonV::Object(seq![]),
            })),
        (forall|i: int|
            0 <= i < schema::schema().len() ==> name != "tack_"@ + (
            #[trigger] schema::schema()[i]).method) ==> refuses(
            routed(msg, version),
            id,
            "-32602"@,
            "Unknown tool: "@ + name,
        ),
{
    lemma_method_names();
    law_answer(id, JsonV::Null, "-32602"@, "Unknown tool: "@ + name);
    reveal_strlit("tack_");
    assert(text_param(msg, "name"@) == name);
    assert forall|i: int|
        0 <= i < schema::schema().len() && name == "tack_"@ + (
        #[trigger] schema::schema()[i]).method implies (called(msg, id) matches RouteV::Call {
        method,
        ..
    } && method == schema::schema()[i].method) by {
        lemma_listed_tools_can_be_called(i, msg, id);
    }
    if text::begins_with(name, "tack_"@) && offers(name.skip(5)) {
        let i = choose|i: int|
            0 <= i < schema::schema().len() && (#[trigger] schema::schema()[i]).method
                == name.skip(5);
        assert(name =~= "tack_"@ + name.skip(5));
        assert(name == "tack_"@ + schema::schema()[i].method);
    }
}

/// The result of a call that was carried out holds the response as it is and as a text,
/// and says whether the response is an error; that of a call that was not carried out
/// says that it failed, and why.
pub proof fn law_call_result(response: Json, reason: String)
    ensures
        ({
            let done = result_of(CallOutcome::Answered(response));
            &&& json::get(done, "structuredContent"@) == Some(response@)
            &&& json::get(done, "content"@) == Some(content_of(json::rendered_json(response@)))
            &&& json::get(done, "isError"@) == Some(
                JsonV::Bool(json::get(response@, "status"@) == Some(JsonV::Text("error"@))),
            )
        }),
        ({
            let failed = result_of(CallOutcome::InvalidArguments(reason));
            &&& json::get(failed, "content"@) == Some(content_of("invalid arguments: "@ + reason@))
            &&& json::get(failed, "isError"@) == Some(JsonV::Bool(true))
        }),
        ({
            let failed = result_of(CallOutcome::NoRepository(reason));
            &&& json::get(failed, "content"@) == Some(
                content_of("no tack repository at "@ + reason@),
            )
            &&& json::get(failed, "isError"@) == Some(JsonV::Bool(true))
        }),
        ({
            let failed = result_of(CallOutcome::NoDirectory);
            &&& json::get(failed, "content"@) == Some(
                content_of("failed to read current directory"@),
            )
            &&& json::get(failed, "isError"@) == Some(JsonV::Bool(true))
        }),
{
    reveal_strlit("content");
    reveal_strlit("isError");
    reveal_strlit("structuredContent");
    assert("content"@.len() == 7 && "isError"@.len() == 7 && "structuredContent"@.len() == 17);
    assert("content"@[0] == 'c' && "isError"@[0] == 'i');
    let done = success_of(response@)->Object_0;
    json::law_member(done, "content"@);
    json::law_member(done, "structuredContent"@);
    json::law_member(done, "isError"@);
    assert(json::first_at(done, "content"@, 0));
    assert(json::first_at(done, "structuredContent"@, 1));
    assert(json::first_at(done, "isError"@, 2));
    lemma_failure("invalid arguments: "@ + reason@);
    lemma_failure("no tack repository at "@ + reason@);
    lemma_failure("failed to read current directory"@);
}

proof fn lemma_failure(text: Seq<char>)
    ensures
        json::get(failure_of(text), "content"@) == Some(content_of(text)),
        json::get(failure_of(text), "isError"@) == Some(JsonV::Bool(true)),
{
    reveal_strlit("content");
    reveal_strlit("isError");
    assert("content"@[0] == 'c' && "isError"@[0] == 'i');
    let members = failure_of(text)->Object_0;
    json::law_member(members, "content"@);
    json::law_member(members, "isError"@);
    assert(json::first_at(members, "content"@, 0));
    assert(json::first_at(members, "isError"@, 1));
}

/// The content of a result is one item, a text.
pub proof fn law_content(text: Seq<char>)
    ensures
        content_of(text) matches JsonV::Array(items) && items.len() == 1 && json::get_text(
            items[0],
            "type"@,
        ) == Some("text"@) && json::get_text(items[0], "text"@) == Some(text),
{
    reveal_strlit("type");
    reveal_strlit("text");
    assert("type"@[1] == 'y' && "text"@[1] == 'e');
    let members = content_of(text)->Array_0[0]->Object_0;
    json::law_member(members, "type"@);
    json::law_member(members, "text"@);
    assert(json::first_at(members, "type"@, 0));
    assert(json::first_at(members, "text"@, 1));
}

/// A line of white space is no message; any other is the message that its text, without
/// the white space around it, stands for, or is refused.
pub proof fn law_lines(before: Seq<char>, message: Seq<char>, after: Seq<char>, version: Seq<char>)
    requires
        text::all_white(before),
        text::all_white(after),
        message.len() > 0 ==> !text::white(message[0]) && !text::white(message.last()),
    ensures
        message.len() == 0 ==> routed_line(before + message + after, version) is Silent,
        message.len() > 0 ==> match json::parsed_json(message) {
            Ok(msg) => routed_line(before + message + after, version) == routed(msg, version),
            Err(reason) => refuses(
                routed_line(before + message + after, version),
                JsonV::Null,
                "-32700"@,
                "parse error: "@ + reason,
            ),
        },
{
    let line = before + message + after;
    text::lemma_trimmed_is(before, message, after);
    if let Err(reason) = json::parsed_json(message) {
        law_answer(JsonV::Null, JsonV::Null, "-32700"@, "parse error: "@ + reason);
    }
}

/// The author of a cut or a backport is filled in where the caller left it away: the
/// name from the environment, the address from the environment and the name, given or
/// filled in. What the caller gave stays, and so does everything else; for the other
/// methods nothing is filled in.
pub proof fn law_author_filled(method: Seq<char>, members: Members, env: AuthorEnv, key: Seq<char>)
    ensures
        ({
            let args = JsonV::Object(members);
            let r = with_author(method, args, env);
            let given = json::get_text(args, "author_name"@);
            let name = if given is Some && given->Some_0.len() > 0 {
                given->Some_0
            } else {
                env.name()
            };
            let address = json::get_text(args, "author_email"@);
            &&& method == "named_cut"@ || method == "scoped_cut"@ || method == "backport"@ || method
                == "backport_continue"@ ==> json::get_text(r, "author_name"@) == Some(name)
                && json::get_text(r, "author_email"@) == (if address is Some
                && address->Some_0.len() > 0 {
                address
            } else {
                Some(env.email(name))
            })
            &&& method != "named_cut"@ && method != "scoped_cut"@ && method != "backport"@ && method
                != "backport_continue"@ ==> r == args
            &&& key != "author_name"@ && key != "author_email"@ ==> json::get(r, key) == json::get(
                args,
                key,
            )
        }),
{
    if author_filled(method) {
        let named = filled(members, "author_name"@, env.name());
        let name = text_or_empty(JsonV::Object(named), "author_name"@);
        let email = JsonV::Text(env.email(name));
        author::lemma_author_is_named(env, env.name());
        author::lemma_author_is_named(env, name);
        lemma_name_apart(members, env.name());
        reveal_strlit("author_name");
        reveal_strlit("author_email");
        assert("author_name"@.len() != "author_email"@.len());
        json::lemma_with_member(members, "author_name"@, JsonV::Text(env.name()), key);
        json::lemma_with_member(named, "author_email"@, email, "author_name"@);
        json::lemma_with_member(named, "author_email"@, email, "author_email"@);
        json::lemma_with_member(named, "author_email"@, email, key);
    }
}

/// The schema of a method's arguments: an object without other properties; each
/// parameter with its description and its type; and as required, in their order, the
/// parameters that the method requires, without the author where it is filled in.
pub proof fn law_input_schema(info: MethodInfoV)
    ensures
        ({
            let s = input_schema(info);
            let required = required_of(info.method, info.params);
            &&& json::get_text(s, "type"@) == Some("object"@)
            &&& json::get(s, "additionalProperties"@) == Some(JsonV::Bool(false))
            &&& info.params.len() > 0 ==> json::get(s, "properties"@) == Some(
                JsonV::Object(properties_of(info.params)),
            )
            &&& info.params.len() == 0 ==> json::get(s, "properties"@) is None
            &&& required.len() > 0 ==> json::get(s, "required"@) == Some(JsonV::Array(required))
            &&& required.len() == 0 ==> json::get(s, "required"@) is None
        }),
{
    reveal_strlit("type");
    reveal_strlit("additionalProperties");
    reveal_strlit("properties");
    reveal_strlit("required");
    assert("type"@.len() == 4 && "additionalProperties"@.len() == 20 && "properties"@.len() == 10
        && "required"@.len() == 8);
    let members = input_schema(info)->Object_0;
    json::law_member(members, "type"@);
    json::law_member(members, "additionalProperties"@);
    json::law_member(members, "properties"@);
    json::law_member(members, "required"@);
    assert(json::first_at(members, "type"@, 0));
    if info.params.len() == 0 {
        assert(json::first_at(members, "additionalProperties"@, 1));
    } else {
        assert(json::first_at(members, "properties"@, 1));
        assert(json::first_at(members, "additionalProperties"@, 2));
        if required_of(info.method, info.params).len() > 0 {
            assert(json::first_at(members, "required"@, 3));
        }
    }
}

/// A required parameter is asked for, unless it is the author and is filled in; an
/// optional one is not. One parameter more is asked for behind the others, if at all.
pub proof fn law_required(method: Seq<char>, params: Seq<ParamInfoV>, p: ParamInfoV)
    ensures
        ({
            let before = required_of(method, params);
            let after = required_of(method, params.push(p));
            let fills = method == "named_cut"@ || method == "scoped_cut"@ || method == "backport"@
                || method == "backport_continue"@;
            let author = p.name == "author_name"@ || p.name == "author_email"@;
            &&& !p.required ==> after == before
            &&& p.required && fills && author ==> after == before
            &&& p.required && !(fills && author) ==> after == before.push(JsonV::Text(p.name))
            &&& required_of(method, Seq::empty()).len() == 0
        }),
{
    assert(params.push(p).drop_last() =~= params);
}

/// A parameter's property holds its description, and the type that stands for the
/// parameter's: a boolean, a list of strings, or a string.
pub proof fn law_property(p: ParamInfoV)
    ensures
        ({
            let s = param_schema(p);
            &&& json::get_text(s, "description"@) == Some(p.description)
            &&& p.ty == "bool"@ ==> json::get_text(s, "type"@) == Some("boolean"@)
            &&& p.ty == "[string]"@ ==> json::get_text(s, "type"@) == Some("array"@) && inside(
                s,
                "items"@,
                "type"@,
            ) == Some(JsonV::Text("string"@))
            &&& p.ty != "bool"@ && p.ty != "[string]"@ ==> json::get_text(s, "type"@) == Some(
                "string"@,
            ) && json::get(s, "items"@) is None
        }),
{
    reveal_strlit("type");
    reveal_strlit("items");
    reveal_strlit("description");
    reveal_strlit("bool");
    reveal_strlit("[string]");
    assert("bool"@.len() == 4 && "[string]"@.len() == 8);
    assert("type"@.len() == 4 && "items"@.len() == 5 && "description"@.len() == 11);
    let members = type_schema(p.ty);
    let text = JsonV::Text(p.description);
    json::lemma_with_member(members, "description"@, text, "description"@);
    json::lemma_with_member(members, "description"@, text, "type"@);
    json::lemma_with_member(members, "description"@, text, "items"@);
    json::law_member(members, "type"@);
    json::law_member(members, "items"@);
    assert(json::first_at(members, "type"@, 0));
    if p.ty == "[string]"@ {
        assert(json::first_at(members, "items"@, 1));
        let inner = members[1].1->Object_0;
        json::law_member(inner, "type"@);
        assert(json::first_at(inner, "type"@, 0));
    }
}

/// Every parameter has its property, under its name; a name that no parameter has stands
/// for none.
pub proof fn law_properties(params: Seq<ParamInfoV>, name: Seq<char>)
    ensures
        forall|i: int|
            0 <= i < params.len() && params[i].name == name && (forall|k: int|
                i < k < params.len() ==> (#[trigger] params[k]).name != name) ==> json::member(
                properties_of(params),
                name,
            ) == Some(param_schema(#[trigger] params[i])),
        (forall|k: int| 0 <= k < params.len() ==> (#[trigger] params[k]).name != name)
            ==> json::member(properties_of(params), name) is None,
    decreases params.len(),
{
    if params.len() > 0 {
        let before = params.drop_last();
        law_properties(before, name);
        json::lemma_with_member(
            properties_of(before),
            params.last().name,
            param_schema(params.last()),
            name,
        );
        assert forall|i: int|
            0 <= i < params.len() && params[i].name == name && (forall|k: int|
                i < k < params.len() ==> (#[trigger] params[k]).name != name) implies json::member(
            properties_of(params),
            name,
        ) == Some(param_schema(#[trigger] params[i])) by {
            if i < params.len() - 1 {
                assert(params[params.len() - 1].name != name);
                assert(before[i] == params[i]);
                assert forall|k: int| i < k < before.len() implies (#[trigger] before[k]).name
                    != name by {
                    assert(params[k].name != name);
                }
            }
        }
        if forall|k: int| 0 <= k < params.len() ==> (#[trigger] params[k]).name != name {
            assert(params[params.len() - 1].name != name);
            assert forall|k: int| 0 <= k < before.len() implies (#[trigger] before[k]).name
                != name by {
                assert(params[k].name != name);
            }
        }
    }
}

} // verus!
