//! The same engine, spoken as an MCP stdio server.
//!
//! This is the seam that makes the app usable from an **agent** and from a
//! **workflow** without Core knowing anything about it. The manifest declares the
//! server under `mcp_servers`, Core spawns it like any other MCP process, and the
//! tools appear as `reasoning__solve`, `reasoning__check`, … — which is exactly the
//! `<server>__<tool>` id a workflow's `mcp` node takes.
//!
//! Two of the four tools are **deterministic and offline** (`solve`, `analyze`):
//! they take formulas already written in the policy language, so a workflow can gate
//! a branch on a proof without spending a model call. `check` accepts prose and
//! therefore needs the host model callback; when this process was not spawned with
//! one it says so rather than returning an empty result that reads like a pass.
//!
//! Framing is newline-delimited JSON-RPC 2.0, protocol `2024-11-05`. This module reads
//! the lines and decides what is answered; reading and writing them is the caller's.

use vstd::prelude::*;

use crate::json;
use crate::json::{
    list_value, object1, object2, object3, parse_json, pretty_json, text_value, write_json, Json,
    JsonV,
};
use crate::text;
use crate::text::{blank, cat2, cat3, same, trim};
use crate::translate;
use crate::translate::{as_extracted, Extraction, ExtractionV};

verus! {

/// The protocol that is spoken.
pub const PROTOCOL_VERSION: &'static str = "2024-11-05";

/// The name of the server.
pub const SERVER_NAME: &'static str = "ryu-reasoning";

/// The version of the server.
pub const SERVER_VERSION: &'static str = "0.1.0";

/// What `solve` is for.
pub const SOLVE_TEXT: &'static str = "Decide claims against a saved reasoning policy WITHOUT calling a model. Claims and premises are formulas in the policy language (for example `is_manager and tenure_months >= 12 -> vacation_days <= 30`). Returns a verdict per claim — valid (the policy proves it), invalid (the policy contradicts it, with a counterexample), satisfiable (the policy does not settle it), impossible (the policy and premises conflict), or too_complex — plus the minimal set of rules responsible. Deterministic: same inputs, same answer.";

/// What `check` is for.
pub const CHECK_TEXT: &'static str = "Check a natural-language answer against a saved reasoning policy. Translates the question into premises and the answer into claims, then decides each claim with the solver. Use this when you have prose; use `solve` when you already have formulas. Requires a model callback on this node.";

/// What `policies` is for.
pub const POLICIES_TEXT: &'static str = "List the saved reasoning policies with their declared variables and rules. Call this first to learn a policy's vocabulary before writing formulas for `solve`.";

/// What `analyze` is for.
pub const ANALYZE_TEXT: &'static str = "Interrogate a policy itself: are its rules mutually consistent, is any rule already implied by the others, and are any declared variables unused. Run this after editing rules — an inconsistent policy makes every check `impossible`.";

/// Why `check` is refused without a model.
pub const NO_MODEL: &'static str = "this process has no model callback, so prose cannot be translated — use `solve` with formulas in the policy language instead";

// ── Tool descriptors ────────────────────────────────────────────────────────────

/// The schema of a text.
pub open spec fn text_schema() -> JsonV {
    JsonV::Object(seq![("type"@, JsonV::Text("string"@))])
}

/// The schema of a text that is explained.
pub open spec fn described_schema(description: Seq<char>) -> JsonV {
    JsonV::Object(
        seq![("description"@, JsonV::Text(description)), ("type"@, JsonV::Text("string"@))],
    )
}

/// The schema of a list of texts that is explained.
pub open spec fn texts_schema(description: Seq<char>) -> JsonV {
    JsonV::Object(
        seq![
            ("description"@, JsonV::Text(description)),
            ("items"@, text_schema()),
            ("type"@, JsonV::Text("array"@)),
        ],
    )
}

/// The descriptor of a tool.
pub open spec fn descriptor(name: Seq<char>, description: Seq<char>, schema: JsonV) -> JsonV {
    JsonV::Object(
        seq![
            ("description"@, JsonV::Text(description)),
            ("inputSchema"@, schema),
            ("name"@, JsonV::Text(name)),
        ],
    )
}

/// The schema of arguments, some of which are required.
pub open spec fn arguments_schema(
    properties: Seq<(Seq<char>, JsonV)>,
    required: Seq<JsonV>,
) -> JsonV {
    JsonV::Object(
        seq![
            ("properties"@, JsonV::Object(properties)),
            ("required"@, JsonV::List(required)),
            ("type"@, JsonV::Text("object"@)),
        ],
    )
}

/// The schema where there are no arguments.
pub open spec fn no_arguments_schema() -> JsonV {
    JsonV::Object(
        seq![
            ("properties"@, JsonV::Object(Seq::empty())),
            ("type"@, JsonV::Text("object"@)),
        ],
    )
}

/// The descriptor of `solve`.
pub open spec fn solve_descriptor() -> JsonV {
    descriptor(
        "solve"@,
        SOLVE_TEXT@,
        arguments_schema(
            seq![
                (
                    "claims"@,
                    texts_schema("The assertions to decide, as policy-language formulas."@),
                ),
                ("policy_id"@, described_schema("Which saved policy to check against."@)),
                (
                    "premises"@,
                    texts_schema("Facts taken as given, as policy-language formulas."@),
                ),
            ],
            seq![JsonV::Text("policy_id"@), JsonV::Text("claims"@)],
        ),
    )
}

/// The descriptor of `check`.
pub open spec fn check_descriptor() -> JsonV {
    descriptor(
        "check"@,
        CHECK_TEXT@,
        arguments_schema(
            seq![
                ("answer"@, described_schema("The answer to check."@)),
                ("policy_id"@, text_schema()),
                ("question"@, described_schema("What was asked. Supplies the premises."@)),
            ],
            seq![JsonV::Text("policy_id"@), JsonV::Text("answer"@)],
        ),
    )
}

/// The descriptor of `policies`.
pub open spec fn policies_descriptor() -> JsonV {
    descriptor("policies"@, POLICIES_TEXT@, no_arguments_schema())
}

/// The descriptor of `analyze`.
pub open spec fn analyze_descriptor() -> JsonV {
    descriptor(
        "analyze"@,
        ANALYZE_TEXT@,
        arguments_schema(
            seq![("policy_id"@, text_schema())],
            seq![JsonV::Text("policy_id"@)],
        ),
    )
}

/// The descriptors of the tools.
pub open spec fn descriptors() -> Seq<JsonV> {
    seq![solve_descriptor(), check_descriptor(), policies_descriptor(), analyze_descriptor()]
}

fn schema_of_text() -> (r: Json)
    ensures
        r@ == text_schema(),
{
    object1("type", text_value("string"))
}

fn schema_described(description: &str) -> (r: Json)
    ensures
        r@ == described_schema(description@),
{
    object2("description", text_value(description), "type", text_value("string"))
}

fn schema_of_texts(description: &str) -> (r: Json)
    ensures
        r@ == texts_schema(description@),
{
    object3(
        "description",
        text_value(description),
        "items",
        schema_of_text(),
        "type",
        text_value("array"),
    )
}

fn describe(name: &str, description: &str, schema: Json) -> (r: Json)
    ensures
        r@ == descriptor(name@, description@, schema@),
{
    object3(
        "description",
        text_value(description),
        "inputSchema",
        schema,
        "name",
        text_value(name),
    )
}

fn schema_of_arguments(properties: Json, required: Vec<Json>) -> (r: Json)
    requires
        properties@ is Object,
    ensures
        r@ == arguments_schema(properties@->Object_0, json::item_views(required@)),
{
    object3(
        "properties",
        properties,
        "required",
        list_value(required),
        "type",
        text_value("object"),
    )
}

fn describe_solve() -> (r: Json)
    ensures
        r@ == solve_descriptor(),
{
    let properties = object3(
        "claims",
        schema_of_texts("The assertions to decide, as policy-language formulas."),
        "policy_id",
        schema_described("Which saved policy to check against."),
        "premises",
        schema_of_texts("Facts taken as given, as policy-language formulas."),
    );
    let required: Vec<Json> = vec![text_value("policy_id"), text_value("claims")];
    assert(json::item_views(required@) =~= seq![
        JsonV::Text("policy_id"@),
        JsonV::Text("claims"@),
    ]);
    describe("solve", SOLVE_TEXT, schema_of_arguments(properties, required))
}

fn describe_check() -> (r: Json)
    ensures
        r@ == check_descriptor(),
{
    let properties = object3(
        "answer",
        schema_described("The answer to check."),
        "policy_id",
        schema_of_text(),
        "question",
        schema_described("What was asked. Supplies the premises."),
    );
    let required: Vec<Json> = vec![text_value("policy_id"), text_value("answer")];
    assert(json::item_views(required@) =~= seq![
        JsonV::Text("policy_id"@),
        JsonV::Text("answer"@),
    ]);
    describe("check", CHECK_TEXT, schema_of_arguments(properties, required))
}

fn describe_analyze() -> (r: Json)
    ensures
        r@ == analyze_descriptor(),
{
    let properties = object1("policy_id", schema_of_text());
    let required: Vec<Json> = vec![text_value("policy_id")];
    assert(json::item_views(required@) =~= seq![JsonV::Text("policy_id"@)]);
    describe("analyze", ANALYZE_TEXT, schema_of_arguments(properties, required))
}

fn empty_object() -> (r: Json)
    ensures
        r@ == JsonV::Object(Seq::empty()),
{
    let members: Vec<(String, Json)> = Vec::new();
    proof {
        json::lemma_object_view(members);
        assert(json::member_views(members@) =~= Seq::empty());
    }
    Json::Object(members)
}

/// Tool descriptors, in the shape `tools/list` returns.
pub fn tool_list() -> (r: Json)
    ensures
        r@ == JsonV::List(descriptors()),
{
    let policies = describe(
        "policies",
        POLICIES_TEXT,
        object2("properties", empty_object(), "type", text_value("object")),
    );
    let tools: Vec<Json> = vec![describe_solve(), describe_check(), policies, describe_analyze()];
    assert(json::item_views(tools@) =~= descriptors());
    list_value(tools)
}

/// Every tool says what it is for and takes an object.
pub proof fn lemma_tools_described(i: int)
    requires
        0 <= i < descriptors().len(),
    ensures
        json::text_member(descriptors()[i], "name"@) is Some,
        json::text_member(descriptors()[i], "description"@) is Some,
        json::member(descriptors()[i], "inputSchema"@) matches Some(schema) && json::text_member(
            schema,
            "type"@,
        ) == Some("object"@),
{
    reveal_strlit("description");
    reveal_strlit("inputSchema");
    reveal_strlit("name");
    reveal_strlit("properties");
    reveal_strlit("required");
    reveal_strlit("type");
    assert("description"@.len() != "inputSchema"@.len() || "description"@[0] != "inputSchema"@[0]);
    assert("description"@.len() != "name"@.len());
    assert("inputSchema"@.len() != "name"@.len());
    assert("properties"@.len() != "type"@.len());
    assert("required"@.len() != "type"@.len());
    reveal_with_fuel(json::place_from, 4);
}

// ── Frames ──────────────────────────────────────────────────────────────────────

/// What is done about a frame.
#[derive(Debug)]
pub enum Reply {
    /// Nothing: it cannot be parsed, or it carries no id to answer on.
    Nothing,
    /// A result is sent.
    Result { id: Json, result: Json },
    /// A tool is called, and what comes of it is sent.
    Call { id: Json, name: String, arguments: Json },
    /// The method does not exist.
    Unknown { id: Json, method: String },
}

/// What is done about a frame, by its contents.
#[verifier::ext_equal]
pub enum ReplyV {
    Nothing,
    Result { id: JsonV, result: JsonV },
    Call { id: JsonV, name: Seq<char>, arguments: JsonV },
    Unknown { id: JsonV, method: Seq<char> },
}

impl View for Reply {
    type V = ReplyV;

    open spec fn view(&self) -> ReplyV {
        match self {
            Reply::Nothing => ReplyV::Nothing,
            Reply::Result { id, result } => ReplyV::Result { id: id@, result: result@ },
            Reply::Call { id, name, arguments } => ReplyV::Call {
                id: id@,
                name: name@,
                arguments: arguments@,
            },
            Reply::Unknown { id, method } => ReplyV::Unknown { id: id@, method: method@ },
        }
    }
}

/// What the server says of itself.
pub open spec fn introduction() -> JsonV {
    JsonV::Object(
        seq![
            (
                "capabilities"@,
                JsonV::Object(seq![("tools"@, JsonV::Object(Seq::empty()))]),
            ),
            ("protocolVersion"@, JsonV::Text(PROTOCOL_VERSION@)),
            (
                "serverInfo"@,
                JsonV::Object(
                    seq![
                        ("name"@, JsonV::Text(SERVER_NAME@)),
                        ("version"@, JsonV::Text(SERVER_VERSION@)),
                    ],
                ),
            ),
        ],
    )
}

/// A member, or an empty object where there is none.
pub open spec fn member_or_empty(j: JsonV, name: Seq<char>) -> JsonV {
    match json::member(j, name) {
        Some(v) => v,
        None => JsonV::Object(Seq::empty()),
    }
}

/// A text member, or an empty text where there is none.
pub open spec fn text_or_empty(j: JsonV, name: Seq<char>) -> Seq<char> {
    match json::text_member(j, name) {
        Some(s) => s,
        None => Seq::empty(),
    }
}

/// What is done about a frame. Notifications carry no id and take no response.
pub open spec fn routed(frame: JsonV) -> ReplyV {
    let method = text_or_empty(frame, "method"@);
    match json::member(frame, "id"@) {
        None => ReplyV::Nothing,
        Some(id) => if method == "initialize"@ {
            ReplyV::Result { id, result: introduction() }
        } else if method == "ping"@ {
            ReplyV::Result { id, result: JsonV::Object(Seq::empty()) }
        } else if method == "tools/list"@ {
            ReplyV::Result {
                id,
                result: JsonV::Object(seq![("tools"@, JsonV::List(descriptors()))]),
            }
        } else if method == "tools/call"@ {
            let params = member_or_empty(frame, "params"@);
            ReplyV::Call {
                id,
                name: text_or_empty(params, "name"@),
                arguments: member_or_empty(params, "arguments"@),
            }
        } else {
            ReplyV::Unknown { id, method }
        },
    }
}

fn copy_member_or_empty(j: &Json, name: &str) -> (r: Json)
    ensures
        r@ == member_or_empty(j@, name@),
{
    match j.get(name) {
        Some(v) => v.clone(),
        None => empty_object(),
    }
}

fn copy_text_or_empty(j: &Json, name: &str) -> (r: String)
    ensures
        r@ == text_or_empty(j@, name@),
{
    match j.text(name) {
        Some(s) => s.clone(),
        None => String::new(),
    }
}

fn introduce() -> (r: Json)
    ensures
        r@ == introduction(),
{
    object3(
        "capabilities",
        object1("tools", empty_object()),
        "protocolVersion",
        text_value(PROTOCOL_VERSION),
        "serverInfo",
        object2("name", text_value(SERVER_NAME), "version", text_value(SERVER_VERSION)),
    )
}

/// Decide what is done about a frame.
pub fn route(frame: &Json) -> (r: Reply)
    ensures
        r@ == routed(frame@),
{
    let method = copy_text_or_empty(frame, "method");
    let id = match frame.get("id") {
        Some(id) => id.clone(),
        None => {
            return Reply::Nothing;
        },
    };
    let m = method.as_str();
    if same(m, "initialize") {
        Reply::Result { id, result: introduce() }
    } else if same(m, "ping") {
        Reply::Result { id, result: empty_object() }
    } else if same(m, "tools/list") {
        Reply::Result { id, result: object1("tools", tool_list()) }
    } else if same(m, "tools/call") {
        let params = copy_member_or_empty(frame, "params");
        Reply::Call {
            id,
            name: copy_text_or_empty(&params, "name"),
            arguments: copy_member_or_empty(&params, "arguments"),
        }
    } else {
        Reply::Unknown { id, method }
    }
}

/// What is done about a line.
pub open spec fn line_reply(line: Seq<char>) -> ReplyV {
    let body = text::trimmed(line);
    if body.len() == 0 {
        ReplyV::Nothing
    } else {
        match json::json_reading(body) {
            Some(frame) => routed(frame),
            None => ReplyV::Nothing,
        }
    }
}

/// Decide what is done about a line. Empty lines are passed over, and a frame that cannot
/// be parsed has no id to answer on.
pub fn read_line(line: &str) -> (r: Reply)
    ensures
        r@ == line_reply(line@),
{
    if blank(line) {
        return Reply::Nothing;
    }
    let body = trim(line);
    match parse_json(body.as_str()) {
        Some(frame) => route(&frame),
        None => Reply::Nothing,
    }
}

/// The frame of a result.
pub open spec fn result_frame(id: JsonV, result: JsonV) -> JsonV {
    JsonV::Object(seq![("id"@, id), ("jsonrpc"@, JsonV::Text("2.0"@)), ("result"@, result)])
}

/// The frame of an unknown method.
pub open spec fn error_frame(id: JsonV, method: Seq<char>) -> JsonV {
    JsonV::Object(
        seq![
            (
                "error"@,
                JsonV::Object(
                    seq![
                        ("code"@, JsonV::Number("-32601"@)),
                        ("message"@, JsonV::Text("unknown method '"@ + method + "'"@)),
                    ],
                ),
            ),
            ("id"@, id),
            ("jsonrpc"@, JsonV::Text("2.0"@)),
        ],
    )
}

/// The line that sends a result.
pub fn result_line(id: Json, result: Json) -> (r: String)
    ensures
        r@ == json::written(result_frame(id@, result@)) + "\n"@,
{
    let frame = object3("id", id, "jsonrpc", text_value("2.0"), "result", result);
    let body = write_json(&frame);
    cat2(body.as_str(), "\n")
}

/// The line that reports an unknown method.
pub fn unknown_method_line(id: Json, method: &str) -> (r: String)
    ensures
        r@ == json::written(error_frame(id@, method@)) + "\n"@,
{
    let message = cat3("unknown method '", method, "'");
    let code = Json::Number("-32601".to_owned());
    let frame = object3(
        "error",
        object2("code", code, "message", text_value(message.as_str())),
        "id",
        id,
        "jsonrpc",
        text_value("2.0"),
    );
    let body = write_json(&frame);
    cat2(body.as_str(), "\n")
}

// ── Tool calls ──────────────────────────────────────────────────────────────────

/// A JSON text laid out, or as it is where that fails.
pub open spec fn laid_out(s: Seq<char>) -> Seq<char> {
    match json::json_pretty(s) {
        Some(t) => t,
        None => s,
    }
}

/// The output of a tool as a content block.
pub open spec fn content(s: Seq<char>, is_error: bool) -> JsonV {
    JsonV::Object(
        seq![
            (
                "content"@,
                JsonV::List(
                    seq![
                        JsonV::Object(
                            seq![("text"@, JsonV::Text(s)), ("type"@, JsonV::Text("text"@))],
                        ),
                    ],
                ),
            ),
            ("isError"@, JsonV::Bool(is_error)),
        ],
    )
}

/// The content block that holds a text.
pub fn text_content(s: &str, is_error: bool) -> (r: Json)
    ensures
        r@ == content(s@, is_error),
{
    let block = object2("text", text_value(s), "type", text_value("text"));
    let blocks: Vec<Json> = vec![block];
    assert(json::item_views(blocks@) =~= seq![
        JsonV::Object(seq![("text"@, JsonV::Text(s@)), ("type"@, JsonV::Text("text"@))]),
    ]);
    object2("content", list_value(blocks), "isError", Json::Bool(is_error))
}

/// MCP returns tool output as content blocks; JSON goes in a text block so a client
/// that only renders text still shows something readable.
pub fn tool_result(value: &str, is_error: bool) -> (r: Json)
    ensures
        r@ == content(laid_out(value@), is_error),
{
    match pretty_json(value) {
        Some(t) => text_content(t.as_str(), is_error),
        None => text_content(value, is_error),
    }
}

/// A tool's error as JSON.
pub open spec fn failure(message: Seq<char>) -> JsonV {
    JsonV::Object(seq![("error"@, JsonV::Text(message))])
}

/// The output of a tool that failed.
pub fn tool_error(message: &str) -> (r: Json)
    ensures
        r@ == content(laid_out(json::written(failure(message@))), true),
{
    let value = object1("error", text_value(message));
    let body = write_json(&value);
    tool_result(body.as_str(), true)
}

/// What a tool call asks for, with the policy that it is about.
#[derive(Debug, PartialEq, Eq)]
pub enum ToolCall {
    Policies,
    Analyze { policy_id: String },
    Solve { policy_id: String },
    Check { policy_id: String },
}

/// What a tool call asks for, by its contents.
#[verifier::ext_equal]
pub enum ToolCallV {
    Policies,
    Analyze { policy_id: Seq<char> },
    Solve { policy_id: Seq<char> },
    Check { policy_id: Seq<char> },
}

impl View for ToolCall {
    type V = ToolCallV;

    open spec fn view(&self) -> ToolCallV {
        match self {
            ToolCall::Policies => ToolCallV::Policies,
            ToolCall::Analyze { policy_id } => ToolCallV::Analyze { policy_id: policy_id@ },
            ToolCall::Solve { policy_id } => ToolCallV::Solve { policy_id: policy_id@ },
            ToolCall::Check { policy_id } => ToolCallV::Check { policy_id: policy_id@ },
        }
    }
}

/// What a call of a tool asks for, or why it is refused. `solve` and `analyze` need no
/// model.
pub open spec fn planned(name: Seq<char>, args: JsonV, model: bool) -> Result<
    ToolCallV,
    Seq<char>,
> {
    if name == "policies"@ {
        Ok(ToolCallV::Policies)
    } else if name == "check"@ && !model {
        Err(NO_MODEL@)
    } else if name == "analyze"@ || name == "solve"@ || name == "check"@ {
        match json::text_member(args, "policy_id"@) {
            None => Err("policy_id is required"@),
            Some(policy_id) => if name == "analyze"@ {
                Ok(ToolCallV::Analyze { policy_id })
            } else if name == "solve"@ {
                Ok(ToolCallV::Solve { policy_id })
            } else {
                Ok(ToolCallV::Check { policy_id })
            },
        }
    } else {
        Err("unknown tool '"@ + name + "'"@)
    }
}

/// The text of a refusal.
pub open spec fn plan_view(r: Result<ToolCall, String>) -> Result<ToolCallV, Seq<char>> {
    match r {
        Ok(c) => Ok(c@),
        Err(e) => Err(e@),
    }
}

/// Decide what a call of a tool asks for.
pub fn plan(name: &str, args: &Json, model: bool) -> (r: Result<ToolCall, String>)
    ensures
        plan_view(r) == planned(name@, args@, model),
{
    if same(name, "policies") {
        return Ok(ToolCall::Policies);
    }
    let check = same(name, "check");
    if check && !model {
        return Err(NO_MODEL.to_owned());
    }
    let analyze = same(name, "analyze");
    let solve = same(name, "solve");
    if !(check || analyze || solve) {
        return Err(cat3("unknown tool '", name, "'"));
    }
    match args.text("policy_id") {
        None => Err("policy_id is required".to_owned()),
        Some(id) => if analyze {
            Ok(ToolCall::Analyze { policy_id: id.clone() })
        } else if solve {
            Ok(ToolCall::Solve { policy_id: id.clone() })
        } else {
            Ok(ToolCall::Check { policy_id: id.clone() })
        },
    }
}

/// `solve` and `analyze` are reachable without a model: what they are asked for does not
/// depend on one.
pub proof fn lemma_offline_tools(name: Seq<char>, args: JsonV)
    requires
        name == "solve"@ || name == "analyze"@,
    ensures
        planned(name, args, false) == planned(name, args, true),
        json::text_member(args, "policy_id"@) is Some ==> planned(name, args, false) is Ok,
{
    reveal_strlit("check");
    reveal_strlit("solve");
    reveal_strlit("analyze");
    assert("check"@[0] != "solve"@[0]);
    assert("check"@.len() != "analyze"@.len());
}

/// Why a call is refused that names a policy which does not exist.
pub fn missing_policy(id: &str) -> (r: String)
    ensures
        r@ == "no policy with the id '"@ + id@ + "' — call `policies` to list them"@,
{
    cat3("no policy with the id '", id, "' — call `policies` to list them")
}

/// The formulas that `solve` is given.
pub open spec fn solve_extraction(args: JsonV) -> ExtractionV {
    ExtractionV {
        premises: translate::formulas(json::only_texts(json::list_member(args, "premises"@))),
        claims: translate::formulas(json::only_texts(json::list_member(args, "claims"@))),
        notes: Seq::empty(),
    }
}

/// The formulas that `solve` is given: the entries of `premises` and `claims` that are
/// texts. At least one claim is needed.
pub fn solve_arguments(args: &Json) -> (r: Result<Extraction, String>)
    ensures
        match r {
            Ok(x) => x@ == solve_extraction(args@) && x@.claims.len() > 0,
            Err(e) => solve_extraction(args@).claims.len() == 0 && e@
                == "`claims` must contain at least one formula"@,
        },
{
    let premises = args.texts("premises");
    let claims = args.texts("claims");
    if claims.len() == 0 {
        return Err("`claims` must contain at least one formula".to_owned());
    }
    let notes: Vec<String> = Vec::new();
    assert(text::texts(notes@) =~= Seq::empty());
    Ok(Extraction { premises: as_extracted(&premises), claims: as_extracted(&claims), notes })
}

/// The question and the answer that `check` is given. The answer is needed.
pub fn check_arguments(args: &Json) -> (r: Result<(String, String), String>)
    ensures
        match r {
            Ok((question, answer)) => {
                &&& question@ == text_or_empty(args@, "question"@)
                &&& json::text_member(args@, "answer"@) == Some(answer@)
            },
            Err(e) => json::text_member(args@, "answer"@) is None && e@ == "answer is required"@,
        },
{
    match args.text("answer") {
        Some(answer) => Ok((copy_text_or_empty(args, "question"), answer.clone())),
        None => Err("answer is required".to_owned()),
    }
}

proof fn lemma_names_differ()
    ensures
        "id"@ != "jsonrpc"@,
        "id"@ != "result"@,
        "id"@ != "error"@,
        "jsonrpc"@ != "result"@,
        "jsonrpc"@ != "error"@,
        "result"@ != "error"@,
        "code"@ != "message"@,
        "content"@ != "isError"@,
        "text"@ != "type"@,
{
    reveal_strlit("id");
    reveal_strlit("jsonrpc");
    reveal_strlit("result");
    reveal_strlit("error");
    reveal_strlit("code");
    reveal_strlit("message");
    reveal_strlit("content");
    reveal_strlit("isError");
    reveal_strlit("text");
    reveal_strlit("type");
    assert("id"@.len() == 2 && "jsonrpc"@.len() == 7 && "result"@.len() == 6);
    assert("error"@.len() == 5 && "code"@.len() == 4 && "message"@.len() == 7);
    assert("content"@[0] == 'c' && "isError"@[0] == 'i');
    assert("text"@[1] == 'e' && "type"@[1] == 'y');
}

/// A frame is answered exactly if it carries an id, and the answer carries the same.
pub proof fn lemma_answered(frame: JsonV)
    ensures
        match routed(frame) {
            ReplyV::Nothing => json::member(frame, "id"@) is None,
            ReplyV::Result { id, .. } => json::member(frame, "id"@) == Some(id),
            ReplyV::Call { id, .. } => json::member(frame, "id"@) == Some(id),
            ReplyV::Unknown { id, .. } => json::member(frame, "id"@) == Some(id),
        },
{
}

/// What a frame asks for is what its method names: a call of a tool by its name and with
/// its arguments, the tools, the server, a sign of life, or something unknown.
pub proof fn lemma_asked_for(frame: JsonV, method: Seq<char>)
    requires
        json::member(frame, "id"@) is Some,
        json::text_member(frame, "method"@) == Some(method),
    ensures
        routed(frame) is Call <==> method == "tools/call"@,
        routed(frame) is Result <==> method == "initialize"@ || method == "ping"@ || method
            == "tools/list"@,
        routed(frame) matches ReplyV::Unknown { method: m, .. } ==> m == method,
        routed(frame) matches ReplyV::Call { name, arguments, .. } ==> (json::member(
            frame,
            "params"@,
        ) matches Some(params) ==> {
            &&& json::text_member(params, "name"@) matches Some(n) ==> name == n
            &&& json::member(params, "arguments"@) matches Some(a) ==> arguments == a
        }),
        method == "tools/list"@ ==> (routed(frame) matches ReplyV::Result { result, .. }
            && json::list_member(result, "tools"@) == descriptors()),
{
    reveal_strlit("initialize");
    reveal_strlit("ping");
    reveal_strlit("tools/list");
    reveal_strlit("tools/call");
    assert("initialize"@[0] == 'i' && "ping"@[0] == 'p');
    assert("tools/list"@[6] == 'l' && "tools/call"@[6] == 'c');
    assert("tools/list"@[0] == 't' && "tools/call"@[0] == 't');
    reveal_with_fuel(json::place_from, 2);
}

/// What is sent back carries the id that was asked on, the protocol, and either the result
/// or, under an error, the code of an unknown method and its name.
pub proof fn lemma_frames(id: JsonV, result: JsonV, method: Seq<char>)
    ensures
        json::member(result_frame(id, result), "id"@) == Some(id),
        json::member(result_frame(id, result), "result"@) == Some(result),
        json::member(result_frame(id, result), "error"@) is None,
        json::text_member(result_frame(id, result), "jsonrpc"@) == Some("2.0"@),
        json::member(error_frame(id, method), "id"@) == Some(id),
        json::member(error_frame(id, method), "result"@) is None,
        json::text_member(error_frame(id, method), "jsonrpc"@) == Some("2.0"@),
        json::member(error_frame(id, method), "error"@) matches Some(e) && json::member(e, "code"@)
            == Some(JsonV::Number("-32601"@)) && json::text_member(e, "message"@) == Some(
            "unknown method '"@ + method + "'"@,
        ),
{
    lemma_names_differ();
    reveal_with_fuel(json::place_from, 4);
}

/// The output of a tool is one block of text, marked as an error or not.
pub proof fn lemma_content(s: Seq<char>, is_error: bool)
    ensures
        json::member(content(s, is_error), "isError"@) == Some(JsonV::Bool(is_error)),
        json::list_member(content(s, is_error), "content"@).len() == 1,
        json::text_member(json::list_member(content(s, is_error), "content"@)[0], "text"@) == Some(
            s,
        ),
        json::text_member(json::list_member(content(s, is_error), "content"@)[0], "type"@) == Some(
            "text"@,
        ),
{
    lemma_names_differ();
    reveal_with_fuel(json::place_from, 3);
}

/// The tools that can be called are those that are listed: a call of a listed tool with all
/// that it needs is accepted, for the policy that it names; and a tool that is not listed is
/// refused.
pub proof fn lemma_tools_callable(i: int, name: Seq<char>, args: JsonV)
    ensures
        0 <= i < descriptors().len() && json::text_member(descriptors()[i], "name"@) == Some(name)
            && json::text_member(args, "policy_id"@) is Some ==> (planned(name, args, true)
            matches Ok(call) && match call {
            ToolCallV::Policies => i == 2,
            ToolCallV::Analyze { policy_id } => i == 3 && json::text_member(args, "policy_id"@)
                == Some(policy_id),
            ToolCallV::Solve { policy_id } => i == 0 && json::text_member(args, "policy_id"@)
                == Some(policy_id),
            ToolCallV::Check { policy_id } => i == 1 && json::text_member(args, "policy_id"@)
                == Some(policy_id),
        }),
        (forall|k: int|
            0 <= k < descriptors().len() ==> json::text_member(#[trigger] descriptors()[k], "name"@)
                != Some(name)) ==> planned(name, args, true) is Err && planned(name, args, false)
            is Err,
        json::text_member(args, "policy_id"@) is None && name != "policies"@ ==> planned(
            name,
            args,
            true,
        ) is Err,
        planned("check"@, args, false) is Err,
{
    reveal_strlit("description");
    reveal_strlit("inputSchema");
    reveal_strlit("name");
    reveal_strlit("policies");
    reveal_strlit("check");
    reveal_strlit("solve");
    reveal_strlit("analyze");
    assert("description"@.len() == 11 && "inputSchema"@.len() == 11 && "name"@.len() == 4);
    assert("policies"@.len() == 8 && "analyze"@.len() == 7);
    assert("check"@[0] == 'c' && "solve"@[0] == 's');
    assert("check"@.len() == 5 && "solve"@.len() == 5);
    reveal_with_fuel(json::place_from, 4);
    let d = descriptors();
    assert(json::text_member(d[0], "name"@) == Some("solve"@));
    assert(json::text_member(d[1], "name"@) == Some("check"@));
    assert(json::text_member(d[2], "name"@) == Some("policies"@));
    assert(json::text_member(d[3], "name"@) == Some("analyze"@));
}

/// `solve` is given a formula for each text among the premises and the claims, in order.
pub proof fn lemma_solve_given(args: JsonV)
    ensures
        ({
            let x = solve_extraction(args);
            let p = json::only_texts(json::list_member(args, "premises"@));
            let c = json::only_texts(json::list_member(args, "claims"@));
            &&& x.premises.len() == p.len()
            &&& x.claims.len() == c.len()
            &&& forall|i: int|
                0 <= i < p.len() ==> (#[trigger] x.premises[i]).expression == p[i]
            &&& forall|i: int| 0 <= i < c.len() ==> (#[trigger] x.claims[i]).expression == c[i]
            &&& x.notes.len() == 0
        }),
{
}

/// Is the argument described by the schema?
pub open spec fn describes(schema: JsonV, name: Seq<char>) -> bool {
    json::member(schema, "properties"@) matches Some(p) && json::member(p, name) is Some
}

proof fn lemma_schema(properties: Seq<(Seq<char>, JsonV)>, required: Seq<JsonV>, name: Seq<char>)
    ensures
        json::list_member(arguments_schema(properties, required), "required"@) == required,
        describes(arguments_schema(properties, required), name) <==> json::member(
            JsonV::Object(properties),
            name,
        ) is Some,
{
    reveal_strlit("properties");
    reveal_strlit("required");
    assert("properties"@.len() == 10 && "required"@.len() == 8);
    reveal_with_fuel(json::place_from, 4);
}

/// What a tool needs it describes: a policy's id for `solve`, `check` and `analyze`, claims
/// for `solve` and an answer for `check`. Premises and a question may be left out.
pub proof fn lemma_arguments_described(name: Seq<char>)
    ensures
        json::member(solve_descriptor(), "inputSchema"@) matches Some(s) && {
            &&& json::list_member(s, "required"@).contains(JsonV::Text(name)) <==> name
                == "policy_id"@ || name == "claims"@
            &&& describes(s, name) <==> name == "policy_id"@ || name == "claims"@ || name
                == "premises"@
        },
        json::member(check_descriptor(), "inputSchema"@) matches Some(s) && {
            &&& json::list_member(s, "required"@).contains(JsonV::Text(name)) <==> name
                == "policy_id"@ || name == "answer"@
            &&& describes(s, name) <==> name == "policy_id"@ || name == "answer"@ || name
                == "question"@
        },
        json::member(analyze_descriptor(), "inputSchema"@) matches Some(s) && {
            &&& json::list_member(s, "required"@).contains(JsonV::Text(name)) <==> name
                == "policy_id"@
            &&& describes(s, name) <==> name == "policy_id"@
        },
{
    reveal_strlit("description");
    reveal_strlit("inputSchema");
    assert("description"@[0] == 'd' && "inputSchema"@[0] == 'i');
    reveal_with_fuel(json::place_from, 4);
    let solve = seq![
        ("claims"@, texts_schema("The assertions to decide, as policy-language formulas."@)),
        ("policy_id"@, described_schema("Which saved policy to check against."@)),
        ("premises"@, texts_schema("Facts taken as given, as policy-language formulas."@)),
    ];
    let needed = seq![JsonV::Text("policy_id"@), JsonV::Text("claims"@)];
    lemma_schema(solve, needed, name);
    assert(needed[0] == JsonV::Text("policy_id"@) && needed[1] == JsonV::Text("claims"@));
    let check = seq![
        ("answer"@, described_schema("The answer to check."@)),
        ("policy_id"@, text_schema()),
        ("question"@, described_schema("What was asked. Supplies the premises."@)),
    ];
    let wanted = seq![JsonV::Text("policy_id"@), JsonV::Text("answer"@)];
    lemma_schema(check, wanted, name);
    assert(wanted[0] == JsonV::Text("policy_id"@) && wanted[1] == JsonV::Text("answer"@));
    let analyze = seq![("policy_id"@, text_schema())];
    let one = seq![JsonV::Text("policy_id"@)];
    lemma_schema(analyze, one, name);
    assert(one[0] == JsonV::Text("policy_id"@));
}

} // verus!
