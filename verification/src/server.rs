//! Method dispatch and the per-message step of the server loop.
//!
//! The loop itself performs I/O and the network-backed search, so it
//! lives with the host; everything it decides is here: which method a
//! message names, which tool is called, what is replied, and when the
//! loop stops.

use vstd::prelude::*;
use vstd::string::StrSliceExecFns;
use vstd::string::StringSliceAdditionalSpecFns;
use crate::error::MCPError;
use crate::json::{Json, JVal, jv, jv_seq, jv_fields, lemma_jv_seq, lemma_jv_fields, jser, sp_json};
use crate::protocol::{
    Request, Response, ErrorResponse, ReqModel, RespModel, ErrModel, resp_wf, resp_jval, req_of,
    opt_jv, lookup, lemma_lookup_append, lemma_lookup_singleton, captures, encode_response,
    request_from_json,
};
use crate::tools::{SearchRepositoriesParams, SearchRepositoriesResult, ParamsModel, params_of,
    params_from_json, result_to_json};

verus! {

/// The dispatcher; it owns nothing but its advertised identity.
pub struct Server {
    pub name: Vec<u8>,
    pub version: Vec<u8>,
}

/// A successful reply carrying `result`.
pub open spec fn ok_resp(id: Option<JVal>, result: JVal) -> RespModel {
    RespModel {
        jsonrpc: ("2.0").spec_bytes(),
        id,
        result: Some(result),
        error: None,
    }
}

/// An error reply carrying `error` with the given code and message.
pub open spec fn err_resp(id: Option<JVal>, code: i32, message: Seq<u8>) -> RespModel {
    RespModel {
        jsonrpc: ("2.0").spec_bytes(),
        id,
        result: None,
        error: Some(ErrModel { code, message, data: None }),
    }
}

/// Build a successful reply.
pub fn ok_response(id: Option<Json>, result: Json) -> (r: Response)
    ensures
        r.model() == ok_resp(opt_jv(id), jv(result)),
        resp_wf(r.model()),
{
    Response {
        jsonrpc: ("2.0").as_bytes_vec(),
        id,
        result: Some(result),
        error: None,
    }
}

/// Build an error reply from an error value.
pub fn error_response(id: Option<Json>, e: MCPError) -> (r: Response)
    ensures
        r.model() == err_resp(opt_jv(id), e.spec_code(), e.spec_message()),
        resp_wf(r.model()),
{
    let code = e.code();
    let message = e.message();
    Response {
        jsonrpc: ("2.0").as_bytes_vec(),
        id,
        result: None,
        error: Some(ErrorResponse { code, message, data: None }),
    }
}

/// The static tool list: one tool, `search_repositories`, with its
/// declared input schema.
pub open spec fn tool_list_jval() -> JVal {
    JVal::Obj(
        seq![(("tools").spec_bytes(), JVal::Arr(seq![tool_descriptor_jval()]))],
    )
}

pub open spec fn tool_descriptor_jval() -> JVal {
    JVal::Obj(
        seq![
            (("name").spec_bytes(), JVal::Str(("search_repositories").spec_bytes())),
            (
                ("description").spec_bytes(),
                JVal::Str(("Search for GitHub repositories").spec_bytes()),
            ),
            (("input_schema").spec_bytes(), input_schema_jval()),
        ],
    )
}

pub open spec fn input_schema_jval() -> JVal {
    JVal::Obj(
        seq![
            (("type").spec_bytes(), JVal::Str(("object").spec_bytes())),
            (
                ("properties").spec_bytes(),
                JVal::Obj(
                    seq![
                        (("query").spec_bytes(), query_schema_jval()),
                        (("page").spec_bytes(), page_schema_jval()),
                        (("per_page").spec_bytes(), per_page_schema_jval()),
                    ],
                ),
            ),
            (
                ("required").spec_bytes(),
                JVal::Arr(seq![JVal::Str(("query").spec_bytes())]),
            ),
        ],
    )
}

pub open spec fn query_schema_jval() -> JVal {
    JVal::Obj(
        seq![
            (("type").spec_bytes(), JVal::Str(("string").spec_bytes())),
            (("description").spec_bytes(), JVal::Str(("Search query").spec_bytes())),
        ],
    )
}

pub open spec fn page_schema_jval() -> JVal {
    JVal::Obj(
        seq![
            (("type").spec_bytes(), JVal::Str(("integer").spec_bytes())),
            (("description").spec_bytes(), JVal::Str(("Page number").spec_bytes())),
            (("minimum").spec_bytes(), JVal::Int(1)),
        ],
    )
}

pub open spec fn per_page_schema_jval() -> JVal {
    JVal::Obj(
        seq![
            (("type").spec_bytes(), JVal::Str(("integer").spec_bytes())),
            (("description").spec_bytes(), JVal::Str(("Results per page").spec_bytes())),
            (("minimum").spec_bytes(), JVal::Int(1)),
            (("maximum").spec_bytes(), JVal::Int(100)),
        ],
    )
}

fn obj_of(fs: Vec<(Vec<u8>, Json)>) -> (j: Json)
    ensures
        jv(j) == JVal::Obj(jv_fields(fs@)),
{
    Json::Obj(fs)
}

/// Build the static tool list value.
pub fn tool_list_json() -> (j: Json)
    ensures
        jv(j) == tool_list_jval(),
{
    let mut query_schema: Vec<(Vec<u8>, Json)> = Vec::new();
    query_schema.push((("type").as_bytes_vec(), Json::Str(("string").as_bytes_vec())));
    query_schema.push((("description").as_bytes_vec(), Json::Str(("Search query").as_bytes_vec())));
    proof {
        lemma_jv_fields(query_schema@);
        assert(jv_fields(query_schema@) =~= (match query_schema_jval() {
            JVal::Obj(t) => t,
            _ => Seq::<(Seq<u8>, JVal)>::empty(),
        }));
    }
    let mut page_schema: Vec<(Vec<u8>, Json)> = Vec::new();
    page_schema.push((("type").as_bytes_vec(), Json::Str(("integer").as_bytes_vec())));
    page_schema.push((("description").as_bytes_vec(), Json::Str(("Page number").as_bytes_vec())));
    page_schema.push((("minimum").as_bytes_vec(), Json::Int(1)));
    proof {
        lemma_jv_fields(page_schema@);
        assert(jv_fields(page_schema@) =~= (match page_schema_jval() {
            JVal::Obj(t) => t,
            _ => Seq::<(Seq<u8>, JVal)>::empty(),
        }));
    }
    let mut pp_schema: Vec<(Vec<u8>, Json)> = Vec::new();
    pp_schema.push((("type").as_bytes_vec(), Json::Str(("integer").as_bytes_vec())));
    pp_schema.push((("description").as_bytes_vec(), Json::Str(("Results per page").as_bytes_vec())));
    pp_schema.push((("minimum").as_bytes_vec(), Json::Int(1)));
    pp_schema.push((("maximum").as_bytes_vec(), Json::Int(100)));
    proof {
        lemma_jv_fields(pp_schema@);
        assert(jv_fields(pp_schema@) =~= (match per_page_schema_jval() {
            JVal::Obj(t) => t,
            _ => Seq::<(Seq<u8>, JVal)>::empty(),
        }));
    }
    let mut properties: Vec<(Vec<u8>, Json)> = Vec::new();
    properties.push((("query").as_bytes_vec(), obj_of(query_schema)));
    properties.push((("page").as_bytes_vec(), obj_of(page_schema)));
    properties.push((("per_page").as_bytes_vec(), obj_of(pp_schema)));
    proof {
        lemma_jv_fields(properties@);
        assert(jv_fields(properties@) =~= seq![
            (("query").spec_bytes(), query_schema_jval()),
            (("page").spec_bytes(), page_schema_jval()),
            (("per_page").spec_bytes(), per_page_schema_jval()),
        ]);
    }
    let mut required: Vec<Json> = Vec::new();
    required.push(Json::Str(("query").as_bytes_vec()));
    proof {
        lemma_jv_seq(required@);
        assert(jv_seq(required@) =~= seq![JVal::Str(("query").spec_bytes())]);
    }
    let mut schema: Vec<(Vec<u8>, Json)> = Vec::new();
    schema.push((("type").as_bytes_vec(), Json::Str(("object").as_bytes_vec())));
    schema.push((("properties").as_bytes_vec(), obj_of(properties)));
    schema.push((("required").as_bytes_vec(), Json::Arr(required)));
    proof {
        lemma_jv_fields(schema@);
        assert(jv_fields(schema@) =~= (match input_schema_jval() {
            JVal::Obj(t) => t,
            _ => Seq::<(Seq<u8>, JVal)>::empty(),
        }));
    }
    let mut descriptor: Vec<(Vec<u8>, Json)> = Vec::new();
    descriptor.push((("name").as_bytes_vec(), Json::Str(("search_repositories").as_bytes_vec())));
    descriptor.push(
        (("description").as_bytes_vec(), Json::Str(("Search for GitHub repositories").as_bytes_vec())),
    );
    descriptor.push((("input_schema").as_bytes_vec(), obj_of(schema)));
    proof {
        lemma_jv_fields(descriptor@);
        assert(jv_fields(descriptor@) =~= (match tool_descriptor_jval() {
            JVal::Obj(t) => t,
            _ => Seq::<(Seq<u8>, JVal)>::empty(),
        }));
    }
    let mut tools_arr: Vec<Json> = Vec::new();
    tools_arr.push(obj_of(descriptor));
    proof {
        lemma_jv_seq(tools_arr@);
        assert(jv_seq(tools_arr@) =~= seq![tool_descriptor_jval()]);
    }
    let mut top: Vec<(Vec<u8>, Json)> = Vec::new();
    top.push((("tools").as_bytes_vec(), Json::Arr(tools_arr)));
    proof {
        lemma_jv_fields(top@);
        assert(jv_fields(top@) =~= (match tool_list_jval() {
            JVal::Obj(t) => t,
            _ => Seq::<(Seq<u8>, JVal)>::empty(),
        }));
    }
    Json::Obj(top)
}

/// What handling one request decides: a reply, or a search to perform.
#[derive(Debug, PartialEq)]
pub enum RequestOutcome {
    Reply(Response),
    Search(Option<Json>, SearchRepositoriesParams),
}

/// Model of a request's outcome.
pub enum ActionModel {
    Reply(RespModel),
    Search(Option<JVal>, ParamsModel),
}

pub open spec fn outcome_model(o: RequestOutcome) -> ActionModel {
    match o {
        RequestOutcome::Reply(r) => ActionModel::Reply(r.model()),
        RequestOutcome::Search(id, p) => ActionModel::Search(opt_jv(id), p.model()),
    }
}

/// How one request is dispatched: `listTools` replies with the static
/// tool list; `callTool` unwraps the invocation envelope and selects the
/// tool; anything else is an unknown method.  Every failure becomes an
/// error reply carrying the request's id.
pub open spec fn dispatch_spec(req: ReqModel) -> ActionModel {
    if req.method == ("listTools").spec_bytes() {
        ActionModel::Reply(ok_resp(req.id, tool_list_jval()))
    } else if req.method == ("callTool").spec_bytes() {
        match req.params {
            None => ActionModel::Reply(
                err_resp(
                    req.id,
                    -32600i32,
                    ("Invalid request: ").spec_bytes() + ("Missing params").spec_bytes(),
                ),
            ),
            Some(p) => {
                let tp = match p {
                    JVal::Obj(fs) => lookup(fs, ("params").spec_bytes()),
                    _ => None,
                };
                match tp {
                    None => ActionModel::Reply(
                        err_resp(
                            req.id,
                            -32600i32,
                            ("Invalid request: ").spec_bytes() + ("Missing tool params").spec_bytes(),
                        ),
                    ),
                    Some(tpv) => {
                        let nm = match p {
                            JVal::Obj(fs) => lookup(fs, ("name").spec_bytes()),
                            _ => None,
                        };
                        match nm {
                            Some(JVal::Str(name)) => if name == (
                            "search_repositories").spec_bytes() {
                                match params_of(tpv) {
                                    Some(pm) => ActionModel::Search(req.id, pm),
                                    None => ActionModel::Reply(
                                        err_resp(
                                            req.id,
                                            -32700i32,
                                            ("Parse error: ").spec_bytes() + (
                                            "invalid tool params").spec_bytes(),
                                        ),
                                    ),
                                }
                            } else {
                                ActionModel::Reply(
                                    err_resp(
                                        req.id,
                                        -32601i32,
                                        ("Method not found: ").spec_bytes() + (
                                        "Unknown tool").spec_bytes(),
                                    ),
                                )
                            },
                            _ => ActionModel::Reply(
                                err_resp(
                                    req.id,
                                    -32600i32,
                                    ("Invalid request: ").spec_bytes() + (
                                    "Missing tool name").spec_bytes(),
                                ),
                            ),
                        }
                    },
                }
            },
        }
    } else {
        ActionModel::Reply(
            err_resp(req.id, -32601i32, ("Method not found: ").spec_bytes() + req.method),
        )
    }
}

/// The two keys of the tool invocation envelope differ.
proof fn lemma_call_keys_distinct()
    ensures
        ("params").spec_bytes() != ("name").spec_bytes(),
{
    reveal_strlit("params");
    reveal_strlit("name");
    vstd::string::is_ascii_spec_bytes("params");
    vstd::string::is_ascii_spec_bytes("name");
    assert(vstd::string::is_ascii("params"));
    assert(vstd::string::is_ascii("name"));
    assert(("params").spec_bytes().len() == 6);
    assert(("name").spec_bytes().len() == 4);
}

impl Server {
    /// A server that advertises the given name and version.
    pub fn new(name: Vec<u8>, version: Vec<u8>) -> (s: Server)
        ensures
            s.name@ == name@,
            s.version@ == version@,
    {
        Server { name, version }
    }

    fn handle_list_tools(&self, id: Option<Json>) -> (r: Response)
        ensures
            r.model() == ok_resp(opt_jv(id), tool_list_jval()),
    {
        let tools = tool_list_json();
        ok_response(id, tools)
    }

    fn handle_call_tool(&self, id: Option<Json>, params: Option<Json>) -> (o: RequestOutcome)
        ensures
            outcome_model(o) == (match (ReqModel {
                jsonrpc: ("2.0").spec_bytes(),
                id: opt_jv(id),
                method: ("callTool").spec_bytes(),
                params: opt_jv(params),
            }) {
                m => dispatch_spec(m),
            }),
    {
        proof {
            reveal_strlit("callTool");
            reveal_strlit("listTools");
            vstd::string::is_ascii_spec_bytes("callTool");
            vstd::string::is_ascii_spec_bytes("listTools");
            assert(vstd::string::is_ascii("callTool"));
            assert(vstd::string::is_ascii("listTools"));
            assert(("callTool").spec_bytes().len() == 8);
            assert(("listTools").spec_bytes().len() == 9);
        }
        let p = match params {
            None => {
                return RequestOutcome::Reply(
                    error_response(id, MCPError::InvalidRequest(("Missing params").as_bytes_vec())),
                );
            },
            Some(p) => p,
        };
        let mut fields = match p {
            Json::Obj(fs) => fs,
            _ => {
                return RequestOutcome::Reply(
                    error_response(
                        id,
                        MCPError::InvalidRequest(("Missing tool params").as_bytes_vec()),
                    ),
                );
            },
        };
        let ghost whole = jv_fields(fields@);
        let key_params = ("params").as_bytes_vec();
        let key_name = ("name").as_bytes_vec();
        let mut st_params: Option<Json> = None;
        let mut st_name: Option<Json> = None;
        while fields.len() > 0
            invariant
                key_params@ == ("params").spec_bytes(),
                key_name@ == ("name").spec_bytes(),
                captures(whole, jv_fields(fields@), key_params@, st_params),
                captures(whole, jv_fields(fields@), key_name@, st_name),
            decreases fields.len(),
        {
            let ghost prev = fields@;
            match fields.pop() {
                None => {
                    assert(false);
                },
                Some((k, val)) => {
                    proof {
                        lemma_call_keys_distinct();
                        lemma_jv_fields(prev);
                        lemma_jv_fields(fields@);
                        assert(jv_fields(prev) =~= jv_fields(fields@) + seq![(k@, jv(val))]);
                        lemma_lookup_append(jv_fields(fields@), seq![(k@, jv(val))], key_params@);
                        lemma_lookup_append(jv_fields(fields@), seq![(k@, jv(val))], key_name@);
                        lemma_lookup_singleton((k@, jv(val)), key_params@);
                        lemma_lookup_singleton((k@, jv(val)), key_name@);
                    }
                    if crate::json::bytes_eq(&k, &key_params) {
                        st_params = Some(val);
                    } else if crate::json::bytes_eq(&k, &key_name) {
                        st_name = Some(val);
                    }
                },
            }
        }
        proof {
            lemma_jv_fields(fields@);
            assert(jv_fields(fields@) =~= Seq::<(Seq<u8>, JVal)>::empty());
            assert(lookup(Seq::<(Seq<u8>, JVal)>::empty(), key_params@) is None);
        }
        let tool_params = match st_params {
            None => {
                return RequestOutcome::Reply(
                    error_response(
                        id,
                        MCPError::InvalidRequest(("Missing tool params").as_bytes_vec()),
                    ),
                );
            },
            Some(tp) => tp,
        };
        match st_name {
            Some(Json::Str(nb)) => {
                if crate::json::bytes_eq(&nb, &("search_repositories").as_bytes_vec()) {
                    match params_from_json(tool_params) {
                        Ok(sp) => RequestOutcome::Search(id, sp),
                        Err(_) => RequestOutcome::Reply(
                            error_response(
                                id,
                                MCPError::Parse(("invalid tool params").as_bytes_vec()),
                            ),
                        ),
                    }
                } else {
                    RequestOutcome::Reply(
                        error_response(id, MCPError::MethodNotFound(("Unknown tool").as_bytes_vec())),
                    )
                }
            },
            _ => RequestOutcome::Reply(
                error_response(id, MCPError::InvalidRequest(("Missing tool name").as_bytes_vec())),
            ),
        }
    }

    /// Dispatch one decoded request.
    pub fn handle_request(&self, req: Request) -> (o: RequestOutcome)
        ensures
            outcome_model(o) == dispatch_spec(req.model()),
    {
        let key_list = ("listTools").as_bytes_vec();
        let key_call = ("callTool").as_bytes_vec();
        if crate::json::bytes_eq(&req.method, &key_list) {
            RequestOutcome::Reply(self.handle_list_tools(req.id))
        } else if crate::json::bytes_eq(&req.method, &key_call) {
            self.handle_call_tool(req.id, req.params)
        } else {
            RequestOutcome::Reply(
                error_response(req.id, MCPError::MethodNotFound(req.method)),
            )
        }
    }

    /// Fold the search operation's outcome into the reply for the
    /// request that asked for it.
    pub fn tool_response(&self, id: Option<Json>, outcome: Result<
        SearchRepositoriesResult,
        Vec<u8>,
    >) -> (r: Response)
        ensures
            r.model() == (match outcome {
                Ok(res) => ok_resp(opt_jv(id), res.jval()),
                Err(m) => err_resp(
                    opt_jv(id),
                    -32000i32,
                    ("GitHub API error: ").spec_bytes() + m@,
                ),
            }),
            resp_wf(r.model()),
    {
        match outcome {
            Ok(res) => {
                let j = result_to_json(&res);
                ok_response(id, j)
            },
            Err(m) => error_response(id, MCPError::GitHub(m)),
        }
    }
}

/// One observation of the transport: a complete message, or closure.
#[derive(Debug, PartialEq)]
pub enum ServerEvent {
    Message(Vec<u8>),
    Closed,
}

/// What the loop's host must do next.
#[derive(Debug, PartialEq)]
pub enum ServerAction {
    /// Write this line back.
    Reply(Vec<u8>),
    /// Perform the search, then ask for the reply line.
    Search(Option<Json>, SearchRepositoriesParams),
    /// Stop the loop; write nothing.
    Shutdown,
}

/// Model of a step's action.
pub enum ActModel {
    Reply(Seq<u8>),
    Search(Option<JVal>, ParamsModel),
    Shutdown,
}

pub open spec fn action_model(a: ServerAction) -> ActModel {
    match a {
        ServerAction::Reply(line) => ActModel::Reply(line@),
        ServerAction::Search(id, p) => ActModel::Search(opt_jv(id), p.model()),
        ServerAction::Shutdown => ActModel::Shutdown,
    }
}

/// The loop's two states.
#[derive(Debug, PartialEq)]
pub enum ServerState {
    Running,
    Stopped,
}

/// The loop stops exactly on transport closure; a message, well-formed
/// or not, keeps it running.
pub open spec fn next_state(st: ServerState, ev: ServerEvent) -> ServerState {
    match st {
        ServerState::Stopped => ServerState::Stopped,
        ServerState::Running => match ev {
            ServerEvent::Closed => ServerState::Stopped,
            ServerEvent::Message(_) => ServerState::Running,
        },
    }
}

/// What one loop step does with one transport observation.
pub open spec fn step_spec(ev: ServerEvent) -> ActModel {
    match ev {
        ServerEvent::Closed => ActModel::Shutdown,
        ServerEvent::Message(line) => match sp_json(line@) {
            None => ActModel::Reply(
                jser(
                    resp_jval(
                        err_resp(
                            None,
                            -32700i32,
                            ("Parse error: ").spec_bytes() + ("invalid message").spec_bytes(),
                        ),
                    ),
                ),
            ),
            Some(v) => match req_of(v) {
                None => ActModel::Reply(
                    jser(
                        resp_jval(
                            err_resp(
                                None,
                                -32700i32,
                                ("Parse error: ").spec_bytes() + ("malformed request").spec_bytes(),
                            ),
                        ),
                    ),
                ),
                Some(rm) => match dispatch_spec(rm) {
                    ActionModel::Reply(r) => ActModel::Reply(jser(resp_jval(r))),
                    ActionModel::Search(id, pm) => ActModel::Search(id, pm),
                },
            },
        },
    }
}

impl Server {
    /// One step of the loop: decode, dispatch, encode.  A bad message
    /// never stops the loop; only closure does.
    pub fn step(&self, ev: ServerEvent) -> (a: ServerAction)
        ensures
            action_model(a) == step_spec(ev),
            (a matches ServerAction::Shutdown) <==> (ev matches ServerEvent::Closed),
    {
        match ev {
            ServerEvent::Closed => ServerAction::Shutdown,
            ServerEvent::Message(line) => {
                let parsed = match crate::json::parse_json(&line) {
                    None => {
                        let resp = error_response(
                            None,
                            MCPError::Parse(("invalid message").as_bytes_vec()),
                        );
                        return ServerAction::Reply(encode_response(resp));
                    },
                    Some(v) => v,
                };
                let req = match request_from_json(parsed) {
                    Err(_) => {
                        let resp = error_response(
                            None,
                            MCPError::Parse(("malformed request").as_bytes_vec()),
                        );
                        return ServerAction::Reply(encode_response(resp));
                    },
                    Ok(r) => r,
                };
                match self.handle_request(req) {
                    RequestOutcome::Reply(resp) => ServerAction::Reply(encode_response(resp)),
                    RequestOutcome::Search(id, p) => ServerAction::Search(id, p),
                }
            },
        }
    }

    /// The reply line for a finished search, for the loop's host to
    /// write back.
    pub fn step_search(&self, id: Option<Json>, outcome: Result<
        SearchRepositoriesResult,
        Vec<u8>,
    >) -> (line: Vec<u8>)
        ensures
            line@ == jser(
                resp_jval(
                    match outcome {
                        Ok(res) => ok_resp(opt_jv(id), res.jval()),
                        Err(m) => err_resp(
                            opt_jv(id),
                            -32000i32,
                            ("GitHub API error: ").spec_bytes() + m@,
                        ),
                    },
                ),
            ),
    {
        let resp = self.tool_response(id, outcome);
        encode_response(resp)
    }
}

/// Every reply echoes the request's id unchanged, and a search carries
/// it along for the eventual reply; absent stays absent.
pub proof fn lemma_id_echoed(req: ReqModel)
    ensures
        match dispatch_spec(req) {
            ActionModel::Reply(r) => r.id == req.id,
            ActionModel::Search(id, _) => id == req.id,
        },
{
}

/// Every dispatched reply holds exactly one of `result` and `error`.
pub proof fn lemma_reply_exclusive(req: ReqModel)
    ensures
        match dispatch_spec(req) {
            ActionModel::Reply(r) => resp_wf(r),
            ActionModel::Search(_, _) => true,
        },
{
}

/// `listTools` always replies with the same static tool list, whatever
/// the params and whatever else is in flight.
pub proof fn lemma_list_tools_static(req: ReqModel)
    requires
        req.method == ("listTools").spec_bytes(),
    ensures
        dispatch_spec(req) == ActionModel::Reply(ok_resp(req.id, tool_list_jval())),
{
}

/// The loop stops exactly on transport closure, and then writes nothing;
/// on any message it stays running and produces a reply or a search.
pub proof fn lemma_closure_stops(ev: ServerEvent)
    ensures
        (next_state(ServerState::Running, ev) == ServerState::Stopped) <==> (ev
            matches ServerEvent::Closed),
        (step_spec(ev) matches ActModel::Shutdown) <==> (ev matches ServerEvent::Closed),
{
}

} // verus!
