//! The JSON-RPC request and response envelopes.
//!
//! A request names a method and optionally carries an id and params; a
//! response echoes the id and holds exactly one of a result or an error
//! object.  Both sides are modeled over the JSON value model.

use vstd::prelude::*;
use vstd::string::StrSliceExecFns;
use vstd::string::StringSliceAdditionalSpecFns;
use crate::error::MCPError;
use crate::json::{
    Json, JVal, jv, jv_fields, lemma_jv_fields, jser, sp_json, encode_json, clone_bytes,
    lemma_json_roundtrip, int_only,
};

verus! {

/// A request envelope.  `id` is opaque and echoed back verbatim; a
/// missing or null id are the same thing.
#[derive(Debug, PartialEq)]
pub struct Request {
    pub jsonrpc: Vec<u8>,
    pub id: Option<Json>,
    pub method: Vec<u8>,
    pub params: Option<Json>,
}

/// A response's error object.
#[derive(Debug, PartialEq)]
pub struct ErrorResponse {
    pub code: i32,
    pub message: Vec<u8>,
    pub data: Option<Json>,
}

/// A response envelope.
#[derive(Debug, PartialEq)]
pub struct Response {
    pub jsonrpc: Vec<u8>,
    pub id: Option<Json>,
    pub result: Option<Json>,
    pub error: Option<ErrorResponse>,
}

/// Model of a request.
pub struct ReqModel {
    pub jsonrpc: Seq<u8>,
    pub id: Option<JVal>,
    pub method: Seq<u8>,
    pub params: Option<JVal>,
}

/// Model of an error object.
pub struct ErrModel {
    pub code: i32,
    pub message: Seq<u8>,
    pub data: Option<JVal>,
}

/// Model of a response.
pub struct RespModel {
    pub jsonrpc: Seq<u8>,
    pub id: Option<JVal>,
    pub result: Option<JVal>,
    pub error: Option<ErrModel>,
}

pub open spec fn opt_jv(o: Option<Json>) -> Option<JVal> {
    match o {
        Some(j) => Some(jv(j)),
        None => None,
    }
}

impl Request {
    pub open spec fn model(&self) -> ReqModel {
        ReqModel {
            jsonrpc: self.jsonrpc@,
            id: opt_jv(self.id),
            method: self.method@,
            params: opt_jv(self.params),
        }
    }
}

impl ErrorResponse {
    pub open spec fn model(&self) -> ErrModel {
        ErrModel { code: self.code, message: self.message@, data: opt_jv(self.data) }
    }
}

impl Response {
    pub open spec fn model(&self) -> RespModel {
        RespModel {
            jsonrpc: self.jsonrpc@,
            id: opt_jv(self.id),
            result: opt_jv(self.result),
            error: match self.error {
                Some(e) => Some(e.model()),
                None => None,
            },
        }
    }
}

/// Exactly one of `result` and `error` is present.
pub open spec fn resp_wf(r: RespModel) -> bool {
    (r.result is Some) != (r.error is Some)
}

/// The value of the first field named `key`, if any.
pub open spec fn lookup(fs: Seq<(Seq<u8>, JVal)>, key: Seq<u8>) -> Option<JVal>
    decreases fs.len(),
{
    if fs.len() == 0 {
        None
    } else if fs[0].0 == key {
        Some(fs[0].1)
    } else {
        lookup(fs.subrange(1, fs.len() as int), key)
    }
}

pub proof fn lemma_lookup_append(a: Seq<(Seq<u8>, JVal)>, b: Seq<(Seq<u8>, JVal)>, key: Seq<u8>)
    ensures
        lookup(a + b, key) == (match lookup(a, key) {
            Some(v) => Some(v),
            None => lookup(b, key),
        }),
    decreases a.len(),
{
    if a.len() == 0 {
        assert(a + b =~= b);
    } else {
        assert((a + b).subrange(1, (a + b).len() as int) =~= a.subrange(1, a.len() as int) + b);
        lemma_lookup_append(a.subrange(1, a.len() as int), b, key);
        assert((a + b)[0] == a[0]);
    }
}

/// A present null field counts as an absent one.
pub open spec fn opt_field(o: Option<JVal>) -> Option<JVal> {
    match o {
        Some(JVal::Null) => None,
        _ => o,
    }
}

/// How a request is read off a decoded message value: an object with a
/// string `jsonrpc` and a string `method`; `id` and `params` optional.
pub open spec fn req_of(v: JVal) -> Option<ReqModel> {
    match v {
        JVal::Obj(fs) => {
            let jr = lookup(fs, ("jsonrpc").spec_bytes());
            let me = lookup(fs, ("method").spec_bytes());
            match (jr, me) {
                (Some(JVal::Str(jrs)), Some(JVal::Str(mes))) => Some(
                    ReqModel {
                        jsonrpc: jrs,
                        id: opt_field(lookup(fs, ("id").spec_bytes())),
                        method: mes,
                        params: opt_field(lookup(fs, ("params").spec_bytes())),
                    },
                ),
                _ => None,
            }
        },
        _ => None,
    }
}

pub proof fn lemma_lookup_singleton(p: (Seq<u8>, JVal), key: Seq<u8>)
    ensures
        lookup(seq![p], key) == (if p.0 == key {
            Some(p.1)
        } else {
            None::<JVal>
        }),
{
    assert(seq![p].subrange(1, 1) =~= Seq::<(Seq<u8>, JVal)>::empty());
    assert(lookup(Seq::<(Seq<u8>, JVal)>::empty(), key) is None);
    assert(seq![p][0] == p);
}

/// The four envelope keys are pairwise different byte strings.
proof fn lemma_keys_distinct()
    ensures
        ("jsonrpc").spec_bytes() != ("method").spec_bytes(),
        ("jsonrpc").spec_bytes() != ("id").spec_bytes(),
        ("jsonrpc").spec_bytes() != ("params").spec_bytes(),
        ("method").spec_bytes() != ("id").spec_bytes(),
        ("method").spec_bytes() != ("params").spec_bytes(),
        ("id").spec_bytes() != ("params").spec_bytes(),
{
    reveal_strlit("jsonrpc");
    reveal_strlit("method");
    reveal_strlit("id");
    reveal_strlit("params");
    vstd::string::is_ascii_spec_bytes("jsonrpc");
    vstd::string::is_ascii_spec_bytes("method");
    vstd::string::is_ascii_spec_bytes("id");
    vstd::string::is_ascii_spec_bytes("params");
    assert(vstd::string::is_ascii("jsonrpc"));
    assert(vstd::string::is_ascii("method"));
    assert(vstd::string::is_ascii("id"));
    assert(vstd::string::is_ascii("params"));
    assert(("jsonrpc").spec_bytes().len() == 7);
    assert(("method").spec_bytes().len() == 6);
    assert(("id").spec_bytes().len() == 2);
    assert(("params").spec_bytes().len() == 6);
    assert(("method").spec_bytes()[0] == 'm' as u8);
    assert(("params").spec_bytes()[0] == 'p' as u8);
}

/// Tracks, while the fields of an object are folded from the back, how a
/// partially captured field relates to a lookup over the whole object.
pub open spec fn captures(
    whole: Seq<(Seq<u8>, JVal)>,
    rest: Seq<(Seq<u8>, JVal)>,
    key: Seq<u8>,
    state: Option<Json>,
) -> bool {
    lookup(whole, key) == (match lookup(rest, key) {
        Some(x) => Some(x),
        None => opt_jv(state),
    })
}

/// Read a request out of a decoded message value.  Fails with a parse
/// error exactly when the value does not have the request shape.
pub fn request_from_json(v: Json) -> (r: Result<Request, MCPError>)
    ensures
        match r {
            Ok(req) => req_of(jv(v)) == Some(req.model()),
            Err(e) => req_of(jv(v)) is None && (e matches MCPError::Parse(_)),
        },
{
    let mut fields = match v {
        Json::Obj(fs) => fs,
        _ => {
            return Err(MCPError::Parse(("message is not an object").as_bytes_vec()));
        },
    };
    let ghost whole = jv_fields(fields@);
    let key_jsonrpc = ("jsonrpc").as_bytes_vec();
    let key_method = ("method").as_bytes_vec();
    let key_id = ("id").as_bytes_vec();
    let key_params = ("params").as_bytes_vec();
    let mut st_jsonrpc: Option<Json> = None;
    let mut st_method: Option<Json> = None;
    let mut st_id: Option<Json> = None;
    let mut st_params: Option<Json> = None;
    while fields.len() > 0
        invariant
            key_jsonrpc@ == ("jsonrpc").spec_bytes(),
            key_method@ == ("method").spec_bytes(),
            key_id@ == ("id").spec_bytes(),
            key_params@ == ("params").spec_bytes(),
            captures(whole, jv_fields(fields@), key_jsonrpc@, st_jsonrpc),
            captures(whole, jv_fields(fields@), key_method@, st_method),
            captures(whole, jv_fields(fields@), key_id@, st_id),
            captures(whole, jv_fields(fields@), key_params@, st_params),
        decreases fields.len(),
    {
        let ghost prev = fields@;
        match fields.pop() {
            None => {
                assert(false);
            },
            Some((k, val)) => {
                proof {
                    lemma_keys_distinct();
                    lemma_jv_fields(prev);
                    lemma_jv_fields(fields@);
                    assert(jv_fields(prev) =~= jv_fields(fields@) + seq![(k@, jv(val))]);
                    lemma_lookup_append(jv_fields(fields@), seq![(k@, jv(val))], key_jsonrpc@);
                    lemma_lookup_append(jv_fields(fields@), seq![(k@, jv(val))], key_method@);
                    lemma_lookup_append(jv_fields(fields@), seq![(k@, jv(val))], key_id@);
                    lemma_lookup_append(jv_fields(fields@), seq![(k@, jv(val))], key_params@);
                    lemma_lookup_singleton((k@, jv(val)), key_jsonrpc@);
                    lemma_lookup_singleton((k@, jv(val)), key_method@);
                    lemma_lookup_singleton((k@, jv(val)), key_id@);
                    lemma_lookup_singleton((k@, jv(val)), key_params@);
                }
                if crate::json::bytes_eq(&k, &key_jsonrpc) {
                    st_jsonrpc = Some(val);
                } else if crate::json::bytes_eq(&k, &key_method) {
                    st_method = Some(val);
                } else if crate::json::bytes_eq(&k, &key_id) {
                    st_id = Some(val);
                } else if crate::json::bytes_eq(&k, &key_params) {
                    st_params = Some(val);
                }
            },
        }
    }
    proof {
        lemma_jv_fields(fields@);
        assert(jv_fields(fields@) =~= Seq::<(Seq<u8>, JVal)>::empty());
        assert(lookup(Seq::<(Seq<u8>, JVal)>::empty(), ("jsonrpc").spec_bytes()) is None);
    }
    let jr_bytes = match st_jsonrpc {
        Some(Json::Str(s)) => s,
        _ => {
            return Err(MCPError::Parse(("missing or invalid jsonrpc field").as_bytes_vec()));
        },
    };
    let me_bytes = match st_method {
        Some(Json::Str(s)) => s,
        _ => {
            return Err(MCPError::Parse(("missing or invalid method field").as_bytes_vec()));
        },
    };
    let id = match st_id {
        Some(Json::Null) => None,
        other => other,
    };
    let params = match st_params {
        Some(Json::Null) => None,
        other => other,
    };
    Ok(Request { jsonrpc: jr_bytes, id, method: me_bytes, params })
}

/// The JSON value an error object serializes to: `code`, `message`, and
/// `data` only when present.
pub open spec fn err_jval(e: ErrModel) -> JVal {
    JVal::Obj(
        seq![
            (("code").spec_bytes(), JVal::Int(e.code as i64)),
            (("message").spec_bytes(), JVal::Str(e.message)),
        ] + (match e.data {
            Some(d) => seq![(("data").spec_bytes(), d)],
            None => Seq::empty(),
        }),
    )
}

/// The JSON value a response serializes to: `jsonrpc`, then `id` (null
/// when absent), then `result` and `error` only when present.
pub open spec fn resp_jval(r: RespModel) -> JVal {
    JVal::Obj(
        seq![
            (("jsonrpc").spec_bytes(), JVal::Str(r.jsonrpc)),
            (
                ("id").spec_bytes(),
                match r.id {
                    Some(v) => v,
                    None => JVal::Null,
                },
            ),
        ] + (match r.result {
            Some(v) => seq![(("result").spec_bytes(), v)],
            None => Seq::empty(),
        }) + (match r.error {
            Some(e) => seq![(("error").spec_bytes(), err_jval(e))],
            None => Seq::empty(),
        }),
    )
}

fn error_to_json(e: ErrorResponse) -> (j: Json)
    ensures
        jv(j) == err_jval(e.model()),
{
    let ghost m = e.model();
    let mut fs: Vec<(Vec<u8>, Json)> = Vec::new();
    fs.push((("code").as_bytes_vec(), Json::Int(e.code as i64)));
    fs.push((("message").as_bytes_vec(), Json::Str(e.message)));
    match e.data {
        Some(d) => {
            fs.push((("data").as_bytes_vec(), d));
        },
        None => {},
    }
    proof {
        lemma_jv_fields(fs@);
        assert(jv_fields(fs@) =~= (seq![
            (("code").spec_bytes(), JVal::Int(m.code as i64)),
            (("message").spec_bytes(), JVal::Str(m.message)),
        ] + (match m.data {
            Some(d) => seq![(("data").spec_bytes(), d)],
            None => Seq::<(Seq<u8>, JVal)>::empty(),
        })));
    }
    Json::Obj(fs)
}

/// Turn a response into its JSON value.
pub fn response_to_json(r: Response) -> (j: Json)
    ensures
        jv(j) == resp_jval(r.model()),
{
    let ghost m = r.model();
    let mut fs: Vec<(Vec<u8>, Json)> = Vec::new();
    fs.push((("jsonrpc").as_bytes_vec(), Json::Str(r.jsonrpc)));
    let idv = match r.id {
        Some(v) => v,
        None => Json::Null,
    };
    fs.push((("id").as_bytes_vec(), idv));
    match r.result {
        Some(v) => {
            fs.push((("result").as_bytes_vec(), v));
        },
        None => {},
    }
    match r.error {
        Some(e) => {
            let ej = error_to_json(e);
            fs.push((("error").as_bytes_vec(), ej));
        },
        None => {},
    }
    proof {
        lemma_jv_fields(fs@);
        assert(jv_fields(fs@) =~= (seq![
            (("jsonrpc").spec_bytes(), JVal::Str(m.jsonrpc)),
            (
                ("id").spec_bytes(),
                match m.id {
                    Some(v) => v,
                    None => JVal::Null,
                },
            ),
        ] + (match m.result {
            Some(v) => seq![(("result").spec_bytes(), v)],
            None => Seq::<(Seq<u8>, JVal)>::empty(),
        }) + (match m.error {
            Some(e) => seq![(("error").spec_bytes(), err_jval(e))],
            None => Seq::<(Seq<u8>, JVal)>::empty(),
        })));
    }
    Json::Obj(fs)
}

/// Serialize a response to one line's bytes (terminator not included).
pub fn encode_response(r: Response) -> (out: Vec<u8>)
    ensures
        out@ == jser(resp_jval(r.model())),
{
    let j = response_to_json(r);
    encode_json(&j)
}

/// How an error object is read back from a JSON value.
pub open spec fn err_of(v: JVal) -> Option<ErrModel> {
    match v {
        JVal::Obj(fs) => {
            match (lookup(fs, ("code").spec_bytes()), lookup(fs, ("message").spec_bytes())) {
                (Some(JVal::Int(c)), Some(JVal::Str(msg))) => if -0x8000_0000 <= c as int
                    <= 0x7fff_ffff {
                    Some(
                        ErrModel {
                            code: c as i32,
                            message: msg,
                            data: opt_field(lookup(fs, ("data").spec_bytes())),
                        },
                    )
                } else {
                    None
                },
                _ => None,
            }
        },
        _ => None,
    }
}

/// How a response is read back from a decoded message value.
pub open spec fn resp_of(v: JVal) -> Option<RespModel> {
    match v {
        JVal::Obj(fs) => {
            match lookup(fs, ("jsonrpc").spec_bytes()) {
                Some(JVal::Str(jrs)) => {
                    let e = opt_field(lookup(fs, ("error").spec_bytes()));
                    match e {
                        Some(ev) => match err_of(ev) {
                            Some(em) => Some(
                                RespModel {
                                    jsonrpc: jrs,
                                    id: opt_field(lookup(fs, ("id").spec_bytes())),
                                    result: opt_field(lookup(fs, ("result").spec_bytes())),
                                    error: Some(em),
                                },
                            ),
                            None => None,
                        },
                        None => Some(
                            RespModel {
                                jsonrpc: jrs,
                                id: opt_field(lookup(fs, ("id").spec_bytes())),
                                result: opt_field(lookup(fs, ("result").spec_bytes())),
                                error: None,
                            },
                        ),
                    }
                },
                _ => None,
            }
        },
        _ => None,
    }
}

/// The response keys, and the error-object keys, are pairwise different.
proof fn lemma_resp_keys_distinct()
    ensures
        ("jsonrpc").spec_bytes() != ("id").spec_bytes(),
        ("jsonrpc").spec_bytes() != ("result").spec_bytes(),
        ("jsonrpc").spec_bytes() != ("error").spec_bytes(),
        ("id").spec_bytes() != ("result").spec_bytes(),
        ("id").spec_bytes() != ("error").spec_bytes(),
        ("result").spec_bytes() != ("error").spec_bytes(),
        ("code").spec_bytes() != ("message").spec_bytes(),
        ("code").spec_bytes() != ("data").spec_bytes(),
        ("message").spec_bytes() != ("data").spec_bytes(),
{
    reveal_strlit("jsonrpc");
    reveal_strlit("id");
    reveal_strlit("result");
    reveal_strlit("error");
    reveal_strlit("code");
    reveal_strlit("message");
    reveal_strlit("data");
    vstd::string::is_ascii_spec_bytes("jsonrpc");
    vstd::string::is_ascii_spec_bytes("id");
    vstd::string::is_ascii_spec_bytes("result");
    vstd::string::is_ascii_spec_bytes("error");
    vstd::string::is_ascii_spec_bytes("code");
    vstd::string::is_ascii_spec_bytes("message");
    vstd::string::is_ascii_spec_bytes("data");
    assert(vstd::string::is_ascii("jsonrpc"));
    assert(vstd::string::is_ascii("id"));
    assert(vstd::string::is_ascii("result"));
    assert(vstd::string::is_ascii("error"));
    assert(vstd::string::is_ascii("code"));
    assert(vstd::string::is_ascii("message"));
    assert(vstd::string::is_ascii("data"));
    assert(("jsonrpc").spec_bytes().len() == 7);
    assert(("id").spec_bytes().len() == 2);
    assert(("result").spec_bytes().len() == 6);
    assert(("error").spec_bytes().len() == 5);
    assert(("code").spec_bytes().len() == 4);
    assert(("message").spec_bytes().len() == 7);
    assert(("data").spec_bytes().len() == 4);
    assert(("code").spec_bytes()[0] == 'c' as u8);
    assert(("data").spec_bytes()[0] == 'd' as u8);
    assert(("jsonrpc").spec_bytes()[0] == 'j' as u8);
    assert(("message").spec_bytes()[0] == 'm' as u8);
}

/// A response read back, with a present-but-null optional taken as
/// absent: the shape decoding cannot tell the two apart, by design.
pub open spec fn resp_norm(m: RespModel) -> RespModel {
    RespModel {
        jsonrpc: m.jsonrpc,
        id: opt_field(m.id),
        result: opt_field(m.result),
        error: match m.error {
            Some(e) => Some(ErrModel { code: e.code, message: e.message, data: opt_field(e.data) }),
            None => None,
        },
    }
}

proof fn lemma_err_roundtrip(e: ErrModel)
    ensures
        err_of(err_jval(e)) == Some(
            ErrModel { code: e.code, message: e.message, data: opt_field(e.data) },
        ),
{
    lemma_resp_keys_distinct();
    let head = seq![
        (("code").spec_bytes(), JVal::Int(e.code as i64)),
        (("message").spec_bytes(), JVal::Str(e.message)),
    ];
    let tail = (match e.data {
        Some(d) => seq![(("data").spec_bytes(), d)],
        None => Seq::<(Seq<u8>, JVal)>::empty(),
    });
    let fs = head + tail;
    assert(head.subrange(1, 2) =~= seq![head[1]]);
    lemma_lookup_singleton(head[1], ("code").spec_bytes());
    lemma_lookup_singleton(head[1], ("message").spec_bytes());
    lemma_lookup_singleton(head[1], ("data").spec_bytes());
    lemma_lookup_append(head, tail, ("code").spec_bytes());
    lemma_lookup_append(head, tail, ("message").spec_bytes());
    lemma_lookup_append(head, tail, ("data").spec_bytes());
    match e.data {
        Some(d) => {
            lemma_lookup_singleton((("data").spec_bytes(), d), ("data").spec_bytes());
        },
        None => {},
    }
    assert(lookup(fs, ("code").spec_bytes()) == Some(JVal::Int(e.code as i64)));
    assert(lookup(fs, ("message").spec_bytes()) == Some(JVal::Str(e.message)));
}

/// Decoding an encoded response gives the same response, up to a
/// present-but-null optional being read as absent.
pub proof fn lemma_resp_roundtrip(m: RespModel)
    ensures
        resp_of(resp_jval(m)) == Some(resp_norm(m)),
{
    lemma_resp_keys_distinct();
    let head = seq![
        (("jsonrpc").spec_bytes(), JVal::Str(m.jsonrpc)),
        (
            ("id").spec_bytes(),
            match m.id {
                Some(v) => v,
                None => JVal::Null,
            },
        ),
    ];
    let res_part = (match m.result {
        Some(v) => seq![(("result").spec_bytes(), v)],
        None => Seq::<(Seq<u8>, JVal)>::empty(),
    });
    let err_part = (match m.error {
        Some(e) => seq![(("error").spec_bytes(), err_jval(e))],
        None => Seq::<(Seq<u8>, JVal)>::empty(),
    });
    let fs = head + res_part + err_part;
    assert(head.subrange(1, 2) =~= seq![head[1]]);
    lemma_lookup_append(head + res_part, err_part, ("jsonrpc").spec_bytes());
    lemma_lookup_append(head + res_part, err_part, ("id").spec_bytes());
    lemma_lookup_append(head + res_part, err_part, ("result").spec_bytes());
    lemma_lookup_append(head + res_part, err_part, ("error").spec_bytes());
    lemma_lookup_append(head, res_part, ("jsonrpc").spec_bytes());
    lemma_lookup_append(head, res_part, ("id").spec_bytes());
    lemma_lookup_append(head, res_part, ("result").spec_bytes());
    lemma_lookup_append(head, res_part, ("error").spec_bytes());
    lemma_lookup_singleton(head[1], ("jsonrpc").spec_bytes());
    lemma_lookup_singleton(head[1], ("id").spec_bytes());
    lemma_lookup_singleton(head[1], ("result").spec_bytes());
    lemma_lookup_singleton(head[1], ("error").spec_bytes());
    match m.result {
        Some(v) => {
            lemma_lookup_singleton((("result").spec_bytes(), v), ("jsonrpc").spec_bytes());
            lemma_lookup_singleton((("result").spec_bytes(), v), ("id").spec_bytes());
            lemma_lookup_singleton((("result").spec_bytes(), v), ("result").spec_bytes());
            lemma_lookup_singleton((("result").spec_bytes(), v), ("error").spec_bytes());
        },
        None => {},
    }
    match m.error {
        Some(e) => {
            lemma_lookup_singleton((("error").spec_bytes(), err_jval(e)), ("jsonrpc").spec_bytes());
            lemma_lookup_singleton((("error").spec_bytes(), err_jval(e)), ("id").spec_bytes());
            lemma_lookup_singleton((("error").spec_bytes(), err_jval(e)), ("result").spec_bytes());
            lemma_lookup_singleton((("error").spec_bytes(), err_jval(e)), ("error").spec_bytes());
            lemma_err_roundtrip(e);
        },
        None => {},
    }
    assert(lookup(Seq::<(Seq<u8>, JVal)>::empty(), ("jsonrpc").spec_bytes()) is None);
    assert(lookup(Seq::<(Seq<u8>, JVal)>::empty(), ("id").spec_bytes()) is None);
    assert(lookup(Seq::<(Seq<u8>, JVal)>::empty(), ("result").spec_bytes()) is None);
    assert(lookup(Seq::<(Seq<u8>, JVal)>::empty(), ("error").spec_bytes()) is None);
    assert(lookup(fs, ("jsonrpc").spec_bytes()) == Some(JVal::Str(m.jsonrpc)));
    assert(opt_field(lookup(fs, ("id").spec_bytes())) == opt_field(m.id));
    assert(opt_field(lookup(fs, ("result").spec_bytes())) == opt_field(m.result));
    assert(opt_field(lookup(fs, ("error").spec_bytes())) == (match m.error {
        Some(e) => Some(err_jval(e)),
        None => None::<JVal>,
    }));
}

/// Encoding a response to its wire line and decoding that line back
/// yields a structurally equal response: the bytes parse to exactly the
/// encoded value, and the envelope read off it differs only in that a
/// present-but-null optional is taken as absent.  Stated for responses
/// whose numbers are all plain integers; a raw number token carried in
/// an echoed id reparses faithfully only when its text is not that of a
/// plain integer, which holds of every token the parser itself yields.
pub proof fn lemma_response_roundtrip(m: RespModel)
    requires
        int_only(resp_jval(m)),
    ensures
        sp_json(jser(resp_jval(m))) == Some(resp_jval(m)),
        resp_of(resp_jval(m)) == Some(resp_norm(m)),
{
    lemma_json_roundtrip(resp_jval(m));
    lemma_resp_roundtrip(m);
}

} // verus!
