//! The built-in repository-search tool: its typed parameters, its result
//! shape, and how both cross the JSON boundary.

use vstd::prelude::*;
use vstd::string::StrSliceExecFns;
use vstd::string::StringSliceAdditionalSpecFns;
use crate::error::MCPError;
use crate::json::{Json, JVal, jv, jv_seq, jv_fields, lemma_jv_seq, lemma_jv_fields, clone_bytes};
use crate::protocol::{lookup, lemma_lookup_append, lemma_lookup_singleton};

verus! {

/// Typed parameters of the search tool.
#[derive(Debug, PartialEq)]
pub struct SearchRepositoriesParams {
    pub query: Vec<u8>,
    pub page: Option<u32>,
    pub per_page: Option<u32>,
}

/// Model of the parameters.
pub struct ParamsModel {
    pub query: Seq<u8>,
    pub page: Option<u32>,
    pub per_page: Option<u32>,
}

impl SearchRepositoriesParams {
    pub open spec fn model(&self) -> ParamsModel {
        ParamsModel { query: self.query@, page: self.page, per_page: self.per_page }
    }

    /// The page requested, defaulting to 1 when absent.
    pub fn effective_page(&self) -> (p: u32)
        ensures
            p == (match self.page {
                Some(v) => v,
                None => 1u32,
            }),
    {
        match self.page {
            Some(v) => v,
            None => 1,
        }
    }

    /// The page size requested, defaulting to 30 when absent.
    pub fn effective_per_page(&self) -> (p: u32)
        ensures
            p == (match self.per_page {
                Some(v) => v,
                None => 30u32,
            }),
    {
        match self.per_page {
            Some(v) => v,
            None => 30,
        }
    }
}

/// An optional integer field: absent or null means none; a present value
/// must be an integer within the declared range.
pub open spec fn ranged_field(o: Option<JVal>, lo: u32, hi: u32) -> Option<Option<u32>> {
    match o {
        None => Some(None),
        Some(JVal::Null) => Some(None),
        Some(JVal::Int(n)) => if lo as int <= n as int <= hi as int {
            Some(Some(n as u32))
        } else {
            None
        },
        _ => None,
    }
}

/// How the tool's parameters are read off a JSON value: an object with a
/// required string `query`, an optional integer `page` of at least 1,
/// and an optional integer `per_page` between 1 and 100, as the tool's
/// advertised schema declares.
pub open spec fn params_of(v: JVal) -> Option<ParamsModel> {
    match v {
        JVal::Obj(fs) => {
            match (
                lookup(fs, ("query").spec_bytes()),
                ranged_field(lookup(fs, ("page").spec_bytes()), 1, 0xffff_ffff),
                ranged_field(lookup(fs, ("per_page").spec_bytes()), 1, 100),
            ) {
                (Some(JVal::Str(q)), Some(pg), Some(pp)) => Some(
                    ParamsModel { query: q, page: pg, per_page: pp },
                ),
                _ => None,
            }
        },
        _ => None,
    }
}

/// The three parameter keys are pairwise different byte strings.
proof fn lemma_param_keys_distinct()
    ensures
        ("query").spec_bytes() != ("page").spec_bytes(),
        ("query").spec_bytes() != ("per_page").spec_bytes(),
        ("page").spec_bytes() != ("per_page").spec_bytes(),
{
    reveal_strlit("query");
    reveal_strlit("page");
    reveal_strlit("per_page");
    vstd::string::is_ascii_spec_bytes("query");
    vstd::string::is_ascii_spec_bytes("page");
    vstd::string::is_ascii_spec_bytes("per_page");
    assert(vstd::string::is_ascii("query"));
    assert(vstd::string::is_ascii("page"));
    assert(vstd::string::is_ascii("per_page"));
    assert(("query").spec_bytes().len() == 5);
    assert(("page").spec_bytes().len() == 4);
    assert(("per_page").spec_bytes().len() == 8);
}

fn take_ranged(o: Option<Json>, lo: u32, hi: u32) -> (r: Result<Option<u32>, ()>)
    ensures
        match r {
            Ok(v) => ranged_field(crate::protocol::opt_jv(o), lo, hi) == Some(v),
            Err(_) => ranged_field(crate::protocol::opt_jv(o), lo, hi) is None,
        },
{
    match o {
        None => Ok(None),
        Some(Json::Null) => Ok(None),
        Some(Json::Int(n)) => {
            if lo as i64 <= n && n <= hi as i64 {
                Ok(Some(n as u32))
            } else {
                Err(())
            }
        },
        Some(_) => Err(()),
    }
}

/// Read the tool's parameters out of the inner params value.  Fails with
/// a parse error exactly when the value does not have the declared shape.
pub fn params_from_json(v: Json) -> (r: Result<SearchRepositoriesParams, MCPError>)
    ensures
        match r {
            Ok(p) => params_of(jv(v)) == Some(p.model()),
            Err(e) => params_of(jv(v)) is None && (e matches MCPError::Parse(_)),
        },
{
    let mut fields = match v {
        Json::Obj(fs) => fs,
        _ => {
            return Err(MCPError::Parse(("tool params are not an object").as_bytes_vec()));
        },
    };
    let ghost whole = jv_fields(fields@);
    let key_query = ("query").as_bytes_vec();
    let key_page = ("page").as_bytes_vec();
    let key_per_page = ("per_page").as_bytes_vec();
    let mut st_query: Option<Json> = None;
    let mut st_page: Option<Json> = None;
    let mut st_per_page: Option<Json> = None;
    while fields.len() > 0
        invariant
            key_query@ == ("query").spec_bytes(),
            key_page@ == ("page").spec_bytes(),
            key_per_page@ == ("per_page").spec_bytes(),
            crate::protocol::captures(whole, jv_fields(fields@), key_query@, st_query),
            crate::protocol::captures(whole, jv_fields(fields@), key_page@, st_page),
            crate::protocol::captures(whole, jv_fields(fields@), key_per_page@, st_per_page),
        decreases fields.len(),
    {
        let ghost prev = fields@;
        match fields.pop() {
            None => {
                assert(false);
            },
            Some((k, val)) => {
                proof {
                    lemma_param_keys_distinct();
                    lemma_jv_fields(prev);
                    lemma_jv_fields(fields@);
                    assert(jv_fields(prev) =~= jv_fields(fields@) + seq![(k@, jv(val))]);
                    lemma_lookup_append(jv_fields(fields@), seq![(k@, jv(val))], key_query@);
                    lemma_lookup_append(jv_fields(fields@), seq![(k@, jv(val))], key_page@);
                    lemma_lookup_append(jv_fields(fields@), seq![(k@, jv(val))], key_per_page@);
                    lemma_lookup_singleton((k@, jv(val)), key_query@);
                    lemma_lookup_singleton((k@, jv(val)), key_page@);
                    lemma_lookup_singleton((k@, jv(val)), key_per_page@);
                }
                if crate::json::bytes_eq(&k, &key_query) {
                    st_query = Some(val);
                } else if crate::json::bytes_eq(&k, &key_page) {
                    st_page = Some(val);
                } else if crate::json::bytes_eq(&k, &key_per_page) {
                    st_per_page = Some(val);
                }
            },
        }
    }
    proof {
        lemma_jv_fields(fields@);
        assert(jv_fields(fields@) =~= Seq::<(Seq<u8>, JVal)>::empty());
        assert(lookup(Seq::<(Seq<u8>, JVal)>::empty(), ("query").spec_bytes()) is None);
    }
    let query = match st_query {
        Some(Json::Str(s)) => s,
        _ => {
            return Err(MCPError::Parse(("missing or invalid query field").as_bytes_vec()));
        },
    };
    let page = match take_ranged(st_page, 1, 0xffff_ffff) {
        Ok(p) => p,
        Err(_) => {
            return Err(MCPError::Parse(("invalid page field").as_bytes_vec()));
        },
    };
    let per_page = match take_ranged(st_per_page, 1, 100) {
        Ok(p) => p,
        Err(_) => {
            return Err(MCPError::Parse(("invalid per_page field").as_bytes_vec()));
        },
    };
    Ok(SearchRepositoriesParams { query, page, per_page })
}

/// One repository in a search result.
#[derive(Debug, PartialEq)]
pub struct Repository {
    pub name: Vec<u8>,
    pub full_name: Vec<u8>,
    pub description: Option<Vec<u8>>,
    pub html_url: Vec<u8>,
    pub stargazers_count: u32,
}

/// A search result: the reported total and the page of items.
#[derive(Debug, PartialEq)]
pub struct SearchRepositoriesResult {
    pub total_count: u32,
    pub items: Vec<Repository>,
}

pub open spec fn opt_bytes(o: Option<Vec<u8>>) -> Option<Seq<u8>> {
    match o {
        Some(b) => Some(b@),
        None => None,
    }
}

impl Repository {
    /// Fold the raw optional fields of an API reply item into a
    /// repository: absent text becomes empty, an absent count zero.
    pub fn from_parts(
        name: Vec<u8>,
        full_name: Option<Vec<u8>>,
        description: Option<Vec<u8>>,
        html_url: Option<Vec<u8>>,
        stargazers_count: Option<u32>,
    ) -> (r: Repository)
        ensures
            r.name@ == name@,
            r.full_name@ == (match full_name {
                Some(f) => f@,
                None => Seq::<u8>::empty(),
            }),
            opt_bytes(r.description) == opt_bytes(description),
            r.html_url@ == (match html_url {
                Some(u) => u@,
                None => Seq::<u8>::empty(),
            }),
            r.stargazers_count == (match stargazers_count {
                Some(c) => c,
                None => 0u32,
            }),
    {
        Repository {
            name,
            full_name: match full_name {
                Some(f) => f,
                None => Vec::new(),
            },
            description,
            html_url: match html_url {
                Some(u) => u,
                None => Vec::new(),
            },
            stargazers_count: match stargazers_count {
                Some(c) => c,
                None => 0,
            },
        }
    }

    /// The JSON value this repository serializes to, fields in order.
    pub open spec fn jval(&self) -> JVal {
        JVal::Obj(
            seq![
                (("name").spec_bytes(), JVal::Str(self.name@)),
                (("full_name").spec_bytes(), JVal::Str(self.full_name@)),
                (
                    ("description").spec_bytes(),
                    match self.description {
                        Some(d) => JVal::Str(d@),
                        None => JVal::Null,
                    },
                ),
                (("html_url").spec_bytes(), JVal::Str(self.html_url@)),
                (("stargazers_count").spec_bytes(), JVal::Int(self.stargazers_count as i64)),
            ],
        )
    }
}

pub open spec fn repos_jv(s: Seq<Repository>) -> Seq<JVal>
    decreases s,
{
    if s.len() == 0 {
        Seq::empty()
    } else {
        seq![s[0].jval()] + repos_jv(s.subrange(1, s.len() as int))
    }
}

pub proof fn lemma_repos_jv(s: Seq<Repository>)
    ensures
        repos_jv(s).len() == s.len(),
        forall|i: int| 0 <= i < s.len() ==> repos_jv(s)[i] == s[i].jval(),
    decreases s,
{
    if s.len() > 0 {
        lemma_repos_jv(s.subrange(1, s.len() as int));
    }
}

impl SearchRepositoriesResult {
    /// The JSON value a whole search result serializes to.
    pub open spec fn jval(&self) -> JVal {
        JVal::Obj(
            seq![
                (("total_count").spec_bytes(), JVal::Int(self.total_count as i64)),
                (("items").spec_bytes(), JVal::Arr(repos_jv(self.items@))),
            ],
        )
    }

    /// Fold a raw reported total into the result's count field the way
    /// the reply is folded: absent becomes zero, a wide value is taken
    /// modulo 2^32.
    pub fn from_parts(total_count: Option<u64>, items: Vec<Repository>) -> (r:
        SearchRepositoriesResult)
        ensures
            r.total_count as int == (match total_count {
                Some(t) => t as int % 0x1_0000_0000,
                None => 0,
            }),
            r.items == items,
    {
        SearchRepositoriesResult {
            total_count: match total_count {
                Some(t) => (t % 0x1_0000_0000u64) as u32,
                None => 0,
            },
            items,
        }
    }
}

fn repo_to_json(r: &Repository) -> (j: Json)
    ensures
        jv(j) == r.jval(),
{
    let mut fs: Vec<(Vec<u8>, Json)> = Vec::new();
    fs.push((("name").as_bytes_vec(), Json::Str(clone_bytes(&r.name))));
    fs.push((("full_name").as_bytes_vec(), Json::Str(clone_bytes(&r.full_name))));
    let desc = match &r.description {
        Some(d) => Json::Str(clone_bytes(d)),
        None => Json::Null,
    };
    fs.push((("description").as_bytes_vec(), desc));
    fs.push((("html_url").as_bytes_vec(), Json::Str(clone_bytes(&r.html_url))));
    fs.push((("stargazers_count").as_bytes_vec(), Json::Int(r.stargazers_count as i64)));
    proof {
        lemma_jv_fields(fs@);
        assert(jv_fields(fs@) =~= (match r.jval() {
            JVal::Obj(target) => target,
            _ => Seq::<(Seq<u8>, JVal)>::empty(),
        }));
    }
    Json::Obj(fs)
}

/// Turn a search result into the JSON value of a successful reply.
pub fn result_to_json(res: &SearchRepositoriesResult) -> (j: Json)
    ensures
        jv(j) == res.jval(),
{
    let mut items: Vec<Json> = Vec::new();
    let mut i: usize = 0;
    while i < res.items.len()
        invariant
            i <= res.items.len(),
            items.len() == i,
            forall|k: int| 0 <= k < i ==> jv(items@[k]) == res.items@[k].jval(),
        decreases res.items.len() - i,
    {
        let ij = repo_to_json(&res.items[i]);
        items.push(ij);
        i = i + 1;
    }
    proof {
        lemma_jv_seq(items@);
        lemma_repos_jv(res.items@);
        assert(jv_seq(items@) =~= repos_jv(res.items@));
    }
    let mut fs: Vec<(Vec<u8>, Json)> = Vec::new();
    fs.push((("total_count").as_bytes_vec(), Json::Int(res.total_count as i64)));
    fs.push((("items").as_bytes_vec(), Json::Arr(items)));
    proof {
        lemma_jv_fields(fs@);
        assert(jv_fields(fs@) =~= (match res.jval() {
            JVal::Obj(target) => target,
            _ => Seq::<(Seq<u8>, JVal)>::empty(),
        }));
    }
    Json::Obj(fs)
}

} // verus!
