//! Routing of one request: method, path, headers, and the reply that a
//! lookup gives.

use vstd::prelude::*;

use crate::table::{resolve, ScopeTable, UpdateResult};
use crate::text::{chars_of, lemma_pieces_nonempty, pieces, split_pieces, string_of, strings_of, Sep};

verus! {

/// How the service was configured.
#[derive(Clone, Debug)]
pub struct Settings {
    /// The header whose value is recorded as a request id, if any.
    pub req_id_header: Option<String>,
    /// The name of the update route, if not the default one.
    pub update_key: Option<String>,
    pub allow_update: bool,
    /// Answer a hit with the stored value as text instead of a redirect.
    pub return_value: bool,
    pub no_fill_https: bool,
}

/// `__update__`, the update route's name unless another is configured.
pub open spec fn default_update_key() -> Seq<char> {
    seq!['_', '_', 'u', 'p', 'd', 'a', 't', 'e', '_', '_']
}

pub open spec fn route_name(update_key: Option<String>) -> Seq<char> {
    match update_key {
        Some(k) => k@,
        None => default_update_key(),
    }
}

/// The name of the update route.
pub fn update_route_name(update_key: &Option<String>) -> (r: String)
    ensures
        r@ == route_name(*update_key),
{
    match update_key {
        Some(k) => k.clone(),
        None => {
            let mut cs: Vec<char> = Vec::new();
            cs.push('_');
            cs.push('_');
            cs.push('u');
            cs.push('p');
            cs.push('d');
            cs.push('a');
            cs.push('t');
            cs.push('e');
            cs.push('_');
            cs.push('_');
            assert(cs@ =~= default_update_key());
            string_of(&cs)
        },
    }
}

/// Whether a header byte is visible ASCII or a tab.
pub open spec fn is_visible(b: u8) -> bool {
    (32 <= b && b < 127) || b == 9
}

/// A header value read as text: absent, or its bytes as characters when
/// they are all visible ASCII, else an error.
pub open spec fn header_model(raw: Option<Seq<u8>>) -> Result<Option<Seq<char>>, ()> {
    match raw {
        None => Ok(None),
        Some(bs) => if forall|i: int| 0 <= i < bs.len() ==> is_visible(#[trigger] bs[i]) {
            Ok(Some(bs.map_values(|b: u8| b as char)))
        } else {
            Err(())
        },
    }
}

pub open spec fn raw_view(raw: Option<Vec<u8>>) -> Option<Seq<u8>> {
    match raw {
        Some(bs) => Some(bs@),
        None => None,
    }
}

pub open spec fn opt_view(o: Option<String>) -> Option<Seq<char>> {
    match o {
        Some(s) => Some(s@),
        None => None,
    }
}

/// Reads a header value as text (see `header_model`).
pub fn header_text(raw: &Option<Vec<u8>>) -> (r: Result<Option<String>, ()>)
    ensures
        match r {
            Ok(t) => header_model(raw_view(*raw)) == Ok::<Option<Seq<char>>, ()>(opt_view(t)),
            Err(_) => header_model(raw_view(*raw)) is Err,
        },
{
    match raw {
        None => Ok(None),
        Some(bs) => {
            let mut cs: Vec<char> = Vec::new();
            let n = bs.len();
            let mut i: usize = 0;
            while i < n
                invariant
                    raw_view(*raw) == Some(bs@),
                    n == bs@.len(),
                    i <= n,
                    forall|j: int| 0 <= j < i ==> is_visible(#[trigger] bs@[j]),
                    cs@ =~= bs@.take(i as int).map_values(|b: u8| b as char),
                decreases n - i,
            {
                let b = bs[i];
                if !((32 <= b && b < 127) || b == 9) {
                    assert(!is_visible(bs@[i as int]));
                    assert(!(forall|j: int| 0 <= j < bs@.len() ==> is_visible(#[trigger] bs@[j])));
                    return Err(());
                }
                cs.push(b as char);
                i = i + 1;
            }
            assert(bs@.take(n as int) =~= bs@);
            Ok(Some(string_of(&cs)))
        },
    }
}

/// The scope and key of a path `/scope/key`, both non-empty.
pub open spec fn path_segments(path: Seq<char>) -> Option<(Seq<char>, Seq<char>)> {
    if path.len() > 0 && path[0] == '/' {
        let p = pieces(path.drop_first(), Sep::Slash);
        if p.len() == 2 && p[0].len() > 0 && p[1].len() > 0 {
            Some((p[0], p[1]))
        } else {
            None
        }
    } else {
        None
    }
}

/// Splits a path `/scope/key` into its scope and key.
pub fn split_path(path: &str) -> (r: Option<(String, String)>)
    ensures
        match r {
            Some((s, k)) => path_segments(path@) == Some((s@, k@)),
            None => path_segments(path@) is None,
        },
{
    let mut cs = chars_of(path);
    if cs.len() == 0 || cs[0] != '/' {
        return None;
    }
    let rest = cs.split_off(1);
    assert(rest@ =~= path@.drop_first());
    let p = split_pieces(&rest, Sep::Slash);
    proof {
        lemma_pieces_nonempty(rest@, Sep::Slash);
    }
    if p.len() != 2 || p[0].len() == 0 || p[1].len() == 0 {
        assert(p@[0]@ =~= p.deep_view()[0]);
        assert(p.len() == 2 ==> p@[1]@ =~= p.deep_view()[1]);
        return None;
    }
    assert(p@[0]@ =~= p.deep_view()[0]);
    assert(p@[1]@ =~= p.deep_view()[1]);
    Some((string_of(&p[0]), string_of(&p[1])))
}

/// The hops a request came through: each entry of `X-Forwarded-For` as it
/// stands, then the immediate peer.
pub open spec fn forwarded_chain(xff: Option<Seq<char>>, peer: Seq<char>) -> Seq<Seq<char>> {
    match xff {
        Some(x) => pieces(x, Sep::Comma).push(peer),
        None => seq![peer],
    }
}

pub fn forwarded_from(xff: &Option<String>, peer: &str) -> (r: Vec<String>)
    ensures
        r.deep_view() == forwarded_chain(opt_view(*xff), peer@),
{
    let mut out: Vec<String> = match xff {
        Some(x) => {
            let cs = chars_of(x.as_str());
            let p = split_pieces(&cs, Sep::Comma);
            strings_of(&p)
        },
        None => Vec::new(),
    };
    let ghost before = out.deep_view();
    out.push(peer.to_owned());
    assert(out.deep_view() =~= before.push(peer@));
    out
}

/// What is recorded of a request that was routed.
#[derive(Clone, Debug)]
pub struct RequestInfo {
    pub from: Vec<String>,
    pub req_id: Option<String>,
    pub ua: Option<String>,
    pub scope: String,
    pub key: String,
}

/// `RequestInfo` as a value.
pub struct RequestModel {
    pub from: Seq<Seq<char>>,
    pub req_id: Option<Seq<char>>,
    pub ua: Option<Seq<char>>,
    pub scope: Seq<char>,
    pub key: Seq<char>,
}

impl View for RequestInfo {
    type V = RequestModel;

    open spec fn view(&self) -> RequestModel {
        RequestModel {
            from: self.from.deep_view(),
            req_id: opt_view(self.req_id),
            ua: opt_view(self.ua),
            scope: self.scope@,
            key: self.key@,
        }
    }
}

/// Where a request goes. A rejected request gets an empty reply with the
/// status and is not recorded; the others are recorded once each.
#[derive(Clone, Debug)]
pub enum Dispatch {
    Reject(u16),
    Lookup(RequestInfo),
    Update(RequestInfo),
}

pub enum DispatchModel {
    Reject(u16),
    Lookup(RequestModel),
    Update(RequestModel),
}

impl View for Dispatch {
    type V = DispatchModel;

    open spec fn view(&self) -> DispatchModel {
        match self {
            Dispatch::Reject(s) => DispatchModel::Reject(*s),
            Dispatch::Lookup(i) => DispatchModel::Lookup(i@),
            Dispatch::Update(i) => DispatchModel::Update(i@),
        }
    }
}

/// Where a request goes: 405 for a method other than GET, 404 for a path
/// that is not `/scope/key`, 400 for a consulted header that is not text;
/// else the update route when updates are allowed and the scope is its
/// name (the key then names the scope to update), or a lookup.
pub open spec fn dispatch_model(
    settings: Settings,
    is_get: bool,
    path: Seq<char>,
    xff: Option<Seq<u8>>,
    ua: Option<Seq<u8>>,
    req_id: Option<Seq<u8>>,
    peer: Seq<char>,
) -> DispatchModel {
    if !is_get {
        DispatchModel::Reject(405)
    } else {
        match path_segments(path) {
            None => DispatchModel::Reject(404),
            Some((scope, key)) => {
                let x = header_model(xff);
                let u = header_model(ua);
                let r = if settings.req_id_header is Some {
                    header_model(req_id)
                } else {
                    Ok(None)
                };
                match (x, u, r) {
                    (Ok(x), Ok(u), Ok(r)) => {
                        let m = RequestModel {
                            from: forwarded_chain(x, peer),
                            req_id: r,
                            ua: u,
                            scope,
                            key,
                        };
                        if settings.allow_update && scope == route_name(settings.update_key) {
                            DispatchModel::Update(m)
                        } else {
                            DispatchModel::Lookup(m)
                        }
                    },
                    _ => DispatchModel::Reject(400),
                }
            },
        }
    }
}

/// Routes a request (see `dispatch_model`). The headers are given as raw
/// bytes; `req_id` is the value of the configured request-id header.
pub fn dispatch(
    settings: &Settings,
    is_get: bool,
    path: &str,
    xff: &Option<Vec<u8>>,
    ua: &Option<Vec<u8>>,
    req_id: &Option<Vec<u8>>,
    peer: &str,
) -> (r: Dispatch)
    ensures
        r@ == dispatch_model(
            *settings,
            is_get,
            path@,
            raw_view(*xff),
            raw_view(*ua),
            raw_view(*req_id),
            peer@,
        ),
{
    if !is_get {
        return Dispatch::Reject(405);
    }
    let (scope, key) = match split_path(path) {
        None => return Dispatch::Reject(404),
        Some(sk) => sk,
    };
    let x = match header_text(xff) {
        Err(_) => return Dispatch::Reject(400),
        Ok(x) => x,
    };
    let u = match header_text(ua) {
        Err(_) => return Dispatch::Reject(400),
        Ok(u) => u,
    };
    let r = if settings.req_id_header.is_some() {
        match header_text(req_id) {
            Err(_) => return Dispatch::Reject(400),
            Ok(r) => r,
        }
    } else {
        None
    };
    let from = forwarded_from(&x, peer);
    let route = update_route_name(&settings.update_key);
    let is_update = settings.allow_update && scope == route;
    let info = RequestInfo { from, req_id: r, ua: u, scope, key };
    if is_update {
        Dispatch::Update(info)
    } else {
        Dispatch::Lookup(info)
    }
}

/// The reply to a request.
#[derive(Clone, Debug, PartialEq, Eq)]
pub enum Reply {
    /// No body, with this status.
    Empty(u16),
    /// 307, with this `Location`.
    Redirect(String),
    /// 200, with this plain-text body.
    Text(String),
}

pub enum ReplyModel {
    Empty(u16),
    Redirect(Seq<char>),
    Text(Seq<char>),
}

impl View for Reply {
    type V = ReplyModel;

    open spec fn view(&self) -> ReplyModel {
        match self {
            Reply::Empty(s) => ReplyModel::Empty(*s),
            Reply::Redirect(u) => ReplyModel::Redirect(u@),
            Reply::Text(t) => ReplyModel::Text(t@),
        }
    }
}

/// The reply to a lookup that found `found`: 404 for a miss; for a hit the
/// stored URL unchanged, as a redirect or as text.
pub open spec fn lookup_reply_model(found: Option<Seq<char>>, return_value: bool) -> ReplyModel {
    match found {
        None => ReplyModel::Empty(404),
        Some(v) => if return_value {
            ReplyModel::Text(v)
        } else {
            ReplyModel::Redirect(v)
        },
    }
}

/// Answers a lookup of `scope` and `key`; the flag tells whether it hit.
pub fn answer_lookup(table: &ScopeTable, scope: &str, key: &str, return_value: bool) -> (r: (
    Reply,
    bool,
))
    ensures
        r.0@ == lookup_reply_model(resolve(table@, scope@, key@), return_value),
        r.1 == resolve(table@, scope@, key@) is Some,
{
    match table.get(scope, key) {
        None => (Reply::Empty(404), false),
        Some(v) => if return_value {
            (Reply::Text(v), true)
        } else {
            (Reply::Redirect(v), true)
        },
    }
}

/// The status of the reply to an update: 200 on success, 404 for an
/// unknown scope, 500 for a fetch or parse failure.
pub fn update_status(r: &UpdateResult) -> (s: u16)
    ensures
        s == match r {
            UpdateResult::Succeed { .. } => 200u16,
            UpdateResult::ScopeNotFound => 404u16,
            _ => 500u16,
        },
{
    match r {
        UpdateResult::Succeed { .. } => 200,
        UpdateResult::ScopeNotFound => 404,
        _ => 500,
    }
}

} // verus!
