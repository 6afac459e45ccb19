use crate::errors::HttpError;
use crate::message::spec_lower;
use crate::message::Request;
use crate::message::Response;
use crate::router::normalize;
use crate::router::spec_normalize;
use crate::router::Router;
use crate::status::StatusCode;
use vstd::prelude::*;
use vstd::string::StringSliceAdditionalSpecFns;

verus! {

broadcast use vstd::string::group_string_axioms;

/// Whether any Connection header value of the request reads as the given
/// text, letter case aside.
pub open spec fn spec_connection_has(req: &Request, wanted: Seq<char>) -> bool {
    req.headers.as_map().contains_key("Connection"@) && exists|i: int|
        0 <= i < req.headers.as_map()["Connection"@].len() && spec_lower(
            #[trigger] req.headers.as_map()["Connection"@][i],
        ) == wanted
}

/// Whether a request asks for a persistent connection: no Connection
/// value reads close, and either the version is HTTP/1.1 or HTTP/2, or
/// it is HTTP/1.0 with a Connection value reading keep-alive.
pub open spec fn spec_connection_persistent(req: &Request) -> bool {
    if spec_connection_has(req, "close"@) {
        false
    } else if req.version@ == "HTTP/1.1"@ || req.version@ == "HTTP/2"@ {
        true
    } else if req.version@ == "HTTP/1.0"@ && spec_connection_has(req, "keep-alive"@) {
        true
    } else {
        false
    }
}

/// Decides whether a request requires its connection to be kept open for
/// a further request.
#[verifier::loop_isolation(false)]
pub fn is_connection_persistent(request: &Request) -> (r: bool)
    requires
        request.headers.wf(),
    ensures
        r == spec_connection_persistent(request),
{
    let mut has_close = false;
    let mut has_keep_alive = false;
    match request.headers.get("Connection") {
        None => {},
        Some(values) => {
            let ghost vs = request.headers.as_map()["Connection"@];
            let n = values.len();
            let mut i: usize = 0;
            while i < n
                invariant
                    n == values@.len(),
                    i <= n,
                    vs == values.deep_view(),
                    has_close == exists|j: int|
                        0 <= j < i && spec_lower(#[trigger] vs[j]) == "close"@,
                    has_keep_alive == exists|j: int|
                        0 <= j < i && spec_lower(#[trigger] vs[j]) == "keep-alive"@,
                decreases n - i,
            {
                proof {
                    assert(vs[i as int] == values@[i as int]@);
                }
                let low = crate::message::ascii_lower(values[i].as_str());
                if crate::text::str_eq(low.as_str(), "close") {
                    proof {
                        assert(spec_lower(vs[i as int]) == "close"@);
                    }
                    has_close = true;
                }
                if crate::text::str_eq(low.as_str(), "keep-alive") {
                    proof {
                        assert(spec_lower(vs[i as int]) == "keep-alive"@);
                    }
                    has_keep_alive = true;
                }
                i = i + 1;
            }
        },
    }
    if has_close {
        return false;
    }
    if crate::text::str_eq(request.version.as_str(), "HTTP/1.1") || crate::text::str_eq(
        request.version.as_str(),
        "HTTP/2",
    ) {
        return true;
    }
    if crate::text::str_eq(request.version.as_str(), "HTTP/1.0") && has_keep_alive {
        return true;
    }
    false
}

/// What a conversation does with the outcome of reading one request:
/// hand the request on and say whether the connection stays open, answer
/// with a refusal and close, or end silently.
pub enum RequestPlan {
    /// Run the request's handler; the flag says whether the connection
    /// may serve a further request afterwards.
    Handle(Request, bool),
    /// Write this refusal back and close the connection.
    Reject(Response),
    /// End the conversation without writing anything.
    Drop,
}

/// Decides what a conversation does after reading one request: a request
/// is handled and its persistence rule applied; a malformed request is
/// answered with 400 Bad Request and the connection closed; a timeout,
/// a closed connection, or an unknown failure ends the conversation
/// silently.
pub fn plan_request(outcome: Result<Request, HttpError>) -> (r: RequestPlan)
    requires
        outcome matches Ok(req) ==> req.headers.wf(),
    ensures
        match outcome {
            Ok(req) => r matches RequestPlan::Handle(q, keep) && q == req && keep
                == spec_connection_persistent(&req),
            Err(e) => {
                if e matches HttpError::InvalidRequest(_) {
                    r matches RequestPlan::Reject(resp) && resp.status == StatusCode::BadRequest
                        && resp.body is None && resp.headers.entries_seq() =~= Seq::<
                        (Seq<char>, Seq<Seq<char>>),
                    >::empty()
                } else {
                    r is Drop
                }
            },
        },
{
    match outcome {
        Ok(req) => {
            let keep = is_connection_persistent(&req);
            RequestPlan::Handle(req, keep)
        },
        Err(e) => match e {
            HttpError::InvalidRequest(_) => RequestPlan::Reject(
                Response::from_status(StatusCode::BadRequest),
            ),
            _ => RequestPlan::Drop,
        },
    }
}

/// How a request's target resolves against the routes.
pub enum Resolution<'a, T> {
    /// The handler to run, and the normalized path that the request's
    /// target is rewritten to.
    Action(&'a T, String),
    /// The target normalized, but no route serves it for this method.
    NotFound(String),
    /// The target is relative or escapes the root.
    Invalid,
}

/// Resolves a request target: the target is normalized, and the deepest
/// route that is an ancestor of the normalized path and serves the
/// method wins; a target that cannot be normalized resolves to nothing.
pub fn resolve<'a, T>(routes: &'a Router<T>, uri: &str, method: crate::method::HttpMethod) -> (r:
    Resolution<'a, T>)
    requires
        routes.wf(),
    ensures
        match r {
            Resolution::Invalid => spec_normalize(uri@) is None,
            Resolution::NotFound(p) => {
                &&& spec_normalize(uri@) == Some(p@)
                &&& forall|l: int|
                    1 <= l <= vstd::utf8::encode_utf8(p@).len() ==> (#[trigger] routes.route_action(
                        vstd::utf8::encode_utf8(p@).take(l),
                        method,
                    )) is None
            },
            Resolution::Action(v, p) => {
                &&& spec_normalize(uri@) == Some(p@)
                &&& exists|l: int|
                    1 <= l <= vstd::utf8::encode_utf8(p@).len() && (#[trigger] routes.route_action(
                        vstd::utf8::encode_utf8(p@).take(l),
                        method,
                    )) == Some(*v) && forall|m2: int|
                        l < m2 <= vstd::utf8::encode_utf8(p@).len() ==> routes.route_action(
                            #[trigger] vstd::utf8::encode_utf8(p@).take(m2),
                            method,
                        ) is None
            },
        },
{
    let normalized = match normalize(uri) {
        Err(_) => {
            return Resolution::Invalid;
        },
        Ok(p) => p,
    };
    match routes.get_prefix(normalized.as_str(), method) {
        Some(action) => Resolution::Action(action, normalized),
        None => Resolution::NotFound(normalized),
    }
}

} // verus!
