//! One listener for a family of paths: a request goes to the endpoint whose path it begins with,
//! and each endpoint answers the listener itself.
use vstd::prelude::*;
use vstd::slice::slice_subrange;

use crate::bytes;
use crate::http;
use crate::http::{json_reply, read_frame, Reply, REQ_HDR};
use crate::keys;
use crate::keys::count;

verus! {

pub const PATH_KEYPKG: &'static str = "/e2ee/keypackages";

pub const PATH_STATE: &'static str = "/e2ee/state";

pub const PATH_CREDENTIAL: &'static str = "/e2ee/credential";

/// Room for a reply.
pub const OUT_LEN: usize = 256;

/// Whether `path` begins with `prefix`.
pub fn starts_with(path: &[u8], prefix: &[u8]) -> (r: bool)
    ensures
        r == bytes::has_prefix(path@, prefix@),
{
    bytes::starts_with(path, prefix)
}

#[derive(Clone, Copy, Debug, PartialEq, Eq, Structural)]
pub enum Endpoint {
    KeyPackage,
    State,
    Credential,
}

/// Which endpoints can take a request now.
#[derive(Clone, Copy, Debug, PartialEq, Eq, Structural)]
pub struct Ready {
    pub key_package: bool,
    pub state: bool,
    pub credential: bool,
}

impl Ready {
    pub open spec fn at(self, endpoint: Endpoint) -> bool {
        match endpoint {
            Endpoint::KeyPackage => self.key_package,
            Endpoint::State => self.state,
            Endpoint::Credential => self.credential,
        }
    }
}

/// The endpoint that owns a path.
pub open spec fn owner(path: Seq<u8>) -> Option<Endpoint> {
    if bytes::has_prefix(path, bytes::text(PATH_KEYPKG)) {
        Some(Endpoint::KeyPackage)
    } else if bytes::has_prefix(path, bytes::text(PATH_STATE)) {
        Some(Endpoint::State)
    } else if bytes::has_prefix(path, bytes::text(PATH_CREDENTIAL)) {
        Some(Endpoint::Credential)
    } else {
        None
    }
}

pub enum Route {
    /// The request ends before its path does.
    Ignore,
    /// Hand the request on as it came.
    Forward(Endpoint),
    Reply(Reply),
}

pub struct Router {
    pub routed_credential: u32,
    pub routed_keypackage: u32,
    pub routed_state: u32,
    pub unrouted: u32,
}

impl Router {
    pub fn module_new() -> (r: Self)
        ensures
            r.routed_credential == 0,
            r.routed_keypackage == 0,
            r.routed_state == 0,
            r.unrouted == 0,
    {
        Router { routed_credential: 0, routed_keypackage: 0, routed_state: 0, unrouted: 0 }
    }

    /// The counters after a request for `path`.
    pub open spec fn routed(self, path: Seq<u8>) -> Self {
        match owner(path) {
            Some(Endpoint::KeyPackage) => Router {
                routed_keypackage: keys::counted(self.routed_keypackage),
                ..self
            },
            Some(Endpoint::State) => Router {
                routed_state: keys::counted(self.routed_state),
                ..self
            },
            Some(Endpoint::Credential) => Router {
                routed_credential: keys::counted(self.routed_credential),
                ..self
            },
            None => Router { unrouted: keys::counted(self.unrouted), ..self },
        }
    }

    /// Hand a request to whichever endpoint owns its path. An endpoint that cannot take it now is
    /// answered for, since a dropped request would read as a server that hangs.
    pub fn route(&mut self, request: &[u8], ready: Ready) -> (r: Route)
        ensures
            if request@.len() < 12 || 12 + http::path_len(request@) > request@.len() {
                r is Ignore && *final(self) == *old(self)
            } else {
                let path = http::path(request@);
                &&& *final(self) == old(self).routed(path)
                &&& match owner(path) {
                    Some(endpoint) => if ready.at(endpoint) {
                        r == Route::Forward(endpoint)
                    } else {
                        r matches Route::Reply(reply) && reply.answers(
                            request@,
                            503,
                            bytes::text("{\"error\":\"temporarily_unavailable\"}"),
                        )
                    },
                    None => r matches Route::Reply(reply) && reply.answers(
                        request@,
                        404,
                        bytes::text("{\"error\":\"not_found\"}"),
                    ),
                }
            },
    {
        let frame = match read_frame(request) {
            Some(frame) => frame,
            None => {
                return Route::Ignore;
            },
        };
        if REQ_HDR + frame.path_len > request.len() {
            return Route::Ignore;
        }
        let path = slice_subrange(request, REQ_HDR, REQ_HDR + frame.path_len);
        let (endpoint, free) = if starts_with(path, PATH_KEYPKG.as_bytes()) {
            count(&mut self.routed_keypackage);
            (Endpoint::KeyPackage, ready.key_package)
        } else if starts_with(path, PATH_STATE.as_bytes()) {
            count(&mut self.routed_state);
            (Endpoint::State, ready.state)
        } else if starts_with(path, PATH_CREDENTIAL.as_bytes()) {
            count(&mut self.routed_credential);
            (Endpoint::Credential, ready.credential)
        } else {
            count(&mut self.unrouted);
            return Route::Reply(
                json_reply(frame.conn, frame.stream, 404, "{\"error\":\"not_found\"}"),
            );
        };
        if !free {
            return Route::Reply(
                json_reply(
                    frame.conn,
                    frame.stream,
                    503,
                    "{\"error\":\"temporarily_unavailable\"}",
                ),
            );
        }
        Route::Forward(endpoint)
    }
}

/// No two of the path families have a path in common, so the order in which they are tried does
/// not matter.
pub proof fn families_are_disjoint(path: Seq<u8>)
    ensures
        !(bytes::has_prefix(path, bytes::text(PATH_KEYPKG)) && bytes::has_prefix(
            path,
            bytes::text(PATH_STATE),
        )),
        !(bytes::has_prefix(path, bytes::text(PATH_KEYPKG)) && bytes::has_prefix(
            path,
            bytes::text(PATH_CREDENTIAL),
        )),
        !(bytes::has_prefix(path, bytes::text(PATH_STATE)) && bytes::has_prefix(
            path,
            bytes::text(PATH_CREDENTIAL),
        )),
{
    reveal_strlit("/e2ee/keypackages");
    reveal_strlit("/e2ee/state");
    reveal_strlit("/e2ee/credential");
    assert("/e2ee/keypackages".is_ascii());
    assert("/e2ee/state".is_ascii());
    assert("/e2ee/credential".is_ascii());
    let k = bytes::text(PATH_KEYPKG);
    let s = bytes::text(PATH_STATE);
    let c = bytes::text(PATH_CREDENTIAL);
    assert(k[6] == 107 && s[6] == 115 && c[6] == 99);
    assert(bytes::has_prefix(path, k) ==> path[6] == path.take(k.len() as int)[6]);
    assert(bytes::has_prefix(path, s) ==> path[6] == path.take(s.len() as int)[6]);
    assert(bytes::has_prefix(path, c) ==> path[6] == path.take(c.len() as int)[6]);
}

/// A request goes to the endpoint whose name its path begins with, and to no other.
pub proof fn a_path_names_its_endpoint(path: Seq<u8>)
    ensures
        bytes::text("/e2ee/keypackages").is_prefix_of(path) <==> owner(path) == Some(
            Endpoint::KeyPackage,
        ),
        bytes::text("/e2ee/state").is_prefix_of(path) <==> owner(path) == Some(Endpoint::State),
        bytes::text("/e2ee/credential").is_prefix_of(path) <==> owner(path) == Some(
            Endpoint::Credential,
        ),
{
    families_are_disjoint(path);
}

} // verus!
