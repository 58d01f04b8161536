//! The route table and its three handlers. Each handler is a pure function
//! returning a constant status code and body; `dispatch` maps a request path
//! to the handler's response, or `None` where no route matches.

use vstd::prelude::*;
use vstd::string::StrSliceExecFns;

verus! {

/// An HTTP response as this service produces it: a status code and a
/// constant body.
pub struct HttpResponse {
    pub status: u16,
    pub body: &'static str,
}

/// The route table: which status and body each path is answered with.
/// Unknown paths get `None` (the server answers those with its default
/// not-found response).
pub open spec fn spec_route(path: Seq<char>) -> Option<(int, Seq<char>)> {
    if path == "/"@ {
        Some((200int, "OxideEngine Running"@))
    } else if path == "/health"@ {
        Some((200int, "Healthy"@))
    } else if path == "/error"@ {
        Some((500int, "Server Error"@))
    } else {
        None
    }
}

/// Handler for `/`.
pub fn root_handler() -> (r: HttpResponse)
    ensures
        r.status == 200,
        r.body@ == "OxideEngine Running"@,
{
    HttpResponse { status: 200, body: "OxideEngine Running" }
}

/// Handler for `/health`.
pub fn health_check() -> (r: HttpResponse)
    ensures
        r.status == 200,
        r.body@ == "Healthy"@,
{
    HttpResponse { status: 200, body: "Healthy" }
}

/// Handler for `/error`: deliberately always reports failure.
pub fn error_handler() -> (r: HttpResponse)
    ensures
        r.status == 500,
        r.body@ == "Server Error"@,
{
    HttpResponse { status: 500, body: "Server Error" }
}

/// Character-for-character string equality, decided on the views.
fn str_eq(a: &str, b: &str) -> (r: bool)
    ensures
        r == (a@ == b@),
{
    let alen = a.unicode_len();
    let blen = b.unicode_len();
    if alen != blen {
        return false;
    }
    let mut i: usize = 0;
    while i < alen
        invariant
            i <= alen,
            alen == a@.len(),
            alen == b@.len(),
            forall|j: int| 0 <= j < i ==> a@[j] == b@[j],
        decreases alen - i,
    {
        if a.get_char(i) != b.get_char(i) {
            return false;
        }
        i += 1;
    }
    proof {
        assert(a@ =~= b@);
    }
    true
}

/// Looks the path up in the route table and runs the matched handler.
pub fn dispatch(path: &str) -> (r: Option<HttpResponse>)
    ensures
        match r {
            Some(h) => spec_route(path@) == Some((h.status as int, h.body@)),
            None => spec_route(path@) is None,
        },
{
    if str_eq(path, "/") {
        Some(root_handler())
    } else if str_eq(path, "/health") {
        Some(health_check())
    } else if str_eq(path, "/error") {
        Some(error_handler())
    } else {
        None
    }
}

} // verus!
