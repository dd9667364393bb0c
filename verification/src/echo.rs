//! An echo service: which route a request takes, and how the bodies of the
//! transforming routes are made.

use vstd::prelude::*;

use crate::proxy::Method;
use crate::text::str_eq;

verus! {

/// The body answered on `GET /`.
pub const ROOT_BODY: &'static str = "Body from `/`";

/// The routes of the echo service.
#[derive(Clone, Copy, Debug, PartialEq, Eq, Structural)]
pub enum Route {
    /// `GET /`: answer `ROOT_BODY`.
    Root,
    /// `POST /echo/uppercase/`: answer the body with ASCII letters in upper case.
    Uppercase,
    /// `POST /echo/reverse/`: answer the body's bytes in reverse order.
    Reverse,
    /// `POST /echo/`: answer the body unchanged.
    Echo,
    /// Anything else: answer `404 Not Found` with an empty body.
    NotFound,
}

/// The route of a request with this method and path.
pub open spec fn spec_route(method: Method, path: Seq<char>) -> Route {
    if method == Method::Get && path == "/"@ {
        Route::Root
    } else if method == Method::Post && path == "/echo/uppercase/"@ {
        Route::Uppercase
    } else if method == Method::Post && path == "/echo/reverse/"@ {
        Route::Reverse
    } else if method == Method::Post && path == "/echo/"@ {
        Route::Echo
    } else {
        Route::NotFound
    }
}

/// The route of a request with this method and path.
pub fn route(method: Method, path: &str) -> (r: Route)
    ensures
        r == spec_route(method, path@),
        r == Route::Root ==> method == Method::Get && path@ == "/"@,
        r == Route::Uppercase ==> method == Method::Post && path@ == "/echo/uppercase/"@,
        r == Route::Reverse ==> method == Method::Post && path@ == "/echo/reverse/"@,
        r == Route::Echo ==> method == Method::Post && path@ == "/echo/"@,
        r == Route::NotFound ==> !(method == Method::Get && path@ == "/"@) && !(method
            == Method::Post && (path@ == "/echo/uppercase/"@ || path@ == "/echo/reverse/"@
            || path@ == "/echo/"@)),
{
    if method == Method::Get && str_eq(path, "/") {
        Route::Root
    } else if method == Method::Post && str_eq(path, "/echo/uppercase/") {
        Route::Uppercase
    } else if method == Method::Post && str_eq(path, "/echo/reverse/") {
        Route::Reverse
    } else if method == Method::Post && str_eq(path, "/echo/") {
        Route::Echo
    } else {
        Route::NotFound
    }
}

/// Each route answers one method and one path only: `GET /`, or `POST` to
/// one of the three echo paths; every other request is not found.
pub proof fn lemma_route_method_and_path(method: Method, path: Seq<char>)
    ensures
        spec_route(method, path) == Route::Root <==> method == Method::Get && path == "/"@,
        spec_route(method, path) == Route::Uppercase <==> method == Method::Post && path
            == "/echo/uppercase/"@,
        spec_route(method, path) == Route::Reverse <==> method == Method::Post && path
            == "/echo/reverse/"@,
        spec_route(method, path) == Route::Echo <==> method == Method::Post && path == "/echo/"@,
        method != Method::Get && method != Method::Post ==> spec_route(method, path)
            == Route::NotFound,
{
    reveal_strlit("/");
    reveal_strlit("/echo/uppercase/");
    reveal_strlit("/echo/reverse/");
    reveal_strlit("/echo/");
    assert("/"@.len() == 1);
    assert("/echo/"@.len() == 6);
    assert("/echo/reverse/"@.len() == 14);
    assert("/echo/uppercase/"@.len() == 16);
    assert("/echo/uppercase/"@ != "/echo/reverse/"@);
    assert("/echo/uppercase/"@ != "/echo/"@);
    assert("/echo/reverse/"@ != "/echo/"@);
}

/// The byte `b` with an ASCII lower-case letter made upper case, as
/// `u8::to_ascii_uppercase` gives it.
pub open spec fn ascii_upper(b: u8) -> u8 {
    if 97 <= b <= 122 {
        (b - 32) as u8
    } else {
        b
    }
}

/// `b` with ASCII lower-case letters made upper case.
pub fn to_ascii_uppercase(b: u8) -> (r: u8)
    ensures
        r == ascii_upper(b),
{
    if 97 <= b && b <= 122 {
        b - 32
    } else {
        b
    }
}

/// A chunk of a body with its ASCII lower-case letters made upper case.
pub fn uppercase_chunk(chunk: &[u8]) -> (r: Vec<u8>)
    ensures
        r@ == chunk@.map_values(|b: u8| ascii_upper(b)),
{
    let mut r: Vec<u8> = Vec::new();
    for i in 0..chunk.len()
        invariant
            r@ == chunk@.take(i as int).map_values(|b: u8| ascii_upper(b)),
    {
        r.push(to_ascii_uppercase(chunk[i]));
        assert(chunk@.take(i + 1).map_values(|b: u8| ascii_upper(b)) =~= chunk@.take(
            i as int,
        ).map_values(|b: u8| ascii_upper(b)).push(ascii_upper(chunk@[i as int])));
    }
    assert(chunk@.take(chunk@.len() as int) =~= chunk@);
    r
}

/// A body's bytes in reverse order.
pub fn reverse_body(body: &[u8]) -> (r: Vec<u8>)
    ensures
        r@ == body@.reverse(),
{
    let mut r: Vec<u8> = Vec::new();
    let n = body.len();
    let mut i = n;
    while i > 0
        invariant
            n == body@.len(),
            i <= n,
            r@ == body@.skip(i as int).reverse(),
        decreases i,
    {
        i -= 1;
        r.push(body[i]);
        assert(body@.skip(i as int).reverse() =~= body@.skip(i + 1).reverse().push(body@[i as int]));
    }
    assert(body@.skip(0) =~= body@);
    r
}

/// Reversing a body twice gives it back.
pub proof fn lemma_reverse_twice(body: Seq<u8>)
    ensures
        body.reverse().reverse() == body,
{
    assert(body.reverse().reverse() =~= body);
}

/// Making a body upper case a second time changes nothing, and keeps its
/// length.
pub proof fn lemma_uppercase_idempotent(body: Seq<u8>)
    ensures
        body.map_values(|b: u8| ascii_upper(b)).map_values(|b: u8| ascii_upper(b)) == body.map_values(
            |b: u8| ascii_upper(b),
        ),
        body.map_values(|b: u8| ascii_upper(b)).len() == body.len(),
{
    assert(body.map_values(|b: u8| ascii_upper(b)).map_values(|b: u8| ascii_upper(b)) =~= body.map_values(
        |b: u8| ascii_upper(b),
    ));
}

} // verus!
