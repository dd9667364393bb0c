use service_utils::cli::parse_from_cli;
use service_utils::echo::{reverse_body, route, uppercase_chunk, Route, ROOT_BODY};
use service_utils::forward::{buffered_copy, get_out, handle_response, request_failed, HotMess, OutUrl, Reply};
use service_utils::params::path_params;
use service_utils::proxy::{blocked_sites, proxy, Method, ProxyAction, RequestHead};

fn args(list: &[&str]) -> Vec<String> {
    list.iter().map(|s| s.to_string()).collect()
}

#[test]
fn cli_value_after_key() {
    let a = args(&["fpm", "serve", "--identities", "a@foo.com,foo"]);
    assert_eq!(parse_from_cli(&a, "--identities"), Some("a@foo.com,foo".to_string()));
}

#[test]
fn cli_last_key_counts() {
    let a = args(&["prog", "--port", "1", "--port", "2"]);
    assert_eq!(parse_from_cli(&a, "--port"), Some("2".to_string()));
}

#[test]
fn cli_missing_key_or_value() {
    let a = args(&["prog", "--port"]);
    assert_eq!(parse_from_cli(&a, "--port"), None);
    assert_eq!(parse_from_cli(&a, "--file"), None);
    assert_eq!(parse_from_cli(&[], "--file"), None);
}

fn head(method: Method, host: Option<&str>, authority: Option<&str>, port: Option<u16>, header: Option<&str>) -> RequestHead {
    RequestHead {
        method,
        uri_host: host.map(|s| s.to_string()),
        uri_authority: authority.map(|s| s.to_string()),
        uri_port: port,
        host_header: header.map(|s| s.to_string()),
    }
}

#[test]
fn proxy_refuses_blocked_hosts() {
    let h = head(Method::Connect, Some("googleads.g.doubleclick.net"), Some("googleads.g.doubleclick.net:443"), Some(443), None);
    assert!(matches!(proxy(&h), ProxyAction::Blocked));
    let h = head(Method::Get, None, None, None, Some("x.ib.adnxs.com:80"));
    assert!(matches!(proxy(&h), ProxyAction::Blocked));
    assert_eq!(blocked_sites().len(), 13);
}

#[test]
fn proxy_tunnels_connect() {
    let h = head(Method::Connect, Some("play.google.com"), Some("play.google.com:443"), Some(443), None);
    match proxy(&h) {
        ProxyAction::Tunnel(a) => assert_eq!(a, "play.google.com:443"),
        other => panic!("unexpected {:?}", other),
    }
    let h = head(Method::Connect, None, None, None, Some("play.google.com"));
    assert!(matches!(proxy(&h), ProxyAction::BadRequest));
}

#[test]
fn proxy_forwards_with_port() {
    let h = head(Method::Get, Some("r3.o.lencr.org"), Some("r3.o.lencr.org"), None, None);
    match proxy(&h) {
        ProxyAction::Forward(a) => assert_eq!(a, "r3.o.lencr.org:80"),
        other => panic!("unexpected {:?}", other),
    }
    let h = head(Method::Post, Some("example.com"), Some("example.com:8100"), Some(8100), None);
    match proxy(&h) {
        ProxyAction::Forward(a) => assert_eq!(a, "example.com:8100"),
        other => panic!("unexpected {:?}", other),
    }
    let h = head(Method::Get, None, None, Some(65535), Some("example.com:9"));
    match proxy(&h) {
        ProxyAction::Forward(a) => assert_eq!(a, "example.com:9"),
        other => panic!("unexpected {:?}", other),
    }
    let h = head(Method::Get, Some("a.b"), None, Some(0), None);
    match proxy(&h) {
        ProxyAction::Forward(a) => assert_eq!(a, "a.b:0"),
        other => panic!("unexpected {:?}", other),
    }
}

#[test]
fn echo_routes() {
    assert_eq!(route(Method::Get, "/"), Route::Root);
    assert_eq!(route(Method::Post, "/echo/uppercase/"), Route::Uppercase);
    assert_eq!(route(Method::Post, "/echo/reverse/"), Route::Reverse);
    assert_eq!(route(Method::Post, "/echo/"), Route::Echo);
    assert_eq!(route(Method::Post, "/"), Route::NotFound);
    assert_eq!(route(Method::Get, "/echo/"), Route::NotFound);
    assert_eq!(route(Method::Other, "/echo"), Route::NotFound);
    assert_eq!(ROOT_BODY, "Body from `/`");
}

#[test]
fn echo_transforms() {
    assert_eq!(uppercase_chunk(b"Hello, world! 123 z{"), b"HELLO, WORLD! 123 Z{".to_vec());
    assert_eq!(uppercase_chunk(&[0xe9, b'a']), vec![0xe9, b'A']);
    assert_eq!(reverse_body(b"abc"), b"cba".to_vec());
    assert_eq!(reverse_body(b""), Vec::<u8>::new());
    let twice = uppercase_chunk(&uppercase_chunk(b"mixed Case"));
    assert_eq!(twice, uppercase_chunk(b"mixed Case"));
    assert_eq!(reverse_body(&reverse_body(b"round trip")), b"round trip".to_vec());
}

#[test]
fn forward_target_url() {
    let out = OutUrl { url: "https://www.google.com/".to_string() };
    assert_eq!(get_out("/search?q=1", &out), "https://www.google.com//search?q=1");
    assert_eq!(get_out("/", &out), "https://www.google.com//");
}

#[test]
fn forward_replies() {
    match handle_response(Ok(b"hi".to_vec())) {
        Reply::Html(b) => assert_eq!(b, b"hi".to_vec()),
        other => panic!("unexpected {:?}", other),
    }
    assert!(matches!(handle_response(Ok(Vec::new())), Reply::Empty));
    match handle_response(Err("timed out".to_string())) {
        Reply::InternalError(m) => assert_eq!(m.message(), "Could not fetch body: timed out"),
        other => panic!("unexpected {:?}", other),
    }
    match request_failed("refused") {
        Reply::RequestFailed(t) => assert_eq!(t, "Error requesting path: refused"),
        other => panic!("unexpected {:?}", other),
    }
    assert_eq!(buffered_copy(&[7, 8, 9]), vec![7, 8, 9]);
}

#[test]
fn error_messages() {
    assert_eq!(HotMess::InvalidLength.message(), "Invalid length received");
    assert_eq!(HotMess::IoCopyErr("x".to_string()).message(), "Could not copy response body: x");
    assert_eq!(HotMess::FailedBufFlush("y".to_string()).message(), "Failed to flush the buffer: y");
}

#[test]
fn route_template_params() {
    let caps = path_params("/books/<string:name>/<integer:a_ge>").unwrap();
    assert_eq!(caps.len(), 2);
    assert_eq!(
        caps[0],
        vec![
            Some((7, 20, "<string:name>".to_string())),
            Some((8, 14, "string".to_string())),
            Some((15, 19, "name".to_string())),
        ]
    );
    assert_eq!(
        caps[1],
        vec![
            Some((21, 35, "<integer:a_ge>".to_string())),
            Some((22, 29, "integer".to_string())),
            Some((30, 34, "a_ge".to_string())),
        ]
    );
    assert_eq!(path_params("/books/plain").unwrap().len(), 0);
    assert_eq!(path_params("< str : id >").unwrap()[0][2], Some((8, 10, "id".to_string())));
}
