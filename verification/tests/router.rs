use wruster::headers::Headers;
use wruster::message::Body;
use wruster::message::Request;
use wruster::message::Response;
use wruster::method::HttpMethod;
use wruster::router::normalize;
use wruster::router::Router;
use wruster::server::resolve;
use wruster::server::Resolution;
use wruster::status::StatusCode;
use wruster::trie::Node;
use wruster::trie::Trie;

#[test]
fn normalizes_path() {
    // Returns error if the path is not absolute.
    assert_eq!(Err("invalid path".to_string()), normalize("a/.."));

    // Returns error if path is above the root.
    assert_eq!(Err("invalid path".to_string()), normalize("/../a/.."));

    // Normalizes the path properly.
    assert_eq!(Ok("/".to_string()), normalize("/a/../b//.././"));

    // Normalizes the path properly.
    assert_eq!(Ok("/b".to_string()), normalize("/a/../b/c/.././"));

    // Removes an ending separator.
    assert_eq!(Ok("/a".to_string()), normalize("/a/"));
}

#[test]
fn normalize_is_idempotent() {
    for path in ["/a/../b/c/.././", "/a/b/c", "/", "/a//b/./c/"] {
        let once = normalize(path).unwrap();
        let twice = normalize(once.as_str()).unwrap();
        assert_eq!(once, twice);
    }
}

#[test]
fn trie_adds_node() {
    let mut root = Node::<&str>::new();
    let index = "/a/b/c".as_bytes();
    root.add_value(index, "a");
    assert_eq!(Some(&"a"), root.get_value("/a/b/c".as_bytes()));
}

#[test]
fn trie_add_key_and_values() {
    let mut root = Trie::<Box<dyn Fn(String) -> String>>::new();
    let key = "/a/b/c".as_bytes();
    let action = |param| {
        println!("action executed with param {}", param);
        String::from(param)
    };
    root.add_value(key, Box::new(action));
    let action = root.get_value(key);
    let resp = action.unwrap()(String::from("value passed"));
    assert_eq!(resp, "value passed");
}

#[test]
fn trie_find_prefix() {
    let mut root = Trie::<String>::new();
    let mut key = "/a/b/c/d".as_bytes();
    let mut value = String::from("action for route /a/b/c/d");
    root.add_value(key, value);

    key = "/a/b".as_bytes();
    value = String::from("action for route /a/b");
    root.add_value(key, value);

    let value = root.get_value_prefix("/d".as_bytes());
    assert!(value.is_none());

    let value = root.get_value_prefix("/a/b/c".as_bytes());
    assert_eq!(value.unwrap(), "action for route /a/b");

    let value = root.get_value_prefix("/a/b/c/d".as_bytes());
    assert_eq!(value.unwrap(), "action for route /a/b/c/d");
}

#[test]
fn trie_find_prefix_root() {
    let mut root = Trie::<String>::new();
    let key = "/".as_bytes();
    let value = String::from("action for route /");
    root.add_value(key, value);
    let value = root.get_value_prefix("/example".as_bytes());
    assert_eq!(value.unwrap(), "action for route /");
}

#[test]
fn trie_move_value_out_takes_value() {
    let mut root = Trie::<String>::new();
    root.add_value("/a".as_bytes(), String::from("here"));
    assert_eq!(root.move_value_out("/a".as_bytes()), Some(String::from("here")));
    assert_eq!(root.move_value_out("/a".as_bytes()), None);
    assert!(root.get_value("/a".as_bytes()).is_none());
}

type TestHandler = Box<dyn Fn(&mut Request) -> Response + Send + Sync>;

#[test]
fn routes_add_and_get() {
    let mut routes: Router<TestHandler> = Router::new();
    let action: TestHandler = Box::new(|req: &mut Request| {
        let content = String::from_utf8(req.body.as_ref().unwrap().content.clone()).unwrap();
        Response::from_str(&content)
    });
    routes.add("/a/b", HttpMethod::GET, action);
    let action = routes.get("/a/b", HttpMethod::GET);
    let action = action.unwrap();
    let content = "content";
    let body = Body::new(
        Some(String::from("text/plain")),
        content.len() as u64,
        content.as_bytes().to_vec(),
    );
    let mut request = Request {
        body: Some(body),
        method: HttpMethod::POST,
        uri: String::from("/"),
        version: String::from("HTTP/1.1"),
        headers: Headers::new(),
    };
    let resp = action(&mut request);
    let resp_body = resp.body.unwrap();
    let mut content: Vec<u8> = Vec::new();
    resp_body.write(&mut content).unwrap();
    assert_eq!(Vec::from("content"), content);
}

#[test]
fn routes_most_concrete() {
    let mut routes: Router<TestHandler> = Router::new();
    let a_b_action: TestHandler = Box::new(|_: &mut Request| Response::from_str("/a/b"));
    routes.add("/a/b", HttpMethod::GET, a_b_action);

    let a_action: TestHandler = Box::new(|_: &mut Request| Response::from_str("/a"));
    routes.add("/a", HttpMethod::GET, a_action);

    // Check a request to /a/b is handled by the /a/b action.
    let action = routes.get("/a/b", HttpMethod::GET);
    let action = action.unwrap();
    let mut request = Request {
        body: None,
        method: HttpMethod::GET,
        uri: String::from("/a/b"),
        version: String::from("HTTP/1.1"),
        headers: Headers::new(),
    };
    let resp = action(&mut request);
    let resp_body = resp.body.unwrap();
    let mut content: Vec<u8> = Vec::new();
    resp_body.write(&mut content).unwrap();
    assert_eq!(Vec::from("/a/b"), content);

    // Check a request to /a is handled by the /a action.
    let action = routes.get("/a", HttpMethod::GET);
    let action = action.unwrap();
    let mut request = Request {
        body: None,
        method: HttpMethod::GET,
        uri: String::from("/a"),
        version: String::from("HTTP/1.1"),
        headers: Headers::new(),
    };
    let resp = action(&mut request);
    let resp_body = resp.body.unwrap();
    let mut content: Vec<u8> = Vec::new();
    resp_body.write(&mut content).unwrap();
    assert_eq!(Vec::from("/a"), content);
}

#[test]
fn routes_disctinct_method_same_path() {
    let mut routes: Router<&str> = Router::new();
    routes.add("/a/b", HttpMethod::GET, "get handler");
    routes.add("/a/b", HttpMethod::POST, "post handler");
    let _ = routes.get_prefix("/a/b", HttpMethod::GET).unwrap();
    let _ = routes.get_prefix("/a/b/c", HttpMethod::POST).unwrap();
}

#[test]
fn routes_longest_prefix_wins() {
    // Routes /a and /a/b, both GET: a GET to /a/b/c is served by /a/b, a
    // GET to /a/x by /a, and a GET to /z by nobody.
    let mut routes: Router<&str> = Router::new();
    routes.add("/a", HttpMethod::GET, "handler for /a");
    routes.add("/a/b", HttpMethod::GET, "handler for /a/b");

    match resolve(&routes, "/a/b/c", HttpMethod::GET) {
        Resolution::Action(v, p) => {
            assert_eq!(*v, "handler for /a/b");
            assert_eq!(p.as_str(), "/a/b/c");
        }
        _ => panic!("expected a handler"),
    }
    match resolve(&routes, "/a/x", HttpMethod::GET) {
        Resolution::Action(v, p) => {
            assert_eq!(*v, "handler for /a");
            assert_eq!(p.as_str(), "/a/x");
        }
        _ => panic!("expected a handler"),
    }
    match resolve(&routes, "/z", HttpMethod::GET) {
        Resolution::NotFound(p) => assert_eq!(p.as_str(), "/z"),
        _ => panic!("expected no handler"),
    }
}

#[test]
fn routes_resolve_normalizes_target() {
    let mut routes: Router<&str> = Router::new();
    routes.add("/a", HttpMethod::GET, "handler for /a");
    match resolve(&routes, "/b/../a/./", HttpMethod::GET) {
        Resolution::Action(v, p) => {
            assert_eq!(*v, "handler for /a");
            assert_eq!(p.as_str(), "/a");
        }
        _ => panic!("expected a handler"),
    }
    assert!(matches!(
        resolve(&routes, "a/relative", HttpMethod::GET),
        Resolution::Invalid
    ));
}

#[test]
fn routes_deeper_route_for_other_method_does_not_shadow() {
    // A deeper route that serves only another method leaves the shallower
    // route in charge for this one.
    let mut routes: Router<&str> = Router::new();
    routes.add("/a", HttpMethod::GET, "get /a");
    routes.add("/a/b", HttpMethod::POST, "post /a/b");
    match resolve(&routes, "/a/b", HttpMethod::GET) {
        Resolution::Action(v, _) => assert_eq!(*v, "get /a"),
        _ => panic!("expected a handler"),
    }
}

#[test]
fn response_from_status_serializes_minimal() {
    let mut response = Response::from_status(StatusCode::ServiceUnavailable);
    let mut to: Vec<u8> = Vec::new();
    response.write(&mut to).unwrap();
    assert_eq!(
        String::from_utf8(to).unwrap(),
        "HTTP/1.1 503 Service Unavailable\r\nContent-Length: 0\r\n\r\n"
    );
}
