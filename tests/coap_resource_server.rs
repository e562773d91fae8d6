use coap_hal_server::coap_resource_server::{CoapResource, CoapResourceServer, CoapResourceServerBuilder};
use coap_hal_server::handling_error::HandlingError;
use coap_hal_server::message::{
    Packet, CODE_CONTENT, CODE_METHOD_NOT_ALLOWED, CODE_NOT_FOUND, CONTENT_FORMAT_LINK_FORMAT,
    METHOD_GET, METHOD_PUT, OPTION_CONTENT_FORMAT, OPTION_URI_PATH, OPTION_URI_QUERY,
};
use coap_hal_server::request::{new_response, CoapRequest};

struct TestEchoResource {}

impl CoapResource for TestEchoResource {
    fn relative_path(&self) -> &str {
        "echo"
    }

    fn debug_name(&self) -> &str {
        "EchoResource"
    }

    fn is_discoverable(&self) -> bool {
        true
    }

    fn link_attributes(&self) -> Vec<(String, String)> {
        vec![("rt".to_owned(), "echo".to_owned())]
    }

    fn handle(&self, request: &mut CoapRequest, _remaining_path: &[String]) -> Result<(), HandlingError> {
        let payload = request.message.payload.clone();
        let reply = request.response.as_mut().ok_or(HandlingError::not_handled())?;
        reply.payload = payload;
        Ok(())
    }
}

/// A resource at a configurable path that answers with its remaining path, joined by `/`,
/// and rejects PUT.
struct PathResource {
    path: String,
    discoverable: bool,
    attributes: Vec<(String, String)>,
}

impl CoapResource for PathResource {
    fn relative_path(&self) -> &str {
        &self.path
    }

    fn debug_name(&self) -> &str {
        "PathResource"
    }

    fn is_discoverable(&self) -> bool {
        self.discoverable
    }

    fn link_attributes(&self) -> Vec<(String, String)> {
        self.attributes.clone()
    }

    fn handle(&self, request: &mut CoapRequest, remaining_path: &[String]) -> Result<(), HandlingError> {
        if request.message.code == METHOD_PUT {
            return Err(HandlingError::method_not_supported());
        }
        let reply = request.response.as_mut().ok_or(HandlingError::not_handled())?;
        reply.payload = format!("{}|{}", self.path, remaining_path.join("/")).into_bytes();
        Ok(())
    }
}

fn path_resource(path: &str, discoverable: bool, attributes: &[(&str, &str)]) -> PathResource {
    PathResource {
        path: path.to_owned(),
        discoverable,
        attributes: attributes.iter().map(|(k, v)| (k.to_string(), v.to_string())).collect(),
    }
}

fn request(method: u8, path: &str, queries: &[&str], payload: &[u8]) -> CoapRequest {
    let mut message = Packet::new();
    message.code = method;
    for segment in path.trim_start_matches('/').split('/') {
        message.add_option(OPTION_URI_PATH, segment.as_bytes().to_vec());
    }
    for q in queries {
        message.add_option(OPTION_URI_QUERY, q.as_bytes().to_vec());
    }
    message.payload = payload.to_vec();
    let response = new_response(&Packet::new());
    CoapRequest { message, response, source: Some(vec![127, 0, 0, 1]) }
}

#[test]
fn simple_echo_request() {
    let mut handler = CoapResourceServerBuilder::new()
        .add_resource(TestEchoResource {})
        .build()
        .unwrap();

    let test_payload = b"Echo test".to_vec();
    let request = request(METHOD_GET, "/echo", &[], &test_payload);

    let actual = handler.handle(request);

    let mut expected = new_response(&Packet::new()).unwrap();
    expected.code = CODE_CONTENT;
    expected.payload = test_payload.clone();

    let actual = actual.unwrap();
    assert_eq!(actual.payload, expected.payload);
    assert_eq!(actual.code, CODE_CONTENT);
}

#[test]
fn core_discovery() {
    let mut handler = CoapResourceServerBuilder::new()
        .set_core_discovery(true)
        .add_resource(TestEchoResource {})
        .build()
        .unwrap();

    let request = request(METHOD_GET, "/.well-known/core", &[], &[]);

    let actual = handler.handle(request);

    let expected_payload = b"</echo>;rt=echo".to_vec();

    let actual = actual.unwrap();
    assert_eq!(String::from_utf8(actual.payload.clone()), String::from_utf8(expected_payload));
    assert_eq!(actual.get_option(OPTION_CONTENT_FORMAT), Some(&vec![vec![CONTENT_FORMAT_LINK_FORMAT as u8]]));
}

#[test]
fn discovery_with_filter() {
    let mut server = CoapResourceServer::builder()
        .add_resource(path_resource("a", true, &[("rt", "x")]))
        .add_resource(path_resource("b", true, &[("rt", "y")]))
        .build()
        .unwrap();
    let matched = server.handle(request(METHOD_GET, "/.well-known/core", &["rt=x"], &[])).unwrap();
    assert_eq!(String::from_utf8(matched.payload).unwrap(), "</a>;rt=x");
    let unmatched = server.handle(request(METHOD_GET, "/.well-known/core", &["rt=z"], &[]));
    assert!(unmatched.is_none());
}

#[test]
fn discovery_without_suppression_answers_empty() {
    let mut server = CoapResourceServer::builder()
        .set_suppress_empty_core_reply(false)
        .add_resource(path_resource("a", true, &[("rt", "x")]))
        .build()
        .unwrap();
    let reply = server.handle(request(METHOD_GET, "/.well-known/core", &["rt=z"], &[])).unwrap();
    assert_eq!(reply.payload, Vec::<u8>::new());
}

#[test]
fn discovery_lists_exactly_the_discoverable_resources() {
    let mut server = CoapResourceServer::builder()
        .add_resource(path_resource("a", true, &[("rt", "x"), ("if", "core.s")]))
        .add_resource(path_resource("hidden", false, &[("rt", "x")]))
        .add_child_resources(
            "dev",
            CoapResourceServerBuilder::new().add_resource(path_resource("b", true, &[("ct", "50")])),
        )
        .build()
        .unwrap();
    let reply = server.handle(request(METHOD_GET, "/.well-known/core", &[], &[])).unwrap();
    let text = String::from_utf8(reply.payload).unwrap();
    assert_eq!(text, "</a>;rt=x;if=\"core.s\",</dev/b>;ct=50");
    let parsed: Vec<String> = coap_lite::link_format::LinkFormatParser::new(&text)
        .map(|link| link.unwrap().0.to_string())
        .collect();
    assert_eq!(parsed, vec!["/a".to_owned(), "/dev/b".to_owned()]);
}

#[test]
fn method_not_supported() {
    let mut server = CoapResourceServer::builder()
        .add_resource(path_resource("time", true, &[]))
        .build()
        .unwrap();
    let reply = server.handle(request(METHOD_PUT, "/time", &[], &[])).unwrap();
    assert_eq!(reply.code, CODE_METHOD_NOT_ALLOWED);
    assert_eq!(String::from_utf8(reply.payload).unwrap(), "Method not supported");
}

#[test]
fn unknown_path_is_not_found() {
    let mut server = CoapResourceServer::builder()
        .add_resource(path_resource("time", true, &[]))
        .build()
        .unwrap();
    let reply = server.handle(request(METHOD_GET, "/nothing", &[], &[])).unwrap();
    assert_eq!(reply.code, CODE_NOT_FOUND);
    assert_eq!(reply.get_option(OPTION_CONTENT_FORMAT), Some(&vec![Vec::<u8>::new()]));
    assert_eq!(String::from_utf8(reply.payload).unwrap(), "Not found");
}

#[test]
fn longest_prefix_gets_the_remaining_path() {
    let mut server = CoapResourceServer::builder()
        .add_resource(path_resource("a", false, &[]))
        .add_resource(path_resource("a/b", false, &[]))
        .build()
        .unwrap();
    let reply = server.handle(request(METHOD_GET, "/a/x/y", &[], &[])).unwrap();
    assert_eq!(String::from_utf8(reply.payload).unwrap(), "a|x/y");
    let reply = server.handle(request(METHOD_GET, "/a/b/c", &[], &[])).unwrap();
    assert_eq!(String::from_utf8(reply.payload).unwrap(), "a/b|c");
    let reply = server.handle(request(METHOD_GET, "/a", &[], &[])).unwrap();
    assert_eq!(String::from_utf8(reply.payload).unwrap(), "a|");
}

#[test]
fn duplicate_registration_is_refused() {
    let built = CoapResourceServer::builder()
        .add_resource(path_resource("a", false, &[]))
        .add_resource(path_resource("a", true, &[]))
        .build();
    match built {
        Err(e) => assert_eq!(e.path, vec!["a".to_owned()]),
        Ok(_) => panic!("duplicate path accepted"),
    }
}

#[test]
fn oversized_response_is_sent_in_blocks() {
    let mut server = CoapResourceServer::builder()
        .add_resource(TestEchoResource {})
        .build()
        .unwrap();
    let payload: Vec<u8> = (0..3000).map(|i| (i % 200) as u8).collect();
    let reply = server.handle(request(METHOD_GET, "/echo", &[], &payload)).unwrap();
    assert!(reply.payload.len() < payload.len());
    assert!(reply.get_option(coap_hal_server::message::OPTION_BLOCK2).is_some());
}

#[test]
fn discovery_leaves_out_keys_link_format_cannot_carry() {
    let mut server = CoapResourceServer::builder()
        .add_resource(path_resource("a", true, &[("rt", "x"), ("bad key", "y"), ("k=v", "z")]))
        .build()
        .unwrap();
    let reply = server.handle(request(METHOD_GET, "/.well-known/core", &[], &[])).unwrap();
    assert_eq!(String::from_utf8(reply.payload).unwrap(), "</a>;rt=x");
}

/// A resource that always fails with the error it was made with.
struct FailingResource {
    error: fn() -> HandlingError,
}

impl CoapResource for FailingResource {
    fn relative_path(&self) -> &str {
        "fail"
    }

    fn debug_name(&self) -> &str {
        "FailingResource"
    }

    fn is_discoverable(&self) -> bool {
        false
    }

    fn link_attributes(&self) -> Vec<(String, String)> {
        Vec::new()
    }

    fn handle(&self, _request: &mut CoapRequest, _remaining_path: &[String]) -> Result<(), HandlingError> {
        Err((self.error)())
    }
}

fn failing(error: fn() -> HandlingError) -> CoapResourceServer<FailingResource> {
    CoapResourceServer::builder().add_resource(FailingResource { error }).build().unwrap()
}

#[test]
fn handler_error_codes_reach_the_reply() {
    let reply = failing(|| HandlingError::bad_request("bad body")).handle(request(METHOD_GET, "/fail", &[], &[])).unwrap();
    assert_eq!(reply.code, coap_hal_server::message::CODE_BAD_REQUEST);
    assert_eq!(String::from_utf8(reply.payload).unwrap(), "bad body");
    let reply = failing(|| HandlingError::internal("broken")).handle(request(METHOD_GET, "/fail", &[], &[])).unwrap();
    assert_eq!(reply.code, coap_hal_server::message::CODE_INTERNAL_SERVER_ERROR);
    assert_eq!(reply.get_option(OPTION_CONTENT_FORMAT), Some(&vec![Vec::<u8>::new()]));
}

#[test]
fn declined_request_gets_no_reply() {
    assert!(failing(HandlingError::not_handled).handle(request(METHOD_GET, "/fail", &[], &[])).is_none());
}

#[test]
fn request_without_response_slot_gets_no_reply() {
    let mut server = CoapResourceServer::builder().add_resource(TestEchoResource {}).build().unwrap();
    let mut r = request(METHOD_GET, "/echo", &[], b"x");
    r.response = None;
    assert!(server.handle(r).is_none());
}

#[test]
fn oversized_error_body_is_sent_in_blocks() {
    let mut server = failing(|| HandlingError::bad_request(&"e".repeat(3000)));
    let reply = server.handle(request(METHOD_GET, "/fail", &[], &[])).unwrap();
    assert_eq!(reply.code, coap_hal_server::message::CODE_BAD_REQUEST);
    assert!(reply.payload.len() < 3000);
    assert!(reply.get_option(coap_hal_server::message::OPTION_BLOCK2).is_some());
}

#[test]
fn finish_request_applies_the_outcome() {
    let mut server = CoapResourceServer::builder().add_resource(TestEchoResource {}).build().unwrap();
    let reply = server
        .finish_request(request(METHOD_GET, "/echo", &[], &[]), Err(HandlingError::method_not_supported()))
        .unwrap();
    assert_eq!(reply.code, CODE_METHOD_NOT_ALLOWED);
    assert_eq!(String::from_utf8(reply.payload).unwrap(), "Method not supported");
    assert!(server.finish_request(request(METHOD_GET, "/echo", &[], &[]), Err(HandlingError::not_handled())).is_none());
    let ok = server.finish_request(request(METHOD_GET, "/echo", &[], &[]), Ok(())).unwrap();
    assert_eq!(ok.code, CODE_CONTENT);
}

#[test]
fn discovery_read_back_with_quoted_commas() {
    let mut server = CoapResourceServer::builder()
        .add_resource(path_resource("a", true, &[("if", "x,y")]))
        .add_resource(path_resource("b", true, &[("rt", "z")]))
        .build()
        .unwrap();
    let reply = server.handle(request(METHOD_GET, "/.well-known/core", &[], &[])).unwrap();
    let text = String::from_utf8(reply.payload).unwrap();
    assert_eq!(text, "</a>;if=\"x,y\",</b>;rt=z");
    let parsed: Vec<String> = coap_lite::link_format::LinkFormatParser::new(&text)
        .map(|link| link.unwrap().0.to_string())
        .collect();
    assert_eq!(parsed, vec!["/a".to_owned(), "/b".to_owned()]);
}

#[test]
fn child_resources_keep_their_paths() {
    let mut server = CoapResourceServer::builder()
        .add_child_resources(
            "dev",
            CoapResourceServerBuilder::new()
                .add_resource(path_resource("x", false, &[]))
                .add_resource(path_resource("y", false, &[])),
        )
        .build()
        .unwrap();
    let reply = server.handle(request(METHOD_GET, "/dev/y/z", &[], &[])).unwrap();
    assert_eq!(String::from_utf8(reply.payload).unwrap(), "y|z");
    let reply = server.handle(request(METHOD_GET, "/dev/x", &[], &[])).unwrap();
    assert_eq!(String::from_utf8(reply.payload).unwrap(), "x|");
}

#[test]
fn path_that_is_not_utf8_gets_bad_request() {
    let mut server = CoapResourceServer::builder().add_resource(TestEchoResource {}).build().unwrap();
    let mut message = Packet::new();
    message.code = METHOD_GET;
    message.add_option(OPTION_URI_PATH, vec![0xFF, 0xFE]);
    let r = CoapRequest { message, response: new_response(&Packet::new()), source: Some(vec![1]) };
    let reply = server.handle(r).unwrap();
    assert_eq!(reply.code, coap_hal_server::message::CODE_BAD_REQUEST);
    assert_eq!(String::from_utf8(reply.payload).unwrap(), "Uri-Path is not UTF-8");
}

#[test]
fn undecodable_block2_gets_bad_request() {
    let mut server = CoapResourceServer::builder().add_resource(TestEchoResource {}).build().unwrap();
    let mut r = request(METHOD_GET, "/echo", &[], b"x");
    r.message.add_option(coap_hal_server::message::OPTION_BLOCK2, vec![1, 2, 3, 4, 5]);
    let reply = server.handle(r).unwrap();
    assert_eq!(reply.code, coap_hal_server::message::CODE_BAD_REQUEST);
    assert_eq!(String::from_utf8(reply.payload).unwrap(), "Block2 option is not a block value");
}
