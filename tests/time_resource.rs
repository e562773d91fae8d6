use coap_hal_server::message::{Packet, CODE_BAD_REQUEST, CODE_METHOD_NOT_ALLOWED, METHOD_GET, METHOD_PUT, OPTION_URI_QUERY};
use coap_hal_server::request::CoapRequest;
use coap_hal_server::config::determine_bind_address;
use coap_hal_server::time_resource::TimeResource;

fn time_request(method: u8, query: Option<&str>) -> CoapRequest {
    let mut message = Packet::new();
    message.code = method;
    if let Some(q) = query {
        message.add_option(OPTION_URI_QUERY, q.as_bytes().to_vec());
    }
    CoapRequest::from_packet(message, vec![1])
}

#[test]
fn time_as_text() {
    let mut request = time_request(METHOD_GET, None);
    TimeResource::respond(&mut request, 1234567).unwrap();
    assert_eq!(request.response.unwrap().payload, b"1234567".to_vec());
}

#[test]
fn time_as_json() {
    let mut request = time_request(METHOD_GET, Some("format=JSON"));
    TimeResource::respond(&mut request, 42).unwrap();
    let text = String::from_utf8(request.response.unwrap().payload).unwrap();
    let value: serde_json::Value = serde_json::from_str(&text).unwrap();
    assert_eq!(value["value"], 42);
    assert_eq!(value["clock"], "realtime");
    assert_eq!(value["unit"], "milliseconds_since_epoch");
}

#[test]
fn time_errors() {
    let mut request = time_request(METHOD_PUT, None);
    let err = TimeResource::respond(&mut request, 1).unwrap_err();
    assert_eq!(err.code, Some(CODE_METHOD_NOT_ALLOWED));
    assert_eq!(err.message, "Method not supported");
    let mut request = time_request(METHOD_GET, Some("format=xml"));
    let err = TimeResource::respond(&mut request, 1).unwrap_err();
    assert_eq!(err.code, Some(CODE_BAD_REQUEST));
    assert_eq!(err.message, "Unknown format xml");
}

#[test]
fn bind_address_defaults() {
    assert_eq!(determine_bind_address(None, None), ("0.0.0.0".to_owned(), 5683));
    assert_eq!(determine_bind_address(Some("::1".to_owned()), Some(1)), ("::1".to_owned(), 1));
}
