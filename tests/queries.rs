use coap_hal_server::coap_utils::{request_get_path_as_vec, request_get_queries, OptionValueQuery, QueryFormatError};
use coap_hal_server::message::{Packet, OPTION_URI_PATH, OPTION_URI_QUERY};
use coap_hal_server::request::CoapRequest;
use coap_hal_server::uri_query_helper::UriQueryHelper;

#[test]
fn query_values() {
    let q = OptionValueQuery::do_try_from(b"rt=x".to_vec()).unwrap();
    assert_eq!((q.key.as_str(), q.value.as_str()), ("rt", "x"));
    let q = OptionValueQuery::do_try_from(b"a=b=c".to_vec()).unwrap();
    assert_eq!((q.key.as_str(), q.value.as_str()), ("a", "b"));
    assert_eq!(OptionValueQuery::do_try_from(b"novalue".to_vec()).unwrap_err(), QueryFormatError::MissingSeparator);
    assert_eq!(OptionValueQuery::do_try_from(vec![0xFF, b'=', b'x']).unwrap_err(), QueryFormatError::KeyNotUtf8);
}

#[test]
fn request_path_and_queries() {
    let mut message = Packet::new();
    message.add_option(OPTION_URI_PATH, b"device".to_vec());
    message.add_option(OPTION_URI_PATH, b"ev3-ports:in1".to_vec());
    message.add_option(OPTION_URI_QUERY, b"rt=x".to_vec());
    message.add_option(OPTION_URI_QUERY, b"bad".to_vec());
    let request = CoapRequest::from_packet(message, vec![1]);
    assert_eq!(request_get_path_as_vec(&request).unwrap(), vec!["device".to_owned(), "ev3-ports:in1".to_owned()]);
    assert_eq!(request_get_queries(&request), vec![("rt".to_owned(), "x".to_owned())]);
}

#[test]
fn uri_query_helper_lookup() {
    let mut message = Packet::new();
    message.add_option(OPTION_URI_QUERY, b"Format=json&x=1".to_vec());
    let helper = UriQueryHelper::from(&message);
    assert_eq!(helper.get("format"), Some("json"));
    assert_eq!(helper.get("X"), Some("1"));
    assert_eq!(helper.get("y"), None);
}
