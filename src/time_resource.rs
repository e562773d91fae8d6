//! A resource that tells the time: milliseconds since the epoch, as text or JSON.
use crate::handling_error::HandlingError;
use crate::message::{CODE_BAD_REQUEST, CODE_METHOD_NOT_ALLOWED, CONTENT_FORMAT_JSON, CONTENT_FORMAT_TEXT_PLAIN, METHOD_GET};
use crate::request::CoapRequest;
use crate::coap_utils::option_values;
use crate::message::OPTION_URI_QUERY;
use crate::text::{decimal, decimal_text, eq_ignore_ascii_case, eq_ignore_ascii_case_spec};
use crate::uri_query_helper::{first_match, spec_query_params};
use crate::uri_query_helper::UriQueryHelper;
use vstd::prelude::*;
use vstd::string::{StrSliceExecFns, StringExecFns};

verus! {

/// What serde_json writes for an object with these string fields and these number fields.
pub uninterp spec fn json_object_text(
    text_fields: Seq<(Seq<char>, Seq<char>)>,
    number_fields: Seq<(Seq<char>, u64)>,
) -> Seq<char>;

/// Relies on serde_json: `Value::Object(..).to_string()` for an object built of the given
/// fields; the text depends on the fields alone.
#[verifier::external_body]
fn json_object(text_fields: &Vec<(String, String)>, number_fields: &Vec<(String, u64)>) -> (r: String)
    ensures
        r@ == json_object_text(
            text_fields@.map_values(|p: (String, String)| (p.0@, p.1@)),
            number_fields@.map_values(|p: (String, u64)| (p.0@, p.1)),
        ),
{
    let mut object = serde_json::Map::new();
    for (key, value) in text_fields.iter() {
        object.insert(key.clone(), serde_json::Value::from(value.as_str()));
    }
    for (key, value) in number_fields.iter() {
        object.insert(key.clone(), serde_json::Value::from(*value));
    }
    serde_json::Value::Object(object).to_string()
}

/// The JSON document for time `millis`.
pub open spec fn time_json_text(millis: u64) -> Seq<char> {
    json_object_text(
        seq![("clock"@, "realtime"@), ("unit"@, "milliseconds_since_epoch"@)],
        seq![("value"@, millis)],
    )
}

/// The `time` resource.
pub struct TimeResource {}

/// The format a request asks for: its first `format` query value (the key compared without
/// regard to ASCII case), or `text` without one.
pub open spec fn requested_format(message: crate::message::Packet) -> Seq<char> {
    let params = spec_query_params(option_values(message, OPTION_URI_QUERY));
    match first_match(params, "format"@) {
        Some(i) => params[i].1,
        None => "text"@,
    }
}

/// The reply for format `f` at time `now`: JSON or decimal text (the format compared without
/// regard to ASCII case), a 4.00 error naming any other format.
pub open spec fn time_outcome(
    f: Seq<char>,
    now: u64,
    before: crate::message::Packet,
    r: Result<(), HandlingError>,
    after: Option<crate::message::Packet>,
) -> bool {
    if eq_ignore_ascii_case_spec(f, "json"@) {
        r is Ok && is_time_reply(before, after, CONTENT_FORMAT_JSON, time_json_text(now))
    } else if eq_ignore_ascii_case_spec(f, "text"@) {
        r is Ok && is_time_reply(before, after, CONTENT_FORMAT_TEXT_PLAIN, decimal_text(now as nat))
    } else {
        r matches Err(e) && e.code == Some(CODE_BAD_REQUEST) && e.message@ == "Unknown format "@ + f
            && after == Some(before)
    }
}

/// `after` is `before` with content-format `cf` and payload the UTF-8 of `text`.
pub open spec fn is_time_reply(before: crate::message::Packet, after: Option<crate::message::Packet>, cf: u16, text: Seq<char>) -> bool {
    match after {
        Some(resp) => {
            &&& resp.wf()
            &&& resp.code == before.code
            &&& resp.message_id == before.message_id
            &&& resp.token == before.token
            &&& resp.option_map() == before.option_map().insert(
                crate::message::OPTION_CONTENT_FORMAT,
                seq![crate::option_value::minimal_be_bytes(cf as nat)],
            )
            &&& resp.payload@ == vstd::utf8::encode_utf8(text)
        },
        None => false,
    }
}

impl TimeResource {
    /// Answers a GET with the time `now_millis`: as decimal text, or as JSON where the
    /// `format` query says `json` (in any case). Other methods get 4.05; other formats 4.00.
    pub fn respond(request: &mut CoapRequest, now_millis: u64) -> (r: Result<(), HandlingError>)
        requires
            old(request).wf(),
        ensures
            final(request).wf(),
            final(request).message == old(request).message,
            old(request).message.code != METHOD_GET ==> (r matches Err(e) && e.code == Some(
                CODE_METHOD_NOT_ALLOWED,
            ) && e.message@ == "Method not supported"@ && final(request).response == old(request).response),
            (old(request).message.code == METHOD_GET && old(request).response is None) ==> (r matches Err(e)
                && e.code is None),
            (old(request).message.code == METHOD_GET && old(request).response is Some) ==> time_outcome(
                requested_format(old(request).message),
                now_millis,
                old(request).response->Some_0,
                r,
                final(request).response,
            ),
    {
        if request.message.code != METHOD_GET {
            return Err(HandlingError::method_not_supported());
        }
        if request.response.is_none() {
            return Err(HandlingError::not_handled());
        }
        let uri_query = UriQueryHelper::from(&request.message);
        let format = match uri_query.get("format") {
            Some(f) => f,
            None => "text",
        };
        let (cf, text): (u16, String) = if eq_ignore_ascii_case(format, "json") {
            let text_fields = vec![
                ("clock".to_owned(), "realtime".to_owned()),
                ("unit".to_owned(), "milliseconds_since_epoch".to_owned()),
            ];
            let number_fields = vec![("value".to_owned(), now_millis)];
            let t = json_object(&text_fields, &number_fields);
            proof {
                assert(text_fields@.map_values(|p: (String, String)| (p.0@, p.1@)) =~= seq![
                    ("clock"@, "realtime"@),
                    ("unit"@, "milliseconds_since_epoch"@),
                ]);
                assert(number_fields@.map_values(|p: (String, u64)| (p.0@, p.1)) =~= seq![("value"@, now_millis)]);
                assert(t@ == time_json_text(now_millis));
            }
            (CONTENT_FORMAT_JSON, t)
        } else if eq_ignore_ascii_case(format, "text") {
            (CONTENT_FORMAT_TEXT_PLAIN, decimal(now_millis))
        } else {
            let message = "Unknown format ".to_owned().concat(format);
            return Err(HandlingError::with_code(CODE_BAD_REQUEST, message.as_str()));
        };
        let mut reply = match request.response.take() {
            Some(p) => p,
            None => return Err(HandlingError::not_handled()),
        };
        let ghost before = reply;
        reply.set_content_format(cf);
        let ghost with_format = reply.option_map();
        let text_str = text.as_str();
        reply.payload = text_str.as_bytes_vec();
        assert(reply.option_map() =~= with_format);
        proof {
            assert(text_str@ == text@);
            assert(reply.payload@ == vstd::utf8::encode_utf8(text_str@));
            assert(is_time_reply(before, Some(reply), cf, text@));
            assert(text@ == decimal_text(now_millis as nat) || text@ == time_json_text(now_millis));
        }
        request.response = Some(reply);
        Ok(())
    }
}

} // verus!
