//! A request in flight: the message received, the response being built, and who sent it.
use crate::message::{
    copy_bytes, MessageType, Packet, CODE_CONTENT, OPTION_URI_PATH,
};
use vstd::prelude::*;

verus! {

/// A request being handled: the message, the response being built, and its sender.
#[derive(Debug)]
pub struct CoapRequest {
    pub message: Packet,
    /// The response to fill in; `None` where the message admits no response.
    pub response: Option<Packet>,
    /// The requester's transport identity, as bytes.
    pub source: Option<Vec<u8>>,
}

/// What a fresh response to `request` holds: `None` for an acknowledgement or a reset.
pub open spec fn is_fresh_response(request: &Packet, r: &Packet) -> bool {
    &&& r.wf()
    &&& r.version == 1
    &&& r.msg_type == (if request.msg_type == MessageType::Confirmable {
        MessageType::Acknowledgement
    } else {
        MessageType::NonConfirmable
    })
    &&& r.code == CODE_CONTENT
    &&& r.message_id == request.message_id
    &&& r.token@ == request.token@
    &&& r.option_map() == Map::<u16, Seq<Seq<u8>>>::empty()
    &&& r.payload@.len() == 0
}

/// The response to a message: an acknowledgement for a confirmable one, non-confirmable for a
/// non-confirmable one, none for the others.
pub fn new_response(request: &Packet) -> (r: Option<Packet>)
    ensures
        (request.msg_type == MessageType::Confirmable || request.msg_type
            == MessageType::NonConfirmable) <==> r is Some,
        r matches Some(p) ==> is_fresh_response(request, &p),
{
    let msg_type = match request.msg_type {
        MessageType::Confirmable => MessageType::Acknowledgement,
        MessageType::NonConfirmable => MessageType::NonConfirmable,
        _ => return None,
    };
    let mut p = Packet::new();
    p.msg_type = msg_type;
    p.code = CODE_CONTENT;
    p.message_id = request.message_id;
    p.token = copy_bytes(&request.token);
    assert(p.option_map() =~= Map::<u16, Seq<Seq<u8>>>::empty());
    Some(p)
}

impl CoapRequest {
    /// The message and the response are well formed.
    pub open spec fn wf(&self) -> bool {
        &&& self.message.wf()
        &&& self.response matches Some(r) ==> r.wf()
    }

    /// A request received from `source`, with its fresh response.
    pub fn from_packet(packet: Packet, source: Vec<u8>) -> (r: CoapRequest)
        ensures
            r.message == packet,
            r.source == Some(source),
            r.response is Some <==> (packet.msg_type == MessageType::Confirmable
                || packet.msg_type == MessageType::NonConfirmable),
            r.response matches Some(p) ==> is_fresh_response(&packet, &p),
    {
        let response = new_response(&packet);
        CoapRequest { message: packet, response, source: Some(source) }
    }

    /// The method code of the request.
    pub fn get_method(&self) -> (r: u8)
        ensures
            r == self.message.code,
    {
        self.message.code
    }

    /// The raw Uri-Path segments; empty when there are none.
    pub open spec fn spec_path_bytes(&self) -> Seq<Seq<u8>> {
        if self.message.option_map().contains_key(OPTION_URI_PATH) {
            self.message.option_map()[OPTION_URI_PATH]
        } else {
            Seq::empty()
        }
    }
}

} // verus!

verus! {

impl CoapRequest {
    /// Whether the message and the response are well formed.
    pub fn check_wf(&self) -> (r: bool)
        ensures
            r == self.wf(),
    {
        if !self.message.check_wf() {
            return false;
        }
        match &self.response {
            Some(p) => p.check_wf(),
            None => true,
        }
    }
}

} // verus!
