//! The CoAP message as the engine sees it: header fields, options keyed by number, payload.
//! The wire format itself is coap_lite's; this model holds what the engine reads and writes.
use coap_lite::{CoapOption, MessageClass};
use crate::option_value::{minimal_be_bytes, uint_option_bytes};
use vstd::prelude::*;

verus! {

pub const OPTION_OBSERVE: u16 = 6;
pub const OPTION_URI_PATH: u16 = 11;
pub const OPTION_CONTENT_FORMAT: u16 = 12;
pub const OPTION_URI_QUERY: u16 = 15;
pub const OPTION_BLOCK2: u16 = 23;

pub const CONTENT_FORMAT_TEXT_PLAIN: u16 = 0;
pub const CONTENT_FORMAT_LINK_FORMAT: u16 = 40;
pub const CONTENT_FORMAT_JSON: u16 = 50;

pub const CODE_EMPTY: u8 = 0x00;
pub const METHOD_GET: u8 = 0x01;
pub const METHOD_POST: u8 = 0x02;
pub const METHOD_PUT: u8 = 0x03;
pub const METHOD_DELETE: u8 = 0x04;
pub const CODE_CHANGED: u8 = 0x44;
pub const CODE_CONTENT: u8 = 0x45;
pub const CODE_BAD_REQUEST: u8 = 0x80;
pub const CODE_NOT_FOUND: u8 = 0x84;
pub const CODE_METHOD_NOT_ALLOWED: u8 = 0x85;
pub const CODE_INTERNAL_SERVER_ERROR: u8 = 0xA0;

/// Largest token length that the header can announce (RFC 7252 section 3).
pub const MAX_TOKEN_LENGTH: usize = 8;

#[derive(Debug, Clone, Copy, PartialEq, Eq, Structural)]
pub enum MessageType {
    Confirmable,
    NonConfirmable,
    Acknowledgement,
    Reset,
}

/// A CoAP message. Options are kept one entry per option number, each with its ordered values.
#[derive(Debug)]
pub struct Packet {
    pub version: u8,
    pub msg_type: MessageType,
    /// Class and detail, as on the wire (`0x45` is 2.05).
    pub code: u8,
    pub message_id: u16,
    pub token: Vec<u8>,
    /// One entry per option number (see `wf`); use the option methods to keep it so.
    pub options: Vec<(u16, Vec<Vec<u8>>)>,
    pub payload: Vec<u8>,
}

/// A byte string's deep view is its view.
pub proof fn lemma_bytes_deep_view(b: Vec<u8>)
    ensures
        b.deep_view() == b@,
{
    assert(b.deep_view() =~= b@);
}

/// Copies a list of option values.
pub fn copy_values(v: &Vec<Vec<u8>>) -> (r: Vec<Vec<u8>>)
    ensures
        r.deep_view() == v.deep_view(),
{
    let mut r: Vec<Vec<u8>> = Vec::new();
    let mut i: usize = 0;
    while i < v.len()
        invariant
            i <= v.len(),
            r@.len() == i,
            forall|k: int| 0 <= k < i ==> #[trigger] r@[k]@ == v@[k]@,
        decreases v.len() - i,
    {
        let item = v[i].clone();
        assert(item@ =~= v[i as int]@);
        r.push(item);
        i = i + 1;
    }
    assert forall|k: int| 0 <= k < r@.len() implies #[trigger] r.deep_view()[k] == v.deep_view()[k] by {
        lemma_bytes_deep_view(r@[k]);
        lemma_bytes_deep_view(v@[k]);
    }
    assert(r.deep_view() =~= v.deep_view());
    r
}

/// Copies `v[start..end]`.
pub fn copy_range(v: &Vec<u8>, start: usize, end: usize) -> (r: Vec<u8>)
    requires
        start <= end <= v@.len(),
    ensures
        r@ == v@.subrange(start as int, end as int),
{
    let mut r: Vec<u8> = Vec::new();
    let mut i: usize = start;
    while i < end
        invariant
            start <= i <= end <= v@.len(),
            r@ == v@.subrange(start as int, i as int),
        decreases end - i,
    {
        r.push(v[i]);
        i = i + 1;
        assert(r@ =~= v@.subrange(start as int, i as int));
    }
    r
}

/// Copies a byte string.
pub fn copy_bytes(v: &Vec<u8>) -> (r: Vec<u8>)
    ensures
        r@ == v@,
{
    let r = v.clone();
    assert(r@ =~= v@);
    r
}

impl Packet {
    /// One entry per option number.
    pub open spec fn wf(&self) -> bool {
        forall|i: int, j: int|
            0 <= i < j < self.options@.len() ==> self.options@[i].0 != self.options@[j].0
    }

    pub open spec fn has_entry(&self, n: u16) -> bool {
        exists|i: int| 0 <= i < self.options@.len() && self.options@[i].0 == n
    }

    pub open spec fn entry_index(&self, n: u16) -> int {
        choose|i: int| 0 <= i < self.options@.len() && self.options@[i].0 == n
    }

    /// The options: for each option number present, its values in order.
    pub open spec fn option_map(&self) -> Map<u16, Seq<Seq<u8>>> {
        Map::new(
            |n: u16| self.has_entry(n),
            |n: u16| self.options@[self.entry_index(n)].1.deep_view(),
        )
    }

    /// The first value of option `n`, if it has one.
    pub open spec fn first_option(&self, n: u16) -> Option<Seq<u8>> {
        if self.option_map().contains_key(n) && self.option_map()[n].len() > 0 {
            Some(self.option_map()[n][0])
        } else {
            None
        }
    }

    /// Every field but the message id and the payload equals `other`'s.
    pub open spec fn same_except_id_payload(&self, other: &Packet) -> bool {
        &&& self.version == other.version
        &&& self.msg_type == other.msg_type
        &&& self.code == other.code
        &&& self.token@ == other.token@
        &&& self.option_map() == other.option_map()
    }

    /// Every field equals `other`'s.
    pub open spec fn same_as(&self, other: &Packet) -> bool {
        &&& self.same_except_id_payload(other)
        &&& self.message_id == other.message_id
        &&& self.payload@ == other.payload@
    }

    pub proof fn lemma_entry(&self, i: int)
        requires
            self.wf(),
            0 <= i < self.options@.len(),
        ensures
            self.option_map().contains_key(self.options@[i].0),
            self.option_map()[self.options@[i].0] == self.options@[i].1.deep_view(),
    {
        let n = self.options@[i].0;
        assert(self.has_entry(n));
        let j = self.entry_index(n);
        assert(j == i);
    }

    /// An empty confirmable message, version 1.
    pub fn new() -> (r: Packet)
        ensures
            r.wf(),
            r.version == 1,
            r.msg_type == MessageType::Confirmable,
            r.code == CODE_EMPTY,
            r.message_id == 0,
            r.token@.len() == 0,
            r.option_map() == Map::<u16, Seq<Seq<u8>>>::empty(),
            r.payload@.len() == 0,
    {
        let r = Packet {
            version: 1,
            msg_type: MessageType::Confirmable,
            code: CODE_EMPTY,
            message_id: 0,
            token: Vec::new(),
            options: Vec::new(),
            payload: Vec::new(),
        };
        assert(r.option_map() =~= Map::<u16, Seq<Seq<u8>>>::empty());
        r
    }

    /// A copy with every field equal.
    pub fn duplicate(&self) -> (r: Packet)
        requires
            self.wf(),
        ensures
            r.wf(),
            r.same_as(self),
    {
        let mut options: Vec<(u16, Vec<Vec<u8>>)> = Vec::new();
        let mut i: usize = 0;
        while i < self.options.len()
            invariant
                self.wf(),
                i <= self.options@.len(),
                options@.len() == i,
                forall|k: int|
                    0 <= k < i ==> options@[k].0 == self.options@[k].0
                        && options@[k].1.deep_view() == self.options@[k].1.deep_view(),
            decreases self.options@.len() - i,
        {
            let values = copy_values(&self.options[i].1);
            options.push((self.options[i].0, values));
            i = i + 1;
        }
        let r = Packet {
            version: self.version,
            msg_type: self.msg_type,
            code: self.code,
            message_id: self.message_id,
            token: copy_bytes(&self.token),
            options,
            payload: copy_bytes(&self.payload),
        };
        assert forall|n: u16| #[trigger] r.option_map().contains_key(n)
            == self.option_map().contains_key(n) by {
            if r.has_entry(n) {
                let k = r.entry_index(n);
                assert(self.options@[k].0 == n);
            }
            if self.has_entry(n) {
                let k = self.entry_index(n);
                assert(r.options@[k].0 == n);
            }
        }
        assert forall|n: u16| #[trigger] r.option_map().contains_key(n) implies r.option_map()[n]
            == self.option_map()[n] by {
            let k = r.entry_index(n);
            self.lemma_entry(k);
            r.lemma_entry(k);
        }
        assert(r.option_map() =~= self.option_map());
        r
    }

    fn find_entry(&self, n: u16) -> (r: Option<usize>)
        requires
            self.wf(),
        ensures
            r is None <==> !self.option_map().contains_key(n),
            r matches Some(i) ==> i < self.options@.len() && self.options@[i as int].0 == n,
    {
        let mut i: usize = 0;
        while i < self.options.len()
            invariant
                i <= self.options@.len(),
                forall|k: int| 0 <= k < i ==> self.options@[k].0 != n,
            decreases self.options@.len() - i,
        {
            if self.options[i].0 == n {
                return Some(i);
            }
            i = i + 1;
        }
        None
    }

    /// The values of option `n`.
    pub fn get_option(&self, n: u16) -> (r: Option<&Vec<Vec<u8>>>)
        requires
            self.wf(),
        ensures
            r is Some <==> self.option_map().contains_key(n),
            r matches Some(v) ==> v.deep_view() == self.option_map()[n],
    {
        match self.find_entry(n) {
            Some(i) => {
                proof {
                    self.lemma_entry(i as int);
                }
                Some(&self.options[i].1)
            },
            None => None,
        }
    }

    /// The first value of option `n`.
    pub fn get_first_option(&self, n: u16) -> (r: Option<&Vec<u8>>)
        requires
            self.wf(),
        ensures
            r is Some <==> self.first_option(n) is Some,
            r matches Some(v) ==> self.first_option(n) == Some(v@),
    {
        match self.get_option(n) {
            Some(values) => {
                if values.len() > 0 {
                    Some(&values[0])
                } else {
                    None
                }
            },
            None => None,
        }
    }

    /// Replaces the values of option `n`.
    pub fn set_option(&mut self, n: u16, values: Vec<Vec<u8>>)
        requires
            old(self).wf(),
        ensures
            final(self).wf(),
            final(self).option_map() == old(self).option_map().insert(n, values.deep_view()),
            final(self).version == old(self).version,
            final(self).msg_type == old(self).msg_type,
            final(self).code == old(self).code,
            final(self).message_id == old(self).message_id,
            final(self).token == old(self).token,
            final(self).payload == old(self).payload,
    {
        let ghost before = *self;
        let ghost dv = values.deep_view();
        match self.find_entry(n) {
            Some(i) => {
                self.options.set(i, (n, values));
            },
            None => {
                self.options.push((n, values));
            },
        }
        let ghost after = *self;
        assert forall|m: u16| #[trigger] after.option_map().contains_key(m)
            == before.option_map().insert(n, dv).contains_key(m) by {
            if after.has_entry(m) {
                let k = after.entry_index(m);
                if m != n {
                    assert(before.options@[k].0 == m);
                }
            }
            if m != n && before.has_entry(m) {
                let k = before.entry_index(m);
                assert(after.options@[k].0 == m);
            }
            if m == n {
                assert(after.has_entry(n)) by {
                    let k = if before.has_entry(n) { before.entry_index(n) } else {
                        before.options@.len() as int
                    };
                    assert(after.options@[k].0 == n);
                }
            }
        }
        assert forall|m: u16| #[trigger] after.option_map().contains_key(m) implies after.option_map()[m]
            == before.option_map().insert(n, dv)[m] by {
            let k = after.entry_index(m);
            after.lemma_entry(k);
            if m != n {
                before.lemma_entry(k);
            }
        }
        assert(after.option_map() =~= before.option_map().insert(n, dv));
    }

    /// Appends a value to option `n`.
    pub fn add_option(&mut self, n: u16, value: Vec<u8>)
        requires
            old(self).wf(),
        ensures
            final(self).wf(),
            final(self).option_map() == old(self).option_map().insert(
                n,
                if old(self).option_map().contains_key(n) {
                    old(self).option_map()[n]
                } else {
                    Seq::empty()
                }.push(value@),
            ),
            final(self).version == old(self).version,
            final(self).msg_type == old(self).msg_type,
            final(self).code == old(self).code,
            final(self).message_id == old(self).message_id,
            final(self).token == old(self).token,
            final(self).payload == old(self).payload,
    {
        let mut values: Vec<Vec<u8>> = match self.get_option(n) {
            Some(v) => copy_values(v),
            None => {
                let empty: Vec<Vec<u8>> = Vec::new();
                assert(empty.deep_view() =~= Seq::<Seq<u8>>::empty());
                empty
            },
        };
        let ghost before = values.deep_view();
        proof {
            lemma_bytes_deep_view(value);
        }
        values.push(value);
        assert(values.deep_view() =~= before.push(value@));
        self.set_option(n, values);
    }

    /// Removes option `n`.
    pub fn clear_option(&mut self, n: u16)
        requires
            old(self).wf(),
        ensures
            final(self).wf(),
            final(self).option_map() == old(self).option_map().remove(n),
            final(self).version == old(self).version,
            final(self).msg_type == old(self).msg_type,
            final(self).code == old(self).code,
            final(self).message_id == old(self).message_id,
            final(self).token == old(self).token,
            final(self).payload == old(self).payload,
    {
        let ghost before = *self;
        if let Some(i) = self.find_entry(n) {
            let _ = self.options.remove(i);
            let ghost after = *self;
            assert forall|m: u16| #[trigger] after.option_map().contains_key(m)
                == before.option_map().remove(n).contains_key(m) by {
                if after.has_entry(m) {
                    let k = after.entry_index(m);
                    if k < i {
                        assert(before.options@[k].0 == m);
                    } else {
                        assert(before.options@[k + 1].0 == m);
                    }
                }
                if m != n && before.has_entry(m) {
                    let k = before.entry_index(m);
                    if k < i {
                        assert(after.options@[k].0 == m);
                    } else {
                        assert(k != i);
                        assert(after.options@[k - 1].0 == m);
                    }
                }
            }
            assert forall|m: u16| #[trigger] after.option_map().contains_key(m) implies after.option_map()[m]
                == before.option_map().remove(n)[m] by {
                let k = after.entry_index(m);
                after.lemma_entry(k);
                if k < i {
                    before.lemma_entry(k);
                } else {
                    before.lemma_entry(k + 1);
                }
            }
            assert(after.option_map() =~= before.option_map().remove(n));
        } else {
            assert(before.option_map().remove(n) =~= before.option_map());
        }
    }

    /// Sets the content-format option to the single value `cf`.
    pub fn set_content_format(&mut self, cf: u16)
        requires
            old(self).wf(),
        ensures
            final(self).wf(),
            final(self).option_map() == old(self).option_map().insert(
                OPTION_CONTENT_FORMAT,
                seq![minimal_be_bytes(cf as nat)],
            ),
            final(self).version == old(self).version,
            final(self).msg_type == old(self).msg_type,
            final(self).code == old(self).code,
            final(self).message_id == old(self).message_id,
            final(self).token == old(self).token,
            final(self).payload == old(self).payload,
    {
        let value = uint_option_bytes(cf as u32);
        proof {
            lemma_bytes_deep_view(value);
        }
        let values: Vec<Vec<u8>> = vec![value];
        assert(values.deep_view() =~= seq![minimal_be_bytes(cf as nat)]);
        self.set_option(OPTION_CONTENT_FORMAT, values);
    }

    /// Sets every option that `src` has to `src`'s values, keeping the others.
    pub fn copy_options_from(&mut self, src: &Packet)
        requires
            old(self).wf(),
            src.wf(),
        ensures
            final(self).wf(),
            final(self).option_map() == old(self).option_map().union_prefer_right(src.option_map()),
            final(self).version == old(self).version,
            final(self).msg_type == old(self).msg_type,
            final(self).code == old(self).code,
            final(self).message_id == old(self).message_id,
            final(self).token == old(self).token,
            final(self).payload == old(self).payload,
    {
        let ghost start = self.option_map();
        let mut i: usize = 0;
        while i < src.options.len()
            invariant
                src.wf(),
                self.wf(),
                i <= src.options@.len(),
                self.option_map() == start.union_prefer_right(
                    src.option_map().restrict(
                        Set::new(|n: u16| exists|k: int| 0 <= k < i && src.options@[k].0 == n),
                    ),
                ),
                self.version == old(self).version,
                self.msg_type == old(self).msg_type,
                self.code == old(self).code,
                self.message_id == old(self).message_id,
                self.token == old(self).token,
                self.payload == old(self).payload,
            decreases src.options@.len() - i,
        {
            let ghost before = self.option_map();
            let values = copy_values(&src.options[i].1);
            self.set_option(src.options[i].0, values);
            proof {
                src.lemma_entry(i as int);
                let seen = Set::new(|n: u16| exists|k: int| 0 <= k < i && src.options@[k].0 == n);
                let seen2 = Set::new(
                    |n: u16| exists|k: int| 0 <= k < i + 1 && src.options@[k].0 == n,
                );
                assert(seen2 =~= seen.insert(src.options@[i as int].0)) by {
                    assert forall|n: u16| seen2.contains(n) implies #[trigger] seen.insert(
                        src.options@[i as int].0,
                    ).contains(n) by {
                        let k = choose|k: int| 0 <= k < i + 1 && src.options@[k].0 == n;
                        if k < i {
                            assert(seen.contains(n));
                        }
                    }
                    assert forall|n: u16| #[trigger] seen.insert(src.options@[i as int].0).contains(n)
                        implies seen2.contains(n) by {
                        if n != src.options@[i as int].0 {
                            let k = choose|k: int| 0 <= k < i && src.options@[k].0 == n;
                            assert(0 <= k < i + 1 && src.options@[k].0 == n);
                        } else {
                            assert(0 <= i < i + 1 && src.options@[i as int].0 == n);
                        }
                    }
                }
                assert(self.option_map() =~= start.union_prefer_right(
                    src.option_map().restrict(seen2),
                ));
            }
            i = i + 1;
        }
        proof {
            let all = Set::new(
                |n: u16| exists|k: int| 0 <= k < src.options@.len() && src.options@[k].0 == n,
            );
            assert(src.option_map().restrict(all) =~= src.option_map());
        }
    }

    /// The option numbers present, each once, in the order kept.
    pub fn option_numbers(&self) -> (r: Vec<u16>)
        requires
            self.wf(),
        ensures
            r@.len() == self.option_map().dom().len(),
            forall|n: u16| r@.contains(n) <==> self.option_map().contains_key(n),
            forall|i: int, j: int| 0 <= i < j < r@.len() ==> r@[i] != r@[j],
    {
        let mut r: Vec<u16> = Vec::new();
        let mut i: usize = 0;
        while i < self.options.len()
            invariant
                self.wf(),
                i <= self.options@.len(),
                r@.len() == i,
                forall|k: int| 0 <= k < i ==> r@[k] == self.options@[k].0,
            decreases self.options@.len() - i,
        {
            r.push(self.options[i].0);
            i = i + 1;
        }
        assert forall|n: u16| r@.contains(n) <==> self.option_map().contains_key(n) by {
            if r@.contains(n) {
                let k = choose|k: int| 0 <= k < r@.len() && r@[k] == n;
                assert(self.options@[k].0 == n);
            }
            if self.option_map().contains_key(n) {
                let k = self.entry_index(n);
                assert(r@[k] == n);
            }
        }
        assert(self.option_map().dom() =~= r@.to_set());
        proof {
            r@.unique_seq_to_set();
        }
        r
    }
}

/// The length coap_lite gives on the wire to a message with this code, token, options and
/// payload (the rest of the header is four bytes whatever it holds).
pub uninterp spec fn wire_length(
    code: u8,
    token: Seq<u8>,
    options: Map<u16, Seq<Seq<u8>>>,
    payload: Seq<u8>,
) -> nat;

/// Relies on coap_lite's `Packet::to_bytes_unlimited`: the length of the bytes it writes for the
/// message. It fails only where the header's buffer holds less than four bytes, which never
/// happens, and panics on a token of 16 bytes or more, which `requires` leaves out. One entry
/// per option number (`wf`) makes the options the map that coap_lite is handed.
#[verifier::external_body]
pub(crate) fn encoded_length(p: &Packet) -> (r: Option<usize>)
    requires
        p.wf(),
        p.token@.len() <= MAX_TOKEN_LENGTH,
    ensures
        r is Some,
        r matches Some(n) ==> n == wire_length(
            p.code,
            p.token@,
            p.option_map(),
            p.payload@,
        ),
{
    let mut w = coap_lite::Packet::new();
    w.header.code = MessageClass::from(p.code);
    w.set_token(p.token.clone());
    for (n, values) in p.options.iter() {
        w.set_option(CoapOption::from(*n), values.iter().cloned().collect());
    }
    w.payload = p.payload.clone();
    w.to_bytes_unlimited().ok().map(|b| b.len())
}

} // verus!

verus! {

impl Packet {
    /// Whether the option list holds one entry per option number.
    pub fn check_wf(&self) -> (r: bool)
        ensures
            r == self.wf(),
    {
        let n = self.options.len();
        let mut i: usize = 0;
        while i < n
            invariant
                n == self.options@.len(),
                i <= n,
                forall|a: int, b: int| 0 <= a < b < n && a < i ==> self.options@[a].0 != self.options@[b].0,
            decreases n - i,
        {
            let mut j: usize = i + 1;
            while j < n
                invariant
                    n == self.options@.len(),
                    i < n,
                    i + 1 <= j <= n,
                    forall|a: int, b: int| 0 <= a < b < n && a < i ==> self.options@[a].0 != self.options@[b].0,
                    forall|b: int| i < b < j ==> self.options@[i as int].0 != self.options@[b].0,
                decreases n - j,
            {
                if self.options[i].0 == self.options[j].0 {
                    return false;
                }
                j = j + 1;
            }
            i = i + 1;
        }
        true
    }
}

} // verus!

verus! {

/// Whether two byte strings are equal.
pub fn bytes_equal(a: &Vec<u8>, b: &Vec<u8>) -> (r: bool)
    ensures
        r == (a@ == b@),
{
    if a.len() != b.len() {
        return false;
    }
    let mut i: usize = 0;
    while i < a.len()
        invariant
            a@.len() == b@.len(),
            i <= a@.len(),
            forall|k: int| 0 <= k < i ==> a@[k] == b@[k],
        decreases a@.len() - i,
    {
        if a[i] != b[i] {
            return false;
        }
        i = i + 1;
    }
    assert(a@ =~= b@);
    true
}

} // verus!
