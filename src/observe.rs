//! The observation engine's bookkeeping (RFC 7641): the subscriptions of an observable
//! resource, the notifications a change fans out to, and which attributes a subscription
//! watches.
use crate::hal::{Hal, HalAttribute, HalDevice, HalError};
use crate::message::{bytes_equal, copy_bytes, Packet, METHOD_GET, OPTION_OBSERVE};
use crate::option_value::{be_value, uint_from_option_bytes};
use crate::text::{same_text, split_on, split_str, strings_view};
use vstd::prelude::*;

verus! {

/// Observe sequence numbers are 24 bits on the wire.
pub const OBSERVE_SEQUENCE_MODULUS: u32 = 0x1000000;

/// One subscription: who, with which token, on which path below the resource.
#[derive(Debug)]
pub struct Observer {
    pub endpoint: Vec<u8>,
    pub token: Vec<u8>,
    pub relative_path: String,
}

/// One notification to send: to whom, with which token and sequence number.
#[derive(Debug)]
pub struct Notification {
    pub endpoint: Vec<u8>,
    pub token: Vec<u8>,
    pub sequence: u32,
}

pub open spec fn observer_view(o: Observer) -> (Seq<u8>, Seq<u8>, Seq<char>) {
    (o.endpoint@, o.token@, o.relative_path@)
}

pub open spec fn observers_view(v: Seq<Observer>) -> Seq<(Seq<u8>, Seq<u8>, Seq<char>)> {
    v.map_values(|o: Observer| observer_view(o))
}

pub open spec fn notifications_view(v: Seq<Notification>) -> Seq<(Seq<u8>, Seq<u8>, u32)> {
    v.map_values(|n: Notification| (n.endpoint@, n.token@, n.sequence))
}

/// The notifications for the subscriptions `subs`, all with sequence number `seq`.
pub open spec fn notifications_for(subs: Seq<(Seq<u8>, Seq<u8>, Seq<char>)>, seq: u32) -> Seq<
    (Seq<u8>, Seq<u8>, u32),
> {
    subs.map_values(|o: (Seq<u8>, Seq<u8>, Seq<char>)| (o.0, o.1, seq))
}

/// The sequence number after `s`.
pub open spec fn next_sequence(s: u32) -> u32 {
    ((s + 1) % (OBSERVE_SEQUENCE_MODULUS as int)) as u32
}

/// The active subscriptions of one observable resource.
pub struct ObserversHolder {
    observers: Vec<Observer>,
    sequence: u32,
}

fn copy_observer(o: &Observer) -> (r: Observer)
    ensures
        observer_view(r) == observer_view(*o),
{
    Observer { endpoint: copy_bytes(&o.endpoint), token: copy_bytes(&o.token), relative_path: o.relative_path.clone() }
}

impl ObserversHolder {
    pub closed spec fn spec_observers(&self) -> Seq<(Seq<u8>, Seq<u8>, Seq<char>)> {
        observers_view(self.observers@)
    }

    pub closed spec fn spec_sequence(&self) -> u32 {
        self.sequence
    }

    pub closed spec fn wf(&self) -> bool {
        self.sequence < OBSERVE_SEQUENCE_MODULUS
    }

    /// No subscriptions; the first change gets sequence number 0.
    pub fn new() -> (r: ObserversHolder)
        ensures
            r.wf(),
            r.spec_observers().len() == 0,
            r.spec_sequence() == 0,
    {
        ObserversHolder { observers: Vec::new(), sequence: 0 }
    }

    /// Adds a subscription; `true` where it is the first, so that the change source is to be
    /// started.
    pub fn attach(&mut self, observer: Observer) -> (first: bool)
        requires
            old(self).wf(),
        ensures
            final(self).wf(),
            first == (old(self).spec_observers().len() == 0),
            final(self).spec_observers() == old(self).spec_observers().push(observer_view(observer)),
            final(self).spec_sequence() == old(self).spec_sequence(),
    {
        let first = self.observers.len() == 0;
        let ghost before = observers_view(self.observers@);
        self.observers.push(observer);
        assert(observers_view(self.observers@) =~= before.push(observer_view(observer)));
        first
    }

    /// Removes the subscriptions of `endpoint` with `token`; `true` where none is left, so
    /// that the change source is to be dropped.
    pub fn detach(&mut self, endpoint: &Vec<u8>, token: &Vec<u8>) -> (now_empty: bool)
        requires
            old(self).wf(),
        ensures
            final(self).wf(),
            final(self).spec_observers() == old(self).spec_observers().filter(
                |o: (Seq<u8>, Seq<u8>, Seq<char>)| !(o.0 == endpoint@ && o.1 == token@),
            ),
            now_empty == (final(self).spec_observers().len() == 0),
            final(self).spec_sequence() == old(self).spec_sequence(),
    {
        let ghost all = observers_view(self.observers@);
        let mut kept: Vec<Observer> = Vec::new();
        let mut i: usize = 0;
        proof {
            reveal(Seq::filter);
            assert(all.subrange(0, 0).filter(
                |o: (Seq<u8>, Seq<u8>, Seq<char>)| !(o.0 == endpoint@ && o.1 == token@),
            ) =~= observers_view(kept@));
        }
        while i < self.observers.len()
            invariant
                all == observers_view(self.observers@),
                i <= self.observers@.len(),
                observers_view(kept@) == all.subrange(0, i as int).filter(
                    |o: (Seq<u8>, Seq<u8>, Seq<char>)| !(o.0 == endpoint@ && o.1 == token@),
                ),
            decreases self.observers@.len() - i,
        {
            proof {
                reveal(Seq::filter);
                assert(all.subrange(0, i as int + 1).drop_last() =~= all.subrange(0, i as int));
            }
            let o = &self.observers[i];
            let same = bytes_equal(&o.endpoint, endpoint) && bytes_equal(&o.token, token);
            if !same {
                let ghost before = observers_view(kept@);
                let c = copy_observer(o);
                kept.push(c);
                assert(observers_view(kept@) =~= before.push(all[i as int]));
            }
            i = i + 1;
        }
        assert(all.subrange(0, i as int) =~= all);
        self.observers = kept;
        self.observers.len() == 0
    }

    /// Whether some subscription is on exactly `path`.
    pub fn observes_path(&self, path: &str) -> (r: bool)
        ensures
            r == exists|i: int| 0 <= i < self.spec_observers().len() && #[trigger] self.spec_observers()[i].2 == path@,
    {
        let mut i: usize = 0;
        while i < self.observers.len()
            invariant
                i <= self.observers@.len(),
                forall|k: int| 0 <= k < i ==> #[trigger] self.spec_observers()[k].2 != path@,
            decreases self.observers@.len() - i,
        {
            if same_text(self.observers[i].relative_path.as_str(), path) {
                assert(self.spec_observers()[i as int].2 == path@);
                return true;
            }
            i = i + 1;
        }
        false
    }

    /// The sequence number the next change will carry.
    pub fn current_sequence(&self) -> (r: u32)
        ensures
            r == self.spec_sequence(),
    {
        self.sequence
    }

    fn take_sequence(&mut self) -> (r: u32)
        requires
            old(self).wf(),
        ensures
            final(self).wf(),
            r == old(self).spec_sequence(),
            final(self).spec_sequence() == next_sequence(old(self).spec_sequence()),
            final(self).spec_observers() == old(self).spec_observers(),
    {
        let r = self.sequence;
        self.sequence = (self.sequence + 1) % OBSERVE_SEQUENCE_MODULUS;
        r
    }

    /// A change of the whole resource: one notification per subscription, all with the
    /// current sequence number, which then advances.
    pub fn notify_change(&mut self) -> (r: Vec<Notification>)
        requires
            old(self).wf(),
        ensures
            final(self).wf(),
            notifications_view(r@) == notifications_for(old(self).spec_observers(), old(self).spec_sequence()),
            final(self).spec_sequence() == next_sequence(old(self).spec_sequence()),
            final(self).spec_observers() == old(self).spec_observers(),
    {
        let seq = self.take_sequence();
        let ghost all = observers_view(self.observers@);
        let mut out: Vec<Notification> = Vec::new();
        let mut i: usize = 0;
        while i < self.observers.len()
            invariant
                all == observers_view(self.observers@),
                i <= self.observers@.len(),
                notifications_view(out@) == notifications_for(all.subrange(0, i as int), seq),
            decreases self.observers@.len() - i,
        {
            let ghost before = notifications_view(out@);
            let n = Notification {
                endpoint: copy_bytes(&self.observers[i].endpoint),
                token: copy_bytes(&self.observers[i].token),
                sequence: seq,
            };
            out.push(n);
            assert(notifications_view(out@) =~= before.push((all[i as int].0, all[i as int].1, seq)));
            i = i + 1;
            assert(notifications_view(out@) =~= notifications_for(all.subrange(0, i as int), seq));
        }
        assert(all.subrange(0, i as int) =~= all);
        out
    }

    /// A change at `path` below the resource: one notification per subscription on exactly
    /// that path, all with the current sequence number, which then advances.
    pub fn notify_change_for_path(&mut self, path: &str) -> (r: Vec<Notification>)
        requires
            old(self).wf(),
        ensures
            final(self).wf(),
            notifications_view(r@) == notifications_for(
                old(self).spec_observers().filter(|o: (Seq<u8>, Seq<u8>, Seq<char>)| o.2 == path@),
                old(self).spec_sequence(),
            ),
            final(self).spec_sequence() == next_sequence(old(self).spec_sequence()),
            final(self).spec_observers() == old(self).spec_observers(),
    {
        let seq = self.take_sequence();
        let ghost all = observers_view(self.observers@);
        let mut out: Vec<Notification> = Vec::new();
        let mut i: usize = 0;
        proof {
            reveal(Seq::filter);
            assert(notifications_for(all.subrange(0, 0).filter(|o: (Seq<u8>, Seq<u8>, Seq<char>)| o.2 == path@), seq)
                =~= notifications_view(out@));
        }
        while i < self.observers.len()
            invariant
                all == observers_view(self.observers@),
                i <= self.observers@.len(),
                notifications_view(out@) == notifications_for(
                    all.subrange(0, i as int).filter(|o: (Seq<u8>, Seq<u8>, Seq<char>)| o.2 == path@),
                    seq,
                ),
            decreases self.observers@.len() - i,
        {
            proof {
                reveal(Seq::filter);
                assert(all.subrange(0, i as int + 1).drop_last() =~= all.subrange(0, i as int));
            }
            if same_text(self.observers[i].relative_path.as_str(), path) {
                let ghost before = notifications_view(out@);
                let n = Notification {
                    endpoint: copy_bytes(&self.observers[i].endpoint),
                    token: copy_bytes(&self.observers[i].token),
                    sequence: seq,
                };
                out.push(n);
                proof {
                    let f = all.subrange(0, i as int + 1).filter(|o: (Seq<u8>, Seq<u8>, Seq<char>)| o.2 == path@);
                    let g = all.subrange(0, i as int).filter(|o: (Seq<u8>, Seq<u8>, Seq<char>)| o.2 == path@);
                    assert(f == g.push(all[i as int]));
                    assert(notifications_view(out@) =~= before.push((all[i as int].0, all[i as int].1, seq)));
                    assert(notifications_view(out@) =~= notifications_for(f, seq));
                }
            }
            i = i + 1;
        }
        assert(all.subrange(0, i as int) =~= all);
        out
    }
}

/// What a request's Observe option asks for (RFC 7641 section 2).
#[derive(Debug, Clone, Copy, PartialEq, Eq, Structural)]
pub enum ObserveAction {
    Register,
    Deregister,
}

/// The action of a GET with Observe value 0 or 1; none for other methods, other values, or no
/// Observe option.
pub open spec fn spec_observe_action(message: Packet) -> Option<ObserveAction> {
    match message.first_option(OPTION_OBSERVE) {
        Some(v) => if message.code != METHOD_GET || v.len() > 4 {
            None
        } else if be_value(v) == 0 {
            Some(ObserveAction::Register)
        } else if be_value(v) == 1 {
            Some(ObserveAction::Deregister)
        } else {
            None
        },
        None => None,
    }
}

/// What a request asks of the observation of its resource.
pub fn observe_action(message: &Packet) -> (r: Option<ObserveAction>)
    requires
        message.wf(),
    ensures
        r == spec_observe_action(*message),
{
    if message.code != METHOD_GET {
        return None;
    }
    let value = match message.get_first_option(OPTION_OBSERVE) {
        Some(v) => copy_bytes(v),
        None => return None,
    };
    match uint_from_option_bytes(value) {
        Ok(0) => Some(ObserveAction::Register),
        Ok(1) => Some(ObserveAction::Deregister),
        _ => None,
    }
}

/// Which attributes a subscription watches.
#[derive(Debug)]
pub enum AttributeSelection {
    /// Every attribute the device has.
    All,
    /// These, by name.
    Named(Vec<String>),
}

/// Why a subscription path names nothing to watch.
#[derive(Debug)]
pub enum WatchPathError {
    MissingAddress,
    MissingAttributes,
    NoDevice,
    Hal(HalError),
}

/// What `<address>/attributes[/<name>,<name>...]` selects: the address, and all attributes or
/// the names listed; `None` where the path is not of that shape.
pub open spec fn spec_watch_path(p: Seq<Seq<char>>) -> Option<(Seq<char>, Option<Seq<Seq<char>>>)> {
    if p.len() < 2 || p[1] != "attributes"@ {
        None
    } else if p.len() == 2 {
        Some((p[0], None))
    } else {
        Some((p[0], Some(split_on(p[2], ','))))
    }
}

/// Reads a subscription path `<address>/attributes[/<name>,<name>...]`.
pub fn parse_watch_path(relative_path: &Vec<String>) -> (r: Result<(String, AttributeSelection), WatchPathError>)
    ensures
        relative_path@.len() == 0 ==> r matches Err(WatchPathError::MissingAddress),
        relative_path@.len() > 0 ==> match spec_watch_path(strings_view(relative_path@)) {
            None => r matches Err(WatchPathError::MissingAttributes),
            Some((address, None)) => r matches Ok((a, AttributeSelection::All)) && a@ == address,
            Some((address, Some(names))) => r matches Ok((a, AttributeSelection::Named(v))) && a@ == address
                && strings_view(v@) == names,
        },
{
    if relative_path.len() == 0 {
        return Err(WatchPathError::MissingAddress);
    }
    proof {
        reveal_strlit("attributes");
    }
    if relative_path.len() < 2 || !same_text(relative_path[1].as_str(), "attributes") {
        return Err(WatchPathError::MissingAttributes);
    }
    let address = relative_path[0].clone();
    if relative_path.len() == 2 {
        return Ok((address, AttributeSelection::All));
    }
    let names = split_str(relative_path[2].as_str(), ',');
    Ok((address, AttributeSelection::Named(names)))
}

/// The names of `attributes`, in order.
pub fn attribute_names(attributes: &Vec<HalAttribute>) -> (r: Vec<String>)
    ensures
        strings_view(r@) == attributes@.map_values(|a: HalAttribute| a.name@),
{
    let mut names: Vec<String> = Vec::new();
    let mut i: usize = 0;
    while i < attributes.len()
        invariant
            i <= attributes@.len(),
            strings_view(names@) == attributes@.map_values(|a: HalAttribute| a.name@).subrange(0, i as int),
        decreases attributes@.len() - i,
    {
        let ghost before = strings_view(names@);
        let n = attributes[i].name.clone();
        names.push(n);
        assert(strings_view(names@) =~= before.push(n@));
        i = i + 1;
        assert(strings_view(names@) =~= attributes@.map_values(|a: HalAttribute| a.name@).subrange(0, i as int));
    }
    assert(attributes@.map_values(|a: HalAttribute| a.name@).subrange(0, i as int) =~= attributes@.map_values(
        |a: HalAttribute| a.name@,
    ));
    names
}

/// The device a subscription path names and the attribute names to watch on it.
pub fn start_watch<H: Hal>(hal: &H, relative_path: &Vec<String>) -> (r: Result<(H::Device, Vec<String>), WatchPathError>)
    ensures
        r matches Err(WatchPathError::MissingAddress) <==> relative_path@.len() == 0,
        relative_path@.len() > 0 ==> (r matches Err(WatchPathError::MissingAttributes) <==> spec_watch_path(
            strings_view(relative_path@),
        ) is None),
        r is Ok ==> spec_watch_path(strings_view(relative_path@)) is Some,
        r matches Ok((_, names)) ==> (spec_watch_path(strings_view(relative_path@)) matches Some((_, Some(n)))
            ==> strings_view(names@) == n),
{
    let (address, selection) = match parse_watch_path(relative_path) {
        Ok(p) => p,
        Err(e) => return Err(e),
    };
    let device = match hal.by_address(address.as_str()) {
        Ok(Some(d)) => d,
        Ok(None) => return Err(WatchPathError::NoDevice),
        Err(e) => return Err(WatchPathError::Hal(e)),
    };
    let names = match selection {
        AttributeSelection::Named(v) => v,
        AttributeSelection::All => {
            let attributes = match device.get_applicable_attributes() {
                Ok(a) => a,
                Err(e) => return Err(WatchPathError::Hal(e)),
            };
            attribute_names(&attributes)
        },
    };
    Ok((device, names))
}

} // verus!
