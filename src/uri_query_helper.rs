//! `key=value` parameters of a message's Uri-Query options, looked up without regard to the
//! case of ASCII letters.
use crate::coap_utils::{option_values, pairs_view, string_from_utf8};
use crate::message::{copy_bytes, Packet, OPTION_URI_QUERY};
use crate::text::{eq_ignore_ascii_case, eq_ignore_ascii_case_spec, split_on};
use vstd::prelude::*;
use vstd::utf8::{decode_utf8, valid_utf8};

verus! {

/// The pairs querystring's `querify` reads from `s`: each `&`-separated piece that has an `=`,
/// as the text before its first `=` and the text between its first and second `=`.
pub open spec fn querify_spec(s: Seq<char>) -> Seq<(Seq<char>, Seq<char>)> {
    split_on(s, '&').filter(|p: Seq<char>| split_on(p, '=').len() >= 2).map_values(
        |p: Seq<char>| (split_on(p, '=')[0], split_on(p, '=')[1]),
    )
}

/// Relies on `querystring::querify`: splits on `&`, keeps the pieces with an `=`, and gives
/// each as the text before its first `=` and the text up to the second.
#[verifier::external_body]
fn querify_pairs(s: &str) -> (r: Vec<(String, String)>)
    ensures
        pairs_view(r@) == querify_spec(s@),
{
    querystring::querify(s).into_iter().map(|(k, v)| (k.to_owned(), v.to_owned())).collect()
}

/// The text of a Uri-Query value: its characters, or nothing where it is not UTF-8.
pub open spec fn query_text(b: Seq<u8>) -> Seq<char> {
    if valid_utf8(b) {
        decode_utf8(b)
    } else {
        Seq::empty()
    }
}

/// The parameters of all the Uri-Query values, in order.
pub open spec fn spec_query_params(values: Seq<Seq<u8>>) -> Seq<(Seq<char>, Seq<char>)>
    decreases values.len(),
{
    if values.len() == 0 {
        Seq::empty()
    } else {
        spec_query_params(values.drop_last()) + querify_spec(query_text(values.last()))
    }
}

/// The first index whose key matches `key` without regard to ASCII case, if any.
pub open spec fn first_match(params: Seq<(Seq<char>, Seq<char>)>, key: Seq<char>) -> Option<int> {
    if exists|i: int| 0 <= i < params.len() && eq_ignore_ascii_case_spec(params[i].0, key) {
        Some(
            choose|i: int|
                0 <= i < params.len() && eq_ignore_ascii_case_spec(params[i].0, key) && forall|
                    k: int,
                | 0 <= k < i ==> !eq_ignore_ascii_case_spec(#[trigger] params[k].0, key),
        )
    } else {
        None
    }
}

/// The `key=value` parameters of a message's Uri-Query options, in order.
pub struct UriQueryHelper {
    query_params: Vec<(String, String)>,
}

impl UriQueryHelper {
    pub closed spec fn params(&self) -> Seq<(Seq<char>, Seq<char>)> {
        pairs_view(self.query_params@)
    }

    /// The parameters of `packet`'s Uri-Query options.
    pub fn from(packet: &Packet) -> (r: UriQueryHelper)
        requires
            packet.wf(),
        ensures
            r.params() == spec_query_params(option_values(*packet, OPTION_URI_QUERY)),
    {
        let ghost vals = option_values(*packet, OPTION_URI_QUERY);
        let mut query_params: Vec<(String, String)> = Vec::new();
        match packet.get_option(OPTION_URI_QUERY) {
            None => {
                assert(pairs_view(query_params@) =~= Seq::<(Seq<char>, Seq<char>)>::empty());
            },
            Some(values) => {
                let mut i: usize = 0;
                assert(pairs_view(query_params@) =~= Seq::<(Seq<char>, Seq<char>)>::empty());
                assert(vals.subrange(0, 0) =~= Seq::<Seq<u8>>::empty());
                while i < values.len()
                    invariant
                        vals == option_values(*packet, OPTION_URI_QUERY),
                        values.deep_view() == vals,
                        i <= values@.len(),
                        pairs_view(query_params@) == spec_query_params(vals.subrange(0, i as int)),
                    decreases values@.len() - i,
                {
                    proof {
                        crate::message::lemma_bytes_deep_view(values@[i as int]);
                        assert(vals.subrange(0, i as int + 1).drop_last() =~= vals.subrange(
                            0,
                            i as int,
                        ));
                    }
                    let text = match string_from_utf8(copy_bytes(&values[i])) {
                        Some(s) => s,
                        None => String::new(),
                    };
                    let pairs = querify_pairs(text.as_str());
                    let ghost before = pairs_view(query_params@);
                    let mut k: usize = 0;
                    while k < pairs.len()
                        invariant
                            k <= pairs@.len(),
                            pairs_view(query_params@) == before + pairs_view(pairs@).subrange(
                                0,
                                k as int,
                            ),
                        decreases pairs@.len() - k,
                    {
                        let a = pairs[k].0.clone();
                        let b = pairs[k].1.clone();
                        let ghost prev = pairs_view(query_params@);
                        query_params.push((a, b));
                        assert(pairs_view(query_params@) =~= prev.push((a@, b@)));
                        assert(pairs_view(pairs@)[k as int] == (a@, b@));
                        k = k + 1;
                        assert(pairs_view(query_params@) =~= before + pairs_view(pairs@).subrange(
                            0,
                            k as int,
                        ));
                    }
                    assert(pairs_view(pairs@).subrange(0, k as int) =~= pairs_view(pairs@));
                    i = i + 1;
                }
                assert(vals.subrange(0, values@.len() as int) =~= vals);
            },
        }
        UriQueryHelper { query_params }
    }

    /// The value of the first parameter whose key is `key` without regard to ASCII case.
    pub fn get(&self, key: &str) -> (r: Option<&str>)
        ensures
            match first_match(self.params(), key@) {
                Some(i) => r matches Some(v) && v@ == self.params()[i].1,
                None => r is None,
            },
    {
        let mut i: usize = 0;
        while i < self.query_params.len()
            invariant
                i <= self.query_params@.len(),
                forall|k: int| 0 <= k < i ==> !eq_ignore_ascii_case_spec(
                    #[trigger] self.params()[k].0,
                    key@,
                ),
            decreases self.query_params@.len() - i,
        {
            if eq_ignore_ascii_case(self.query_params[i].0.as_str(), key) {
                proof {
                    let p = self.params();
                    assert(p[i as int].0 == self.query_params@[i as int].0@);
                    assert(eq_ignore_ascii_case_spec(p[i as int].0, key@));
                    assert(0 <= i < p.len() && eq_ignore_ascii_case_spec(p[i as int].0, key@)
                        && forall|k: int| 0 <= k < i ==> !eq_ignore_ascii_case_spec(
                            #[trigger] p[k].0,
                            key@,
                        ));
                    let j = choose|j: int|
                        0 <= j < p.len() && eq_ignore_ascii_case_spec(p[j].0, key@) && forall|
                            k: int,
                        | 0 <= k < j ==> !eq_ignore_ascii_case_spec(#[trigger] p[k].0, key@);
                    if j < i {
                        assert(!eq_ignore_ascii_case_spec(p[j].0, key@));
                    } else if j > i {
                        assert(!eq_ignore_ascii_case_spec(p[i as int].0, key@));
                    }
                    assert(j == i);
                }
                return Some(self.query_params[i].1.as_str());
            }
            i = i + 1;
        }
        None
    }
}

} // verus!
