//! Reading the Uri-Path and Uri-Query options of a request.
use crate::message::{copy_bytes, copy_range, Packet, OPTION_URI_PATH, OPTION_URI_QUERY};
use crate::request::CoapRequest;
use vstd::prelude::*;
use vstd::utf8::{decode_utf8, valid_utf8};

verus! {

/// Bytes that are not UTF-8.
#[derive(Debug, Clone, Copy, PartialEq, Eq, Structural)]
pub struct InvalidUtf8;

/// Relies on `String::from_utf8`: succeeds exactly on valid UTF-8, with the characters the
/// bytes encode.
#[verifier::external_body]
pub(crate) fn string_from_utf8(bytes: Vec<u8>) -> (r: Option<String>)
    ensures
        r is Some <==> valid_utf8(bytes@),
        r matches Some(s) ==> s@ == decode_utf8(bytes@),
{
    String::from_utf8(bytes).ok()
}

/// The segments of a path, decoded, or `None` where one is not UTF-8.
pub open spec fn decoded_segments(segments: Seq<Seq<u8>>) -> Option<Seq<Seq<char>>> {
    if forall|i: int| 0 <= i < segments.len() ==> valid_utf8(#[trigger] segments[i]) {
        Some(segments.map_values(|b: Seq<u8>| decode_utf8(b)))
    } else {
        None
    }
}

/// The values of option `n` of `p`, empty where it has none.
pub open spec fn option_values(p: Packet, n: u16) -> Seq<Seq<u8>> {
    if p.option_map().contains_key(n) {
        p.option_map()[n]
    } else {
        Seq::empty()
    }
}

/// The request's Uri-Path segments as strings.
pub fn request_get_path_as_vec(request: &CoapRequest) -> (r: Result<Vec<String>, InvalidUtf8>)
    requires
        request.wf(),
    ensures
        match decoded_segments(option_values(request.message, OPTION_URI_PATH)) {
            Some(s) => r matches Ok(v) && crate::text::strings_view(v@) == s,
            None => r is Err,
        },
{
    let ghost segs = option_values(request.message, OPTION_URI_PATH);
    let mut out: Vec<String> = Vec::new();
    match request.message.get_option(OPTION_URI_PATH) {
        None => {
            proof {
                assert(segs =~= Seq::<Seq<u8>>::empty());
                assert(crate::text::strings_view(out@) =~= segs.map_values(
                    |b: Seq<u8>| decode_utf8(b),
                ));
            }
            Ok(out)
        },
        Some(values) => {
            let mut i: usize = 0;
            while i < values.len()
                invariant
                    segs == option_values(request.message, OPTION_URI_PATH),
                    values.deep_view() == segs,
                    i <= values@.len(),
                    out@.len() == i,
                    forall|k: int| 0 <= k < i ==> valid_utf8(#[trigger] segs[k]),
                    forall|k: int| 0 <= k < i ==> #[trigger] out@[k]@ == decode_utf8(segs[k]),
                decreases values@.len() - i,
            {
                proof {
                    crate::message::lemma_bytes_deep_view(values@[i as int]);
                }
                match string_from_utf8(copy_bytes(&values[i])) {
                    Some(s) => out.push(s),
                    None => {
                        assert(!valid_utf8(segs[i as int]));
                        assert(!(forall|k: int| 0 <= k < segs.len() ==> valid_utf8(#[trigger] segs[k])));
                        assert(decoded_segments(segs) is None);
                        return Err(InvalidUtf8);
                    },
                }
                i = i + 1;
            }
            proof {
                assert(crate::text::strings_view(out@) =~= segs.map_values(
                    |b: Seq<u8>| decode_utf8(b),
                ));
            }
            Ok(out)
        },
    }
}

/// First index at or after `from` where `b` holds `sep`, or the length.
pub open spec fn index_from(b: Seq<u8>, sep: u8, from: int) -> int
    decreases b.len() - from,
{
    if from >= b.len() || from < 0 {
        b.len() as int
    } else if b[from] == sep {
        from
    } else {
        index_from(b, sep, from + 1)
    }
}

/// `key=value`: the key before the first `=`, the value up to the next `=` or the end.
pub open spec fn spec_parse_query(b: Seq<u8>) -> Option<(Seq<char>, Seq<char>)> {
    let i = index_from(b, '=' as u8, 0);
    let j = index_from(b, '=' as u8, i + 1);
    if i >= b.len() {
        None
    } else if !valid_utf8(b.subrange(0, i)) || !valid_utf8(b.subrange(i + 1, j)) {
        None
    } else {
        Some((decode_utf8(b.subrange(0, i)), decode_utf8(b.subrange(i + 1, j))))
    }
}

/// Why a Uri-Query value is not `key=value`.
#[derive(Debug, Clone, Copy, PartialEq, Eq, Structural)]
pub enum QueryFormatError {
    MissingSeparator,
    KeyNotUtf8,
    ValueNotUtf8,
}

/// One Uri-Query option value, `key=value`.
#[derive(Debug)]
pub struct OptionValueQuery {
    pub key: String,
    pub value: String,
}

fn find_byte(b: &Vec<u8>, sep: u8, from: usize) -> (r: usize)
    requires
        from <= b@.len(),
    ensures
        r as int == index_from(b@, sep, from as int),
        from <= r <= b@.len(),
{
    let mut k = from;
    while k < b.len()
        invariant
            from <= k <= b@.len(),
            index_from(b@, sep, from as int) == index_from(b@, sep, k as int),
        decreases b@.len() - k,
    {
        if b[k] == sep {
            return k;
        }
        k = k + 1;
    }
    k
}

proof fn lemma_index_from_bounds(b: Seq<u8>, sep: u8, from: int)
    requires
        0 <= from,
    ensures
        from <= b.len() ==> from <= index_from(b, sep, from) <= b.len(),
        from > b.len() ==> index_from(b, sep, from) == b.len(),
    decreases b.len() - from,
{
    if from < b.len() && b[from] != sep {
        lemma_index_from_bounds(b, sep, from + 1);
    }
}

impl OptionValueQuery {
    /// Parses a Uri-Query value `key=value`.
    pub fn do_try_from(value: Vec<u8>) -> (r: Result<OptionValueQuery, QueryFormatError>)
        ensures
            r is Ok <==> spec_parse_query(value@) is Some,
            r matches Ok(q) ==> spec_parse_query(value@) == Some((q.key@, q.value@)),
            index_from(value@, '=' as u8, 0) >= value@.len() ==> r == Err::<
                OptionValueQuery,
                QueryFormatError,
            >(QueryFormatError::MissingSeparator),
    {
        let i = find_byte(&value, '=' as u8, 0);
        if i >= value.len() {
            return Err(QueryFormatError::MissingSeparator);
        }
        let j = find_byte(&value, '=' as u8, i + 1);
        let key = match string_from_utf8(copy_range(&value, 0, i)) {
            Some(k) => k,
            None => return Err(QueryFormatError::KeyNotUtf8),
        };
        let val = match string_from_utf8(copy_range(&value, i + 1, j)) {
            Some(v) => v,
            None => return Err(QueryFormatError::ValueNotUtf8),
        };
        Ok(OptionValueQuery { key, value: val })
    }
}

/// The views of a list of string pairs.
pub open spec fn pairs_view(v: Seq<(String, String)>) -> Seq<(Seq<char>, Seq<char>)> {
    v.map_values(|p: (String, String)| (p.0@, p.1@))
}

/// The `key=value` pairs that parse, in order.
pub open spec fn parsed_queries(values: Seq<Seq<u8>>) -> Seq<(Seq<char>, Seq<char>)>
    decreases values.len(),
{
    if values.len() == 0 {
        Seq::empty()
    } else {
        let rest = parsed_queries(values.drop_last());
        match spec_parse_query(values.last()) {
            Some(q) => rest.push(q),
            None => rest,
        }
    }
}

/// The request's Uri-Query options that are `key=value`, in order (later keys override
/// earlier ones where they are read as a map).
pub fn request_get_queries(request: &CoapRequest) -> (r: Vec<(String, String)>)
    requires
        request.wf(),
    ensures
        pairs_view(r@) == parsed_queries(option_values(request.message, OPTION_URI_QUERY)),
{
    let ghost vals = option_values(request.message, OPTION_URI_QUERY);
    let mut out: Vec<(String, String)> = Vec::new();
    match request.message.get_option(OPTION_URI_QUERY) {
        None => {
            assert(pairs_view(out@) =~= Seq::<(Seq<char>, Seq<char>)>::empty());
            assert(vals =~= Seq::<Seq<u8>>::empty());
            out
        },
        Some(values) => {
            let mut i: usize = 0;
            assert(pairs_view(out@) =~= Seq::<(Seq<char>, Seq<char>)>::empty());
            assert(vals.subrange(0, 0) =~= Seq::<Seq<u8>>::empty());
            while i < values.len()
                invariant
                    vals == option_values(request.message, OPTION_URI_QUERY),
                    values.deep_view() == vals,
                    i <= values@.len(),
                    pairs_view(out@) == parsed_queries(vals.subrange(0, i as int)),
                decreases values@.len() - i,
            {
                proof {
                    crate::message::lemma_bytes_deep_view(values@[i as int]);
                    assert(vals.subrange(0, i as int + 1).drop_last() =~= vals.subrange(0, i as int));
                }
                let ghost before = pairs_view(out@);
                match OptionValueQuery::do_try_from(copy_bytes(&values[i])) {
                    Ok(q) => {
                        out.push((q.key, q.value));
                        assert(pairs_view(out@) =~= before.push((q.key@, q.value@)));
                    },
                    Err(_) => {},
                }
                i = i + 1;
            }
            assert(vals.subrange(0, values@.len() as int) =~= vals);
            out
        },
    }
}

} // verus!
