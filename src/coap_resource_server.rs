//! The resource router: resources registered by path, requests dispatched to the most specific
//! registered path, handler errors turned into responses, and `.well-known/core` discovery.
use crate::block_value::BlockValue;
use crate::block_handler::{
    response_interception,
    block2_malformed, lemma_interception_sends, no_continuation, sent_after_interception, spec_request_block2, BlockHandler,
    BlockHandlerConfig,
};
use crate::message::CODE_BAD_REQUEST;
use crate::coap_utils::{pairs_view, request_get_path_as_vec, request_get_queries};
use crate::handling_error::HandlingError;
use crate::link_format::{
    check_attr_key, is_attr_key, is_token_key, lemma_links_parse_back, lemma_links_text_empty, links_text,
    readable_link,
    links_view, links_well_keyed, parsed_targets, write_link_format, Link,
};
use crate::message::{Packet, CONTENT_FORMAT_LINK_FORMAT, CONTENT_FORMAT_TEXT_PLAIN, OPTION_CONTENT_FORMAT};
use crate::request::CoapRequest;
use crate::text::{split_on, split_str, strings_view};
use vstd::prelude::*;
use vstd::string::{StrSliceExecFns, StringExecFns};

verus! {

/// A resource served at a path. `handle` fills in `request.response`; `remaining_path` holds
/// the request's path segments past the resource's own path (empty on an exact match).
pub trait CoapResource {
    fn relative_path(&self) -> &str;

    fn debug_name(&self) -> &str;

    fn is_discoverable(&self) -> bool;

    /// The link-format attributes to list for this resource in discovery, as `(key, value)`.
    fn link_attributes(&self) -> Vec<(String, String)>;

    fn handle(&self, request: &mut CoapRequest, remaining_path: &[String]) -> Result<(), HandlingError>;
}

/// The value of a link attribute `key` in `attrs`: the last one given, if any.
pub open spec fn last_value(attrs: Seq<(Seq<char>, Seq<char>)>, key: Seq<char>) -> Option<Seq<char>>
    decreases attrs.len(),
{
    if attrs.len() == 0 {
        None
    } else if attrs.last().0 == key {
        Some(attrs.last().1)
    } else {
        last_value(attrs.drop_last(), key)
    }
}

/// Every queried key has, among the attributes, the value the query gives it last.
pub open spec fn query_matches(
    attrs: Seq<(Seq<char>, Seq<char>)>,
    queries: Seq<(Seq<char>, Seq<char>)>,
) -> bool {
    forall|i: int|
        0 <= i < queries.len() ==> last_value(attrs, #[trigger] queries[i].0) == last_value(
            queries,
            queries[i].0,
        )
}

/// The links whose attributes match the queries, in order.
pub open spec fn filter_links(
    links: Seq<(Seq<char>, Seq<(Seq<char>, Seq<char>)>)>,
    queries: Seq<(Seq<char>, Seq<char>)>,
) -> Seq<(Seq<char>, Seq<(Seq<char>, Seq<char>)>)> {
    links.filter(|l: (Seq<char>, Seq<(Seq<char>, Seq<char>)>)| query_matches(l.1, queries))
}

/// The links listed for `queries`: all of them without a query, the matching ones with one.
pub open spec fn selected_links(
    links: Seq<(Seq<char>, Seq<(Seq<char>, Seq<char>)>)>,
    queries: Seq<(Seq<char>, Seq<char>)>,
) -> Seq<(Seq<char>, Seq<(Seq<char>, Seq<char>)>)> {
    if queries.len() == 0 {
        links
    } else {
        filter_links(links, queries)
    }
}

/// `/` followed by the segments joined with `/`.
pub open spec fn joined_path(segments: Seq<Seq<char>>) -> Seq<char>
    decreases segments.len(),
{
    if segments.len() == 0 {
        seq!['/']
    } else if segments.len() == 1 {
        seq!['/'] + segments[0]
    } else {
        joined_path(segments.drop_last()) + seq!['/'] + segments.last()
    }
}

/// What a catalog entry is seen as: path segments, discoverable, attributes.
pub open spec fn catalog_view(c: Seq<(Vec<String>, bool, Vec<(String, String)>)>) -> Seq<
    (Seq<Seq<char>>, bool, Seq<(Seq<char>, Seq<char>)>),
> {
    c.map_values(
        |e: (Vec<String>, bool, Vec<(String, String)>)| (strings_view(e.0@), e.1, pairs_view(e.2@)),
    )
}

/// The attributes whose keys the link format can carry.
pub open spec fn keyed_attributes(attrs: Seq<(Seq<char>, Seq<char>)>) -> Seq<(Seq<char>, Seq<char>)> {
    attrs.filter(|p: (Seq<char>, Seq<char>)| is_attr_key(p.0))
}

/// The link of a catalog entry: its joined path and the attributes the link format can carry.
pub open spec fn link_view_of(e: (Seq<Seq<char>>, bool, Seq<(Seq<char>, Seq<char>)>)) -> (
    Seq<char>,
    Seq<(Seq<char>, Seq<char>)>,
) {
    (joined_path(e.0), keyed_attributes(e.2))
}

/// Copies the pairs whose keys the link format can carry.
pub fn keep_keyed(v: &Vec<(String, String)>) -> (r: Vec<(String, String)>)
    ensures
        pairs_view(r@) == keyed_attributes(pairs_view(v@)),
        forall|j: int| 0 <= j < r@.len() ==> is_attr_key(#[trigger] pairs_view(r@)[j].0),
{
    let ghost all = pairs_view(v@);
    let mut r: Vec<(String, String)> = Vec::new();
    let mut i: usize = 0;
    proof {
        reveal(Seq::filter);
        assert(keyed_attributes(all.subrange(0, 0)) =~= pairs_view(r@));
    }
    while i < v.len()
        invariant
            all == pairs_view(v@),
            i <= v@.len(),
            pairs_view(r@) == keyed_attributes(all.subrange(0, i as int)),
            forall|j: int| 0 <= j < r@.len() ==> is_attr_key(#[trigger] pairs_view(r@)[j].0),
        decreases v@.len() - i,
    {
        proof {
            reveal(Seq::filter);
            assert(all.subrange(0, i as int + 1).drop_last() =~= all.subrange(0, i as int));
        }
        if check_attr_key(v[i].0.as_str()) {
            let ghost before = pairs_view(r@);
            let a = v[i].0.clone();
            let b = v[i].1.clone();
            r.push((a, b));
            assert(pairs_view(r@) =~= before.push((a@, b@)));
        }
        i = i + 1;
    }
    assert(all.subrange(0, i as int) =~= all);
    r
}

/// The links of the discoverable entries of a catalog, in order.
pub open spec fn discoverable_links(c: Seq<(Seq<Seq<char>>, bool, Seq<(Seq<char>, Seq<char>)>)>) -> Seq<
    (Seq<char>, Seq<(Seq<char>, Seq<char>)>),
>
    decreases c.len(),
{
    if c.len() == 0 {
        Seq::empty()
    } else if c.last().1 {
        discoverable_links(c.drop_last()).push(link_view_of(c.last()))
    } else {
        discoverable_links(c.drop_last())
    }
}

/// Discovery lists exactly the catalog entries marked discoverable, in catalog order, each as
/// its joined path with its attributes.
pub proof fn lemma_discovery_lists_discoverable(c: Seq<(Seq<Seq<char>>, bool, Seq<(Seq<char>, Seq<char>)>)>)
    ensures
        discoverable_links(c) == c.filter(|e: (Seq<Seq<char>>, bool, Seq<(Seq<char>, Seq<char>)>)| e.1).map_values(
            |e: (Seq<Seq<char>>, bool, Seq<(Seq<char>, Seq<char>)>)| link_view_of(e),
        ),
    decreases c.len(),
{
    reveal(Seq::filter);
    if c.len() == 0 {
        assert(c.filter(|e: (Seq<Seq<char>>, bool, Seq<(Seq<char>, Seq<char>)>)| e.1).len() == 0);
        assert(discoverable_links(c) =~= c.filter(|e: (Seq<Seq<char>>, bool, Seq<(Seq<char>, Seq<char>)>)| e.1).map_values(
            |e: (Seq<Seq<char>>, bool, Seq<(Seq<char>, Seq<char>)>)| link_view_of(e),
        ));
    } else {
        lemma_discovery_lists_discoverable(c.drop_last());
        let f = c.drop_last().filter(|e: (Seq<Seq<char>>, bool, Seq<(Seq<char>, Seq<char>)>)| e.1);
        if c.last().1 {
            assert(c.filter(|e: (Seq<Seq<char>>, bool, Seq<(Seq<char>, Seq<char>)>)| e.1) == f.push(c.last()));
            assert(f.push(c.last()).map_values(|e: (Seq<Seq<char>>, bool, Seq<(Seq<char>, Seq<char>)>)| link_view_of(e))
                =~= f.map_values(|e: (Seq<Seq<char>>, bool, Seq<(Seq<char>, Seq<char>)>)| link_view_of(e)).push(
                link_view_of(c.last()),
            ));
        } else {
            assert(c.filter(|e: (Seq<Seq<char>>, bool, Seq<(Seq<char>, Seq<char>)>)| e.1) == f);
        }
    }
}

/// Every attribute key of the discoverable links is one the link format can carry.
proof fn lemma_discoverable_links_keyed(c: Seq<(Seq<Seq<char>>, bool, Seq<(Seq<char>, Seq<char>)>)>)
    ensures
        links_well_keyed(discoverable_links(c)),
    decreases c.len(),
{
    if c.len() > 0 {
        lemma_discoverable_links_keyed(c.drop_last());
        if c.last().1 {
            broadcast use vstd::seq_lib::group_filter_ensures;

            let dl = discoverable_links(c);
            assert forall|i: int, j: int| 0 <= i < dl.len() && 0 <= j < dl[i].1.len() implies is_attr_key(
                #[trigger] dl[i].1[j].0,
            ) by {
                if i < dl.len() - 1 {
                    assert(dl[i] == discoverable_links(c.drop_last())[i]);
                }
            }
        }
    }
}

/// The discovery document over a catalog, read back (split at the commas between links, each
/// link's target), names exactly the paths of the entries marked discoverable, in order; where
/// no path holds a `>`. (Keys the link format cannot carry are left out of the links.)
pub proof fn lemma_discovery_parses_back(c: Seq<(Seq<Seq<char>>, bool, Seq<(Seq<char>, Seq<char>)>)>)
    requires
        forall|i: int| 0 <= i < discoverable_links(c).len() ==> !(#[trigger] discoverable_links(c)[i].0).contains('>'),
    ensures
        parsed_targets(links_text(discoverable_links(c))) == c.filter(
            |e: (Seq<Seq<char>>, bool, Seq<(Seq<char>, Seq<char>)>)| e.1,
        ).map_values(|e: (Seq<Seq<char>>, bool, Seq<(Seq<char>, Seq<char>)>)| joined_path(e.0)),
{
    let dl = discoverable_links(c);
    lemma_discoverable_links_keyed(c);
    assert forall|i: int| 0 <= i < dl.len() implies readable_link(#[trigger] dl[i]) by {
        assert forall|j: int| 0 <= j < dl[i].1.len() implies is_token_key(#[trigger] dl[i].1[j].0) by {
            crate::link_format::lemma_attr_key_is_token(dl[i].1[j].0);
        }
    }
    lemma_links_parse_back(dl);
    lemma_discovery_lists_discoverable(c);
    let f = c.filter(|e: (Seq<Seq<char>>, bool, Seq<(Seq<char>, Seq<char>)>)| e.1);
    assert(dl.map_values(|l: (Seq<char>, Seq<(Seq<char>, Seq<char>)>)| l.0) =~= f.map_values(
        |e: (Seq<Seq<char>>, bool, Seq<(Seq<char>, Seq<char>)>)| joined_path(e.0),
    ));
}

/// Discovery's listing for any queries, read back (split at the commas between links, each
/// link's target), names exactly the paths of the links it lists, in order; where the links
/// hold no `>` in their paths and their keys are ones the link format carries.
pub proof fn lemma_listing_parses_back(
    links: Seq<(Seq<char>, Seq<(Seq<char>, Seq<char>)>)>,
    queries: Seq<(Seq<char>, Seq<char>)>,
)
    requires
        links_well_keyed(links),
        forall|i: int| 0 <= i < links.len() ==> !(#[trigger] links[i].0).contains('>'),
    ensures
        parsed_targets(links_text(selected_links(links, queries))) == selected_links(links, queries).map_values(
            |l: (Seq<char>, Seq<(Seq<char>, Seq<char>)>)| l.0,
        ),
{
    broadcast use vstd::seq_lib::group_filter_ensures;

    let sel = selected_links(links, queries);
    assert forall|i: int| 0 <= i < sel.len() implies readable_link(#[trigger] sel[i]) by {
        if queries.len() != 0 {
            let pred = |l: (Seq<char>, Seq<(Seq<char>, Seq<char>)>)| query_matches(l.1, queries);
            assert(sel == links.filter(pred));
            assert(sel.contains(sel[i]));
            links.lemma_filter_contains_rev(pred, sel[i]);
        } else {
            assert(links[i] == sel[i]);
        }
        let k = choose|k: int| 0 <= k < links.len() && links[k] == sel[i];
        assert forall|j: int| 0 <= j < sel[i].1.len() implies is_token_key(#[trigger] sel[i].1[j].0) by {
            assert(is_attr_key(links[k].1[j].0));
            crate::link_format::lemma_attr_key_is_token(sel[i].1[j].0);
        }
    }
    lemma_links_parse_back(sel);
}

/// Copies a list of string pairs.
pub fn copy_pairs(v: &Vec<(String, String)>) -> (r: Vec<(String, String)>)
    ensures
        pairs_view(r@) == pairs_view(v@),
{
    let mut r: Vec<(String, String)> = Vec::new();
    let mut i: usize = 0;
    while i < v.len()
        invariant
            i <= v@.len(),
            pairs_view(r@) == pairs_view(v@).subrange(0, i as int),
        decreases v@.len() - i,
    {
        let ghost before = pairs_view(r@);
        let a = v[i].0.clone();
        let b = v[i].1.clone();
        r.push((a, b));
        assert(pairs_view(r@) =~= before.push((a@, b@)));
        i = i + 1;
        assert(pairs_view(r@) =~= pairs_view(v@).subrange(0, i as int));
    }
    assert(pairs_view(v@).subrange(0, v@.len() as int) =~= pairs_view(v@));
    r
}

/// `/` followed by the segments joined with `/`.
pub fn join_path(segments: &Vec<String>) -> (r: String)
    ensures
        r@ == joined_path(strings_view(segments@)),
{
    let mut out = "/".to_owned();
    proof {
        reveal_strlit("/");
    }
    let mut i: usize = 0;
    while i < segments.len()
        invariant
            i <= segments@.len(),
            i == 0 ==> out@ == seq!['/'],
            i > 0 ==> out@ == joined_path(strings_view(segments@).subrange(0, i as int)),
        decreases segments@.len() - i,
    {
        let ghost sv = strings_view(segments@).subrange(0, i as int + 1);
        proof {
            reveal_strlit("/");
            assert(sv.drop_last() =~= strings_view(segments@).subrange(0, i as int));
            assert(sv.last() == segments@[i as int]@);
        }
        if i > 0 {
            out.append("/");
        }
        out.append(segments[i].as_str());
        proof {
            if i == 0 {
                assert(out@ =~= joined_path(sv));
            } else {
                assert(out@ =~= joined_path(sv));
            }
        }
        i = i + 1;
    }
    proof {
        assert(strings_view(segments@).subrange(0, i as int) =~= strings_view(segments@));
        if i == 0 {
            assert(strings_view(segments@).len() == 0);
        }
    }
    out
}

proof fn lemma_last_value_present(s: Seq<(Seq<char>, Seq<char>)>, i: int)
    requires
        0 <= i < s.len(),
    ensures
        last_value(s, s[i].0) is Some,
    decreases s.len(),
{
    if s.last().0 != s[i].0 {
        assert(i < s.len() - 1);
        assert(s.drop_last()[i] == s[i]);
        lemma_last_value_present(s.drop_last(), i);
    }
}

fn find_last(pairs: &Vec<(String, String)>, key: &String) -> (r: Option<usize>)
    ensures
        match last_value(pairs_view(pairs@), key@) {
            Some(v) => r matches Some(i) && i < pairs@.len() && pairs@[i as int].1@ == v,
            None => r is None,
        },
{
    let mut i: usize = pairs.len();
    assert(pairs_view(pairs@).subrange(0, i as int) =~= pairs_view(pairs@));
    while i > 0
        invariant
            i <= pairs@.len(),
            last_value(pairs_view(pairs@), key@) == last_value(pairs_view(pairs@).subrange(0, i as int), key@),
        decreases i,
    {
        let ghost s = pairs_view(pairs@).subrange(0, i as int);
        proof {
            assert(s.drop_last() =~= pairs_view(pairs@).subrange(0, i as int - 1));
        }
        if pairs[i - 1].0 == *key {
            return Some(i - 1);
        }
        i = i - 1;
    }
    proof {
        assert(pairs_view(pairs@).subrange(0, 0).len() == 0);
    }
    None
}

/// `after` is `resp0` with `text` as link-format payload.
pub open spec fn is_listing(resp0: Packet, after: Option<Packet>, text: Seq<char>) -> bool {
    match after {
        Some(resp) => {
            &&& resp.wf()
            &&& resp.version == resp0.version
            &&& resp.msg_type == resp0.msg_type
            &&& resp.code == resp0.code
            &&& resp.message_id == resp0.message_id
            &&& resp.token == resp0.token
            &&& resp.option_map() == resp0.option_map().insert(
                OPTION_CONTENT_FORMAT,
                seq![crate::option_value::minimal_be_bytes(CONTENT_FORMAT_LINK_FORMAT as nat)],
            )
            &&& resp.payload@ == vstd::utf8::encode_utf8(text)
        },
        None => false,
    }
}

/// The discovery resource: lists the discoverable resources' links, filtered by query.
pub struct CoreCoapResource {
    suppress_empty_response: bool,
    full_path: Vec<String>,
    links: Vec<Link>,
}

impl CoreCoapResource {
    pub closed spec fn spec_links(&self) -> Seq<(Seq<char>, Seq<(Seq<char>, Seq<char>)>)> {
        links_view(self.links@)
    }

    /// The links' attribute keys are ones the link format can carry.
    pub closed spec fn wf(&self) -> bool {
        links_well_keyed(self.spec_links())
    }

    pub closed spec fn spec_suppress(&self) -> bool {
        self.suppress_empty_response
    }

    pub closed spec fn spec_full_path(&self) -> Seq<Seq<char>> {
        strings_view(self.full_path@)
    }

    /// Discovery at `.well-known/core` over `catalog`: for each resource its path segments,
    /// whether it is discoverable, and its attributes.
    pub fn from_catalog(
        catalog: Vec<(Vec<String>, bool, Vec<(String, String)>)>,
        suppress_empty_response: bool,
    ) -> (r: CoreCoapResource)
        ensures
            r.spec_suppress() == suppress_empty_response,
            r.spec_full_path() == split_on(".well-known/core"@, '/'),
            r.spec_links() == discoverable_links(catalog_view(catalog@)),
            r.wf(),
    {
        let full_path = split_str(".well-known/core", '/');
        let mut links: Vec<Link> = Vec::new();
        let mut i: usize = 0;
        let ghost cv = catalog_view(catalog@);
        assert(discoverable_links(cv.subrange(0, 0)) =~= links_view(links@));
        while i < catalog.len()
            invariant
                cv == catalog_view(catalog@),
                i <= catalog@.len(),
                links_view(links@) == discoverable_links(cv.subrange(0, i as int)),
                links_well_keyed(links_view(links@)),
            decreases catalog@.len() - i,
        {
            proof {
                assert(cv.subrange(0, i as int + 1).drop_last() =~= cv.subrange(0, i as int));
            }
            if catalog[i].1 {
                let path = join_path(&catalog[i].0);
                let attributes = keep_keyed(&catalog[i].2);
                let ghost before = links_view(links@);
                let link = Link { path, attributes };
                links.push(link);
                assert(links_view(links@) =~= before.push(link_view_of(cv[i as int])));
            }
            i = i + 1;
        }
        assert(cv.subrange(0, catalog@.len() as int) =~= cv);
        CoreCoapResource { suppress_empty_response, full_path, links }
    }

    /// The link-format text of `links`.
    pub fn format_links(links: &Vec<Link>) -> (r: String)
        requires
            links_well_keyed(links_view(links@)),
        ensures
            r@ == links_text(links_view(links@)),
    {
        write_link_format(links)
    }

    /// Whether the attributes give every queried key the value the query gives it last.
    pub fn is_query_match(attributes: &Vec<(String, String)>, queries: &Vec<(String, String)>) -> (r: bool)
        ensures
            r == query_matches(pairs_view(attributes@), pairs_view(queries@)),
    {
        let mut i: usize = 0;
        while i < queries.len()
            invariant
                i <= queries@.len(),
                forall|k: int|
                    0 <= k < i ==> last_value(pairs_view(attributes@), #[trigger] pairs_view(queries@)[k].0)
                        == last_value(pairs_view(queries@), pairs_view(queries@)[k].0),
            decreases queries@.len() - i,
        {
            let key = &queries[i].0;
            let wanted = find_last(queries, key);
            let found = find_last(attributes, key);
            let same = match (wanted, found) {
                (Some(a), Some(b)) => queries[a].1 == attributes[b].1,
                (None, None) => true,
                _ => false,
            };
            if !same {
                proof {
                    let q = pairs_view(queries@);
                    assert(q[i as int].0 == key@);
                    assert(last_value(q, key@) is Some) by {
                        lemma_last_value_present(q, i as int);
                    }
                    assert(last_value(pairs_view(attributes@), q[i as int].0) != last_value(q, q[i as int].0));
                }
                return false;
            }
            i = i + 1;
        }
        true
    }

    /// The links whose attributes match `queries`.
    pub fn filter_by_query(&self, queries: &Vec<(String, String)>) -> (r: Vec<Link>)
        requires
            self.wf(),
        ensures
            links_view(r@) == filter_links(self.spec_links(), pairs_view(queries@)),
            links_well_keyed(links_view(r@)),
    {
        let mut out: Vec<Link> = Vec::new();
        let mut i: usize = 0;
        let ghost all = self.spec_links();
        let ghost q = pairs_view(queries@);
        proof {
            reveal(Seq::filter);
        }
        assert(all.subrange(0, 0).filter(|l: (Seq<char>, Seq<(Seq<char>, Seq<char>)>)| query_matches(l.1, q)) =~= links_view(out@));
        while i < self.links.len()
            invariant
                all == self.spec_links(),
                q == pairs_view(queries@),
                i <= self.links@.len(),
                links_view(out@) == all.subrange(0, i as int).filter(
                    |l: (Seq<char>, Seq<(Seq<char>, Seq<char>)>)| query_matches(l.1, q),
                ),
                links_well_keyed(all),
                links_well_keyed(links_view(out@)),
            decreases self.links@.len() - i,
        {
            proof {
                let s = all.subrange(0, i as int + 1);
                assert(s.drop_last() =~= all.subrange(0, i as int));
                reveal(Seq::filter);
            }
            if Self::is_query_match(&self.links[i].attributes, queries) {
                let ghost before = links_view(out@);
                let link = Link {
                    path: self.links[i].path.clone(),
                    attributes: copy_pairs(&self.links[i].attributes),
                };
                out.push(link);
                assert(links_view(out@) =~= before.push(all[i as int]));
            }
            i = i + 1;
        }
        assert(all.subrange(0, self.links@.len() as int) =~= all);
        out
    }

    /// Lists the links (those matching the request's queries, where it has any) in the
    /// response, as link format. With nothing to list and suppression on, no reply.
    pub fn handle(&self, request: &mut CoapRequest) -> (r: Result<(), HandlingError>)
        requires
            self.wf(),
            old(request).wf(),
        ensures
            final(request).wf(),
            final(request).message == old(request).message,
            final(request).source == old(request).source,
            ({
                let queries = crate::coap_utils::parsed_queries(
                    crate::coap_utils::option_values(old(request).message, crate::message::OPTION_URI_QUERY),
                );
                let listed = selected_links(self.spec_links(), queries);
                match old(request).response {
                    None => r matches Err(e) && e.code is None && final(request).response is None,
                    Some(resp0) => if listed.len() == 0 && self.spec_suppress() {
                        r matches Err(e) && e.code is None && final(request).response == old(request).response
                    } else {
                        r is Ok && is_listing(resp0, final(request).response, links_text(listed))
                    },
                }
            }),
    {
        let queries = request_get_queries(request);
        if request.response.is_none() {
            return Err(HandlingError::not_handled());
        }
        let reply_text = if queries.len() > 0 {
            let matched = self.filter_by_query(&queries);
            Self::format_links(&matched)
        } else {
            Self::format_links(&self.links)
        };
        let ghost listed = selected_links(self.spec_links(), pairs_view(queries@));
        proof {
            lemma_links_text_empty(listed);
        }
        if reply_text.as_str().unicode_len() == 0 && self.suppress_empty_response {
            return Err(HandlingError::not_handled());
        }
        let mut reply = match request.response.take() {
            Some(p) => p,
            None => return Err(HandlingError::not_handled()),
        };
        let ghost resp0 = reply;
        reply.set_content_format(CONTENT_FORMAT_LINK_FORMAT);
        let text_str = reply_text.as_str();
        reply.payload = text_str.as_bytes_vec();
        assert(text_str@ == reply_text@);
        assert(reply.payload@ == vstd::utf8::encode_utf8(text_str@));
        assert(reply_text@ == links_text(listed));
        assert(reply.wf());
        assert(reply.option_map() == resp0.option_map().insert(
                OPTION_CONTENT_FORMAT,
                seq![crate::option_value::minimal_be_bytes(CONTENT_FORMAT_LINK_FORMAT as nat)],
            ));
        assert(is_listing(resp0, Some(reply), links_text(listed)));
        request.response = Some(reply);
        Ok(())
    }
}

} // verus!

verus! {

/// A resource with the full path it is served at.
pub struct CoapResourceNode<R> {
    pub full_path: Vec<String>,
    pub resource: R,
}

impl<R: CoapResource> CoapResourceNode<R> {
    /// `resource` served at `path`, split at `/`.
    pub fn from_parts(path: &str, resource: R) -> (r: CoapResourceNode<R>)
        ensures
            strings_view(r.full_path@) == split_on(path@, '/'),
            r.resource == resource,
    {
        CoapResourceNode { full_path: Self::split_path(path), resource }
    }

    /// `resource` served at its relative path.
    pub fn from_resource(resource: R) -> (r: CoapResourceNode<R>)
        ensures
            r.resource == resource,
    {
        let full_path = Self::split_path(resource.relative_path());
        CoapResourceNode { full_path, resource }
    }

    /// `node` moved under `base_path_stem`.
    pub fn from_parent_resource(base_path_stem: &str, node: CoapResourceNode<R>) -> (r: CoapResourceNode<R>)
        ensures
            strings_view(r.full_path@) == split_on(base_path_stem@, '/') + strings_view(node.full_path@),
            r.resource == node.resource,
    {
        let mut full_path = Self::split_path(base_path_stem);
        let ghost base = strings_view(full_path@);
        let mut i: usize = 0;
        while i < node.full_path.len()
            invariant
                i <= node.full_path@.len(),
                strings_view(full_path@) == base + strings_view(node.full_path@).subrange(0, i as int),
            decreases node.full_path@.len() - i,
        {
            let ghost before = strings_view(full_path@);
            let seg = node.full_path[i].clone();
            full_path.push(seg);
            assert(strings_view(full_path@) =~= before.push(seg@));
            i = i + 1;
            assert(strings_view(full_path@) =~= base + strings_view(node.full_path@).subrange(0, i as int));
        }
        assert(strings_view(node.full_path@).subrange(0, i as int) =~= strings_view(node.full_path@));
        CoapResourceNode { full_path, resource: node.resource }
    }

    /// The segments of `path` between `/`s.
    pub fn split_path(path: &str) -> (r: Vec<String>)
        ensures
            strings_view(r@) == split_on(path@, '/'),
    {
        split_str(path, '/')
    }
}

/// The full paths of a list of nodes.
pub open spec fn node_paths<R>(nodes: Seq<CoapResourceNode<R>>) -> Seq<Seq<Seq<char>>> {
    nodes.map_values(|n: CoapResourceNode<R>| strings_view(n.full_path@))
}

/// The resources of a list of nodes.
pub open spec fn node_resources<R>(nodes: Seq<CoapResourceNode<R>>) -> Seq<R> {
    nodes.map_values(|n: CoapResourceNode<R>| n.resource)
}

/// Two registrations at one path.
#[derive(Debug)]
pub struct DuplicateResourcePath {
    pub path: Vec<String>,
}

/// Collects resources and settings; `build` makes the server.
pub struct CoapResourceServerBuilder<R> {
    core_discovery: bool,
    suppress_empty_core_reply: bool,
    resources: Vec<CoapResourceNode<R>>,
}

impl<R: CoapResource> CoapResourceServerBuilder<R> {
    pub closed spec fn spec_core_discovery(&self) -> bool {
        self.core_discovery
    }

    pub closed spec fn spec_suppress_empty_core_reply(&self) -> bool {
        self.suppress_empty_core_reply
    }

    /// The full paths registered, in order.
    pub closed spec fn spec_paths(&self) -> Seq<Seq<Seq<char>>> {
        node_paths(self.resources@)
    }

    /// The resources registered, in the order of their paths.
    pub closed spec fn spec_resources(&self) -> Seq<R> {
        node_resources(self.resources@)
    }

    /// Discovery on, empty replies suppressed, nothing registered.
    pub fn new() -> (r: CoapResourceServerBuilder<R>)
        ensures
            r.spec_core_discovery(),
            r.spec_suppress_empty_core_reply(),
            r.spec_paths().len() == 0,
            r.spec_resources().len() == 0,
    {
        CoapResourceServerBuilder { core_discovery: true, suppress_empty_core_reply: true, resources: Vec::new() }
    }

    pub fn set_suppress_empty_core_reply(self, suppress: bool) -> (r: CoapResourceServerBuilder<R>)
        ensures
            r.spec_suppress_empty_core_reply() == suppress,
            r.spec_core_discovery() == self.spec_core_discovery(),
            r.spec_paths() == self.spec_paths(),
    {
        let mut b = self;
        b.suppress_empty_core_reply = suppress;
        b
    }

    pub fn set_core_discovery(self, is_enabled: bool) -> (r: CoapResourceServerBuilder<R>)
        ensures
            r.spec_core_discovery() == is_enabled,
            r.spec_suppress_empty_core_reply() == self.spec_suppress_empty_core_reply(),
            r.spec_paths() == self.spec_paths(),
    {
        let mut b = self;
        b.core_discovery = is_enabled;
        b
    }

    /// Registers `resource` at its relative path.
    pub fn add_resource(self, resource: R) -> (r: CoapResourceServerBuilder<R>)
        ensures
            r.spec_core_discovery() == self.spec_core_discovery(),
            r.spec_suppress_empty_core_reply() == self.spec_suppress_empty_core_reply(),
            r.spec_paths().len() == self.spec_paths().len() + 1,
            r.spec_paths().subrange(0, self.spec_paths().len() as int) == self.spec_paths(),
            r.spec_resources() == self.spec_resources().push(resource),
    {
        let mut b = self;
        let ghost before = node_paths(b.resources@);
        let ghost before_res = node_resources(b.resources@);
        let node = CoapResourceNode::from_resource(resource);
        b.resources.push(node);
        assert(node_paths(b.resources@).subrange(0, before.len() as int) =~= before);
        assert(node_resources(b.resources@) =~= before_res.push(resource));
        b
    }

    /// Registers every resource of `registry` under `base_path_stem`.
    pub fn add_child_resources(self, base_path_stem: &str, registry: CoapResourceServerBuilder<R>) -> (r:
        CoapResourceServerBuilder<R>)
        ensures
            r.spec_core_discovery() == self.spec_core_discovery(),
            r.spec_suppress_empty_core_reply() == self.spec_suppress_empty_core_reply(),
            r.spec_paths() == self.spec_paths() + registry.spec_paths().map_values(
                |p: Seq<Seq<char>>| split_on(base_path_stem@, '/') + p,
            ),
            r.spec_resources() == self.spec_resources() + registry.spec_resources(),
    {
        let mut b = self;
        let ghost start = node_paths(b.resources@);
        let ghost start_res = node_resources(b.resources@);
        let ghost children = node_paths(registry.resources@);
        let ghost child_res = node_resources(registry.resources@);
        let ghost base = split_on(base_path_stem@, '/');
        let mut children_left = registry.resources;
        let mut moved: Vec<CoapResourceNode<R>> = Vec::new();
        // Taken from the back, then put in order.
        while children_left.len() > 0
            invariant
                node_paths(children_left@) + node_paths(moved@).reverse() == children,
                node_resources(children_left@) + node_resources(moved@).reverse() == child_res,
            decreases children_left@.len(),
        {
            let ghost before_left = node_paths(children_left@);
            let ghost before_moved = node_paths(moved@);
            let ghost rl = node_resources(children_left@);
            let ghost rm = node_resources(moved@);
            let node = children_left.pop().unwrap();
            moved.push(node);
            assert(node_paths(children_left@) =~= before_left.drop_last());
            assert(node_paths(moved@) =~= before_moved.push(before_left.last()));
            assert(node_paths(moved@).reverse() =~= seq![before_left.last()] + before_moved.reverse());
            assert(node_paths(children_left@) + node_paths(moved@).reverse() =~= before_left.drop_last()
                + (seq![before_left.last()] + before_moved.reverse()));
            assert(before_left =~= before_left.drop_last() + seq![before_left.last()]);
            assert(node_paths(children_left@) + node_paths(moved@).reverse() =~= children);
            assert(node_resources(children_left@) =~= rl.drop_last());
            assert(node_resources(moved@) =~= rm.push(rl.last()));
            assert(node_resources(moved@).reverse() =~= seq![rl.last()] + rm.reverse());
            assert(rl =~= rl.drop_last() + seq![rl.last()]);
            assert(node_resources(children_left@) + node_resources(moved@).reverse() =~= child_res);
        }
        assert(node_paths(moved@).reverse() =~= children);
        assert(node_resources(moved@).reverse() =~= child_res);
        let ghost total = moved@.len();
        while moved.len() > 0
            invariant
                base == split_on(base_path_stem@, '/'),
                total == children.len(),
                moved@.len() <= total,
                node_paths(moved@).reverse() == children.subrange(total - moved@.len(), total as int),
                node_paths(b.resources@) == start + children.subrange(0, total - moved@.len()).map_values(
                    |p: Seq<Seq<char>>| base + p,
                ),
                b.core_discovery == self.core_discovery,
                b.suppress_empty_core_reply == self.suppress_empty_core_reply,
                child_res.len() == total,
                node_resources(moved@).reverse() == child_res.subrange(total - moved@.len(), total as int),
                node_resources(b.resources@) == start_res + child_res.subrange(0, total - moved@.len()),
            decreases moved@.len(),
        {
            let ghost before_moved = node_paths(moved@);
            let ghost before_res = node_paths(b.resources@);
            let ghost rm = node_resources(moved@);
            let ghost rb = node_resources(b.resources@);
            let ghost k = total - moved@.len();
            let node = moved.pop().unwrap();
            proof {
                assert(before_moved.reverse()[0] == before_moved.last());
                assert(children.subrange(k, total as int)[0] == children[k]);
                assert(strings_view(node.full_path@) == children[k]);
                assert(rm.reverse()[0] == rm.last());
                assert(child_res.subrange(k, total as int)[0] == child_res[k]);
                assert(node.resource == child_res[k]);
            }
            let child = CoapResourceNode::from_parent_resource(base_path_stem, node);
            b.resources.push(child);
            proof {
                assert(node_paths(moved@) =~= before_moved.drop_last());
                assert(before_moved.drop_last().reverse() =~= before_moved.reverse().subrange(
                    1,
                    before_moved.len() as int,
                ));
                assert(node_paths(moved@).reverse() =~= children.subrange(k + 1, total as int));
                assert(strings_view(child.full_path@) == base + children[k]);
                assert(node_paths(b.resources@) =~= before_res.push(
                    strings_view(child.full_path@),
                ));
                assert(node_paths(b.resources@) =~= before_res.push(base + children[k]));
                assert(children.subrange(0, k + 1).map_values(|p: Seq<Seq<char>>| base + p)
                    =~= children.subrange(0, k).map_values(|p: Seq<Seq<char>>| base + p).push(base + children[k]));
                assert(node_paths(b.resources@) =~= start + children.subrange(0, k + 1).map_values(
                    |p: Seq<Seq<char>>| base + p,
                ));
                assert(node_resources(moved@) =~= rm.drop_last());
                assert(rm.drop_last().reverse() =~= rm.reverse().subrange(1, rm.len() as int));
                assert(node_resources(moved@).reverse() =~= child_res.subrange(k + 1, total as int));
                assert(node_resources(b.resources@) =~= rb.push(child_res[k]));
                assert(node_resources(b.resources@) =~= start_res + child_res.subrange(0, k + 1));
            }
        }
        assert(children.subrange(0, total as int) =~= children);
        assert(child_res.subrange(0, total as int) =~= child_res);
        b
    }
}

} // verus!

verus! {

/// Whether two paths are equal segment by segment.
pub fn paths_equal(a: &Vec<String>, b: &Vec<String>) -> (r: bool)
    ensures
        r == (strings_view(a@) == strings_view(b@)),
{
    if a.len() != b.len() {
        proof {
            assert(strings_view(a@).len() != strings_view(b@).len());
        }
        return false;
    }
    let mut i: usize = 0;
    while i < a.len()
        invariant
            a@.len() == b@.len(),
            i <= a@.len(),
            forall|k: int| 0 <= k < i ==> #[trigger] a@[k]@ == b@[k]@,
        decreases a@.len() - i,
    {
        if a[i] != b[i] {
            proof {
                assert(strings_view(a@)[i as int] != strings_view(b@)[i as int]);
            }
            return false;
        }
        i = i + 1;
    }
    assert(strings_view(a@) =~= strings_view(b@));
    true
}

/// Whether `a` equals the first `d` segments of `path`.
fn prefix_equals(a: &Vec<String>, path: &Vec<String>, d: usize) -> (r: bool)
    requires
        d <= path@.len(),
    ensures
        r == (strings_view(a@) == strings_view(path@).subrange(0, d as int)),
{
    if a.len() != d {
        proof {
            assert(strings_view(a@).len() != strings_view(path@).subrange(0, d as int).len());
        }
        return false;
    }
    let mut i: usize = 0;
    while i < d
        invariant
            a@.len() == d <= path@.len(),
            i <= d,
            forall|k: int| 0 <= k < i ==> #[trigger] a@[k]@ == path@[k]@,
        decreases d - i,
    {
        if a[i] != path[i] {
            proof {
                assert(strings_view(a@)[i as int] != strings_view(path@).subrange(0, d as int)[i as int]);
            }
            return false;
        }
        i = i + 1;
    }
    assert(strings_view(a@) =~= strings_view(path@).subrange(0, d as int));
    true
}

/// Copies the segments of `path` from `from` on.
fn copy_tail(path: &Vec<String>, from: usize) -> (r: Vec<String>)
    requires
        from <= path@.len(),
    ensures
        strings_view(r@) == strings_view(path@).subrange(from as int, path@.len() as int),
{
    let mut r: Vec<String> = Vec::new();
    let mut i: usize = from;
    while i < path.len()
        invariant
            from <= i <= path@.len(),
            strings_view(r@) == strings_view(path@).subrange(from as int, i as int),
        decreases path@.len() - i,
    {
        let ghost before = strings_view(r@);
        let s = path[i].clone();
        r.push(s);
        assert(strings_view(r@) =~= before.push(s@));
        i = i + 1;
        assert(strings_view(r@) =~= strings_view(path@).subrange(from as int, i as int));
    }
    r
}

/// Copies a path.
fn copy_path(path: &Vec<String>) -> (r: Vec<String>)
    ensures
        strings_view(r@) == strings_view(path@),
{
    let r = copy_tail(path, 0);
    assert(strings_view(path@).subrange(0, path@.len() as int) =~= strings_view(path@));
    r
}

/// Which handler a request goes to.
#[derive(Debug, Clone, Copy, PartialEq, Eq, Structural)]
pub enum HandlerTarget {
    /// The registered resource at this index.
    Resource(usize),
    /// The discovery resource.
    Discovery,
}

/// The router: registered resources by full path, optional discovery, and the block-wise
/// transfer state.
pub struct CoapResourceServer<R> {
    block_handler: BlockHandler,
    nodes: Vec<CoapResourceNode<R>>,
    discovery: Option<CoreCoapResource>,
}

impl<R: CoapResource> CoapResourceServer<R> {
    /// The registered full paths, in order.
    pub closed spec fn spec_paths(&self) -> Seq<Seq<Seq<char>>> {
        node_paths(self.nodes@)
    }

    /// The registered resources, in the order of their paths.
    pub closed spec fn spec_resources(&self) -> Seq<R> {
        node_resources(self.nodes@)
    }

    /// The discovery resource's path, where discovery is on.
    pub closed spec fn spec_discovery_path(&self) -> Option<Seq<Seq<char>>> {
        match self.discovery {
            Some(d) => Some(d.spec_full_path()),
            None => None,
        }
    }

    /// The links that discovery lists, where it is on.
    pub closed spec fn spec_discovery_links(&self) -> Option<Seq<(Seq<char>, Seq<(Seq<char>, Seq<char>)>)>> {
        match self.discovery {
            Some(d) => Some(d.spec_links()),
            None => None,
        }
    }

    /// The block handler's states and the discovery links are well formed.
    pub closed spec fn wf(&self) -> bool {
        &&& self.block_handler.wf()
        &&& self.discovery matches Some(d) ==> d.wf()
    }

    /// The largest message the block handler sends whole.
    pub closed spec fn spec_max(&self) -> nat {
        self.block_handler.spec_max_total_message_size()
    }

    /// The Block2 option held for a request key, if any.
    pub closed spec fn spec_held(&self, key: (u8, Seq<Seq<u8>>, Option<Seq<u8>>)) -> Option<BlockValue> {
        held_block2(self.block_handler.entries(), key)
    }

    /// Whether discovery stays silent when it lists nothing.
    pub closed spec fn spec_discovery_suppress(&self) -> bool {
        match self.discovery {
            Some(d) => d.spec_suppress(),
            None => false,
        }
    }

    /// The longest registered prefix of `path` is discovery's path.
    pub open spec fn discovery_matched(&self, path: Seq<Seq<char>>) -> bool {
        exists|d: nat| #[trigger] self.is_longest_match(path, d) && self.spec_discovery_path() == Some(path.subrange(0, d as int))
    }

    /// A handler is registered at exactly path `p`.
    pub open spec fn is_registered(&self, p: Seq<Seq<char>>) -> bool {
        self.spec_discovery_path() == Some(p) || self.spec_paths().contains(p)
    }

    /// `d` is the longest prefix length of `path` at which a handler is registered.
    pub open spec fn is_longest_match(&self, path: Seq<Seq<char>>, d: nat) -> bool {
        &&& d <= path.len()
        &&& self.is_registered(path.subrange(0, d as int))
        &&& forall|e: nat| d < e <= path.len() ==> !#[trigger] self.is_registered(path.subrange(0, e as int))
    }

    /// `t` is the handler registered at `p`, discovery first.
    pub open spec fn is_target_at(&self, t: HandlerTarget, p: Seq<Seq<char>>) -> bool {
        match t {
            HandlerTarget::Discovery => self.spec_discovery_path() == Some(p),
            HandlerTarget::Resource(i) => i < self.spec_paths().len() && self.spec_paths()[i as int] == p
                && self.spec_discovery_path() != Some(p),
        }
    }

    pub fn builder() -> (r: CoapResourceServerBuilder<R>)
        ensures
            r.spec_core_discovery(),
            r.spec_suppress_empty_core_reply(),
            r.spec_paths().len() == 0,
    {
        CoapResourceServerBuilder::new()
    }

    /// The handler for the longest prefix of `path` that has one, with that prefix's length.
    pub fn find_most_specific_handler(&self, path: &Vec<String>) -> (r: Option<(usize, HandlerTarget)>)
        ensures
            match r {
                Some((d, t)) => self.is_longest_match(strings_view(path@), d as nat) && self.is_target_at(
                    t,
                    strings_view(path@).subrange(0, d as int),
                ),
                None => forall|e: nat|
                    e <= path@.len() ==> !#[trigger] self.is_registered(strings_view(path@).subrange(0, e as int)),
            },
    {
        let ghost pv = strings_view(path@);
        let mut d: usize = path.len();
        loop
            invariant
                pv == strings_view(path@),
                d <= path@.len(),
                forall|e: nat| d < e <= path@.len() ==> !#[trigger] self.is_registered(pv.subrange(0, e as int)),
            ensures
                forall|e: nat| e <= path@.len() ==> !#[trigger] self.is_registered(pv.subrange(0, e as int)),
            decreases d,
        {
            let ghost prefix = pv.subrange(0, d as int);
            let on_discovery = match &self.discovery {
                Some(core) => prefix_equals(&core.full_path, path, d),
                None => false,
            };
            if on_discovery {
                return Some((d, HandlerTarget::Discovery));
            }
            let mut i: usize = 0;
            while i < self.nodes.len()
                invariant
                    pv == strings_view(path@),
                    d <= path@.len(),
                    prefix == pv.subrange(0, d as int),
                    self.spec_discovery_path() != Some(prefix),
                    forall|e: nat| d < e <= path@.len() ==> !#[trigger] self.is_registered(pv.subrange(0, e as int)),
                    i <= self.nodes@.len(),
                    forall|k: int| 0 <= k < i ==> self.spec_paths()[k] != prefix,
                decreases self.nodes@.len() - i,
            {
                if prefix_equals(&self.nodes[i].full_path, path, d) {
                    proof {
                        assert(self.spec_paths()[i as int] == prefix);
                        assert(self.spec_paths().contains(prefix));
                    }
                    return Some((d, HandlerTarget::Resource(i)));
                }
                i = i + 1;
            }
            proof {
                assert(!self.spec_paths().contains(prefix));
                assert(!self.is_registered(prefix));
            }
            if d == 0 {
                break;
            }
            d = d - 1;
        }
        None
    }

    /// Turns the response into the error's, where the error has a code: that code, a
    /// text/plain content-format and the message as payload. `false` where no response is sent.
    pub fn apply_response_from_error(request: &mut CoapRequest, error: HandlingError) -> (r: bool)
        requires
            old(request).wf(),
        ensures
            final(request).wf(),
            final(request).message == old(request).message,
            final(request).source == old(request).source,
            r == (error.code is Some && old(request).response is Some),
            !r ==> final(request).response == old(request).response,
            r ==> error_applied(old(request).response, error.code, error.message@, final(request).response),
    {
        let code = match error.code {
            Some(c) => c,
            None => return false,
        };
        let mut reply = match request.response.take() {
            Some(p) => p,
            None => return false,
        };
        let ghost resp0 = reply;
        reply.code = code;
        assert(reply.option_map() =~= resp0.option_map());
        reply.set_content_format(CONTENT_FORMAT_TEXT_PLAIN);
        let text = error.message.as_str();
        reply.payload = text.as_bytes_vec();
        assert(text@ == error.message@);
        assert(reply.payload@ == vstd::utf8::encode_utf8(text@));
        request.response = Some(reply);
        proof {
            assert(error.code == Some(code));
            assert(reply.code == code);
            assert(reply.token == resp0.token);
            assert(reply.option_map() == resp0.option_map().insert(
                OPTION_CONTENT_FORMAT,
                seq![crate::option_value::minimal_be_bytes(CONTENT_FORMAT_TEXT_PLAIN as nat)],
            ));
            assert(is_error_reply(resp0, code, error.message@, reply));
        }
        true
    }
}

/// `after` is `before` carrying an error: code `code`, a text/plain content-format, and
/// `message` as payload.
pub open spec fn is_error_reply(before: Packet, code: u8, message: Seq<char>, after: Packet) -> bool {
    &&& after.wf()
    &&& after.code == code
    &&& after.version == before.version
    &&& after.msg_type == before.msg_type
    &&& after.message_id == before.message_id
    &&& after.token == before.token
    &&& after.option_map() == before.option_map().insert(
        OPTION_CONTENT_FORMAT,
        seq![crate::option_value::minimal_be_bytes(CONTENT_FORMAT_TEXT_PLAIN as nat)],
    )
    &&& after.payload@ == vstd::utf8::encode_utf8(message)
}

/// Both responses are there, and `after` is `before` carrying the error `code`, `message`.
pub open spec fn error_applied(
    before: Option<Packet>,
    code: Option<u8>,
    message: Seq<char>,
    after: Option<Packet>,
) -> bool {
    match (before, code, after) {
        (Some(b), Some(c), Some(a)) => is_error_reply(b, c, message, a),
        _ => false,
    }
}

/// `after` is what goes out for `resp0` after interception.
pub open spec fn sent_opt(resp0: Packet, max: nat, after: Option<Packet>) -> bool {
    match after {
        Some(p) => sent_after_interception(resp0, max, p),
        None => false,
    }
}

/// `r` is an error with code `code`.
pub open spec fn err_with_code(r: Result<(), HandlingError>, code: Option<u8>) -> bool {
    match r {
        Err(e) => e.code == code,
        Ok(_) => false,
    }
}

/// The reply for an error with code `code` and `message` on response `resp0`: the error reply,
/// as interception sends it.
pub open spec fn error_sent(
    resp0: Packet,
    code: u8,
    message: Seq<char>,
    max: nat,
    recorded: Option<BlockValue>,
    r: Option<Packet>,
) -> bool {
    exists|er: Packet| #[trigger] is_error_reply(resp0, code, message, er) && intercepted_from(er, max, recorded, r)
}

/// `r` is what intercepting the response `resp0` sends, with the Block2 option held for the
/// request being `recorded`, or none where it expired meanwhile.
pub open spec fn intercepted_from(resp0: Packet, max: nat, recorded: Option<BlockValue>, r: Option<Packet>) -> bool {
    exists|last: Option<BlockValue>, ri: Result<bool, HandlingError>, cached: Option<Packet>|
        (last is None || last == recorded) && #[trigger] response_interception(
            last,
            Some(resp0),
            max,
            ri,
            r,
            cached,
        )
}

/// The reply `r` for `request` after dispatch gave `outcome`: the response as it stands on
/// success; the error reply (as interception sends it, with `held` the Block2 held for the
/// request) for an error with a code on a well-formed request with a response slot; none
/// otherwise.
pub open spec fn finished(
    request: CoapRequest,
    outcome: Result<(), HandlingError>,
    max: nat,
    held: Option<BlockValue>,
    r: Option<Packet>,
) -> bool {
    &&& outcome is Ok ==> r == request.response
    &&& (outcome is Err && (outcome->Err_0.code is None || request.response is None || !request.wf()))
        ==> r is None
    &&& (outcome is Err && outcome->Err_0.code is Some && request.response is Some && request.wf())
        ==> error_sent(
        request.response->Some_0,
        outcome->Err_0.code->Some_0,
        outcome->Err_0.message@,
        max,
        held,
        r,
    )
}

/// What goes out with a held Block2 that is `held`, itself none or `recorded`, also goes out
/// with `recorded`.
pub proof fn lemma_error_sent_widen(
    resp0: Packet,
    code: u8,
    message: Seq<char>,
    max: nat,
    held: Option<BlockValue>,
    recorded: Option<BlockValue>,
    r: Option<Packet>,
)
    requires
        error_sent(resp0, code, message, max, held, r),
        held is None || held == recorded,
    ensures
        error_sent(resp0, code, message, max, recorded, r),
{
    let er = choose|er: Packet| #[trigger] is_error_reply(resp0, code, message, er) && intercepted_from(er, max, held, r);
    let (last, ri, cached) = choose|last: Option<BlockValue>, ri: Result<bool, HandlingError>, cached: Option<Packet>|
        (last is None || last == held) && #[trigger] response_interception(last, Some(er), max, ri, r, cached);
    assert(response_interception(last, Some(er), max, ri, r, cached));
    assert(intercepted_from(er, max, recorded, r));
}

/// The Block2 option held for `key`, if any.
pub open spec fn held_block2(
    entries: Map<(u8, Seq<Seq<u8>>, Option<Seq<u8>>), crate::block_handler::BlockState>,
    key: (u8, Seq<Seq<u8>>, Option<Seq<u8>>),
) -> Option<BlockValue> {
    if entries.contains_key(key) {
        entries[key].last_request_block2
    } else {
        None
    }
}

/// Discovery's reply on `resp0`: none where nothing is listed and suppression is on; otherwise the
/// listing as interception sends it, or a 4.00 error reply on it.
pub open spec fn discovery_reply(
    resp0: Packet,
    listed: Seq<(Seq<char>, Seq<(Seq<char>, Seq<char>)>)>,
    suppress: bool,
    max: nat,
    recorded: Option<BlockValue>,
    r: Option<Packet>,
) -> bool {
    if listed.len() == 0 && suppress {
        r is None
    } else {
        exists|l: Packet|
            #[trigger] is_listing(resp0, Some(l), links_text(listed)) && (sent_opt(l, max, r) || exists|m: Seq<char>|
                #[trigger] error_sent(l, CODE_BAD_REQUEST, m, max, recorded, r))
    }
}

/// Dispatching to discovery, before the reply is made.
pub open spec fn discovery_dispatched(
    resp0: Packet,
    listed: Seq<(Seq<char>, Seq<(Seq<char>, Seq<char>)>)>,
    suppress: bool,
    max: nat,
    r: Result<(), HandlingError>,
    after: Option<Packet>,
) -> bool {
    if listed.len() == 0 && suppress {
        err_with_code(r, None)
    } else {
        exists|l: Packet|
            #[trigger] is_listing(resp0, Some(l), links_text(listed)) && ((r is Ok && sent_opt(l, max, after)) || (
            err_with_code(r, Some(CODE_BAD_REQUEST)) && after == Some(l)))
    }
}

/// The links discovery lists for a request's queries.
pub open spec fn listed_for(links: Seq<(Seq<char>, Seq<(Seq<char>, Seq<char>)>)>, message: Packet) -> Seq<
    (Seq<char>, Seq<(Seq<char>, Seq<char>)>),
> {
    selected_links(
        links,
        crate::coap_utils::parsed_queries(
            crate::coap_utils::option_values(message, crate::message::OPTION_URI_QUERY),
        ),
    )
}

} // verus!

verus! {

impl<R: CoapResource> CoapResourceServerBuilder<R> {
    /// The server: an error where two resources share a full path; otherwise every resource
    /// at its path, and discovery (if on) over the resources' discoverability and attributes.
    pub fn build(self) -> (r: Result<CoapResourceServer<R>, DuplicateResourcePath>)
        ensures
            r is Err <==> exists|i: int, j: int|
                0 <= i < j < self.spec_paths().len() && self.spec_paths()[i] == self.spec_paths()[j],
            r matches Err(e) ==> exists|i: int| 0 <= i < self.spec_paths().len() && strings_view(e.path@)
                == #[trigger] self.spec_paths()[i],
            r matches Ok(s) ==> s.spec_resources() == self.spec_resources(),
            r matches Ok(s) ==> s.wf() && s.spec_paths() == self.spec_paths() && (s.spec_discovery_path()
                is Some <==> self.spec_core_discovery()),
            r matches Ok(s) ==> (s.spec_discovery_path() matches Some(p) ==> p == split_on(
                ".well-known/core"@,
                '/',
            )),
            r matches Ok(s) ==> (s.spec_discovery_links() matches Some(links) ==> exists|
                c: Seq<(Seq<Seq<char>>, bool, Seq<(Seq<char>, Seq<char>)>)>,
            | c.map_values(|e: (Seq<Seq<char>>, bool, Seq<(Seq<char>, Seq<char>)>)| e.0) == self.spec_paths()
                && links == discoverable_links(c)),
    {
        let n = self.resources.len();
        let mut i: usize = 0;
        while i < n
            invariant
                n == self.resources@.len(),
                i <= n,
                forall|a: int, b: int|
                    0 <= a < b < n && a < i ==> self.spec_paths()[a] != self.spec_paths()[b],
            decreases n - i,
        {
            let mut j: usize = i + 1;
            while j < n
                invariant
                    n == self.resources@.len(),
                    i < n,
                    i + 1 <= j <= n,
                    forall|a: int, b: int|
                        0 <= a < b < n && a < i ==> self.spec_paths()[a] != self.spec_paths()[b],
                    forall|b: int| i < b < j ==> self.spec_paths()[i as int] != self.spec_paths()[b],
                decreases n - j,
            {
                if paths_equal(&self.resources[i].full_path, &self.resources[j].full_path) {
                    let path = copy_path(&self.resources[i].full_path);
                    proof {
                        assert(self.spec_paths()[i as int] == strings_view(self.resources@[i as int].full_path@));
                        assert(self.spec_paths()[j as int] == strings_view(self.resources@[j as int].full_path@));
                        assert(0 <= i < j < self.spec_paths().len() && self.spec_paths()[i as int]
                            == self.spec_paths()[j as int]);
                        assert(strings_view(path@) == self.spec_paths()[i as int]);
                    }
                    return Err(DuplicateResourcePath { path });
                }
                j = j + 1;
            }
            i = i + 1;
        }
        let discovery = if self.core_discovery {
            let mut catalog: Vec<(Vec<String>, bool, Vec<(String, String)>)> = Vec::new();
            let mut k: usize = 0;
            while k < n
                invariant
                    n == self.resources@.len(),
                    k <= n,
                    catalog@.len() == k,
                    forall|m: int| 0 <= m < k ==> strings_view(#[trigger] catalog@[m].0@) == self.spec_paths()[m],
                decreases n - k,
            {
                let node = &self.resources[k];
                let entry = (copy_path(&node.full_path), node.resource.is_discoverable(), node.resource.link_attributes());
                catalog.push(entry);
                k = k + 1;
            }
            let ghost cv = catalog_view(catalog@);
            assert(cv.map_values(|e: (Seq<Seq<char>>, bool, Seq<(Seq<char>, Seq<char>)>)| e.0) =~= self.spec_paths());
            Some(CoreCoapResource::from_catalog(catalog, self.suppress_empty_core_reply))
        } else {
            None
        };
        let block_handler = BlockHandler::new(BlockHandlerConfig::default());
        Ok(CoapResourceServer { block_handler, nodes: self.resources, discovery })
    }
}

impl<R: CoapResource> CoapResourceServer<R> {
    /// Runs the block handler around the target handler: a continuation served from the cache
    /// skips the handler; otherwise the handler runs on the unmatched rest of the path and an
    /// oversized response is fragmented.
    fn maybe_dispatch_to_handler(
        &mut self,
        target: HandlerTarget,
        request: &mut CoapRequest,
        remaining_path: &Vec<String>,
        depth: Ghost<nat>,
    ) -> (r: Result<(), HandlingError>)
        requires
            old(self).wf(),
            old(request).wf(),
            old(self).is_longest_match(request_path(*old(request)), depth@),
            old(self).is_target_at(target, request_path(*old(request)).subrange(0, depth@ as int)),
            strings_view(remaining_path@) == request_path(*old(request)).subrange(
                depth@ as int,
                request_path(*old(request)).len() as int,
            ),
        ensures
            final(self).wf(),
            final(self).spec_paths() == old(self).spec_paths(),
            final(self).spec_discovery_path() == old(self).spec_discovery_path(),
            final(self).spec_discovery_links() == old(self).spec_discovery_links(),
            final(self).spec_discovery_suppress() == old(self).spec_discovery_suppress(),
            final(self).spec_max() == old(self).spec_max(),
            r is Ok ==> final(request).wf(),
            (target == HandlerTarget::Discovery && no_continuation(old(request).message) && old(
                request,
            ).response is Some) ==> discovery_dispatched(
                old(request).response->Some_0,
                listed_for(old(self).spec_discovery_links()->Some_0, old(request).message),
                old(self).spec_discovery_suppress(),
                old(self).spec_max(),
                r,
                final(request).response,
            ),
            (target == HandlerTarget::Discovery && no_continuation(old(request).message) && old(
                request,
            ).response is Some) ==> final(request).wf(),
            (target == HandlerTarget::Discovery && no_continuation(old(request).message) && old(
                request,
            ).response is Some) ==> (final(request).message == old(request).message && final(request).source
                == old(request).source && (final(self).spec_held(
                crate::block_handler::spec_cache_key(old(request)),
            ) is None || final(self).spec_held(crate::block_handler::spec_cache_key(old(request)))
                == spec_request_block2(old(request).message))),
            block2_malformed(old(request).message) ==> (err_with_code(r, Some(CODE_BAD_REQUEST))
                && *final(request) == *old(request) && final(self).spec_held(
                crate::block_handler::spec_cache_key(old(request)),
            ) is None),
    {
        let ghost before = *request;
        match self.block_handler.intercept_request(request) {
            Err(e) => return Err(e),
            Ok(true) => return Ok(()),
            Ok(false) => {},
        }
        let handled = match target {
            HandlerTarget::Resource(i) => self.nodes[i].resource.handle(request, remaining_path.as_slice()),
            HandlerTarget::Discovery => match &self.discovery {
                Some(core) => core.handle(request),
                None => Err(HandlingError::not_found()),
            },
        };
        if let Err(e) = handled {
            return Err(e);
        }
        if !request.check_wf() {
            return Err(HandlingError::not_handled());
        }
        let ghost listing = request.response;
        let ghost max = self.block_handler.spec_max_total_message_size();
        let ghost pre = *request;
        let result = self.block_handler.intercept_response(request);
        proof {
            if target == HandlerTarget::Discovery && no_continuation(before.message) && before.response is Some {
                let l = listing->Some_0;
                lemma_interception_sends(
                    self.block_handler.entries()[crate::block_handler::spec_cache_key(&pre)].last_request_block2,
                    l,
                    max,
                    result,
                    request.response,
                    self.block_handler.entries()[crate::block_handler::spec_cache_key(&pre)].cached_response,
                );
                let listed = listed_for(old(self).spec_discovery_links()->Some_0, before.message);
                let converted: Result<(), HandlingError> = if result is Ok {
                    Ok(())
                } else {
                    Err(result->Err_0)
                };
                assert(is_listing(before.response->Some_0, Some(l), links_text(listed)));
                assert(!(listed.len() == 0 && old(self).spec_discovery_suppress()));
                assert(max == old(self).spec_max());
                if result is Ok {
                    assert(sent_opt(l, max, request.response));
                    assert(converted is Ok);
                } else {
                    assert(err_with_code(converted, Some(CODE_BAD_REQUEST)));
                    assert(request.response == Some(l));
                }
                assert(is_listing(before.response->Some_0, Some(l), links_text(listed)) && ((converted is Ok
                    && sent_opt(l, old(self).spec_max(), request.response)) || (err_with_code(
                    converted,
                    Some(CODE_BAD_REQUEST),
                ) && request.response == Some(l))));
                assert(discovery_dispatched(
                    before.response->Some_0,
                    listed,
                    old(self).spec_discovery_suppress(),
                    old(self).spec_max(),
                    converted,
                    request.response,
                ));
            }
        }
        match result {
            Err(e) => Err(e),
            Ok(_) => Ok(()),
        }
    }

    /// The reply for a request after dispatch, with `result` what dispatch gave: the response
    /// as it stands for success; for an error with a code and a response slot, the error reply
    /// (as interception sends it); for an error without a code, none.
    pub fn finish_request(&mut self, request: CoapRequest, outcome: Result<(), HandlingError>) -> (r: Option<Packet>)
        requires
            old(self).wf(),
        ensures
            final(self).wf(),
            final(self).spec_paths() == old(self).spec_paths(),
            final(self).spec_discovery_path() == old(self).spec_discovery_path(),
            final(self).spec_discovery_links() == old(self).spec_discovery_links(),
            final(self).spec_discovery_suppress() == old(self).spec_discovery_suppress(),
            final(self).spec_max() == old(self).spec_max(),
            finished(
                request,
                outcome,
                old(self).spec_max(),
                old(self).spec_held(crate::block_handler::spec_cache_key(&request)),
                r,
            ),
    {
        let mut req = request;
        match outcome {
            Ok(()) => req.response,
            Err(err) => {
                if !req.check_wf() {
                    return None;
                }
                let ghost before = req.response;
                let ghost code = err.code;
                let ghost message = err.message@;
                let response_issued = Self::apply_response_from_error(&mut req, err);
                if response_issued {
                    let ghost er = req.response->Some_0;
                    let ghost max = self.block_handler.spec_max_total_message_size();
                    let ghost pre = req;
                    let ghost key = crate::block_handler::spec_cache_key(&pre);
                    let ghost held0 = held_block2(self.block_handler.entries(), key);
                    let intercepted = self.block_handler.intercept_response(&mut req);
                    proof {
                        let last = self.block_handler.entries()[key].last_request_block2;
                        let cached = self.block_handler.entries()[key].cached_response;
                        assert(last is None || last == held0);
                        assert(response_interception(last, Some(er), max, intercepted, req.response, cached));
                        assert(intercepted_from(er, max, held0, req.response));
                        assert(is_error_reply(before->Some_0, code->Some_0, message, er));
                        assert(error_sent(before->Some_0, code->Some_0, message, max, held0, req.response));
                    }
                    req.response
                } else {
                    None
                }
            },
        }
    }

    /// Handles a request: dispatches it to the handler of the longest registered prefix of its
    /// path, with the unmatched rest of the path, and returns the reply to send, if any. A path
    /// that is not UTF-8 or a Block2 option that is not a block value gets 4.00; a path with no
    /// registered prefix gets 4.04.
    pub fn handle(&mut self, request: CoapRequest) -> (r: Option<Packet>)
        requires
            old(self).wf(),
            request.wf(),
        ensures
            final(self).wf(),
            final(self).spec_paths() == old(self).spec_paths(),
            final(self).spec_discovery_path() == old(self).spec_discovery_path(),
            final(self).spec_discovery_links() == old(self).spec_discovery_links(),
            final(self).spec_discovery_suppress() == old(self).spec_discovery_suppress(),
            final(self).spec_max() == old(self).spec_max(),
            request.response is None ==> r is None,
            (request.response is Some && path_malformed(request)) ==> error_sent(
                request.response->Some_0,
                CODE_BAD_REQUEST,
                "Uri-Path is not UTF-8"@,
                old(self).spec_max(),
                old(self).spec_held(crate::block_handler::spec_cache_key(&request)),
                r,
            ),
            (request.response is Some && !path_malformed(request) && forall|e: nat|
                e <= request_path(request).len() ==> !#[trigger] old(self).is_registered(
                    request_path(request).subrange(0, e as int),
                )) ==> error_sent(
                request.response->Some_0,
                crate::message::CODE_NOT_FOUND,
                "Not found"@,
                old(self).spec_max(),
                old(self).spec_held(crate::block_handler::spec_cache_key(&request)),
                r,
            ),
            (request.response is Some && !path_malformed(request) && block2_malformed(request.message)
                && exists|e: nat|
                e <= request_path(request).len() && #[trigger] old(self).is_registered(
                    request_path(request).subrange(0, e as int),
                )) ==> exists|m: Seq<char>|
                #[trigger] error_sent(request.response->Some_0, CODE_BAD_REQUEST, m, old(self).spec_max(), None, r),
            (request.response is Some && !path_malformed(request)) ==> exists|
                after: CoapRequest,
                outcome: Result<(), HandlingError>,
                held: Option<BlockValue>,
            | #[trigger] finished(after, outcome, old(self).spec_max(), held, r),
            (request.response is Some && !path_malformed(request) && no_continuation(request.message) && old(
                self,
            ).discovery_matched(request_path(request))) ==> discovery_reply(
                request.response->Some_0,
                listed_for(old(self).spec_discovery_links()->Some_0, request.message),
                old(self).spec_discovery_suppress(),
                old(self).spec_max(),
                spec_request_block2(request.message),
                r,
            ),
    {
        if request.response.is_none() {
            return None;
        }
        let mut request = request;
        let path = match request_get_path_as_vec(&request) {
            Ok(p) => p,
            Err(_) => {
                return self.finish_request(request, Err(HandlingError::bad_request("Uri-Path is not UTF-8")));
            },
        };
        proof {
            assert(strings_view(path@) == request_path(request));
        }
        let ghost before = request;
        let matched = self.find_most_specific_handler(&path);
        let final_result = match matched {
            Some((depth, target)) => {
                let remaining = copy_tail(&path, depth);
                proof {
                    if old(self).discovery_matched(request_path(before)) {
                        let d0 = choose|d: nat| #[trigger] old(self).is_longest_match(request_path(before), d)
                            && old(self).spec_discovery_path() == Some(request_path(before).subrange(0, d as int));
                        if d0 < depth as nat {
                            assert(!old(self).is_registered(request_path(before).subrange(0, depth as int)));
                        } else if d0 > depth as nat {
                            assert(!old(self).is_registered(request_path(before).subrange(0, d0 as int)));
                        }
                        assert(d0 == depth as nat);
                        assert(target == HandlerTarget::Discovery);
                    }
                }
                self.maybe_dispatch_to_handler(target, &mut request, &remaining, Ghost(depth as nat))
            },
            None => {
                proof {
                    if old(self).discovery_matched(request_path(before)) {
                        let d0 = choose|d: nat| #[trigger] old(self).is_longest_match(request_path(before), d)
                            && old(self).spec_discovery_path() == Some(request_path(before).subrange(0, d as int));
                        assert(old(self).is_registered(request_path(before).subrange(0, d0 as int)));
                    }
                    if exists|e: nat|
                        e <= request_path(before).len() && #[trigger] old(self).is_registered(
                            request_path(before).subrange(0, e as int),
                        ) {
                        let e0 = choose|e: nat|
                            e <= request_path(before).len() && #[trigger] old(self).is_registered(
                                request_path(before).subrange(0, e as int),
                            );
                        assert(!old(self).is_registered(request_path(before).subrange(0, e0 as int)));
                    }
                }
                Err(HandlingError::not_found())
            },
        };
        let ghost dispatched = request.response;
        let ghost after_dispatch = request;
        let ghost max_before = self.spec_max();
        let ghost held_before = self.spec_held(crate::block_handler::spec_cache_key(&request));
        let r = self.finish_request(request, final_result);
        proof {
            let resp0 = before.response->Some_0;
            assert(finished(after_dispatch, final_result, old(self).spec_max(), held_before, r));
            if block2_malformed(before.message) && matched is Some {
                assert(error_sent(resp0, CODE_BAD_REQUEST, final_result->Err_0.message@, old(self).spec_max(), None, r));
            }
            if no_continuation(before.message) && old(self).discovery_matched(request_path(before)) {
                let listed = listed_for(old(self).spec_discovery_links()->Some_0, before.message);
                let rec = spec_request_block2(before.message);
                assert(discovery_dispatched(
                    resp0,
                    listed,
                    old(self).spec_discovery_suppress(),
                    old(self).spec_max(),
                    final_result,
                    dispatched,
                ));
                if !(listed.len() == 0 && old(self).spec_discovery_suppress()) {
                    if final_result is Err {
                        let l = dispatched->Some_0;
                        assert(is_listing(resp0, Some(l), links_text(listed)));
                        assert(after_dispatch.wf());
                        assert(max_before == old(self).spec_max());
                        assert(final_result->Err_0.code == Some(CODE_BAD_REQUEST));
                        assert(error_sent(l, CODE_BAD_REQUEST, final_result->Err_0.message@, old(self).spec_max(), held_before, r));
                        lemma_error_sent_widen(l, CODE_BAD_REQUEST, final_result->Err_0.message@, old(self).spec_max(), held_before, rec, r);
                    }
                }
            }
        }
        r
    }
}

/// The request's Uri-Path has a segment that is not UTF-8.
pub open spec fn path_malformed(request: CoapRequest) -> bool {
    crate::coap_utils::decoded_segments(
        crate::coap_utils::option_values(request.message, crate::message::OPTION_URI_PATH),
    ) is None
}

/// The request's path as the router reads it: its Uri-Path segments, or none where one is
/// not UTF-8.
pub open spec fn request_path(request: CoapRequest) -> Seq<Seq<char>> {
    match crate::coap_utils::decoded_segments(
        crate::coap_utils::option_values(request.message, crate::message::OPTION_URI_PATH),
    ) {
        Some(s) => s,
        None => Seq::empty(),
    }
}

/// Any strict extension of a registered path, with no registered path in between, goes to the
/// handler of that path, the extension being the remaining path.
pub proof fn lemma_extension_matches_registered_prefix<R: CoapResource>(
    server: CoapResourceServer<R>,
    p: Seq<Seq<char>>,
    extension: Seq<Seq<char>>,
    d: nat,
)
    requires
        server.is_registered(p),
        extension.len() > 0,
        forall|e: nat|
            p.len() < e <= p.len() + extension.len() ==> !#[trigger] server.is_registered(
                (p + extension).subrange(0, e as int),
            ),
        server.is_longest_match(p + extension, d),
    ensures
        d == p.len(),
        (p + extension).subrange(0, d as int) == p,
        (p + extension).subrange(d as int, (p + extension).len() as int) == extension,
{
    let full = p + extension;
    assert(full.subrange(0, p.len() as int) =~= p);
    if d < p.len() {
        assert(server.is_registered(full.subrange(0, p.len() as int)));
        assert(!server.is_registered(full.subrange(0, p.len() as int)));
    }
    assert(full.subrange(p.len() as int, full.len() as int) =~= extension);
}

} // verus!
