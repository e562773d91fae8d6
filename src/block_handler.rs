//! Block-wise transfer of large responses (RFC 7959 Block2): fragments responses that do not
//! fit in one message, caches them per request key, and serves later blocks from the cache.
use std::time::Duration;

use lru_time_cache::LruCache;

use crate::block_value::{block_size_of, BlockValue};
use crate::handling_error::HandlingError;
use crate::message::{
    copy_bytes, copy_range, copy_values, encoded_length, wire_length, Packet, CODE_BAD_REQUEST,
    MAX_TOKEN_LENGTH, OPTION_BLOCK2, OPTION_URI_PATH,
};
use crate::request::CoapRequest;
use crate::text::decimal;
use vstd::prelude::*;
use vstd::string::StringExecFns;

verus! {

/// The most that adding a Block2 option can add to a message.
pub const BLOCK2_OPTION_MAX_LENGTH: usize = 8;

/// Total message size to offer a peer by default (RFC 7252 section 4.6).
pub const DEFAULT_MAX_TOTAL_MESSAGE_SIZE: usize = 1152;

/// How long a cached response lives without being asked for, by default.
pub const DEFAULT_CACHE_EXPIRY_MILLIS: u64 = 120_000;

pub struct BlockHandlerConfig {
    /// Largest framed message to send, options and payload included.
    pub max_total_message_size: usize,
    /// Milliseconds without interaction after which a cached response is dropped.
    pub cache_expiry_millis: u64,
}

impl Default for BlockHandlerConfig {
    fn default() -> (r: BlockHandlerConfig)
        ensures
            r.max_total_message_size == DEFAULT_MAX_TOTAL_MESSAGE_SIZE,
            r.cache_expiry_millis == DEFAULT_CACHE_EXPIRY_MILLIS,
    {
        BlockHandlerConfig {
            max_total_message_size: DEFAULT_MAX_TOTAL_MESSAGE_SIZE,
            cache_expiry_millis: DEFAULT_CACHE_EXPIRY_MILLIS,
        }
    }
}

/// What is remembered of one transfer.
#[derive(Debug)]
pub struct BlockState {
    /// The Block2 option of the latest request, if it had a valid one.
    pub last_request_block2: Option<BlockValue>,
    /// The full response that is being served block by block.
    pub cached_response: Option<Packet>,
}

impl BlockState {
    /// The remembered Block2 option and response are well formed.
    pub open spec fn wf(&self) -> bool {
        &&& self.last_request_block2 matches Some(b) ==> b.wf()
        &&& self.cached_response matches Some(c) ==> c.wf()
    }

    /// A state with nothing remembered.
    pub fn new() -> (r: BlockState)
        ensures
            r.last_request_block2 is None,
            r.cached_response is None,
    {
        BlockState { last_request_block2: None, cached_response: None }
    }
}

/// (method code, raw path segments, requester).
pub type RequestCacheKey = (u8, Vec<Vec<u8>>, Option<Vec<u8>>);

/// The key of a request: its method, its Uri-Path segments and its source.
pub open spec fn spec_cache_key(request: &CoapRequest) -> (u8, Seq<Seq<u8>>, Option<Seq<u8>>) {
    (
        request.message.code,
        request.spec_path_bytes(),
        match request.source {
            Some(s) => Some(s@),
            None => None,
        },
    )
}

/// Block states by request key, with expiry.
pub type StateCache = LruCache<RequestCacheKey, BlockState>;

#[verifier::external_type_specification]
#[verifier::external_body]
#[verifier::reject_recursive_types(Key)]
#[verifier::reject_recursive_types(Value)]
pub struct ExLruCache<Key, Value>(LruCache<Key, Value>);

/// What the cache holds, expired entries not yet purged included, by key.
pub uninterp spec fn cache_entries(cache: StateCache) -> Map<
    (u8, Seq<Seq<u8>>, Option<Seq<u8>>),
    BlockState,
>;

/// Relies on `LruCache::with_expiry_duration`: an empty cache.
#[verifier::external_body]
fn cache_with_expiry(millis: u64) -> (r: StateCache)
    ensures
        forall|k| !#[trigger] cache_entries(r).contains_key(k),
{
    LruCache::with_expiry_duration(Duration::from_millis(millis))
}

/// Relies on `LruCache::get`: it drops expired entries, then tells whether `key` is held
/// (and refreshes it).
#[verifier::external_body]
fn cache_refresh(cache: &mut StateCache, key: &RequestCacheKey) -> (r: bool)
    ensures
        cache_entries(*final(cache)).submap_of(cache_entries(*old(cache))),
        r == cache_entries(*final(cache)).contains_key(key.deep_view()),
{
    cache.get(key).is_some()
}

/// Relies on `LruCache::remove`: takes the entry for `key` out, expired or not.
#[verifier::external_body]
fn cache_remove(cache: &mut StateCache, key: &RequestCacheKey) -> (r: Option<BlockState>)
    ensures
        cache_entries(*final(cache)) == cache_entries(*old(cache)).remove(key.deep_view()),
        r == (if cache_entries(*old(cache)).contains_key(key.deep_view()) {
            Some(cache_entries(*old(cache))[key.deep_view()])
        } else {
            None
        }),
{
    cache.remove(key)
}

/// Relies on `LruCache::insert`: it drops expired entries, then holds `value` under `key`.
#[verifier::external_body]
fn cache_insert(
    cache: &mut StateCache,
    key: RequestCacheKey,
    value: BlockState,
)
    ensures
        cache_entries(*final(cache)).contains_key(key.deep_view()),
        cache_entries(*final(cache))[key.deep_view()] == value,
        cache_entries(*final(cache)).remove(key.deep_view()).submap_of(cache_entries(*old(cache))),
{
    let _ = cache.insert(key, value);
}

/// The bytes of block `num` of `size` bytes of `p` (the last block may be shorter).
pub open spec fn block_chunk(p: Seq<u8>, num: nat, size: nat) -> Seq<u8> {
    let start = num * size;
    let end = if start + size < p.len() { start + size } else { p.len() as nat };
    p.subrange(start as int, end as int)
}

/// Whether block `num` of `size` bytes of `p` exists.
pub open spec fn block_exists(p: Seq<u8>, num: nat, size: nat) -> bool {
    num * size < p.len()
}

/// Whether more blocks follow block `num`.
pub open spec fn block_has_more(p: Seq<u8>, num: nat, size: nat) -> bool {
    num * size + size < p.len()
}

/// The Block2 option that serving block `b` of payload `p` puts on the response.
pub open spec fn served_block2(p: Seq<u8>, b: BlockValue) -> BlockValue {
    BlockValue {
        num: b.num,
        more: block_has_more(p, b.num as nat, b.spec_size()),
        size_exponent: b.size_exponent,
    }
}

/// `resp` is `resp0` turned into block `b` of `cached`: header and options of `cached` (with
/// the Block2 option of the block), the message id of `resp0`, and the block as payload.
pub open spec fn is_served_block(resp0: Packet, cached: Packet, b: BlockValue, resp: Packet) -> bool {
    &&& resp.wf()
    &&& resp.version == cached.version
    &&& resp.msg_type == cached.msg_type
    &&& resp.code == cached.code
    &&& resp.message_id == resp0.message_id
    &&& resp.token@ == resp0.token@
    &&& resp.option_map() == resp0.option_map().union_prefer_right(cached.option_map()).insert(
        OPTION_BLOCK2,
        seq![served_block2(cached.payload@, b).spec_encode()],
    )
    &&& resp.payload@ == block_chunk(cached.payload@, b.num as nat, b.spec_size())
}

/// Both responses are there, and the second is the first turned into block `b` of `cached`.
pub open spec fn served_response(
    before: Option<Packet>,
    cached: Packet,
    b: BlockValue,
    after: Option<Packet>,
) -> bool {
    match (before, after) {
        (Some(resp0), Some(resp)) => is_served_block(resp0, cached, b, resp),
        _ => false,
    }
}

/// `after` is block `block2` of the response cached under `key` in `held`, served in `before`.
pub open spec fn continued_from_cache(
    held: Map<(u8, Seq<Seq<u8>>, Option<Seq<u8>>), BlockState>,
    key: (u8, Seq<Seq<u8>>, Option<Seq<u8>>),
    block2: Option<BlockValue>,
    before: Option<Packet>,
    after: Option<Packet>,
) -> bool {
    match block2 {
        Some(b) => held.contains_key(key) && match held[key].cached_response {
            Some(c) => served_response(before, c, b, after),
            None => false,
        },
        None => false,
    }
}

/// `cached` holds a copy of `resp0`.
pub open spec fn holds(cached: Option<Packet>, resp0: Packet) -> bool {
    match cached {
        Some(c) => c.same_as(&resp0),
        None => false,
    }
}

/// `b` is the block that fragmenting starts from: the client's last requested block number (0
/// without one), not marked as followed, with the largest block size not above `s`.
pub open spec fn is_first_served_block(b: BlockValue, last: Option<BlockValue>, s: nat) -> bool {
    &&& b.wf()
    &&& !b.more
    &&& b.num as nat == match last {
        Some(l) => l.num as nat,
        None => 0,
    }
    &&& b.spec_size() <= s < 2 * b.spec_size()
}

/// Intercepting the response `before`, with `last` the client's last Block2 option held for the
/// request and `max` the size limit, gives `r`, the response `after`, and `cached`, the response
/// held afterwards. A response with a Block2 option of its own, or whose wire length leaves no
/// representable block size, goes out unchanged; otherwise it is cached and its first block
/// served, or a 4.00 error comes where that block does not exist.
pub open spec fn response_interception(
    last: Option<BlockValue>,
    before: Option<Packet>,
    max: nat,
    r: Result<bool, HandlingError>,
    after: Option<Packet>,
    cached: Option<Packet>,
) -> bool {
    match before {
        None => r matches Ok(false) && after == before,
        Some(resp0) => if resp0.option_map().contains_key(OPTION_BLOCK2) || resp0.token@.len()
            > MAX_TOKEN_LENGTH {
            r matches Ok(false) && after == before && cached is None
        } else {
            match negotiated_block_size(
                last,
                wire_length(resp0.code, resp0.token@, resp0.option_map(), resp0.payload@),
                resp0.payload@.len(),
                max,
            ) {
                Some(s) => if 16 <= s < 4096 {
                    exists|b: BlockValue|
                        is_first_served_block(b, last, s) && if block_exists(
                            resp0.payload@,
                            b.num as nat,
                            b.spec_size(),
                        ) {
                            r matches Ok(true) && served_response(before, resp0, b, after) && holds(
                                cached,
                                resp0,
                            )
                        } else {
                            r matches Err(e) && e.code == Some(CODE_BAD_REQUEST) && after == before
                                && cached is None
                        }
                } else {
                    r matches Ok(false) && after == before && cached is None
                },
                None => r matches Ok(false) && after == before && cached is None,
            }
        },
    }
}

/// `p` is what goes out for `resp0` after interception: `resp0` itself, or a block of it; and
/// `resp0` itself where its wire length is within `max`.
pub open spec fn sent_after_interception(resp0: Packet, max: nat, p: Packet) -> bool {
    &&& (p == resp0 || exists|b: BlockValue| b.wf() && #[trigger] is_served_block(resp0, resp0, b, p))
    &&& wire_length(resp0.code, resp0.token@, resp0.option_map(), resp0.payload@) <= max ==> p == resp0
}

/// Where interception succeeds, what goes out is `resp0` or a block of it, keeping its code.
pub proof fn lemma_interception_sends(
    last: Option<BlockValue>,
    resp0: Packet,
    max: nat,
    r: Result<bool, HandlingError>,
    after: Option<Packet>,
    cached: Option<Packet>,
)
    requires
        response_interception(last, Some(resp0), max, r, after, cached),
    ensures
        after matches Some(p) && (r is Ok ==> sent_after_interception(resp0, max, p)) && p.code == resp0.code,
        r is Err ==> after == Some(resp0),
        r matches Err(e) ==> e.code == Some(CODE_BAD_REQUEST),
{
    let w = wire_length(resp0.code, resp0.token@, resp0.option_map(), resp0.payload@);
    if !(resp0.option_map().contains_key(OPTION_BLOCK2) || resp0.token@.len() > MAX_TOKEN_LENGTH) {
        match negotiated_block_size(last, w, resp0.payload@.len(), max) {
            Some(s) => if 16 <= s < 4096 {
                let b = choose|b: BlockValue|
                    is_first_served_block(b, last, s) && if block_exists(
                        resp0.payload@,
                        b.num as nat,
                        b.spec_size(),
                    ) {
                        r matches Ok(true) && served_response(Some(resp0), resp0, b, after) && holds(cached, resp0)
                    } else {
                        r matches Err(e) && e.code == Some(CODE_BAD_REQUEST) && after == Some(resp0) && cached is None
                    };
                if block_exists(resp0.payload@, b.num as nat, b.spec_size()) {
                    let p = after->Some_0;
                    assert(is_served_block(resp0, resp0, b, p));
                }
            },
            None => {},
        }
    }
}

/// Serving from the cache: with `block2` the request's Block2 option and `cached` the response
/// held, `r` and the response `after` from `before`.
pub open spec fn continued(
    block2: Option<BlockValue>,
    cached: Option<Packet>,
    before: Option<Packet>,
    r: Result<bool, HandlingError>,
    after: Option<Packet>,
) -> bool {
    match continuation(block2, cached) {
        None => r matches Ok(false) && after == before,
        Some((b, c)) => match before {
            None => r matches Err(e) && e.code is None,
            Some(_) => if block_exists(c.payload@, b.num as nat, b.spec_size()) {
                r matches Ok(true) && served_response(before, c, b, after)
            } else {
                r matches Err(e) && e.code == Some(CODE_BAD_REQUEST) && after == before
            },
        },
    }
}

/// The block to serve from the cache: the request's Block2 where it asks for a block past the
/// first and a response is cached.
pub open spec fn continuation(block2: Option<BlockValue>, cached: Option<Packet>) -> Option<(BlockValue, Packet)> {
    match (block2, cached) {
        (Some(b), Some(c)) => if b.num != 0 {
            Some((b, c))
        } else {
            None
        },
        _ => None,
    }
}

/// The message carries a Block2 option that is not a block value.
pub open spec fn block2_malformed(message: Packet) -> bool {
    match message.first_option(OPTION_BLOCK2) {
        Some(bytes) => BlockValue::spec_decode(bytes) is Err,
        None => false,
    }
}

/// The request's Block2 option, if any, is a block value that asks for no block past the first.
pub open spec fn no_continuation(message: Packet) -> bool {
    &&& !block2_malformed(message)
    &&& match spec_request_block2(message) {
        Some(b) => b.num == 0,
        None => true,
    }
}

/// The valid Block2 option of a message, if it has one.
pub open spec fn spec_request_block2(p: Packet) -> Option<BlockValue> {
    match p.first_option(OPTION_BLOCK2) {
        Some(bytes) => match BlockValue::spec_decode(bytes) {
            Ok(v) => Some(v),
            Err(_) => None,
        },
        None => None,
    }
}

/// What `maybe_synthesize_block2_request` decides, with the block size it negotiates.
pub open spec fn negotiated_block_size(
    last: Option<BlockValue>,
    required_size: nat,
    payload_size: nat,
    max_total_message_size: nat,
) -> Option<nat> {
    if required_size <= max_total_message_size {
        None
    } else if required_size + BLOCK2_OPTION_MAX_LENGTH < payload_size || required_size
        + BLOCK2_OPTION_MAX_LENGTH > usize::MAX {
        None
    } else {
        let non_payload = (required_size + BLOCK2_OPTION_MAX_LENGTH - payload_size) as nat;
        if non_payload > max_total_message_size {
            None
        } else {
            let suggested = (max_total_message_size - non_payload) as nat;
            let client: nat = match last {
                Some(b) => b.spec_size(),
                None => usize::MAX as nat,
            };
            Some(if client < suggested { client } else { suggested })
        }
    }
}

/// Number of blocks of `size` bytes that `len` bytes split into.
pub open spec fn block_count(len: nat, size: nat) -> nat {
    if size == 0 {
        0
    } else {
        ((len + size - 1) as nat) / size
    }
}

/// Blocks `0..k` of `size` bytes of `p`, concatenated in order.
pub open spec fn reassembled(p: Seq<u8>, size: nat, k: nat) -> Seq<u8>
    decreases k,
{
    if k == 0 {
        Seq::empty()
    } else {
        reassembled(p, size, (k - 1) as nat) + block_chunk(p, (k - 1) as nat, size)
    }
}

proof fn lemma_reassembled_prefix(p: Seq<u8>, size: nat, k: nat)
    requires
        size > 0,
        k == 0 || (k - 1) * size < p.len(),
    ensures
        reassembled(p, size, k) == p.subrange(
            0,
            if k * size < p.len() { (k * size) as int } else { p.len() as int },
        ),
    decreases k,
{
    if k == 0 {
        assert(p.subrange(0, 0) =~= Seq::<u8>::empty());
    } else {
        let j = (k - 1) as nat;
        assert(j * size + size == k * size) by (nonlinear_arith)
            requires j == k - 1;
        if j > 0 {
            assert((j - 1) * size < j * size) by (nonlinear_arith)
                requires j > 0, size > 0;
        }
        lemma_reassembled_prefix(p, size, j);
        assert(j * size < p.len());
        let end = if k * size < p.len() { (k * size) as int } else { p.len() as int };
        assert(reassembled(p, size, k) =~= p.subrange(0, end));
    }
}

/// Serving a payload block by block, from block 0 while blocks exist, gives exactly the
/// payload back in order; every block but the last announces more to follow, the last does
/// not, and the block after the last does not exist.
pub proof fn lemma_blocks_reassemble(p: Seq<u8>, size: nat)
    requires
        size > 0,
    ensures
        forall|num: nat| num < block_count(p.len(), size) ==> #[trigger] block_exists(p, num, size),
        !block_exists(p, block_count(p.len(), size), size),
        reassembled(p, size, block_count(p.len(), size)) == p,
        forall|num: nat|
            num < block_count(p.len(), size) ==> (#[trigger] block_has_more(p, num, size) <==> num
                + 1 < block_count(p.len(), size)),
{
    let len = p.len();
    let n = block_count(len, size);
    assert(n * size >= len && (n == 0 || (n - 1) * size < len)) by {
        let q = ((len + size - 1) as nat) / size;
        let r = ((len + size - 1) as nat) % size;
        assert(q * size + r == len + size - 1 && r < size) by (nonlinear_arith)
            requires size > 0, q == ((len + size - 1) as nat) / size, r == ((len + size - 1) as nat)
                % size;
        assert(q == n);
        assert(n * size >= len) by (nonlinear_arith)
            requires n * size + r == len + size - 1, r < size;
        if n > 0 {
            assert((n - 1) * size < len) by (nonlinear_arith)
                requires n * size + r == len + size - 1, r >= 0, n > 0;
        }
    }
    assert forall|num: nat| num < n implies #[trigger] block_exists(p, num, size) by {
        assert(num * size <= (n - 1) * size) by (nonlinear_arith)
            requires num < n;
    }
    assert forall|num: nat| num < n implies (#[trigger] block_has_more(p, num, size) <==> num + 1 < n) by {
        assert(num * size + size == (num + 1) * size) by (nonlinear_arith);
        if num + 1 < n {
            assert((num + 1) * size <= (n - 1) * size) by (nonlinear_arith)
                requires num + 1 <= n - 1;
        } else {
            assert(num + 1 == n);
        }
    }
    lemma_reassembled_prefix(p, size, n);
    assert(p.subrange(0, len as int) =~= p);
}

/// Block-wise transfer state for all requesters, and the size limit it fragments for.
/// `p` is `bef` turned into block `i`, of size exponent `e`, of the cached response `c`.
pub open spec fn served_as_block(c: Packet, e: u8, bef: Packet, p: Packet, i: int) -> bool {
    exists|b: BlockValue| b.num == i && b.size_exponent == e && #[trigger] is_served_block(bef, c, b, p)
}

/// The payloads of `served[0..k]`, concatenated in order.
pub open spec fn concat_payloads(served: Seq<Packet>, k: nat) -> Seq<u8>
    decreases k,
{
    if k == 0 || k > served.len() {
        Seq::empty()
    } else {
        concat_payloads(served, (k - 1) as nat) + served[k - 1].payload@
    }
}

/// Blocks `0, 1, ...` of a cached response `c`, all of size exponent `e`, served in order (the
/// first by fragmenting, the others from the cache; each is `is_served_block`): together their
/// payloads are `c`'s payload, and only the last says no more blocks follow.
pub proof fn lemma_served_blocks_reassemble(c: Packet, e: u8, before: Seq<Packet>, served: Seq<Packet>)
    requires
        e <= 7,
        served.len() == block_count(c.payload@.len(), block_size_of(e as nat)),
        before.len() == served.len(),
        forall|i: int| 0 <= i < served.len() ==> #[trigger] served_as_block(c, e, before[i], served[i], i),
    ensures
        concat_payloads(served, served.len()) == c.payload@,
        forall|i: int|
            0 <= i < served.len() ==> (#[trigger] served_block2(
                c.payload@,
                BlockValue { num: i as u32, more: false, size_exponent: e },
            ).more <==> i + 1 < served.len()),
{
    let size = block_size_of(e as nat);
    vstd::arithmetic::power2::lemma_pow2_pos(e as nat + 4);
    lemma_blocks_reassemble(c.payload@, size);
    assert forall|k: nat| k <= served.len() implies #[trigger] concat_payloads(served, k) == reassembled(
        c.payload@,
        size,
        k,
    ) by {
        lemma_concat_is_reassembled(c, e, before, served, k);
    }
    assert forall|i: int| 0 <= i < served.len() implies (#[trigger] served_block2(
        c.payload@,
        BlockValue { num: i as u32, more: false, size_exponent: e },
    ).more <==> i + 1 < served.len()) by {
        assert(served_as_block(c, e, before[i], served[i], i));
        assert(block_has_more(c.payload@, i as nat, size) <==> i + 1 < served.len());
    }
}

proof fn lemma_concat_is_reassembled(c: Packet, e: u8, before: Seq<Packet>, served: Seq<Packet>, k: nat)
    requires
        e <= 7,
        k <= served.len(),
        before.len() == served.len(),
        forall|i: int| 0 <= i < served.len() ==> #[trigger] served_as_block(c, e, before[i], served[i], i),
    ensures
        concat_payloads(served, k) == reassembled(c.payload@, block_size_of(e as nat), k),
    decreases k,
{
    if k > 0 {
        lemma_concat_is_reassembled(c, e, before, served, (k - 1) as nat);
        let i = k - 1;
        assert(served_as_block(c, e, before[i], served[i], i));
        let b = choose|b: BlockValue| b.num == i && b.size_exponent == e && #[trigger] is_served_block(before[i], c, b, served[i]);
        assert(b.spec_size() == block_size_of(e as nat));
        assert(served[i].payload@ == block_chunk(c.payload@, i as nat, block_size_of(e as nat)));
    }
}

pub struct BlockHandler {
    config: BlockHandlerConfig,
    states: StateCache,
}

impl BlockHandler {
    pub closed spec fn spec_max_total_message_size(&self) -> nat {
        self.config.max_total_message_size as nat
    }

    /// The state held for a request key, if any.
    pub closed spec fn entries(&self) -> Map<(u8, Seq<Seq<u8>>, Option<Seq<u8>>), BlockState> {
        cache_entries(self.states)
    }

    /// Every state held is well formed.
    pub closed spec fn wf(&self) -> bool {
        forall|k| #[trigger] self.entries().contains_key(k) ==> self.entries()[k].wf()
    }

    pub fn new(config: BlockHandlerConfig) -> (r: BlockHandler)
        ensures
            r.wf(),
            r.entries() == Map::<(u8, Seq<Seq<u8>>, Option<Seq<u8>>), BlockState>::empty(),
            r.spec_max_total_message_size() == config.max_total_message_size,
    {
        let states = cache_with_expiry(config.cache_expiry_millis);
        assert(cache_entries(states) =~= Map::empty());
        BlockHandler { states, config }
    }

    /// The key under which a request's transfer is cached.
    pub fn request_cache_key(request: &CoapRequest) -> (r: RequestCacheKey)
        requires
            request.wf(),
        ensures
            r.deep_view() == spec_cache_key(request),
    {
        let path: Vec<Vec<u8>> = match request.message.get_option(OPTION_URI_PATH) {
            Some(values) => copy_values(values),
            None => Vec::new(),
        };
        let source: Option<Vec<u8>> = match &request.source {
            Some(s) => Some(copy_bytes(s)),
            None => None,
        };
        let r = (request.message.code, path, source);
        assert(r.1.deep_view() =~= request.spec_path_bytes());
        r
    }

    /// Takes the state for `key` out of the cache, or a fresh one where none is held.
    fn take_state(&mut self, key: &RequestCacheKey) -> (r: BlockState)
        requires
            old(self).wf(),
        ensures
            final(self).wf(),
            r.wf(),
            final(self).entries().submap_of(old(self).entries()),
            !final(self).entries().contains_key(key.deep_view()),
            (r.last_request_block2 is None && r.cached_response is None) || (old(
                self,
            ).entries().contains_key(key.deep_view()) && r == old(self).entries()[key.deep_view()]),
            final(self).spec_max_total_message_size() == old(self).spec_max_total_message_size(),
    {
        let ghost e0 = self.entries();
        // Expired entries go first, so that an expired transfer is not continued.
        let _ = cache_refresh(&mut self.states, key);
        let ghost e1 = self.entries();
        let taken = cache_remove(&mut self.states, key);
        let ghost e2 = self.entries();
        proof {
            assert forall|k| #[trigger] e2.contains_key(k) implies e2[k].wf() && e0.contains_key(k)
                && e2[k] == e0[k] by {
                assert(e1.contains_key(k));
                assert(e0.contains_key(k));
            }
            assert(e2.submap_of(e0));
        }
        match taken {
            Some(s) => {
                proof {
                    assert(e0.contains_key(key.deep_view()));
                }
                s
            },
            None => BlockState::new(),
        }
    }

    /// Puts the state for `key` back.
    fn put_state(&mut self, key: RequestCacheKey, state: BlockState)
        requires
            old(self).wf(),
            state.wf(),
        ensures
            final(self).wf(),
            final(self).entries().contains_key(key.deep_view()),
            final(self).entries()[key.deep_view()] == state,
            final(self).spec_max_total_message_size() == old(self).spec_max_total_message_size(),
    {
        let ghost e0 = self.entries();
        let ghost kv = key.deep_view();
        cache_insert(&mut self.states, key, state);
        let ghost e1 = self.entries();
        assert forall|k| #[trigger] e1.contains_key(k) implies e1[k].wf() by {
            if k != kv {
                assert(e1.remove(kv).contains_key(k));
                assert(e0.contains_key(k));
                assert(e1.remove(kv)[k] == e0[k]);
            }
        }
    }
}

impl BlockHandler {
    /// Copies `src` into `dst` but for the message id, the token and the payload; options that
    /// only `dst` has are kept.
    pub fn packet_clone_limited(dst: &mut Packet, src: &Packet)
        requires
            old(dst).wf(),
            src.wf(),
        ensures
            final(dst).wf(),
            final(dst).version == src.version,
            final(dst).msg_type == src.msg_type,
            final(dst).code == src.code,
            final(dst).message_id == old(dst).message_id,
            final(dst).token == old(dst).token,
            final(dst).payload == old(dst).payload,
            final(dst).option_map() == old(dst).option_map().union_prefer_right(src.option_map()),
    {
        dst.version = src.version;
        dst.msg_type = src.msg_type;
        dst.code = src.code;
        dst.copy_options_from(src);
    }

    /// Turns the request's response into block `request_block2` of `cached_response`.
    pub fn maybe_serve_cached_response(
        request: &mut CoapRequest,
        request_block2: BlockValue,
        cached_response: &Packet,
    ) -> (r: Result<(), HandlingError>)
        requires
            old(request).wf(),
            cached_response.wf(),
            request_block2.wf(),
        ensures
            final(request).wf(),
            final(request).message == old(request).message,
            final(request).source == old(request).source,
            old(request).response is None ==> (r matches Err(e) && e.code is None
                && final(request).response is None),
            old(request).response is Some && !block_exists(
                cached_response.payload@,
                request_block2.num as nat,
                request_block2.spec_size(),
            ) ==> (r matches Err(e) && e.code == Some(CODE_BAD_REQUEST) && final(request).response
                == old(request).response),
            old(request).response matches Some(resp0) ==> (block_exists(
                cached_response.payload@,
                request_block2.num as nat,
                request_block2.spec_size(),
            ) <==> r is Ok),
            r is Ok ==> served_response(
                old(request).response,
                *cached_response,
                request_block2,
                final(request).response,
            ),
    {
        let size = request_block2.size();
        assert(size <= 2048) by {
            vstd::arithmetic::power2::lemma2_to64();
            if request_block2.size_exponent < 7 {
                vstd::arithmetic::power2::lemma_pow2_strictly_increases(
                    request_block2.size_exponent as nat + 4,
                    11,
                );
            }
        }
        assert(request_block2.num as nat * size <= 0xFFFFF * 2048) by (nonlinear_arith)
            requires request_block2.num <= 0xFFFFF, size <= 2048;
        let start: usize = request_block2.num as usize * size;
        let len = cached_response.payload.len();
        if request.response.is_none() {
            return Err(HandlingError::not_handled());
        }
        if start >= len {
            let message = "num=".to_owned().concat(decimal(request_block2.num as u64).as_str()).concat(
                ", block_size=",
            ).concat(decimal(size as u64).as_str());
            return Err(HandlingError::bad_request(message.as_str()));
        }
        let mut resp = match request.response.take() {
            Some(p) => p,
            None => return Err(HandlingError::not_handled()),
        };
        let ghost resp0 = resp;
        Self::packet_clone_limited(&mut resp, cached_response);
        let more = start + size < len;
        let end = if more {
            start + size
        } else {
            len
        };
        resp.payload = copy_range(&cached_response.payload, start, end);
        let block = BlockValue { num: request_block2.num, more, size_exponent: request_block2.size_exponent };
        let encoded = block.encode();
        let values: Vec<Vec<u8>> = vec![encoded];
        proof {
            crate::message::lemma_bytes_deep_view(encoded);
            assert(values.deep_view() =~= seq![block.spec_encode()]);
        }
        resp.set_option(OPTION_BLOCK2, values);
        proof {
            assert(start == request_block2.num as nat * request_block2.spec_size());
            assert(block == served_block2(cached_response.payload@, request_block2));
            assert(resp.payload@ == block_chunk(
                cached_response.payload@,
                request_block2.num as nat,
                request_block2.spec_size(),
            ));
            assert(resp.wf());
            assert(resp.version == cached_response.version);
            assert(resp.msg_type == cached_response.msg_type);
            assert(resp.code == cached_response.code);
            assert(resp.message_id == resp0.message_id);
            assert(resp.token@ == resp0.token@);
            assert(resp.option_map() == resp0.option_map().union_prefer_right(cached_response.option_map()).insert(
                OPTION_BLOCK2,
                seq![served_block2(cached_response.payload@, request_block2).spec_encode()],
            ));
            assert(is_served_block(resp0, *cached_response, request_block2, resp));
        }
        request.response = Some(resp);
        Ok(())
    }

    /// The Block2 request to serve a response of `required_size` bytes on the wire (of which
    /// `payload_size` are payload) as blocks, or `None` where it fits in one message or no
    /// block size can be had.
    pub fn maybe_synthesize_block2_request(
        last_request_block2: Option<BlockValue>,
        required_size: usize,
        payload_size: usize,
        max_total_message_size: usize,
    ) -> (r: Option<BlockValue>)
        requires
            last_request_block2 matches Some(b) ==> b.wf(),
        ensures
            ({
                let neg = negotiated_block_size(
                    last_request_block2,
                    required_size as nat,
                    payload_size as nat,
                    max_total_message_size as nat,
                );
                let num: nat = match last_request_block2 {
                    Some(b) => b.num as nat,
                    None => 0,
                };
                match neg {
                    None => r is None,
                    Some(size) => if 16 <= size < 4096 {
                        r matches Some(b) && b.wf() && b.num == num && !b.more && b.spec_size()
                            <= size < 2 * b.spec_size()
                    } else {
                        r is None
                    },
                }
            }),
    {
        if required_size <= max_total_message_size {
            return None;
        }
        if required_size > usize::MAX - BLOCK2_OPTION_MAX_LENGTH || required_size
            + BLOCK2_OPTION_MAX_LENGTH < payload_size {
            return None;
        }
        let expected_non_payload_size = (required_size + BLOCK2_OPTION_MAX_LENGTH) - payload_size;
        if expected_non_payload_size > max_total_message_size {
            // No room for any payload: the response goes out whole.
            return None;
        }
        let suggested_block_size: usize = max_total_message_size - expected_non_payload_size;
        let client_block_size: usize = match last_request_block2 {
            Some(b) => b.size(),
            None => usize::MAX,
        };
        let negotiated_block_size = if client_block_size < suggested_block_size {
            client_block_size
        } else {
            suggested_block_size
        };
        let num: usize = match last_request_block2 {
            Some(b) => b.num as usize,
            None => 0,
        };
        match BlockValue::new(num, false, negotiated_block_size) {
            Ok(b) => Some(b),
            Err(_) => None,
        }
    }
}

impl BlockHandler {
    /// The request's valid Block2 option, if it has one.
    fn request_block2(message: &Packet) -> (r: Option<BlockValue>)
        requires
            message.wf(),
        ensures
            r == spec_request_block2(*message),
            r matches Some(b) ==> b.wf(),
    {
        match message.get_first_option(OPTION_BLOCK2) {
            Some(bytes) => match BlockValue::decode(copy_bytes(bytes)) {
                Ok(v) => Some(v),
                Err(_) => None,
            },
            None => None,
        }
    }

    /// Records the request's Block2 option for its key and, where it asks for a block past
    /// the first of a cached response, serves that block. `Ok(true)`: the response is ready and
    /// the resource is not to run; `Ok(false)`: the resource is to run.
    pub fn intercept_request(&mut self, request: &mut CoapRequest) -> (r: Result<bool, HandlingError>)
        requires
            old(self).wf(),
            old(request).wf(),
        ensures
            final(self).wf(),
            final(request).wf(),
            final(request).message == old(request).message,
            final(request).source == old(request).source,
            final(self).spec_max_total_message_size() == old(self).spec_max_total_message_size(),
            final(self).entries().contains_key(spec_cache_key(old(request))),
            final(self).entries()[spec_cache_key(old(request))].last_request_block2
                == spec_request_block2(old(request).message),
            no_continuation(old(request).message) ==> r matches Ok(false),
            block2_malformed(old(request).message) ==> (r matches Err(e) && e.code == Some(CODE_BAD_REQUEST)
                && final(request).response == old(request).response),
            r matches Ok(false) ==> final(request).response == old(request).response,
            r matches Ok(true) ==> continued_from_cache(
                old(self).entries(),
                spec_cache_key(old(request)),
                spec_request_block2(old(request).message),
                old(request).response,
                final(request).response,
            ),
            !block2_malformed(old(request).message) ==> continued(
                spec_request_block2(old(request).message),
                final(self).entries()[spec_cache_key(old(request))].cached_response,
                old(request).response,
                r,
                final(request).response,
            ),
            final(self).entries()[spec_cache_key(old(request))].cached_response is None || (old(
                self,
            ).entries().contains_key(spec_cache_key(old(request))) && final(self).entries()[spec_cache_key(
                old(request),
            )].cached_response == old(self).entries()[spec_cache_key(old(request))].cached_response),
    {
        let key = Self::request_cache_key(request);
        let mut state = self.take_state(&key);
        let block2 = Self::request_block2(&request.message);
        state.last_request_block2 = block2;
        let malformed = match request.message.get_first_option(OPTION_BLOCK2) {
            Some(bytes) => match BlockValue::decode(copy_bytes(bytes)) {
                Ok(_) => false,
                Err(_) => true,
            },
            None => false,
        };
        let result = if malformed {
            Err(HandlingError::bad_request("Block2 option is not a block value"))
        } else {
            Self::continue_transfer(&state, block2, request)
        };
        self.put_state(key, state);
        result
    }

    /// With the state held for the request: where the request asks for a block past the first
    /// and a response is cached, serves that block of it (`Ok(true)`); otherwise leaves the
    /// request alone (`Ok(false)`).
    pub fn continue_transfer(
        state: &BlockState,
        block2: Option<BlockValue>,
        request: &mut CoapRequest,
    ) -> (r: Result<bool, HandlingError>)
        requires
            old(request).wf(),
            state.wf(),
            block2 matches Some(b) ==> b.wf(),
        ensures
            final(request).wf(),
            final(request).message == old(request).message,
            final(request).source == old(request).source,
            continued(block2, state.cached_response, old(request).response, r, final(request).response),
    {
        match block2 {
            Some(b) => {
                if b.num != 0 {
                    match &state.cached_response {
                        Some(cached) => match Self::maybe_serve_cached_response(request, b, cached) {
                            Ok(()) => Ok(true),
                            Err(e) => Err(e),
                        },
                        None => Ok(false),
                    }
                } else {
                    Ok(false)
                }
            },
            None => Ok(false),
        }
    }

    /// Where the response does not fit in one message (and the resource did not set a Block2
    /// option itself), caches it and replaces it with its first block (or the block the client
    /// last asked for). `Ok(true)` where it did so; otherwise a response drops the cached one.
    pub fn intercept_response(&mut self, request: &mut CoapRequest) -> (r: Result<bool, HandlingError>)
        requires
            old(self).wf(),
            old(request).wf(),
        ensures
            final(self).wf(),
            final(request).wf(),
            final(request).message == old(request).message,
            final(request).source == old(request).source,
            final(self).spec_max_total_message_size() == old(self).spec_max_total_message_size(),
            final(self).entries().contains_key(spec_cache_key(old(request))),
            final(self).entries()[spec_cache_key(old(request))].last_request_block2 is None || (old(
                self,
            ).entries().contains_key(spec_cache_key(old(request))) && final(self).entries()[spec_cache_key(
                old(request),
            )].last_request_block2 == old(self).entries()[spec_cache_key(old(request))].last_request_block2),
            response_interception(
                final(self).entries()[spec_cache_key(old(request))].last_request_block2,
                old(request).response,
                old(self).spec_max_total_message_size(),
                r,
                final(request).response,
                final(self).entries()[spec_cache_key(old(request))].cached_response,
            ),
    {
        let key = Self::request_cache_key(request);
        let mut state = self.take_state(&key);
        let ghost before = request.response;
        let ghost last = state.last_request_block2;
        let ghost max = self.config.max_total_message_size as nat;
        if request.response.is_some() {
            // A new full response replaces whatever was being served from the cache.
            state.cached_response = None;
        }
        let plan: Option<BlockValue> = match &request.response {
            Some(resp) => {
                if resp.get_option(OPTION_BLOCK2).is_none() && resp.token.len() <= MAX_TOKEN_LENGTH {
                    match encoded_length(resp) {
                        Some(required_size) => Self::maybe_synthesize_block2_request(
                            state.last_request_block2,
                            required_size,
                            resp.payload.len(),
                            self.config.max_total_message_size,
                        ),
                        None => None,
                    }
                } else {
                    None
                }
            },
            None => None,
        };
        if let Some(block2) = plan {
            let cached = match &request.response {
                Some(resp) => resp.duplicate(),
                None => {
                    self.put_state(key, state);
                    return Ok(false);
                },
            };
            let ghost resp0 = before->Some_0;
            let ghost size = negotiated_block_size(
                last,
                wire_length(resp0.code, resp0.token@, resp0.option_map(), resp0.payload@),
                resp0.payload@.len(),
                max,
            )->Some_0;
            assert(is_first_served_block(block2, last, size));
            match Self::maybe_serve_cached_response(request, block2, &cached) {
                Ok(()) => {
                    proof {
                        assert(served_response(before, resp0, block2, request.response));
                    }
                    state.cached_response = Some(cached);
                    self.put_state(key, state);
                    assert(response_interception(last, before, max, Ok(true), request.response, Some(cached)));
                    return Ok(true);
                },
                Err(e) => {
                    self.put_state(key, state);
                    assert(response_interception(last, before, max, Err(e), request.response, None));
                    return Err(e);
                },
            }
        }
        self.put_state(key, state);
        Ok(false)
    }
}

} // verus!
