use coap_hal_server::block_handler::{BlockHandler, BlockHandlerConfig, BlockState};
use coap_hal_server::block_value::BlockValue;
use coap_hal_server::message::{
    Packet, CODE_BAD_REQUEST, CODE_CONTENT, METHOD_GET, OPTION_BLOCK2, OPTION_URI_PATH,
};
use coap_hal_server::request::CoapRequest;

fn create_get_request(path: &str, mid: u16, block2: Option<BlockValue>) -> CoapRequest {
    let mut packet = Packet::new();
    packet.code = METHOD_GET;
    for segment in path.split('/') {
        packet.add_option(OPTION_URI_PATH, segment.as_bytes().to_vec());
    }
    if let Some(block2) = block2 {
        packet.add_option(OPTION_BLOCK2, block2.encode());
    }
    packet.message_id = mid;
    packet.payload = Vec::new();
    CoapRequest::from_packet(packet, b"test-client".to_vec())
}

fn response_block2(response: &Packet) -> BlockValue {
    BlockValue::decode(response.get_first_option(OPTION_BLOCK2).unwrap().clone()).unwrap()
}

struct TestServerHarness {
    handler: BlockHandler,
}

impl TestServerHarness {
    fn new(max_message_size: usize) -> Self {
        TestServerHarness {
            handler: BlockHandler::new(BlockHandlerConfig {
                max_total_message_size: max_message_size,
                cache_expiry_millis: u32::MAX.into(),
            }),
        }
    }

    /// Runs a request through both interceptions, the resource filling in `payload`.
    fn exchange_messages(&mut self, request: &mut CoapRequest, payload: Vec<u8>, expect_fragmented: bool) -> Packet {
        assert!(!self.handler.intercept_request(request).unwrap());
        let response = request.response.as_mut().unwrap();
        response.code = CODE_CONTENT;
        response.payload = payload;
        assert_eq!(self.handler.intercept_response(request).unwrap(), expect_fragmented);
        request.response.as_ref().unwrap().duplicate()
    }

    /// Runs a continuation request, which the cache answers.
    fn exchange_messages_using_cache(&mut self, request: &mut CoapRequest) -> Packet {
        assert!(self.handler.intercept_request(request).unwrap());
        request.response.as_ref().unwrap().duplicate()
    }
}

/// Fetches every block of a `payload` response; returns the bytes and the block count.
fn fetch_all(max_message_size: usize, payload: &[u8]) -> (Vec<u8>, u32) {
    let mut harness = TestServerHarness::new(max_message_size);
    let mut sent_req = create_get_request("test", 1, None);
    let mut received_response = harness.exchange_messages(&mut sent_req, payload.to_vec(), true);
    let mut received_payload = Vec::<u8>::new();
    loop {
        received_payload.extend(received_response.payload.clone());
        let received_block = response_block2(&received_response);
        if !received_block.more {
            return (received_payload, received_block.num + 1);
        }
        let sent_block = BlockValue::new(received_block.num as usize + 1, false, received_block.size()).unwrap();
        let mut next_sent_req =
            create_get_request("test", received_response.message_id + 1, Some(sent_block));
        received_response = harness.exchange_messages_using_cache(&mut next_sent_req);
        assert_eq!(received_response.message_id, next_sent_req.message.message_id);
    }
}

#[test]
fn test_cached_response_with_blocks() {
    let block = "0123456789\n";

    let mut harness = TestServerHarness::new(32);

    let expected_payload = block.repeat(8).into_bytes();
    let delivered_payload = expected_payload.clone();

    let mut sent_req = create_get_request("test", 1, None);
    let mut received_response = harness.exchange_messages(&mut sent_req, delivered_payload, true);

    let mut received_payload = Vec::<u8>::new();

    let total_blocks = loop {
        received_payload.extend(received_response.payload.clone());

        let received_block = response_block2(&received_response);
        let block_size = received_block.size();
        let block_num = received_block.num;

        if !received_block.more {
            break block_num;
        }

        let sent_block = BlockValue::new(block_num as usize + 1, false, block_size).unwrap();
        let mut next_sent_req =
            create_get_request("test", received_response.message_id + 1, Some(sent_block));

        received_response = harness.exchange_messages_using_cache(&mut next_sent_req);

        // The cached response must not carry its own message id.
        assert_eq!(received_response.message_id, next_sent_req.message.message_id);
    };

    assert!(total_blocks > 1);

    assert_eq!(String::from_utf8(received_payload).unwrap(), String::from_utf8(expected_payload).unwrap());
}

#[test]
fn first_block_of_blockwise_response() {
    let mut harness = TestServerHarness::new(32);
    let payload = "0123456789\n".repeat(8).into_bytes();
    let mut request = create_get_request("test", 7, None);
    let response = harness.exchange_messages(&mut request, payload.clone(), true);
    assert_eq!(response_block2(&response), BlockValue { num: 0, more: true, size_exponent: 0 });
    assert_eq!(response.payload, payload[0..16].to_vec());
    assert_eq!(response.message_id, 7);
    assert_eq!(response.code, CODE_CONTENT);
}

#[test]
fn small_response_is_not_fragmented() {
    let mut harness = TestServerHarness::new(1152);
    let mut request = create_get_request("test", 1, None);
    let response = harness.exchange_messages(&mut request, b"hello".to_vec(), false);
    assert_eq!(response.payload, b"hello".to_vec());
    assert!(response.get_option(OPTION_BLOCK2).is_none());
}

#[test]
fn reassembly_gives_payload_back() {
    for len in [60usize, 64, 100, 257, 1000, 3000] {
        let payload: Vec<u8> = (0..len).map(|i| (i % 251) as u8).collect();
        let (received, blocks) = fetch_all(64, &payload);
        assert_eq!(received, payload);
        assert!(blocks > 1);
    }
}

#[test]
fn block_past_end_is_bad_request() {
    let mut harness = TestServerHarness::new(32);
    let payload = "0123456789\n".repeat(8).into_bytes();
    let mut request = create_get_request("test", 1, None);
    harness.exchange_messages(&mut request, payload, true);
    let mut late = create_get_request("test", 2, Some(BlockValue { num: 6, more: false, size_exponent: 0 }));
    let err = harness.handler.intercept_request(&mut late).unwrap_err();
    assert_eq!(err.code, Some(CODE_BAD_REQUEST));
    assert_eq!(err.message, "num=6, block_size=16");
}

#[test]
fn client_block_size_is_honoured() {
    let mut harness = TestServerHarness::new(1152);
    let payload: Vec<u8> = (0..2000).map(|i| (i % 256) as u8).collect();
    // The client asks for 32-byte blocks from the start.
    let mut request = create_get_request("test", 1, Some(BlockValue { num: 0, more: false, size_exponent: 1 }));
    let response = harness.exchange_messages(&mut request, payload.clone(), true);
    assert_eq!(response_block2(&response), BlockValue { num: 0, more: true, size_exponent: 1 });
    assert_eq!(response.payload, payload[0..32].to_vec());
}

#[test]
fn synthesized_block_request() {
    assert_eq!(BlockHandler::maybe_synthesize_block2_request(None, 32, 20, 32), None);
    assert_eq!(
        BlockHandler::maybe_synthesize_block2_request(None, 93, 88, 32),
        Some(BlockValue { num: 0, more: false, size_exponent: 0 })
    );
    // Overhead above the limit: no block size fits, with or without a client size.
    assert_eq!(BlockHandler::maybe_synthesize_block2_request(None, 100, 10, 32), None);
    let client = BlockValue { num: 3, more: false, size_exponent: 0 };
    assert_eq!(BlockHandler::maybe_synthesize_block2_request(Some(client), 100, 10, 32), None);
    // The client's smaller size and block number are taken.
    assert_eq!(
        BlockHandler::maybe_synthesize_block2_request(Some(client), 2000, 1990, 1152),
        Some(BlockValue { num: 3, more: false, size_exponent: 0 })
    );
}

#[test]
fn new_small_response_drops_cached_one() {
    let mut harness = TestServerHarness::new(32);
    let payload = "0123456789\n".repeat(8).into_bytes();
    let mut request = create_get_request("test", 1, None);
    harness.exchange_messages(&mut request, payload, true);
    // The resource runs again and now answers briefly.
    let mut again = create_get_request("test", 2, None);
    harness.exchange_messages(&mut again, b"short".to_vec(), false);
    // A continuation finds nothing cached: the resource is to run.
    let mut late = create_get_request("test", 3, Some(BlockValue { num: 1, more: false, size_exponent: 0 }));
    assert!(!harness.handler.intercept_request(&mut late).unwrap());
}

#[test]
fn continuation_from_given_state() {
    let mut cached = Packet::new();
    cached.code = CODE_CONTENT;
    cached.payload = (0u8..40).collect();
    let state = BlockState { last_request_block2: None, cached_response: Some(cached) };
    let mut request = create_get_request("x", 9, None);
    let block = BlockValue { num: 2, more: false, size_exponent: 0 };
    assert!(BlockHandler::continue_transfer(&state, Some(block), &mut request).unwrap());
    let response = request.response.unwrap();
    assert_eq!(response.payload, (32u8..40).collect::<Vec<u8>>());
    assert_eq!(response_block2(&response), BlockValue { num: 2, more: false, size_exponent: 0 });
    assert_eq!(response.message_id, 9);
    // Block 0 is never served from the cache.
    let mut first = create_get_request("x", 10, None);
    let zero = BlockValue { num: 0, more: false, size_exponent: 0 };
    assert!(!BlockHandler::continue_transfer(&state, Some(zero), &mut first).unwrap());
}

#[test]
fn undecodable_block2_is_refused() {
    let mut harness = TestServerHarness::new(32);
    let mut request = create_get_request("test", 1, None);
    request.message.add_option(OPTION_BLOCK2, vec![1, 0, 0, 0]);
    let err = harness.handler.intercept_request(&mut request).unwrap_err();
    assert_eq!(err.code, Some(CODE_BAD_REQUEST));
}
