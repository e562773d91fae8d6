//! A CoAP resource-serving engine: a block-wise transfer engine (RFC 7959 Block2),
//! a longest-prefix resource router with CoRE link-format discovery (RFC 6690),
//! an observer registry, and the hardware-abstraction data model served by it.
pub mod text;
pub mod option_value;
pub mod block_value;
pub mod message;
pub mod request;
pub mod handling_error;
pub mod coap_utils;
pub mod uri_query_helper;
pub mod block_handler;
pub mod link_format;
pub mod coap_resource_server;
pub mod observe;
pub mod hal;
pub mod device_resource;
pub mod time_resource;
pub mod config;
