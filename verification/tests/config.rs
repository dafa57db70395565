use fastwarc_grpc::config::{input_buffer_size, validate_config, validate_limit, Limits};
use fastwarc_grpc::message::ParseWarcConfig;
use fastwarc_grpc::status::{Code, Status};

const LIMITS: Limits = Limits {
    max_header_len: 1000,
    max_payload_chunk_size: 2000,
    max_input_buffer_size: 3000,
    default_input_buffer_size: 500,
};

fn refused(message: &str) -> Result<(), Status> {
    Err(Status::new(Code::InvalidArgument, message))
}

#[test]
fn unset_options_are_accepted() {
    assert_eq!(validate_config(&ParseWarcConfig::default(), &LIMITS), Ok(()));
    let none = Limits {
        max_header_len: 0,
        max_payload_chunk_size: 0,
        max_input_buffer_size: 0,
        default_input_buffer_size: 0,
    };
    assert_eq!(validate_config(&ParseWarcConfig::default(), &none), Ok(()));
}

#[test]
fn sizes_are_limited() {
    let config = |header, chunk, buffer| ParseWarcConfig {
        max_header_len: header,
        payload_chunk_size: chunk,
        input_buffer_size: buffer,
        ..Default::default()
    };
    assert_eq!(validate_config(&config(1000, 2000, 3000), &LIMITS), Ok(()));
    assert_eq!(
        validate_config(&config(1001, 2001, 3001), &LIMITS),
        refused("max_header_len must not exceed 1000 bytes")
    );
    assert_eq!(
        validate_config(&config(0, 2001, 3001), &LIMITS),
        refused("payload_chunk_size must not exceed 2000 bytes")
    );
    assert_eq!(
        validate_config(&config(0, 0, 3001), &LIMITS),
        refused("input_buffer_size must not exceed 3000 bytes")
    );
}

#[test]
fn content_bounds_are_in_order() {
    let config = |min, max| ParseWarcConfig {
        min_content_length: min,
        max_content_length: max,
        ..Default::default()
    };
    for (min, max) in [(Some(5), Some(5)), (Some(5), None), (None, Some(0)), (Some(0), Some(9))] {
        assert_eq!(validate_config(&config(min, max), &LIMITS), Ok(()));
    }
    assert_eq!(
        validate_config(&config(Some(6), Some(5)), &LIMITS),
        refused("min_content_length must not exceed max_content_length")
    );
}

#[test]
fn limits_are_named() {
    assert_eq!(validate_limit("size", 7, 7), Ok(()));
    assert_eq!(validate_limit("size", 8, 7), refused("size must not exceed 7 bytes"));
}

#[test]
fn zero_selects_the_default_buffer() {
    let mut config = ParseWarcConfig::default();
    assert_eq!(input_buffer_size(&config, &LIMITS), 500);
    config.input_buffer_size = 9;
    assert_eq!(input_buffer_size(&config, &LIMITS), 9);
}
