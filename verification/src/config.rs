//! Validation of the options of a parse.

use vstd::prelude::*;
use vstd::string::StringExecFns;

use crate::message::ParseWarcConfig;
use crate::status::{Code, Status};
use crate::text;

verus! {

/// The sizes that a server accepts, and the one it uses where none is asked
/// for.
#[derive(Clone, Copy, Debug, PartialEq, Eq, Structural)]
pub struct Limits {
    /// Largest accepted `max_header_len`, in bytes.
    pub max_header_len: usize,
    /// Largest accepted `payload_chunk_size`, in bytes.
    pub max_payload_chunk_size: usize,
    /// Largest accepted `input_buffer_size`, in bytes.
    pub max_input_buffer_size: usize,
    /// Buffer size for a local file when none is asked for, in bytes.
    pub default_input_buffer_size: usize,
}

/// The message that refuses a size above its limit.
pub open spec fn limit_text(name: Seq<char>, max: nat) -> Seq<char> {
    name + " must not exceed "@ + text::decimal(max) + " bytes"@
}

/// What is wrong with a configuration: the first size above its limit, or
/// bounds on the content length that leave nothing between them.
pub open spec fn config_fault(config: ParseWarcConfig, limits: Limits) -> Option<Seq<char>> {
    if config.max_header_len > limits.max_header_len {
        Some(limit_text("max_header_len"@, limits.max_header_len as nat))
    } else if config.payload_chunk_size > limits.max_payload_chunk_size {
        Some(limit_text("payload_chunk_size"@, limits.max_payload_chunk_size as nat))
    } else if config.input_buffer_size > limits.max_input_buffer_size {
        Some(limit_text("input_buffer_size"@, limits.max_input_buffer_size as nat))
    } else if config.min_content_length is Some && config.max_content_length is Some
        && config.min_content_length->0 > config.max_content_length->0 {
        Some("min_content_length must not exceed max_content_length"@)
    } else {
        None
    }
}

/// Rejects values above `max`; zero selects the default.
pub fn validate_limit(name: &str, value: u32, max: usize) -> (checked: Result<(), Status>)
    ensures
        match checked {
            Ok(()) => value <= max,
            Err(status) => value > max && status.says(
                Code::InvalidArgument,
                limit_text(name@, max as nat),
            ),
        },
{
    if value as usize > max {
        let mut message: String = name.to_owned();
        message.append(" must not exceed ");
        text::push_decimal(&mut message, max);
        message.append(" bytes");
        Err(Status { code: Code::InvalidArgument, message })
    } else {
        Ok(())
    }
}

/// Rejects sizes above their limits and inverted content-length bounds.
pub fn validate_config(config: &ParseWarcConfig, limits: &Limits) -> (checked: Result<(), Status>)
    ensures
        match config_fault(*config, *limits) {
            Some(text) => checked matches Err(status) && status.says(Code::InvalidArgument, text),
            None => checked is Ok,
        },
        checked is Ok <==> (config.max_header_len <= limits.max_header_len
            && config.payload_chunk_size <= limits.max_payload_chunk_size
            && config.input_buffer_size <= limits.max_input_buffer_size
            && (forall|min: u64, max: u64|
            config.min_content_length == Some(min) && config.max_content_length == Some(max) ==> min
                <= max)),
{
    proof {
        law_options_within_limits_are_accepted(*config, *limits);
    }
    let header: Result<(), Status> = validate_limit(
        "max_header_len",
        config.max_header_len,
        limits.max_header_len,
    );
    if header.is_err() {
        return header;
    }
    let chunk: Result<(), Status> = validate_limit(
        "payload_chunk_size",
        config.payload_chunk_size,
        limits.max_payload_chunk_size,
    );
    if chunk.is_err() {
        return chunk;
    }
    let buffer: Result<(), Status> = validate_limit(
        "input_buffer_size",
        config.input_buffer_size,
        limits.max_input_buffer_size,
    );
    if buffer.is_err() {
        return buffer;
    }
    if let (Some(min), Some(max)) = (config.min_content_length, config.max_content_length) {
        if min > max {
            return Err(
                Status::new(
                    Code::InvalidArgument,
                    "min_content_length must not exceed max_content_length",
                ),
            );
        }
    }
    Ok(())
}

/// Size of the buffer that a local file is read through: what was asked for,
/// or the server's default where nothing was.
pub open spec fn buffer_size(config: ParseWarcConfig, limits: Limits) -> nat {
    if config.input_buffer_size == 0 {
        limits.default_input_buffer_size as nat
    } else {
        config.input_buffer_size as nat
    }
}

/// Size of the buffer that a local file is read through.
pub fn input_buffer_size(config: &ParseWarcConfig, limits: &Limits) -> (size: usize)
    ensures
        size == buffer_size(*config, *limits),
{
    if config.input_buffer_size == 0 {
        limits.default_input_buffer_size
    } else {
        config.input_buffer_size as usize
    }
}

/// Zero selects the default: a configuration with no size and no bound set is
/// accepted, whatever the limits.
pub proof fn law_unset_options_are_accepted(config: ParseWarcConfig, limits: Limits)
    requires
        config.is_default_but_for_path(),
    ensures
        config_fault(config, limits) is None,
{
}

/// No file is read through a larger buffer than the server allows: the buffer
/// of an accepted configuration is within the limit, or is the server's default.
pub proof fn law_accepted_buffers_are_bounded(config: ParseWarcConfig, limits: Limits)
    requires
        config_fault(config, limits) is None,
    ensures
        buffer_size(config, limits) <= limits.max_input_buffer_size || buffer_size(config, limits)
            == limits.default_input_buffer_size,
{
}

/// A configuration is accepted exactly where each of its sizes is within its
/// limit and no minimum of the content length exceeds a maximum. A bound by
/// itself is always accepted.
pub proof fn law_options_within_limits_are_accepted(config: ParseWarcConfig, limits: Limits)
    ensures
        config_fault(config, limits) is None <==> (config.max_header_len <= limits.max_header_len
            && config.payload_chunk_size <= limits.max_payload_chunk_size
            && config.input_buffer_size <= limits.max_input_buffer_size
            && (forall|min: u64, max: u64|
            config.min_content_length == Some(min) && config.max_content_length == Some(max) ==> min
                <= max)),
        (config.min_content_length is None || config.max_content_length is None)
            && config.max_header_len <= limits.max_header_len && config.payload_chunk_size
            <= limits.max_payload_chunk_size && config.input_buffer_size
            <= limits.max_input_buffer_size ==> config_fault(config, limits) is None,
{
    if config.min_content_length is Some && config.max_content_length is Some {
        let min = config.min_content_length->0;
        let max = config.max_content_length->0;
        assert(config.min_content_length == Some(min) && config.max_content_length == Some(max));
    }
}

/// A refusal names the first option that is out of its bounds, and its limit in
/// decimal digits.
pub proof fn law_refusal_names_the_option(config: ParseWarcConfig, limits: Limits)
    ensures
        config.max_header_len > limits.max_header_len ==> exists|limit: Seq<char>|
            {
                &&& #[trigger] text::parsed_number(limit) == Some(limits.max_header_len as nat)
                &&& config_fault(config, limits) == Some(
                    "max_header_len"@ + " must not exceed "@ + limit + " bytes"@,
                )
            },
        config.max_header_len <= limits.max_header_len && config.payload_chunk_size
            > limits.max_payload_chunk_size ==> exists|limit: Seq<char>|
            {
                &&& #[trigger] text::parsed_number(limit) == Some(
                    limits.max_payload_chunk_size as nat,
                )
                &&& config_fault(config, limits) == Some(
                    "payload_chunk_size"@ + " must not exceed "@ + limit + " bytes"@,
                )
            },
        config.max_header_len <= limits.max_header_len && config.payload_chunk_size
            <= limits.max_payload_chunk_size && config.input_buffer_size
            > limits.max_input_buffer_size ==> exists|limit: Seq<char>|
            {
                &&& #[trigger] text::parsed_number(limit) == Some(
                    limits.max_input_buffer_size as nat,
                )
                &&& config_fault(config, limits) == Some(
                    "input_buffer_size"@ + " must not exceed "@ + limit + " bytes"@,
                )
            },
        config.max_header_len <= limits.max_header_len && config.payload_chunk_size
            <= limits.max_payload_chunk_size && config.input_buffer_size
            <= limits.max_input_buffer_size && config_fault(config, limits) is Some
            ==> config_fault(config, limits) == Some(
            "min_content_length must not exceed max_content_length"@,
        ),
{
    text::law_decimal_spells_its_value(limits.max_header_len as nat);
    text::law_decimal_spells_its_value(limits.max_payload_chunk_size as nat);
    text::law_decimal_spells_its_value(limits.max_input_buffer_size as nat);
    assert(text::parsed_number(text::decimal(limits.max_header_len as nat)) is Some);
    assert(text::parsed_number(text::decimal(limits.max_payload_chunk_size as nat)) is Some);
    assert(text::parsed_number(text::decimal(limits.max_input_buffer_size as nat)) is Some);
}

/// A larger limit refuses nothing that a smaller one accepts.
pub proof fn law_larger_limits_accept_more(config: ParseWarcConfig, limits: Limits, larger: Limits)
    requires
        limits.max_header_len <= larger.max_header_len,
        limits.max_payload_chunk_size <= larger.max_payload_chunk_size,
        limits.max_input_buffer_size <= larger.max_input_buffer_size,
        config_fault(config, limits) is None,
    ensures
        config_fault(config, larger) is None,
{
}

/// A local file is read through a buffer of the size that was asked for, to the
/// byte; only where none was asked for, the server's default decides.
pub proof fn law_buffer_is_what_was_asked_for(config: ParseWarcConfig, limits: Limits)
    ensures
        config.input_buffer_size > 0 ==> buffer_size(config, limits) == config.input_buffer_size,
        config.input_buffer_size == 0 ==> buffer_size(config, limits)
            == limits.default_input_buffer_size,
{
}

} // verus!
