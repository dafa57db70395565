//! The outcome of a failed call: a gRPC status code and its message.

use vstd::prelude::*;

verus! {

/// The gRPC status codes that the service answers with.
#[derive(Clone, Copy, Debug, PartialEq, Eq, Structural)]
pub enum Code {
    /// The call was given up before it finished.
    Cancelled,
    /// A request that breaks the protocol or a limit.
    InvalidArgument,
    /// A request for something that the server does not serve.
    PermissionDenied,
    /// A result that is larger than the server may collect.
    ResourceExhausted,
    /// A message that is longer than the server accepts.
    OutOfRange,
    /// A failure of the server itself.
    Internal,
    /// A code that came in from the transport, by its number.
    Transport(i32),
}

/// The number of a status code on the wire.
pub open spec fn code_number(code: Code) -> i32 {
    match code {
        Code::Cancelled => 1,
        Code::InvalidArgument => 3,
        Code::PermissionDenied => 7,
        Code::ResourceExhausted => 8,
        Code::OutOfRange => 11,
        Code::Internal => 13,
        Code::Transport(number) => number,
    }
}

impl Code {
    /// The number of this code on the wire.
    pub fn number(self) -> (number: i32)
        ensures
            number == code_number(self),
    {
        match self {
            Code::Cancelled => 1,
            Code::InvalidArgument => 3,
            Code::PermissionDenied => 7,
            Code::ResourceExhausted => 8,
            Code::OutOfRange => 11,
            Code::Internal => 13,
            Code::Transport(number) => number,
        }
    }
}

/// A status code with a message for the client.
#[derive(Clone, Debug, PartialEq, Eq)]
pub struct Status {
    /// The kind of failure.
    pub code: Code,
    /// The explanation that the client receives.
    pub message: String,
}

impl Status {
    /// Whether this status has the given code and message.
    pub open spec fn says(self, code: Code, message: Seq<char>) -> bool {
        self.code == code && self.message@ == message
    }

    /// A status with a fixed message.
    pub fn new(code: Code, message: &str) -> (status: Status)
        ensures
            status.says(code, message@),
    {
        Status { code, message: message.to_owned() }
    }
}

/// The numbers of the codes are those of gRPC, and a code that came in keeps its
/// number.
pub proof fn law_codes_have_their_numbers(number: i32)
    ensures
        code_number(Code::Cancelled) == 1,
        code_number(Code::InvalidArgument) == 3,
        code_number(Code::PermissionDenied) == 7,
        code_number(Code::ResourceExhausted) == 8,
        code_number(Code::OutOfRange) == 11,
        code_number(Code::Internal) == 13,
        code_number(Code::Transport(number)) == number,
{
}

/// A status says its code and its message, and nothing else.
pub proof fn law_status_says_what_it_holds(status: Status, code: Code, message: Seq<char>)
    ensures
        status.says(code, message) <==> status.code == code && status.message@ == message,
{
}

} // verus!
