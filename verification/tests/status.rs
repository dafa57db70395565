use fastwarc_grpc::status::{Code, Status};

#[test]
fn codes_have_their_numbers() {
    for (code, number) in [
        (Code::Cancelled, tonic::Code::Cancelled),
        (Code::InvalidArgument, tonic::Code::InvalidArgument),
        (Code::PermissionDenied, tonic::Code::PermissionDenied),
        (Code::ResourceExhausted, tonic::Code::ResourceExhausted),
        (Code::OutOfRange, tonic::Code::OutOfRange),
        (Code::Internal, tonic::Code::Internal),
        (Code::Transport(15), tonic::Code::DataLoss),
    ] {
        assert_eq!(code.number(), i32::from(number));
    }
}

#[test]
fn a_status_keeps_its_message() {
    let status = Status::new(Code::Internal, "broken");
    assert_eq!((status.code, status.message.as_str()), (Code::Internal, "broken"));
}
