use fastwarc_grpc::server::{
    allows_local_files, invalid_root_message, local_file_root, local_files_label,
    remove_stale_socket, unix_socket_path, Cleanup, SocketEntry,
};

#[test]
fn socket_addresses_name_paths() {
    let path = |text: &str| Some(text.to_owned());
    assert_eq!(unix_socket_path("unix:///run/warc.sock"), path("/run/warc.sock"));
    assert_eq!(unix_socket_path("unix:/run/warc.sock"), path("/run/warc.sock"));
    assert_eq!(unix_socket_path("/run/warc.sock"), path("/run/warc.sock"));
    assert_eq!(unix_socket_path("unix:run/warc.sock"), path("run/warc.sock"));
    assert_eq!(unix_socket_path("unix://warc.sock"), path("warc.sock"));
    assert_eq!(unix_socket_path("unix:"), path(""));
}

#[test]
fn other_addresses_name_no_path() {
    for addr in ["[::]:50061", "", "localhost:1", "run/warc.sock", "UNIX:/run/warc.sock", "unix"] {
        assert_eq!(unix_socket_path(addr), None, "address {addr}");
    }
}

#[test]
fn stale_socket_cleanup_preserves_other_files() {
    let path = "/run/server.sock";
    assert!(matches!(remove_stale_socket(path, SocketEntry::Missing), Cleanup::Keep));
    let Cleanup::Refuse(message) = remove_stale_socket(path, SocketEntry::Other) else {
        panic!("something else was not preserved");
    };
    assert_eq!(message, "/run/server.sock already exists and is not a unix socket");
    assert!(matches!(remove_stale_socket(path, SocketEntry::Socket), Cleanup::Remove));
    assert!(matches!(remove_stale_socket(path, SocketEntry::Unknown), Cleanup::PassOn));
}

#[test]
fn local_files_have_a_switch() {
    for value in ["1", "true", "TRUE"] {
        assert!(allows_local_files(Some(value)));
    }
    for value in ["", "0", "True", "yes", "11", "true "] {
        assert!(!allows_local_files(Some(value)), "value {value:?}");
    }
    assert!(!allows_local_files(None));
}

#[test]
fn local_files_need_a_directory() {
    let root = || Some("/data".to_owned());
    assert_eq!(local_file_root(true, root()), Ok(root()));
    assert_eq!(local_file_root(false, root()), Ok(None));
    assert_eq!(local_file_root(false, None), Ok(None));
    assert_eq!(
        local_file_root(true, None),
        Err("FASTWARC_GRPC_ALLOW_LOCAL_FILES is set but FASTWARC_GRPC_LOCAL_FILE_ROOT is not; \
             set it to the directory that archive_path requests are confined to"
            .to_owned())
    );
}

#[test]
fn announcements_name_the_directory() {
    assert_eq!(local_files_label(Some("/data")), "confined to /data");
    assert_eq!(local_files_label(None), "disabled");
    assert_eq!(
        invalid_root_message("/data", "gone"),
        "invalid FASTWARC_GRPC_LOCAL_FILE_ROOT /data: gone"
    );
}
