use fastwarc_grpc::paths::relative_archive_path;
use fastwarc_grpc::status::{Code, Status};

const ROOT: &str = "/srv/archives";

fn denied() -> Result<String, Status> {
    Err(Status::new(
        Code::PermissionDenied,
        "archive_path must stay inside the configured local file root",
    ))
}

fn served(path: &str) -> Result<String, Status> {
    Ok(path.to_owned())
}

#[test]
fn relative_paths_are_kept_as_they_are() {
    for path in ["warcfile.warc", "a/b.warc", "./a.warc", "a//b/", "a/./b", ".", "", "..a/b.."] {
        assert_eq!(relative_archive_path(ROOT, path), served(path));
    }
}

#[test]
fn absolute_paths_lose_the_root() {
    for (path, relative) in [
        ("/srv/archives/warcfile.warc", "warcfile.warc"),
        ("/srv/archives/a/b.warc", "a/b.warc"),
        ("//srv//archives///a//b.warc", "a//b.warc"),
        ("/srv/./archives/./a/./b.warc/.", "a/./b.warc"),
        ("/srv/archives/a/", "a"),
        ("/srv/archives", ""),
        ("/srv/archives/", ""),
    ] {
        assert_eq!(relative_archive_path(ROOT, path), served(relative), "path {path}");
    }
}

#[test]
fn absolute_paths_outside_the_root_are_denied() {
    for path in ["/", "/srv", "/srv/archives2/a.warc", "/srv/archive", "/etc/passwd", "/archives"] {
        assert_eq!(relative_archive_path(ROOT, path), denied(), "path {path}");
    }
}

#[test]
fn parent_components_are_denied() {
    for path in [
        "..",
        "../data/warcfile.warc",
        "a/../b",
        "a/..",
        "/srv/archives/../archives/a.warc",
        "/srv/archives/a/..",
    ] {
        assert_eq!(relative_archive_path(ROOT, path), denied(), "path {path}");
    }
}

#[test]
fn a_trailing_slash_of_the_root_is_of_no_account() {
    assert_eq!(relative_archive_path("/srv/archives/", "/srv/archives/a"), served("a"));
    assert_eq!(relative_archive_path("/", "/a/b"), served("a/b"));
}

#[test]
fn names_are_compared_by_character() {
    assert_eq!(relative_archive_path("/data/größe", "/data/größe/ü.warc"), served("ü.warc"));
    assert_eq!(relative_archive_path("/data/größe", "/data/grösse/ü.warc"), denied());
}

#[test]
fn full_and_relative_spellings_open_the_same_file() {
    for (relative, opened) in [("a.warc", "a.warc"), ("./a.warc", "a.warc"), ("b/c", "b/c"), ("", "")] {
        assert_eq!(relative_archive_path(ROOT, relative), served(relative));
        assert_eq!(relative_archive_path(ROOT, &format!("{ROOT}/{relative}")), served(opened));
    }
}
