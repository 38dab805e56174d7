use golangci_cmd::path::compact_path;

#[test]
fn test_compact_path() {
    assert_eq!(
        compact_path("/Users/foo/project/pkg/handler/server.go"),
        "pkg/handler/server.go"
    );
    assert_eq!(
        compact_path("/home/user/app/cmd/main/main.go"),
        "cmd/main/main.go"
    );
    assert_eq!(
        compact_path("/project/internal/config/loader.go"),
        "internal/config/loader.go"
    );
    assert_eq!(compact_path("relative/file.go"), "file.go");
}

#[test]
fn windows_paths_count_as_others() {
    assert_eq!(compact_path("C:\\work\\pkg\\a\\b.go"), "pkg/a/b.go");
    assert_eq!(compact_path("dir\\file.go"), "file.go");
    assert_eq!(compact_path("C:/work/pkg/a/b.go"), compact_path("C:\\work\\pkg\\a\\b.go"));
}

#[test]
fn the_last_known_directory_counts() {
    assert_eq!(compact_path("/a/pkg/b/pkg/c.go"), "pkg/c.go");
    assert_eq!(compact_path("/a/pkg/pkg/c.go"), "pkg/c.go");
    assert_eq!(compact_path("/a/pkg/b/cmd/c.go"), "pkg/b/cmd/c.go");
    assert_eq!(compact_path("/a/internal/b/cmd/c.go"), "cmd/c.go");
}

#[test]
fn a_leading_directory_is_no_known_one() {
    assert_eq!(compact_path("pkg/a/b.go"), "b.go");
    assert_eq!(compact_path("main.go"), "main.go");
    assert_eq!(compact_path(""), "");
    assert_eq!(compact_path("/x/"), "");
}
