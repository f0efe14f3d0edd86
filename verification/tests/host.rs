use razel::errors::HostError;
use razel::fs_host::FsHost;
use razel::host::{list_all_files, Entry, EntryKind, Host};
use razel::mem_host::{MemHost, TestContents};
use razel::paths::normalize;

fn fixture(entries: Vec<(&str, TestContents)>) -> MemHost {
    let sandbox = FsHost::from("/ws").unwrap();
    let entries: Vec<(String, TestContents)> = entries
        .into_iter()
        .map(|(p, c)| (p.to_owned(), c))
        .collect();
    MemHost::from(sandbox, entries).unwrap()
}

fn file(contents: &str) -> TestContents {
    TestContents::File(contents.to_owned())
}

fn sorted(mut v: Vec<String>) -> Vec<String> {
    v.sort();
    v
}

#[test]
fn read_to_string_reads_file() {
    let host = fixture(vec![("foo.txt", file("Hello, World!"))]);

    assert_eq!(host.read_to_string("foo.txt").unwrap(), "Hello, World!");
}

#[test]
fn read_to_string_reads_nested_file() {
    let host = fixture(vec![("foo/bar/baz.txt", file("Hello, World!"))]);

    assert_eq!(
        host.read_to_string("foo/bar/baz.txt").unwrap(),
        "Hello, World!",
    );
}

#[test]
fn read_to_string_errors_on_missing_file() {
    let host = fixture(vec![]);

    assert!(host.read_to_string("foo.txt").is_err());
    assert!(matches!(
        host.read_to_string("foo.txt"),
        Err(HostError::NotFound { .. })
    ));
}

#[test]
fn read_to_string_errors_on_external_directory() {
    let host = fixture(vec![]);

    assert!(matches!(
        host.read_to_string("/foo"),
        Err(HostError::OutsideWorkspace { .. })
    ));
    assert!(matches!(
        host.read_to_string("foo/../../../bar"),
        Err(HostError::OutsideWorkspace { .. })
    ));
}

#[test]
fn list_finds_files_in_directory() {
    let host = fixture(vec![
        ("foo.txt", file("")),
        ("bar.txt", file("")),
        ("baz/test.txt", file("")),
    ]);

    let mut es = host.list("").unwrap();
    es.sort_by(|a, b| a.path.cmp(&b.path));
    let expected = vec![
        Entry {
            path: "bar.txt".to_owned(),
            kind: EntryKind::File,
        },
        Entry {
            path: "baz".to_owned(),
            kind: EntryKind::Directory,
        },
        Entry {
            path: "foo.txt".to_owned(),
            kind: EntryKind::File,
        },
    ];
    assert_eq!(es, expected);
}

#[test]
fn list_finds_files_in_subdirectory() {
    let host = fixture(vec![
        ("dir/foo.txt", file("")),
        ("dir/bar.txt", file("")),
        ("dir/baz/test.txt", file("")),
    ]);

    let mut es = host.list("dir").unwrap();
    es.sort_by(|a, b| a.path.cmp(&b.path));
    let expected = vec![
        Entry {
            path: "dir/bar.txt".to_owned(),
            kind: EntryKind::File,
        },
        Entry {
            path: "dir/baz".to_owned(),
            kind: EntryKind::Directory,
        },
        Entry {
            path: "dir/foo.txt".to_owned(),
            kind: EntryKind::File,
        },
    ];
    assert_eq!(es, expected);
}

#[test]
fn list_errors_on_missing_directory() {
    let host = fixture(vec![]);

    assert!(matches!(
        host.list("does/not/exist"),
        Err(HostError::NotFound { .. })
    ));
}

#[test]
fn list_errors_on_external_directory() {
    let host = fixture(vec![]);

    assert!(matches!(
        host.list("/foo"),
        Err(HostError::OutsideWorkspace { .. })
    ));
    assert!(matches!(
        host.list("foo/../../../bar"),
        Err(HostError::OutsideWorkspace { .. })
    ));
}

#[test]
fn find_all_files_finds_recursive_files_in_root_directory() {
    let host = fixture(vec![
        ("foo/bar/baz.txt", file("")),
        ("foo/bar/hello/world.txt", file("")),
        ("not/included.txt", file("")),
    ]);

    assert_eq!(
        sorted(list_all_files(&host, "").unwrap()),
        vec![
            "foo/bar/baz.txt".to_owned(),
            "foo/bar/hello/world.txt".to_owned(),
            "not/included.txt".to_owned(),
        ],
    );
}

#[test]
fn find_all_files_finds_recursive_files_in_subdirectory() {
    let host = fixture(vec![
        ("foo/bar/baz.txt", file("")),
        ("foo/bar/hello/world.txt", file("")),
        ("not/included.txt", file("")),
    ]);

    assert_eq!(
        sorted(list_all_files(&host, "foo").unwrap()),
        vec![
            "foo/bar/baz.txt".to_owned(),
            "foo/bar/hello/world.txt".to_owned(),
        ],
    );
}

#[test]
fn find_all_files_empty_directory_returns_no_files() {
    let host = fixture(vec![
        ("foo", TestContents::Directory),
        ("not/included.txt", file("")),
    ]);

    assert!(list_all_files(&host, "foo").unwrap().is_empty());
}

#[test]
fn find_all_files_nonexistent_directory_errors() {
    let host = fixture(vec![]);

    let err = list_all_files(&host, "foo").unwrap_err();
    match &err {
        HostError::NotFound { path } => assert_eq!(path, "foo"),
        other => panic!("expected NotFound, got {:?}", other),
    }
    assert!(err.message().contains("No such file"));
    assert!(err.message().contains("foo"));
}

#[test]
fn test_dir_errors_on_duplicate_files() {
    let sandbox = FsHost::from("/ws").unwrap();
    let err = MemHost::from(
        sandbox,
        vec![
            ("foo.txt".to_owned(), file("bar")),
            ("foo.txt".to_owned(), file("baz")),
        ],
    )
    .unwrap_err();

    assert!(err.message.contains("provided twice"));
}

#[test]
fn normalize_reduces_dot_and_dotdot_segments() {
    assert_eq!(normalize("/a/./b/../c").unwrap(), "/a/c");
}

#[test]
fn normalize_is_idempotent_on_examples() {
    for p in ["/a/./b/../c", "/", "/x//y/", "/../..", "/a/b/c"] {
        let once = normalize(p).unwrap();
        assert_eq!(normalize(&once).unwrap(), once);
    }
}

#[test]
fn normalize_is_lenient_at_the_root() {
    assert_eq!(normalize("/../a").unwrap(), "/a");
    assert_eq!(normalize("/..").unwrap(), "/");
}

#[test]
fn normalize_rejects_relative_paths() {
    assert!(matches!(
        normalize("relative/path"),
        Err(HostError::InvalidPath { .. })
    ));
    let err = normalize("").unwrap_err();
    assert!(err.message().contains("cannot be made absolute"));
}

#[test]
fn resolve_strips_the_workspace_root() {
    let sandbox = FsHost::from("/ws/root").unwrap();
    assert_eq!(sandbox.resolve("a/b.txt").unwrap(), vec!["a", "b.txt"]);
    assert_eq!(sandbox.resolve("a/../b").unwrap(), vec!["b"]);
    assert!(matches!(
        sandbox.resolve("a/../../escape"),
        Err(HostError::OutsideWorkspace { .. })
    ));
}

#[test]
fn escaping_paths_are_rejected_before_any_access() {
    // the sandbox invariant on a workspace root `/ws`
    let host = fixture(vec![("foo/inner.txt", file("x"))]);
    for p in ["/abs", "foo/../../../bar", "../ws2/x", ".."] {
        assert!(matches!(
            host.read_to_string(p),
            Err(HostError::OutsideWorkspace { .. })
        ));
        assert!(matches!(
            host.list(p),
            Err(HostError::OutsideWorkspace { .. })
        ));
    }
    // escaping and coming back under the root is lexically inside
    assert_eq!(host.read_to_string("../ws/foo/inner.txt").unwrap(), "x");
}

#[test]
fn io_failure_when_reading_a_directory_as_a_file() {
    let host = fixture(vec![("dir/file.txt", file(""))]);
    assert!(matches!(
        host.read_to_string("dir"),
        Err(HostError::IoFailure { .. })
    ));
    assert!(matches!(
        host.list("dir/file.txt"),
        Err(HostError::IoFailure { .. })
    ));
}

#[test]
fn fixture_file_colliding_with_directory_errors() {
    let sandbox = FsHost::from("/ws").unwrap();
    let err = MemHost::from(
        sandbox,
        vec![
            ("a/b.txt".to_owned(), file("x")),
            ("a/b.txt/c.txt".to_owned(), file("y")),
        ],
    )
    .unwrap_err();
    assert!(err.message.contains("collides"));
}

#[test]
fn fixture_ignores_directories_already_created_by_other_files() {
    let host = fixture(vec![
        ("foo/bar.txt", file("bar")),
        ("foo", TestContents::Directory),
    ]);
    assert_eq!(host.read_to_string("foo/bar.txt").unwrap(), "bar");
}

#[test]
fn fixture_file_at_the_root_errors() {
    let sandbox = FsHost::from("/ws").unwrap();
    let err = MemHost::from(sandbox, vec![(".".to_owned(), file("x"))]).unwrap_err();
    assert!(err.message.contains("fixture root"));
    assert!(err.message.contains("."));
}
