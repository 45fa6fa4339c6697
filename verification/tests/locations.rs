use rib::loc::Loc;

#[test]
fn absolute_path_with_colon_is_local() {
    match Loc::parse("/home/u:x") {
        Loc::Local { path } => assert_eq!(path, "/home/u:x"),
        Loc::Ssh { .. } => panic!("expected a local location"),
    }
}

#[test]
fn host_and_path_is_remote() {
    let l = Loc::parse("host:backups");
    match &l {
        Loc::Ssh { path, colon } => {
            assert_eq!(path, "host:backups");
            assert_eq!(*colon, 4);
        }
        Loc::Local { .. } => panic!("expected a remote location"),
    }
    assert_eq!(l.host(), "host");
    assert_eq!(l.fs_root(), "backups");
}

#[test]
fn user_at_host_is_remote() {
    let l = Loc::parse("user@host.example:/srv/b");
    assert_eq!(l.host(), "user@host.example");
    assert_eq!(l.fs_root(), "/srv/b");
}

#[test]
fn relative_path_is_local() {
    match Loc::parse("relative/path") {
        Loc::Local { path } => assert_eq!(path, "relative/path"),
        Loc::Ssh { .. } => panic!("expected a local location"),
    }
}

#[test]
fn join_appends_with_separator() {
    let l = Loc::parse("/data").join("current");
    assert_eq!(l.as_str(), "/data/current");
}

#[test]
fn join_keeps_remote_backend() {
    let l = Loc::parse("host:backups").join("current");
    match &l {
        Loc::Ssh { colon, .. } => assert_eq!(*colon, 4),
        Loc::Local { .. } => panic!("expected a remote location"),
    }
    assert_eq!(l.as_str(), "host:backups/current");
    assert_eq!(l.fs_root(), "backups/current");
}

#[test]
fn join_avoids_doubled_separator() {
    let l = Loc::parse("/data/").join("current");
    assert_eq!(l.as_str(), "/data/current");
}

#[test]
fn remote_rename_command() {
    let l = rib::loc::Loc::parse("host:backups");
    assert_eq!(
        l.remote_rename_args("current", "1970-01-01T00:16:40Z"),
        vec!["mv", "backups/current", "backups/1970-01-01T00:16:40Z"]
    );
}

#[test]
fn link_command_places_link_under_root() {
    let l = rib::loc::Loc::parse("/data");
    assert_eq!(
        l.link_args("last", "1970-01-01T00:16:40Z"),
        vec![
            "--force",
            "--no-dereference",
            "--symbolic",
            "1970-01-01T00:16:40Z",
            "/data/last",
        ]
    );
}

#[test]
fn remote_list_command() {
    let l = rib::loc::Loc::parse("host:backups");
    assert_eq!(l.remote_list_args(), vec!["ls", "-1", "backups"]);
}

#[test]
fn remote_remove_command_carries_all_names() {
    let l = rib::loc::Loc::parse("host:backups");
    let names = vec!["a".to_owned(), "b".to_owned()];
    assert_eq!(
        l.remote_remove_args(&names),
        vec!["rm", "-rf", "backups/a", "backups/b"]
    );
}

#[test]
fn split_lines_matches_line_splitting() {
    assert_eq!(rib::loc::split_lines(""), vec![""]);
    assert_eq!(rib::loc::split_lines("a\nb"), vec!["a", "b"]);
    assert_eq!(rib::loc::split_lines("a\nb\n"), vec!["a", "b", ""]);
}

#[test]
fn join_on_empty_base() {
    let l = Loc::parse("").join("x");
    assert_eq!(l.as_str(), "x");
}
