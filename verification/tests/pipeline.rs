use rib::loc::Loc;
use rib::pipeline::{remove_list, rsync_args};
use rib::snapstamp::{parse_snapshot_ts, snapshot_name};

#[test]
fn snapshot_name_renders_and_round_trips() {
    let name = snapshot_name(1000).unwrap();
    assert_eq!(name, "1970-01-01T00:16:40Z");
    assert_eq!(parse_snapshot_ts(&name), Some(1000));
}

#[test]
fn snapshot_name_modern_date() {
    let name = snapshot_name(1704164645).unwrap();
    assert_eq!(name, "2024-01-02T03:04:05Z");
    assert_eq!(parse_snapshot_ts(&name), Some(1704164645));
}

#[test]
fn unparseable_names_are_ignored() {
    assert_eq!(parse_snapshot_ts("current"), None);
    assert_eq!(parse_snapshot_ts("last"), None);
    assert_eq!(parse_snapshot_ts(""), None);
}

#[test]
fn parse_snapshot_ts_reads_the_fixed_format() {
    assert_eq!(parse_snapshot_ts("2024-01-02T03:04:05Z"), Some(1704164645));
}

#[test]
fn remove_list_reference_scenario() {
    // Listing holds the fixture snapshots plus entries retention must
    // ignore; reference time 1000 seconds after the epoch.
    let list: Vec<String> = vec![
        "1970-01-01T00:01:40Z", // 100
        "1970-01-01T00:01:41Z", // 101
        "1970-01-01T00:01:42Z", // 102
        "1970-01-01T00:01:43Z", // 103
        "1970-01-01T00:01:44Z", // 104
        "1970-01-01T00:01:45Z", // 105
        "1970-01-01T00:01:47Z", // 107
        "1970-01-01T00:02:30Z", // 150
        "1970-01-01T00:05:00Z", // 300
        "1970-01-01T00:50:00Z", // 3000
        "current",
        "last",
    ]
    .into_iter()
    .map(str::to_owned)
    .collect();
    let removed = remove_list(list, 1000);
    assert_eq!(
        removed,
        vec![
            "1970-01-01T00:01:45Z",
            "1970-01-01T00:01:44Z",
            "1970-01-01T00:01:43Z",
            "1970-01-01T00:01:42Z",
            "1970-01-01T00:01:41Z",
            "1970-01-01T00:01:40Z",
        ]
    );
}

#[test]
fn remove_list_never_selects_the_fresh_snapshot() {
    let fresh = snapshot_name(1000).unwrap();
    let list = vec![fresh.clone(), "1970-01-01T00:01:40Z".to_owned()];
    let removed = remove_list(list, 1000);
    assert!(!removed.contains(&fresh));
}

#[test]
fn rsync_args_local_fixed_flags() {
    let src = Loc::parse("/src");
    let dst = Loc::parse("/dst");
    let args = rsync_args(&src, &dst, false, &Vec::new());
    assert_eq!(
        args,
        vec![
            "/src",
            "/dst/current",
            "--link-dest=../last",
            "--archive",
            "--compress",
            "--delete-excluded",
            "--filter=dir-merge /.rsync-filter",
            "--filter=-s .rsyncignore",
        ]
    );
}

#[test]
fn rsync_args_remote_with_options() {
    let src = Loc::parse("/src");
    let dst = Loc::parse("host:backups");
    let extra = vec!["--exclude".to_owned(), "tmp".to_owned()];
    let args = rsync_args(&src, &dst, true, &extra);
    assert_eq!(
        args,
        vec![
            "/src",
            "host:backups/current",
            "--link-dest=../last",
            "--archive",
            "--compress",
            "--delete-excluded",
            "--filter=dir-merge /.rsync-filter",
            "--filter=-s .rsyncignore",
            "--one-file-system",
            "--exclude",
            "tmp",
        ]
    );
}
