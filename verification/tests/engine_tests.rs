use wildfrost_saves::context::Context;
use wildfrost_saves::engine::{clear, get_current, get_profiles, get_snapshots, restore, snapshot};
use wildfrost_saves::fsm::{Fs, FsEntry};
use wildfrost_saves::paths::live_save_directory;
use wildfrost_saves::snapshot::SnapShot;
use wildfrost_saves::Error;

const USER: &str = "alice";
const PROFILE: &str = "Default";

fn segs(parts: &[&str]) -> Vec<String> {
    parts.iter().map(|p| p.to_string()).collect()
}

fn base(parts: &[&str]) -> Vec<String> {
    let mut v = segs(&["C:", "Users", USER, "AppData", "LocalLow", "Deadpan Games", "Wildfrost",
        "Profiles"]);
    v.extend(parts.iter().map(|p| p.to_string()));
    v
}

fn record(index: u32, name: &str, date: &str) -> SnapShot {
    SnapShot { index, name: name.to_string(), date: date.to_string() }
}

/// A store holding the base location, one profile's live directory, and a
/// small tree of save files inside it.
fn demo_fs() -> Fs {
    Fs {
        entries: vec![
            (base(&[]), FsEntry::Dir),
            (base(&[PROFILE]), FsEntry::Dir),
            (base(&[PROFILE, "slot1.sav"]), FsEntry::File("data1".to_string())),
            (base(&[PROFILE, "sub"]), FsEntry::Dir),
            (base(&[PROFILE, "sub", "deep.sav"]), FsEntry::File("deep".to_string())),
        ],
    }
}

fn file_contents(fs: &Fs, path: &Vec<String>) -> Option<String> {
    fs.get_file(path).cloned()
}

#[test]
fn set_active_then_current_returns_it() {
    let mut fs = Fs::empty();
    let mut ctx = Context::init(&mut fs).unwrap();
    assert_eq!(ctx.current().as_str(), "Default");
    ctx.set_profile(&mut fs, "Alpha").unwrap();
    assert_eq!(ctx.current().as_str(), "Alpha");
}

#[test]
fn active_profile_survives_restart() {
    let mut fs = Fs::empty();
    let mut ctx = Context::init(&mut fs).unwrap();
    ctx.set_profile(&mut fs, "Alpha").unwrap();
    drop(ctx);
    let reloaded = Context::init(&mut fs).unwrap();
    assert_eq!(reloaded.current().as_str(), "Alpha");
}

#[test]
fn copy_tree_mirrors_paths_and_contents() {
    let mut fs = demo_fs();
    let dst = segs(&["saves", PROFILE, "snap"]);
    fs.copy_tree(&base(&[PROFILE]), &dst).unwrap();
    assert!(fs.is_dir(&segs(&["saves", PROFILE, "snap"])));
    assert!(fs.is_dir(&segs(&["saves", PROFILE, "snap", "sub"])));
    assert_eq!(
        file_contents(&fs, &segs(&["saves", PROFILE, "snap", "slot1.sav"])),
        Some("data1".to_string())
    );
    assert_eq!(
        file_contents(&fs, &segs(&["saves", PROFILE, "snap", "sub", "deep.sav"])),
        Some("deep".to_string())
    );
    // the source is untouched
    assert_eq!(file_contents(&fs, &base(&[PROFILE, "slot1.sav"])), Some("data1".to_string()));
}

#[test]
fn capture_then_list_includes_record() {
    let mut fs = demo_fs();
    let ctx = Context::init(&mut fs).unwrap();
    let s = record(1, "first", "2024-05-05");
    snapshot(&mut fs, &ctx, Some(USER), &s).unwrap();
    let listed = get_snapshots(&fs, &ctx).unwrap();
    assert!(listed.contains(&s));
}

#[test]
fn capture_delete_then_list_excludes_record() {
    let mut fs = demo_fs();
    let ctx = Context::init(&mut fs).unwrap();
    let s = record(2, "doomed", "2024-06-06");
    snapshot(&mut fs, &ctx, Some(USER), &s).unwrap();
    clear(&mut fs, &ctx, "doomed");
    let listed = get_snapshots(&fs, &ctx).unwrap();
    assert!(!listed.contains(&s));
}

#[test]
fn delete_of_absent_name_succeeds() {
    let mut fs = demo_fs();
    let ctx = Context::init(&mut fs).unwrap();
    clear(&mut fs, &ctx, "never-existed");
    assert!(get_snapshots(&fs, &ctx).unwrap().is_empty());
}

#[test]
fn restore_brings_back_snapshot_and_keeps_additions() {
    let mut fs = demo_fs();
    let ctx = Context::init(&mut fs).unwrap();
    let s = record(4, "stable", "2024-07-07");
    snapshot(&mut fs, &ctx, Some(USER), &s).unwrap();
    // mutate the live directory after the capture
    fs.write_file(&base(&[PROFILE, "slot1.sav"]), "changed".to_string()).unwrap();
    fs.write_file(&base(&[PROFILE, "extra.sav"]), "extra".to_string()).unwrap();
    restore(&mut fs, &ctx, Some(USER), &s).unwrap();
    // snapshot-time contents are back
    assert_eq!(file_contents(&fs, &base(&[PROFILE, "slot1.sav"])), Some("data1".to_string()));
    assert_eq!(
        file_contents(&fs, &base(&[PROFILE, "sub", "deep.sav"])),
        Some("deep".to_string())
    );
    // the file added after the capture is left in place (merge, not mirror)
    assert_eq!(file_contents(&fs, &base(&[PROFILE, "extra.sav"])), Some("extra".to_string()));
}

#[test]
fn fresh_profile_lists_empty_not_error() {
    let fs = demo_fs();
    let mut init_fs = Fs::empty();
    let ctx = Context::init(&mut init_fs).unwrap();
    let listed = get_snapshots(&fs, &ctx).unwrap();
    assert!(listed.is_empty());
}

#[test]
fn capture_example_writes_tree_and_exact_metadata() {
    let mut fs = demo_fs();
    let ctx = Context::init(&mut fs).unwrap();
    let s = record(3, "before-boss", "2024-01-01");
    snapshot(&mut fs, &ctx, Some(USER), &s).unwrap();
    assert!(fs.is_dir(&segs(&["saves"])));
    assert!(fs.is_dir(&segs(&["saves", "Default"])));
    assert!(fs.is_dir(&segs(&["saves", "Default", "before-boss"])));
    assert_eq!(
        file_contents(&fs, &segs(&["saves", "Default", "before-boss", "slot1.sav"])),
        Some("data1".to_string())
    );
    assert_eq!(
        file_contents(&fs, &segs(&["saves", "Default", "before-boss", "save.meta"])),
        Some("{\"index\":3,\"name\":\"before-boss\",\"date\":\"2024-01-01\"}".to_string())
    );
    let listed = get_snapshots(&fs, &ctx).unwrap();
    assert_eq!(listed.len(), 1);
    assert_eq!(listed[0], s);
}

#[test]
fn current_index_none_when_sidecar_absent() {
    let mut fs = demo_fs();
    let ctx = Context::init(&mut fs).unwrap();
    assert_eq!(get_current(&fs, &ctx, Some(USER)), Ok(None));
}

#[test]
fn current_index_reads_sidecar() {
    let mut fs = demo_fs();
    let ctx = Context::init(&mut fs).unwrap();
    let doc = "{\"index\":7,\"name\":\"n\",\"date\":\"d\"}".to_string();
    fs.write_file(&base(&[PROFILE, "save.meta"]), doc).unwrap();
    assert_eq!(get_current(&fs, &ctx, Some(USER)), Ok(Some(7)));
}

#[test]
fn current_index_malformed_sidecar_is_parse_error() {
    let mut fs = demo_fs();
    let ctx = Context::init(&mut fs).unwrap();
    fs.write_file(&base(&[PROFILE, "save.meta"]), "garbage".to_string()).unwrap();
    assert_eq!(get_current(&fs, &ctx, Some(USER)), Err(Error::Parse));
}

#[test]
fn profiles_lists_directories_only() {
    let mut fs = demo_fs();
    fs.entries.push((base(&["Second"]), FsEntry::Dir));
    fs.entries.push((base(&["notes.txt"]), FsEntry::File("x".to_string())));
    let names = get_profiles(&fs, Some(USER)).unwrap();
    assert!(names.contains(&PROFILE.to_string()));
    assert!(names.contains(&"Second".to_string()));
    assert!(!names.contains(&"notes.txt".to_string()));
}

#[test]
fn profiles_missing_base_is_io_error() {
    let fs = Fs::empty();
    assert_eq!(get_profiles(&fs, Some(USER)), Err(Error::Io));
}

#[test]
fn missing_username_is_environment_error() {
    let mut fs = demo_fs();
    let ctx = Context::init(&mut fs).unwrap();
    assert_eq!(get_current(&fs, &ctx, None), Err(Error::Environment));
    assert_eq!(get_profiles(&fs, None), Err(Error::Environment));
    let s = record(5, "x", "d");
    assert_eq!(snapshot(&mut fs, &ctx, None, &s), Err(Error::Environment));
    assert_eq!(restore(&mut fs, &ctx, None, &s), Err(Error::Environment));
}

#[test]
fn capture_without_live_directory_is_io_error() {
    let mut fs = Fs::empty();
    let ctx = Context::init(&mut fs).unwrap();
    let s = record(6, "nowhere", "d");
    assert_eq!(snapshot(&mut fs, &ctx, Some(USER), &s), Err(Error::Io));
}

#[test]
fn snapshot_directory_without_sidecar_is_skipped() {
    let mut fs = demo_fs();
    let ctx = Context::init(&mut fs).unwrap();
    fs.entries.push((segs(&["saves"]), FsEntry::Dir));
    fs.entries.push((segs(&["saves", PROFILE]), FsEntry::Dir));
    fs.entries.push((segs(&["saves", PROFILE, "half-copied"]), FsEntry::Dir));
    let listed = get_snapshots(&fs, &ctx).unwrap();
    assert!(listed.is_empty());
}

#[test]
fn malformed_status_file_is_parse_error() {
    let mut fs = Fs {
        entries: vec![(segs(&["status.json"]), FsEntry::File("garbage".to_string()))],
    };
    assert!(matches!(Context::init(&mut fs), Err(Error::Parse)));
}

#[test]
fn directory_as_status_file_is_io_error() {
    let mut fs = Fs { entries: vec![(segs(&["status.json"]), FsEntry::Dir)] };
    assert!(matches!(Context::init(&mut fs), Err(Error::Io)));
}

#[test]
fn copy_over_entry_of_other_kind_is_io_error() {
    let mut fs = demo_fs();
    fs.entries.push((segs(&["saves"]), FsEntry::Dir));
    fs.entries.push((segs(&["saves", PROFILE]), FsEntry::Dir));
    fs.entries.push((segs(&["saves", PROFILE, "snap"]), FsEntry::File("x".to_string())));
    let before = fs.entries.len();
    let r = fs.copy_tree(&base(&[PROFILE]), &segs(&["saves", PROFILE, "snap"]));
    assert_eq!(r, Err(Error::Io));
    assert_eq!(fs.entries.len(), before);
}

#[test]
fn directory_as_sidecar_is_io_error() {
    let mut fs = demo_fs();
    let ctx = Context::init(&mut fs).unwrap();
    fs.entries.push((segs(&["saves"]), FsEntry::Dir));
    fs.entries.push((segs(&["saves", PROFILE]), FsEntry::Dir));
    fs.entries.push((segs(&["saves", PROFILE, "odd"]), FsEntry::Dir));
    fs.entries.push((segs(&["saves", PROFILE, "odd", "save.meta"]), FsEntry::Dir));
    assert_eq!(get_snapshots(&fs, &ctx), Err(Error::Io));
}

#[test]
fn resolver_needs_the_user_identity() {
    assert!(matches!(live_save_directory(None, PROFILE), Err(Error::Environment)));
    let p = live_save_directory(Some(USER), PROFILE).unwrap();
    assert_eq!(p, base(&[PROFILE]));
}
