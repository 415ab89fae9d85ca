//! Path construction: the platform-specific template for the live save
//! location, and the layout of the local snapshot store.

use vstd::prelude::*;

use crate::fsm::PathSegs;
use crate::Error;

verus! {

/// The resolved platform path for the given user, as characters: the
/// template with the user-name placeholder substituted.
pub open spec fn data_path_chars(username: Seq<char>) -> Seq<char> {
    "C:/Users/"@ + username + "/AppData/LocalLow/Deadpan Games/Wildfrost/Profiles"@
}

/// The live save base location for the given user, as a display path.
pub fn get_wildfrost_data_path(username: &str) -> (r: String)
    ensures
        r@ == data_path_chars(username@),
{
    let mut out = String::new();
    out.append("C:/Users/");
    out.append(username);
    out.append("/AppData/LocalLow/Deadpan Games/Wildfrost/Profiles");
    proof {
        assert(out@ =~= data_path_chars(username@));
    }
    out
}

/// The live save base location, as path segments.
pub open spec fn base_segs(username: Seq<char>) -> Seq<Seq<char>> {
    seq![
        "C:"@,
        "Users"@,
        username,
        "AppData"@,
        "LocalLow"@,
        "Deadpan Games"@,
        "Wildfrost"@,
        "Profiles"@,
    ]
}

/// One profile's live save directory, as path segments.
pub open spec fn live_dir_segs(username: Seq<char>, profile: Seq<char>) -> Seq<Seq<char>> {
    base_segs(username).push(profile)
}

/// The root of the local snapshot store.
pub open spec fn saves_root_segs() -> Seq<Seq<char>> {
    seq!["saves"@]
}

/// One profile's snapshot directory under the local store.
pub open spec fn profile_dir_segs(profile: Seq<char>) -> Seq<Seq<char>> {
    saves_root_segs().push(profile)
}

/// One snapshot's directory under its profile.
pub open spec fn snap_dir_segs(profile: Seq<char>, name: Seq<char>) -> Seq<Seq<char>> {
    profile_dir_segs(profile).push(name)
}

/// The name of the metadata sidecar file.
pub open spec fn meta_name() -> Seq<char> {
    "save.meta"@
}

/// The metadata sidecar of one snapshot.
pub open spec fn snap_meta_segs(profile: Seq<char>, name: Seq<char>) -> Seq<Seq<char>> {
    snap_dir_segs(profile, name).push(meta_name())
}

/// The metadata sidecar inside one profile's live save directory.
pub open spec fn live_meta_segs(username: Seq<char>, profile: Seq<char>) -> Seq<Seq<char>> {
    live_dir_segs(username, profile).push(meta_name())
}

/// The persisted profile-context status file.
pub open spec fn status_file_segs() -> Seq<Seq<char>> {
    seq!["status.json"@]
}

/// The live save base location for the given user, segment by segment.
pub fn base_path(username: &str) -> (r: PathSegs)
    ensures
        r.deep_view() == base_segs(username@),
{
    let mut out: PathSegs = Vec::new();
    out.push(String::from_str("C:"));
    out.push(String::from_str("Users"));
    out.push(String::from_str(username));
    out.push(String::from_str("AppData"));
    out.push(String::from_str("LocalLow"));
    out.push(String::from_str("Deadpan Games"));
    out.push(String::from_str("Wildfrost"));
    out.push(String::from_str("Profiles"));
    proof {
        assert(out.deep_view() =~= base_segs(username@));
    }
    out
}

/// One profile's live save directory, segment by segment.
pub fn live_dir_path(username: &str, profile: &str) -> (r: PathSegs)
    ensures
        r.deep_view() == live_dir_segs(username@, profile@),
{
    let mut out = base_path(username);
    out.push(String::from_str(profile));
    proof {
        assert(out.deep_view() =~= live_dir_segs(username@, profile@));
    }
    out
}

/// One profile's snapshot directory, segment by segment.
pub fn profile_dir_path(profile: &str) -> (r: PathSegs)
    ensures
        r.deep_view() == profile_dir_segs(profile@),
{
    let mut out: PathSegs = Vec::new();
    out.push(String::from_str("saves"));
    out.push(String::from_str(profile));
    proof {
        assert(out.deep_view() =~= profile_dir_segs(profile@));
    }
    out
}

/// One snapshot's directory, segment by segment.
pub fn snap_dir_path(profile: &str, name: &str) -> (r: PathSegs)
    ensures
        r.deep_view() == snap_dir_segs(profile@, name@),
{
    let mut out = profile_dir_path(profile);
    out.push(String::from_str(name));
    proof {
        assert(out.deep_view() =~= snap_dir_segs(profile@, name@));
    }
    out
}

/// The live save directory for the given profile, resolved against the
/// user's identity; fails when the required identity value is unavailable.
/// The resolved path is not guaranteed to exist: callers check before use.
pub fn live_save_directory(username: Option<&str>, profile: &str) -> (r: Result<PathSegs, Error>)
    ensures
        match r {
            Ok(p) => username is Some && p.deep_view() == live_dir_segs(username->0@, profile@),
            Err(e) => e == Error::Environment && username is None,
        },
{
    match username {
        Some(u) => Ok(live_dir_path(u, profile)),
        None => Err(Error::Environment),
    }
}

/// The status file's path, segment by segment.
pub fn status_file_path() -> (r: PathSegs)
    ensures
        r.deep_view() == status_file_segs(),
{
    let mut out: PathSegs = Vec::new();
    out.push(String::from_str("status.json"));
    proof {
        assert(out.deep_view() =~= status_file_segs());
    }
    out
}

/// Appends the metadata sidecar name to a directory path.
pub fn push_meta_name(dir: &mut PathSegs)
    ensures
        final(dir).deep_view() == old(dir).deep_view().push(meta_name()),
{
    dir.push(String::from_str("save.meta"));
    proof {
        assert(dir.deep_view() =~= old(dir).deep_view().push(meta_name()));
    }
}

} // verus!
