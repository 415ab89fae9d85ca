//! The snapshot engine: list profiles and snapshots, read the live save's
//! current snapshot index, capture, restore and delete snapshots, all
//! scoped to the active profile.

use vstd::prelude::*;

use crate::codec::{
    lemma_record_roundtrip, parse_record, record_doc, record_to_document, spec_parse_record,
};
use crate::context::Context;
use crate::fsm::{
    child_dir_in, copied_map, copy_allowed, file_at, remove_subtree, write_allowed, EntryView, Fs,
};
use crate::paths::{
    base_path, base_segs, live_dir_path, live_dir_segs, live_meta_segs, meta_name,
    profile_dir_path, profile_dir_segs, push_meta_name, snap_dir_path, snap_dir_segs,
    snap_meta_segs,
};
use crate::snapshot::{SnapShot, SnapShotView};
use crate::Error;

verus! {

/// A record that a listing of the given profile's snapshots includes: some
/// snapshot directory holds a metadata file that parses to it.
pub open spec fn listed(
    m: Map<Seq<Seq<char>>, EntryView>,
    profile: Seq<char>,
    v: SnapShotView,
) -> bool {
    exists|nm: Seq<char>|
        #[trigger] child_dir_in(m, profile_dir_segs(profile), nm) && file_at(
            m,
            snap_meta_segs(profile, nm),
        ) is Some && spec_parse_record(file_at(m, snap_meta_segs(profile, nm))->0) == Some(v)
}

/// Every snapshot directory of the profile can be listed: its metadata
/// file, where present, is a file and parses.
pub open spec fn list_clean(m: Map<Seq<Seq<char>>, EntryView>, profile: Seq<char>) -> bool {
    forall|nm: Seq<char>|
        #[trigger] child_dir_in(m, profile_dir_segs(profile), nm) ==> {
            &&& !(m.contains_key(snap_meta_segs(profile, nm)) && m[snap_meta_segs(profile, nm)]
                is Dir)
            &&& (file_at(m, snap_meta_segs(profile, nm)) is Some ==> spec_parse_record(
                file_at(m, snap_meta_segs(profile, nm))->0,
            ) is Some)
        }
}

/// The store after a capture: the live tree merge-copied into the snapshot
/// directory, and the record's document written as its metadata sidecar.
pub open spec fn capture_map(
    m: Map<Seq<Seq<char>>, EntryView>,
    username: Seq<char>,
    profile: Seq<char>,
    v: SnapShotView,
) -> Map<Seq<Seq<char>>, EntryView> {
    copied_map(m, live_dir_segs(username, profile), snap_dir_segs(profile, v.name)).insert(
        snap_meta_segs(profile, v.name),
        EntryView::File(record_doc(v)),
    )
}

/// The current snapshot index of the active profile's live save: the
/// `index` field of the live directory's metadata sidecar, `None` when the
/// sidecar is absent.
pub fn get_current(fs: &Fs, ctx: &Context, username: Option<&str>) -> (r: Result<
    Option<u32>,
    Error,
>)
    requires
        fs.wf(),
    ensures
        match r {
            Ok(opt) => username is Some && (match file_at(
                fs@,
                live_meta_segs(username->0@, ctx@),
            ) {
                Some(c) => spec_parse_record(c) is Some && opt == Some(
                    spec_parse_record(c)->0.index,
                ),
                None => opt is None && !fs@.contains_key(live_meta_segs(username->0@, ctx@)),
            }),
            Err(e) => (e == Error::Environment && username is None) || (username is Some && ((e
                == Error::Io && fs@.contains_key(live_meta_segs(username->0@, ctx@)) && fs@[
                live_meta_segs(username->0@, ctx@)
            ] is Dir) || (e == Error::Parse && file_at(fs@, live_meta_segs(username->0@, ctx@))
                is Some && spec_parse_record(
                file_at(fs@, live_meta_segs(username->0@, ctx@))->0,
            ) is None))),
        },
{
    let u = match username {
        Some(u) => u,
        None => {
            return Err(Error::Environment);
        },
    };
    let mut meta = live_dir_path(u, ctx.current().as_str());
    push_meta_name(&mut meta);
    proof {
        assert(meta.deep_view() == live_meta_segs(u@, ctx@));
    }
    match fs.lookup_file(&meta) {
        Ok(Some(content)) => match parse_record(content.as_str()) {
            Ok(snap) => Ok(Some(snap.index)),
            Err(_) => Err(Error::Parse),
        },
        Ok(None) => Ok(None),
        Err(e) => Err(e),
    }
}

/// The snapshots of the active profile: one record per snapshot directory
/// that carries a metadata file. A profile with no snapshot directory at
/// all yields the empty listing, not an error.
pub fn get_snapshots(fs: &Fs, ctx: &Context) -> (r: Result<Vec<SnapShot>, Error>)
    requires
        fs.wf(),
    ensures
        match r {
            Ok(v) => list_clean(fs@, ctx@) && (forall|w: SnapShotView|
                v.deep_view().contains(w) <==> listed(fs@, ctx@, w)),
            Err(e) => !list_clean(fs@, ctx@) && (e == Error::Parse || e == Error::Io) && (e
                == Error::Parse ==> exists|nm: Seq<char>|
                #[trigger] child_dir_in(fs@, profile_dir_segs(ctx@), nm) && file_at(
                    fs@,
                    snap_meta_segs(ctx@, nm),
                ) is Some && spec_parse_record(file_at(fs@, snap_meta_segs(ctx@, nm))->0) is None)
                && (e == Error::Io ==> exists|nm: Seq<char>|
                #[trigger] child_dir_in(fs@, profile_dir_segs(ctx@), nm) && fs@.contains_key(
                    snap_meta_segs(ctx@, nm),
                ) && fs@[snap_meta_segs(ctx@, nm)] is Dir),
        },
{
    let profile_dir = profile_dir_path(ctx.current().as_str());
    let names = fs.children_dirs(&profile_dir);
    let mut results: Vec<SnapShot> = Vec::new();
    let count = names.len();
    let mut k: usize = 0;
    while k < count
        invariant
            fs.wf(),
            count == names@.len(),
            0 <= k <= count,
            forall|j: int|
                0 <= j < names.deep_view().len() ==> child_dir_in(
                    fs@,
                    profile_dir_segs(ctx@),
                    #[trigger] names.deep_view()[j],
                ),
            forall|nm: Seq<char>|
                child_dir_in(fs@, profile_dir_segs(ctx@), nm) ==> names.deep_view().contains(nm),
            forall|w: SnapShotView|
                #[trigger] results.deep_view().contains(w) ==> listed(fs@, ctx@, w),
            forall|j: int|
                0 <= j < k ==> {
                    &&& !(fs@.contains_key(snap_meta_segs(ctx@, #[trigger] names.deep_view()[j]))
                        && fs@[snap_meta_segs(ctx@, names.deep_view()[j])] is Dir)
                    &&& (file_at(fs@, snap_meta_segs(ctx@, names.deep_view()[j])) is Some
                        ==> spec_parse_record(
                        file_at(fs@, snap_meta_segs(ctx@, names.deep_view()[j]))->0,
                    ) is Some)
                    &&& (file_at(fs@, snap_meta_segs(ctx@, names.deep_view()[j])) is Some
                        ==> results.deep_view().contains(
                        spec_parse_record(
                            file_at(fs@, snap_meta_segs(ctx@, names.deep_view()[j]))->0,
                        )->0,
                    ))
                },
        decreases count - k,
    {
        let mut meta = snap_dir_path(ctx.current().as_str(), names[k].as_str());
        push_meta_name(&mut meta);
        proof {
            assert(names.deep_view()[k as int] == names@[k as int]@);
            assert(meta.deep_view() == snap_meta_segs(ctx@, names.deep_view()[k as int]));
        }
        match fs.lookup_file(&meta) {
            Ok(Some(content)) => match parse_record(content.as_str()) {
                Ok(snap) => {
                    let ghost old_results = results.deep_view();
                    proof {
                        assert(child_dir_in(
                            fs@,
                            profile_dir_segs(ctx@),
                            names.deep_view()[k as int],
                        ));
                        assert(listed(fs@, ctx@, snap@));
                    }
                    results.push(snap);
                    proof {
                        assert(results.deep_view() =~= old_results.push(
                            spec_parse_record(content@)->0,
                        ));
                        assert forall|w: SnapShotView|
                            results.deep_view().contains(w) implies listed(fs@, ctx@, w) by {
                            let j = choose|j: int|
                                0 <= j < results.deep_view().len() && results.deep_view()[j] == w;
                            if j < old_results.len() {
                                assert(old_results[j] == w);
                                assert(old_results.contains(w));
                            }
                        }
                        assert forall|j: int| 0 <= j < old_results.len() implies
                            results.deep_view().contains(#[trigger] old_results[j]) by {
                            assert(results.deep_view()[j] == old_results[j]);
                        }
                        assert(results.deep_view().contains(spec_parse_record(content@)->0)) by {
                            assert(results.deep_view()[old_results.len() as int]
                                == spec_parse_record(content@)->0);
                        }
                        assert forall|w: SnapShotView| old_results.contains(w) implies
                            results.deep_view().contains(w) by {
                            let j = choose|j: int|
                                0 <= j < old_results.len() && old_results[j] == w;
                            assert(results.deep_view()[j] == w);
                        }
                    }
                },
                Err(_) => {
                    proof {
                        assert(child_dir_in(
                            fs@,
                            profile_dir_segs(ctx@),
                            names.deep_view()[k as int],
                        ));
                        assert(!list_clean(fs@, ctx@));
                    }
                    return Err(Error::Parse);
                },
            },
            Ok(None) => {
                proof {
                    assert(!fs@.contains_key(snap_meta_segs(ctx@, names.deep_view()[k as int])));
                }
            },
            Err(_) => {
                proof {
                    assert(child_dir_in(fs@, profile_dir_segs(ctx@), names.deep_view()[k as int]));
                    assert(!list_clean(fs@, ctx@));
                }
                return Err(Error::Io);
            },
        }
        k = k + 1;
    }
    proof {
        assert forall|nm: Seq<char>| #[trigger] child_dir_in(
            fs@,
            profile_dir_segs(ctx@),
            nm,
        ) implies {
            &&& !(fs@.contains_key(snap_meta_segs(ctx@, nm)) && fs@[snap_meta_segs(ctx@, nm)]
                is Dir)
            &&& (file_at(fs@, snap_meta_segs(ctx@, nm)) is Some ==> spec_parse_record(
                file_at(fs@, snap_meta_segs(ctx@, nm))->0,
            ) is Some)
        } by {
            assert(names.deep_view().contains(nm));
            let j = choose|j: int|
                0 <= j < names.deep_view().len() && names.deep_view()[j] == nm;
        }
        assert(list_clean(fs@, ctx@));
        assert forall|w: SnapShotView| listed(fs@, ctx@, w) implies results.deep_view().contains(
            w,
        ) by {
            let nm = choose|nm: Seq<char>|
                #[trigger] child_dir_in(fs@, profile_dir_segs(ctx@), nm) && file_at(
                    fs@,
                    snap_meta_segs(ctx@, nm),
                ) is Some && spec_parse_record(file_at(fs@, snap_meta_segs(ctx@, nm))->0) == Some(
                    w,
                );
            assert(names.deep_view().contains(nm));
            let j = choose|j: int|
                0 <= j < names.deep_view().len() && names.deep_view()[j] == nm;
        }
    }
    Ok(results)
}

/// The profiles the host game knows: the directories directly under the
/// resolved base location. A missing base location is an error, not an
/// empty listing.
pub fn get_profiles(fs: &Fs, username: Option<&str>) -> (r: Result<Vec<String>, Error>)
    requires
        fs.wf(),
    ensures
        match r {
            Ok(v) => username is Some && fs@.contains_key(base_segs(username->0@))
                && fs@[base_segs(username->0@)] is Dir && (forall|nm: Seq<char>|
                v.deep_view().contains(nm) <==> child_dir_in(fs@, base_segs(username->0@), nm)),
            Err(e) => (e == Error::Environment && username is None) || (e == Error::Io && username
                is Some && !(fs@.contains_key(base_segs(username->0@)) && fs@[base_segs(
                username->0@,
            )] is Dir)),
        },
{
    let u = match username {
        Some(u) => u,
        None => {
            return Err(Error::Environment);
        },
    };
    let base = base_path(u);
    if !fs.is_dir(&base) {
        return Err(Error::Io);
    }
    let names = fs.children_dirs(&base);
    proof {
        assert forall|nm: Seq<char>| names.deep_view().contains(nm) implies child_dir_in(
            fs@,
            base_segs(u@),
            nm,
        ) by {
            let j = choose|j: int|
                0 <= j < names.deep_view().len() && names.deep_view()[j] == nm;
        }
    }
    Ok(names)
}

/// Captures the active profile's live save tree as a snapshot: copies the
/// tree into the snapshot directory, then writes the record's document as
/// its metadata sidecar. When only that final write fails, the copied tree
/// remains without its sidecar.
pub fn snapshot(fs: &mut Fs, ctx: &Context, username: Option<&str>, snap: &SnapShot) -> (r: Result<
    (),
    Error,
>)
    requires
        old(fs).wf(),
    ensures
        final(fs).wf(),
        match r {
            Ok(()) => username is Some && copy_allowed(
                old(fs)@,
                live_dir_segs(username->0@, ctx@),
                snap_dir_segs(ctx@, snap@.name),
            ) && final(fs)@ == capture_map(old(fs)@, username->0@, ctx@, snap@),
            Err(e) => (e == Error::Environment && username is None && *final(fs) == *old(fs)) || (
            username is Some && e == Error::Io && ((*final(fs) == *old(fs) && !copy_allowed(
                old(fs)@,
                live_dir_segs(username->0@, ctx@),
                snap_dir_segs(ctx@, snap@.name),
            )) || (copy_allowed(
                old(fs)@,
                live_dir_segs(username->0@, ctx@),
                snap_dir_segs(ctx@, snap@.name),
            ) && final(fs)@ == copied_map(
                old(fs)@,
                live_dir_segs(username->0@, ctx@),
                snap_dir_segs(ctx@, snap@.name),
            ) && !write_allowed(
                copied_map(
                    old(fs)@,
                    live_dir_segs(username->0@, ctx@),
                    snap_dir_segs(ctx@, snap@.name),
                ),
                snap_meta_segs(ctx@, snap@.name),
            )))),
        },
{
    let u = match username {
        Some(u) => u,
        None => {
            return Err(Error::Environment);
        },
    };
    let live = live_dir_path(u, ctx.current().as_str());
    let snap_dir = snap_dir_path(ctx.current().as_str(), snap.name.as_str());
    proof {
        assert(live@.len() == live.deep_view().len());
        assert(snap_dir@.len() == snap_dir.deep_view().len());
    }
    match fs.copy_tree(&live, &snap_dir) {
        Ok(()) => {},
        Err(e) => {
            return Err(e);
        },
    }
    let mut meta = snap_dir;
    push_meta_name(&mut meta);
    proof {
        assert(meta.deep_view() == snap_meta_segs(ctx@, snap@.name));
    }
    let doc = record_to_document(snap);
    match fs.write_file(&meta, doc) {
        Ok(()) => Ok(()),
        Err(e) => Err(e),
    }
}

/// Restores a snapshot: merge-copies its tree back over the active
/// profile's live save directory. Files added to the live directory since
/// the capture and absent from the snapshot are left in place.
pub fn restore(fs: &mut Fs, ctx: &Context, username: Option<&str>, snap: &SnapShot) -> (r: Result<
    (),
    Error,
>)
    requires
        old(fs).wf(),
    ensures
        final(fs).wf(),
        match r {
            Ok(()) => username is Some && copy_allowed(
                old(fs)@,
                snap_dir_segs(ctx@, snap@.name),
                live_dir_segs(username->0@, ctx@),
            ) && final(fs)@ == copied_map(
                old(fs)@,
                snap_dir_segs(ctx@, snap@.name),
                live_dir_segs(username->0@, ctx@),
            ),
            Err(e) => *final(fs) == *old(fs) && ((e == Error::Environment && username is None) || (
            e == Error::Io && username is Some && !copy_allowed(
                old(fs)@,
                snap_dir_segs(ctx@, snap@.name),
                live_dir_segs(username->0@, ctx@),
            ))),
        },
{
    let u = match username {
        Some(u) => u,
        None => {
            return Err(Error::Environment);
        },
    };
    let live = live_dir_path(u, ctx.current().as_str());
    let snap_dir = snap_dir_path(ctx.current().as_str(), snap.name.as_str());
    proof {
        assert(live@.len() == live.deep_view().len());
        assert(snap_dir@.len() == snap_dir.deep_view().len());
    }
    fs.copy_tree(&snap_dir, &live)
}

/// Deletes the named snapshot of the active profile, metadata and tree
/// together; deleting a name that does not exist succeeds and changes
/// nothing.
pub fn clear(fs: &mut Fs, ctx: &Context, name: &str)
    requires
        old(fs).wf(),
    ensures
        final(fs).wf(),
        final(fs)@ == remove_subtree(old(fs)@, snap_dir_segs(ctx@, name@)),
{
    let snap_dir = snap_dir_path(ctx.current().as_str(), name);
    fs.remove_tree(&snap_dir);
}

} // verus!

verus! {

/// A merge-copy mirrors the source: walking both trees afterwards finds,
/// for every relative path under the source, the same entry (and for files
/// the same contents) under the destination.
pub proof fn lemma_copy_tree_mirror(
    m: Map<Seq<Seq<char>>, EntryView>,
    src: Seq<Seq<char>>,
    dst: Seq<Seq<char>>,
    rel: Seq<Seq<char>>,
)
    ensures
        m.contains_key(src + rel) ==> copied_map(m, src, dst).contains_key(dst + rel)
            && copied_map(m, src, dst)[dst + rel] == m[src + rel],
{
    if m.contains_key(src + rel) {
        crate::fsm::lemma_concat_skip(dst, rel);
        assert(crate::fsm::counterpart(dst + rel, src, dst) == src + rel);
    }
}

/// After a capture, a listing of the profile includes a record equal to the
/// captured one: its own snapshot directory's metadata parses back to it.
pub proof fn lemma_capture_then_listed(
    m: Map<Seq<Seq<char>>, EntryView>,
    username: Seq<char>,
    profile: Seq<char>,
    v: SnapShotView,
)
    requires
        m.contains_key(live_dir_segs(username, profile)),
        m[live_dir_segs(username, profile)] is Dir,
    ensures
        listed(capture_map(m, username, profile, v), profile, v),
{
    let live = live_dir_segs(username, profile);
    let sd = snap_dir_segs(profile, v.name);
    let mk = snap_meta_segs(profile, v.name);
    let m1 = copied_map(m, live, sd);
    let m2 = capture_map(m, username, profile, v);
    assert(sd.subrange(0, sd.len() as int) =~= sd);
    assert(sd.is_prefix_of(sd));
    assert(sd.skip(sd.len() as int) =~= Seq::<Seq<char>>::empty());
    assert(live + sd.skip(sd.len() as int) =~= live);
    assert(crate::fsm::counterpart(sd, live, sd) == live);
    assert(m1.contains_key(sd) && m1[sd] == m[live]);
    assert(mk.len() == sd.len() + 1);
    assert(mk != sd);
    assert(m2.contains_key(sd) && m2[sd] is Dir);
    assert(profile_dir_segs(profile).push(v.name) == sd);
    assert(child_dir_in(m2, profile_dir_segs(profile), v.name));
    assert(m2[mk] == EntryView::File(record_doc(v)));
    assert(file_at(m2, mk) == Some(record_doc(v)));
    lemma_record_roundtrip(v);
    assert(spec_parse_record(file_at(m2, mk)->0) == Some(v));
}

/// After deleting a snapshot by name, a listing no longer includes its
/// record, provided no other snapshot directory's metadata happens to parse
/// to the same record.
pub proof fn lemma_delete_then_not_listed(
    m: Map<Seq<Seq<char>>, EntryView>,
    profile: Seq<char>,
    v: SnapShotView,
)
    requires
        forall|nm: Seq<char>|
            nm != v.name && #[trigger] child_dir_in(m, profile_dir_segs(profile), nm) ==> !(
            file_at(m, snap_meta_segs(profile, nm)) is Some && spec_parse_record(
                file_at(m, snap_meta_segs(profile, nm))->0,
            ) == Some(v)),
    ensures
        !listed(remove_subtree(m, snap_dir_segs(profile, v.name)), profile, v),
{
    let sd = snap_dir_segs(profile, v.name);
    let m3 = remove_subtree(m, sd);
    if listed(m3, profile, v) {
        let nm = choose|nm: Seq<char>|
            #[trigger] child_dir_in(m3, profile_dir_segs(profile), nm) && file_at(
                m3,
                snap_meta_segs(profile, nm),
            ) is Some && spec_parse_record(file_at(m3, snap_meta_segs(profile, nm))->0) == Some(v);
        let key = profile_dir_segs(profile).push(nm);
        let mk = snap_meta_segs(profile, nm);
        assert(key == snap_dir_segs(profile, nm));
        assert(m3.contains_key(key));
        assert(m.contains_key(key) && !sd.is_prefix_of(key));
        if nm == v.name {
            assert(sd.subrange(0, sd.len() as int) =~= sd);
            assert(sd.is_prefix_of(key));
            assert(false);
        } else {
            assert(child_dir_in(m, profile_dir_segs(profile), nm)) by {
                assert(m3[key] == m[key]);
            }
            assert(m3.contains_key(mk));
            assert(!sd.is_prefix_of(mk));
            assert(m3[mk] == m[mk]);
            assert(file_at(m, mk) == file_at(m3, mk));
            assert(false);
        }
    }
}

/// Restoring after a capture brings the live tree back: every entry the
/// live directory held at capture time (other than its metadata sidecar,
/// which the snapshot's own record replaces) is restored to its
/// capture-time value, and entries added to the live directory afterwards
/// that have no counterpart in the snapshot are left in place.
pub proof fn lemma_restore_after_capture(
    m0: Map<Seq<Seq<char>>, EntryView>,
    username: Seq<char>,
    profile: Seq<char>,
    v: SnapShotView,
    m2: Map<Seq<Seq<char>>, EntryView>,
    rel: Seq<Seq<char>>,
)
    requires
        forall|p: Seq<Seq<char>>|
            #[trigger] snap_dir_segs(profile, v.name).is_prefix_of(p) ==> (m2.contains_key(p)
                <==> capture_map(m0, username, profile, v).contains_key(p)) && (m2.contains_key(p)
                ==> m2[p] == capture_map(m0, username, profile, v)[p]),
    ensures
        rel != seq![meta_name()] && m0.contains_key(live_dir_segs(username, profile) + rel)
            ==> copied_map(
            m2,
            snap_dir_segs(profile, v.name),
            live_dir_segs(username, profile),
        ).contains_key(live_dir_segs(username, profile) + rel) && copied_map(
            m2,
            snap_dir_segs(profile, v.name),
            live_dir_segs(username, profile),
        )[live_dir_segs(username, profile) + rel] == m0[live_dir_segs(username, profile) + rel],
        !capture_map(m0, username, profile, v).contains_key(snap_dir_segs(profile, v.name) + rel)
            && m2.contains_key(live_dir_segs(username, profile) + rel) ==> copied_map(
            m2,
            snap_dir_segs(profile, v.name),
            live_dir_segs(username, profile),
        ).contains_key(live_dir_segs(username, profile) + rel) && copied_map(
            m2,
            snap_dir_segs(profile, v.name),
            live_dir_segs(username, profile),
        )[live_dir_segs(username, profile) + rel] == m2[live_dir_segs(username, profile) + rel],
{
    let live = live_dir_segs(username, profile);
    let sd = snap_dir_segs(profile, v.name);
    let mk = snap_meta_segs(profile, v.name);
    let m1 = capture_map(m0, username, profile, v);
    let m3 = copied_map(m2, sd, live);
    crate::fsm::lemma_concat_skip(live, rel);
    crate::fsm::lemma_concat_skip(sd, rel);
    assert(crate::fsm::counterpart(live + rel, sd, live) == sd + rel);
    assert(sd.is_prefix_of(sd + rel));
    if rel != seq![meta_name()] && m0.contains_key(live + rel) {
        assert(sd + rel != mk) by {
            if sd + rel == mk {
                assert(mk == sd + seq![meta_name()]);
                assert((sd + rel).skip(sd.len() as int) == rel);
                crate::fsm::lemma_concat_skip(sd, seq![meta_name()]);
                assert(rel == seq![meta_name()]);
            }
        }
        assert(copied_map(m0, live, sd).contains_key(sd + rel) && copied_map(m0, live, sd)[sd
            + rel] == m0[live + rel]) by {
            lemma_copy_tree_mirror(m0, live, sd, rel);
        }
        assert(m1.contains_key(sd + rel) && m1[sd + rel] == m0[live + rel]);
        assert(m2.contains_key(sd + rel) && m2[sd + rel] == m0[live + rel]);
        assert(m3.contains_key(live + rel) && m3[live + rel] == m0[live + rel]);
    }
    if !m1.contains_key(sd + rel) && m2.contains_key(live + rel) {
        assert(!m2.contains_key(sd + rel));
        assert(m3.contains_key(live + rel) && m3[live + rel] == m2[live + rel]);
    }
}

/// A profile with no capture history lists nothing and lists it cleanly:
/// with no entry under the profile's snapshot directory there is no record
/// to include and no metadata to fail on.
pub proof fn lemma_fresh_profile_lists_nothing(
    m: Map<Seq<Seq<char>>, EntryView>,
    profile: Seq<char>,
)
    requires
        forall|p: Seq<Seq<char>>|
            #[trigger] profile_dir_segs(profile).is_prefix_of(p) ==> !m.contains_key(p),
    ensures
        list_clean(m, profile),
        forall|v: SnapShotView| !listed(m, profile, v),
{
    assert forall|nm: Seq<char>| !(#[trigger] child_dir_in(
        m,
        profile_dir_segs(profile),
        nm,
    )) by {
        let key = profile_dir_segs(profile).push(nm);
        assert(key.subrange(0, profile_dir_segs(profile).len() as int) =~= profile_dir_segs(
            profile,
        ));
        assert(profile_dir_segs(profile).is_prefix_of(key));
    }
    assert forall|v: SnapShotView| !listed(m, profile, v) by {
        if listed(m, profile, v) {
            let nm = choose|nm: Seq<char>|
                #[trigger] child_dir_in(m, profile_dir_segs(profile), nm) && file_at(
                    m,
                    snap_meta_segs(profile, nm),
                ) is Some && spec_parse_record(file_at(m, snap_meta_segs(profile, nm))->0) == Some(
                    v,
                );
        }
    }
}

} // verus!
