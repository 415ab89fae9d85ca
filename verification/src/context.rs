//! The profile context: the currently selected profile, persisted to a
//! status file in the store so the selection survives a restart.

use vstd::prelude::*;

use crate::codec::{
    context_doc, context_to_document, lemma_context_roundtrip, parse_context, spec_parse_context,
};
use crate::fsm::{file_at, write_allowed, EntryView, Fs};
use crate::paths::{status_file_path, status_file_segs};
use crate::Error;

verus! {

/// The process-wide profile selection.
#[derive(Debug)]
pub struct Context {
    pub profile: String,
}

impl View for Context {
    type V = Seq<char>;

    open spec fn view(&self) -> Seq<char> {
        self.profile@
    }
}

impl Context {
    /// The currently active profile.
    pub fn current(&self) -> (p: &String)
        ensures
            p@ == self@,
    {
        &self.profile
    }

    /// Persists the context to the status file, overwriting it.
    pub fn save(&self, fs: &mut Fs) -> (r: Result<(), Error>)
        requires
            old(fs).wf(),
        ensures
            final(fs).wf(),
            match r {
                Ok(()) => write_allowed(old(fs)@, status_file_segs()) && final(fs)@ == old(
                    fs,
                )@.insert(status_file_segs(), EntryView::File(context_doc(self@))),
                Err(e) => e == Error::Io && *final(fs) == *old(fs) && !write_allowed(
                    old(fs)@,
                    status_file_segs(),
                ),
            },
    {
        let doc = context_to_document(self.profile.as_str());
        let path = status_file_path();
        fs.write_file(&path, doc)
    }

    /// Loads the persisted context: a present, well-formed status file sets
    /// the profile it names; an absent one is written out with the current
    /// profile (a self-healing first run). A malformed file or a directory
    /// in the file's place is an error and changes nothing.
    pub fn restore(&mut self, fs: &mut Fs) -> (r: Result<(), Error>)
        requires
            old(fs).wf(),
        ensures
            final(fs).wf(),
            match r {
                Ok(()) => match file_at(old(fs)@, status_file_segs()) {
                    Some(c) => spec_parse_context(c) == Some(final(self)@) && *final(fs) == *old(
                        fs,
                    ),
                    None => !old(fs)@.contains_key(status_file_segs()) && final(self)@ == old(
                        self,
                    )@ && final(fs)@ == old(fs)@.insert(
                        status_file_segs(),
                        EntryView::File(context_doc(old(self)@)),
                    ),
                },
                Err(e) => *final(self) == *old(self) && *final(fs) == *old(fs) && ((e
                    == Error::Parse && file_at(old(fs)@, status_file_segs()) is Some
                    && spec_parse_context(file_at(old(fs)@, status_file_segs())->0) is None) || (e
                    == Error::Io && old(fs)@.contains_key(status_file_segs()) && old(
                    fs,
                )@[status_file_segs()] is Dir)),
            },
    {
        let path = status_file_path();
        match fs.lookup_file(&path) {
            Ok(Some(content)) => match parse_context(content.as_str()) {
                Ok(profile) => {
                    self.profile = profile;
                    Ok(())
                },
                Err(_) => Err(Error::Parse),
            },
            Ok(None) => self.save(fs),
            Err(e) => Err(e),
        }
    }

    /// A context as it stands at process start: the default profile, then
    /// the persisted state loaded over it (writing the default out when no
    /// state was persisted yet).
    pub fn init(fs: &mut Fs) -> (r: Result<Context, Error>)
        requires
            old(fs).wf(),
        ensures
            final(fs).wf(),
            match r {
                Ok(ctx) => match file_at(old(fs)@, status_file_segs()) {
                    Some(c) => spec_parse_context(c) == Some(ctx@) && *final(fs) == *old(fs),
                    None => !old(fs)@.contains_key(status_file_segs()) && ctx@ == "Default"@
                        && final(fs)@ == old(fs)@.insert(
                        status_file_segs(),
                        EntryView::File(context_doc("Default"@)),
                    ),
                },
                Err(e) => *final(fs) == *old(fs) && ((e == Error::Parse && file_at(
                    old(fs)@,
                    status_file_segs(),
                ) is Some && spec_parse_context(file_at(old(fs)@, status_file_segs())->0) is None)
                    || (e == Error::Io && old(fs)@.contains_key(status_file_segs()) && old(
                    fs,
                )@[status_file_segs()] is Dir)),
            },
    {
        let mut ctx = Context { profile: String::from_str("Default") };
        match ctx.restore(fs) {
            Ok(()) => Ok(ctx),
            Err(e) => Err(e),
        }
    }

    /// Selects a new active profile and persists the context at once. The
    /// in-memory selection changes even when persisting fails.
    pub fn set_profile(&mut self, fs: &mut Fs, profile: &str) -> (r: Result<(), Error>)
        requires
            old(fs).wf(),
        ensures
            final(fs).wf(),
            final(self)@ == profile@,
            match r {
                Ok(()) => write_allowed(old(fs)@, status_file_segs()) && final(fs)@ == old(
                    fs,
                )@.insert(status_file_segs(), EntryView::File(context_doc(profile@))),
                Err(e) => e == Error::Io && *final(fs) == *old(fs) && !write_allowed(
                    old(fs)@,
                    status_file_segs(),
                ),
            },
    {
        self.profile = profile.to_owned();
        self.save(fs)
    }
}

/// A persisted profile selection survives a restart: saving the context
/// with profile `p` leaves the status file holding `p`'s document, and
/// loading that document yields `p` again.
pub proof fn lemma_selection_survives_restart(m: Map<Seq<Seq<char>>, EntryView>, p: Seq<char>)
    ensures
        file_at(
            m.insert(status_file_segs(), EntryView::File(context_doc(p))),
            status_file_segs(),
        ) == Some(context_doc(p)),
        spec_parse_context(context_doc(p)) == Some(p),
{
    lemma_context_roundtrip(p);
}

} // verus!
