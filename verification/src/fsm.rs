//! The filesystem model the engine is verified against: a flat store of
//! entries, each an absolute path (a sequence of segments) naming either a
//! directory or a file with text contents. Its view is a map from path to
//! entry; the host shell mirrors the real directory trees into and out of
//! this model.

use vstd::pervasive::VecAdditionalExecFns;
use vstd::prelude::*;

use crate::Error;

verus! {

/// One entry of the store: a directory, or a file with its contents.
#[derive(Debug)]
pub enum FsEntry {
    Dir,
    File(String),
}

/// The mathematical shape of an entry.
pub enum EntryView {
    Dir,
    File(Seq<char>),
}

impl View for FsEntry {
    type V = EntryView;

    open spec fn view(&self) -> EntryView {
        match self {
            FsEntry::Dir => EntryView::Dir,
            FsEntry::File(c) => EntryView::File(c@),
        }
    }
}

impl FsEntry {
    /// An identical copy of the entry.
    pub fn dup(&self) -> (r: FsEntry)
        ensures
            r@ == self@,
    {
        match self {
            FsEntry::Dir => FsEntry::Dir,
            FsEntry::File(c) => FsEntry::File(c.clone()),
        }
    }

    /// Whether the entry is a directory, matching the view.
    pub fn is_dir_entry(&self) -> (r: bool)
        ensures
            r == (self@ is Dir),
    {
        match self {
            FsEntry::Dir => true,
            FsEntry::File(_) => false,
        }
    }
}

/// A filesystem path, as its segments.
pub type PathSegs = Vec<String>;

/// The map a sequence of entries stands for, later entries overriding
/// earlier ones (well-formed stores hold each path at most once).
pub open spec fn entries_map(s: Seq<(PathSegs, FsEntry)>) -> Map<Seq<Seq<char>>, EntryView>
    decreases s.len(),
{
    if s.len() == 0 {
        Map::empty()
    } else {
        entries_map(s.drop_last()).insert(s.last().0.deep_view(), s.last().1@)
    }
}

/// No two entries name the same path.
pub open spec fn distinct_keys(s: Seq<(PathSegs, FsEntry)>) -> bool {
    forall|a: int, b: int|
        0 <= a < b < s.len() ==> (#[trigger] s[a]).0.deep_view() != (#[trigger] s[b]).0.deep_view()
}

/// The entry at position `i` is in the map.
pub proof fn lemma_entries_map_index(s: Seq<(PathSegs, FsEntry)>, i: int)
    requires
        0 <= i < s.len(),
    ensures
        entries_map(s).contains_key(s[i].0.deep_view()),
    decreases s.len(),
{
    if i < s.len() - 1 {
        lemma_entries_map_index(s.drop_last(), i);
        assert(s.drop_last()[i] == s[i]);
    }
}

/// With distinct keys, the map's value at an entry's path is that entry.
pub proof fn lemma_entries_map_val(s: Seq<(PathSegs, FsEntry)>, i: int)
    requires
        distinct_keys(s),
        0 <= i < s.len(),
    ensures
        entries_map(s).contains_key(s[i].0.deep_view()),
        entries_map(s)[s[i].0.deep_view()] == s[i].1@,
    decreases s.len(),
{
    lemma_entries_map_index(s, i);
    if i < s.len() - 1 {
        assert(distinct_keys(s.drop_last())) by {
            assert(forall|a: int, b: int|
                0 <= a < b < s.drop_last().len() ==> s.drop_last()[a] == s[a] && s.drop_last()[b]
                    == s[b]);
        }
        assert(s.drop_last()[i] == s[i]);
        lemma_entries_map_val(s.drop_last(), i);
        assert(s[i].0.deep_view() != s.last().0.deep_view());
    }
}

/// Every path in the map names some entry.
pub proof fn lemma_entries_map_contains(s: Seq<(PathSegs, FsEntry)>, k: Seq<Seq<char>>)
    requires
        entries_map(s).contains_key(k),
    ensures
        exists|i: int| 0 <= i < s.len() && (#[trigger] s[i]).0.deep_view() == k,
    decreases s.len(),
{
    if s.len() > 0 {
        if s.last().0.deep_view() == k {
            assert(s[s.len() - 1].0.deep_view() == k);
        } else {
            lemma_entries_map_contains(s.drop_last(), k);
            let i = choose|i: int|
                0 <= i < s.drop_last().len() && (#[trigger] s.drop_last()[i]).0.deep_view() == k;
            assert(s[i].0.deep_view() == k);
        }
    }
}

/// Replacing the entry at position `i` by one with the same path updates
/// the map at that path.
pub proof fn lemma_entries_map_update(
    s: Seq<(PathSegs, FsEntry)>,
    i: int,
    pair: (PathSegs, FsEntry),
)
    requires
        distinct_keys(s),
        0 <= i < s.len(),
        pair.0.deep_view() == s[i].0.deep_view(),
    ensures
        entries_map(s.update(i, pair)) == entries_map(s).insert(pair.0.deep_view(), pair.1@),
        distinct_keys(s.update(i, pair)),
    decreases s.len(),
{
    let t = s.update(i, pair);
    assert(distinct_keys(t)) by {
        assert(forall|a: int| 0 <= a < t.len() ==> t[a].0.deep_view() == s[a].0.deep_view());
    }
    if i == s.len() - 1 {
        assert(t.drop_last() =~= s.drop_last());
        assert(t.last() == pair);
        assert(entries_map(t) =~= entries_map(s).insert(pair.0.deep_view(), pair.1@));
    } else {
        assert(distinct_keys(s.drop_last())) by {
            assert(forall|a: int|
                0 <= a < s.drop_last().len() ==> s.drop_last()[a] == s[a]);
        }
        assert(s.drop_last()[i] == s[i]);
        lemma_entries_map_update(s.drop_last(), i, pair);
        assert(t.drop_last() =~= s.drop_last().update(i, pair));
        assert(t.last() == s.last());
        assert(s[i].0.deep_view() != s.last().0.deep_view());
        assert(entries_map(t) =~= entries_map(s).insert(pair.0.deep_view(), pair.1@));
    }
}

/// The map a store stands for, with every entry under `root` (`root`
/// itself included) removed.
pub open spec fn remove_subtree(
    m: Map<Seq<Seq<char>>, EntryView>,
    root: Seq<Seq<char>>,
) -> Map<Seq<Seq<char>>, EntryView> {
    Map::new(|p: Seq<Seq<char>>| m.contains_key(p) && !root.is_prefix_of(p), |p| m[p])
}

/// Whether a file may be created or overwritten at `p`: no directory
/// stands at `p`, and `p`'s parent, if `p` is nested, is a directory.
pub open spec fn write_allowed(m: Map<Seq<Seq<char>>, EntryView>, p: Seq<Seq<char>>) -> bool {
    &&& !(m.contains_key(p) && m[p] is Dir)
    &&& (p.len() == 1 || (m.contains_key(p.drop_last()) && m[p.drop_last()] is Dir))
}

/// The verified store.
pub struct Fs {
    pub entries: Vec<(PathSegs, FsEntry)>,
}

impl View for Fs {
    type V = Map<Seq<Seq<char>>, EntryView>;

    open spec fn view(&self) -> Map<Seq<Seq<char>>, EntryView> {
        entries_map(self.entries@)
    }
}

/// Compares two paths segment by segment.
pub fn path_eq(a: &PathSegs, b: &PathSegs) -> (r: bool)
    ensures
        r == (a.deep_view() == b.deep_view()),
{
    if a.len() != b.len() {
        proof {
            assert(a.deep_view().len() == a@.len());
            assert(b.deep_view().len() == b@.len());
        }
        return false;
    }
    let n = a.len();
    let mut i: usize = 0;
    while i < n
        invariant
            n == a@.len() == b@.len(),
            0 <= i <= n,
            forall|k: int| 0 <= k < i ==> a.deep_view()[k] == b.deep_view()[k],
        decreases n - i,
    {
        if a[i] != b[i] {
            proof {
                assert(a.deep_view()[i as int] == a@[i as int]@);
                assert(b.deep_view()[i as int] == b@[i as int]@);
            }
            return false;
        }
        proof {
            assert(a.deep_view()[i as int] == a@[i as int]@);
            assert(b.deep_view()[i as int] == b@[i as int]@);
        }
        i = i + 1;
    }
    proof {
        assert(a.deep_view() =~= b.deep_view());
    }
    true
}

/// Whether `p` is a (not necessarily strict) prefix of `q`, segment-wise.
pub fn path_is_prefix(p: &PathSegs, q: &PathSegs) -> (r: bool)
    ensures
        r == p.deep_view().is_prefix_of(q.deep_view()),
{
    if p.len() > q.len() {
        proof {
            assert(p.deep_view().len() == p@.len());
            assert(q.deep_view().len() == q@.len());
        }
        return false;
    }
    let n = p.len();
    let mut i: usize = 0;
    while i < n
        invariant
            n == p@.len(),
            n <= q@.len(),
            0 <= i <= n,
            forall|k: int| 0 <= k < i ==> p.deep_view()[k] == q.deep_view()[k],
        decreases n - i,
    {
        if p[i] != q[i] {
            proof {
                assert(p.deep_view()[i as int] == p@[i as int]@);
                assert(q.deep_view()[i as int] == q@[i as int]@);
                assert(p.deep_view() != q.deep_view().subrange(0, p.deep_view().len() as int));
            }
            return false;
        }
        proof {
            assert(p.deep_view()[i as int] == p@[i as int]@);
            assert(q.deep_view()[i as int] == q@[i as int]@);
        }
        i = i + 1;
    }
    proof {
        assert(p.deep_view() =~= q.deep_view().subrange(0, p.deep_view().len() as int));
    }
    true
}

/// An identical copy of a path.
pub fn clone_path(p: &PathSegs) -> (r: PathSegs)
    ensures
        r.deep_view() == p.deep_view(),
        r@.len() == p@.len(),
{
    let mut out: PathSegs = Vec::new();
    let n = p.len();
    let mut i: usize = 0;
    while i < n
        invariant
            n == p@.len(),
            0 <= i <= n,
            out@.len() == i,
            forall|k: int| 0 <= k < i ==> out.deep_view()[k] == p.deep_view()[k],
        decreases n - i,
    {
        out.push(p[i].clone());
        proof {
            assert(out.deep_view()[i as int] == out@[i as int]@);
            assert(p.deep_view()[i as int] == p@[i as int]@);
        }
        i = i + 1;
    }
    proof {
        assert(out.deep_view() =~= p.deep_view());
    }
    out
}

impl Fs {
    /// A store with no entries at all.
    pub fn empty() -> (r: Fs)
        ensures
            r@ == Map::<Seq<Seq<char>>, EntryView>::empty(),
            r.wf(),
    {
        Fs { entries: Vec::new() }
    }

    /// Well-formed: each path occurs at most once.
    pub open spec fn wf(self) -> bool {
        distinct_keys(self.entries@)
    }

    /// The position of the entry at path `p`, if any.
    fn find(&self, p: &PathSegs) -> (r: Option<usize>)
        requires
            self.wf(),
        ensures
            match r {
                Some(i) => i < self.entries@.len() && self.entries@[i as int].0.deep_view()
                    == p.deep_view() && self@.contains_key(p.deep_view())
                    && self@[p.deep_view()] == self.entries@[i as int].1@,
                None => !self@.contains_key(p.deep_view()),
            },
    {
        let n = self.entries.len();
        let mut i: usize = 0;
        while i < n
            invariant
                self.wf(),
                n == self.entries@.len(),
                0 <= i <= n,
                forall|k: int|
                    0 <= k < i ==> (#[trigger] self.entries@[k]).0.deep_view() != p.deep_view(),
            decreases n - i,
        {
            if path_eq(&self.entries[i].0, p) {
                proof {
                    lemma_entries_map_val(self.entries@, i as int);
                }
                return Some(i);
            }
            i = i + 1;
        }
        proof {
            if self@.contains_key(p.deep_view()) {
                lemma_entries_map_contains(self.entries@, p.deep_view());
            }
        }
        None
    }

    /// The file contents at `p`: `Some` exactly when `p` is a file.
    pub fn get_file(&self, p: &PathSegs) -> (r: Option<&String>)
        requires
            self.wf(),
        ensures
            match r {
                Some(c) => self@.contains_key(p.deep_view()) && self@[p.deep_view()]
                    == EntryView::File(c@),
                None => !self@.contains_key(p.deep_view()) || self@[p.deep_view()] is Dir,
            },
    {
        match self.find(p) {
            Some(i) => match &self.entries[i].1 {
                FsEntry::File(c) => Some(c),
                FsEntry::Dir => None,
            },
            None => None,
        }
    }

    /// Whether `p` is a directory of the store.
    pub fn is_dir(&self, p: &PathSegs) -> (r: bool)
        requires
            self.wf(),
        ensures
            r == (self@.contains_key(p.deep_view()) && self@[p.deep_view()] is Dir),
    {
        match self.find(p) {
            Some(i) => self.entries[i].1.is_dir_entry(),
            None => false,
        }
    }

    /// Creates or overwrites the file at `p`; fails when a directory
    /// stands at `p` or `p`'s parent directory is missing.
    pub fn write_file(&mut self, p: &PathSegs, content: String) -> (r: Result<(), Error>)
        requires
            old(self).wf(),
            p@.len() >= 1,
        ensures
            final(self).wf(),
            match r {
                Ok(()) => write_allowed(old(self)@, p.deep_view()) && final(self)@ == old(
                    self,
                )@.insert(p.deep_view(), EntryView::File(content@)),
                Err(e) => e == Error::Io && *final(self) == *old(self) && !write_allowed(
                    old(self)@,
                    p.deep_view(),
                ),
            },
    {
        if p.len() > 1 {
            let mut parent = clone_path(p);
            let ghost pre = parent.deep_view();
            parent.pop();
            proof {
                assert(parent.deep_view() =~= p.deep_view().drop_last());
            }
            if !self.is_dir(&parent) {
                return Err(Error::Io);
            }
        }
        match self.find(p) {
            Some(i) => {
                if self.entries[i].1.is_dir_entry() {
                    Err(Error::Io)
                } else {
                    let key = clone_path(p);
                    proof {
                        lemma_entries_map_update(
                            self.entries@,
                            i as int,
                            (key, FsEntry::File(content)),
                        );
                    }
                    self.entries.set(i, (key, FsEntry::File(content)));
                    Ok(())
                }
            },
            None => {
                let key = clone_path(p);
                proof {
                    let s = self.entries@;
                    assert forall|j: int| 0 <= j < s.len() implies s[j].0.deep_view()
                        != p.deep_view() by {
                        if s[j].0.deep_view() == p.deep_view() {
                            lemma_entries_map_index(s, j);
                        }
                    }
                    let t = s.push((key, FsEntry::File(content)));
                    assert(t.drop_last() =~= s);
                    assert(distinct_keys(t)) by {
                        assert(forall|a: int| 0 <= a < s.len() ==> t[a] == s[a]);
                    }
                }
                self.entries.push((key, FsEntry::File(content)));
                Ok(())
            },
        }
    }

    /// Removes the whole subtree rooted at `root`, `root` itself included;
    /// removing an absent subtree succeeds and changes nothing.
    pub fn remove_tree(&mut self, root: &PathSegs)
        requires
            old(self).wf(),
        ensures
            final(self).wf(),
            final(self)@ == remove_subtree(old(self)@, root.deep_view()),
    {
        let ghost m = self@;
        let ghost s = self.entries@;
        let ghost rootv = root.deep_view();
        let n = self.entries.len();
        let mut acc: Vec<(PathSegs, FsEntry)> = Vec::new();
        let mut i: usize = 0;
        while i < n
            invariant
                distinct_keys(s),
                m == entries_map(s),
                n == s.len(),
                0 <= i <= n,
                distinct_keys(acc@),
                self.entries@ == s,
                rootv == root.deep_view(),
                entries_map(acc@) == remove_subtree(entries_map(s.take(i as int)), rootv),
            decreases n - i,
        {
            let ghost mprev = entries_map(s.take(i as int));
            let ghost mnext = entries_map(s.take(i + 1 as int));
            proof {
                assert(s.take(i + 1 as int).drop_last() =~= s.take(i as int));
                assert(s.take(i + 1 as int).last() == s[i as int]);
                assert(mnext == mprev.insert(s[i as int].0.deep_view(), s[i as int].1@));
            }
            let keep = !path_is_prefix(root, &self.entries[i].0);
            if keep {
                let pair = (clone_path(&self.entries[i].0), self.entries[i].1.dup());
                let ghost old_acc = acc@;
                proof {
                    let k = s[i as int].0.deep_view();
                    assert forall|j: int| 0 <= j < old_acc.len() implies (#[trigger] old_acc[j]).0.deep_view()
                        != k by {
                        if old_acc[j].0.deep_view() == k {
                            lemma_entries_map_index(old_acc, j);
                            assert(mprev.contains_key(k));
                            lemma_entries_map_contains(s.take(i as int), k);
                            let ii = choose|ii: int|
                                0 <= ii < s.take(i as int).len() && (#[trigger] s.take(
                                    i as int,
                                )[ii]).0.deep_view() == k;
                            assert(s[ii] == s.take(i as int)[ii]);
                        }
                    }
                }
                acc.push(pair);
                proof {
                    assert(acc@.drop_last() =~= old_acc);
                    assert(acc@.last() == pair);
                    assert(entries_map(acc@) == entries_map(old_acc).insert(
                        pair.0.deep_view(),
                        pair.1@,
                    ));
                    assert(distinct_keys(acc@)) by {
                        assert(forall|a: int| 0 <= a < old_acc.len() ==> acc@[a] == old_acc[a]);
                    }
                    let k = s[i as int].0.deep_view();
                    let lhs = entries_map(old_acc).insert(pair.0.deep_view(), pair.1@);
                    let rhs = remove_subtree(mnext, rootv);
                    assert(entries_map(acc@) == lhs);
                    assert forall|p: Seq<Seq<char>>| #[trigger] lhs.contains_key(p) implies
                        rhs.contains_key(p) && lhs[p] == rhs[p] by {
                        if p == k {
                            assert(mnext.contains_key(k));
                            assert(mnext[k] == s[i as int].1@);
                            assert(!rootv.is_prefix_of(k));
                        } else {
                            assert(entries_map(old_acc).contains_key(p));
                            assert(remove_subtree(mprev, rootv).contains_key(p));
                            assert(mprev.contains_key(p) && !rootv.is_prefix_of(p));
                            assert(mnext.contains_key(p));
                            assert(mnext[p] == mprev[p]);
                            assert(entries_map(old_acc)[p] == mprev[p]);
                        }
                    }
                    assert forall|p: Seq<Seq<char>>| #[trigger] rhs.contains_key(p) implies
                        lhs.contains_key(p) by {
                        assert(mnext.contains_key(p) && !rootv.is_prefix_of(p));
                        if p != k {
                            assert(mprev.contains_key(p));
                            assert(remove_subtree(mprev, rootv).contains_key(p));
                            assert(entries_map(old_acc).contains_key(p));
                        }
                    }
                    assert(lhs =~= rhs);
                }
            } else {
                proof {
                    let k = s[i as int].0.deep_view();
                    let lhs = entries_map(acc@);
                    let rhs = remove_subtree(mnext, rootv);
                    assert forall|p: Seq<Seq<char>>| #[trigger] lhs.contains_key(p) implies
                        rhs.contains_key(p) && lhs[p] == rhs[p] by {
                        assert(remove_subtree(mprev, rootv).contains_key(p));
                        assert(mprev.contains_key(p) && !rootv.is_prefix_of(p));
                        assert(p != k);
                        assert(mnext.contains_key(p));
                        assert(mnext[p] == mprev[p]);
                    }
                    assert forall|p: Seq<Seq<char>>| #[trigger] rhs.contains_key(p) implies
                        lhs.contains_key(p) by {
                        assert(mnext.contains_key(p) && !rootv.is_prefix_of(p));
                        assert(p != k);
                        assert(mprev.contains_key(p));
                        assert(remove_subtree(mprev, rootv).contains_key(p));
                    }
                    assert(lhs =~= rhs);
                }
            }
            i = i + 1;
        }
        proof {
            assert(s.take(n as int) =~= s);
        }
        self.entries = acc;
    }
}

/// A directory named `name` directly under `parent`.
pub open spec fn child_dir_in(
    m: Map<Seq<Seq<char>>, EntryView>,
    parent: Seq<Seq<char>>,
    name: Seq<char>,
) -> bool {
    m.contains_key(parent.push(name)) && m[parent.push(name)] is Dir
}

/// Whether one store entry is a directory directly under `parent`.
pub open spec fn entry_is_child_dir(ent: (PathSegs, FsEntry), parent: Seq<Seq<char>>) -> bool {
    ent.0.deep_view().len() == parent.len() + 1 && parent.is_prefix_of(ent.0.deep_view())
        && ent.1@ is Dir
}

impl Fs {
    /// The names of the directories directly under `parent`: every returned
    /// name is such a directory, and every such directory is returned.
    pub fn children_dirs(&self, parent: &PathSegs) -> (names: Vec<String>)
        requires
            self.wf(),
        ensures
            forall|j: int|
                0 <= j < names.deep_view().len() ==> child_dir_in(
                    self@,
                    parent.deep_view(),
                    #[trigger] names.deep_view()[j],
                ),
            forall|nm: Seq<char>|
                child_dir_in(self@, parent.deep_view(), nm) ==> names.deep_view().contains(nm),
    {
        let n = self.entries.len();
        let mut names: Vec<String> = Vec::new();
        let mut i: usize = 0;
        while i < n
            invariant
                self.wf(),
                n == self.entries@.len(),
                0 <= i <= n,
                forall|j: int|
                    0 <= j < names.deep_view().len() ==> child_dir_in(
                        self@,
                        parent.deep_view(),
                        #[trigger] names.deep_view()[j],
                    ),
                forall|ii: int|
                    0 <= ii < i && entry_is_child_dir(
                        #[trigger] self.entries@[ii],
                        parent.deep_view(),
                    ) ==> names.deep_view().contains(self.entries@[ii].0.deep_view().last()),
            decreases n - i,
        {
            let elen = self.entries[i].0.len();
            proof {
                assert(self.entries@[i as int].0.deep_view().len() == elen);
            }
            if elen >= 1 && elen - 1 == parent.len() && path_is_prefix(parent, &self.entries[i].0)
                && self.entries[i].1.is_dir_entry() {
                let seg = self.entries[i].0[elen - 1].clone();
                let ghost old_names = names.deep_view();
                proof {
                    let key = self.entries@[i as int].0.deep_view();
                    assert(seg@ == key[elen - 1 as int]);
                    assert(key =~= parent.deep_view().push(seg@));
                    lemma_entries_map_val(self.entries@, i as int);
                    assert(child_dir_in(self@, parent.deep_view(), seg@));
                }
                names.push(seg);
                proof {
                    assert(names.deep_view() =~= old_names.push(seg@));
                    assert(forall|j: int|
                        0 <= j < old_names.len() ==> names.deep_view()[j] == #[trigger] old_names[j]);
                    assert(names.deep_view()[old_names.len() as int] == seg@);
                    assert forall|ii: int|
                        0 <= ii < i + 1 && entry_is_child_dir(
                            #[trigger] self.entries@[ii],
                            parent.deep_view(),
                        ) implies names.deep_view().contains(
                        self.entries@[ii].0.deep_view().last(),
                    ) by {
                        if ii < i {
                            assert(old_names.contains(self.entries@[ii].0.deep_view().last()));
                            let j = choose|j: int|
                                0 <= j < old_names.len() && old_names[j]
                                    == self.entries@[ii].0.deep_view().last();
                            assert(names.deep_view()[j] == old_names[j]);
                        } else {
                            assert(self.entries@[ii].0.deep_view().last() == seg@);
                            assert(names.deep_view()[old_names.len() as int] == seg@);
                        }
                    }
                }
            } else {
                proof {
                    assert(!entry_is_child_dir(self.entries@[i as int], parent.deep_view()));
                }
            }
            i = i + 1;
        }
        proof {
            assert forall|nm: Seq<char>|
                child_dir_in(self@, parent.deep_view(), nm) implies names.deep_view().contains(
                nm,
            ) by {
                lemma_entries_map_contains(self.entries@, parent.deep_view().push(nm));
                let ii = choose|ii: int|
                    0 <= ii < self.entries@.len() && (#[trigger] self.entries@[ii]).0.deep_view()
                        == parent.deep_view().push(nm);
                lemma_entries_map_val(self.entries@, ii);
                assert(entry_is_child_dir(self.entries@[ii], parent.deep_view()));
                assert(self.entries@[ii].0.deep_view().last() == nm);
            }
        }
        names
    }
}

/// The path `base` extended with the segments of `q` from position `from`
/// onwards.
pub fn path_concat_from(base: &PathSegs, q: &PathSegs, from: usize) -> (r: PathSegs)
    requires
        from <= q@.len(),
    ensures
        r.deep_view() == base.deep_view() + q.deep_view().skip(from as int),
{
    let mut out = clone_path(base);
    let n = q.len();
    let mut i: usize = from;
    while i < n
        invariant
            from <= i <= n,
            n == q@.len(),
            out.deep_view() == base.deep_view() + q.deep_view().subrange(from as int, i as int),
        decreases n - i,
    {
        let ghost before = out.deep_view();
        out.push(q[i].clone());
        proof {
            assert(out.deep_view() =~= before.push(q.deep_view()[i as int]));
            assert(q.deep_view().subrange(from as int, i + 1 as int) =~= q.deep_view().subrange(
                from as int,
                i as int,
            ).push(q.deep_view()[i as int]));
            assert(out.deep_view() =~= base.deep_view() + q.deep_view().subrange(
                from as int,
                i + 1 as int,
            ));
        }
        i = i + 1;
    }
    out
}

} // verus!

verus! {

/// The source-tree path that the destination-tree path `p` mirrors.
pub open spec fn counterpart(
    p: Seq<Seq<char>>,
    src: Seq<Seq<char>>,
    dst: Seq<Seq<char>>,
) -> Seq<Seq<char>> {
    src + p.skip(dst.len() as int)
}

/// Both entries are directories, or both are files.
pub open spec fn kinds_match(a: EntryView, b: EntryView) -> bool {
    (a is Dir) <==> (b is Dir)
}

/// A proper, non-empty prefix of `dst`.
pub open spec fn strict_ancestor_of(p: Seq<Seq<char>>, dst: Seq<Seq<char>>) -> bool {
    1 <= p.len() < dst.len() && p == dst.subrange(0, p.len() as int)
}

/// Whether copying the tree at `src` over `dst` can succeed: `src` is a
/// directory, nothing of one kind would be copied over an entry of the
/// other kind, and no file blocks a directory on the way down to `dst`.
pub open spec fn copy_allowed(
    m: Map<Seq<Seq<char>>, EntryView>,
    src: Seq<Seq<char>>,
    dst: Seq<Seq<char>>,
) -> bool {
    &&& m.contains_key(src) && m[src] is Dir
    &&& forall|p: Seq<Seq<char>>|
        #[trigger] m.contains_key(p) && dst.is_prefix_of(p) && m.contains_key(
            counterpart(p, src, dst),
        ) ==> kinds_match(m[p], m[counterpart(p, src, dst)])
    &&& forall|p: Seq<Seq<char>>|
        #[trigger] m.contains_key(p) && strict_ancestor_of(p, dst) ==> m[p] is Dir
}

/// The store after a merge-copy of the tree at `src` over `dst`: every
/// entry of the source subtree appears at its mirrored path (overwriting),
/// missing ancestors of `dst` become directories, everything else keeps
/// its old value.
pub open spec fn copied_map(
    m: Map<Seq<Seq<char>>, EntryView>,
    src: Seq<Seq<char>>,
    dst: Seq<Seq<char>>,
) -> Map<Seq<Seq<char>>, EntryView> {
    Map::new(
        |p: Seq<Seq<char>>|
            m.contains_key(p) || (dst.is_prefix_of(p) && m.contains_key(counterpart(p, src, dst)))
                || strict_ancestor_of(p, dst),
        |p: Seq<Seq<char>>|
            if dst.is_prefix_of(p) && m.contains_key(counterpart(p, src, dst)) {
                m[counterpart(p, src, dst)]
            } else if m.contains_key(p) {
                m[p]
            } else {
                EntryView::Dir
            },
    )
}

/// One scanned entry raises no objection to the copy.
pub open spec fn scanned_ok(
    m: Map<Seq<Seq<char>>, EntryView>,
    src: Seq<Seq<char>>,
    dst: Seq<Seq<char>>,
    ent: (PathSegs, FsEntry),
) -> bool {
    &&& (strict_ancestor_of(ent.0.deep_view(), dst) ==> ent.1@ is Dir)
    &&& (dst.is_prefix_of(ent.0.deep_view()) && m.contains_key(
        counterpart(ent.0.deep_view(), src, dst),
    ) ==> kinds_match(ent.1@, m[counterpart(ent.0.deep_view(), src, dst)]))
}

/// An entry kept by the merge-copy: not overwritten by a source entry.
pub open spec fn keep_cond(
    m: Map<Seq<Seq<char>>, EntryView>,
    src: Seq<Seq<char>>,
    dst: Seq<Seq<char>>,
    p: Seq<Seq<char>>,
) -> bool {
    !(dst.is_prefix_of(p) && m.contains_key(counterpart(p, src, dst)))
}

/// An ancestor of `dst` of length at most `lim` that the store lacks.
pub open spec fn anc_missing(
    m: Map<Seq<Seq<char>>, EntryView>,
    dst: Seq<Seq<char>>,
    p: Seq<Seq<char>>,
    lim: int,
) -> bool {
    1 <= p.len() <= lim && p == dst.subrange(0, p.len() as int) && !m.contains_key(p)
}

/// The store part-way through the keep pass: the first `part` entries,
/// those not overwritten by the copy.
pub open spec fn pass_keep_map(
    part: Map<Seq<Seq<char>>, EntryView>,
    m: Map<Seq<Seq<char>>, EntryView>,
    src: Seq<Seq<char>>,
    dst: Seq<Seq<char>>,
) -> Map<Seq<Seq<char>>, EntryView> {
    Map::new(
        |p: Seq<Seq<char>>| part.contains_key(p) && keep_cond(m, src, dst, p),
        |p: Seq<Seq<char>>| part[p],
    )
}

/// The store part-way through the ancestor pass: all kept entries, plus
/// the missing ancestors of `dst` up to length `lim` as directories.
pub open spec fn pass_anc_map(
    m: Map<Seq<Seq<char>>, EntryView>,
    src: Seq<Seq<char>>,
    dst: Seq<Seq<char>>,
    lim: int,
) -> Map<Seq<Seq<char>>, EntryView> {
    Map::new(
        |p: Seq<Seq<char>>| (m.contains_key(p) && keep_cond(m, src, dst, p)) || anc_missing(
            m,
            dst,
            p,
            lim,
        ),
        |p: Seq<Seq<char>>|
            if m.contains_key(p) {
                m[p]
            } else {
                EntryView::Dir
            },
    )
}

/// The store part-way through the copy pass: kept entries, missing
/// ancestors, and the mirrored images of the sources seen so far (`part`).
pub open spec fn pass_copy_map(
    part: Map<Seq<Seq<char>>, EntryView>,
    m: Map<Seq<Seq<char>>, EntryView>,
    src: Seq<Seq<char>>,
    dst: Seq<Seq<char>>,
) -> Map<Seq<Seq<char>>, EntryView> {
    Map::new(
        |p: Seq<Seq<char>>| (m.contains_key(p) && keep_cond(m, src, dst, p)) || anc_missing(
            m,
            dst,
            p,
            dst.len() - 1,
        ) || (dst.is_prefix_of(p) && part.contains_key(counterpart(p, src, dst))),
        |p: Seq<Seq<char>>|
            if dst.is_prefix_of(p) && part.contains_key(counterpart(p, src, dst)) {
                part[counterpart(p, src, dst)]
            } else if m.contains_key(p) {
                m[p]
            } else {
                EntryView::Dir
            },
    )
}

} // verus!

verus! {

/// Stripping a concatenation recovers its tail, and the head is a prefix.
pub proof fn lemma_concat_skip(a: Seq<Seq<char>>, x: Seq<Seq<char>>)
    ensures
        (a + x).skip(a.len() as int) == x,
        a.is_prefix_of(a + x),
{
    assert((a + x).skip(a.len() as int) =~= x);
    assert((a + x).subrange(0, a.len() as int) =~= a);
}

/// A path with a given prefix is that prefix plus the rest.
pub proof fn lemma_prefix_restore(a: Seq<Seq<char>>, p: Seq<Seq<char>>)
    requires
        a.is_prefix_of(p),
    ensures
        a + p.skip(a.len() as int) == p,
{
    assert(a + p.skip(a.len() as int) =~= p);
}

impl Fs {
    /// Merge-copies the tree at `src` over `dst`: recreates every source
    /// entry at its mirrored destination path (overwriting files), creates
    /// `dst` and its missing ancestors as directories, and leaves every
    /// unrelated entry as it was. Fails, changing nothing, when `src` is
    /// not a directory, when an entry of one kind would land on an entry
    /// of the other kind, or when a file blocks the way down to `dst`.
    pub fn copy_tree(&mut self, src: &PathSegs, dst: &PathSegs) -> (r: Result<(), Error>)
        requires
            old(self).wf(),
            src@.len() >= 1,
            dst@.len() >= 1,
        ensures
            final(self).wf(),
            match r {
                Ok(()) => copy_allowed(old(self)@, src.deep_view(), dst.deep_view())
                    && final(self)@ == copied_map(old(self)@, src.deep_view(), dst.deep_view()),
                Err(e) => e == Error::Io && *final(self) == *old(self) && !copy_allowed(
                    old(self)@,
                    src.deep_view(),
                    dst.deep_view(),
                ),
            },
    {
        let ghost m = self@;
        let ghost s = self.entries@;
        let ghost srcv = src.deep_view();
        let ghost dstv = dst.deep_view();
        if !self.is_dir(src) {
            return Err(Error::Io);
        }
        let n = self.entries.len();
        let mut i: usize = 0;
        while i < n
            invariant
                self.wf(),
                s == self.entries@,
                m == self@,
                srcv == src.deep_view(),
                dstv == dst.deep_view(),
                n == s.len(),
                0 <= i <= n,
                forall|ii: int| 0 <= ii < i ==> scanned_ok(m, srcv, dstv, #[trigger] s[ii]),
            decreases n - i,
        {
            let qlen = self.entries[i].0.len();
            proof {
                assert(s[i as int].0.deep_view().len() == qlen);
                assert(dstv.len() == dst@.len());
            }
            if qlen >= 1 && qlen < dst.len() && path_is_prefix(&self.entries[i].0, dst) {
                if !self.entries[i].1.is_dir_entry() {
                    proof {
                        lemma_entries_map_val(s, i as int);
                        assert(strict_ancestor_of(s[i as int].0.deep_view(), dstv));
                        assert(m.contains_key(s[i as int].0.deep_view()) && !(m[s[i as int].0.deep_view()] is Dir));
                        assert(!copy_allowed(m, srcv, dstv));
                    }
                    return Err(Error::Io);
                }
            }
            if path_is_prefix(dst, &self.entries[i].0) {
                proof {
                    assert(dst@.len() <= qlen);
                }
                let cp = path_concat_from(src, &self.entries[i].0, dst.len());
                match self.find(&cp) {
                    Some(j) => {
                        let k1 = self.entries[i].1.is_dir_entry();
                        let k2 = self.entries[j].1.is_dir_entry();
                        if k1 != k2 {
                            proof {
                                let pv = s[i as int].0.deep_view();
                                lemma_entries_map_val(s, i as int);
                                assert(cp.deep_view() == counterpart(pv, srcv, dstv));
                                assert(m.contains_key(pv) && dstv.is_prefix_of(pv)
                                    && m.contains_key(counterpart(pv, srcv, dstv)));
                                assert(!kinds_match(m[pv], m[counterpart(pv, srcv, dstv)]));
                                assert(!copy_allowed(m, srcv, dstv));
                            }
                            return Err(Error::Io);
                        }
                        proof {
                            assert(scanned_ok(m, srcv, dstv, s[i as int]));
                        }
                    },
                    None => {
                        proof {
                            assert(scanned_ok(m, srcv, dstv, s[i as int]));
                        }
                    },
                }
            } else {
                proof {
                    assert(scanned_ok(m, srcv, dstv, s[i as int]));
                }
            }
            i = i + 1;
        }
        proof {
            assert forall|p: Seq<Seq<char>>|
                #[trigger] m.contains_key(p) && dstv.is_prefix_of(p) && m.contains_key(
                    counterpart(p, srcv, dstv),
                ) implies kinds_match(m[p], m[counterpart(p, srcv, dstv)]) by {
                lemma_entries_map_contains(s, p);
                let ii = choose|ii: int| 0 <= ii < s.len() && (#[trigger] s[ii]).0.deep_view() == p;
                lemma_entries_map_val(s, ii);
                assert(scanned_ok(m, srcv, dstv, s[ii]));
            }
            assert forall|p: Seq<Seq<char>>|
                #[trigger] m.contains_key(p) && strict_ancestor_of(p, dstv) implies m[p] is Dir by {
                lemma_entries_map_contains(s, p);
                let ii = choose|ii: int| 0 <= ii < s.len() && (#[trigger] s[ii]).0.deep_view() == p;
                lemma_entries_map_val(s, ii);
                assert(scanned_ok(m, srcv, dstv, s[ii]));
            }
            assert(copy_allowed(m, srcv, dstv));
        }
        // keep pass: everything the copy does not overwrite
        let mut acc: Vec<(PathSegs, FsEntry)> = Vec::new();
        let mut i: usize = 0;
        while i < n
            invariant
                self.wf(),
                s == self.entries@,
                m == self@,
                srcv == src.deep_view(),
                dstv == dst.deep_view(),
                n == s.len(),
                0 <= i <= n,
                distinct_keys(acc@),
                entries_map(acc@) == pass_keep_map(entries_map(s.take(i as int)), m, srcv, dstv),
            decreases n - i,
        {
            let ghost mprev = entries_map(s.take(i as int));
            let ghost mnext = entries_map(s.take(i + 1 as int));
            let ghost k = s[i as int].0.deep_view();
            proof {
                assert(s.take(i + 1 as int).drop_last() =~= s.take(i as int));
                assert(s.take(i + 1 as int).last() == s[i as int]);
                assert(mnext == mprev.insert(k, s[i as int].1@));
            }
            let mut keep = true;
            let qlen = self.entries[i].0.len();
            proof {
                assert(k.len() == qlen);
                assert(dstv.len() == dst@.len());
            }
            if path_is_prefix(dst, &self.entries[i].0) {
                let cp = path_concat_from(src, &self.entries[i].0, dst.len());
                if self.find(&cp).is_some() {
                    keep = false;
                }
                proof {
                    assert(cp.deep_view() == counterpart(k, srcv, dstv));
                }
            }
            proof {
                assert(keep == keep_cond(m, srcv, dstv, k));
            }
            if keep {
                let pair = (clone_path(&self.entries[i].0), self.entries[i].1.dup());
                let ghost old_acc = acc@;
                proof {
                    assert forall|j: int| 0 <= j < old_acc.len() implies (#[trigger] old_acc[j]).0.deep_view()
                        != k by {
                        if old_acc[j].0.deep_view() == k {
                            lemma_entries_map_index(old_acc, j);
                            assert(mprev.contains_key(k));
                            lemma_entries_map_contains(s.take(i as int), k);
                            let ii = choose|ii: int|
                                0 <= ii < s.take(i as int).len() && (#[trigger] s.take(
                                    i as int,
                                )[ii]).0.deep_view() == k;
                            assert(s[ii] == s.take(i as int)[ii]);
                        }
                    }
                }
                acc.push(pair);
                proof {
                    assert(acc@.drop_last() =~= old_acc);
                    assert(acc@.last() == pair);
                    let lhs = entries_map(old_acc).insert(k, pair.1@);
                    assert(entries_map(acc@) == lhs);
                    assert(distinct_keys(acc@)) by {
                        assert(forall|a: int| 0 <= a < old_acc.len() ==> acc@[a] == old_acc[a]);
                    }
                    let rhs = pass_keep_map(mnext, m, srcv, dstv);
                    assert forall|p: Seq<Seq<char>>| #[trigger] lhs.contains_key(p) implies
                        rhs.contains_key(p) && lhs[p] == rhs[p] by {
                        if p == k {
                            assert(mnext.contains_key(k) && mnext[k] == s[i as int].1@);
                        } else {
                            assert(entries_map(old_acc).contains_key(p));
                            assert(pass_keep_map(mprev, m, srcv, dstv).contains_key(p));
                            assert(mprev.contains_key(p) && keep_cond(m, srcv, dstv, p));
                            assert(mnext.contains_key(p) && mnext[p] == mprev[p]);
                        }
                    }
                    assert forall|p: Seq<Seq<char>>| #[trigger] rhs.contains_key(p) implies
                        lhs.contains_key(p) by {
                        if p != k {
                            assert(mnext.contains_key(p) && keep_cond(m, srcv, dstv, p));
                            assert(mprev.contains_key(p));
                            assert(pass_keep_map(mprev, m, srcv, dstv).contains_key(p));
                            assert(entries_map(old_acc).contains_key(p));
                        }
                    }
                    assert(lhs =~= rhs);
                }
            } else {
                proof {
                    let lhs = entries_map(acc@);
                    let rhs = pass_keep_map(mnext, m, srcv, dstv);
                    assert forall|p: Seq<Seq<char>>| #[trigger] lhs.contains_key(p) implies
                        rhs.contains_key(p) && lhs[p] == rhs[p] by {
                        assert(pass_keep_map(mprev, m, srcv, dstv).contains_key(p));
                        assert(mprev.contains_key(p) && keep_cond(m, srcv, dstv, p));
                        assert(p != k);
                        assert(mnext.contains_key(p) && mnext[p] == mprev[p]);
                    }
                    assert forall|p: Seq<Seq<char>>| #[trigger] rhs.contains_key(p) implies
                        lhs.contains_key(p) by {
                        assert(mnext.contains_key(p) && keep_cond(m, srcv, dstv, p));
                        assert(p != k);
                        assert(mprev.contains_key(p));
                        assert(pass_keep_map(mprev, m, srcv, dstv).contains_key(p));
                    }
                    assert(lhs =~= rhs);
                }
            }
            i = i + 1;
        }
        proof {
            assert(s.take(n as int) =~= s);
        }
        // ancestor pass: create what is missing on the way down to `dst`
        let dlen = dst.len();
        let mut anc: PathSegs = Vec::new();
        let mut l: usize = 0;
        proof {
            assert(anc.deep_view() =~= dstv.subrange(0, 0));
            let anc_start = pass_anc_map(m, srcv, dstv, 0);
            let keep_end = pass_keep_map(m, m, srcv, dstv);
            assert forall|p: Seq<Seq<char>>| #[trigger] keep_end.contains_key(p) implies
                anc_start.contains_key(p) && keep_end[p] == anc_start[p] by {}
            assert forall|p: Seq<Seq<char>>| #[trigger] anc_start.contains_key(p) implies
                keep_end.contains_key(p) by {}
            assert(keep_end =~= anc_start);
        }
        while l + 1 < dlen
            invariant
                self.wf(),
                s == self.entries@,
                m == self@,
                srcv == src.deep_view(),
                dstv == dst.deep_view(),
                dlen == dst@.len(),
                dstv.len() == dlen,
                0 <= l <= dlen - 1,
                anc@.len() == l,
                anc.deep_view() == dstv.subrange(0, l as int),
                distinct_keys(acc@),
                entries_map(acc@) == pass_anc_map(m, srcv, dstv, l as int),
            decreases dlen - l,
        {
            anc.push(dst[l].clone());
            let ghost av = anc.deep_view();
            proof {
                assert(av =~= dstv.subrange(0, l + 1 as int));
                assert(av.len() == l + 1);
            }
            match self.find(&anc) {
                None => {
                    let pair = (clone_path(&anc), FsEntry::Dir);
                    let ghost old_acc = acc@;
                    proof {
                        assert forall|j: int| 0 <= j < old_acc.len() implies (#[trigger] old_acc[j]).0.deep_view()
                            != av by {
                            if old_acc[j].0.deep_view() == av {
                                lemma_entries_map_index(old_acc, j);
                                assert(pass_anc_map(m, srcv, dstv, l as int).contains_key(av));
                            }
                        }
                    }
                    acc.push(pair);
                    proof {
                        assert(acc@.drop_last() =~= old_acc);
                        assert(acc@.last() == pair);
                        let lhs = entries_map(old_acc).insert(av, EntryView::Dir);
                        assert(entries_map(acc@) == lhs);
                        assert(distinct_keys(acc@)) by {
                            assert(forall|a: int| 0 <= a < old_acc.len() ==> acc@[a] == old_acc[a]);
                        }
                        let rhs = pass_anc_map(m, srcv, dstv, l + 1 as int);
                        assert forall|p: Seq<Seq<char>>| #[trigger] lhs.contains_key(p) implies
                            rhs.contains_key(p) && lhs[p] == rhs[p] by {
                            if p == av {
                                assert(anc_missing(m, dstv, av, l + 1 as int));
                            } else {
                                assert(pass_anc_map(m, srcv, dstv, l as int).contains_key(p));
                            }
                        }
                        assert forall|p: Seq<Seq<char>>| #[trigger] rhs.contains_key(p) implies
                            lhs.contains_key(p) by {
                            if p != av {
                                if anc_missing(m, dstv, p, l + 1 as int) {
                                    assert(p.len() != l + 1 || p =~= av);
                                    assert(anc_missing(m, dstv, p, l as int));
                                }
                                assert(pass_anc_map(m, srcv, dstv, l as int).contains_key(p));
                            }
                        }
                        assert(lhs =~= rhs);
                    }
                },
                Some(_) => {
                    proof {
                        let lhs = entries_map(acc@);
                        let rhs = pass_anc_map(m, srcv, dstv, l + 1 as int);
                        assert forall|p: Seq<Seq<char>>| #[trigger] rhs.contains_key(p) implies
                            lhs.contains_key(p) && lhs[p] == rhs[p] by {
                            if anc_missing(m, dstv, p, l + 1 as int) && p.len() == l + 1 {
                                assert(p =~= av);
                                assert(false);
                            }
                            assert(pass_anc_map(m, srcv, dstv, l as int).contains_key(p));
                        }
                        assert forall|p: Seq<Seq<char>>| #[trigger] lhs.contains_key(p) implies
                            rhs.contains_key(p) by {
                            assert(pass_anc_map(m, srcv, dstv, l as int).contains_key(p));
                        }
                        assert(lhs =~= rhs);
                    }
                },
            }
            l = l + 1;
        }
        proof {
            assert(l == dlen - 1);
            // entering the copy pass with no sources processed yet
            let copy_start = pass_copy_map(entries_map(s.take(0)), m, srcv, dstv);
            let anc_end = pass_anc_map(m, srcv, dstv, dlen - 1 as int);
            assert(s.take(0) =~= Seq::<(PathSegs, FsEntry)>::empty());
            assert forall|p: Seq<Seq<char>>| #[trigger] anc_end.contains_key(p) implies
                copy_start.contains_key(p) && anc_end[p] == copy_start[p] by {}
            assert forall|p: Seq<Seq<char>>| #[trigger] copy_start.contains_key(p) implies
                anc_end.contains_key(p) by {}
            assert(anc_end =~= copy_start);
        }
        // copy pass: mirror every source entry to its destination path
        let mut i: usize = 0;
        while i < n
            invariant
                self.wf(),
                s == self.entries@,
                m == self@,
                srcv == src.deep_view(),
                dstv == dst.deep_view(),
                srcv.len() >= 1,
                dstv.len() >= 1,
                n == s.len(),
                0 <= i <= n,
                distinct_keys(acc@),
                entries_map(acc@) == pass_copy_map(entries_map(s.take(i as int)), m, srcv, dstv),
            decreases n - i,
        {
            let ghost mprev = entries_map(s.take(i as int));
            let ghost mnext = entries_map(s.take(i + 1 as int));
            let ghost qv = s[i as int].0.deep_view();
            proof {
                assert(s.take(i + 1 as int).drop_last() =~= s.take(i as int));
                assert(s.take(i + 1 as int).last() == s[i as int]);
                assert(mnext == mprev.insert(qv, s[i as int].1@));
                assert(qv.len() == self.entries@[i as int].0@.len());
                assert(srcv.len() == src@.len());
            }
            if path_is_prefix(src, &self.entries[i].0) {
                let ck = path_concat_from(dst, &self.entries[i].0, src.len());
                let ghost ckv = ck.deep_view();
                let pair = (ck, self.entries[i].1.dup());
                let ghost old_acc = acc@;
                proof {
                    lemma_prefix_restore(srcv, qv);
                    lemma_concat_skip(dstv, qv.skip(srcv.len() as int));
                    lemma_concat_skip(srcv, qv.skip(srcv.len() as int));
                    assert(ckv == dstv + qv.skip(srcv.len() as int));
                    assert(dstv.is_prefix_of(ckv));
                    assert(counterpart(ckv, srcv, dstv) == srcv + ckv.skip(dstv.len() as int));
                    assert(ckv.skip(dstv.len() as int) == qv.skip(srcv.len() as int));
                    assert(counterpart(ckv, srcv, dstv) == qv);
                    lemma_entries_map_val(s, i as int);
                    assert(m.contains_key(qv));
                    assert forall|j: int| 0 <= j < old_acc.len() implies (#[trigger] old_acc[j]).0.deep_view()
                        != ckv by {
                        if old_acc[j].0.deep_view() == ckv {
                            lemma_entries_map_index(old_acc, j);
                            let pc = pass_copy_map(mprev, m, srcv, dstv);
                            assert(pc.contains_key(ckv));
                            if m.contains_key(ckv) && keep_cond(m, srcv, dstv, ckv) {
                                assert(false);
                            } else if anc_missing(m, dstv, ckv, dstv.len() - 1) {
                                assert(ckv.len() >= dstv.len());
                                assert(false);
                            } else {
                                assert(mprev.contains_key(qv));
                                lemma_entries_map_contains(s.take(i as int), qv);
                                let ii = choose|ii: int|
                                    0 <= ii < s.take(i as int).len() && (#[trigger] s.take(
                                        i as int,
                                    )[ii]).0.deep_view() == qv;
                                assert(s[ii] == s.take(i as int)[ii]);
                                assert(false);
                            }
                        }
                    }
                }
                acc.push(pair);
                proof {
                    assert(acc@.drop_last() =~= old_acc);
                    assert(acc@.last() == pair);
                    let lhs = entries_map(old_acc).insert(ckv, s[i as int].1@);
                    assert(entries_map(acc@) == lhs);
                    assert(distinct_keys(acc@)) by {
                        assert(forall|a: int| 0 <= a < old_acc.len() ==> acc@[a] == old_acc[a]);
                    }
                    let rhs = pass_copy_map(mnext, m, srcv, dstv);
                    assert forall|p: Seq<Seq<char>>| #[trigger] lhs.contains_key(p) implies
                        rhs.contains_key(p) && lhs[p] == rhs[p] by {
                        if p == ckv {
                            assert(mnext.contains_key(qv) && mnext[qv] == s[i as int].1@);
                        } else {
                            assert(entries_map(old_acc).contains_key(p));
                            let pc = pass_copy_map(mprev, m, srcv, dstv);
                            assert(pc.contains_key(p));
                            if dstv.is_prefix_of(p) && counterpart(p, srcv, dstv) == qv {
                                lemma_prefix_restore(dstv, p);
                                lemma_concat_skip(srcv, p.skip(dstv.len() as int));
                                assert(p.skip(dstv.len() as int) == qv.skip(srcv.len() as int));
                                assert(p == ckv);
                                assert(false);
                            }
                            if dstv.is_prefix_of(p) && mprev.contains_key(
                                counterpart(p, srcv, dstv),
                            ) {
                                assert(mnext.contains_key(counterpart(p, srcv, dstv)));
                                assert(mnext[counterpart(p, srcv, dstv)] == mprev[counterpart(
                                    p,
                                    srcv,
                                    dstv,
                                )]);
                            } else {
                                if dstv.is_prefix_of(p) && mnext.contains_key(
                                    counterpart(p, srcv, dstv),
                                ) {
                                    assert(counterpart(p, srcv, dstv) == qv);
                                    assert(false);
                                }
                            }
                        }
                    }
                    assert forall|p: Seq<Seq<char>>| #[trigger] rhs.contains_key(p) implies
                        lhs.contains_key(p) by {
                        if p != ckv {
                            let pc = pass_copy_map(mprev, m, srcv, dstv);
                            if dstv.is_prefix_of(p) && mnext.contains_key(
                                counterpart(p, srcv, dstv),
                            ) {
                                if counterpart(p, srcv, dstv) == qv {
                                    lemma_prefix_restore(dstv, p);
                                    lemma_concat_skip(srcv, p.skip(dstv.len() as int));
                                    assert(p.skip(dstv.len() as int) == qv.skip(
                                        srcv.len() as int,
                                    ));
                                    assert(p == ckv);
                                    assert(false);
                                }
                                assert(mprev.contains_key(counterpart(p, srcv, dstv)));
                            }
                            assert(pc.contains_key(p));
                            assert(entries_map(old_acc).contains_key(p));
                        }
                    }
                    assert(lhs =~= rhs);
                }
            } else {
                proof {
                    let lhs = entries_map(acc@);
                    let rhs = pass_copy_map(mnext, m, srcv, dstv);
                    assert forall|p: Seq<Seq<char>>| #[trigger] rhs.contains_key(p) implies
                        lhs.contains_key(p) && lhs[p] == rhs[p] by {
                        if dstv.is_prefix_of(p) && mnext.contains_key(counterpart(p, srcv, dstv)) {
                            if counterpart(p, srcv, dstv) == qv {
                                lemma_concat_skip(srcv, p.skip(dstv.len() as int));
                                assert(srcv.is_prefix_of(qv));
                                assert(false);
                            }
                            assert(mprev.contains_key(counterpart(p, srcv, dstv)));
                            assert(mnext[counterpart(p, srcv, dstv)] == mprev[counterpart(
                                p,
                                srcv,
                                dstv,
                            )]);
                        }
                        assert(pass_copy_map(mprev, m, srcv, dstv).contains_key(p));
                    }
                    assert forall|p: Seq<Seq<char>>| #[trigger] lhs.contains_key(p) implies
                        rhs.contains_key(p) by {
                        assert(pass_copy_map(mprev, m, srcv, dstv).contains_key(p));
                        if dstv.is_prefix_of(p) && mprev.contains_key(counterpart(p, srcv, dstv)) {
                            assert(mnext.contains_key(counterpart(p, srcv, dstv)));
                        }
                    }
                    assert(lhs =~= rhs);
                }
            }
            i = i + 1;
        }
        proof {
            assert(s.take(n as int) =~= s);
            let fin = pass_copy_map(m, m, srcv, dstv);
            let goal = copied_map(m, srcv, dstv);
            assert forall|p: Seq<Seq<char>>| #[trigger] fin.contains_key(p) implies
                goal.contains_key(p) && fin[p] == goal[p] by {
                if anc_missing(m, dstv, p, dstv.len() - 1) {
                    assert(strict_ancestor_of(p, dstv));
                }
            }
            assert forall|p: Seq<Seq<char>>| #[trigger] goal.contains_key(p) implies
                fin.contains_key(p) by {
                if m.contains_key(p) {
                    if !keep_cond(m, srcv, dstv, p) {
                        assert(dstv.is_prefix_of(p) && m.contains_key(counterpart(p, srcv, dstv)));
                    }
                } else if dstv.is_prefix_of(p) && m.contains_key(counterpart(p, srcv, dstv)) {
                } else {
                    assert(strict_ancestor_of(p, dstv));
                    assert(anc_missing(m, dstv, p, dstv.len() - 1));
                }
            }
            assert(fin =~= goal);
        }
        self.entries = acc;
        Ok(())
    }
}

} // verus!

verus! {

/// The contents of the file at `k`, `None` when `k` is absent or names a
/// directory.
pub open spec fn file_at(m: Map<Seq<Seq<char>>, EntryView>, k: Seq<Seq<char>>) -> Option<
    Seq<char>,
> {
    if m.contains_key(k) {
        match m[k] {
            EntryView::File(c) => Some(c),
            EntryView::Dir => None,
        }
    } else {
        None
    }
}

impl Fs {
    /// Reads the file at `p`, telling a missing entry (`Ok(None)`) apart
    /// from a directory standing in the way (`Err`).
    pub fn lookup_file(&self, p: &PathSegs) -> (r: Result<Option<String>, Error>)
        requires
            self.wf(),
        ensures
            match r {
                Ok(Some(c)) => file_at(self@, p.deep_view()) == Some(c@),
                Ok(None) => !self@.contains_key(p.deep_view()),
                Err(e) => e == Error::Io && self@.contains_key(p.deep_view())
                    && self@[p.deep_view()] is Dir,
            },
    {
        match self.get_file(p) {
            Some(c) => Ok(Some(c.clone())),
            None => {
                if self.is_dir(p) {
                    Err(Error::Io)
                } else {
                    Ok(None)
                }
            },
        }
    }
}

} // verus!
