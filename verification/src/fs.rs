//! An explicit filesystem model.
//!
//! The agent's filesystem semantics are stated and proved over a flat store
//! of entries: each entry names an absolute path (a list of named segments)
//! and holds what lives there — a directory (carrying its storage device), a
//! regular file (bytes and timestamps), a symbolic link (its target string,
//! never resolved), or something else (a socket, a device node). The root
//! directory is implicit and always exists.

use vstd::prelude::*;
use crate::paths::{bytes_list_model, bytes_eq, clone_bytes, lemma_bytes_list_model_len,
    lemma_bytes_list_model_index, lemma_bytes_list_model_push, lemma_bytes_list_model_drop_last};
use crate::stream::pipe;

verus! {

/// What one filesystem object is.
#[derive(Debug, PartialEq, Eq)]
pub enum EntryKind {
    /// A directory, living on storage device `device`.
    Dir { device: u32 },
    /// A regular file.
    File { data: Vec<u8>, modified: u64, created: u64 },
    /// A symbolic link; the target is kept as an uninterpreted string.
    Symlink { target: Vec<u8> },
    /// Any other object: sockets, device nodes, entries whose type cannot be
    /// read.
    Other,
}

/// Mathematical model of an entry's kind.
pub ghost enum KindModel {
    Dir { device: u32 },
    File { data: Seq<u8>, modified: u64, created: u64 },
    Symlink { target: Seq<u8> },
    Other,
}

impl View for EntryKind {
    type V = KindModel;

    open spec fn view(&self) -> KindModel {
        match self {
            EntryKind::Dir { device } => KindModel::Dir { device: *device },
            EntryKind::File { data, modified, created } => KindModel::File {
                data: data@,
                modified: *modified,
                created: *created,
            },
            EntryKind::Symlink { target } => KindModel::Symlink { target: target@ },
            EntryKind::Other => KindModel::Other,
        }
    }
}

/// One named object of the filesystem.
#[derive(Debug, PartialEq, Eq)]
pub struct FsEntry {
    /// Absolute path: the named segments from the root down.
    pub path: Vec<Vec<u8>>,
    /// What lives there.
    pub kind: EntryKind,
}

/// Mathematical model of one entry.
pub ghost struct EntryModel {
    pub path: Seq<Seq<u8>>,
    pub kind: KindModel,
}

pub open spec fn entry_model(e: FsEntry) -> EntryModel {
    EntryModel { path: bytes_list_model(e.path@), kind: e.kind@ }
}

pub open spec fn entries_model(s: Seq<FsEntry>) -> Seq<EntryModel> {
    s.map_values(|e: FsEntry| entry_model(e))
}

pub broadcast proof fn lemma_entries_model_len(s: Seq<FsEntry>)
    ensures
        #![trigger entries_model(s)]
        entries_model(s).len() == s.len(),
{
}

pub broadcast proof fn lemma_entries_model_index(s: Seq<FsEntry>, i: int)
    requires
        0 <= i < s.len(),
    ensures
        #![trigger entries_model(s)[i]]
        #![trigger entries_model(s), s[i]]
        entries_model(s)[i] == entry_model(s[i]),
{
}

pub proof fn lemma_entries_model_push(s: Seq<FsEntry>, e: FsEntry)
    ensures
        entries_model(s.push(e)) == entries_model(s).push(entry_model(e)),
{
    broadcast use lemma_entries_model_len, lemma_entries_model_index;

    assert forall|k: int| 0 <= k < s.len() + 1 implies #[trigger] entries_model(s.push(e))[k]
        == entries_model(s).push(entry_model(e))[k] by {
        if k < s.len() {
            assert(s.push(e)[k] == s[k]);
        } else {
            assert(s.push(e)[k] == e);
        }
    }
    assert(entries_model(s.push(e)) =~= entries_model(s).push(entry_model(e)));
}

pub proof fn lemma_entries_model_update(s: Seq<FsEntry>, i: int, e: FsEntry)
    requires
        0 <= i < s.len(),
    ensures
        entries_model(s.update(i, e)) == entries_model(s).update(i, entry_model(e)),
{
    broadcast use lemma_entries_model_len, lemma_entries_model_index;

    assert forall|k: int| 0 <= k < s.len() implies #[trigger] entries_model(s.update(i, e))[k]
        == entries_model(s).update(i, entry_model(e))[k] by {
        if k != i {
            assert(s.update(i, e)[k] == s[k]);
        } else {
            assert(s.update(i, e)[k] == e);
        }
    }
    assert(entries_model(s.update(i, e)) =~= entries_model(s).update(i, entry_model(e)));
}

/// The whole simulated filesystem.
#[derive(Debug)]
pub struct SimFs {
    /// The storage device of the implicit root directory.
    pub root_device: u32,
    /// Every object other than the root, in creation order.
    pub entries: Vec<FsEntry>,
}

/// Mathematical model of the filesystem.
pub ghost struct FsModel {
    pub root_device: u32,
    pub entries: Seq<EntryModel>,
}

impl View for SimFs {
    type V = FsModel;

    open spec fn view(&self) -> FsModel {
        FsModel { root_device: self.root_device, entries: entries_model(self.entries@) }
    }
}

/// What the last entry at path `p` holds, if any. Under [`unique_paths`] this
/// is the one entry at `p`.
pub open spec fn find_at(s: Seq<EntryModel>, p: Seq<Seq<u8>>) -> Option<KindModel>
    decreases s.len(),
{
    if s.len() == 0 {
        None
    } else if s.last().path == p {
        Some(s.last().kind)
    } else {
        find_at(s.drop_last(), p)
    }
}

/// What lives at path `p`: the implicit root directory for the empty path,
/// else the entry at `p`.
pub open spec fn kind_at(fs: FsModel, p: Seq<Seq<u8>>) -> Option<KindModel> {
    if p.len() == 0 {
        Some(KindModel::Dir { device: fs.root_device })
    } else {
        find_at(fs.entries, p)
    }
}

pub open spec fn is_dir_kind(o: Option<KindModel>) -> bool {
    o matches Some(k) && k is Dir
}

/// No two entries name the same path.
pub open spec fn unique_paths(s: Seq<EntryModel>) -> bool {
    forall|i: int, j: int|
        0 <= i < j < s.len() ==> (#[trigger] s[i]).path != (#[trigger] s[j]).path
}

/// Well-formedness: no entry names the root, paths are unique, and every
/// entry below the first level hangs under an existing directory.
pub open spec fn wf_entries(s: Seq<EntryModel>) -> bool {
    &&& forall|i: int| 0 <= i < s.len() ==> (#[trigger] s[i]).path.len() >= 1
    &&& unique_paths(s)
    &&& forall|i: int|
        0 <= i < s.len() && (#[trigger] s[i]).path.len() >= 2 ==> is_dir_kind(
            find_at(s, s[i].path.drop_last()),
        )
}

pub open spec fn fs_wf(fs: FsModel) -> bool {
    wf_entries(fs.entries)
}

/// An entry found by `find_at` is an entry of the sequence.
pub proof fn lemma_find_at_none(s: Seq<EntryModel>, q: Seq<Seq<u8>>)
    requires
        forall|i: int| 0 <= i < s.len() ==> (#[trigger] s[i]).path != q,
    ensures
        find_at(s, q) is None,
    decreases s.len(),
{
    if s.len() > 0 {
        assert(s.last() == s[s.len() - 1]);
        assert forall|i: int| 0 <= i < s.drop_last().len() implies (#[trigger] s.drop_last()[i]).path
            != q by {
            assert(s.drop_last()[i] == s[i]);
        }
        lemma_find_at_none(s.drop_last(), q);
    }
}

/// With unique paths, the entry at index `i` is what `find_at` returns for
/// its path.
pub proof fn lemma_find_at_hit(s: Seq<EntryModel>, i: int)
    requires
        unique_paths(s),
        0 <= i < s.len(),
    ensures
        find_at(s, s[i].path) == Some(s[i].kind),
    decreases s.len(),
{
    if i == s.len() - 1 {
        assert(s.last() == s[i]);
    } else {
        assert(s.last() == s[s.len() - 1]);
        assert(s.last().path != s[i].path);
        assert forall|a: int, b: int| 0 <= a < b < s.drop_last().len() implies (#[trigger] s.drop_last()[a]).path
            != (#[trigger] s.drop_last()[b]).path by {
            assert(s.drop_last()[a] == s[a]);
            assert(s.drop_last()[b] == s[b]);
        }
        assert(s.drop_last()[i] == s[i]);
        lemma_find_at_hit(s.drop_last(), i);
    }
}

/// If something is found at `q`, an entry with path `q` exists.
pub proof fn lemma_find_at_witness(s: Seq<EntryModel>, q: Seq<Seq<u8>>)
    requires
        find_at(s, q) is Some,
    ensures
        exists|i: int|
            0 <= i < s.len() && (#[trigger] s[i]).path == q && find_at(s, q) == Some(s[i].kind),
    decreases s.len(),
{
    if s.last().path == q {
        assert(s[s.len() - 1].path == q);
    } else {
        lemma_find_at_witness(s.drop_last(), q);
        let i = choose|i: int|
            0 <= i < s.drop_last().len() && (#[trigger] s.drop_last()[i]).path == q && find_at(
                s.drop_last(),
                q,
            ) == Some(s.drop_last()[i].kind);
        assert(s.drop_last()[i] == s[i]);
    }
}

/// `find_at` after appending one fresh entry.
pub proof fn lemma_find_at_push(s: Seq<EntryModel>, e: EntryModel, q: Seq<Seq<u8>>)
    ensures
        find_at(s.push(e), q) == (if q == e.path {
            Some(e.kind)
        } else {
            find_at(s, q)
        }),
{
    assert(s.push(e).drop_last() =~= s);
    assert(s.push(e).last() == e);
}

/// `find_at` after replacing the entry at index `i` in place.
pub proof fn lemma_find_at_update(s: Seq<EntryModel>, i: int, e: EntryModel, q: Seq<Seq<u8>>)
    requires
        unique_paths(s),
        0 <= i < s.len(),
        e.path == s[i].path,
    ensures
        find_at(s.update(i, e), q) == (if q == e.path {
            Some(e.kind)
        } else {
            find_at(s, q)
        }),
    decreases s.len(),
{
    let t = s.update(i, e);
    assert(t.last() == if i == s.len() - 1 {
        e
    } else {
        s.last()
    });
    if i == s.len() - 1 {
        assert(t.drop_last() =~= s.drop_last());
        assert(s.last() == s[i]);
        if q != e.path {
            assert(find_at(t, q) == find_at(t.drop_last(), q));
        }
    } else {
        assert(t.drop_last() =~= s.drop_last().update(i, e));
        assert(s.last() == s[s.len() - 1]);
        assert(s.last().path != s[i].path);
        assert forall|a: int, b: int| 0 <= a < b < s.drop_last().len() implies (#[trigger] s.drop_last()[a]).path
            != (#[trigger] s.drop_last()[b]).path by {
            assert(s.drop_last()[a] == s[a]);
            assert(s.drop_last()[b] == s[b]);
        }
        assert(s.drop_last()[i] == s[i]);
        lemma_find_at_update(s.drop_last(), i, e, q);
    }
}

/// Errors an action can end in, mirroring the process-level outcomes: a
/// distinct not-found, the directory/file mismatches, an existing target, an
/// invalid source object, and the unimplemented verbs.
#[derive(Clone, Copy, Debug, PartialEq, Eq, Structural)]
pub enum FsError {
    NotFound,
    NotADirectory,
    IsADirectory,
    AlreadyExists,
    InvalidInput,
    NotImplemented,
}

impl Clone for EntryKind {
    fn clone(&self) -> (r: EntryKind)
        ensures
            r@ == self@,
    {
        match self {
            EntryKind::Dir { device } => EntryKind::Dir { device: *device },
            EntryKind::File { data, modified, created } => EntryKind::File {
                data: clone_bytes(data),
                modified: *modified,
                created: *created,
            },
            EntryKind::Symlink { target } => EntryKind::Symlink { target: clone_bytes(target) },
            EntryKind::Other => EntryKind::Other,
        }
    }
}

/// Replacing an entry's kind in place (same path, file over file) keeps the
/// store well-formed.
pub proof fn lemma_wf_update(s: Seq<EntryModel>, i: int, e: EntryModel)
    requires
        wf_entries(s),
        0 <= i < s.len(),
        e.path == s[i].path,
        e.kind is File,
        s[i].kind is File,
    ensures
        wf_entries(s.update(i, e)),
{
    let t = s.update(i, e);
    assert forall|k: int| 0 <= k < t.len() implies (#[trigger] t[k]).path == s[k].path by {
        if k != i {
            assert(t[k] == s[k]);
        }
    }
    assert forall|k: int| 0 <= k < t.len() && (#[trigger] t[k]).path.len() >= 2 implies is_dir_kind(
        find_at(t, t[k].path.drop_last()),
    ) by {
        let par = t[k].path.drop_last();
        assert(s[k].path.len() >= 2);
        assert(is_dir_kind(find_at(s, par)));
        lemma_find_at_update(s, i, e, par);
        if par == e.path {
            lemma_find_at_hit(s, i);
            assert(false);
        }
    }
}

/// Appending an entry at a fresh path, hung under an existing directory,
/// keeps the store well-formed.
pub proof fn lemma_wf_push(s: Seq<EntryModel>, e: EntryModel)
    requires
        wf_entries(s),
        e.path.len() >= 1,
        find_at(s, e.path) is None,
        e.path.len() >= 2 ==> is_dir_kind(find_at(s, e.path.drop_last())),
    ensures
        wf_entries(s.push(e)),
{
    let t = s.push(e);
    assert forall|k: int| 0 <= k < s.len() implies #[trigger] t[k] == s[k] by {
        assert(t[k] == s[k]);
    }
    assert(t[s.len() as int] == e);
    assert forall|a: int| 0 <= a < s.len() implies (#[trigger] s[a]).path != e.path by {
        if s[a].path == e.path {
            lemma_find_at_hit(s, a);
        }
    }
    assert forall|k: int| 0 <= k < t.len() && (#[trigger] t[k]).path.len() >= 2 implies is_dir_kind(
        find_at(t, t[k].path.drop_last()),
    ) by {
        let par = t[k].path.drop_last();
        lemma_find_at_push(s, e, par);
        if k < s.len() {
            assert(t[k] == s[k]);
            assert(is_dir_kind(find_at(s, par)));
            if par == e.path {
                assert(false);
            }
        } else {
            assert(t[k] == e);
            assert(par.len() < e.path.len());
            assert(par != e.path);
        }
    }
}

/// Nothing can exist beneath a path that holds no directory.
pub proof fn lemma_child_needs_dir(fs: FsModel, q: Seq<Seq<u8>>, x: Seq<u8>)
    requires
        fs_wf(fs),
        q.len() >= 1,
        !is_dir_kind(kind_at(fs, q)),
    ensures
        kind_at(fs, q.push(x)) is None,
{
    if find_at(fs.entries, q.push(x)) is Some {
        lemma_find_at_witness(fs.entries, q.push(x));
        let i = choose|i: int|
            0 <= i < fs.entries.len() && (#[trigger] fs.entries[i]).path == q.push(x) && find_at(
                fs.entries,
                q.push(x),
            ) == Some(fs.entries[i].kind);
        assert(fs.entries[i].path.len() >= 2);
        assert(fs.entries[i].path.drop_last() =~= q);
        assert(is_dir_kind(find_at(fs.entries, q)));
    }
}

/// The storage device governing path `p`: the device of the deepest existing
/// directory at or above `p`.
pub open spec fn anchor_device(fs: FsModel, p: Seq<Seq<u8>>) -> u32
    decreases p.len(),
{
    if p.len() == 0 {
        fs.root_device
    } else {
        match kind_at(fs, p) {
            Option::Some(KindModel::Dir { device }) => device,
            _ => anchor_device(fs, p.drop_last()),
        }
    }
}

/// Once a level of `p` is empty, the anchor device of `p` is decided at or
/// above that level.
pub proof fn lemma_anchor_after_none(fs: FsModel, p: Seq<Seq<u8>>, l: int)
    requires
        fs_wf(fs),
        0 <= l < p.len(),
        kind_at(fs, p.take(l + 1)) is None,
    ensures
        anchor_device(fs, p) == anchor_device(fs, p.take(l)),
    decreases p.len() - l,
{
    if l + 1 == p.len() {
        assert(p.take(l + 1) =~= p);
        assert(p.drop_last() =~= p.take(l));
    } else {
        assert(p.take(l + 2) =~= p.take(l + 1).push(p[l + 1]));
        assert(p.take(l + 1).len() >= 1);
        lemma_child_needs_dir(fs, p.take(l + 1), p[l + 1]);
        lemma_anchor_after_none(fs, p, l + 1);
        assert(p.take(l + 1).drop_last() =~= p.take(l));
    }
}

/// Whether creating the whole directory chain of `p` succeeds: every level is
/// either absent or already a directory.
pub open spec fn mkdir_ok(fs: FsModel, p: Seq<Seq<u8>>) -> bool {
    forall|l: int|
        1 <= l <= p.len() ==> (kind_at(fs, #[trigger] p.take(l)) is None || is_dir_kind(
            kind_at(fs, p.take(l)),
        ))
}

/// The error a failing directory creation ends in: the path itself already
/// holds something else, or a middle level does.
pub open spec fn mkdir_err(fs: FsModel, p: Seq<Seq<u8>>) -> FsError {
    if p.len() > 0 && (kind_at(fs, p) matches Some(k) && !(k is Dir)) {
        FsError::AlreadyExists
    } else {
        FsError::NotADirectory
    }
}

/// Whether `q` is one of the levels of `p` that a directory creation fills.
pub open spec fn mkdir_creates(fs: FsModel, p: Seq<Seq<u8>>, upto: int, q: Seq<Seq<u8>>) -> bool {
    exists|l: int| 1 <= l <= upto && q == #[trigger] p.take(l) && kind_at(fs, p.take(l)) is None
}

/// What lives at `q` after the first `upto` levels of `p` were created.
pub open spec fn mkdir_partial(fs: FsModel, p: Seq<Seq<u8>>, upto: int, q: Seq<Seq<u8>>) -> Option<
    KindModel,
> {
    if mkdir_creates(fs, p, upto, q) {
        Some(KindModel::Dir { device: anchor_device(fs, p) })
    } else {
        kind_at(fs, q)
    }
}

/// Below an empty level of `p`, every level is empty.
pub proof fn lemma_none_chain(fs: FsModel, p: Seq<Seq<u8>>, l: int)
    requires
        fs_wf(fs),
        1 <= l <= p.len(),
        kind_at(fs, p.take(l)) is None,
    ensures
        forall|m: int| l <= m <= p.len() ==> kind_at(fs, #[trigger] p.take(m)) is None,
    decreases p.len() - l,
{
    if l < p.len() {
        assert(p.take(l + 1) =~= p.take(l).push(p[l]));
        lemma_child_needs_dir(fs, p.take(l), p[l]);
        lemma_none_chain(fs, p, l + 1);
        assert forall|m: int| l <= m <= p.len() implies kind_at(fs, #[trigger] p.take(m))
            is None by {
            if m > l {
                assert(kind_at(fs, p.take(m)) is None);
            }
        }
    }
}

/// `find_at` after removing the entry at index `i`.
pub proof fn lemma_find_at_remove(s: Seq<EntryModel>, i: int, q: Seq<Seq<u8>>)
    requires
        unique_paths(s),
        0 <= i < s.len(),
    ensures
        find_at(s.remove(i), q) == (if q == s[i].path {
            None
        } else {
            find_at(s, q)
        }),
    decreases s.len(),
{
    let t = s.remove(i);
    if i == s.len() - 1 {
        assert(t =~= s.drop_last());
        assert(s.last() == s[i]);
        if q == s[i].path {
            assert forall|a: int| 0 <= a < t.len() implies (#[trigger] t[a]).path != q by {
                assert(t[a] == s[a]);
            }
            lemma_find_at_none(t, q);
        }
    } else {
        assert(t.last() == s[s.len() - 1]);
        assert(t.last() == s.last());
        assert(s.last().path != s[i].path);
        assert forall|a: int, b: int| 0 <= a < b < s.drop_last().len() implies (#[trigger] s.drop_last()[a]).path
            != (#[trigger] s.drop_last()[b]).path by {
            assert(s.drop_last()[a] == s[a]);
            assert(s.drop_last()[b] == s[b]);
        }
        assert(s.drop_last()[i] == s[i]);
        lemma_find_at_remove(s.drop_last(), i, q);
        assert(t.drop_last() =~= s.drop_last().remove(i));
    }
}

/// Removing one non-directory entry keeps the store well-formed.
pub proof fn lemma_wf_remove_one(s: Seq<EntryModel>, i: int)
    requires
        wf_entries(s),
        0 <= i < s.len(),
        !(s[i].kind is Dir),
    ensures
        wf_entries(s.remove(i)),
{
    let t = s.remove(i);
    assert forall|k: int| 0 <= k < t.len() implies #[trigger] t[k] == (if k < i {
        s[k]
    } else {
        s[k + 1]
    }) by {
        assert(t =~= s.subrange(0, i) + s.subrange(i + 1, s.len() as int));
    }
    assert forall|k: int| 0 <= k < t.len() && (#[trigger] t[k]).path.len() >= 2 implies is_dir_kind(
        find_at(t, t[k].path.drop_last()),
    ) by {
        let par = t[k].path.drop_last();
        assert(is_dir_kind(find_at(s, par)));
        lemma_find_at_remove(s, i, par);
        if par == s[i].path {
            lemma_find_at_hit(s, i);
            assert(false);
        }
    }
}

/// Error for opening a path to read: only a regular file can be read.
pub open spec fn read_err(o: Option<KindModel>) -> FsError {
    match o {
        Option::None => FsError::NotFound,
        Option::Some(KindModel::Dir { .. }) => FsError::IsADirectory,
        Option::Some(_) => FsError::InvalidInput,
    }
}

/// Whether a write to `p` succeeds: the path holds a file already, or
/// `create` is set, nothing is there, and the parent is a directory.
pub open spec fn write_ok(fs: FsModel, p: Seq<Seq<u8>>, create: bool) -> bool {
    match kind_at(fs, p) {
        Option::Some(KindModel::File { .. }) => true,
        Option::None => create && p.len() >= 1 && is_dir_kind(kind_at(fs, p.drop_last())),
        _ => false,
    }
}

/// The error a failing write ends in.
pub open spec fn write_err(fs: FsModel, p: Seq<Seq<u8>>, create: bool) -> FsError {
    match kind_at(fs, p) {
        Option::Some(KindModel::Dir { .. }) => FsError::IsADirectory,
        Option::Some(_) => FsError::InvalidInput,
        Option::None => FsError::NotFound,
    }
}

/// The bytes a file holds after writing `input` from the start: opening for
/// writing does not truncate, so a longer existing file keeps its tail.
pub open spec fn write_data(input: Seq<u8>, existing: Option<KindModel>) -> Seq<u8> {
    match existing {
        Option::Some(KindModel::File { data, .. }) => if input.len() >= data.len() {
            input
        } else {
            input + data.skip(input.len() as int)
        },
        _ => input,
    }
}

/// The file entry that a successful write leaves at `p`.
pub open spec fn written_kind(fs: FsModel, p: Seq<Seq<u8>>, input: Seq<u8>, now: u64) -> KindModel {
    KindModel::File {
        data: write_data(input, kind_at(fs, p)),
        modified: now,
        created: match kind_at(fs, p) {
            Option::Some(KindModel::File { created, .. }) => created,
            _ => now,
        },
    }
}

/// Round trip: writing bytes to a fresh path leaves a file holding exactly
/// those bytes, whatever their number, so reading the path back returns
/// them unchanged.
pub proof fn lemma_write_then_read(fs: FsModel, p: Seq<Seq<u8>>, input: Seq<u8>, now: u64)
    requires
        kind_at(fs, p) is None,
    ensures
        written_kind(fs, p, input, now) == (KindModel::File {
            data: input,
            modified: now,
            created: now,
        }),
{
}

/// Decide equality of two segment lists.
pub fn names_eq(a: &Vec<Vec<u8>>, b: &Vec<Vec<u8>>) -> (r: bool)
    ensures
        r == (bytes_list_model(a@) == bytes_list_model(b@)),
{
    broadcast use lemma_bytes_list_model_len, lemma_bytes_list_model_index;

    if a.len() != b.len() {
        proof {
            assert(bytes_list_model(a@).len() != bytes_list_model(b@).len());
        }
        return false;
    }
    let mut i: usize = 0;
    while i < a.len()
        invariant
            i <= a.len(),
            a@.len() == b@.len(),
            forall|j: int| 0 <= j < i ==> bytes_list_model(a@)[j] == bytes_list_model(b@)[j],
        decreases a.len() - i,
    {
        if !bytes_eq(&a[i], &b[i]) {
            proof {
                assert(bytes_list_model(a@)[i as int] == a@[i as int]@);
                assert(bytes_list_model(b@)[i as int] == b@[i as int]@);
            }
            return false;
        }
        i = i + 1;
    }
    proof {
        assert(bytes_list_model(a@) =~= bytes_list_model(b@));
    }
    true
}

/// Copy a segment list.
pub fn clone_names(v: &Vec<Vec<u8>>) -> (r: Vec<Vec<u8>>)
    ensures
        bytes_list_model(r@) == bytes_list_model(v@),
{
    broadcast use lemma_bytes_list_model_len, lemma_bytes_list_model_index;

    let mut r: Vec<Vec<u8>> = Vec::new();
    let mut i: usize = 0;
    proof {
        assert(bytes_list_model(r@) =~= bytes_list_model(v@).take(0));
    }
    while i < v.len()
        invariant
            i <= v.len(),
            bytes_list_model(r@) == bytes_list_model(v@).take(i as int),
        decreases v.len() - i,
    {
        let ghost rb: Seq<Vec<u8>> = r@;
        let nb = clone_bytes(&v[i]);
        let ghost nbg: Vec<u8> = nb;
        r.push(nb);
        proof {
            lemma_bytes_list_model_push(rb, nbg);
            assert(bytes_list_model(v@).take(i + 1 as int) =~= bytes_list_model(v@).take(
                i as int,
            ).push(bytes_list_model(v@)[i as int]));
        }
        i = i + 1;
    }
    proof {
        assert(bytes_list_model(v@).take(v@.len() as int) =~= bytes_list_model(v@));
    }
    r
}

/// Whether `q` lies at or below `p`.
pub open spec fn is_under(p: Seq<Seq<u8>>, q: Seq<Seq<u8>>) -> bool {
    p.len() <= q.len() && q.take(p.len() as int) == p
}

/// Decide whether `q` lies at or below `p`.
pub fn names_is_under(p: &Vec<Vec<u8>>, q: &Vec<Vec<u8>>) -> (r: bool)
    ensures
        r == is_under(bytes_list_model(p@), bytes_list_model(q@)),
{
    broadcast use lemma_bytes_list_model_len, lemma_bytes_list_model_index;

    if p.len() > q.len() {
        return false;
    }
    let mut i: usize = 0;
    while i < p.len()
        invariant
            i <= p.len(),
            p@.len() <= q@.len(),
            forall|j: int|
                0 <= j < i ==> bytes_list_model(q@).take(p@.len() as int)[j] == bytes_list_model(
                    p@,
                )[j],
        decreases p.len() - i,
    {
        if !bytes_eq(&q[i], &p[i]) {
            proof {
                assert(bytes_list_model(q@).take(p@.len() as int)[i as int] != bytes_list_model(
                    p@,
                )[i as int]);
            }
            return false;
        }
        i = i + 1;
    }
    proof {
        assert(bytes_list_model(q@).take(p@.len() as int) =~= bytes_list_model(p@));
    }
    true
}

impl SimFs {
    /// An empty filesystem on one device.
    pub fn new(root_device: u32) -> (r: SimFs)
        ensures
            r@.root_device == root_device,
            r@.entries == Seq::<EntryModel>::empty(),
            fs_wf(r@),
    {
        broadcast use lemma_entries_model_len;

        let r = SimFs { root_device, entries: Vec::new() };
        proof {
            assert(r@.entries =~= Seq::<EntryModel>::empty());
        }
        r
    }

    /// Index of the entry at path `p`, if one exists.
    pub fn find_idx(&self, p: &Vec<Vec<u8>>) -> (r: Option<usize>)
        requires
            unique_paths(self@.entries),
        ensures
            match r {
                Some(i) => i < self.entries@.len() && self@.entries[i as int].path
                    == bytes_list_model(p@) && find_at(self@.entries, bytes_list_model(p@))
                    == Some(self@.entries[i as int].kind),
                None => find_at(self@.entries, bytes_list_model(p@)) is None,
            },
    {
        broadcast use lemma_entries_model_len, lemma_entries_model_index;

        let mut i: usize = 0;
        while i < self.entries.len()
            invariant
                i <= self.entries.len(),
                unique_paths(self@.entries),
                forall|j: int|
                    0 <= j < i ==> (#[trigger] self@.entries[j]).path != bytes_list_model(p@),
            decreases self.entries.len() - i,
        {
            if names_eq(&self.entries[i].path, p) {
                proof {
                    lemma_find_at_hit(self@.entries, i as int);
                }
                return Some(i);
            }
            i = i + 1;
        }
        proof {
            lemma_find_at_none(self@.entries, bytes_list_model(p@));
        }
        None
    }

    /// Open the file at `p` and stream its bytes out.
    pub fn read_file(&self, p: &Vec<Vec<u8>>) -> (r: Result<Vec<u8>, FsError>)
        requires
            fs_wf(self@),
        ensures
            match r {
                Ok(d) => kind_at(self@, bytes_list_model(p@)) matches Some(
                    KindModel::File { data, .. },
                ) && d@ == data,
                Err(e) => !(kind_at(self@, bytes_list_model(p@)) matches Some(
                    KindModel::File { .. },
                )) && e == read_err(kind_at(self@, bytes_list_model(p@))),
            },
    {
        broadcast use lemma_entries_model_len, lemma_entries_model_index, lemma_bytes_list_model_len;

        if p.len() == 0 {
            return Err(FsError::IsADirectory);
        }
        match self.find_idx(p) {
            Option::None => Err(FsError::NotFound),
            Option::Some(i) => {
                let k = self.entries[i].kind.clone();
                match k {
                    EntryKind::File { data, .. } => {
                        let mut out: Vec<u8> = Vec::new();
                        pipe(&data, &mut out);
                        proof {
                            assert(out@ =~= data@);
                        }
                        Ok(out)
                    },
                    EntryKind::Dir { .. } => Err(FsError::IsADirectory),
                    _ => Err(FsError::InvalidInput),
                }
            },
        }
    }

    /// Write `input` over the file at `p` from the start; with `create`, a
    /// missing file is created beneath its (existing) parent directory.
    pub fn write_file(&mut self, p: &Vec<Vec<u8>>, input: &Vec<u8>, create: bool, now: u64) -> (r:
        Result<(), FsError>)
        requires
            fs_wf(old(self)@),
        ensures
            fs_wf(final(self)@),
            final(self)@.root_device == old(self)@.root_device,
            match r {
                Ok(()) => write_ok(old(self)@, bytes_list_model(p@), create) && forall|
                    q: Seq<Seq<u8>>,
                |
                    kind_at(final(self)@, q) == (if q == bytes_list_model(p@) {
                        Some(written_kind(old(self)@, bytes_list_model(p@), input@, now))
                    } else {
                        kind_at(old(self)@, q)
                    }),
                Err(e) => final(self)@ == old(self)@ && !write_ok(
                    old(self)@,
                    bytes_list_model(p@),
                    create,
                ) && e == write_err(old(self)@, bytes_list_model(p@), create),
            },
    {
        broadcast use lemma_entries_model_len, lemma_entries_model_index, lemma_bytes_list_model_len;

        let ghost pm: Seq<Seq<u8>> = bytes_list_model(p@);
        let ghost fs0: FsModel = self@;
        if p.len() == 0 {
            return Err(FsError::IsADirectory);
        }
        match self.find_idx(p) {
            Option::Some(i) => {
                let k = self.entries[i].kind.clone();
                match k {
                    EntryKind::File { data, created, .. } => {
                        let mut nd: Vec<u8> = Vec::new();
                        pipe(input, &mut nd);
                        proof {
                            assert(nd@ =~= input@);
                        }
                        if data.len() > input.len() {
                            let mut j: usize = input.len();
                            while j < data.len()
                                invariant
                                    input@.len() <= j <= data@.len(),
                                    nd@ == input@ + data@.subrange(input@.len() as int, j as int),
                                decreases data.len() - j,
                            {
                                nd.push(data[j]);
                                proof {
                                    assert(input@ + data@.subrange(
                                        input@.len() as int,
                                        j + 1 as int,
                                    ) =~= (input@ + data@.subrange(
                                        input@.len() as int,
                                        j as int,
                                    )).push(data@[j as int]));
                                }
                                j = j + 1;
                            }
                            proof {
                                assert(data@.subrange(input@.len() as int, data@.len() as int)
                                    =~= data@.skip(input@.len() as int));
                            }
                        } else {
                            proof {
                                assert(nd@ =~= input@ + Seq::<u8>::empty() + input@.skip(
                                    input@.len() as int,
                                ).take(0));
                                assert(nd@ == input@);
                            }
                        }
                        proof {
                            assert(nd@ == write_data(input@, kind_at(fs0, pm)));
                        }
                        let np = clone_names(p);
                        let ne = FsEntry {
                            path: np,
                            kind: EntryKind::File { data: nd, modified: now, created },
                        };
                        let ghost neg: FsEntry = ne;
                        let ghost old_entries: Seq<FsEntry> = self.entries@;
                        self.entries.set(i, ne);
                        proof {
                            lemma_entries_model_update(old_entries, i as int, neg);
                            assert(entry_model(neg).path == pm);
                            assert(entry_model(neg).kind == written_kind(fs0, pm, input@, now));
                            lemma_wf_update(fs0.entries, i as int, entry_model(neg));
                            assert forall|q: Seq<Seq<u8>>|
                                kind_at(self@, q) == (if q == pm {
                                    Some(written_kind(fs0, pm, input@, now))
                                } else {
                                    kind_at(fs0, q)
                                }) by {
                                if q.len() > 0 {
                                    lemma_find_at_update(
                                        fs0.entries,
                                        i as int,
                                        entry_model(neg),
                                        q,
                                    );
                                }
                            }
                        }
                        Ok(())
                    },
                    EntryKind::Dir { .. } => Err(FsError::IsADirectory),
                    _ => Err(FsError::InvalidInput),
                }
            },
            Option::None => {
                if !create {
                    return Err(FsError::NotFound);
                }
                let mut parent = clone_names(p);
                let ghost parent_full: Seq<Vec<u8>> = parent@;
                let _ = parent.pop();
                proof {
                    lemma_bytes_list_model_drop_last(parent_full);
                    assert(bytes_list_model(parent@) == pm.drop_last());
                }
                let parent_ok: bool = if parent.len() == 0 {
                    true
                } else {
                    match self.find_idx(&parent) {
                        Option::Some(j) => {
                            let is_dir = matches!(self.entries[j].kind, EntryKind::Dir { .. });
                            proof {
                                if is_dir {
                                    assert(self@.entries[j as int].kind is Dir);
                                }
                            }
                            is_dir
                        },
                        Option::None => false,
                    }
                };
                if !parent_ok {
                    return Err(FsError::NotFound);
                }
                proof {
                    assert(is_dir_kind(kind_at(fs0, pm.drop_last())));
                }
                let mut nd: Vec<u8> = Vec::new();
                pipe(input, &mut nd);
                proof {
                    assert(nd@ =~= input@);
                }
                let np = clone_names(p);
                let ne = FsEntry {
                    path: np,
                    kind: EntryKind::File { data: nd, modified: now, created: now },
                };
                let ghost neg: FsEntry = ne;
                let ghost old_entries: Seq<FsEntry> = self.entries@;
                self.entries.push(ne);
                proof {
                    lemma_entries_model_push(old_entries, neg);
                    assert(entry_model(neg).path == pm);
                    assert(entry_model(neg).kind == written_kind(fs0, pm, input@, now));
                    lemma_wf_push(fs0.entries, entry_model(neg));
                    assert forall|q: Seq<Seq<u8>>|
                        kind_at(self@, q) == (if q == pm {
                            Some(written_kind(fs0, pm, input@, now))
                        } else {
                            kind_at(fs0, q)
                        }) by {
                        if q.len() > 0 {
                            lemma_find_at_push(fs0.entries, entry_model(neg), q);
                        }
                    }
                }
                Ok(())
            },
        }
    }

    /// Walk the levels of `p` while they hold directories. On success, gives
    /// how many levels exist (all directories) and the device that governs
    /// anything created below them; the next level, if any, is empty.
    fn walk_dir_prefix(&self, p: &Vec<Vec<u8>>) -> (r: Result<(usize, u32), FsError>)
        requires
            fs_wf(self@),
        ensures
            match r {
                Ok(pair) => {
                    let i = pair.0 as int;
                    &&& 0 <= i <= p@.len()
                    &&& forall|l: int|
                        1 <= l <= i ==> is_dir_kind(
                            kind_at(self@, #[trigger] bytes_list_model(p@).take(l)),
                        )
                    &&& pair.1 == anchor_device(self@, bytes_list_model(p@).take(i))
                    &&& (i < p@.len() ==> kind_at(self@, bytes_list_model(p@).take(i + 1))
                        is None)
                    &&& mkdir_ok(self@, bytes_list_model(p@))
                },
                Err(e) => !mkdir_ok(self@, bytes_list_model(p@)) && e == mkdir_err(
                    self@,
                    bytes_list_model(p@),
                ),
            },
    {
        broadcast use lemma_entries_model_len, lemma_entries_model_index, lemma_bytes_list_model_len, lemma_bytes_list_model_index;

        let ghost pm: Seq<Seq<u8>> = bytes_list_model(p@);
        let mut cur: Vec<Vec<u8>> = Vec::new();
        let mut dev: u32 = self.root_device;
        let mut i: usize = 0;
        proof {
            assert(bytes_list_model(cur@) =~= pm.take(0));
        }
        while i < p.len()
            invariant
                fs_wf(self@),
                pm == bytes_list_model(p@),
                p@.len() == pm.len(),
                i <= p.len(),
                bytes_list_model(cur@) == pm.take(i as int),
                forall|l: int| 1 <= l <= i ==> is_dir_kind(kind_at(self@, #[trigger] pm.take(l))),
                dev == anchor_device(self@, pm.take(i as int)),
            decreases p.len() - i,
        {
            let nb = clone_bytes(&p[i]);
            let ghost nbg: Vec<u8> = nb;
            let ghost cb: Seq<Vec<u8>> = cur@;
            cur.push(nb);
            proof {
                lemma_bytes_list_model_push(cb, nbg);
                assert(bytes_list_model(cur@) =~= pm.take(i + 1 as int));
                assert(pm.take(i + 1).drop_last() =~= pm.take(i as int));
            }
            match self.find_idx(&cur) {
                Option::Some(j) => {
                    let k = self.entries[j].kind.clone();
                    match k {
                        EntryKind::Dir { device } => {
                            dev = device;
                            proof {
                                assert(kind_at(self@, pm.take(i + 1)) == Some(
                                    KindModel::Dir { device },
                                ));
                            }
                        },
                        _ => {
                            proof {
                                assert(!is_dir_kind(kind_at(self@, pm.take(i + 1))));
                                assert(!(kind_at(self@, pm.take(i + 1)) is None));
                                assert(!mkdir_ok(self@, pm));
                                if i + 1 < pm.len() {
                                    assert(pm.take(i + 2) =~= pm.take(i + 1).push(pm[i + 1]));
                                    lemma_child_needs_dir(self@, pm.take(i + 1), pm[i + 1]);
                                    lemma_none_chain(self@, pm, i + 2);
                                    assert(pm.take(pm.len() as int) =~= pm);
                                    assert(kind_at(self@, pm) is None);
                                } else {
                                    assert(pm.take(i + 1) =~= pm);
                                }
                            }
                            if i + 1 == p.len() {
                                return Err(FsError::AlreadyExists);
                            } else {
                                return Err(FsError::NotADirectory);
                            }
                        },
                    }
                },
                Option::None => {
                    proof {
                        lemma_none_chain(self@, pm, i + 1);
                        assert(pm.take(pm.len() as int) =~= pm);
                        assert forall|l: int| 1 <= l <= pm.len() implies (kind_at(
                            self@,
                            #[trigger] pm.take(l),
                        ) is None || is_dir_kind(kind_at(self@, pm.take(l)))) by {
                            if l > i {
                                assert(kind_at(self@, pm.take(l)) is None);
                            }
                        }
                    }
                    return Ok((i, dev));
                },
            }
            i = i + 1;
        }
        proof {
            assert(pm.take(pm.len() as int) =~= pm);
        }
        Ok((i, dev))
    }

    /// Create the full directory chain down to `p`, succeeding when it is
    /// already a directory.
    pub fn mkdir_all(&mut self, p: &Vec<Vec<u8>>) -> (r: Result<(), FsError>)
        requires
            fs_wf(old(self)@),
        ensures
            fs_wf(final(self)@),
            final(self)@.root_device == old(self)@.root_device,
            match r {
                Ok(()) => mkdir_ok(old(self)@, bytes_list_model(p@)) && forall|q: Seq<Seq<u8>>|
                    kind_at(final(self)@, q) == mkdir_partial(
                        old(self)@,
                        bytes_list_model(p@),
                        bytes_list_model(p@).len() as int,
                        q,
                    ),
                Err(e) => final(self)@ == old(self)@ && !mkdir_ok(
                    old(self)@,
                    bytes_list_model(p@),
                ) && e == mkdir_err(old(self)@, bytes_list_model(p@)),
            },
    {
        broadcast use lemma_entries_model_len, lemma_entries_model_index, lemma_bytes_list_model_len, lemma_bytes_list_model_index;

        let ghost pm: Seq<Seq<u8>> = bytes_list_model(p@);
        let ghost fs0: FsModel = self@;
        let start: usize;
        let dev: u32;
        match self.walk_dir_prefix(p) {
            Ok(pair) => {
                start = pair.0;
                dev = pair.1;
            },
            Err(e) => {
                return Err(e);
            },
        }
        if start == p.len() {
            proof {
                assert(pm.take(pm.len() as int) =~= pm);
                assert forall|q: Seq<Seq<u8>>|
                    kind_at(self@, q) == mkdir_partial(fs0, pm, pm.len() as int, q) by {
                    if mkdir_creates(fs0, pm, pm.len() as int, q) {
                        let l = choose|l: int|
                            1 <= l <= pm.len() && q == #[trigger] pm.take(l) && kind_at(
                                fs0,
                                pm.take(l),
                            ) is None;
                        assert(is_dir_kind(kind_at(fs0, pm.take(l))));
                        assert(false);
                    }
                }
            }
            return Ok(());
        }
        proof {
            lemma_anchor_after_none(fs0, pm, start as int);
            lemma_none_chain(fs0, pm, start as int + 1);
            assert forall|q: Seq<Seq<u8>>|
                kind_at(self@, q) == mkdir_partial(fs0, pm, start as int, q) by {
                if mkdir_creates(fs0, pm, start as int, q) {
                    let l = choose|l: int|
                        1 <= l <= start && q == #[trigger] pm.take(l) && kind_at(
                            fs0,
                            pm.take(l),
                        ) is None;
                    assert(is_dir_kind(kind_at(fs0, pm.take(l))));
                    assert(false);
                }
            }
        }
        let mut cur: Vec<Vec<u8>> = Vec::new();
        let mut i: usize = 0;
        while i < start
            invariant
                i <= start,
                start <= p.len(),
                pm == bytes_list_model(p@),
                p@.len() == pm.len(),
                bytes_list_model(cur@) == pm.take(i as int),
            decreases start - i,
        {
            let nb = clone_bytes(&p[i]);
            let ghost nbg: Vec<u8> = nb;
            let ghost cb: Seq<Vec<u8>> = cur@;
            cur.push(nb);
            proof {
                lemma_bytes_list_model_push(cb, nbg);
                assert(bytes_list_model(cur@) =~= pm.take(i + 1 as int));
            }
            i = i + 1;
        }
        while i < p.len()
            invariant
                fs_wf(self@),
                self@.root_device == fs0.root_device,
                start <= i <= p.len(),
                pm == bytes_list_model(p@),
                p@.len() == pm.len(),
                bytes_list_model(cur@) == pm.take(i as int),
                dev == anchor_device(fs0, pm),
                forall|l: int|
                    (start as int) + 1 <= l <= pm.len() ==> kind_at(fs0, #[trigger] pm.take(l))
                        is None,
                mkdir_ok(fs0, pm),
                is_dir_kind(kind_at(self@, pm.take(i as int))),
                forall|q: Seq<Seq<u8>>| kind_at(self@, q) == mkdir_partial(fs0, pm, i as int, q),
            decreases p.len() - i,
        {
            let nb = clone_bytes(&p[i]);
            let ghost nbg: Vec<u8> = nb;
            let ghost cb: Seq<Vec<u8>> = cur@;
            cur.push(nb);
            proof {
                lemma_bytes_list_model_push(cb, nbg);
                assert(bytes_list_model(cur@) =~= pm.take(i + 1 as int));
                assert(pm.take(i + 1).drop_last() =~= pm.take(i as int));
                assert(pm.take(i + 1).len() == i + 1);
            }
            let np = clone_names(&cur);
            let ne = FsEntry { path: np, kind: EntryKind::Dir { device: dev } };
            let ghost neg: FsEntry = ne;
            let ghost fs_before: FsModel = self@;
            let ghost old_entries: Seq<FsEntry> = self.entries@;
            proof {
                assert(entry_model(neg).path == pm.take(i + 1));
                // the target level is still empty in the current store
                assert forall|l: int| 1 <= l <= i implies #[trigger] pm.take(l) != pm.take(i + 1) by {
                    assert(pm.take(l).len() == l);
                }
                assert(kind_at(fs_before, pm.take(i + 1)) == kind_at(fs0, pm.take(i + 1)));
                assert(kind_at(fs_before, pm.take(i + 1)) is None);
                lemma_wf_push(fs_before.entries, entry_model(neg));
            }
            self.entries.push(ne);
            proof {
                lemma_entries_model_push(old_entries, neg);
                assert forall|q: Seq<Seq<u8>>|
                    kind_at(self@, q) == mkdir_partial(fs0, pm, i + 1 as int, q) by {
                    lemma_find_at_push(fs_before.entries, entry_model(neg), q);
                    if q == pm.take(i + 1) {
                        assert(mkdir_creates(fs0, pm, i + 1 as int, q));
                    } else {
                        if mkdir_creates(fs0, pm, i + 1 as int, q) {
                            let l = choose|l: int|
                                1 <= l <= i + 1 && q == #[trigger] pm.take(l) && kind_at(
                                    fs0,
                                    pm.take(l),
                                ) is None;
                            assert(l <= i);
                            assert(mkdir_creates(fs0, pm, i as int, q));
                        }
                        if mkdir_creates(fs0, pm, i as int, q) {
                            let l = choose|l: int|
                                1 <= l <= i && q == #[trigger] pm.take(l) && kind_at(
                                    fs0,
                                    pm.take(l),
                                ) is None;
                            assert(mkdir_creates(fs0, pm, i + 1 as int, q));
                        }
                        assert(kind_at(self@, q) == kind_at(fs_before, q));
                    }
                }
            }
            i = i + 1;
        }
        proof {
            assert(pm.take(pm.len() as int) =~= pm);
        }
        Ok(())
    }

    /// Remove what lives at `p`: a directory with everything beneath it, any
    /// other object alone. Removing a missing target is an error.
    pub fn remove_entry(&mut self, p: &Vec<Vec<u8>>) -> (r: Result<(), FsError>)
        requires
            fs_wf(old(self)@),
        ensures
            fs_wf(final(self)@),
            final(self)@.root_device == old(self)@.root_device,
            match r {
                Ok(()) => kind_at(old(self)@, bytes_list_model(p@)) is Some && forall|
                    q: Seq<Seq<u8>>,
                |
                    kind_at(final(self)@, q) == (if q.len() > 0 && (if is_dir_kind(
                        kind_at(old(self)@, bytes_list_model(p@)),
                    ) {
                        is_under(bytes_list_model(p@), q)
                    } else {
                        q == bytes_list_model(p@)
                    }) {
                        None::<KindModel>
                    } else {
                        kind_at(old(self)@, q)
                    }),
                Err(e) => final(self)@ == old(self)@ && kind_at(old(self)@, bytes_list_model(p@))
                    is None && e == FsError::NotFound,
            },
    {
        broadcast use lemma_entries_model_len, lemma_entries_model_index, lemma_bytes_list_model_len, lemma_bytes_list_model_index;

        let ghost pm: Seq<Seq<u8>> = bytes_list_model(p@);
        let ghost fs0: FsModel = self@;
        let is_dir: bool;
        if p.len() == 0 {
            is_dir = true;
        } else {
            match self.find_idx(p) {
                Option::None => {
                    return Err(FsError::NotFound);
                },
                Option::Some(i) => {
                    is_dir = matches!(self.entries[i].kind, EntryKind::Dir { .. });
                    proof {
                        if !is_dir {
                            assert(!(self@.entries[i as int].kind is Dir));
                        } else {
                            assert(self@.entries[i as int].kind is Dir);
                        }
                    }
                    if !is_dir {
                        let ghost old_entries: Seq<FsEntry> = self.entries@;
                        let _ = self.entries.remove(i);
                        proof {
                            assert forall|k: int| 0 <= k < entries_model(self.entries@).len()
                                implies #[trigger] entries_model(self.entries@)[k] == entries_model(
                                old_entries,
                            ).remove(i as int)[k] by {
                                if k < i {
                                    assert(self.entries@[k] == old_entries[k]);
                                } else {
                                    assert(self.entries@[k] == old_entries[k + 1]);
                                    assert(entries_model(old_entries).remove(i as int)[k]
                                        == entries_model(old_entries)[k + 1]);
                                }
                            }
                            assert(entries_model(self.entries@) =~= entries_model(
                                old_entries,
                            ).remove(i as int));
                            lemma_wf_remove_one(fs0.entries, i as int);
                            assert forall|q: Seq<Seq<u8>>|
                                kind_at(self@, q) == (if q.len() > 0 && q == pm {
                                    None::<KindModel>
                                } else {
                                    kind_at(fs0, q)
                                }) by {
                                if q.len() > 0 {
                                    lemma_find_at_remove(fs0.entries, i as int, q);
                                }
                            }
                        }
                        return Ok(());
                    }
                },
            }
        }
        // a directory: drop it and everything beneath it
        let mut out: Vec<FsEntry> = Vec::new();
        let mut j: usize = 0;
        proof {
            assert(fs0.entries.take(0) =~= Seq::<EntryModel>::empty());
            assert(entries_model(out@) =~= Seq::<EntryModel>::empty());
        }
        while j < self.entries.len()
            invariant
                fs_wf(self@),
                self@ == fs0,
                pm == bytes_list_model(p@),
                j <= self.entries.len(),
                unique_paths(entries_model(out@)),
                forall|k: int|
                    0 <= k < entries_model(out@).len() ==> {
                        let e = #[trigger] entries_model(out@)[k];
                        e.path.len() >= 1 && !is_under(pm, e.path) && find_at(fs0.entries, e.path)
                            == Some(e.kind)
                    },
                forall|q: Seq<Seq<u8>>|
                    find_at(entries_model(out@), q) == (if is_under(pm, q) {
                        None::<KindModel>
                    } else {
                        find_at(fs0.entries.take(j as int), q)
                    }),
            decreases self.entries.len() - j,
        {
            let keep = !names_is_under(p, &self.entries[j].path);
            let ghost em: EntryModel = self@.entries[j as int];
            proof {
                assert(fs0.entries.take(j + 1).drop_last() =~= fs0.entries.take(j as int));
                assert(fs0.entries.take(j + 1).last() == em);
            }
            if keep {
                let ghost ob: Seq<FsEntry> = out@;
                let ne = FsEntry {
                    path: clone_names(&self.entries[j].path),
                    kind: self.entries[j].kind.clone(),
                };
                let ghost neg: FsEntry = ne;
                proof {
                    assert(entry_model(neg) == em);
                    lemma_find_at_hit(fs0.entries, j as int);
                    if find_at(entries_model(ob), em.path) is Some {
                        lemma_find_at_witness(entries_model(ob), em.path);
                        let w = choose|w: int|
                            0 <= w < entries_model(ob).len() && (#[trigger] entries_model(
                                ob,
                            )[w]).path == em.path && find_at(entries_model(ob), em.path) == Some(
                                entries_model(ob)[w].kind,
                            );
                        assert(find_at(fs0.entries.take(j as int), em.path) is Some);
                        lemma_find_at_witness(fs0.entries.take(j as int), em.path);
                        let v = choose|v: int|
                            0 <= v < fs0.entries.take(j as int).len() && (#[trigger] fs0.entries.take(
                                j as int,
                            )[v]).path == em.path && find_at(fs0.entries.take(j as int), em.path)
                                == Some(fs0.entries.take(j as int)[v].kind);
                        assert(fs0.entries[v] == fs0.entries.take(j as int)[v]);
                        assert(fs0.entries[v].path == fs0.entries[j as int].path);
                        assert(false);
                    }
                }
                out.push(ne);
                proof {
                    lemma_entries_model_push(ob, neg);
                    assert forall|q: Seq<Seq<u8>>|
                        find_at(entries_model(out@), q) == (if is_under(pm, q) {
                            None::<KindModel>
                        } else {
                            find_at(fs0.entries.take(j + 1 as int), q)
                        }) by {
                        lemma_find_at_push(entries_model(ob), em, q);
                    }
                    assert forall|a: int, b: int|
                        0 <= a < b < entries_model(out@).len() implies (#[trigger] entries_model(
                        out@,
                    )[a]).path != (#[trigger] entries_model(out@)[b]).path by {
                        if b == entries_model(out@).len() - 1 {
                            assert(entries_model(out@)[a] == entries_model(ob)[a]);
                            assert(entries_model(out@)[b] == em);
                            if entries_model(ob)[a].path == em.path {
                                lemma_find_at_hit(entries_model(ob), a);
                            }
                        } else {
                            assert(entries_model(out@)[a] == entries_model(ob)[a]);
                            assert(entries_model(out@)[b] == entries_model(ob)[b]);
                        }
                    }
                }
            } else {
                proof {
                    assert forall|q: Seq<Seq<u8>>|
                        find_at(entries_model(out@), q) == (if is_under(pm, q) {
                            None::<KindModel>
                        } else {
                            find_at(fs0.entries.take(j + 1 as int), q)
                        }) by {
                        if !is_under(pm, q) {
                            assert(em.path != q);
                        }
                    }
                }
            }
            j = j + 1;
        }
        proof {
            assert(fs0.entries.take(fs0.entries.len() as int) =~= fs0.entries);
        }
        let ghost out_model: Seq<EntryModel> = entries_model(out@);
        self.entries = out;
        proof {
            // well-formedness of the filtered store
            assert forall|k: int|
                0 <= k < out_model.len() && (#[trigger] out_model[k]).path.len() >= 2 implies
                is_dir_kind(find_at(out_model, out_model[k].path.drop_last())) by {
                let par = out_model[k].path.drop_last();
                lemma_find_at_witness(fs0.entries, out_model[k].path);
                let w = choose|w: int|
                    0 <= w < fs0.entries.len() && (#[trigger] fs0.entries[w]).path
                        == out_model[k].path && find_at(fs0.entries, out_model[k].path) == Some(
                        fs0.entries[w].kind,
                    );
                assert(is_dir_kind(find_at(fs0.entries, par)));
                if is_under(pm, par) {
                    assert(out_model[k].path.take(pm.len() as int) =~= par.take(pm.len() as int));
                    assert(is_under(pm, out_model[k].path));
                    assert(false);
                }
            }
            // the pointwise effect
            assert forall|q: Seq<Seq<u8>>|
                kind_at(self@, q) == (if q.len() > 0 && (if is_dir_kind(kind_at(fs0, pm)) {
                    is_under(pm, q)
                } else {
                    q == pm
                }) {
                    None::<KindModel>
                } else {
                    kind_at(fs0, q)
                }) by {
                assert(is_dir_kind(kind_at(fs0, pm)));
            }
        }
        Ok(())
    }
}

} // verus!
