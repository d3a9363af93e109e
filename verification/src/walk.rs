//! The depth-bounded directory walker.
//!
//! A walk of depth `d` over a directory lists its immediate children in
//! store order; each child directory is emitted and then expanded with depth
//! `d - 1`, each regular file is emitted with its size and timestamps, and
//! anything else is silently skipped. Depth zero yields nothing.

use vstd::prelude::*;
use crate::paths::{FsPath, Component, CompModel, bytes_list_model, abs_path_of, clone_bytes,
    comp_eq, parts_model, lemma_parts_model_len, lemma_parts_model_index, lemma_parts_model_push,
    lemma_bytes_list_model_len, lemma_bytes_list_model_index};
use crate::fs::{SimFs, FsEntry, FsError, EntryKind, KindModel, EntryModel, entry_model,
    entries_model, lemma_entries_model_len, lemma_entries_model_index, lemma_entries_model_push,
    fs_wf, kind_at, is_dir_kind, is_under, find_at, names_is_under, clone_names};

verus! {

/// One record the walker emits: a directory, or a file with its metadata.
#[derive(Debug, PartialEq, Eq)]
pub enum DirEntry {
    Dir(FsPath),
    File { path: FsPath, size: usize, modified: u64, created: u64 },
}

/// Mathematical model of an emitted record.
pub ghost enum DirEntryModel {
    Dir(Seq<CompModel>),
    File { path: Seq<CompModel>, size: nat, modified: u64, created: u64 },
}

impl View for DirEntry {
    type V = DirEntryModel;

    open spec fn view(&self) -> DirEntryModel {
        match self {
            DirEntry::Dir(p) => DirEntryModel::Dir(p@),
            DirEntry::File { path, size, modified, created } => DirEntryModel::File {
                path: path@,
                size: *size as nat,
                modified: *modified,
                created: *created,
            },
        }
    }
}

/// The model of a vector of emitted records.
pub open spec fn listing_model(s: Seq<DirEntry>) -> Seq<DirEntryModel> {
    s.map_values(|e: DirEntry| e@)
}

pub broadcast proof fn lemma_listing_model_len(s: Seq<DirEntry>)
    ensures
        #![trigger listing_model(s)]
        listing_model(s).len() == s.len(),
{
}

pub broadcast proof fn lemma_listing_model_index(s: Seq<DirEntry>, i: int)
    requires
        0 <= i < s.len(),
    ensures
        #![trigger listing_model(s)[i]]
        #![trigger listing_model(s), s[i]]
        listing_model(s)[i] == s[i]@,
{
}

pub proof fn lemma_listing_model_push(s: Seq<DirEntry>, e: DirEntry)
    ensures
        listing_model(s.push(e)) == listing_model(s).push(e@),
{
    broadcast use lemma_listing_model_len, lemma_listing_model_index;

    assert forall|k: int| 0 <= k < s.len() + 1 implies #[trigger] listing_model(s.push(e))[k]
        == listing_model(s).push(e@)[k] by {
        if k < s.len() {
            assert(s.push(e)[k] == s[k]);
        } else {
            assert(s.push(e)[k] == e);
        }
    }
    assert(listing_model(s.push(e)) =~= listing_model(s).push(e@));
}

pub proof fn lemma_listing_model_add(a: Seq<DirEntry>, b: Seq<DirEntry>)
    ensures
        listing_model(a + b) == listing_model(a) + listing_model(b),
{
    broadcast use lemma_listing_model_len, lemma_listing_model_index;

    assert forall|k: int| 0 <= k < a.len() + b.len() implies #[trigger] listing_model(a + b)[k]
        == (listing_model(a) + listing_model(b))[k] by {
        if k < a.len() {
            assert((a + b)[k] == a[k]);
        } else {
            assert((a + b)[k] == b[k - a.len()]);
        }
    }
    assert(listing_model(a + b) =~= listing_model(a) + listing_model(b));
}

/// Whether `e` is an immediate child of directory `p`.
pub open spec fn is_child(e: EntryModel, p: Seq<Seq<u8>>) -> bool {
    e.path.len() == p.len() + 1 && e.path.drop_last() == p
}

/// The immediate children of `p`, in store order.
pub open spec fn child_entries(s: Seq<EntryModel>, p: Seq<Seq<u8>>) -> Seq<EntryModel>
    decreases s.len(),
{
    if s.len() == 0 {
        Seq::empty()
    } else {
        let prev = child_entries(s.drop_last(), p);
        if is_child(s.last(), p) {
            prev.push(s.last())
        } else {
            prev
        }
    }
}

/// What the first `n` children of `p` contribute to a walk of depth `depth`:
/// a child directory is emitted and then expanded one level shallower, a
/// child file is emitted with its metadata, anything else is skipped.
pub open spec fn walk_upto(s: Seq<EntryModel>, p: Seq<Seq<u8>>, depth: nat, n: int) -> Seq<
    DirEntryModel,
>
    decreases depth, n,
{
    if depth == 0 || n <= 0 {
        Seq::empty()
    } else {
        let e = child_entries(s, p)[n - 1];
        let prior = walk_upto(s, p, depth, n - 1);
        match e.kind {
            KindModel::Dir { .. } => prior + seq![DirEntryModel::Dir(abs_path_of(e.path))]
                + walk_upto(
                s,
                e.path,
                (depth - 1) as nat,
                child_entries(s, e.path).len() as int,
            ),
            KindModel::File { data, modified, created } => prior + seq![
                DirEntryModel::File {
                    path: abs_path_of(e.path),
                    size: data.len(),
                    modified,
                    created,
                },
            ],
            _ => prior,
        }
    }
}

/// The full depth-first walk of directory `p`.
pub open spec fn walk_spec(s: Seq<EntryModel>, p: Seq<Seq<u8>>, depth: nat) -> Seq<DirEntryModel> {
    walk_upto(s, p, depth, child_entries(s, p).len() as int)
}

/// A walk of depth zero yields the empty sequence, whatever stands at the
/// root and however much lies beneath it.
pub proof fn lemma_walk_depth_zero(s: Seq<EntryModel>, p: Seq<Seq<u8>>)
    ensures
        walk_spec(s, p, 0) == Seq::<DirEntryModel>::empty(),
{
}

impl Clone for FsEntry {
    fn clone(&self) -> (r: FsEntry)
        ensures
            entry_model(r) == entry_model(*self),
    {
        FsEntry { path: clone_names(&self.path), kind: self.kind.clone() }
    }
}

/// Walk the directory at `p`, depth-first, to at most `depth` levels.
pub fn walk(fs: &SimFs, p: &Vec<Vec<u8>>, depth: u32) -> (out: Vec<DirEntry>)
    requires
        fs_wf(fs@),
    ensures
        listing_model(out@) == walk_spec(fs@.entries, bytes_list_model(p@), depth as nat),
    decreases depth,
{
    broadcast use lemma_entries_model_len, lemma_entries_model_index, lemma_bytes_list_model_len, lemma_bytes_list_model_index, lemma_listing_model_len, lemma_listing_model_index;

    let ghost s: Seq<EntryModel> = fs@.entries;
    let ghost pm: Seq<Seq<u8>> = bytes_list_model(p@);
    let mut out: Vec<DirEntry> = Vec::new();
    if depth == 0 {
        proof {
            assert(listing_model(out@) =~= walk_spec(s, pm, 0));
        }
        return out;
    }
    let mut kids: Vec<FsEntry> = Vec::new();
    let mut j: usize = 0;
    proof {
        assert(entries_model(kids@) =~= child_entries(s.take(0), pm));
    }
    while j < fs.entries.len()
        invariant
            j <= fs.entries.len(),
            s == fs@.entries,
            pm == bytes_list_model(p@),
            entries_model(kids@) == child_entries(s.take(j as int), pm),
        decreases fs.entries.len() - j,
    {
        let ghost em: EntryModel = s[j as int];
        proof {
            assert(s.take(j + 1).drop_last() =~= s.take(j as int));
            assert(s.take(j + 1).last() == em);
        }
        let is_kid = fs.entries[j].path.len() > p.len() && fs.entries[j].path.len() - 1 == p.len()
            && names_is_under(p, &fs.entries[j].path);
        proof {
            if is_kid {
                assert(em.path.drop_last() =~= em.path.take(pm.len() as int));
                assert(is_child(em, pm));
            } else {
                if is_child(em, pm) {
                    assert(em.path.take(pm.len() as int) =~= em.path.drop_last());
                    assert(is_under(pm, em.path));
                }
            }
        }
        if is_kid {
            let ghost kb: Seq<FsEntry> = kids@;
            let ne = fs.entries[j].clone();
            let ghost neg: FsEntry = ne;
            kids.push(ne);
            proof {
                lemma_entries_model_push(kb, neg);
            }
        }
        j = j + 1;
    }
    proof {
        assert(s.take(s.len() as int) =~= s);
    }
    let mut k: usize = 0;
    while k < kids.len()
        invariant
            k <= kids.len(),
            s == fs@.entries,
            fs_wf(fs@),
            pm == bytes_list_model(p@),
            depth >= 1,
            entries_model(kids@) == child_entries(s, pm),
            listing_model(out@) == walk_upto(s, pm, depth as nat, k as int),
        decreases kids.len() - k,
    {
        let ghost em: EntryModel = child_entries(s, pm)[k as int];
        proof {
            assert(entries_model(kids@)[k as int] == entry_model(kids@[k as int]));
        }
        match &kids[k].kind {
            EntryKind::Dir { .. } => {
                let ghost ob: Seq<DirEntry> = out@;
                let de = DirEntry::Dir(FsPath::from_names(&kids[k].path));
                let ghost deg: DirEntry = de;
                out.push(de);
                proof {
                    lemma_listing_model_push(ob, deg);
                }
                let ghost ob2: Seq<DirEntry> = out@;
                let mut sub = walk(fs, &kids[k].path, depth - 1);
                let ghost subg: Seq<DirEntry> = sub@;
                out.append(&mut sub);
                proof {
                    lemma_listing_model_add(ob2, subg);
                    assert(listing_model(out@) =~= walk_upto(s, pm, depth as nat, k + 1));
                }
            },
            EntryKind::File { data, modified, created } => {
                let ghost ob: Seq<DirEntry> = out@;
                let de = DirEntry::File {
                    path: FsPath::from_names(&kids[k].path),
                    size: data.len(),
                    modified: *modified,
                    created: *created,
                };
                let ghost deg: DirEntry = de;
                out.push(de);
                proof {
                    lemma_listing_model_push(ob, deg);
                    assert(listing_model(out@) =~= walk_upto(s, pm, depth as nat, k + 1));
                }
            },
            _ => {
                proof {
                    assert(listing_model(out@) =~= walk_upto(s, pm, depth as nat, k + 1));
                }
            },
        }
        k = k + 1;
    }
    out
}

/// What remains of `p` below the prefix `b`, if `b` is a prefix.
pub open spec fn strip_prefix_spec(p: Seq<CompModel>, b: Seq<CompModel>) -> Option<Seq<CompModel>> {
    if b.len() <= p.len() && p.take(b.len() as int) == b {
        Some(p.skip(b.len() as int))
    } else {
        None
    }
}

/// An emitted record's path rewritten relative to `b` and re-prefixed with a
/// single root marker; nothing if the record does not lie below `b`.
pub open spec fn rebase_entry(e: DirEntryModel, b: Seq<CompModel>) -> Option<DirEntryModel> {
    match e {
        DirEntryModel::Dir(p) => match strip_prefix_spec(p, b) {
            Option::Some(suf) => Some(DirEntryModel::Dir(seq![CompModel::Root] + suf)),
            Option::None => None,
        },
        DirEntryModel::File { path, size, modified, created } => match strip_prefix_spec(path, b) {
            Option::Some(suf) => Some(
                DirEntryModel::File { path: seq![CompModel::Root] + suf, size, modified, created },
            ),
            Option::None => None,
        },
    }
}

/// Rewrite `p` relative to `base`, re-prefixed with one root marker.
fn strip_path(p: &FsPath, base: &FsPath) -> (r: Result<FsPath, FsError>)
    ensures
        match r {
            Ok(s) => strip_prefix_spec(p@, base@) matches Some(suf) && s@ == seq![CompModel::Root]
                + suf,
            Err(e) => strip_prefix_spec(p@, base@) is None && e == FsError::InvalidInput,
        },
{
    broadcast use lemma_parts_model_len, lemma_parts_model_index;

    if base.parts.len() > p.parts.len() {
        return Err(FsError::InvalidInput);
    }
    let mut i: usize = 0;
    while i < base.parts.len()
        invariant
            i <= base.parts.len(),
            base@.len() <= p@.len(),
            forall|k: int| 0 <= k < i ==> p@.take(base@.len() as int)[k] == base@[k],
        decreases base.parts.len() - i,
    {
        if !comp_eq(&p.parts[i], &base.parts[i]) {
            proof {
                assert(p@.take(base@.len() as int)[i as int] != base@[i as int]);
            }
            return Err(FsError::InvalidInput);
        }
        i = i + 1;
    }
    proof {
        assert(p@.take(base@.len() as int) =~= base@);
    }
    let mut parts: Vec<Component> = Vec::new();
    parts.push(Component::Root);
    let ghost suf: Seq<CompModel> = p@.skip(base@.len() as int);
    proof {
        assert(parts_model(parts@) =~= seq![CompModel::Root] + suf.take(0));
    }
    let mut k: usize = base.parts.len();
    while k < p.parts.len()
        invariant
            base@.len() <= k <= p@.len(),
            p@.len() == p.parts@.len(),
            base@.len() == base.parts@.len(),
            suf == p@.skip(base@.len() as int),
            parts_model(parts@) == seq![CompModel::Root] + suf.take(k - base@.len()),
        decreases p.parts.len() - k,
    {
        let c = p.parts[k].clone();
        let ghost cc: Component = c;
        let ghost pb: Seq<Component> = parts@;
        parts.push(c);
        proof {
            lemma_parts_model_push(pb, cc);
            assert(seq![CompModel::Root] + suf.take(k + 1 - base@.len()) =~= (seq![
                CompModel::Root,
            ] + suf.take(k - base@.len())).push(p@[k as int]));
        }
        k = k + 1;
    }
    proof {
        assert(suf.take(p@.len() - base@.len()) =~= suf);
    }
    Ok(FsPath { parts })
}

impl Clone for DirEntry {
    fn clone(&self) -> (r: DirEntry)
        ensures
            r@ == self@,
    {
        match self {
            DirEntry::Dir(p) => DirEntry::Dir(p.clone()),
            DirEntry::File { path, size, modified, created } => DirEntry::File {
                path: path.clone(),
                size: *size,
                modified: *modified,
                created: *created,
            },
        }
    }
}

impl DirEntry {
    /// The record for a directory at `path`.
    pub fn dir(path: FsPath) -> (r: DirEntry)
        ensures
            r@ == DirEntryModel::Dir(path@),
    {
        DirEntry::Dir(path)
    }

    /// The record for a regular file at `path` with its size and timestamps.
    pub fn file(path: FsPath, size: usize, modified: u64, created: u64) -> (r: DirEntry)
        ensures
            r@ == (DirEntryModel::File { path: path@, size: size as nat, modified, created }),
    {
        DirEntry::File { path, size, modified, created }
    }

    /// Rewrite the record's path relative to `base`, re-prefixed with a
    /// single root marker, so a caller never sees the on-disk base directory.
    pub fn relative_to(self, base: &FsPath) -> (r: Result<DirEntry, FsError>)
        ensures
            match r {
                Ok(e) => rebase_entry(self@, base@) == Some(e@),
                Err(err) => rebase_entry(self@, base@) is None && err == FsError::InvalidInput,
            },
    {
        match self {
            DirEntry::Dir(p) => {
                match strip_path(&p, base) {
                    Ok(np) => Ok(DirEntry::Dir(np)),
                    Err(e) => Err(e),
                }
            },
            DirEntry::File { path, size, modified, created } => {
                match strip_path(&path, base) {
                    Ok(np) => Ok(DirEntry::File { path: np, size, modified, created }),
                    Err(e) => Err(e),
                }
            },
        }
    }
}

/// Every child record of `p` really is an immediate child of `p`.
pub proof fn lemma_child_entries_are_children(s: Seq<EntryModel>, p: Seq<Seq<u8>>)
    ensures
        forall|i: int|
            0 <= i < child_entries(s, p).len() ==> is_child(#[trigger] child_entries(s, p)[i], p),
    decreases s.len(),
{
    if s.len() > 0 {
        lemma_child_entries_are_children(s.drop_last(), p);
        let prev = child_entries(s.drop_last(), p);
        assert forall|i: int| 0 <= i < child_entries(s, p).len() implies is_child(
            #[trigger] child_entries(s, p)[i],
            p,
        ) by {
            if is_child(s.last(), p) {
                if i < prev.len() {
                    assert(child_entries(s, p)[i] == prev[i]);
                } else {
                    assert(child_entries(s, p)[i] == s.last());
                }
            } else {
                assert(child_entries(s, p)[i] == prev[i]);
            }
        }
    }
}

/// An absolute path below `b` strips to its part below `b`.
pub proof fn lemma_strip_abs(q: Seq<Seq<u8>>, b: Seq<Seq<u8>>)
    requires
        is_under(b, q),
    ensures
        strip_prefix_spec(abs_path_of(q), abs_path_of(b)) is Some,
{
    broadcast use crate::paths::lemma_name_comps_len, crate::paths::lemma_name_comps_index;

    let aq = abs_path_of(q);
    let ab = abs_path_of(b);
    assert(aq.len() == q.len() + 1);
    assert(ab.len() == b.len() + 1);
    assert forall|i: int| 0 <= i < ab.len() implies #[trigger] aq.take(ab.len() as int)[i]
        == ab[i] by {
        if i > 0 {
            assert(aq[i] == CompModel::Name(q[i - 1]));
            assert(ab[i] == CompModel::Name(b[i - 1]));
            assert(q.take(b.len() as int)[i - 1] == q[i - 1]);
        }
    }
    assert(aq.take(ab.len() as int) =~= ab);
}

/// The error a listing ends in: the distinct not-found outcome for a missing
/// root, or the mismatch for a root that is no directory.
pub open spec fn list_err(o: Option<KindModel>) -> FsError {
    match o {
        Option::None => FsError::NotFound,
        Option::Some(_) => FsError::NotADirectory,
    }
}

/// The depth bound a listing runs with: unbounded means the deepest bound
/// expressible.
pub open spec fn depth_of(d: Option<u32>) -> nat {
    match d {
        Option::Some(n) => n as nat,
        Option::None => u32::MAX as nat,
    }
}

/// List the directory at `p` to at most `max_depth` levels, depth-first. A
/// missing root is the distinct not-found outcome and yields no records.
pub fn list(fs: &SimFs, p: &Vec<Vec<u8>>, max_depth: Option<u32>) -> (r: Result<
    Vec<DirEntry>,
    FsError,
>)
    requires
        fs_wf(fs@),
    ensures
        match r {
            Ok(out) => is_dir_kind(kind_at(fs@, bytes_list_model(p@))) && listing_model(out@)
                == walk_spec(fs@.entries, bytes_list_model(p@), depth_of(max_depth)),
            Err(e) => !is_dir_kind(kind_at(fs@, bytes_list_model(p@))) && e == list_err(
                kind_at(fs@, bytes_list_model(p@)),
            ),
        },
{
    let d: u32 = match max_depth {
        Option::Some(n) => n,
        Option::None => u32::MAX,
    };
    if p.len() == 0 {
        return Ok(walk(fs, p, d));
    }
    match fs.find_idx(p) {
        Option::None => Err(FsError::NotFound),
        Option::Some(i) => {
            let is_dir = matches!(fs.entries[i].kind, EntryKind::Dir { .. });
            proof {
                broadcast use lemma_entries_model_len, lemma_entries_model_index;

                if is_dir {
                    assert(fs@.entries[i as int].kind is Dir);
                } else {
                    assert(!(fs@.entries[i as int].kind is Dir));
                }
            }
            if is_dir {
                Ok(walk(fs, p, d))
            } else {
                Err(FsError::NotADirectory)
            }
        },
    }
}

} // verus!
