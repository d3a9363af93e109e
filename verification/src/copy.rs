//! Recursive copying and moving.
//!
//! A copy reads the source subtree as it stood when the operation began and
//! places each object at the destination joined with its path below the
//! source: directories are created where missing (an existing directory is
//! kept as it is), files are streamed byte-for-byte over whatever file stood
//! there, symbolic links are reproduced with their target string unresolved
//! and must not collide with an existing object, and any other object is an
//! invalid-input error. A move tries an atomic rename first and falls back
//! to copy-then-remove only when source and destination live on different
//! storage devices.

use vstd::prelude::*;
use crate::paths::{bytes_list_model, clone_bytes, lemma_bytes_list_model_len,
    lemma_bytes_list_model_index, lemma_bytes_list_model_push};
use crate::fs::{SimFs, FsModel, FsEntry, FsError, EntryKind, KindModel, EntryModel, entry_model,
    entries_model, lemma_entries_model_len, lemma_entries_model_index, lemma_entries_model_push,
    fs_wf, wf_entries, unique_paths, kind_at, is_dir_kind, is_under, find_at, names_is_under,
    names_eq, clone_names, write_data, lemma_find_at_push, lemma_find_at_hit, lemma_find_at_none,
    lemma_find_at_witness};

verus! {

/// Whether one object of kind `k` may be placed where `t` stands: a
/// directory joins an existing directory or empty spot, a file overwrites a
/// file or empty spot, a link needs an empty spot, anything else cannot be
/// copied.
pub open spec fn copy_item_ok(k: KindModel, t: Option<KindModel>) -> bool {
    match k {
        KindModel::Dir { .. } => t is None || is_dir_kind(t),
        KindModel::File { .. } => t is None || (t matches Some(KindModel::File { .. })),
        KindModel::Symlink { .. } => t is None,
        KindModel::Other => false,
    }
}

/// The object left behind after placing `k` where `t` stood.
pub open spec fn copied_kind(k: KindModel, t: Option<KindModel>, now: u64, dd: u32) -> KindModel {
    match k {
        KindModel::Dir { .. } => match t {
            Option::Some(KindModel::Dir { device }) => KindModel::Dir { device },
            _ => KindModel::Dir { device: dd },
        },
        KindModel::File { data, .. } => KindModel::File {
            data: write_data(data, t),
            modified: now,
            created: match t {
                Option::Some(KindModel::File { created, .. }) => created,
                _ => now,
            },
        },
        KindModel::Symlink { target } => KindModel::Symlink { target },
        KindModel::Other => KindModel::Other,
    }
}

/// The storage device that newly created directories at the destination
/// inherit.
pub open spec fn dst_device(fs: FsModel, dst: Seq<Seq<u8>>) -> u32 {
    match kind_at(fs, dst) {
        Option::Some(KindModel::Dir { device }) => device,
        _ => match kind_at(fs, dst.drop_last()) {
            Option::Some(KindModel::Dir { device }) => device,
            _ => fs.root_device,
        },
    }
}


/// Whether copying `src` onto `dst` succeeds: the source exists and is
/// copyable, the destination spot admits it (with an existing parent where
/// the destination is new), and every object of the source subtree admits
/// placement at its destination.
pub open spec fn copy_ok(fs: FsModel, src: Seq<Seq<u8>>, dst: Seq<Seq<u8>>) -> bool {
    &&& kind_at(fs, src) is Some
    &&& copy_item_ok(kind_at(fs, src).unwrap(), kind_at(fs, dst))
    &&& (kind_at(fs, dst) is None ==> dst.len() >= 1 && is_dir_kind(kind_at(fs, dst.drop_last())))
    &&& forall|q: Seq<Seq<u8>>|
        (is_under(src, q) && q.len() > src.len() && (#[trigger] kind_at(fs, q)) is Some)
            ==> copy_item_ok(kind_at(fs, q).unwrap(), kind_at(fs, dst + q.skip(src.len() as int)))
}

/// What lives at `q` after copying `src` onto `dst`: targets of the source
/// subtree carry the copied object, everything else is untouched.
pub open spec fn copy_result_at(
    fs: FsModel,
    src: Seq<Seq<u8>>,
    dst: Seq<Seq<u8>>,
    now: u64,
    q: Seq<Seq<u8>>,
) -> Option<KindModel> {
    let sk = kind_at(fs, src + q.skip(dst.len() as int));
    if is_under(dst, q) && sk is Some {
        Some(copied_kind(sk.unwrap(), kind_at(fs, q), now, dst_device(fs, dst)))
    } else {
        kind_at(fs, q)
    }
}

/// Join `dst` with the part of `epath` below the first `srclen` segments.
pub fn target_of(dst: &Vec<Vec<u8>>, epath: &Vec<Vec<u8>>, srclen: usize) -> (r: Vec<Vec<u8>>)
    requires
        srclen <= epath@.len(),
    ensures
        bytes_list_model(r@) == bytes_list_model(dst@) + bytes_list_model(epath@).skip(
            srclen as int,
        ),
{
    broadcast use lemma_bytes_list_model_len, lemma_bytes_list_model_index;

    let mut r = clone_names(dst);
    let mut i: usize = srclen;
    proof {
        assert(bytes_list_model(r@) =~= bytes_list_model(dst@) + bytes_list_model(epath@).skip(
            srclen as int,
        ).take(0));
    }
    while i < epath.len()
        invariant
            srclen <= i <= epath@.len(),
            bytes_list_model(r@) == bytes_list_model(dst@) + bytes_list_model(epath@).skip(
                srclen as int,
            ).take(i - srclen),
        decreases epath@.len() - i,
    {
        let ghost rb: Seq<Vec<u8>> = r@;
        let nb = clone_bytes(&epath[i]);
        let ghost nbg: Vec<u8> = nb;
        r.push(nb);
        proof {
            lemma_bytes_list_model_push(rb, nbg);
            assert(bytes_list_model(dst@) + bytes_list_model(epath@).skip(srclen as int).take(
                i + 1 - srclen,
            ) =~= (bytes_list_model(dst@) + bytes_list_model(epath@).skip(srclen as int).take(
                i - srclen,
            )).push(bytes_list_model(epath@)[i as int]));
        }
        i = i + 1;
    }
    proof {
        assert(bytes_list_model(epath@).skip(srclen as int).take(
            epath@.len() - srclen,
        ) =~= bytes_list_model(epath@).skip(srclen as int));
    }
    r
}

/// What pass one of a copy leaves at `q`, given that `oldk` stood there: an
/// entry standing at a target spot takes the copied object, others stay.
pub open spec fn pass1_kind(
    fs: FsModel,
    src: Seq<Seq<u8>>,
    dst: Seq<Seq<u8>>,
    now: u64,
    q: Seq<Seq<u8>>,
    oldk: KindModel,
) -> KindModel {
    let sk = kind_at(fs, src + q.skip(dst.len() as int));
    if is_under(dst, q) && sk is Some {
        copied_kind(sk.unwrap(), Some(oldk), now, dst_device(fs, dst))
    } else {
        oldk
    }
}

/// Whether `q` is a target spot that a copy must newly create below the
/// destination: empty before, with a source object, reached by the first `v`
/// store entries.
pub open spec fn new_target(
    fs: FsModel,
    src: Seq<Seq<u8>>,
    dst: Seq<Seq<u8>>,
    v: int,
    q: Seq<Seq<u8>>,
) -> bool {
    &&& is_under(dst, q)
    &&& q.len() > dst.len()
    &&& kind_at(fs, q) is None
    &&& exists|w: int|
        0 <= w < v && (#[trigger] fs.entries[w]).path == src + q.skip(dst.len() as int)
}

/// Build `input` written over `old_data` from the start: the longer tail of
/// `old_data`, if any, stays.
pub fn splice_data(input: &Vec<u8>, old_data: &Vec<u8>) -> (r: Vec<u8>)
    ensures
        r@ == (if input@.len() >= old_data@.len() {
            input@
        } else {
            input@ + old_data@.skip(input@.len() as int)
        }),
{
    let mut nd: Vec<u8> = Vec::new();
    crate::stream::pipe(input, &mut nd);
    proof {
        assert(nd@ =~= input@);
    }
    if old_data.len() > input.len() {
        let mut j: usize = input.len();
        while j < old_data.len()
            invariant
                input@.len() <= j <= old_data@.len(),
                nd@ == input@ + old_data@.subrange(input@.len() as int, j as int),
            decreases old_data.len() - j,
        {
            nd.push(old_data[j]);
            proof {
                assert(input@ + old_data@.subrange(input@.len() as int, j + 1 as int) =~= (input@
                    + old_data@.subrange(input@.len() as int, j as int)).push(
                    old_data@[j as int],
                ));
            }
            j = j + 1;
        }
        proof {
            assert(old_data@.subrange(input@.len() as int, old_data@.len() as int)
                =~= old_data@.skip(input@.len() as int));
        }
    } else {
        proof {
            assert(nd@ == input@);
        }
    }
    nd
}

/// Build the object that placing `k` over `t` leaves behind.
fn copied_kind_exec(k: &EntryKind, t: Option<&EntryKind>, now: u64, dd: u32) -> (r: EntryKind)
    requires
        !(k@ is Other),
    ensures
        r@ == copied_kind(
            k@,
            match t {
                Option::Some(tk) => Some(tk@),
                Option::None => None,
            },
            now,
            dd,
        ),
{
    match k {
        EntryKind::Dir { .. } => {
            match t {
                Option::Some(EntryKind::Dir { device }) => EntryKind::Dir { device: *device },
                _ => EntryKind::Dir { device: dd },
            }
        },
        EntryKind::File { data, .. } => {
            let nd = match t {
                Option::Some(EntryKind::File { data: od, .. }) => splice_data(data, od),
                _ => clone_bytes(data),
            };
            let created: u64 = match t {
                Option::Some(EntryKind::File { created, .. }) => *created,
                _ => now,
            };
            EntryKind::File { data: nd, modified: now, created }
        },
        EntryKind::Symlink { target } => EntryKind::Symlink { target: clone_bytes(target) },
        EntryKind::Other => EntryKind::Other,
    }
}

/// Whatever has something beneath it is a directory.
pub proof fn lemma_under_needs_dirs(fs: FsModel, p: Seq<Seq<u8>>, q: Seq<Seq<u8>>)
    requires
        fs_wf(fs),
        is_under(p, q),
        q.len() > p.len(),
        kind_at(fs, q) is Some,
    ensures
        is_dir_kind(kind_at(fs, p)),
    decreases q.len(),
{
    let par = q.drop_last();
    lemma_find_at_witness(fs.entries, q);
    if q.len() >= 2 {
        assert(is_dir_kind(kind_at(fs, par)));
    } else {
        assert(par.len() == 0);
        assert(is_dir_kind(kind_at(fs, par)));
    }
    if par.len() == p.len() {
        assert(par =~= p) by {
            assert(par.take(p.len() as int) =~= q.take(p.len() as int));
        }
    } else {
        assert(is_under(p, par)) by {
            assert(par.take(p.len() as int) =~= q.take(p.len() as int));
        }
        lemma_under_needs_dirs(fs, p, par);
    }
}

/// A copy never demotes a directory: where a directory stood, one still
/// stands.
#[verifier::rlimit(100)]
pub proof fn lemma_copy_keeps_dirs(
    fs: FsModel,
    sm: Seq<Seq<u8>>,
    dm: Seq<Seq<u8>>,
    now: u64,
    x: Seq<Seq<u8>>,
)
    requires
        fs_wf(fs),
        copy_ok(fs, sm, dm),
        is_dir_kind(kind_at(fs, x)),
    ensures
        is_dir_kind(copy_result_at(fs, sm, dm, now, x)),
{
    let sk = kind_at(fs, sm + x.skip(dm.len() as int));
    if is_under(dm, x) && sk is Some {
        if x == dm {
            assert(sm + x.skip(dm.len() as int) =~= sm);
            assert(copy_item_ok(kind_at(fs, sm).unwrap(), kind_at(fs, dm)));
        } else {
            if x.len() == dm.len() {
                assert(x =~= x.take(dm.len() as int));
            }
            assert(x.len() > dm.len());
            let q = sm + x.skip(dm.len() as int);
            assert(q.take(sm.len() as int) =~= sm);
            assert(is_under(sm, q));
            assert(q.len() > sm.len());
            assert(dm + q.skip(sm.len() as int) =~= x);
            assert(copy_item_ok(kind_at(fs, q).unwrap(), kind_at(fs, x)));
        }
    }
}

/// The parent spot of a target below the destination root carries a copied
/// directory.
#[verifier::rlimit(100)]
proof fn lemma_copy_parent_dir_below(
    fs: FsModel,
    sm: Seq<Seq<u8>>,
    dm: Seq<Seq<u8>>,
    now: u64,
    q: Seq<Seq<u8>>,
)
    requires
        fs_wf(fs),
        copy_ok(fs, sm, dm),
        q.len() >= 2,
        is_under(dm, q),
        q != dm,
        kind_at(fs, sm + q.skip(dm.len() as int)) is Some,
    ensures
        is_dir_kind(copy_result_at(fs, sm, dm, now, q.drop_last())),
{
    let par = q.drop_last();
    if q.len() == dm.len() {
        assert(q =~= q.take(dm.len() as int));
    }
    assert(q.len() > dm.len());
    let suffix = q.skip(dm.len() as int);
    let sq = sm + suffix;
    assert(suffix.len() >= 1);
    assert(sq.len() >= 1);
    lemma_find_at_witness(fs.entries, sq);
    let sp = sq.drop_last();
    if suffix.len() == 1 {
        assert(sp =~= sm);
        assert(par =~= dm);
    } else {
        assert(sp =~= sm + suffix.drop_last());
        assert(par =~= dm + suffix.drop_last());
    }
    // the source parent holds a directory
    if sq.len() >= 2 {
        assert(is_dir_kind(kind_at(fs, sp)));
    } else {
        assert(sp.len() == 0);
        assert(is_dir_kind(kind_at(fs, sp)));
    }
    // hence the parent spot carries a copied directory
    assert(is_under(dm, par)) by {
        assert(par.take(dm.len() as int) =~= dm);
    }
    assert(sm + par.skip(dm.len() as int) =~= sp) by {
        assert(par.skip(dm.len() as int) =~= suffix.drop_last());
    }
    let psk = kind_at(fs, sp);
    assert(psk is Some);
    if kind_at(fs, par) is Some {
        assert(copy_item_ok(psk.unwrap(), kind_at(fs, par))) by {
            if par == dm {
                assert(sm + par.skip(dm.len() as int) =~= sm);
            } else {
                assert(is_under(sm, sp)) by {
                    assert(sp.take(sm.len() as int) =~= sm);
                }
                assert(dm + sp.skip(sm.len() as int) =~= par) by {
                    assert(sp.skip(sm.len() as int) =~= suffix.drop_last());
                }
            }
        }
    }
}

/// Below any object a copy leaves behind stands a directory, as
/// well-formedness asks.
#[verifier::rlimit(100)]
pub proof fn lemma_copy_parent_dir(
    fs: FsModel,
    sm: Seq<Seq<u8>>,
    dm: Seq<Seq<u8>>,
    now: u64,
    q: Seq<Seq<u8>>,
)
    requires
        fs_wf(fs),
        copy_ok(fs, sm, dm),
        q.len() >= 2,
        copy_result_at(fs, sm, dm, now, q) is Some,
    ensures
        is_dir_kind(copy_result_at(fs, sm, dm, now, q.drop_last())),
{
    let par = q.drop_last();
    let sk = kind_at(fs, sm + q.skip(dm.len() as int));
    if is_under(dm, q) && sk is Some {
        // q is a target spot
        if q == dm {
            assert(sm + q.skip(dm.len() as int) =~= sm);
            if kind_at(fs, dm) is Some {
                lemma_find_at_witness(fs.entries, dm);
                assert(is_dir_kind(kind_at(fs, par)));
            } else {
                assert(is_dir_kind(kind_at(fs, par)));
            }
            lemma_copy_keeps_dirs(fs, sm, dm, now, par);
        } else {
            lemma_copy_parent_dir_below(fs, sm, dm, now, q);
        }
    } else {
        // q is untouched, so it stood in the old store under a directory
        lemma_find_at_witness(fs.entries, q);
        assert(is_dir_kind(kind_at(fs, par)));
        lemma_copy_keeps_dirs(fs, sm, dm, now, par);
    }
}

/// Whether an atomic rename of `s` onto `d` (on one device) succeeds: the
/// source exists, the destination is not inside it, and the destination spot
/// is empty (beneath an existing directory) or holds a non-directory that a
/// non-directory source may replace.
pub open spec fn rename_ok(fs: FsModel, s: Seq<Seq<u8>>, d: Seq<Seq<u8>>) -> bool {
    if s == d {
        kind_at(fs, s) is Some
    } else {
        &&& kind_at(fs, s) is Some
        &&& !is_under(s, d)
        &&& match kind_at(fs, d) {
            Option::None => d.len() >= 1 && is_dir_kind(kind_at(fs, d.drop_last())),
            Option::Some(k2) => !(k2 is Dir) && !(kind_at(fs, s).unwrap() is Dir),
        }
    }
}

/// What lives at `q` after renaming `s` onto `d`: the source subtree is gone
/// and stands unchanged below the destination.
pub open spec fn rename_result_at(
    fs: FsModel,
    s: Seq<Seq<u8>>,
    d: Seq<Seq<u8>>,
    q: Seq<Seq<u8>>,
) -> Option<KindModel> {
    if s == d {
        kind_at(fs, q)
    } else if is_under(s, q) {
        None
    } else if is_under(d, q) && kind_at(fs, s + q.skip(d.len() as int)) is Some {
        kind_at(fs, s + q.skip(d.len() as int))
    } else {
        kind_at(fs, q)
    }
}

/// Whether a move of `s` onto `d` succeeds: an atomic rename where source
/// and destination share a device, else a full copy followed by removal of
/// the source.
pub open spec fn move_ok(fs: FsModel, s: Seq<Seq<u8>>, d: Seq<Seq<u8>>) -> bool {
    if dst_device(fs, s) == dst_device(fs, d) {
        rename_ok(fs, s, d)
    } else {
        copy_ok(fs, s, d)
    }
}

/// What lives at `q` after a move of `s` onto `d`.
pub open spec fn move_result_at(
    fs: FsModel,
    s: Seq<Seq<u8>>,
    d: Seq<Seq<u8>>,
    now: u64,
    q: Seq<Seq<u8>>,
) -> Option<KindModel> {
    if dst_device(fs, s) == dst_device(fs, d) {
        rename_result_at(fs, s, d, q)
    } else {
        let dir_after = is_dir_kind(copy_result_at(fs, s, d, now, s));
        if q.len() > 0 && (if dir_after {
            is_under(s, q)
        } else {
            q == s
        }) {
            None
        } else {
            copy_result_at(fs, s, d, now, q)
        }
    }
}

/// Distinct spots neither of which contains the other stay unrelated when
/// one is extended.
proof fn lemma_prefix_free(s: Seq<Seq<u8>>, d: Seq<Seq<u8>>, x: Seq<Seq<u8>>)
    requires
        !is_under(s, d),
        !is_under(d, s),
        is_under(d, x),
    ensures
        !is_under(s, x),
{
    if is_under(s, x) {
        if s.len() <= d.len() {
            assert(x.take(s.len() as int) =~= x.take(d.len() as int).take(s.len() as int));
            assert(is_under(s, d));
        } else {
            assert(x.take(d.len() as int) =~= x.take(s.len() as int).take(d.len() as int));
            assert(is_under(d, s));
        }
    }
}

/// Below any object a rename leaves behind stands a directory.
#[verifier::rlimit(100)]
proof fn lemma_rename_parent_dir(fs: FsModel, s: Seq<Seq<u8>>, d: Seq<Seq<u8>>, q: Seq<Seq<u8>>)
    requires
        fs_wf(fs),
        rename_ok(fs, s, d),
        s != d,
        q.len() >= 2,
        rename_result_at(fs, s, d, q) is Some,
    ensures
        is_dir_kind(rename_result_at(fs, s, d, q.drop_last())),
{
    let par = q.drop_last();
    if s.len() == 0 {
        assert(d.take(s.len() as int) =~= s);
        assert(is_under(s, d));
    }
    assert(s.len() >= 1);
    assert(!is_under(d, s)) by {
        if is_under(d, s) && d.len() < s.len() {
            lemma_under_needs_dirs(fs, d, s);
        }
        if is_under(d, s) && d.len() == s.len() {
            assert(s =~= s.take(d.len() as int));
        }
    }
    assert(!is_under(s, par) || is_under(s, q)) by {
        if is_under(s, par) {
            assert(q.take(s.len() as int) =~= par.take(s.len() as int));
        }
    }
    if is_under(s, q) {
        // gone; nothing to show
        assert(!(rename_result_at(fs, s, d, q) is Some));
    } else if is_under(d, q) && kind_at(fs, s + q.skip(d.len() as int)) is Some {
        // q is a moved spot
        let suffix = q.skip(d.len() as int);
        let sq = s + suffix;
        if q == d {
            assert(par =~= d.drop_last());
            if kind_at(fs, d) is Some {
                lemma_find_at_witness(fs.entries, d);
                assert(is_dir_kind(kind_at(fs, par)));
            } else {
                assert(is_dir_kind(kind_at(fs, par)));
            }
            assert(!is_under(d, par)) by {
                if is_under(d, par) {
                    assert(par.len() >= d.len());
                }
            }
            assert(!is_under(s, par)) by {
                if is_under(s, par) {
                    assert(q.take(s.len() as int) =~= par.take(s.len() as int));
                    assert(is_under(s, q));
                    assert(is_under(s, d));
                }
            }
            assert(rename_result_at(fs, s, d, par) == kind_at(fs, par));
        } else {
            if q.len() == d.len() {
                assert(q =~= q.take(d.len() as int));
            }
            assert(q.len() > d.len());
            assert(suffix.len() >= 1);
            lemma_find_at_witness(fs.entries, sq);
            if suffix.len() == 1 {
                assert(par =~= d);
                assert(sq.len() > s.len());
                assert(is_under(s, sq)) by {
                    assert(sq.take(s.len() as int) =~= s);
                }
                lemma_under_needs_dirs(fs, s, sq);
                assert(s + d.skip(d.len() as int) =~= s);
                assert(is_under(d, d)) by {
                    assert(d.take(d.len() as int) =~= d);
                }
                assert(rename_result_at(fs, s, d, d) == kind_at(fs, s));
            } else {
                let sp = s + suffix.drop_last();
                assert(sp =~= sq.drop_last());
                assert(par =~= d + suffix.drop_last());
                assert(sq.len() >= 2);
                assert(is_dir_kind(kind_at(fs, sp)));
                assert(is_under(d, par)) by {
                    assert(par.take(d.len() as int) =~= d);
                }
                lemma_prefix_free(s, d, par);
                assert(s + par.skip(d.len() as int) =~= sp) by {
                    assert(par.skip(d.len() as int) =~= suffix.drop_last());
                }
                assert(rename_result_at(fs, s, d, par) == kind_at(fs, sp));
            }
        }
    } else {
        // q is untouched
        lemma_find_at_witness(fs.entries, q);
        assert(is_dir_kind(kind_at(fs, q.drop_last())));
        assert(!is_under(s, par));
        if is_under(d, par) && kind_at(fs, s + par.skip(d.len() as int)) is Some {
            // the parent cannot be a moved spot: nothing lived below the
            // destination before the rename
            assert(is_under(d, q)) by {
                assert(q.take(d.len() as int) =~= par.take(d.len() as int));
            }
            if q.len() == d.len() {
                assert(q =~= q.take(d.len() as int));
            }
            assert(q.len() > d.len());
            assert(!is_dir_kind(kind_at(fs, d)));
            lemma_under_needs_dirs(fs, d, q);
            assert(false);
        }
        assert(rename_result_at(fs, s, d, par) == kind_at(fs, par));
    }
}

/// What the store a rename builds holds at `q`, after the first `j` entries
/// were carried over: the source subtree is dropped, spots below the
/// destination carry the moved objects seen so far, and the destination's
/// old occupant is dropped.
pub open spec fn rename_mid_at(
    fs0: FsModel,
    sm: Seq<Seq<u8>>,
    dm: Seq<Seq<u8>>,
    j: int,
    q: Seq<Seq<u8>>,
) -> Option<KindModel> {
    if is_under(sm, q) {
        None::<KindModel>
    } else if is_under(dm, q) && find_at(fs0.entries.take(j), sm + q.skip(dm.len() as int))
        is Some {
        find_at(fs0.entries.take(j), sm + q.skip(dm.len() as int))
    } else if q == dm {
        None::<KindModel>
    } else {
        find_at(fs0.entries.take(j), q)
    }
}

/// A move of a file between two spots on different storage devices leaves
/// the destination holding exactly the bytes the source held, and the
/// source no longer exists afterwards.
#[verifier::rlimit(100)]
pub proof fn lemma_move_cross_device(fs: FsModel, s: Seq<Seq<u8>>, d: Seq<Seq<u8>>, now: u64)
    requires
        fs_wf(fs),
        dst_device(fs, s) != dst_device(fs, d),
        kind_at(fs, s) matches Some(KindModel::File { .. }),
        kind_at(fs, d) is None,
        d.len() >= 1,
        is_dir_kind(kind_at(fs, d.drop_last())),
    ensures
        move_ok(fs, s, d),
        kind_at(fs, s) matches Some(KindModel::File { data, .. }) && move_result_at(
            fs,
            s,
            d,
            now,
            d,
        ) matches Some(KindModel::File { data: nd, .. }) && nd == data,
        move_result_at(fs, s, d, now, s) is None,
{
    // nothing hangs beneath a file, so the subtree condition holds
    assert forall|q: Seq<Seq<u8>>|
        (is_under(s, q) && q.len() > s.len() && (#[trigger] kind_at(fs, q)) is Some) implies
        copy_item_ok(kind_at(fs, q).unwrap(), kind_at(fs, d + q.skip(s.len() as int))) by {
        lemma_under_needs_dirs(fs, s, q);
    }
    assert(copy_ok(fs, s, d));
    // the source is no spot of the destination subtree
    assert(!is_under(d, s)) by {
        if is_under(d, s) {
            if d.len() == s.len() {
                assert(s =~= s.take(d.len() as int));
            } else {
                lemma_under_needs_dirs(fs, d, s);
            }
        }
    }
    assert(s.len() >= 1) by {
        if s.len() == 0 {
            assert(kind_at(fs, s) matches Some(KindModel::Dir { .. }));
        }
    }
    assert(copy_result_at(fs, s, d, now, s) == kind_at(fs, s)) by {
        if is_under(d, s) {
            assert(false);
        }
    }
    assert(is_under(d, d)) by {
        assert(d.take(d.len() as int) =~= d);
    }
    assert(s + d.skip(d.len() as int) =~= s);
    assert(copy_result_at(fs, s, d, now, d) == Some(
        copied_kind(kind_at(fs, s).unwrap(), kind_at(fs, d), now, dst_device(fs, d)),
    ));
}

/// The store a copy builds holds exactly the copy's result at every spot.
#[verifier::rlimit(100)]
proof fn lemma_copy_finish(
    fs0: FsModel,
    sm: Seq<Seq<u8>>,
    dm: Seq<Seq<u8>>,
    now: u64,
    srckv: KindModel,
    base1: Seq<EntryModel>,
    base2: Seq<EntryModel>,
    fin: Seq<EntryModel>,
    n: int,
)
    requires
        fs_wf(fs0),
        copy_ok(fs0, sm, dm),
        kind_at(fs0, sm) == Some(srckv),
        n == fs0.entries.len(),
        forall|q: Seq<Seq<u8>>|
            find_at(base1, q) == (match find_at(fs0.entries, q) {
                Option::Some(oldk) => Some(pass1_kind(fs0, sm, dm, now, q, oldk)),
                Option::None => None::<KindModel>,
            }),
        forall|q: Seq<Seq<u8>>|
            find_at(base2, q) == (if q == dm && kind_at(fs0, dm) is None {
                Some(copied_kind(srckv, None, now, dst_device(fs0, dm)))
            } else {
                find_at(base1, q)
            }),
        forall|q: Seq<Seq<u8>>|
            find_at(fin, q) == (if new_target(fs0, sm, dm, n, q) {
                Some(
                    copied_kind(
                        kind_at(fs0, sm + q.skip(dm.len() as int)).unwrap(),
                        None,
                        now,
                        dst_device(fs0, dm),
                    ),
                )
            } else {
                find_at(base2, q)
            }),
    ensures
        forall|q: Seq<Seq<u8>>|
            kind_at(FsModel { root_device: fs0.root_device, entries: fin }, q) == copy_result_at(
                fs0,
                sm,
                dm,
                now,
                q,
            ),
{
    let dd = dst_device(fs0, dm);
    assert forall|q: Seq<Seq<u8>>|
        kind_at(FsModel { root_device: fs0.root_device, entries: fin }, q) == copy_result_at(
            fs0,
            sm,
            dm,
            now,
            q,
        ) by {
        if q.len() == 0 {
            if is_under(dm, q) {
                assert(dm.len() == 0);
                assert(sm + q.skip(dm.len() as int) =~= sm);
                assert(copy_item_ok(srckv, kind_at(fs0, dm)));
                assert(kind_at(fs0, dm) == Some(KindModel::Dir { device: fs0.root_device }));
                assert(srckv is Dir);
            }
        } else {
            let sq = sm + q.skip(dm.len() as int);
            if is_under(dm, q) && kind_at(fs0, sq) is Some {
                if kind_at(fs0, q) is Some {
                    assert(!new_target(fs0, sm, dm, n, q));
                    if q == dm {
                        assert(sq =~= sm);
                    }
                    assert(find_at(fin, q) == Some(
                        pass1_kind(fs0, sm, dm, now, q, kind_at(fs0, q).unwrap()),
                    ));
                } else {
                    if q == dm {
                        assert(sq =~= sm);
                        assert(!new_target(fs0, sm, dm, n, q));
                        assert(find_at(fin, q) == Some(copied_kind(srckv, None, now, dd)));
                    } else {
                        if q.len() == dm.len() {
                            assert(q =~= q.take(dm.len() as int));
                        }
                        assert(q.len() > dm.len());
                        lemma_find_at_witness(fs0.entries, sq);
                        let w = choose|w: int|
                            0 <= w < fs0.entries.len() && (#[trigger] fs0.entries[w]).path == sq
                                && find_at(fs0.entries, sq) == Some(fs0.entries[w].kind);
                        assert(new_target(fs0, sm, dm, n, q));
                    }
                }
            } else {
                assert(!new_target(fs0, sm, dm, n, q)) by {
                    if new_target(fs0, sm, dm, n, q) {
                        let w = choose|w: int| 0 <= w < n && (#[trigger] fs0.entries[w]).path == sq;
                        lemma_find_at_hit(fs0.entries, w);
                        assert(kind_at(fs0, sq) is Some) by {
                            assert(sq.len() >= 1);
                        }
                    }
                }
                if q == dm && kind_at(fs0, dm) is None {
                    assert(sq =~= sm);
                    assert(kind_at(fs0, sq) is Some);
                    assert(dm.take(dm.len() as int) =~= dm);
                    assert(is_under(dm, q));
                    assert(false);
                }
                assert(find_at(fin, q) == (match find_at(fs0.entries, q) {
                    Option::Some(oldk) => Some(pass1_kind(fs0, sm, dm, now, q, oldk)),
                    Option::None => None::<KindModel>,
                }));
            }
        }
    }
}

/// A store that holds a copy's result everywhere is well-formed.
#[verifier::rlimit(100)]
proof fn lemma_copy_wf(
    fs0: FsModel,
    sm: Seq<Seq<u8>>,
    dm: Seq<Seq<u8>>,
    now: u64,
    fin: Seq<EntryModel>,
)
    requires
        fs_wf(fs0),
        copy_ok(fs0, sm, dm),
        unique_paths(fin),
        forall|k: int| 0 <= k < fin.len() ==> (#[trigger] fin[k]).path.len() >= 1,
        forall|q: Seq<Seq<u8>>|
            kind_at(FsModel { root_device: fs0.root_device, entries: fin }, q) == copy_result_at(
                fs0,
                sm,
                dm,
                now,
                q,
            ),
    ensures
        wf_entries(fin),
{
    let ffs = FsModel { root_device: fs0.root_device, entries: fin };
    assert forall|k: int|
        0 <= k < fin.len() && (#[trigger] fin[k]).path.len() >= 2 implies is_dir_kind(
        find_at(fin, fin[k].path.drop_last()),
    ) by {
        lemma_find_at_hit(fin, k);
        let qk = fin[k].path;
        assert(kind_at(ffs, qk) == copy_result_at(fs0, sm, dm, now, qk));
        lemma_copy_parent_dir(fs0, sm, dm, now, qk);
        assert(kind_at(ffs, qk.drop_last()) == copy_result_at(fs0, sm, dm, now, qk.drop_last()));
        assert(qk.drop_last().len() >= 1);
    }
}

impl SimFs {
    /// What stands at `p`, as a copy of its kind.
    pub fn kind_of_path(&self, p: &Vec<Vec<u8>>) -> (r: Option<EntryKind>)
        requires
            unique_paths(self@.entries),
        ensures
            match r {
                Some(k) => kind_at(self@, bytes_list_model(p@)) == Some(k@),
                None => kind_at(self@, bytes_list_model(p@)) is None,
            },
    {
        broadcast use lemma_entries_model_len, lemma_entries_model_index, lemma_bytes_list_model_len;

        if p.len() == 0 {
            return Some(EntryKind::Dir { device: self.root_device });
        }
        match self.find_idx(p) {
            Option::Some(i) => Some(self.entries[i].kind.clone()),
            Option::None => None,
        }
    }

    /// Copy what lives at `src` onto `dst`, recursively, as the tree stood
    /// when the call began. On failure nothing has changed.
    #[verifier::rlimit(100)]
    pub fn copy_entry(&mut self, src: &Vec<Vec<u8>>, dst: &Vec<Vec<u8>>, now: u64) -> (r: Result<
        (),
        FsError,
    >)
        requires
            fs_wf(old(self)@),
        ensures
            fs_wf(final(self)@),
            final(self)@.root_device == old(self)@.root_device,
            match r {
                Ok(()) => copy_ok(old(self)@, bytes_list_model(src@), bytes_list_model(dst@))
                    && forall|q: Seq<Seq<u8>>|
                    kind_at(final(self)@, q) == copy_result_at(
                        old(self)@,
                        bytes_list_model(src@),
                        bytes_list_model(dst@),
                        now,
                        q,
                    ),
                Err(e) => final(self)@ == old(self)@ && !copy_ok(
                    old(self)@,
                    bytes_list_model(src@),
                    bytes_list_model(dst@),
                ) && ((kind_at(old(self)@, bytes_list_model(src@)) is None || kind_at(
                    old(self)@,
                    bytes_list_model(src@),
                ) == Some(KindModel::Other)) ==> e == FsError::InvalidInput),
            },
    {
        broadcast use lemma_entries_model_len, lemma_entries_model_index, lemma_bytes_list_model_len, lemma_bytes_list_model_index;

        let ghost sm: Seq<Seq<u8>> = bytes_list_model(src@);
        let ghost dm: Seq<Seq<u8>> = bytes_list_model(dst@);
        let ghost fs0: FsModel = self@;

        // the source object
        let srck: EntryKind = match self.kind_of_path(src) {
            Option::Some(k) => k,
            Option::None => {
                return Err(FsError::InvalidInput);
            },
        };
        if matches!(srck, EntryKind::Other) {
            return Err(FsError::InvalidInput);
        }
        proof {
            assert(kind_at(fs0, sm) == Some(srck@));
            assert(!(srck@ is Other));
        }
        // the destination spot
        let dstk: Option<EntryKind> = self.kind_of_path(dst);
        let ok_pair: bool = match (&srck, &dstk) {
            (EntryKind::Dir { .. }, Option::None) => true,
            (EntryKind::Dir { .. }, Option::Some(EntryKind::Dir { .. })) => true,
            (EntryKind::File { .. }, Option::None) => true,
            (EntryKind::File { .. }, Option::Some(EntryKind::File { .. })) => true,
            (EntryKind::Symlink { .. }, Option::None) => true,
            _ => false,
        };
        proof {
            assert(ok_pair == copy_item_ok(srck@, kind_at(fs0, dm)));
        }
        if !ok_pair {
            return Err(FsError::InvalidInput);
        }
        // the device for directories created at the destination
        let mut dev_new: u32 = 0;
        match &dstk {
            Option::Some(EntryKind::Dir { device }) => {
                dev_new = *device;
            },
            Option::Some(_) => {},
            Option::None => {
                let mut dparent = clone_names(dst);
                let ghost dpf: Seq<Vec<u8>> = dparent@;
                proof {
                    if dst@.len() == 0 {
                        assert(dm.len() == 0);
                        assert(kind_at(fs0, dm) is Some);
                    }
                    assert(dparent@.len() == dm.len());
                }
                let _ = dparent.pop();
                proof {
                    crate::paths::lemma_bytes_list_model_drop_last(dpf);
                    assert(bytes_list_model(dparent@) == dm.drop_last());
                }
                match self.kind_of_path(&dparent) {
                    Option::Some(EntryKind::Dir { device }) => {
                        dev_new = device;
                    },
                    _ => {
                        return Err(FsError::NotFound);
                    },
                }
            },
        }
        let ghost dd: u32 = dst_device(fs0, dm);
        proof {
            assert((srck@ is Dir) ==> dev_new == dd);
            assert((kind_at(fs0, dm) is None) ==> dev_new == dd);
        }
        // check every object of the source subtree against its destination
        let mut v: usize = 0;
        while v < self.entries.len()
            invariant
                self@ == fs0,
                fs_wf(fs0),
                v <= self.entries.len(),
                sm == bytes_list_model(src@),
                dm == bytes_list_model(dst@),
                src@.len() == sm.len(),
                forall|w: int|
                    0 <= w < v ==> {
                        let e = #[trigger] fs0.entries[w];
                        (is_under(sm, e.path) && e.path.len() > sm.len()) ==> copy_item_ok(
                            e.kind,
                            kind_at(fs0, dm + e.path.skip(sm.len() as int)),
                        )
                    },
            decreases self.entries.len() - v,
        {
            let below = self.entries[v].path.len() > src.len() && names_is_under(
                src,
                &self.entries[v].path,
            );
            if below {
                let t = target_of(dst, &self.entries[v].path, src.len());
                let ek = self.entries[v].kind.clone();
                let tk = self.kind_of_path(&t);
                let ok_e: bool = match (&ek, &tk) {
                    (EntryKind::Dir { .. }, Option::None) => true,
                    (EntryKind::Dir { .. }, Option::Some(EntryKind::Dir { .. })) => true,
                    (EntryKind::File { .. }, Option::None) => true,
                    (EntryKind::File { .. }, Option::Some(EntryKind::File { .. })) => true,
                    (EntryKind::Symlink { .. }, Option::None) => true,
                    _ => false,
                };
                proof {
                    assert(ek@ == fs0.entries[v as int].kind);
                    assert(ok_e == copy_item_ok(
                        fs0.entries[v as int].kind,
                        kind_at(fs0, dm + fs0.entries[v as int].path.skip(sm.len() as int)),
                    ));
                }
                if !ok_e {
                    proof {
                        lemma_find_at_hit(fs0.entries, v as int);
                        let qw = fs0.entries[v as int].path;
                        assert(qw.len() >= 1);
                        assert(kind_at(fs0, qw) == Some(fs0.entries[v as int].kind));
                        assert(is_under(sm, qw) && qw.len() > sm.len());
                        assert(!copy_item_ok(
                            kind_at(fs0, qw).unwrap(),
                            kind_at(fs0, dm + qw.skip(sm.len() as int)),
                        ));
                        assert(!copy_ok(fs0, sm, dm));
                    }
                    return Err(FsError::InvalidInput);
                }
            }
            v = v + 1;
        }
        proof {
            assert forall|q: Seq<Seq<u8>>|
                (is_under(sm, q) && q.len() > sm.len() && (#[trigger] kind_at(fs0, q))
                    is Some) implies copy_item_ok(
                kind_at(fs0, q).unwrap(),
                kind_at(fs0, dm + q.skip(sm.len() as int)),
            ) by {
                lemma_find_at_witness(fs0.entries, q);
            }
            assert(copy_ok(fs0, sm, dm));
        }
        // pass one: entries standing at a target spot take the copied object
        let mut out: Vec<FsEntry> = Vec::new();
        let mut j: usize = 0;
        proof {
            assert(entries_model(out@) =~= Seq::<EntryModel>::empty());
            assert(fs0.entries.take(0) =~= Seq::<EntryModel>::empty());
        }
        while j < self.entries.len()
            invariant
                self@ == fs0,
                fs_wf(fs0),
                copy_ok(fs0, sm, dm),
                kind_at(fs0, sm) == Some(srck@),
                !(srck@ is Other),
                dd == dst_device(fs0, dm),
                (srck@ is Dir) ==> dev_new == dd,
                (kind_at(fs0, dm) is None) ==> dev_new == dd,
                sm == bytes_list_model(src@),
                dm == bytes_list_model(dst@),
                src@.len() == sm.len(),
                dst@.len() == dm.len(),
                j <= self.entries.len(),
                entries_model(out@).len() == j,
                forall|k: int|
                    0 <= k < j ==> (#[trigger] entries_model(out@)[k]).path
                        == fs0.entries[k].path,
                forall|q: Seq<Seq<u8>>|
                    find_at(entries_model(out@), q) == (match find_at(
                        fs0.entries.take(j as int),
                        q,
                    ) {
                        Option::Some(oldk) => Some(pass1_kind(fs0, sm, dm, now, q, oldk)),
                        Option::None => None::<KindModel>,
                    }),
            decreases self.entries.len() - j,
        {
            let ghost em: EntryModel = fs0.entries[j as int];
            proof {
                assert(fs0.entries.take(j + 1).drop_last() =~= fs0.entries.take(j as int));
                assert(fs0.entries.take(j + 1).last() == em);
            }
            let ghost ob: Seq<FsEntry> = out@;
            let in_dst = names_is_under(dst, &self.entries[j].path);
            if in_dst {
                let spath = target_of(src, &self.entries[j].path, dst.len());
                proof {
                    assert(bytes_list_model(spath@) == sm + em.path.skip(dm.len() as int));
                }
                match self.kind_of_path(&spath) {
                    Option::Some(sk) => {
                        proof {
                            lemma_find_at_hit(fs0.entries, j as int);
                            assert(kind_at(fs0, em.path) == Some(em.kind)) by {
                                assert(em.path.len() >= 1);
                            }
                            if em.path == dm {
                                assert(sm + em.path.skip(dm.len() as int) =~= sm);
                                assert(copy_item_ok(sk@, Some(em.kind)));
                            } else {
                                if em.path.len() == dm.len() {
                                    assert(em.path =~= em.path.take(dm.len() as int));
                                }
                                assert(em.path.len() > dm.len());
                                let qq = sm + em.path.skip(dm.len() as int);
                                assert(qq.take(sm.len() as int) =~= sm);
                                assert(is_under(sm, qq));
                                assert(dm + qq.skip(sm.len() as int) =~= em.path);
                                assert(copy_item_ok(sk@, Some(em.kind)));
                            }
                            assert(!(sk@ is Other));
                        }
                        let nk = copied_kind_exec(&sk, Option::Some(&self.entries[j].kind), now,
                            dev_new);
                        proof {
                            assert(nk@ == copied_kind(sk@, Some(em.kind), now, dd)) by {
                                assert(copy_item_ok(sk@, Some(em.kind)));
                            }
                        }
                        let ne = FsEntry { path: clone_names(&self.entries[j].path), kind: nk };
                        let ghost neg: FsEntry = ne;
                        out.push(ne);
                        proof {
                            lemma_entries_model_push(ob, neg);
                            assert(entry_model(neg).path == em.path);
                            assert forall|q: Seq<Seq<u8>>|
                                find_at(entries_model(out@), q) == (match find_at(
                                    fs0.entries.take(j + 1),
                                    q,
                                ) {
                                    Option::Some(oldk) => Some(
                                        pass1_kind(fs0, sm, dm, now, q, oldk),
                                    ),
                                    Option::None => None::<KindModel>,
                                }) by {
                                lemma_find_at_push(entries_model(ob), entry_model(neg), q);
                            }
                        }
                    },
                    Option::None => {
                        let ne = self.entries[j].clone();
                        let ghost neg: FsEntry = ne;
                        out.push(ne);
                        proof {
                            lemma_entries_model_push(ob, neg);
                            assert(entry_model(neg) == em);
                            assert forall|q: Seq<Seq<u8>>|
                                find_at(entries_model(out@), q) == (match find_at(
                                    fs0.entries.take(j + 1),
                                    q,
                                ) {
                                    Option::Some(oldk) => Some(
                                        pass1_kind(fs0, sm, dm, now, q, oldk),
                                    ),
                                    Option::None => None::<KindModel>,
                                }) by {
                                lemma_find_at_push(entries_model(ob), em, q);
                            }
                        }
                    },
                }
            } else {
                let ne = self.entries[j].clone();
                let ghost neg: FsEntry = ne;
                out.push(ne);
                proof {
                    lemma_entries_model_push(ob, neg);
                    assert(entry_model(neg) == em);
                    assert forall|q: Seq<Seq<u8>>|
                        find_at(entries_model(out@), q) == (match find_at(
                            fs0.entries.take(j + 1),
                            q,
                        ) {
                            Option::Some(oldk) => Some(pass1_kind(fs0, sm, dm, now, q, oldk)),
                            Option::None => None::<KindModel>,
                        }) by {
                        lemma_find_at_push(entries_model(ob), em, q);
                    }
                }
            }
            j = j + 1;
        }
        proof {
            assert(fs0.entries.take(fs0.entries.len() as int) =~= fs0.entries);
        }
        let ghost base1: Seq<EntryModel> = entries_model(out@);
        proof {
            assert forall|a: int, b: int| 0 <= a < b < base1.len() implies (#[trigger] base1[a]).path
                != (#[trigger] base1[b]).path by {
                assert(base1[a].path == fs0.entries[a].path);
                assert(base1[b].path == fs0.entries[b].path);
            }
            assert forall|k: int| 0 <= k < base1.len() implies (#[trigger] base1[k]).path.len()
                >= 1 by {
                assert(base1[k].path == fs0.entries[k].path);
            }
        }
        // the destination spot itself, where it was empty
        if matches!(dstk, Option::None) {
            let nk = copied_kind_exec(&srck, Option::None, now, dev_new);
            proof {
                assert(nk@ == copied_kind(srck@, None, now, dd));
            }
            let ghost ob: Seq<FsEntry> = out@;
            let ne = FsEntry { path: clone_names(dst), kind: nk };
            let ghost neg: FsEntry = ne;
            out.push(ne);
            proof {
                lemma_entries_model_push(ob, neg);
                assert(entry_model(neg).path == dm);
                assert forall|q: Seq<Seq<u8>>|
                    find_at(entries_model(out@), q) == (if q == dm {
                        Some(copied_kind(srck@, None, now, dd))
                    } else {
                        find_at(base1, q)
                    }) by {
                    lemma_find_at_push(base1, entry_model(neg), q);
                }
                assert forall|a: int, b: int|
                    0 <= a < b < entries_model(out@).len() implies (#[trigger] entries_model(
                    out@,
                )[a]).path != (#[trigger] entries_model(out@)[b]).path by {
                    if b == entries_model(out@).len() - 1 {
                        assert(entries_model(out@)[a] == base1[a]);
                        assert(entries_model(out@)[b] == entry_model(neg));
                        assert(base1[a].path == fs0.entries[a].path);
                        if fs0.entries[a].path == dm {
                            lemma_find_at_hit(fs0.entries, a);
                        }
                    } else {
                        assert(entries_model(out@)[a] == base1[a]);
                        assert(entries_model(out@)[b] == base1[b]);
                    }
                }
                assert forall|k: int| 0 <= k < entries_model(out@).len() implies (
                #[trigger] entries_model(out@)[k]).path.len() >= 1 by {
                    if k < base1.len() {
                        assert(entries_model(out@)[k] == base1[k]);
                    } else {
                        assert(entries_model(out@)[k] == entry_model(neg));
                    }
                }
            }
        }
        let ghost base2: Seq<EntryModel> = entries_model(out@);
        proof {
            assert forall|q: Seq<Seq<u8>>|
                find_at(base2, q) == (if q == dm && kind_at(fs0, dm) is None {
                    Some(copied_kind(srck@, None, now, dd))
                } else {
                    find_at(base1, q)
                }) by {}
        }
        // pass two: source objects whose spot below the destination is empty
        // are created there
        let mut v2: usize = 0;
        while v2 < self.entries.len()
            invariant
                self@ == fs0,
                fs_wf(fs0),
                copy_ok(fs0, sm, dm),
                kind_at(fs0, sm) == Some(srck@),
                !(srck@ is Other),
                dd == dst_device(fs0, dm),
                (srck@ is Dir) ==> dev_new == dd,
                (kind_at(fs0, dm) is None) ==> dev_new == dd,
                sm == bytes_list_model(src@),
                dm == bytes_list_model(dst@),
                src@.len() == sm.len(),
                dst@.len() == dm.len(),
                v2 <= self.entries.len(),
                unique_paths(entries_model(out@)),
                forall|q: Seq<Seq<u8>>|
                    find_at(base1, q) == (match find_at(fs0.entries, q) {
                        Option::Some(oldk) => Some(pass1_kind(fs0, sm, dm, now, q, oldk)),
                        Option::None => None::<KindModel>,
                    }),
                forall|q: Seq<Seq<u8>>|
                    find_at(base2, q) == (if q == dm && kind_at(fs0, dm) is None {
                        Some(copied_kind(srck@, None, now, dd))
                    } else {
                        find_at(base1, q)
                    }),
                forall|k: int|
                    0 <= k < entries_model(out@).len() ==> (#[trigger] entries_model(
                        out@,
                    )[k]).path.len() >= 1,
                forall|q: Seq<Seq<u8>>|
                    find_at(entries_model(out@), q) == (if new_target(fs0, sm, dm, v2 as int, q) {
                        Some(
                            copied_kind(
                                kind_at(fs0, sm + q.skip(dm.len() as int)).unwrap(),
                                None,
                                now,
                                dd,
                            ),
                        )
                    } else {
                        find_at(base2, q)
                    }),
            decreases self.entries.len() - v2,
        {
            let ghost em: EntryModel = fs0.entries[v2 as int];
            let below = self.entries[v2].path.len() > src.len() && names_is_under(
                src,
                &self.entries[v2].path,
            );
            let mut created: bool = false;
            if below {
                let t = target_of(dst, &self.entries[v2].path, src.len());
                let ghost tmm: Seq<Seq<u8>> = dm + em.path.skip(sm.len() as int);
                proof {
                    assert(bytes_list_model(t@) == tmm);
                    assert(tmm.take(dm.len() as int) =~= dm);
                    assert(is_under(dm, tmm));
                    assert(tmm.len() > dm.len());
                    assert(sm + tmm.skip(dm.len() as int) =~= em.path) by {
                        assert(tmm.skip(dm.len() as int) =~= em.path.skip(sm.len() as int));
                    }
                }
                match self.find_idx(&t) {
                    Option::Some(_) => {},
                    Option::None => {
                        created = true;
                        let ek = self.entries[v2].kind.clone();
                        proof {
                            lemma_find_at_hit(fs0.entries, v2 as int);
                            assert(kind_at(fs0, em.path) == Some(em.kind)) by {
                                assert(em.path.len() >= 1);
                            }
                            assert(copy_item_ok(em.kind, kind_at(fs0, tmm)));
                            assert(!(em.kind is Other));
                            assert(ek@ == em.kind);
                            if em.kind is Dir {
                                assert(srck@ is Dir) by {
                                    if sm.len() == 0 {
                                    } else {
                                        lemma_find_at_witness(fs0.entries, sm);
                                    }
                                    assert(copy_item_ok(srck@, kind_at(fs0, dm)));
                                    if !(srck@ is Dir) {
                                        // a file or link holds nothing beneath it
                                        lemma_find_at_witness(fs0.entries, em.path);
                                        let w = choose|w: int|
                                            0 <= w < fs0.entries.len() && (
                                            #[trigger] fs0.entries[w]).path == em.path
                                                && find_at(fs0.entries, em.path) == Some(
                                                fs0.entries[w].kind,
                                            );
                                        lemma_under_needs_dirs(fs0, sm, em.path);
                                        assert(false);
                                    }
                                }
                            }
                        }
                        let nk = copied_kind_exec(&ek, Option::None, now, dev_new);
                        proof {
                            assert(nk@ == copied_kind(em.kind, None, now, dd));
                        }
                        let ghost ob: Seq<FsEntry> = out@;
                        let ne = FsEntry { path: t, kind: nk };
                        let ghost neg: FsEntry = ne;
                        proof {
                            // this spot is still absent from the store built so far
                            assert(!new_target(fs0, sm, dm, v2 as int, tmm)) by {
                                if new_target(fs0, sm, dm, v2 as int, tmm) {
                                    let w = choose|w: int|
                                        0 <= w < v2 && (#[trigger] fs0.entries[w]).path == sm
                                            + tmm.skip(dm.len() as int);
                                    assert(fs0.entries[w].path == em.path);
                                }
                            }
                            assert(find_at(base2, tmm) is None) by {
                                assert(tmm != dm);
                            }
                            assert(find_at(entries_model(ob), tmm) is None);
                            assert forall|k: int| 0 <= k < entries_model(ob).len() implies (
                            #[trigger] entries_model(ob)[k]).path != tmm by {
                                if entries_model(ob)[k].path == tmm {
                                    lemma_find_at_hit(entries_model(ob), k);
                                }
                            }
                        }
                        out.push(ne);
                        proof {
                            lemma_entries_model_push(ob, neg);
                            assert(entry_model(neg).path == tmm);
                            assert(entry_model(neg).kind == copied_kind(em.kind, None, now, dd));
                            assert forall|a: int, b: int|
                                0 <= a < b < entries_model(out@).len() implies (
                            #[trigger] entries_model(out@)[a]).path != (#[trigger] entries_model(
                                out@,
                            )[b]).path by {
                                if b == entries_model(out@).len() - 1 {
                                    assert(entries_model(out@)[a] == entries_model(ob)[a]);
                                    assert(entries_model(out@)[b] == entry_model(neg));
                                } else {
                                    assert(entries_model(out@)[a] == entries_model(ob)[a]);
                                    assert(entries_model(out@)[b] == entries_model(ob)[b]);
                                }
                            }
                            assert forall|k: int| 0 <= k < entries_model(out@).len() implies (
                            #[trigger] entries_model(out@)[k]).path.len() >= 1 by {
                                if k < entries_model(ob).len() {
                                    assert(entries_model(out@)[k] == entries_model(ob)[k]);
                                } else {
                                    assert(entries_model(out@)[k] == entry_model(neg));
                                }
                            }
                            assert forall|q: Seq<Seq<u8>>|
                                find_at(entries_model(out@), q) == (if new_target(
                                    fs0,
                                    sm,
                                    dm,
                                    v2 + 1 as int,
                                    q,
                                ) {
                                    Some(
                                        copied_kind(
                                            kind_at(fs0, sm + q.skip(dm.len() as int)).unwrap(),
                                            None,
                                            now,
                                            dd,
                                        ),
                                    )
                                } else {
                                    find_at(base2, q)
                                }) by {
                                lemma_find_at_push(entries_model(ob), entry_model(neg), q);
                                if q == tmm {
                                    assert(new_target(fs0, sm, dm, v2 + 1 as int, q)) by {
                                        assert(fs0.entries[v2 as int].path == sm + q.skip(
                                            dm.len() as int,
                                        ));
                                    }
                                } else {
                                    assert(new_target(fs0, sm, dm, v2 + 1 as int, q)
                                        == new_target(fs0, sm, dm, v2 as int, q)) by {
                                        if new_target(fs0, sm, dm, v2 + 1 as int, q) {
                                            let w = choose|w: int|
                                                0 <= w < v2 + 1 && (
                                                #[trigger] fs0.entries[w]).path == sm + q.skip(
                                                    dm.len() as int,
                                                );
                                            if w == v2 {
                                                assert(q =~= dm + q.skip(dm.len() as int));
                                                assert(q =~= tmm) by {
                                                    assert(em.path.skip(sm.len() as int)
                                                        =~= q.skip(dm.len() as int));
                                                }
                                            } else {
                                                assert(new_target(fs0, sm, dm, v2 as int, q));
                                            }
                                        }
                                    }
                                }
                            }
                        }
                    },
                }
            }
            proof {
                if !created {
                    assert forall|q: Seq<Seq<u8>>|
                        new_target(fs0, sm, dm, v2 + 1 as int, q) == new_target(
                            fs0,
                            sm,
                            dm,
                            v2 as int,
                            q,
                        ) by {
                        if new_target(fs0, sm, dm, v2 + 1 as int, q) && !new_target(
                            fs0,
                            sm,
                            dm,
                            v2 as int,
                            q,
                        ) {
                            let w = choose|w: int|
                                0 <= w < v2 + 1 && (#[trigger] fs0.entries[w]).path == sm + q.skip(
                                    dm.len() as int,
                                );
                            assert(w == v2);
                            assert(q =~= dm + q.skip(dm.len() as int));
                            if below {
                                // the spot already existed, so it is no new target
                                assert(em.path =~= sm + q.skip(dm.len() as int));
                                assert(dm + em.path.skip(sm.len() as int) =~= q) by {
                                    assert(em.path.skip(sm.len() as int) =~= q.skip(
                                        dm.len() as int,
                                    ));
                                }
                                assert(kind_at(fs0, q) is None);
                                assert(false);
                            } else {
                                assert(is_under(sm, em.path) && em.path.len() > sm.len()) by {
                                    assert(em.path =~= sm + q.skip(dm.len() as int));
                                    assert(em.path.take(sm.len() as int) =~= sm);
                                }
                                assert(false);
                            }
                        }
                    }
                }
            }
            v2 = v2 + 1;
        }
        let ghost fin: Seq<EntryModel> = entries_model(out@);
        self.entries = out;
        proof {
            lemma_copy_finish(fs0, sm, dm, now, srck@, base1, base2, fin, v2 as int);
            assert(self@ == FsModel { root_device: fs0.root_device, entries: fin });
            lemma_copy_wf(fs0, sm, dm, now, fin);
        }
        Ok(())
    }

    /// The storage device governing the spot `p`.
    pub fn device_of(&self, p: &Vec<Vec<u8>>) -> (r: u32)
        requires
            unique_paths(self@.entries),
        ensures
            r == dst_device(self@, bytes_list_model(p@)),
    {
        broadcast use lemma_bytes_list_model_len;

        match self.kind_of_path(p) {
            Option::Some(EntryKind::Dir { device }) => device,
            _ => {
                if p.len() == 0 {
                    proof {
                        assert(kind_at(self@, bytes_list_model(p@)) matches Some(
                            KindModel::Dir { .. },
                        ));
                    }
                    self.root_device
                } else {
                    let mut parent = clone_names(p);
                    let ghost pf: Seq<Vec<u8>> = parent@;
                    let _ = parent.pop();
                    proof {
                        crate::paths::lemma_bytes_list_model_drop_last(pf);
                    }
                    match self.kind_of_path(&parent) {
                        Option::Some(EntryKind::Dir { device }) => device,
                        _ => self.root_device,
                    }
                }
            },
        }
    }

    /// Rename `src` onto `dst` in one step, on one device: the subtree moves
    /// unchanged.
    #[verifier::rlimit(100)]
    fn rename_entry(&mut self, src: &Vec<Vec<u8>>, dst: &Vec<Vec<u8>>) -> (r: Result<(), FsError>)
        requires
            fs_wf(old(self)@),
        ensures
            fs_wf(final(self)@),
            final(self)@.root_device == old(self)@.root_device,
            match r {
                Ok(()) => rename_ok(old(self)@, bytes_list_model(src@), bytes_list_model(dst@))
                    && forall|q: Seq<Seq<u8>>|
                    kind_at(final(self)@, q) == rename_result_at(
                        old(self)@,
                        bytes_list_model(src@),
                        bytes_list_model(dst@),
                        q,
                    ),
                Err(e) => final(self)@ == old(self)@ && !rename_ok(
                    old(self)@,
                    bytes_list_model(src@),
                    bytes_list_model(dst@),
                ) && (kind_at(old(self)@, bytes_list_model(src@)) is None ==> e
                    == FsError::NotFound),
            },
    {
        broadcast use lemma_entries_model_len, lemma_entries_model_index, lemma_bytes_list_model_len, lemma_bytes_list_model_index;

        let ghost sm: Seq<Seq<u8>> = bytes_list_model(src@);
        let ghost dm: Seq<Seq<u8>> = bytes_list_model(dst@);
        let ghost fs0: FsModel = self@;
        let srck: EntryKind = match self.kind_of_path(src) {
            Option::Some(k) => k,
            Option::None => {
                return Err(FsError::NotFound);
            },
        };
        if names_eq(src, dst) {
            proof {
                assert(rename_ok(fs0, sm, dm));
            }
            return Ok(());
        }
        if names_is_under(src, dst) {
            return Err(FsError::InvalidInput);
        }
        let dstk = self.kind_of_path(dst);
        match (&srck, &dstk) {
            (_, Option::None) => {
                proof {
                    if dm.len() == 0 {
                        assert(kind_at(fs0, dm) is Some);
                    }
                }
                let mut dparent = clone_names(dst);
                let ghost dpf: Seq<Vec<u8>> = dparent@;
                let _ = dparent.pop();
                proof {
                    crate::paths::lemma_bytes_list_model_drop_last(dpf);
                }
                match self.kind_of_path(&dparent) {
                    Option::Some(EntryKind::Dir { .. }) => {},
                    _ => {
                        return Err(FsError::NotFound);
                    },
                }
            },
            (EntryKind::Dir { .. }, Option::Some(_)) => {
                return Err(FsError::AlreadyExists);
            },
            (_, Option::Some(EntryKind::Dir { .. })) => {
                return Err(FsError::IsADirectory);
            },
            (_, Option::Some(_)) => {},
        }
        proof {
            assert(rename_ok(fs0, sm, dm));
            if sm.len() == 0 {
                assert(dm.take(sm.len() as int) =~= sm);
                assert(is_under(sm, dm));
                assert(false);
            }
            if dm.len() == 0 {
                assert(kind_at(fs0, dm) is Some);
                assert(is_dir_kind(kind_at(fs0, dm)));
                assert(false);
            }
        }
        // rebuild the store: drop what stood at the destination, move the
        // source subtree, keep the rest
        let mut out: Vec<FsEntry> = Vec::new();
        let mut j: usize = 0;
        proof {
            assert(entries_model(out@) =~= Seq::<EntryModel>::empty());
            assert(fs0.entries.take(0) =~= Seq::<EntryModel>::empty());
        }
        while j < self.entries.len()
            invariant
                self@ == fs0,
                fs_wf(fs0),
                rename_ok(fs0, sm, dm),
                sm != dm,
                sm.len() >= 1,
                dm.len() >= 1,
                !is_under(sm, dm),
                sm == bytes_list_model(src@),
                dm == bytes_list_model(dst@),
                src@.len() == sm.len(),
                dst@.len() == dm.len(),
                j <= self.entries.len(),
                unique_paths(entries_model(out@)),
                forall|k: int|
                    0 <= k < entries_model(out@).len() ==> (#[trigger] entries_model(
                        out@,
                    )[k]).path.len() >= 1,
                forall|q: Seq<Seq<u8>>|
                    find_at(entries_model(out@), q) == rename_mid_at(fs0, sm, dm, j as int, q),
            decreases self.entries.len() - j,
        {
            let ghost em: EntryModel = fs0.entries[j as int];
            proof {
                assert(fs0.entries.take(j + 1).drop_last() =~= fs0.entries.take(j as int));
                assert(fs0.entries.take(j + 1).last() == em);
                assert forall|x: Seq<Seq<u8>>|
                    find_at(fs0.entries.take(j + 1), x) == (if x == em.path {
                        Some(em.kind)
                    } else {
                        find_at(fs0.entries.take(j as int), x)
                    }) by {}
                assert(sm + dm.skip(dm.len() as int) =~= sm);
                assert(dm.take(dm.len() as int) =~= dm);
                assert(sm.take(sm.len() as int) =~= sm);
            }
            let ghost ob: Seq<FsEntry> = out@;
            let under_src = names_is_under(src, &self.entries[j].path);
            let at_dst = names_eq(&self.entries[j].path, dst);
            if under_src {
                let t = target_of(dst, &self.entries[j].path, src.len());
                let ghost tmm: Seq<Seq<u8>> = dm + em.path.skip(sm.len() as int);
                proof {
                    assert(bytes_list_model(t@) == tmm);
                    assert(tmm.take(dm.len() as int) =~= dm);
                    assert(is_under(dm, tmm));
                    assert(sm + tmm.skip(dm.len() as int) =~= em.path) by {
                        assert(tmm.skip(dm.len() as int) =~= em.path.skip(sm.len() as int));
                    }
                    assert(tmm.len() >= 1);
                    assert(!is_under(dm, sm)) by {
                        if is_under(dm, sm) && dm.len() < sm.len() {
                            lemma_under_needs_dirs(fs0, dm, sm);
                        }
                        if is_under(dm, sm) && dm.len() == sm.len() {
                            assert(sm =~= sm.take(dm.len() as int));
                        }
                    }
                    assert(!is_under(sm, tmm)) by {
                        lemma_prefix_free(sm, dm, tmm);
                    }
                    // the moved spot is not already present
                    assert(find_at(entries_model(ob), tmm) is None) by {
                        if tmm == dm {
                            assert(em.path =~= sm);
                        }
                        if is_under(dm, tmm) && find_at(
                            fs0.entries.take(j as int),
                            sm + tmm.skip(dm.len() as int),
                        ) is Some {
                            lemma_find_at_witness(
                                fs0.entries.take(j as int),
                                sm + tmm.skip(dm.len() as int),
                            );
                            let w = choose|w: int|
                                0 <= w < j && (#[trigger] fs0.entries.take(j as int)[w]).path == sm
                                    + tmm.skip(dm.len() as int);
                            assert(fs0.entries[w] == fs0.entries.take(j as int)[w]);
                            assert(fs0.entries[w].path == em.path);
                        }
                        if tmm != dm && find_at(fs0.entries.take(j as int), tmm) is Some {
                            lemma_find_at_witness(fs0.entries.take(j as int), tmm);
                            let w2 = choose|w2: int|
                                0 <= w2 < j && (#[trigger] fs0.entries.take(j as int)[w2]).path
                                    == tmm && find_at(fs0.entries.take(j as int), tmm) == Some(
                                    fs0.entries.take(j as int)[w2].kind,
                                );
                            assert(fs0.entries[w2] == fs0.entries.take(j as int)[w2]);
                            lemma_find_at_hit(fs0.entries, w2);
                            assert(kind_at(fs0, tmm) is Some) by {
                                assert(tmm.len() >= 1);
                            }
                            if tmm.len() == dm.len() {
                                assert(tmm =~= tmm.take(dm.len() as int));
                            }
                            lemma_under_needs_dirs(fs0, dm, tmm);
                            assert(false);
                        }
                    }
                    assert forall|k: int| 0 <= k < entries_model(ob).len() implies (
                    #[trigger] entries_model(ob)[k]).path != tmm by {
                        if entries_model(ob)[k].path == tmm {
                            lemma_find_at_hit(entries_model(ob), k);
                        }
                    }
                }
                let ne = FsEntry { path: t, kind: self.entries[j].kind.clone() };
                let ghost neg: FsEntry = ne;
                out.push(ne);
                proof {
                    lemma_entries_model_push(ob, neg);
                    assert(entry_model(neg).path == tmm);
                    assert(entry_model(neg).kind == em.kind);
                    assert forall|a: int, b: int|
                        0 <= a < b < entries_model(out@).len() implies (#[trigger] entries_model(
                        out@,
                    )[a]).path != (#[trigger] entries_model(out@)[b]).path by {
                        if b == entries_model(out@).len() - 1 {
                            assert(entries_model(out@)[a] == entries_model(ob)[a]);
                            assert(entries_model(out@)[b] == entry_model(neg));
                        } else {
                            assert(entries_model(out@)[a] == entries_model(ob)[a]);
                            assert(entries_model(out@)[b] == entries_model(ob)[b]);
                        }
                    }
                    assert forall|k: int| 0 <= k < entries_model(out@).len() implies (
                    #[trigger] entries_model(out@)[k]).path.len() >= 1 by {
                        if k < entries_model(ob).len() {
                            assert(entries_model(out@)[k] == entries_model(ob)[k]);
                        } else {
                            assert(entries_model(out@)[k] == entry_model(neg));
                        }
                    }
                    assert forall|q: Seq<Seq<u8>>|
                        find_at(entries_model(out@), q) == rename_mid_at(
                            fs0,
                            sm,
                            dm,
                            j + 1 as int,
                            q,
                        ) by {
                        lemma_find_at_push(entries_model(ob), entry_model(neg), q);
                        if q == tmm {
                            assert(!is_under(sm, q));
                            assert(is_under(dm, q));
                            assert(find_at(fs0.entries.take(j + 1), sm + q.skip(dm.len() as int))
                                == Some(em.kind)) by {
                                assert(sm + q.skip(dm.len() as int) =~= em.path);
                            }
                        } else {
                            if is_under(dm, q) {
                                assert(sm + q.skip(dm.len() as int) != em.path) by {
                                    if sm + q.skip(dm.len() as int) == em.path {
                                        assert(q =~= dm + q.skip(dm.len() as int));
                                        assert(q =~= tmm) by {
                                            assert(em.path.skip(sm.len() as int) =~= q.skip(
                                                dm.len() as int,
                                            ));
                                        }
                                    }
                                }
                            }
                            assert(q != em.path ==> find_at(fs0.entries.take(j + 1), q) == find_at(
                                fs0.entries.take(j as int),
                                q,
                            ));
                            if q == em.path {
                                assert(is_under(sm, q)) by {
                                    assert(q.take(sm.len() as int) =~= sm);
                                }
                            }
                        }
                    }
                }
            } else if at_dst {
                proof {
                    assert(em.path == dm);
                    assert forall|q: Seq<Seq<u8>>|
                        find_at(entries_model(out@), q) == rename_mid_at(
                            fs0,
                            sm,
                            dm,
                            j + 1 as int,
                            q,
                        ) by {
                        if is_under(dm, q) {
                            assert(sm + q.skip(dm.len() as int) != em.path) by {
                                if sm + q.skip(dm.len() as int) == dm {
                                    assert(is_under(sm, dm)) by {
                                        assert(dm.take(sm.len() as int) =~= sm);
                                    }
                                }
                            }
                        }
                        assert(q != em.path ==> find_at(fs0.entries.take(j + 1), q) == find_at(
                            fs0.entries.take(j as int),
                            q,
                        ));
                    }
                }
            } else {
                let ne = self.entries[j].clone();
                let ghost neg: FsEntry = ne;
                proof {
                    assert(entry_model(neg) == em);
                    assert(em.path != dm);
                    assert(!(is_under(dm, em.path) && find_at(
                        fs0.entries.take(j as int),
                        sm + em.path.skip(dm.len() as int),
                    ) is Some)) by {
                        if is_under(dm, em.path) && find_at(
                            fs0.entries.take(j as int),
                            sm + em.path.skip(dm.len() as int),
                        ) is Some {
                            // nothing lived below the destination before
                            if em.path.len() == dm.len() {
                                assert(em.path =~= em.path.take(dm.len() as int));
                            }
                            assert(em.path.len() > dm.len());
                            lemma_find_at_hit(fs0.entries, j as int);
                            assert(kind_at(fs0, em.path) is Some) by {
                                assert(em.path.len() >= 1);
                            }
                            lemma_under_needs_dirs(fs0, dm, em.path);
                            assert(false);
                        }
                    }
                    assert(find_at(entries_model(ob), em.path) is None) by {
                        assert forall|w: int| 0 <= w < j implies (#[trigger] fs0.entries.take(
                            j as int,
                        )[w]).path != em.path by {
                            assert(fs0.entries.take(j as int)[w] == fs0.entries[w]);
                        }
                        lemma_find_at_none(fs0.entries.take(j as int), em.path);
                    }
                    assert forall|k: int| 0 <= k < entries_model(ob).len() implies (
                    #[trigger] entries_model(ob)[k]).path != em.path by {
                        if entries_model(ob)[k].path == em.path {
                            lemma_find_at_hit(entries_model(ob), k);
                        }
                    }
                }
                out.push(ne);
                proof {
                    lemma_entries_model_push(ob, neg);
                    assert forall|a: int, b: int|
                        0 <= a < b < entries_model(out@).len() implies (#[trigger] entries_model(
                        out@,
                    )[a]).path != (#[trigger] entries_model(out@)[b]).path by {
                        if b == entries_model(out@).len() - 1 {
                            assert(entries_model(out@)[a] == entries_model(ob)[a]);
                            assert(entries_model(out@)[b] == entry_model(neg));
                        } else {
                            assert(entries_model(out@)[a] == entries_model(ob)[a]);
                            assert(entries_model(out@)[b] == entries_model(ob)[b]);
                        }
                    }
                    assert forall|k: int| 0 <= k < entries_model(out@).len() implies (
                    #[trigger] entries_model(out@)[k]).path.len() >= 1 by {
                        if k < entries_model(ob).len() {
                            assert(entries_model(out@)[k] == entries_model(ob)[k]);
                        } else {
                            assert(entries_model(out@)[k] == entry_model(neg));
                        }
                    }
                    assert forall|q: Seq<Seq<u8>>|
                        find_at(entries_model(out@), q) == rename_mid_at(
                            fs0,
                            sm,
                            dm,
                            j + 1 as int,
                            q,
                        ) by {
                        lemma_find_at_push(entries_model(ob), entry_model(neg), q);
                        if is_under(dm, q) {
                            assert(sm + q.skip(dm.len() as int) != em.path) by {
                                if sm + q.skip(dm.len() as int) == em.path {
                                    assert(is_under(sm, em.path)) by {
                                        assert(em.path.take(sm.len() as int) =~= sm);
                                    }
                                }
                            }
                        }
                        assert(q != em.path ==> find_at(fs0.entries.take(j + 1), q) == find_at(
                            fs0.entries.take(j as int),
                            q,
                        ));
                    }
                }
            }
            j = j + 1;
        }
        proof {
            assert(fs0.entries.take(fs0.entries.len() as int) =~= fs0.entries);
        }
        let ghost fin: Seq<EntryModel> = entries_model(out@);
        self.entries = out;
        proof {
            assert forall|q: Seq<Seq<u8>>|
                kind_at(self@, q) == rename_result_at(fs0, sm, dm, q) by {
                if q.len() == 0 {
                    assert(!is_under(sm, q));
                    assert(!is_under(dm, q));
                    assert(q != dm);
                } else {
                    assert(kind_at(fs0, q) == find_at(fs0.entries, q));
                    if is_under(dm, q) && q != dm {
                        assert((sm + q.skip(dm.len() as int)).len() >= 1);
                    }
                    if q == dm && !(is_under(dm, q) && kind_at(fs0, sm + q.skip(dm.len() as int))
                        is Some)  {
                        assert(dm.take(dm.len() as int) =~= dm);
                        assert(sm + q.skip(dm.len() as int) =~= sm);
                        assert(kind_at(fs0, sm) is Some);
                        assert(false);
                    }
                }
            }
            assert forall|k: int|
                0 <= k < fin.len() && (#[trigger] fin[k]).path.len() >= 2 implies is_dir_kind(
                find_at(fin, fin[k].path.drop_last()),
            ) by {
                lemma_find_at_hit(fin, k);
                let qk = fin[k].path;
                assert(kind_at(self@, qk) == rename_result_at(fs0, sm, dm, qk));
                lemma_rename_parent_dir(fs0, sm, dm, qk);
                assert(kind_at(self@, qk.drop_last()) == rename_result_at(
                    fs0,
                    sm,
                    dm,
                    qk.drop_last(),
                ));
                assert(qk.drop_last().len() >= 1);
            }
        }
        Ok(())
    }

    /// Move what lives at `src` to `dst`: an atomic rename on one device, a
    /// recursive copy followed by removal of the source across devices.
    pub fn move_entry(&mut self, src: &Vec<Vec<u8>>, dst: &Vec<Vec<u8>>, now: u64) -> (r: Result<
        (),
        FsError,
    >)
        requires
            fs_wf(old(self)@),
        ensures
            fs_wf(final(self)@),
            final(self)@.root_device == old(self)@.root_device,
            match r {
                Ok(()) => move_ok(old(self)@, bytes_list_model(src@), bytes_list_model(dst@))
                    && forall|q: Seq<Seq<u8>>|
                    kind_at(final(self)@, q) == move_result_at(
                        old(self)@,
                        bytes_list_model(src@),
                        bytes_list_model(dst@),
                        now,
                        q,
                    ),
                Err(e) => final(self)@ == old(self)@ && !move_ok(
                    old(self)@,
                    bytes_list_model(src@),
                    bytes_list_model(dst@),
                ),
            },
    {
        broadcast use lemma_bytes_list_model_len;

        let ghost sm: Seq<Seq<u8>> = bytes_list_model(src@);
        let ghost dm: Seq<Seq<u8>> = bytes_list_model(dst@);
        let ghost fs0: FsModel = self@;
        let sdev = self.device_of(src);
        let ddev = self.device_of(dst);
        if sdev == ddev {
            return self.rename_entry(src, dst);
        }
        match self.copy_entry(src, dst, now) {
            Err(e) => Err(e),
            Ok(()) => {
                let ghost mid: FsModel = self@;
                proof {
                    assert(kind_at(mid, sm) == copy_result_at(fs0, sm, dm, now, sm));
                    assert(kind_at(fs0, sm) is Some);
                    assert(kind_at(mid, sm) is Some);
                }
                match self.remove_entry(src) {
                    Err(_) => {
                        proof {
                            assert(false);
                        }
                        Err(FsError::NotFound)
                    },
                    Ok(()) => {
                        proof {
                            assert forall|q: Seq<Seq<u8>>|
                                kind_at(self@, q) == move_result_at(fs0, sm, dm, now, q) by {
                                assert(kind_at(mid, q) == copy_result_at(fs0, sm, dm, now, q));
                            }
                        }
                        Ok(())
                    },
                }
            },
        }
    }
}

} // verus!
