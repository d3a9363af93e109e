//! The filesystem agent: one confined action per invocation.
//!
//! An action carries a verb and its path operands. Before anything touches
//! the store, every operand is re-rooted beneath the configured base
//! directory ([`Action::set_base`]), and the dispatcher demands a privilege
//! handle that stands for the already-lowered process identity — so no
//! filesystem work can be expressed before confinement and the privilege
//! drop.

use vstd::prelude::*;
use crate::paths::{FsPath, CompModel, confine, confine_spec, confined_shape, names_of,
    lemma_parts_model_len};
use crate::fs::{SimFs, FsModel, FsError, KindModel, kind_at, is_dir_kind, fs_wf, write_ok,
    write_err, written_kind, mkdir_ok, mkdir_err, mkdir_partial, is_under, read_err};
use crate::fs::EntryModel;
use crate::walk::{DirEntry, DirEntryModel, listing_model, walk_spec, walk_upto, depth_of,
    list_err, list, rebase_entry};
use crate::copy::{copy_ok, copy_result_at, move_ok, move_result_at};
use crate::stream::pipe;

verus! {

/// One verb with its operands, as the invocation supplies it.
#[derive(Debug, PartialEq, Eq)]
pub enum Action {
    FileRead { path: FsPath },
    FileWrite { path: FsPath, create: Option<bool> },
    Mkdir { path: FsPath },
    Lsdir { path: FsPath, max_depth: Option<u32> },
    Remove { path: FsPath },
    Move { path: FsPath, to: FsPath },
    Copy { path: FsPath, to: FsPath },
    Meta { path: FsPath },
    WriteMeta { path: FsPath },
}

/// Mathematical model of an action.
pub ghost enum ActionModel {
    FileRead { path: Seq<CompModel> },
    FileWrite { path: Seq<CompModel>, create: Option<bool> },
    Mkdir { path: Seq<CompModel> },
    Lsdir { path: Seq<CompModel>, max_depth: Option<u32> },
    Remove { path: Seq<CompModel> },
    Move { path: Seq<CompModel>, to: Seq<CompModel> },
    Copy { path: Seq<CompModel>, to: Seq<CompModel> },
    Meta { path: Seq<CompModel> },
    WriteMeta { path: Seq<CompModel> },
}

impl View for Action {
    type V = ActionModel;

    open spec fn view(&self) -> ActionModel {
        match self {
            Action::FileRead { path } => ActionModel::FileRead { path: path@ },
            Action::FileWrite { path, create } => ActionModel::FileWrite {
                path: path@,
                create: *create,
            },
            Action::Mkdir { path } => ActionModel::Mkdir { path: path@ },
            Action::Lsdir { path, max_depth } => ActionModel::Lsdir {
                path: path@,
                max_depth: *max_depth,
            },
            Action::Remove { path } => ActionModel::Remove { path: path@ },
            Action::Move { path, to } => ActionModel::Move { path: path@, to: to@ },
            Action::Copy { path, to } => ActionModel::Copy { path: path@, to: to@ },
            Action::Meta { path } => ActionModel::Meta { path: path@ },
            Action::WriteMeta { path } => ActionModel::WriteMeta { path: path@ },
        }
    }
}

/// The action with every path operand confined beneath `b`.
pub open spec fn set_base_spec(a: ActionModel, b: Seq<CompModel>) -> ActionModel {
    match a {
        ActionModel::FileRead { path } => ActionModel::FileRead { path: confine_spec(path, b) },
        ActionModel::FileWrite { path, create } => ActionModel::FileWrite {
            path: confine_spec(path, b),
            create,
        },
        ActionModel::Mkdir { path } => ActionModel::Mkdir { path: confine_spec(path, b) },
        ActionModel::Lsdir { path, max_depth } => ActionModel::Lsdir {
            path: confine_spec(path, b),
            max_depth,
        },
        ActionModel::Remove { path } => ActionModel::Remove { path: confine_spec(path, b) },
        ActionModel::Move { path, to } => ActionModel::Move {
            path: confine_spec(path, b),
            to: confine_spec(to, b),
        },
        ActionModel::Copy { path, to } => ActionModel::Copy {
            path: confine_spec(path, b),
            to: confine_spec(to, b),
        },
        ActionModel::Meta { path } => ActionModel::Meta { path: confine_spec(path, b) },
        ActionModel::WriteMeta { path } => ActionModel::WriteMeta { path: confine_spec(path, b) },
    }
}

impl Action {
    /// Re-root every path operand beneath `base`: flatten, strip root
    /// markers, join onto the base, and flatten again. This runs before any
    /// other component touches the operands.
    pub fn set_base(self, base: &FsPath) -> (r: Action)
        ensures
            r@ == set_base_spec(self@, base@),
    {
        match self {
            Action::FileRead { path } => Action::FileRead { path: confine(path, base) },
            Action::FileWrite { path, create } => Action::FileWrite {
                path: confine(path, base),
                create,
            },
            Action::Mkdir { path } => Action::Mkdir { path: confine(path, base) },
            Action::Lsdir { path, max_depth } => Action::Lsdir {
                path: confine(path, base),
                max_depth,
            },
            Action::Remove { path } => Action::Remove { path: confine(path, base) },
            Action::Move { path, to } => Action::Move {
                path: confine(path, base),
                to: confine(to, base),
            },
            Action::Copy { path, to } => Action::Copy {
                path: confine(path, base),
                to: confine(to, base),
            },
            Action::Meta { path } => Action::Meta { path: confine(path, base) },
            Action::WriteMeta { path } => Action::WriteMeta { path: confine(path, base) },
        }
    }
}

/// Witness that the process has irreversibly lowered its effective identity.
///
/// Construct one only after the operating-system identity switch succeeded;
/// the dispatcher performs no filesystem work without it, so request parsing
/// and path confinement necessarily precede the drop.
pub struct Privilege {
    uid: u32,
}

impl Privilege {
    /// The identity this handle stands for.
    pub closed spec fn uid_spec(&self) -> u32 {
        self.uid
    }

    /// Record that the process now runs as `uid`.
    pub fn drop_to(uid: u32) -> (p: Privilege)
        ensures
            p.uid_spec() == uid,
    {
        Privilege { uid }
    }

    /// The recorded identity.
    pub fn uid(&self) -> (r: u32)
        ensures
            r == self.uid_spec(),
    {
        self.uid
    }
}

/// What a completed action hands back: streamed bytes, listing records, or
/// nothing.
#[derive(Debug, PartialEq, Eq)]
pub enum Outcome {
    Bytes(Vec<u8>),
    Listing(Vec<DirEntry>),
    Done,
}

/// Mathematical model of an outcome.
pub ghost enum OutcomeModel {
    Bytes(Seq<u8>),
    Listing(Seq<DirEntryModel>),
    Done,
}

impl View for Outcome {
    type V = OutcomeModel;

    open spec fn view(&self) -> OutcomeModel {
        match self {
            Outcome::Bytes(b) => OutcomeModel::Bytes(b@),
            Outcome::Listing(l) => OutcomeModel::Listing(listing_model(l@)),
            Outcome::Done => OutcomeModel::Done,
        }
    }
}

/// Whether every path operand is in confined form: named segments below an
/// optional leading root marker.
pub open spec fn action_confined(a: ActionModel) -> bool {
    match a {
        ActionModel::FileRead { path } => confined_shape(path),
        ActionModel::FileWrite { path, .. } => confined_shape(path),
        ActionModel::Mkdir { path } => confined_shape(path),
        ActionModel::Lsdir { path, .. } => confined_shape(path),
        ActionModel::Remove { path } => confined_shape(path),
        ActionModel::Move { path, to } => confined_shape(path) && confined_shape(to),
        ActionModel::Copy { path, to } => confined_shape(path) && confined_shape(to),
        ActionModel::Meta { path } => confined_shape(path),
        ActionModel::WriteMeta { path } => confined_shape(path),
    }
}

/// Re-rooting the operands under a flattened base in confined form puts the
/// whole action in confined form: whatever the caller supplied, the
/// dispatcher's demand is met.
pub proof fn lemma_set_base_confined(a: ActionModel, b: Seq<CompModel>)
    requires
        crate::paths::flatten_seq(b) == b,
        confined_shape(b),
    ensures
        action_confined(set_base_spec(a, b)),
{
    match a {
        ActionModel::FileRead { path } => crate::paths::lemma_confine_shape(path, b),
        ActionModel::FileWrite { path, .. } => crate::paths::lemma_confine_shape(path, b),
        ActionModel::Mkdir { path } => crate::paths::lemma_confine_shape(path, b),
        ActionModel::Lsdir { path, .. } => crate::paths::lemma_confine_shape(path, b),
        ActionModel::Remove { path } => crate::paths::lemma_confine_shape(path, b),
        ActionModel::Move { path, to } => {
            crate::paths::lemma_confine_shape(path, b);
            crate::paths::lemma_confine_shape(to, b);
        },
        ActionModel::Copy { path, to } => {
            crate::paths::lemma_confine_shape(path, b);
            crate::paths::lemma_confine_shape(to, b);
        },
        ActionModel::Meta { path } => crate::paths::lemma_confine_shape(path, b),
        ActionModel::WriteMeta { path } => crate::paths::lemma_confine_shape(path, b),
    }
}

/// The whole listing rewritten relative to `b`; nothing if any record does
/// not lie below `b`.
pub open spec fn rebase_listing(es: Seq<DirEntryModel>, b: Seq<CompModel>) -> Option<
    Seq<DirEntryModel>,
>
    decreases es.len(),
{
    if es.len() == 0 {
        Some(Seq::empty())
    } else {
        match (rebase_listing(es.drop_last(), b), rebase_entry(es.last(), b)) {
            (Option::Some(l), Option::Some(e)) => Some(l.push(e)),
            _ => None,
        }
    }
}

/// Rebasing distributes over concatenation of listings.
proof fn lemma_rebase_concat(a: Seq<DirEntryModel>, c: Seq<DirEntryModel>, b: Seq<CompModel>)
    ensures
        rebase_listing(a + c, b) == (match (rebase_listing(a, b), rebase_listing(c, b)) {
            (Option::Some(ra), Option::Some(rc)) => Some(ra + rc),
            _ => None::<Seq<DirEntryModel>>,
        }),
    decreases c.len(),
{
    if c.len() == 0 {
        assert(a + c =~= a);
        if rebase_listing(a, b) is Some {
            assert(rebase_listing(a, b).unwrap() + rebase_listing(c, b).unwrap()
                =~= rebase_listing(a, b).unwrap());
        }
    } else {
        lemma_rebase_concat(a, c.drop_last(), b);
        assert((a + c).drop_last() =~= a + c.drop_last());
        assert((a + c).last() == c.last());
    }
}

/// Every record of a walk below `b` rebases: the first `n` children of `p`
/// contribute only paths beneath `b`.
proof fn lemma_walk_rebases(
    s: Seq<EntryModel>,
    p: Seq<Seq<u8>>,
    depth: nat,
    n: int,
    b: Seq<Seq<u8>>,
)
    requires
        is_under(b, p),
        n <= crate::walk::child_entries(s, p).len(),
    ensures
        rebase_listing(walk_upto(s, p, depth, n), crate::paths::abs_path_of(b)) is Some,
    decreases depth, n,
{
    crate::walk::lemma_child_entries_are_children(s, p);
    if depth == 0 || n <= 0 {
    } else {
        let e = crate::walk::child_entries(s, p)[n - 1];
        let prior = walk_upto(s, p, depth, n - 1);
        lemma_walk_rebases(s, p, depth, n - 1, b);
        assert(is_under(b, e.path)) by {
            assert(e.path.drop_last() == p);
            assert(e.path.take(b.len() as int) =~= p.take(b.len() as int));
        }
        crate::walk::lemma_strip_abs(e.path, b);
        match e.kind {
            KindModel::Dir { .. } => {
                let one = seq![DirEntryModel::Dir(crate::paths::abs_path_of(e.path))];
                let sub = walk_upto(
                    s,
                    e.path,
                    (depth - 1) as nat,
                    crate::walk::child_entries(s, e.path).len() as int,
                );
                lemma_walk_rebases(
                    s,
                    e.path,
                    (depth - 1) as nat,
                    crate::walk::child_entries(s, e.path).len() as int,
                    b,
                );
                assert(rebase_listing(one, crate::paths::abs_path_of(b)) is Some) by {
                    reveal_with_fuel(rebase_listing, 3);
                    assert(one.drop_last() =~= Seq::<DirEntryModel>::empty());
                    assert(one.last() == DirEntryModel::Dir(crate::paths::abs_path_of(e.path)));
                }
                lemma_rebase_concat(prior, one, crate::paths::abs_path_of(b));
                lemma_rebase_concat(prior + one, sub, crate::paths::abs_path_of(b));
            },
            KindModel::File { data, modified, created } => {
                let one = seq![
                    DirEntryModel::File {
                        path: crate::paths::abs_path_of(e.path),
                        size: data.len(),
                        modified,
                        created,
                    },
                ];
                assert(rebase_listing(one, crate::paths::abs_path_of(b)) is Some) by {
                    reveal_with_fuel(rebase_listing, 3);
                    assert(one.drop_last() =~= Seq::<DirEntryModel>::empty());
                }
                lemma_rebase_concat(prior, one, crate::paths::abs_path_of(b));
            },
            _ => {},
        }
    }
}

/// A listing rooted at or below the base always rewrites fully: the caller
/// sees every record relative to the base and never the on-disk base itself.
pub proof fn lemma_listing_rebases(
    s: Seq<EntryModel>,
    p: Seq<Seq<u8>>,
    depth: nat,
    b: Seq<Seq<u8>>,
)
    requires
        is_under(b, p),
    ensures
        rebase_listing(walk_spec(s, p, depth), crate::paths::abs_path_of(b)) is Some,
{
    lemma_walk_rebases(s, p, depth, crate::walk::child_entries(s, p).len() as int, b);
}

/// What the dispatcher promises for one action: the respective operation's
/// success condition and effect, stated over the filesystem model.
pub open spec fn dispatch_post(
    a: ActionModel,
    b: Seq<CompModel>,
    pre: FsModel,
    post: FsModel,
    input: Seq<u8>,
    now: u64,
    r: Result<OutcomeModel, FsError>,
) -> bool {
    match a {
        ActionModel::FileRead { path } => {
            let pm = names_of(path);
            post == pre && match r {
                Ok(o) => (kind_at(pre, pm) matches Some(KindModel::File { data, .. }) && o
                    == OutcomeModel::Bytes(data)),
                Err(e) => !(kind_at(pre, pm) matches Some(KindModel::File { .. })) && e == read_err(
                    kind_at(pre, pm),
                ),
            }
        },
        ActionModel::FileWrite { path, create } => {
            let pm = names_of(path);
            let c = create == Some(true);
            match r {
                Ok(o) => o == OutcomeModel::Done && write_ok(pre, pm, c) && forall|
                    q: Seq<Seq<u8>>,
                |
                    kind_at(post, q) == (if q == pm {
                        Some(written_kind(pre, pm, input, now))
                    } else {
                        kind_at(pre, q)
                    }),
                Err(e) => post == pre && !write_ok(pre, pm, c) && e == write_err(pre, pm, c),
            }
        },
        ActionModel::Mkdir { path } => {
            let pm = names_of(path);
            match r {
                Ok(o) => o == OutcomeModel::Done && mkdir_ok(pre, pm) && forall|q: Seq<Seq<u8>>|
                    kind_at(post, q) == mkdir_partial(pre, pm, pm.len() as int, q),
                Err(e) => post == pre && !mkdir_ok(pre, pm) && e == mkdir_err(pre, pm),
            }
        },
        ActionModel::Lsdir { path, max_depth } => {
            let pm = names_of(path);
            post == pre && match r {
                Ok(o) => is_dir_kind(kind_at(pre, pm)) && rebase_listing(
                    walk_spec(pre.entries, pm, depth_of(max_depth)),
                    b,
                ) == Some(o->Listing_0) && o is Listing,
                Err(e) => (!is_dir_kind(kind_at(pre, pm)) && e == list_err(kind_at(pre, pm))) || (
                is_dir_kind(kind_at(pre, pm)) && rebase_listing(
                    walk_spec(pre.entries, pm, depth_of(max_depth)),
                    b,
                ) is None && e == FsError::InvalidInput),
            }
        },
        ActionModel::Remove { path } => {
            let pm = names_of(path);
            match r {
                Ok(o) => o == OutcomeModel::Done && kind_at(pre, pm) is Some && forall|
                    q: Seq<Seq<u8>>,
                |
                    kind_at(post, q) == (if q.len() > 0 && (if is_dir_kind(kind_at(pre, pm)) {
                        is_under(pm, q)
                    } else {
                        q == pm
                    }) {
                        None::<KindModel>
                    } else {
                        kind_at(pre, q)
                    }),
                Err(e) => post == pre && kind_at(pre, pm) is None && e == FsError::NotFound,
            }
        },
        ActionModel::Move { path, to } => {
            let pm = names_of(path);
            let tm = names_of(to);
            match r {
                Ok(o) => o == OutcomeModel::Done && move_ok(pre, pm, tm) && forall|
                    q: Seq<Seq<u8>>,
                | kind_at(post, q) == move_result_at(pre, pm, tm, now, q),
                Err(e) => post == pre && !move_ok(pre, pm, tm),
            }
        },
        ActionModel::Copy { path, to } => {
            let pm = names_of(path);
            let tm = names_of(to);
            match r {
                Ok(o) => o == OutcomeModel::Done && copy_ok(pre, pm, tm) && forall|
                    q: Seq<Seq<u8>>,
                | kind_at(post, q) == copy_result_at(pre, pm, tm, now, q),
                Err(e) => post == pre && !copy_ok(pre, pm, tm),
            }
        },
        ActionModel::Meta { .. } => post == pre && r == Err::<OutcomeModel, FsError>(
            FsError::NotImplemented,
        ),
        ActionModel::WriteMeta { .. } => post == pre && r == Err::<OutcomeModel, FsError>(
            FsError::NotImplemented,
        ),
    }
}

/// The spec-level view of a dispatch result.
pub open spec fn result_model(r: Result<Outcome, FsError>) -> Result<OutcomeModel, FsError> {
    match r {
        Ok(o) => Ok(o@),
        Err(e) => Err(e),
    }
}

/// Run one confined action against the store. Requires the privilege handle:
/// no filesystem work happens before the identity drop.
pub fn dispatch(
    fs: &mut SimFs,
    action: &Action,
    base: &FsPath,
    input: &Vec<u8>,
    now: u64,
    auth: &Privilege,
) -> (r: Result<Outcome, FsError>)
    requires
        fs_wf(old(fs)@),
        action_confined(action@),
    ensures
        fs_wf(final(fs)@),
        final(fs)@.root_device == old(fs)@.root_device,
        dispatch_post(action@, base@, old(fs)@, final(fs)@, input@, now, result_model(r)),
{
    match action {
        Action::FileRead { path } => {
            let names = path.to_names();
            match fs.read_file(&names) {
                Ok(d) => {
                    let mut out: Vec<u8> = Vec::new();
                    pipe(&d, &mut out);
                    proof {
                        assert(out@ =~= d@);
                    }
                    Ok(Outcome::Bytes(out))
                },
                Err(e) => Err(e),
            }
        },
        Action::FileWrite { path, create } => {
            let names = path.to_names();
            let c: bool = match create {
                Option::Some(b) => *b,
                Option::None => false,
            };
            proof {
                assert((c == (*create == Some(true))));
            }
            match fs.write_file(&names, input, c, now) {
                Ok(()) => Ok(Outcome::Done),
                Err(e) => Err(e),
            }
        },
        Action::Mkdir { path } => {
            let names = path.to_names();
            match fs.mkdir_all(&names) {
                Ok(()) => Ok(Outcome::Done),
                Err(e) => Err(e),
            }
        },
        Action::Lsdir { path, max_depth } => {
            let names = path.to_names();
            match list(fs, &names, *max_depth) {
                Err(e) => Err(e),
                Ok(entries) => {
                    let ghost raw: Seq<DirEntryModel> = listing_model(entries@);
                    let ghost pm: Seq<Seq<u8>> = crate::paths::bytes_list_model(names@);
                    let ghost md: Option<u32> = *max_depth;
                    let mut out: Vec<DirEntry> = Vec::new();
                    let mut rest = entries;
                    let mut i: usize = 0;
                    proof {
                        assert(rebase_listing(raw.take(0), base@) =~= Some(
                            Seq::<DirEntryModel>::empty(),
                        ));
                        assert(listing_model(out@) =~= Seq::<DirEntryModel>::empty());
                    }
                    while i < rest.len()
                        invariant
                            i <= rest@.len(),
                            fs@ == old(fs)@,
                            fs_wf(fs@),
                            action@ matches ActionModel::Lsdir { path: pp, max_depth: mm } && pm
                                == names_of(pp) && md == mm,
                            is_dir_kind(kind_at(fs@, pm)),
                            raw == walk_spec(fs@.entries, pm, depth_of(md)),
                            raw == listing_model(rest@),
                            rebase_listing(raw.take(i as int), base@) == Some(
                                listing_model(out@),
                            ),
                        decreases rest@.len() - i,
                    {
                        let ghost ob: Seq<DirEntry> = out@;
                        let ghost em: DirEntryModel = raw[i as int];
                        let e = rest[i].clone();
                        proof {
                            assert(e@ == em);
                            assert(raw.take(i + 1).drop_last() =~= raw.take(i as int));
                            assert(raw.take(i + 1).last() == em);
                        }
                        match e.relative_to(base) {
                            Ok(ne) => {
                                let ghost neg: DirEntry = ne;
                                out.push(ne);
                                proof {
                                    crate::walk::lemma_listing_model_push(ob, neg);
                                }
                            },
                            Err(err) => {
                                proof {
                                    assert(rebase_listing(raw.take(i + 1), base@) is None);
                                    lemma_rebase_none_extends(raw, base@, i + 1 as int);
                                    assert(raw.take(raw.len() as int) =~= raw);
                                }
                                return Err(err);
                            },
                        }
                        i = i + 1;
                    }
                    proof {
                        assert(raw.take(raw.len() as int) =~= raw);
                    }
                    Ok(Outcome::Listing(out))
                },
            }
        },
        Action::Remove { path } => {
            let names = path.to_names();
            match fs.remove_entry(&names) {
                Ok(()) => Ok(Outcome::Done),
                Err(e) => Err(e),
            }
        },
        Action::Move { path, to } => {
            let names = path.to_names();
            let tnames = to.to_names();
            match fs.move_entry(&names, &tnames, now) {
                Ok(()) => Ok(Outcome::Done),
                Err(e) => Err(e),
            }
        },
        Action::Copy { path, to } => {
            let names = path.to_names();
            let tnames = to.to_names();
            match fs.copy_entry(&names, &tnames, now) {
                Ok(()) => Ok(Outcome::Done),
                Err(e) => Err(e),
            }
        },
        Action::Meta { .. } => Err(FsError::NotImplemented),
        Action::WriteMeta { .. } => Err(FsError::NotImplemented),
    }
}

/// Once one record refuses to rebase, the whole listing refuses.
proof fn lemma_rebase_none_extends(es: Seq<DirEntryModel>, b: Seq<CompModel>, i: int)
    requires
        0 <= i <= es.len(),
        rebase_listing(es.take(i), b) is None,
    ensures
        rebase_listing(es, b) is None,
    decreases es.len() - i,
{
    if i < es.len() {
        assert(es.take(i + 1).drop_last() =~= es.take(i));
        lemma_rebase_none_extends(es, b, i + 1);
    } else {
        assert(es.take(i) =~= es);
    }
}

} // verus!
