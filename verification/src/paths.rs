//! Lexical paths and their confinement beneath a base directory.
//!
//! A path is a sequence of components: a root marker, `..`, `.`, or a named
//! segment (a byte string). Flattening collapses `.` and `..` purely
//! lexically; confinement re-roots a flattened path onto a base directory so
//! that the result can never escape the base.

use vstd::prelude::*;

verus! {

/// One lexical path component.
#[derive(Debug, PartialEq, Eq)]
pub enum Component {
    /// The leading root marker of an absolute path.
    Root,
    /// A parent-directory step (`..`).
    Parent,
    /// A no-op step (`.`).
    Cur,
    /// A named segment.
    Name(Vec<u8>),
}

/// Mathematical model of a component.
pub ghost enum CompModel {
    Root,
    Parent,
    Cur,
    Name(Seq<u8>),
}

impl View for Component {
    type V = CompModel;

    open spec fn view(&self) -> CompModel {
        match self {
            Component::Root => CompModel::Root,
            Component::Parent => CompModel::Parent,
            Component::Cur => CompModel::Cur,
            Component::Name(n) => CompModel::Name(n@),
        }
    }
}

/// Copy a byte vector element by element.
pub fn clone_bytes(v: &Vec<u8>) -> (r: Vec<u8>)
    ensures
        r@ == v@,
{
    let mut r: Vec<u8> = Vec::new();
    let mut i: usize = 0;
    while i < v.len()
        invariant
            i <= v.len(),
            r@ == v@.take(i as int),
        decreases v.len() - i,
    {
        r.push(v[i]);
        proof {
            assert(v@.take(i + 1 as int) =~= v@.take(i as int).push(v@[i as int]));
        }
        i = i + 1;
    }
    proof {
        assert(v@.take(v@.len() as int) =~= v@);
    }
    r
}

/// Decide equality of two byte vectors.
pub fn bytes_eq(a: &Vec<u8>, b: &Vec<u8>) -> (r: bool)
    ensures
        r == (a@ == b@),
{
    if a.len() != b.len() {
        return false;
    }
    let mut i: usize = 0;
    while i < a.len()
        invariant
            i <= a.len(),
            a@.len() == b@.len(),
            forall|j: int| 0 <= j < i ==> a@[j] == b@[j],
        decreases a.len() - i,
    {
        if a[i] != b[i] {
            return false;
        }
        i = i + 1;
    }
    proof {
        assert(a@ =~= b@);
    }
    true
}

impl Clone for Component {
    fn clone(&self) -> (r: Component)
        ensures
            r@ == self@,
    {
        match self {
            Component::Root => Component::Root,
            Component::Parent => Component::Parent,
            Component::Cur => Component::Cur,
            Component::Name(n) => Component::Name(clone_bytes(n)),
        }
    }
}

/// A lexical path: a sequence of components.
#[derive(Debug, PartialEq, Eq)]
pub struct FsPath {
    pub parts: Vec<Component>,
}

/// The model of a component vector: the sequence of component models.
pub open spec fn parts_model(s: Seq<Component>) -> Seq<CompModel> {
    s.map_values(|c: Component| c@)
}

pub broadcast proof fn lemma_parts_model_len(s: Seq<Component>)
    ensures
        #![trigger parts_model(s)]
        parts_model(s).len() == s.len(),
{
}

pub broadcast proof fn lemma_parts_model_index(s: Seq<Component>, i: int)
    requires
        0 <= i < s.len(),
    ensures
        #![trigger parts_model(s)[i]]
        #![trigger parts_model(s), s[i]]
        parts_model(s)[i] == s[i]@,
{
}

pub proof fn lemma_parts_model_push(s: Seq<Component>, c: Component)
    ensures
        parts_model(s.push(c)) == parts_model(s).push(c@),
{
    assert forall|k: int| 0 <= k < s.len() + 1 implies #[trigger] parts_model(s.push(c))[k]
        == parts_model(s).push(c@)[k] by {
        if k < s.len() {
            assert(s.push(c)[k] == s[k]);
        } else {
            assert(s.push(c)[k] == c);
        }
    }
    assert(parts_model(s.push(c)) =~= parts_model(s).push(c@));
}

pub proof fn lemma_parts_model_drop_last(s: Seq<Component>)
    requires
        s.len() > 0,
    ensures
        parts_model(s.drop_last()) == parts_model(s).drop_last(),
{
    assert forall|k: int| 0 <= k < s.len() - 1 implies #[trigger] parts_model(s.drop_last())[k]
        == parts_model(s).drop_last()[k] by {
        assert(s.drop_last()[k] == s[k]);
    }
    assert(parts_model(s.drop_last()) =~= parts_model(s).drop_last());
}

pub proof fn lemma_parts_model_remove0(s: Seq<Component>)
    requires
        s.len() > 0,
    ensures
        parts_model(s.remove(0)) == parts_model(s).remove(0),
{
    assert forall|k: int| 0 <= k < s.len() - 1 implies #[trigger] parts_model(s.remove(0))[k]
        == parts_model(s).remove(0)[k] by {
        assert(s.remove(0)[k] == s[k + 1]);
    }
    assert(parts_model(s.remove(0)) =~= parts_model(s).remove(0));
}

impl View for FsPath {
    type V = Seq<CompModel>;

    open spec fn view(&self) -> Seq<CompModel> {
        parts_model(self.parts@)
    }
}

impl Clone for FsPath {
    fn clone(&self) -> (r: FsPath)
        ensures
            r@ == self@,
    {
        broadcast use lemma_parts_model_len, lemma_parts_model_index;

        let mut parts: Vec<Component> = Vec::new();
        let mut i: usize = 0;
        proof {
            assert(parts_model(parts@) =~= self@.take(0));
        }
        while i < self.parts.len()
            invariant
                i <= self.parts.len(),
                parts_model(parts@) == self@.take(i as int),
            decreases self.parts.len() - i,
        {
            let c = self.parts[i].clone();
            let ghost cc: Component = c;
            let ghost before: Seq<Component> = parts@;
            parts.push(c);
            proof {
                lemma_parts_model_push(before, cc);
                assert(cc@ == self@[i as int]);
                assert(self@.take(i + 1 as int) =~= self@.take(i as int).push(self@[i as int]));
            }
            i = i + 1;
        }
        proof {
            assert(self@.take(self@.len() as int) =~= self@);
        }
        FsPath { parts }
    }
}

/// Collapse `.` and `..` from the left: `..` pops the most recently kept
/// component (a no-op at the start, never an escape) and `.` is dropped.
pub open spec fn flatten_seq(s: Seq<CompModel>) -> Seq<CompModel>
    decreases s.len(),
{
    if s.len() == 0 {
        Seq::empty()
    } else {
        let prev = flatten_seq(s.drop_last());
        match s.last() {
            CompModel::Parent => if prev.len() > 0 {
                prev.drop_last()
            } else {
                prev
            },
            CompModel::Cur => prev,
            c => prev.push(c),
        }
    }
}

/// Values that stand for a component sequence and can be flattened.
pub trait Flatten: Sized {
    /// The component sequence this value stands for.
    spec fn comps(&self) -> Seq<CompModel>;

    /// Collapse `.` and `..` lexically, without consulting a filesystem.
    fn flatten(self) -> (r: FsPath)
        ensures
            r@ == flatten_seq(self.comps()),
    ;
}

impl Flatten for FsPath {
    open spec fn comps(&self) -> Seq<CompModel> {
        self@
    }

    fn flatten(self) -> (r: FsPath) {
        broadcast use lemma_parts_model_len, lemma_parts_model_index;

        let ghost orig: Seq<CompModel> = self@;
        let mut rest = self.parts;
        let mut stack: Vec<Component> = Vec::new();
        proof {
            assert(parts_model(rest@) =~= orig.subrange(0, orig.len() as int));
            assert(orig.take(0) =~= Seq::<CompModel>::empty());
        }
        while rest.len() > 0
            invariant
                rest@.len() <= orig.len(),
                parts_model(rest@) == orig.subrange(
                    orig.len() - rest@.len(),
                    orig.len() as int,
                ),
                parts_model(stack@) == flatten_seq(
                    orig.take(orig.len() - rest@.len()),
                ),
            decreases rest@.len(),
        {
            let ghost p: int = orig.len() - rest@.len();
            let ghost old_rest: Seq<Component> = rest@;
            let c = rest.remove(0);
            let ghost cc: Component = c;
            proof {
                lemma_parts_model_remove0(old_rest);
                assert(parts_model(old_rest).remove(0) =~= orig.subrange(p + 1, orig.len() as int));
                assert(cc@ == parts_model(old_rest)[0]);
                assert(cc@ == orig[p]);
                assert(orig.take(p + 1).drop_last() =~= orig.take(p));
                assert(orig.take(p + 1).last() == orig[p]);
            }
            match c {
                Component::Parent => {
                    if stack.len() > 0 {
                        let ghost sb: Seq<Component> = stack@;
                        let _ = stack.pop();
                        proof {
                            lemma_parts_model_drop_last(sb);
                        }
                    }
                },
                Component::Cur => {},
                other => {
                    let ghost oc: Component = other;
                    let ghost sb: Seq<Component> = stack@;
                    stack.push(other);
                    proof {
                        lemma_parts_model_push(sb, oc);
                    }
                },
            }
        }
        proof {
            assert(orig.take(orig.len() as int) =~= orig);
        }
        FsPath { parts: stack }
    }
}

/// What becomes of one component when root markers are stripped.
pub open spec fn deroot_comp(c: CompModel) -> CompModel {
    match c {
        CompModel::Root => CompModel::Cur,
        other => other,
    }
}

/// Replace every root marker by `.`, so a joined path cannot override the base.
pub open spec fn deroot_seq(s: Seq<CompModel>) -> Seq<CompModel> {
    s.map_values(|c: CompModel| deroot_comp(c))
}

pub broadcast proof fn lemma_deroot_len(s: Seq<CompModel>)
    ensures
        #![trigger deroot_seq(s)]
        deroot_seq(s).len() == s.len(),
{
}

pub broadcast proof fn lemma_deroot_index(s: Seq<CompModel>, i: int)
    requires
        0 <= i < s.len(),
    ensures
        #![trigger deroot_seq(s)[i]]
        #![trigger deroot_seq(s), s[i]]
        deroot_seq(s)[i] == deroot_comp(s[i]),
{
}

/// Exec counterpart of [`deroot_seq`].
fn deroot(p: FsPath) -> (r: FsPath)
    ensures
        r@ == deroot_seq(p@),
{
    broadcast use lemma_parts_model_len, lemma_parts_model_index, lemma_deroot_len, lemma_deroot_index;

    let mut rest = p.parts;
    let ghost orig: Seq<CompModel> = parts_model(rest@);
    let mut out: Vec<Component> = Vec::new();
    proof {
        assert(parts_model(rest@) =~= orig.subrange(0, orig.len() as int));
        assert(orig.take(0) =~= Seq::<CompModel>::empty());
        assert(deroot_seq(orig.take(0)) =~= Seq::<CompModel>::empty());
    }
    while rest.len() > 0
        invariant
            rest@.len() <= orig.len(),
            parts_model(rest@) == orig.subrange(
                orig.len() - rest@.len(),
                orig.len() as int,
            ),
            parts_model(out@) == deroot_seq(orig.take(orig.len() - rest@.len())),
        decreases rest@.len(),
    {
        let ghost p: int = orig.len() - rest@.len();
        let ghost ob: Seq<Component> = out@;
        let ghost old_rest: Seq<Component> = rest@;
        let c = rest.remove(0);
        let ghost cc: Component = c;
        proof {
            lemma_parts_model_remove0(old_rest);
            assert(parts_model(old_rest).remove(0) =~= orig.subrange(p + 1, orig.len() as int));
            assert(cc@ == parts_model(old_rest)[0]);
            assert(cc@ == orig[p]);
        }
        match c {
            Component::Root => {
                out.push(Component::Cur);
                proof {
                    lemma_parts_model_push(ob, Component::Cur);
                }
            },
            other => {
                let ghost oc: Component = other;
                out.push(other);
                proof {
                    lemma_parts_model_push(ob, oc);
                }
            },
        }
        proof {
            assert(deroot_seq(orig.take(p + 1)) =~= deroot_seq(orig.take(p)).push(
                deroot_comp(orig[p]),
            ));
        }
    }
    proof {
        assert(orig.take(orig.len() as int) =~= orig);
    }
    FsPath { parts: out }
}

/// The confined form of `p` under `base`: flatten, strip root markers, join
/// onto the base, and flatten again.
pub open spec fn confine_spec(p: Seq<CompModel>, base: Seq<CompModel>) -> Seq<CompModel> {
    flatten_seq(base + deroot_seq(flatten_seq(p)))
}

/// Shape of a confined path: named segments only, after an optional leading
/// root marker.
pub open spec fn confined_shape(s: Seq<CompModel>) -> bool {
    forall|i: int| 0 <= i < s.len() ==> ((#[trigger] s[i]) is Name || (i == 0 && s[i] is Root))
}

/// The bytes of a named segment.
pub open spec fn name_bytes(c: CompModel) -> Seq<u8> {
    match c {
        CompModel::Name(n) => n,
        _ => Seq::empty(),
    }
}

/// The model of a vector of byte strings.
pub open spec fn bytes_list_model(s: Seq<Vec<u8>>) -> Seq<Seq<u8>> {
    s.map_values(|v: Vec<u8>| v@)
}

pub broadcast proof fn lemma_bytes_list_model_len(s: Seq<Vec<u8>>)
    ensures
        #![trigger bytes_list_model(s)]
        bytes_list_model(s).len() == s.len(),
{
}

pub broadcast proof fn lemma_bytes_list_model_index(s: Seq<Vec<u8>>, i: int)
    requires
        0 <= i < s.len(),
    ensures
        #![trigger bytes_list_model(s)[i]]
        #![trigger bytes_list_model(s), s[i]]
        bytes_list_model(s)[i] == s[i]@,
{
}

pub proof fn lemma_bytes_list_model_push(s: Seq<Vec<u8>>, v: Vec<u8>)
    ensures
        bytes_list_model(s.push(v)) == bytes_list_model(s).push(v@),
{
    broadcast use lemma_bytes_list_model_len, lemma_bytes_list_model_index;

    assert forall|k: int| 0 <= k < s.len() + 1 implies #[trigger] bytes_list_model(s.push(v))[k]
        == bytes_list_model(s).push(v@)[k] by {
        if k < s.len() {
            assert(s.push(v)[k] == s[k]);
        } else {
            assert(s.push(v)[k] == v);
        }
    }
    assert(bytes_list_model(s.push(v)) =~= bytes_list_model(s).push(v@));
}

pub proof fn lemma_bytes_list_model_drop_last(s: Seq<Vec<u8>>)
    requires
        s.len() > 0,
    ensures
        bytes_list_model(s.drop_last()) == bytes_list_model(s).drop_last(),
{
    broadcast use lemma_bytes_list_model_len, lemma_bytes_list_model_index;

    assert forall|k: int| 0 <= k < s.len() - 1 implies #[trigger] bytes_list_model(
        s.drop_last(),
    )[k] == bytes_list_model(s).drop_last()[k] by {
        assert(s.drop_last()[k] == s[k]);
    }
    assert(bytes_list_model(s.drop_last()) =~= bytes_list_model(s).drop_last());
}

/// The named segments of a confined path, the optional root marker dropped.
pub open spec fn names_of(s: Seq<CompModel>) -> Seq<Seq<u8>> {
    if s.len() > 0 && s[0] is Root {
        s.skip(1).map_values(|c: CompModel| name_bytes(c))
    } else {
        s.map_values(|c: CompModel| name_bytes(c))
    }
}

/// The components of a list of named segments.
pub open spec fn name_comps(ns: Seq<Seq<u8>>) -> Seq<CompModel> {
    ns.map_values(|n: Seq<u8>| CompModel::Name(n))
}

pub broadcast proof fn lemma_name_comps_len(ns: Seq<Seq<u8>>)
    ensures
        #![trigger name_comps(ns)]
        name_comps(ns).len() == ns.len(),
{
}

pub broadcast proof fn lemma_name_comps_index(ns: Seq<Seq<u8>>, i: int)
    requires
        0 <= i < ns.len(),
    ensures
        #![trigger name_comps(ns)[i]]
        #![trigger name_comps(ns), ns[i]]
        name_comps(ns)[i] == CompModel::Name(ns[i]),
{
}

/// The absolute component path that a list of named segments denotes.
pub open spec fn abs_path_of(ns: Seq<Seq<u8>>) -> Seq<CompModel> {
    seq![CompModel::Root] + name_comps(ns)
}

impl FsPath {
    /// The named segments of a confined path as byte strings.
    pub fn to_names(&self) -> (r: Vec<Vec<u8>>)
        requires
            confined_shape(self@),
        ensures
            bytes_list_model(r@) == names_of(self@),
    {
        broadcast use lemma_parts_model_len, lemma_parts_model_index, lemma_bytes_list_model_len, lemma_bytes_list_model_index;

        let mut out: Vec<Vec<u8>> = Vec::new();
        let mut i: usize = 0;
        let skip_root: bool = self.parts.len() > 0 && matches!(self.parts[0], Component::Root);
        if skip_root {
            i = 1;
        }
        let ghost lo: int = if skip_root {
            1
        } else {
            0
        };
        while i < self.parts.len()
            invariant
                confined_shape(self@),
                lo == (if skip_root {
                    1int
                } else {
                    0int
                }),
                skip_root == (self@.len() > 0 && self@[0] is Root),
                lo <= i <= self.parts.len() || (self.parts.len() == 0 && i == 0),
                i >= lo,
                bytes_list_model(out@) == self@.subrange(lo, i as int).map_values(
                    |c: CompModel| name_bytes(c),
                ),
            decreases self.parts.len() - i,
        {
            match &self.parts[i] {
                Component::Name(n) => {
                    let ghost ob: Seq<Vec<u8>> = out@;
                    let nb = clone_bytes(n);
                    let ghost nbg: Vec<u8> = nb;
                    out.push(nb);
                    proof {
                        lemma_bytes_list_model_push(ob, nbg);
                        assert(self@.subrange(lo, i + 1 as int).map_values(
                            |c: CompModel| name_bytes(c),
                        ) =~= self@.subrange(lo, i as int).map_values(
                            |c: CompModel| name_bytes(c),
                        ).push(name_bytes(self@[i as int])));
                    }
                },
                _ => {
                    proof {
                        assert(false);
                    }
                },
            }
            i = i + 1;
        }
        proof {
            if skip_root {
                assert(self@.subrange(1, self@.len() as int) =~= self@.skip(1));
                assert(names_of(self@) == self@.skip(1).map_values(|c: CompModel| name_bytes(c)));
            } else {
                assert(self@.subrange(0, self@.len() as int) =~= self@);
            }
        }
        out
    }

    /// The absolute confined path that a list of named segments denotes.
    pub fn from_names(names: &Vec<Vec<u8>>) -> (r: FsPath)
        ensures
            r@ == abs_path_of(bytes_list_model(names@)),
            confined_shape(r@),
    {
        broadcast use lemma_parts_model_len, lemma_parts_model_index, lemma_bytes_list_model_len, lemma_bytes_list_model_index, lemma_name_comps_len, lemma_name_comps_index;

        let mut parts: Vec<Component> = Vec::new();
        parts.push(Component::Root);
        let mut i: usize = 0;
        proof {
            assert(parts_model(parts@) =~= seq![CompModel::Root] + name_comps(
                bytes_list_model(names@).take(0),
            ));
        }
        while i < names.len()
            invariant
                i <= names.len(),
                parts_model(parts@) == seq![CompModel::Root] + name_comps(
                    bytes_list_model(names@).take(i as int),
                ),
            decreases names.len() - i,
        {
            let ghost pb: Seq<Component> = parts@;
            let nb = clone_bytes(&names[i]);
            let c = Component::Name(nb);
            let ghost cc: Component = c;
            parts.push(c);
            proof {
                lemma_parts_model_push(pb, cc);
                assert(seq![CompModel::Root] + name_comps(
                    bytes_list_model(names@).take(i + 1 as int),
                ) =~= (seq![CompModel::Root] + name_comps(bytes_list_model(names@).take(i as int))).push(
                    CompModel::Name(names@[i as int]@),
                ));
            }
            i = i + 1;
        }
        proof {
            assert(bytes_list_model(names@).take(bytes_list_model(names@).len() as int)
                =~= bytes_list_model(names@));
        }
        let r = FsPath { parts };
        proof {
            assert forall|k: int| 0 <= k < r@.len() implies ((#[trigger] r@[k]) is Name || (k == 0
                && r@[k] is Root)) by {
                if k > 0 {
                    assert(r@[k] == name_comps(bytes_list_model(names@))[k - 1]);
                }
            }
        }
        r
    }
}

/// Decide equality of two components.
pub fn comp_eq(a: &Component, b: &Component) -> (r: bool)
    ensures
        r == (a@ == b@),
{
    match (a, b) {
        (Component::Root, Component::Root) => true,
        (Component::Parent, Component::Parent) => true,
        (Component::Cur, Component::Cur) => true,
        (Component::Name(x), Component::Name(y)) => bytes_eq(x, y),
        _ => false,
    }
}

/// After flattening, no `..` and no `.` component remains.
pub proof fn lemma_flatten_no_updirs(s: Seq<CompModel>)
    ensures
        forall|i: int|
            0 <= i < flatten_seq(s).len() ==> !((#[trigger] flatten_seq(s)[i]) is Parent) && !(
            flatten_seq(s)[i] is Cur),
    decreases s.len(),
{
    if s.len() > 0 {
        lemma_flatten_no_updirs(s.drop_last());
    }
}

/// A path consisting solely of parent-directory components flattens to the
/// empty path: popping past the start is a no-op, never an escape.
pub proof fn lemma_flatten_all_parents(s: Seq<CompModel>)
    requires
        forall|i: int| 0 <= i < s.len() ==> (#[trigger] s[i]) is Parent,
    ensures
        flatten_seq(s).len() == 0,
    decreases s.len(),
{
    if s.len() > 0 {
        lemma_flatten_all_parents(s.drop_last());
    }
}

/// The named segments of a component sequence, in order.
pub open spec fn keep_names(s: Seq<CompModel>) -> Seq<CompModel>
    decreases s.len(),
{
    if s.len() == 0 {
        Seq::empty()
    } else {
        let p = keep_names(s.drop_last());
        if s.last() is Name {
            p.push(s.last())
        } else {
            p
        }
    }
}

pub proof fn lemma_keep_names_all_names(s: Seq<CompModel>)
    ensures
        forall|i: int| 0 <= i < keep_names(s).len() ==> (#[trigger] keep_names(s)[i]) is Name,
    decreases s.len(),
{
    if s.len() > 0 {
        lemma_keep_names_all_names(s.drop_last());
    }
}

/// Appending components free of `..` (only names and `.`) onto a base extends
/// the flattened base and never reaches above it.
pub proof fn lemma_flatten_append_tame(b: Seq<CompModel>, x: Seq<CompModel>)
    requires
        forall|i: int| 0 <= i < x.len() ==> ((#[trigger] x[i]) is Name || x[i] is Cur),
    ensures
        flatten_seq(b + x) == flatten_seq(b) + keep_names(x),
    decreases x.len(),
{
    if x.len() == 0 {
        assert(b + x =~= b);
        assert(flatten_seq(b) + keep_names(x) =~= flatten_seq(b));
    } else {
        assert(forall|i: int|
            0 <= i < x.drop_last().len() ==> ((#[trigger] x.drop_last()[i]) is Name
                || x.drop_last()[i] is Cur));
        lemma_flatten_append_tame(b, x.drop_last());
        assert((b + x).drop_last() =~= b + x.drop_last());
        assert((b + x).last() == x.last());
        if x.last() is Name {
            assert(flatten_seq(b) + keep_names(x) =~= (flatten_seq(b) + keep_names(
                x.drop_last(),
            )).push(x.last()));
        }
    }
}

/// The confined form of any path under any base is exactly the flattened base
/// followed by named segments alone.
pub proof fn lemma_confine_under_base(p: Seq<CompModel>, base: Seq<CompModel>)
    ensures
        confine_spec(p, base) == flatten_seq(base) + keep_names(deroot_seq(flatten_seq(p))),
{
    broadcast use lemma_deroot_len, lemma_deroot_index;

    lemma_flatten_no_updirs(p);
    let d = deroot_seq(flatten_seq(p));
    assert forall|i: int| 0 <= i < d.len() implies ((#[trigger] d[i]) is Name || d[i] is Cur) by {
        assert(d[i] == deroot_comp(flatten_seq(p)[i]));
    }
    lemma_flatten_append_tame(base, d);
}

/// Confinement: a base that is already in flattened form is always a prefix of
/// the confined path, and everything below it is a plain named segment.
pub proof fn lemma_confine_prefix(p: Seq<CompModel>, base: Seq<CompModel>)
    requires
        flatten_seq(base) == base,
    ensures
        confine_spec(p, base).len() >= base.len(),
        confine_spec(p, base).take(base.len() as int) == base,
        forall|i: int|
            base.len() <= i < confine_spec(p, base).len() ==> (#[trigger] confine_spec(p, base)[i])
                is Name,
{
    lemma_confine_under_base(p, base);
    lemma_keep_names_all_names(deroot_seq(flatten_seq(p)));
    assert(confine_spec(p, base).take(base.len() as int) =~= base);
}

/// Confinement of any path under a flattened base in confined form yields a
/// path in confined form again.
pub proof fn lemma_confine_shape(p: Seq<CompModel>, base: Seq<CompModel>)
    requires
        flatten_seq(base) == base,
        confined_shape(base),
    ensures
        confined_shape(confine_spec(p, base)),
{
    lemma_confine_prefix(p, base);
    let r = confine_spec(p, base);
    assert forall|i: int| 0 <= i < r.len() implies ((#[trigger] r[i]) is Name || (i == 0 && r[i]
        is Root)) by {
        if i < base.len() {
            assert(r.take(base.len() as int)[i] == base[i]);
        }
    }
}

/// A path of parent-directory components alone confines to the flattened base
/// itself.
pub proof fn lemma_confine_all_parents(p: Seq<CompModel>, base: Seq<CompModel>)
    requires
        forall|i: int| 0 <= i < p.len() ==> (#[trigger] p[i]) is Parent,
    ensures
        confine_spec(p, base) == flatten_seq(base),
{
    lemma_flatten_all_parents(p);
    lemma_confine_under_base(p, base);
    assert(deroot_seq(flatten_seq(p)) =~= Seq::<CompModel>::empty());
    assert(flatten_seq(base) + keep_names(Seq::<CompModel>::empty()) =~= flatten_seq(base));
}

/// Re-root a caller-supplied path beneath `base`, purely lexically.
pub fn confine(path: FsPath, base: &FsPath) -> (r: FsPath)
    ensures
        r@ == confine_spec(path@, base@),
{
    let flat = path.flatten();
    let der = deroot(flat);
    let mut joined = base.clone();
    let mut der_parts = der.parts;
    joined.parts.append(&mut der_parts);
    proof {
        assert(joined@ =~= base@ + deroot_seq(flatten_seq(path@)));
    }
    joined.flatten()
}

} // verus!
