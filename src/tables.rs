//! The runtime lookup tables compiled from a binding list: direct remaps and
//! SOCD opposed-key pairs.
use vstd::prelude::*;
use crate::binding::{bindings_view, Action, ActionModel, Binding, BindingModel, TargetKind};

verus! {

/// A directly remapped source key and its live press state.
#[derive(Debug)]
pub struct RemapEntry {
    pub source_key: String,
    pub target_kind: TargetKind,
    pub target_key: String,
    pub is_pressed: bool,
}

/// A key that takes part in an SOCD pair, with its live state.
#[derive(Debug)]
pub struct OpposedEntry {
    pub source_key: String,
    pub opposite_key: String,
    /// The kind the opposite key is emitted as.
    pub opposite_kind: TargetKind,
    /// The identity the opposite key is emitted as, where it is remapped.
    pub opposite_effective_target: Option<String>,
    /// Physically held.
    pub is_pressed: bool,
    /// Held as far as downstream has been told.
    pub is_virtual_asserted: bool,
    /// A synthetic event for this key is on its way back.
    pub is_echo_pending: bool,
}

pub struct RemapModel {
    pub source: Seq<char>,
    pub kind: TargetKind,
    pub target: Seq<char>,
    pub is_pressed: bool,
}

pub struct OpposedModel {
    pub source: Seq<char>,
    pub opposite: Seq<char>,
    pub kind: TargetKind,
    pub effective: Option<Seq<char>>,
    pub is_pressed: bool,
    pub is_virtual_asserted: bool,
    pub is_echo_pending: bool,
}

impl View for RemapEntry {
    type V = RemapModel;

    open spec fn view(&self) -> RemapModel {
        RemapModel {
            source: self.source_key@,
            kind: self.target_kind,
            target: self.target_key@,
            is_pressed: self.is_pressed,
        }
    }
}

pub open spec fn opt_view(o: Option<String>) -> Option<Seq<char>> {
    match o {
        Some(s) => Some(s@),
        None => None,
    }
}

impl View for OpposedEntry {
    type V = OpposedModel;

    open spec fn view(&self) -> OpposedModel {
        OpposedModel {
            source: self.source_key@,
            opposite: self.opposite_key@,
            kind: self.opposite_kind,
            effective: opt_view(self.opposite_effective_target),
            is_pressed: self.is_pressed,
            is_virtual_asserted: self.is_virtual_asserted,
            is_echo_pending: self.is_echo_pending,
        }
    }
}

pub open spec fn remaps_view(v: Seq<RemapEntry>) -> Seq<RemapModel> {
    v.map_values(|e: RemapEntry| e@)
}

pub open spec fn opposed_view(v: Seq<OpposedEntry>) -> Seq<OpposedModel> {
    v.map_values(|e: OpposedEntry| e@)
}

pub open spec fn has_remap(rs: Seq<RemapModel>, k: Seq<char>) -> bool {
    exists|i: int| 0 <= i < rs.len() && (#[trigger] rs[i]).source == k
}

/// The index of the remap entry for `k`.
pub open spec fn remap_index(rs: Seq<RemapModel>, k: Seq<char>) -> int {
    choose|i: int| 0 <= i < rs.len() && (#[trigger] rs[i]).source == k
}

pub open spec fn has_opposed(os: Seq<OpposedModel>, k: Seq<char>) -> bool {
    exists|i: int| 0 <= i < os.len() && (#[trigger] os[i]).source == k
}

/// The index of the opposed entry for `k`.
pub open spec fn opposed_index(os: Seq<OpposedModel>, k: Seq<char>) -> int {
    choose|i: int| 0 <= i < os.len() && (#[trigger] os[i]).source == k
}

/// The remap table of a binding list: one entry per remapped source key,
/// the first declaration of a key winning, in order of first declaration.
pub open spec fn remaps_of(bs: Seq<BindingModel>) -> Seq<RemapModel>
    decreases bs.len(),
{
    if bs.len() == 0 {
        Seq::empty()
    } else {
        let prev = remaps_of(bs.drop_last());
        let b = bs.last();
        match b.action {
            ActionModel::Remap(kind, target) => if has_remap(prev, b.source) {
                prev
            } else {
                prev.push(RemapModel { source: b.source, kind, target, is_pressed: false })
            },
            ActionModel::Socd(_) => prev,
        }
    }
}

/// A fresh opposed entry for `k` paired with `o`; `o`'s identity goes through
/// its remap, if it has one.
pub open spec fn fresh_opposed(k: Seq<char>, o: Seq<char>, rs: Seq<RemapModel>) -> OpposedModel {
    OpposedModel {
        source: k,
        opposite: o,
        kind: if has_remap(rs, o) { rs[remap_index(rs, o)].kind } else { TargetKind::Keyboard },
        effective: if has_remap(rs, o) { Some(rs[remap_index(rs, o)].target) } else { None },
        is_pressed: false,
        is_virtual_asserted: false,
        is_echo_pending: false,
    }
}

/// The opposed table of a binding list: each SOCD declaration `k -> o`
/// adds the pair `k`, `o` (two adjacent entries) unless `k == o` or either
/// key is already paired.
pub open spec fn opposed_of(bs: Seq<BindingModel>, rs: Seq<RemapModel>) -> Seq<OpposedModel>
    decreases bs.len(),
{
    if bs.len() == 0 {
        Seq::empty()
    } else {
        let prev = opposed_of(bs.drop_last(), rs);
        let b = bs.last();
        match b.action {
            ActionModel::Socd(o) => if b.source == o || has_opposed(prev, b.source)
                || has_opposed(prev, o) {
                prev
            } else {
                prev.push(fresh_opposed(b.source, o, rs)).push(fresh_opposed(o, b.source, rs))
            },
            ActionModel::Remap(_, _) => prev,
        }
    }
}

/// The entry paired with entry `i`: pairs sit at `2p` and `2p + 1`.
pub open spec fn partner(i: int) -> int {
    if i % 2 == 0 { i + 1 } else { i - 1 }
}

pub open spec fn remaps_unique(rs: Seq<RemapModel>) -> bool {
    forall|i: int, j: int| 0 <= i < rs.len() && 0 <= j < rs.len() && i != j
        ==> (#[trigger] rs[i]).source != (#[trigger] rs[j]).source
}

pub open spec fn opposed_unique(os: Seq<OpposedModel>) -> bool {
    forall|i: int, j: int| 0 <= i < os.len() && 0 <= j < os.len() && i != j
        ==> (#[trigger] os[i]).source != (#[trigger] os[j]).source
}

/// Entries come in adjacent pairs, each naming the other as its opposite.
pub open spec fn opposed_paired(os: Seq<OpposedModel>) -> bool {
    &&& os.len() % 2 == 0
    &&& forall|i: int| 0 <= i < os.len() ==> os[i].opposite == os[#[trigger] partner(i)].source
}

pub proof fn lemma_remap_index(rs: Seq<RemapModel>, k: Seq<char>, i: int)
    requires
        remaps_unique(rs),
        0 <= i < rs.len(),
        rs[i].source == k,
    ensures
        has_remap(rs, k),
        remap_index(rs, k) == i,
{
    assert(has_remap(rs, k));
}

pub proof fn lemma_opposed_index(os: Seq<OpposedModel>, k: Seq<char>, i: int)
    requires
        opposed_unique(os),
        0 <= i < os.len(),
        os[i].source == k,
    ensures
        has_opposed(os, k),
        opposed_index(os, k) == i,
{
    assert(has_opposed(os, k));
}

/// Finds the remap entry of `k`.
pub fn find_remap(rs: &Vec<RemapEntry>, k: &String) -> (r: Option<usize>)
    ensures
        match r {
            Some(i) => i < rs@.len() && rs@[i as int]@.source == k@,
            None => !has_remap(remaps_view(rs@), k@),
        },
{
    let mut i: usize = 0;
    while i < rs.len()
        invariant
            i <= rs@.len(),
            forall|j: int| 0 <= j < i ==> (#[trigger] rs@[j])@.source != k@,
        decreases rs@.len() - i,
    {
        if rs[i].source_key == *k {
            return Some(i);
        }
        i += 1;
    }
    proof {
        let v = remaps_view(rs@);
        assert forall|j: int| 0 <= j < v.len() implies (#[trigger] v[j]).source != k@ by {
            assert(v[j] == rs@[j]@);
        }
    }
    None
}

/// Finds the opposed entry of `k`.
pub fn find_opposed(os: &Vec<OpposedEntry>, k: &String) -> (r: Option<usize>)
    ensures
        match r {
            Some(i) => i < os@.len() && os@[i as int]@.source == k@,
            None => !has_opposed(opposed_view(os@), k@),
        },
{
    let mut i: usize = 0;
    while i < os.len()
        invariant
            i <= os@.len(),
            forall|j: int| 0 <= j < i ==> (#[trigger] os@[j])@.source != k@,
        decreases os@.len() - i,
    {
        if os[i].source_key == *k {
            return Some(i);
        }
        i += 1;
    }
    proof {
        let v = opposed_view(os@);
        assert forall|j: int| 0 <= j < v.len() implies (#[trigger] v[j]).source != k@ by {
            assert(v[j] == os@[j]@);
        }
    }
    None
}

/// Pass one: the remap table of a binding list.
pub fn build_remaps(bs: &Vec<Binding>) -> (r: Vec<RemapEntry>)
    ensures
        remaps_view(r@) == remaps_of(bindings_view(bs@)),
        remaps_unique(remaps_view(r@)),
{
    let ghost bv = bindings_view(bs@);
    let mut out: Vec<RemapEntry> = Vec::new();
    let mut i: usize = 0;
    assert(bv.take(0) =~= Seq::<BindingModel>::empty());
    assert(remaps_view(out@) =~= Seq::<RemapModel>::empty());
    while i < bs.len()
        invariant
            i <= bs@.len(),
            bv == bindings_view(bs@),
            remaps_view(out@) == remaps_of(bv.take(i as int)),
            remaps_unique(remaps_view(out@)),
        decreases bs@.len() - i,
    {
        let b = &bs[i];
        assert(bv.take(i + 1).drop_last() =~= bv.take(i as int));
        assert(bv.take(i + 1).last() == b@);
        match &b.action {
            Action::Remap { kind, target } => {
                match find_remap(&out, &b.source_key) {
                    Some(j) => {
                        assert(remaps_view(out@)[j as int] == out@[j as int]@);
                        assert(has_remap(remaps_view(out@), b@.source));
                    },
                    None => {
                        let e = RemapEntry {
                            source_key: b.source_key.clone(),
                            target_kind: *kind,
                            target_key: target.clone(),
                            is_pressed: false,
                        };
                        let ghost before = remaps_view(out@);
                        out.push(e);
                        assert(remaps_view(out@) =~= before.push(e@));
                        assert forall|x: int| 0 <= x < before.len() implies
                            (#[trigger] before[x]).source != e@.source by {}
                    },
                }
            },
            Action::Socd { .. } => {},
        }
        i += 1;
    }
    assert(bv.take(bs@.len() as int) =~= bv);
    out
}

fn fresh_entry(k: &String, o: &String, rs: &Vec<RemapEntry>) -> (r: OpposedEntry)
    requires
        remaps_unique(remaps_view(rs@)),
    ensures
        r@ == fresh_opposed(k@, o@, remaps_view(rs@)),
{
    let ghost rv = remaps_view(rs@);
    let (kind, eff) = match find_remap(rs, o) {
        Some(j) => {
            proof {
                assert(rv[j as int] == rs@[j as int]@);
                lemma_remap_index(rv, o@, j as int);
            }
            (rs[j].target_kind, Some(rs[j].target_key.clone()))
        },
        None => (TargetKind::Keyboard, None),
    };
    OpposedEntry {
        source_key: k.clone(),
        opposite_key: o.clone(),
        opposite_kind: kind,
        opposite_effective_target: eff,
        is_pressed: false,
        is_virtual_asserted: false,
        is_echo_pending: false,
    }
}

proof fn lemma_push_pair(before: Seq<OpposedModel>, e1: OpposedModel, e2: OpposedModel)
    requires
        opposed_unique(before),
        opposed_paired(before),
        e1.source != e2.source,
        !has_opposed(before, e1.source),
        !has_opposed(before, e2.source),
        e1.opposite == e2.source,
        e2.opposite == e1.source,
    ensures
        opposed_unique(before.push(e1).push(e2)),
        opposed_paired(before.push(e1).push(e2)),
{
    let after = before.push(e1).push(e2);
    let n = before.len();
    assert forall|x: int| 0 <= x < after.len() implies
        after[x].opposite == after[#[trigger] partner(x)].source by {
        if x < n {
            assert(partner(x) < n) by {
                assert(n % 2 == 0);
            }
            assert(before[x].opposite == before[partner(x)].source);
        } else if x == n {
            assert(partner(x) == n + 1);
        } else {
            assert(partner(x) == n);
        }
    }
    lemma_push_pair_unique(before, e1, e2);
}

proof fn lemma_push_pair_unique(before: Seq<OpposedModel>, e1: OpposedModel, e2: OpposedModel)
    requires
        opposed_unique(before),
        e1.source != e2.source,
        !has_opposed(before, e1.source),
        !has_opposed(before, e2.source),
    ensures
        opposed_unique(before.push(e1).push(e2)),
{
    let after = before.push(e1).push(e2);
    let n = before.len();
    assert forall|x: int, y: int| 0 <= x < after.len() && 0 <= y < after.len()
        && x != y implies (#[trigger] after[x]).source != (#[trigger] after[y]).source by {
        if x < n && y < n {
            assert(before[x].source != before[y].source);
        } else if x < n {
            assert(before[x].source == after[x].source);
            assert(!(0 <= x < before.len() && before[x].source == e1.source));
            assert(!(0 <= x < before.len() && before[x].source == e2.source));
        } else if y < n {
            assert(before[y].source == after[y].source);
            assert(!(0 <= y < before.len() && before[y].source == e1.source));
            assert(!(0 <= y < before.len() && before[y].source == e2.source));
        }
    }
}

/// Pass two: the opposed table of a binding list, given its remap table.
pub fn build_opposed(bs: &Vec<Binding>, rs: &Vec<RemapEntry>) -> (r: Vec<OpposedEntry>)
    requires
        remaps_unique(remaps_view(rs@)),
    ensures
        opposed_view(r@) == opposed_of(bindings_view(bs@), remaps_view(rs@)),
        opposed_unique(opposed_view(r@)),
        opposed_paired(opposed_view(r@)),
{
    let ghost bv = bindings_view(bs@);
    let ghost rv = remaps_view(rs@);
    let mut out: Vec<OpposedEntry> = Vec::new();
    let mut i: usize = 0;
    assert(bv.take(0) =~= Seq::<BindingModel>::empty());
    assert(opposed_view(out@) =~= Seq::<OpposedModel>::empty());
    while i < bs.len()
        invariant
            i <= bs@.len(),
            bv == bindings_view(bs@),
            rv == remaps_view(rs@),
            remaps_unique(rv),
            opposed_view(out@) == opposed_of(bv.take(i as int), rv),
            opposed_unique(opposed_view(out@)),
            opposed_paired(opposed_view(out@)),
        decreases bs@.len() - i,
    {
        let b = &bs[i];
        assert(bv.take(i + 1).drop_last() =~= bv.take(i as int));
        assert(bv.take(i + 1).last() == b@);
        match &b.action {
            Action::Socd { opposite } => {
                let f1 = find_opposed(&out, &b.source_key);
                let f2 = find_opposed(&out, opposite);
                proof {
                    if let Some(j) = f1 {
                        assert(opposed_view(out@)[j as int] == out@[j as int]@);
                    }
                    if let Some(j) = f2 {
                        assert(opposed_view(out@)[j as int] == out@[j as int]@);
                    }
                }
                if !(b.source_key == *opposite) && f1.is_none() && f2.is_none() {
                    let e1 = fresh_entry(&b.source_key, opposite, rs);
                    let e2 = fresh_entry(opposite, &b.source_key, rs);
                    let ghost before = opposed_view(out@);
                    out.push(e1);
                    out.push(e2);
                    proof {
                        assert(opposed_view(out@) =~= before.push(e1@).push(e2@));
                        lemma_push_pair(before, e1@, e2@);
                    }
                }
            },
            Action::Remap { .. } => {},
        }
        i += 1;
    }
    assert(bv.take(bs@.len() as int) =~= bv);
    out
}

} // verus!
