//! Properties of the engine that span several events or several functions.
use vstd::prelude::*;
use crate::axis::AxisModel;
use crate::binding::{ActionModel, BindingModel};
use crate::engine::{
    effective_identity, lemma_partner, lemma_step_wf, loaded, step, wf_model, EngineModel,
    InjectionModel,
};
use crate::tables::{
    has_opposed, has_remap, lemma_opposed_index, opposed_index, opposed_of, partner,
    remap_index, remaps_of, OpposedModel, RemapModel,
};

verus! {

/// A key outside every SOCD pair passes straight through: downstream is
/// told exactly its physical direction (through its remap, if it has one),
/// and no opposed key changes.
pub proof fn law_unpaired_keys_pass_through(m: EngineModel, key: Seq<char>, down: bool)
    requires
        wf_model(m),
        !has_opposed(m.opposed, key),
    ensures
        step(m, key, down).state.opposed == m.opposed,
        m.running && has_remap(m.remaps, key) ==> ({
            let r = remap_index(m.remaps, key);
            &&& step(m, key, down).state.remaps[r].is_pressed == down
            &&& step(m, key, down).injection == Some(
                InjectionModel { kind: m.remaps[r].kind, key: m.remaps[r].target, press: down },
            )
        }),
        !has_remap(m.remaps, key) ==> step(m, key, down).injection is None,
{
}

/// After any event, no two keys of an SOCD pair are both asserted downstream.
pub proof fn law_pair_never_both_asserted(m: EngineModel, key: Seq<char>, down: bool)
    requires
        wf_model(m),
    ensures
        ({
            let os = step(m, key, down).state.opposed;
            forall|i: int| 0 <= i < os.len() && (#[trigger] os[i]).is_virtual_asserted
                ==> !os[opposed_index(os, os[i].opposite)].is_virtual_asserted
        }),
{
    lemma_step_wf(m, key, down);
    let os = step(m, key, down).state.opposed;
    assert forall|i: int| 0 <= i < os.len() && (#[trigger] os[i]).is_virtual_asserted
        implies !os[opposed_index(os, os[i].opposite)].is_virtual_asserted by {
        lemma_partner(os.len() as int, i);
        lemma_opposed_index(os, os[i].opposite, partner(i));
    }
}

/// An event that matches the direction of a pending injection on its key is
/// that injection's echo: it is consumed, and only the pending mark is cleared.
pub proof fn law_echo_consumed(m: EngineModel, key: Seq<char>, down: bool)
    requires
        wf_model(m),
        m.running,
        has_opposed(m.opposed, key),
        m.opposed[opposed_index(m.opposed, key)].is_echo_pending,
        m.opposed[opposed_index(m.opposed, key)].is_virtual_asserted == down,
    ensures
        ({
            let i = opposed_index(m.opposed, key);
            let s = step(m, key, down);
            &&& s.injection is None
            &&& !s.axes_changed
            &&& s.state.remaps == m.remaps
            &&& s.state.held == m.held
            &&& s.state.running == m.running
            &&& s.state.opposed.len() == m.opposed.len()
            &&& forall|j: int| 0 <= j < m.opposed.len() && j != i ==> s.state.opposed[j] == m.opposed[j]
            &&& s.state.opposed[i] == (OpposedModel { is_echo_pending: false, ..m.opposed[i] })
        }),
{
}

/// Pressing `a`, then its opposite `b`, emits one release of `a` (under its
/// effective identity) and leaves `b`'s press alone; releasing `b` while `a`
/// is still held then emits one press of `a`.
pub proof fn law_most_recent_press_wins(m: EngineModel, a: Seq<char>, b: Seq<char>)
    requires
        wf_model(m),
        m.running,
        has_opposed(m.opposed, a),
        m.opposed[opposed_index(m.opposed, a)].opposite == b,
        !has_remap(m.remaps, a),
        !has_remap(m.remaps, b),
        !m.opposed[opposed_index(m.opposed, a)].is_pressed,
        !m.opposed[opposed_index(m.opposed, b)].is_pressed,
    ensures
        ({
            let eb = m.opposed[opposed_index(m.opposed, b)];
            let s1 = step(m, a, true);
            let s2 = step(s1.state, b, true);
            let s3 = step(s2.state, b, false);
            &&& s1.injection is None
            &&& s2.injection == Some(InjectionModel { kind: eb.kind, key: effective_identity(eb), press: false })
            &&& s2.state.opposed[opposed_index(m.opposed, b)].is_virtual_asserted
            &&& s3.injection == Some(InjectionModel { kind: eb.kind, key: effective_identity(eb), press: true })
        }),
{
    let os = m.opposed;
    let ia = opposed_index(os, a);
    lemma_partner(os.len() as int, ia);
    let ib = partner(ia);
    lemma_opposed_index(os, b, ib);
    let s1 = step(m, a, true);
    lemma_step_wf(m, a, true);
    lemma_opposed_index(s1.state.opposed, b, ib);
    lemma_opposed_index(s1.state.opposed, a, ia);
    let s2 = step(s1.state, b, true);
    lemma_step_wf(s1.state, b, true);
    lemma_opposed_index(s2.state.opposed, b, ib);
    assert(partner(ib) == ia);
}

/// The builder composes remapping with pairing: an opposed entry whose
/// opposite key is remapped names that remap's target, and kind, as the
/// opposite's effective identity.
pub proof fn law_pairing_uses_remap_target(bs: Seq<BindingModel>, i: int)
    requires
        0 <= i < opposed_of(bs, remaps_of(bs)).len(),
    ensures
        ({
            let rs = remaps_of(bs);
            let e = opposed_of(bs, rs)[i];
            &&& has_remap(rs, e.opposite) ==> e.effective == Some(rs[remap_index(rs, e.opposite)].target)
                && e.kind == rs[remap_index(rs, e.opposite)].kind
            &&& !has_remap(rs, e.opposite) ==> e.effective is None
        }),
{
    lemma_opposed_entries_fresh(bs, remaps_of(bs), i);
}

proof fn lemma_opposed_entries_fresh(bs: Seq<BindingModel>, rs: Seq<RemapModel>, i: int)
    requires
        0 <= i < opposed_of(bs, rs).len(),
    ensures
        ({
            let e = opposed_of(bs, rs)[i];
            &&& has_remap(rs, e.opposite) ==> e.effective == Some(rs[remap_index(rs, e.opposite)].target)
                && e.kind == rs[remap_index(rs, e.opposite)].kind
            &&& !has_remap(rs, e.opposite) ==> e.effective is None
        }),
    decreases bs.len(),
{
    if bs.len() > 0 && i < opposed_of(bs.drop_last(), rs).len() {
        lemma_opposed_entries_fresh(bs.drop_last(), rs, i);
    }
}

/// Pressing a key whose paired opposite is held and asserted releases the
/// opposite under its effective identity: a remapped opposite is released
/// as its remap target, not as its raw key.
pub proof fn law_takeover_releases_effective_target(m: EngineModel, a: Seq<char>, c: Seq<char>)
    requires
        wf_model(m),
        m.running,
        has_opposed(m.opposed, a),
        !has_remap(m.remaps, a),
        m.opposed[opposed_index(m.opposed, a)].effective == Some(c),
        m.opposed[opposed_index(m.opposed, m.opposed[opposed_index(m.opposed, a)].opposite)].is_pressed,
        m.opposed[opposed_index(m.opposed, m.opposed[opposed_index(m.opposed, a)].opposite)].is_virtual_asserted,
    ensures
        step(m, a, true).injection == Some(
            InjectionModel { kind: m.opposed[opposed_index(m.opposed, a)].kind, key: c, press: false },
        ),
{
    let os = m.opposed;
    let ia = opposed_index(os, a);
    lemma_partner(os.len() as int, ia);
    lemma_opposed_index(os, os[ia].opposite, partner(ia));
}

/// Whether a binding list mentions `k` in an SOCD declaration.
pub open spec fn pairs_mention(bs: Seq<BindingModel>, k: Seq<char>) -> bool {
    exists|j: int| 0 <= j < bs.len() && match (#[trigger] bs[j]).action {
        ActionModel::Socd(o) => bs[j].source == k || o == k,
        ActionModel::Remap(_, _) => false,
    }
}

/// Whether a binding list declares a remap of `k`.
pub open spec fn remaps_mention(bs: Seq<BindingModel>, k: Seq<char>) -> bool {
    exists|j: int| 0 <= j < bs.len() && (#[trigger] bs[j]).source == k && bs[j].action is Remap
}

/// A load depends on the loaded configuration alone: after it, every remap
/// and opposed entry comes from that configuration, whatever was loaded
/// before.
pub proof fn law_reload_replaces_tables(bs: Seq<BindingModel>, axes: Seq<AxisModel>, k: Seq<char>)
    ensures
        has_opposed(loaded(bs, axes).opposed, k) ==> pairs_mention(bs, k),
        has_remap(loaded(bs, axes).remaps, k) ==> remaps_mention(bs, k),
        !loaded(bs, axes).held.contains(true),
{
    lemma_opposed_from(bs, remaps_of(bs), k);
    lemma_remaps_from(bs, k);
}

proof fn lemma_opposed_from(bs: Seq<BindingModel>, rs: Seq<RemapModel>, k: Seq<char>)
    ensures
        has_opposed(opposed_of(bs, rs), k) ==> pairs_mention(bs, k),
    decreases bs.len(),
{
    if bs.len() > 0 {
        let pre = bs.drop_last();
        lemma_opposed_from(pre, rs, k);
        if has_opposed(opposed_of(bs, rs), k) {
            if has_opposed(opposed_of(pre, rs), k) {
                let j = choose|j: int| 0 <= j < pre.len() && match (#[trigger] pre[j]).action {
                    ActionModel::Socd(o) => pre[j].source == k || o == k,
                    ActionModel::Remap(_, _) => false,
                };
                assert(bs[j] == pre[j]);
            } else {
                let n = opposed_of(pre, rs).len();
                let x = choose|x: int| 0 <= x < opposed_of(bs, rs).len() && (#[trigger] opposed_of(bs, rs)[x]).source == k;
                if x < n {
                    assert(opposed_of(bs, rs)[x] == opposed_of(pre, rs)[x]);
                }
                assert(bs[bs.len() - 1] == bs.last());
            }
        }
    }
}

proof fn lemma_remaps_from(bs: Seq<BindingModel>, k: Seq<char>)
    ensures
        has_remap(remaps_of(bs), k) ==> remaps_mention(bs, k),
    decreases bs.len(),
{
    if bs.len() > 0 {
        let pre = bs.drop_last();
        lemma_remaps_from(pre, k);
        if has_remap(remaps_of(bs), k) {
            if has_remap(remaps_of(pre), k) {
                let j = choose|j: int| 0 <= j < pre.len() && (#[trigger] pre[j]).source == k && pre[j].action is Remap;
                assert(bs[j] == pre[j]);
            } else {
                let n = remaps_of(pre).len();
                let x = choose|x: int| 0 <= x < remaps_of(bs).len() && (#[trigger] remaps_of(bs)[x]).source == k;
                if x < n {
                    assert(remaps_of(bs)[x] == remaps_of(pre)[x]);
                }
                assert(bs[bs.len() - 1] == bs.last());
            }
        }
    }
}

} // verus!
