//! The event engine: echo filtering, remap dispatch, SOCD resolution and
//! held-key tracking for axis bindings.
use vstd::prelude::*;
use crate::axis::{axes_view, axis_value, resolve_axis, AxisBinding, AxisModel, StickAxis};
use crate::binding::{
    all_fault_free, binding_of, bindings_view, fault_of, parse_bindings, BindingModel,
    BindingRecord, ConfigError, KeyCheck, TargetKind,
};
use crate::tables::{
    build_opposed, build_remaps, find_opposed, find_remap, has_opposed, has_remap,
    lemma_opposed_index, lemma_remap_index, opposed_index, opposed_of, opposed_paired,
    opposed_unique, opposed_view, partner, remap_index, remaps_of, remaps_unique, remaps_view,
    OpposedEntry, OpposedModel, RemapEntry, RemapModel,
};

verus! {

/// A synthetic event to emit: press or release `key`, as `kind`.
#[derive(Debug)]
pub struct Injection {
    pub kind: TargetKind,
    pub key: String,
    pub press: bool,
}

pub struct InjectionModel {
    pub kind: TargetKind,
    pub key: Seq<char>,
    pub press: bool,
}

impl View for Injection {
    type V = InjectionModel;

    open spec fn view(&self) -> InjectionModel {
        InjectionModel { kind: self.kind, key: self.key@, press: self.press }
    }
}

pub open spec fn injection_view(o: Option<Injection>) -> Option<InjectionModel> {
    match o {
        Some(i) => Some(i@),
        None => None,
    }
}

/// What one input event asks of the host: at most one synthetic event, and
/// whether the controller's axes must be pushed again.
#[derive(Debug)]
pub struct EventOutcome {
    pub injection: Option<Injection>,
    pub axes_changed: bool,
}

/// The live flags of an opposed key.
#[derive(Clone, Copy, Debug, PartialEq, Eq, Structural)]
pub struct KeyState {
    pub is_pressed: bool,
    pub is_virtual_asserted: bool,
    pub is_echo_pending: bool,
}

/// The values of the four stick axes.
#[derive(Clone, Copy, Debug, PartialEq, Eq, Structural)]
pub struct StickFrame {
    pub left_x: i16,
    pub left_y: i16,
    pub right_x: i16,
    pub right_y: i16,
}

pub struct EngineModel {
    pub remaps: Seq<RemapModel>,
    pub opposed: Seq<OpposedModel>,
    pub axes: Seq<AxisModel>,
    pub held: Seq<bool>,
    pub running: bool,
}

pub struct StepModel {
    pub state: EngineModel,
    pub injection: Option<InjectionModel>,
    pub axes_changed: bool,
}

/// The engine: its binding tables, their live state, and the running flag.
pub struct KeyInterceptor {
    remaps: Vec<RemapEntry>,
    opposed: Vec<OpposedEntry>,
    axes: Vec<AxisBinding>,
    held: Vec<bool>,
    running: bool,
}

impl View for KeyInterceptor {
    type V = EngineModel;

    closed spec fn view(&self) -> EngineModel {
        EngineModel {
            remaps: remaps_view(self.remaps@),
            opposed: opposed_view(self.opposed@),
            axes: axes_view(self.axes@),
            held: self.held@,
            running: self.running,
        }
    }
}

/// The identity under which an entry's opposite key is emitted.
pub open spec fn effective_identity(e: OpposedModel) -> Seq<char> {
    match e.effective {
        Some(t) => t,
        None => e.opposite,
    }
}

pub open spec fn with_flags(e: OpposedModel, pressed: bool, asserted: bool, pending: bool) -> OpposedModel {
    OpposedModel {
        source: e.source,
        opposite: e.opposite,
        kind: e.kind,
        effective: e.effective,
        is_pressed: pressed,
        is_virtual_asserted: asserted,
        is_echo_pending: pending,
    }
}

pub open spec fn with_pressed(e: RemapModel, pressed: bool) -> RemapModel {
    RemapModel { source: e.source, kind: e.kind, target: e.target, is_pressed: pressed }
}

/// The event `(key, down)` is the echo of this engine's own injection.
pub open spec fn is_echo(os: Seq<OpposedModel>, key: Seq<char>, down: bool) -> bool {
    has_opposed(os, key) && os[opposed_index(os, key)].is_echo_pending
        && os[opposed_index(os, key)].is_virtual_asserted == down
}

pub open spec fn held_after(axes: Seq<AxisModel>, held: Seq<bool>, key: Seq<char>, down: bool) -> Seq<bool> {
    Seq::new(held.len(), |j: int| if axes[j].key == key { down } else { held[j] })
}

pub open spec fn axes_touched(axes: Seq<AxisModel>, held: Seq<bool>, key: Seq<char>, down: bool) -> bool {
    exists|j: int| 0 <= j < held.len() && (#[trigger] axes[j]).key == key && held[j] != down
}

/// SOCD resolution of a genuine event on opposed entry `i`: the entry takes
/// the physical state; a press takes over from an asserted opposite (which
/// is released), a release hands back to a held opposite (which is pressed).
pub open spec fn resolve_socd(os: Seq<OpposedModel>, i: int, down: bool) -> (Seq<OpposedModel>, Option<InjectionModel>) {
    let e = with_flags(os[i], down, down, os[i].is_echo_pending);
    let p = partner(i);
    let o = os[p];
    let os1 = os.update(i, e);
    if down && o.is_pressed && o.is_virtual_asserted {
        (
            os1.update(p, with_flags(o, o.is_pressed, false, true)),
            Some(InjectionModel { kind: e.kind, key: effective_identity(e), press: false }),
        )
    } else if !down && o.is_pressed {
        (
            os1.update(p, with_flags(o, o.is_pressed, true, true)),
            Some(InjectionModel { kind: e.kind, key: effective_identity(e), press: true }),
        )
    } else {
        (os1, None)
    }
}

/// What one input event `(key, down)` does to the engine and asks of the host.
pub open spec fn step(m: EngineModel, key: Seq<char>, down: bool) -> StepModel {
    if !m.running {
        StepModel { state: m, injection: None, axes_changed: false }
    } else if is_echo(m.opposed, key, down) {
        let i = opposed_index(m.opposed, key);
        let e = m.opposed[i];
        StepModel {
            state: EngineModel {
                opposed: m.opposed.update(i, with_flags(e, e.is_pressed, e.is_virtual_asserted, false)),
                ..m
            },
            injection: None,
            axes_changed: false,
        }
    } else {
        let m1 = EngineModel { held: held_after(m.axes, m.held, key, down), ..m };
        let changed = axes_touched(m.axes, m.held, key, down);
        if has_remap(m.remaps, key) {
            let r = remap_index(m.remaps, key);
            let e = m.remaps[r];
            StepModel {
                state: EngineModel { remaps: m.remaps.update(r, with_pressed(e, down)), ..m1 },
                injection: Some(InjectionModel { kind: e.kind, key: e.target, press: down }),
                axes_changed: changed,
            }
        } else if has_opposed(m.opposed, key) {
            let res = resolve_socd(m.opposed, opposed_index(m.opposed, key), down);
            StepModel {
                state: EngineModel { opposed: res.0, ..m1 },
                injection: res.1,
                axes_changed: changed,
            }
        } else {
            StepModel { state: m1, injection: None, axes_changed: changed }
        }
    }
}

/// Every opposed key that downstream sees held is physically held.
pub open spec fn asserted_only_if_pressed(os: Seq<OpposedModel>) -> bool {
    forall|i: int| 0 <= i < os.len() && (#[trigger] os[i]).is_virtual_asserted ==> os[i].is_pressed
}

/// No pair has both keys asserted downstream.
pub open spec fn never_both_asserted(os: Seq<OpposedModel>) -> bool {
    forall|i: int| 0 <= i < os.len() && os[i].is_virtual_asserted
        ==> !os[#[trigger] partner(i)].is_virtual_asserted
}

pub open spec fn wf_model(m: EngineModel) -> bool {
    &&& remaps_unique(m.remaps)
    &&& opposed_unique(m.opposed)
    &&& opposed_paired(m.opposed)
    &&& m.held.len() == m.axes.len()
    &&& asserted_only_if_pressed(m.opposed)
    &&& never_both_asserted(m.opposed)
}

/// The engine state that a binding list and axis bindings load into.
pub open spec fn loaded(bs: Seq<BindingModel>, axes: Seq<AxisModel>) -> EngineModel {
    EngineModel {
        remaps: remaps_of(bs),
        opposed: opposed_of(bs, remaps_of(bs)),
        axes: axes,
        held: Seq::new(axes.len(), |j: int| false),
        running: true,
    }
}

/// The bindings a fault-free configuration declares.
pub open spec fn records_bindings(recs: Seq<BindingRecord>) -> Seq<BindingModel> {
    recs.map_values(|r: BindingRecord| binding_of(r))
}

pub proof fn lemma_partner(n: int, i: int)
    requires
        n % 2 == 0,
        0 <= i < n,
    ensures
        0 <= partner(i) < n,
        partner(i) != i,
        partner(partner(i)) == i,
{
}

proof fn lemma_resolve_wf(os: Seq<OpposedModel>, i: int, down: bool)
    requires
        opposed_unique(os),
        opposed_paired(os),
        asserted_only_if_pressed(os),
        never_both_asserted(os),
        0 <= i < os.len(),
    ensures
        ({
            let os2 = resolve_socd(os, i, down).0;
            &&& os2.len() == os.len()
            &&& forall|x: int| 0 <= x < os.len() ==> (#[trigger] os2[x]).source == os[x].source
                && os2[x].opposite == os[x].opposite
            &&& opposed_unique(os2)
            &&& opposed_paired(os2)
            &&& asserted_only_if_pressed(os2)
            &&& never_both_asserted(os2)
        }),
{
    let os2 = resolve_socd(os, i, down).0;
    let p = partner(i);
    lemma_partner(os.len() as int, i);
    assert forall|x: int| 0 <= x < os.len() implies (#[trigger] os2[x]).source == os[x].source
        && os2[x].opposite == os[x].opposite by {}
    assert forall|x: int, y: int| 0 <= x < os2.len() && 0 <= y < os2.len() && x != y
        implies (#[trigger] os2[x]).source != (#[trigger] os2[y]).source by {
        assert(os2[x].source == os[x].source);
        assert(os2[y].source == os[y].source);
    }
    assert forall|x: int| 0 <= x < os2.len() implies os2[x].opposite == os2[#[trigger] partner(x)].source by {
        lemma_partner(os.len() as int, x);
        assert(os2[partner(x)].source == os[partner(x)].source);
        assert(os[x].opposite == os[partner(x)].source);
    }
    assert forall|x: int| 0 <= x < os2.len() && os2[x].is_virtual_asserted
        implies !os2[#[trigger] partner(x)].is_virtual_asserted by {
        lemma_partner(os.len() as int, x);
        if x != i && x != p {
            assert(partner(x) != i && partner(x) != p);
            assert(os[x].is_virtual_asserted);
        }
    }
}

/// Every event keeps the engine well formed; in particular no SOCD pair
/// ever has both keys asserted downstream.
pub proof fn lemma_step_wf(m: EngineModel, key: Seq<char>, down: bool)
    requires
        wf_model(m),
    ensures
        wf_model(step(m, key, down).state),
{
    let s = step(m, key, down).state;
    if !m.running {
    } else if is_echo(m.opposed, key, down) {
        let i = opposed_index(m.opposed, key);
        let os2 = s.opposed;
        assert forall|x: int, y: int| 0 <= x < os2.len() && 0 <= y < os2.len() && x != y
            implies (#[trigger] os2[x]).source != (#[trigger] os2[y]).source by {
            assert(os2[x].source == m.opposed[x].source);
            assert(os2[y].source == m.opposed[y].source);
        }
        assert forall|x: int| 0 <= x < os2.len() implies os2[x].opposite == os2[#[trigger] partner(x)].source by {
            lemma_partner(os2.len() as int, x);
            assert(m.opposed[x].opposite == m.opposed[partner(x)].source);
        }
        assert forall|x: int| 0 <= x < os2.len() && os2[x].is_virtual_asserted
            implies !os2[#[trigger] partner(x)].is_virtual_asserted by {
            lemma_partner(os2.len() as int, x);
            assert(m.opposed[x].is_virtual_asserted);
        }
    } else if has_remap(m.remaps, key) {
        let r = remap_index(m.remaps, key);
        let rs2 = s.remaps;
        assert forall|x: int, y: int| 0 <= x < rs2.len() && 0 <= y < rs2.len() && x != y
            implies (#[trigger] rs2[x]).source != (#[trigger] rs2[y]).source by {
            assert(rs2[x].source == m.remaps[x].source);
            assert(rs2[y].source == m.remaps[y].source);
        }
    } else if has_opposed(m.opposed, key) {
        lemma_resolve_wf(m.opposed, opposed_index(m.opposed, key), down);
    }
}

impl KeyInterceptor {
    pub open spec fn wf(&self) -> bool {
        wf_model(self@)
    }

    /// An engine with no bindings, not running.
    pub fn new() -> (r: Self)
        ensures
            r.wf(),
            !r@.running,
            r@.remaps.len() == 0,
            r@.opposed.len() == 0,
            r@.axes.len() == 0,
    {
        let r = KeyInterceptor {
            remaps: Vec::new(),
            opposed: Vec::new(),
            axes: Vec::new(),
            held: Vec::new(),
            running: false,
        };
        assert(r@.remaps =~= Seq::<RemapModel>::empty());
        assert(r@.opposed =~= Seq::<OpposedModel>::empty());
        r
    }

    /// Loads a configuration, replacing every table of the previous one, and
    /// starts processing events. A configuration with a faulty record leaves
    /// the engine as it was.
    pub fn start(&mut self, recs: &Vec<BindingRecord>, checks: &Vec<KeyCheck>, axes: Vec<AxisBinding>) -> (r: Result<(), ConfigError>)
        requires
            checks@.len() == recs@.len(),
        ensures
            match r {
                Ok(()) => all_fault_free(recs@, checks@)
                    && final(self)@ == loaded(records_bindings(recs@), axes_view(axes@))
                    && final(self).wf(),
                Err(e) => e.record < recs@.len()
                    && fault_of(recs@[e.record as int], checks@[e.record as int]) == Some(e.fault)
                    && all_fault_free(recs@.take(e.record as int), checks@.take(e.record as int))
                    && final(self)@ == old(self)@,
            },
    {
        let bs = match parse_bindings(recs, checks) {
            Ok(bs) => bs,
            Err(e) => return Err(e),
        };
        assert(bindings_view(bs@) =~= records_bindings(recs@));
        let remaps = build_remaps(&bs);
        let opposed = build_opposed(&bs, &remaps);
        let mut held: Vec<bool> = Vec::new();
        let mut j: usize = 0;
        while j < axes.len()
            invariant
                j <= axes@.len(),
                held@ =~= Seq::new(j as nat, |x: int| false),
            decreases axes@.len() - j,
        {
            held.push(false);
            j += 1;
        }
        self.remaps = remaps;
        self.opposed = opposed;
        self.axes = axes;
        self.held = held;
        self.running = true;
        proof {
            let os = self@.opposed;
            assert forall|i: int| 0 <= i < os.len() implies !(#[trigger] os[i]).is_virtual_asserted by {
                lemma_loaded_flags(records_bindings(recs@), remaps_of(records_bindings(recs@)), i);
            }
        }
        Ok(())
    }

    /// Stops processing events; tables and their state are kept.
    pub fn stop(&mut self)
        ensures
            final(self)@ == (EngineModel { running: false, ..old(self)@ }),
            old(self).wf() ==> final(self).wf(),
    {
        self.running = false;
    }

    pub fn is_running(&self) -> (r: bool)
        ensures
            r == self@.running,
    {
        self.running
    }

    /// The value of one stick axis from the keys held now.
    pub fn axis(&self, axis: StickAxis) -> (r: i16)
        requires
            self.wf(),
        ensures
            r as int == axis_value(self@.axes, self@.held, axis),
    {
        resolve_axis(&self.axes, &self.held, axis)
    }

    /// The values of all four stick axes.
    pub fn stick_frame(&self) -> (r: StickFrame)
        requires
            self.wf(),
        ensures
            r.left_x as int == axis_value(self@.axes, self@.held, StickAxis::LeftX),
            r.left_y as int == axis_value(self@.axes, self@.held, StickAxis::LeftY),
            r.right_x as int == axis_value(self@.axes, self@.held, StickAxis::RightX),
            r.right_y as int == axis_value(self@.axes, self@.held, StickAxis::RightY),
    {
        StickFrame {
            left_x: self.axis(StickAxis::LeftX),
            left_y: self.axis(StickAxis::LeftY),
            right_x: self.axis(StickAxis::RightX),
            right_y: self.axis(StickAxis::RightY),
        }
    }

    /// The live flags of the opposed key `key`, if it takes part in a pair.
    pub fn opposed_state(&self, key: &String) -> (r: Option<KeyState>)
        requires
            self.wf(),
        ensures
            match r {
                Some(st) => has_opposed(self@.opposed, key@) && ({
                    let e = self@.opposed[opposed_index(self@.opposed, key@)];
                    st.is_pressed == e.is_pressed && st.is_virtual_asserted == e.is_virtual_asserted
                        && st.is_echo_pending == e.is_echo_pending
                }),
                None => !has_opposed(self@.opposed, key@),
            },
    {
        match find_opposed(&self.opposed, key) {
            Some(i) => {
                proof {
                    assert(self@.opposed[i as int] == self.opposed@[i as int]@);
                    lemma_opposed_index(self@.opposed, key@, i as int);
                }
                let e = &self.opposed[i];
                Some(KeyState {
                    is_pressed: e.is_pressed,
                    is_virtual_asserted: e.is_virtual_asserted,
                    is_echo_pending: e.is_echo_pending,
                })
            },
            None => None,
        }
    }

    /// The kind and identity under which the opposite of `key` is emitted,
    /// if `key` takes part in a pair.
    pub fn opposite_identity(&self, key: &String) -> (r: Option<(TargetKind, String)>)
        requires
            self.wf(),
        ensures
            match r {
                Some((kind, id)) => has_opposed(self@.opposed, key@) && ({
                    let e = self@.opposed[opposed_index(self@.opposed, key@)];
                    kind == e.kind && id@ == effective_identity(e)
                }),
                None => !has_opposed(self@.opposed, key@),
            },
    {
        match find_opposed(&self.opposed, key) {
            Some(i) => {
                proof {
                    assert(self@.opposed[i as int] == self.opposed@[i as int]@);
                    lemma_opposed_index(self@.opposed, key@, i as int);
                }
                Some((self.opposed[i].opposite_kind, self.effective_key(i)))
            },
            None => None,
        }
    }

    /// Whether the directly remapped key `key` is held, if it is remapped.
    pub fn remap_pressed(&self, key: &String) -> (r: Option<bool>)
        requires
            self.wf(),
        ensures
            match r {
                Some(p) => has_remap(self@.remaps, key@)
                    && p == self@.remaps[remap_index(self@.remaps, key@)].is_pressed,
                None => !has_remap(self@.remaps, key@),
            },
    {
        match find_remap(&self.remaps, key) {
            Some(i) => {
                proof {
                    assert(self@.remaps[i as int] == self.remaps@[i as int]@);
                    lemma_remap_index(self@.remaps, key@, i as int);
                }
                Some(self.remaps[i].is_pressed)
            },
            None => None,
        }
    }
}

impl KeyInterceptor {
    fn update_held(&mut self, key: &String, down: bool) -> (changed: bool)
        requires
            old(self).held@.len() == old(self).axes@.len(),
        ensures
            final(self).held@ == held_after(axes_view(old(self).axes@), old(self).held@, key@, down),
            changed == axes_touched(axes_view(old(self).axes@), old(self).held@, key@, down),
            final(self).remaps == old(self).remaps,
            final(self).opposed == old(self).opposed,
            final(self).axes == old(self).axes,
            final(self).running == old(self).running,
    {
        let ghost av = axes_view(self.axes@);
        let ghost h0 = self.held@;
        let mut changed = false;
        let mut j: usize = 0;
        while j < self.held.len()
            invariant
                j <= self.held@.len(),
                self.held@.len() == h0.len(),
                h0.len() == self.axes@.len(),
                av == axes_view(self.axes@),
                self.remaps == old(self).remaps,
                self.opposed == old(self).opposed,
                self.axes == old(self).axes,
                self.running == old(self).running,
                h0 == old(self).held@,
                forall|x: int| 0 <= x < j ==> self.held@[x] == (if av[x].key == key@ { down } else { h0[x] }),
                forall|x: int| j <= x < h0.len() ==> self.held@[x] == h0[x],
                changed == exists|x: int| 0 <= x < j && (#[trigger] av[x]).key == key@ && h0[x] != down,
            decreases h0.len() - j,
        {
            assert(av[j as int] == self.axes@[j as int]@);
            if self.axes[j].key == *key {
                if self.held[j] != down {
                    changed = true;
                }
                self.held.set(j, down);
            }
            j += 1;
        }
        assert(self.held@ =~= held_after(av, h0, key@, down));
        changed
    }

    fn resolve_pair(&mut self, i: usize, down: bool) -> (r: Option<Injection>)
        requires
            i < old(self).opposed@.len(),
            opposed_paired(opposed_view(old(self).opposed@)),
        ensures
            opposed_view(final(self).opposed@) == resolve_socd(opposed_view(old(self).opposed@), i as int, down).0,
            injection_view(r) == resolve_socd(opposed_view(old(self).opposed@), i as int, down).1,
            final(self).remaps == old(self).remaps,
            final(self).axes == old(self).axes,
            final(self).held == old(self).held,
            final(self).running == old(self).running,
    {
        let ghost os = opposed_view(self.opposed@);
        proof {
            lemma_partner(os.len() as int, i as int);
        }
        let p: usize = if i % 2 == 0 { i + 1 } else { i - 1 };
        assert(os[i as int] == self.opposed@[i as int]@);
        assert(os[p as int] == self.opposed@[p as int]@);
        self.opposed[i].is_pressed = down;
        self.opposed[i].is_virtual_asserted = down;
        let ghost e = with_flags(os[i as int], down, down, os[i as int].is_echo_pending);
        let ghost o = os[p as int];
        let kind = self.opposed[i].opposite_kind;
        if down && self.opposed[p].is_pressed && self.opposed[p].is_virtual_asserted {
            self.opposed[p].is_virtual_asserted = false;
            self.opposed[p].is_echo_pending = true;
            let key = self.effective_key(i);
            assert(opposed_view(self.opposed@) =~= os.update(i as int, e).update(p as int, with_flags(o, o.is_pressed, false, true)));
            Some(Injection { kind, key, press: false })
        } else if !down && self.opposed[p].is_pressed {
            self.opposed[p].is_virtual_asserted = true;
            self.opposed[p].is_echo_pending = true;
            let key = self.effective_key(i);
            assert(opposed_view(self.opposed@) =~= os.update(i as int, e).update(p as int, with_flags(o, o.is_pressed, true, true)));
            Some(Injection { kind, key, press: true })
        } else {
            assert(opposed_view(self.opposed@) =~= os.update(i as int, e));
            None
        }
    }

    fn effective_key(&self, i: usize) -> (r: String)
        requires
            i < self.opposed@.len(),
        ensures
            r@ == effective_identity(self.opposed@[i as int]@),
    {
        match &self.opposed[i].opposite_effective_target {
            Some(t) => t.clone(),
            None => self.opposed[i].opposite_key.clone(),
        }
    }

    /// Processes one physical key event `(key, is_down)`: echoes of the
    /// engine's own injections are consumed, remapped keys are replaced, and
    /// opposed keys go through SOCD resolution. Returns what the host must emit.
    pub fn handle_event(&mut self, key: &String, is_down: bool) -> (r: EventOutcome)
        requires
            old(self).wf(),
        ensures
            final(self)@ == step(old(self)@, key@, is_down).state,
            injection_view(r.injection) == step(old(self)@, key@, is_down).injection,
            r.axes_changed == step(old(self)@, key@, is_down).axes_changed,
            final(self).wf(),
    {
        proof {
            lemma_step_wf(self@, key@, is_down);
        }
        let ghost m = self@;
        if !self.running {
            return EventOutcome { injection: None, axes_changed: false };
        }
        let oi = find_opposed(&self.opposed, key);
        if let Some(i) = oi {
            proof {
                assert(m.opposed[i as int] == self.opposed@[i as int]@);
                lemma_opposed_index(m.opposed, key@, i as int);
            }
            if self.opposed[i].is_echo_pending && self.opposed[i].is_virtual_asserted == is_down {
                self.opposed[i].is_echo_pending = false;
                proof {
                    let e = m.opposed[i as int];
                    assert(self@.opposed =~= m.opposed.update(i as int, with_flags(e, e.is_pressed, e.is_virtual_asserted, false)));
                }
                return EventOutcome { injection: None, axes_changed: false };
            }
        }
        let changed = self.update_held(key, is_down);
        match find_remap(&self.remaps, key) {
            Some(r) => {
                proof {
                    assert(m.remaps[r as int] == self.remaps@[r as int]@);
                    lemma_remap_index(m.remaps, key@, r as int);
                }
                self.remaps[r].is_pressed = is_down;
                let inj = Injection {
                    kind: self.remaps[r].target_kind,
                    key: self.remaps[r].target_key.clone(),
                    press: is_down,
                };
                proof {
                    assert(self@.remaps =~= m.remaps.update(r as int, with_pressed(m.remaps[r as int], is_down)));
                }
                return EventOutcome { injection: Some(inj), axes_changed: changed };
            },
            None => {},
        }
        match oi {
            Some(i) => {
                let inj = self.resolve_pair(i, is_down);
                EventOutcome { injection: inj, axes_changed: changed }
            },
            None => EventOutcome { injection: None, axes_changed: changed },
        }
    }
}

proof fn lemma_loaded_flags(bs: Seq<BindingModel>, rs: Seq<RemapModel>, i: int)
    requires
        0 <= i < opposed_of(bs, rs).len(),
    ensures
        !opposed_of(bs, rs)[i].is_virtual_asserted,
    decreases bs.len(),
{
    if bs.len() > 0 {
        let prev = opposed_of(bs.drop_last(), rs);
        if i < prev.len() {
            lemma_loaded_flags(bs.drop_last(), rs, i);
        }
    }
}

} // verus!
