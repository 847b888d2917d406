//! Turning the set that all outputs share into a set for each output.
//!
//! Every workspace is split apart: each output gets one with what it showed most of, at the
//! same place as seen from the output.
use crate::element::{Element, ElementView, Layer};
use crate::geometry::Point;
use crate::mode::{lemma_sets_update, lemma_sets_view, sets_view};
use crate::output::Output;
use crate::protocol::{OutputId, WorkspaceHandle, WorkspaceState};
use crate::scene::SetsScene;
use crate::set::{start_workspace, started_entry, SetView, WorkspaceAmount, WorkspaceSet};
use crate::table::{has_key, keys_distinct, lemma_slot, lemma_slot_at, slot, Table};
use crate::toplevel::{ToplevelInfoState, ToplevelView, WindowId};
use crate::workspace::{new_workspace, Workspace, WorkspaceView};
use vstd::prelude::*;

verus! {

/// Those of some elements that an output shows most of.
pub open spec fn elements_on(s: Seq<ElementView>, output: OutputId) -> Seq<ElementView> {
    s.filter(|e: ElementView| e.main_output == Some(output))
}

/// The elements at their place as seen from `origin`.
pub open spec fn seen_from(s: Seq<ElementView>, origin: Point) -> Seq<ElementView> {
    s.map_values(|e: ElementView| e.at(e.location.minus(origin)))
}

/// The part of a workspace that goes to an output, under a new handle.
pub open spec fn split_space(
    w: WorkspaceView,
    output: OutputId,
    handle: WorkspaceHandle,
) -> WorkspaceView {
    WorkspaceView {
        tiling_layer: elements_on(w.tiling_layer, output),
        floating_layer: seen_from(elements_on(w.floating_layer, output), w.outputs[output]),
        tiling_enabled: w.tiling_enabled,
        fullscreen: w.fullscreen.restrict(set![output]),
        outputs: Map::empty().insert(output, Point::zero()),
        needs_refresh: true,
        ..new_workspace(handle)
    }
}

/// Whether a workspace knows where an output lies, if it has floating elements on it.
pub open spec fn can_split(w: WorkspaceView, output: OutputId) -> bool {
    (exists|i: int|
        0 <= i < w.floating_layer.len() && (#[trigger] w.floating_layer[i]).main_output == Some(
            output,
        )) ==> w.outputs.dom().contains(output)
}

/// Whether a workspace knows where each output lies that it has floating elements on.
pub open spec fn can_split_all(w: WorkspaceView, outputs: Seq<Output>) -> bool {
    forall|j: int| 0 <= j < outputs.len() ==> can_split(w, (#[trigger] outputs[j]).id)
}

impl SetsScene {
    /// The scene with an empty set for one more output, or for an output in place of its
    /// old set.
    pub open spec fn with_fresh_set(self, output: OutputId) -> SetsScene {
        let set = SetView { active: 0, group: self.state.next as u64, workspaces: Seq::empty() };
        SetsScene {
            sets: if has_key(self.sets, output) {
                self.sets.update(slot(self.sets, output), (output, set))
            } else {
                self.sets.push((output, set))
            },
            state: self.state.with_new_group(),
            ..self
        }
    }

    /// The scene with an empty set for each output.
    pub open spec fn with_fresh_sets(self, outputs: Seq<Output>) -> SetsScene
        decreases outputs.len(),
    {
        if outputs.len() == 0 {
            self
        } else {
            self.with_fresh_sets(outputs.drop_last()).with_fresh_set(outputs.last().id)
        }
    }

    /// The scene with the part of a workspace at place `i` that goes to an output, at the
    /// end of that output's set. All windows of the workspace leave it, and those of the
    /// part enter the part.
    pub open spec fn with_part(
        self,
        w: WorkspaceView,
        i: int,
        active: int,
        output: OutputId,
    ) -> SetsScene {
        let k = slot(self.sets, output);
        let set = self.sets[k].1;
        let part = split_space(w, output, self.state.next as u64);
        SetsScene {
            sets: self.sets.update(
                k,
                (output, SetView { active, workspaces: set.workspaces.push(part), ..set }),
            ),
            state: self.state.with_new_workspace(started_entry(set.group, i as u8, false)),
            toplevels: self.toplevels.left(w.windows(), w.handle).entered(
                part.windows(),
                part.handle,
            ),
        }
    }

    /// The scene with all parts of a workspace, output by output.
    pub open spec fn with_parts(
        self,
        w: WorkspaceView,
        i: int,
        active: int,
        outputs: Seq<Output>,
    ) -> SetsScene
        decreases outputs.len(),
    {
        if outputs.len() == 0 {
            self
        } else {
            self.with_parts(w, i, active, outputs.drop_last()).with_part(
                w,
                i,
                active,
                outputs.last().id,
            )
        }
    }

    /// The scene with the first `n` workspaces of a set split apart and withdrawn, one after
    /// the other.
    pub open spec fn with_spaces(self, set: SetView, outputs: Seq<Output>, n: int) -> SetsScene
        decreases n,
    {
        if n <= 0 {
            self
        } else {
            let w = set.workspaces[n - 1];
            let after = self.with_spaces(set, outputs, n - 1).with_parts(
                w,
                n - 1,
                set.active,
                outputs,
            );
            SetsScene { state: after.state.without_workspaces(set![w.handle]), ..after }
        }
    }

    /// The scene with a whole set split apart and withdrawn.
    pub open spec fn with_set_split(self, set: SetView, outputs: Seq<Output>) -> SetsScene {
        let after = self.with_fresh_sets(outputs).with_spaces(
            set,
            outputs,
            set.workspaces.len() as int,
        );
        SetsScene { state: after.state.without_groups(set![set.group]), ..after }
    }

    /// Clients know all sets, none of which has a handle below `bound`.
    pub open spec fn fresh_from(self, bound: int) -> bool {
        &&& self.registered()
        &&& self.state.wf()
        &&& bound <= self.state.next
        &&& forall|i: int| 0 <= i < self.sets.len() ==> bound <= (#[trigger] self.sets[i]).1.group
        &&& forall|i: int, k: int|
            0 <= i < self.sets.len() && 0 <= k < self.sets[i].1.workspaces.len() ==> bound <= (
            #[trigger] self.sets[i].1.workspaces[k]).handle
    }

    /// Each output has a set.
    pub open spec fn has_sets(self, outputs: Seq<Output>) -> bool {
        forall|j: int| 0 <= j < outputs.len() ==> has_key(self.sets, (#[trigger] outputs[j]).id)
    }
}

/// A fresh set for an output disturbs no other set.
proof fn lemma_fresh_set(scene: SetsScene, output: OutputId, bound: int)
    requires
        scene.fresh_from(bound),
        scene.state.next < u64::MAX,
    ensures
        scene.with_fresh_set(output).fresh_from(bound),
        has_key(scene.with_fresh_set(output).sets, output),
        forall|k: u64| has_key(scene.sets, k) ==> #[trigger] has_key(
            scene.with_fresh_set(output).sets,
            k,
        ),
{
    let after = scene.with_fresh_set(output);
    let sets = scene.sets;
    lemma_slot(sets, output);
    let at = if has_key(sets, output) {
        slot(sets, output)
    } else {
        sets.len() as int
    };
    assert(after.sets[at].0 == output);
    assert forall|i: int| 0 <= i < after.sets.len() && i != at implies #[trigger] after.sets[i]
        == sets[i] by {}
    assert forall|k: u64| has_key(sets, k) implies #[trigger] has_key(after.sets, k) by {
        let i = choose|i: int| 0 <= i < sets.len() && (#[trigger] sets[i]).0 == k;
        assert(after.sets[i].0 == k);
    }
    assert forall|i: int| 0 <= i < after.sets.len() implies (#[trigger] after.sets[i]).1.registered(
        after.state,
    ) by {
        if i != at {
            assert(sets[i].1.registered(scene.state));
        }
    }
    assert forall|i: int, j: int| 0 <= i < j < after.sets.len() implies (
    #[trigger] after.sets[i]).0 != (#[trigger] after.sets[j]).0 && after.sets[i].1.group
        != after.sets[j].1.group by {
        if i != at {
            assert(sets[i].1.registered(scene.state));
        }
        if j != at {
            assert(sets[j].1.registered(scene.state));
        }
        if i != at && j != at {
            assert(sets[i].0 != sets[j].0);
            assert(sets[i].1.group != sets[j].1.group);
        }
        if has_key(sets, output) {
            assert(sets[i].0 != sets[j].0);
        }
    }
}

/// Fresh sets for outputs are there, one for each.
pub proof fn lemma_fresh_sets(scene: SetsScene, outputs: Seq<Output>, bound: int)
    requires
        scene.fresh_from(bound),
        scene.state.next + outputs.len() <= u64::MAX,
    ensures
        scene.with_fresh_sets(outputs).fresh_from(bound),
        scene.with_fresh_sets(outputs).has_sets(outputs),
        scene.with_fresh_sets(outputs).state.next == scene.state.next + outputs.len(),
    decreases outputs.len(),
{
    if outputs.len() > 0 {
        let before = outputs.drop_last();
        let mid = scene.with_fresh_sets(before);
        let after = scene.with_fresh_sets(outputs);
        lemma_fresh_sets(scene, before, bound);
        lemma_fresh_set(mid, outputs.last().id, bound);
        assert forall|j: int| 0 <= j < outputs.len() implies has_key(
            after.sets,
            (#[trigger] outputs[j]).id,
        ) by {
            if j < before.len() {
                assert(before[j] == outputs[j]);
                assert(has_key(mid.sets, before[j].id));
            }
        }
    }
}

/// One more part disturbs no set.
proof fn lemma_part(
    scene: SetsScene,
    w: WorkspaceView,
    i: int,
    active: int,
    output: OutputId,
    bound: int,
)
    requires
        scene.fresh_from(bound),
        has_key(scene.sets, output),
        scene.state.next < u64::MAX,
    ensures
        scene.with_part(w, i, active, output).fresh_from(bound),
        scene.with_part(w, i, active, output).sets.len() == scene.sets.len(),
        forall|q: int|
            0 <= q < scene.sets.len() ==> (#[trigger] scene.with_part(w, i, active, output).sets[q]).0
                == scene.sets[q].0,
        forall|k: u64| has_key(scene.sets, k) ==> #[trigger] has_key(
            scene.with_part(w, i, active, output).sets,
            k,
        ),
{
    let after = scene.with_part(w, i, active, output);
    let sets = scene.sets;
    lemma_slot(sets, output);
    let at = slot(sets, output);
    let set = sets[at].1;
    let grown = after.sets[at].1;
    assert forall|q: int| 0 <= q < sets.len() implies (#[trigger] after.sets[q]).0 == sets[q].0
        && after.sets[q].1.group == sets[q].1.group by {}
    assert forall|k: u64| has_key(sets, k) implies #[trigger] has_key(after.sets, k) by {
        let q = choose|q: int| 0 <= q < sets.len() && (#[trigger] sets[q]).0 == k;
        assert(after.sets[q].0 == k);
    }
    assert(set.registered(scene.state));
    let n = set.workspaces.len() as int;
    assert forall|q: int| 0 <= q < after.sets.len() implies (#[trigger] after.sets[q]).1.registered(
        after.state,
    ) by {
        assert(sets[q].1.registered(scene.state));
        let s = after.sets[q].1;
        assert forall|k: int| 0 <= k < s.workspaces.len() implies after.state.workspaces.dom().contains(
            (#[trigger] s.workspaces[k]).handle,
        ) && after.state.workspaces[s.workspaces[k].handle].group == s.group by {
            if k < sets[q].1.workspaces.len() {
                assert(s.workspaces[k] == sets[q].1.workspaces[k]);
                assert(scene.state.workspaces.dom().contains(sets[q].1.workspaces[k].handle));
            }
        }
        assert forall|k: int, l: int| 0 <= k < l < s.workspaces.len() implies (
        #[trigger] s.workspaces[k]).handle != (#[trigger] s.workspaces[l]).handle by {
            assert(s.workspaces[k] == sets[q].1.workspaces[k]);
            assert(scene.state.workspaces.dom().contains(sets[q].1.workspaces[k].handle));
            if l < sets[q].1.workspaces.len() {
                assert(s.workspaces[l] == sets[q].1.workspaces[l]);
            }
        }
    }
    assert forall|p: int, q: int| 0 <= p < q < after.sets.len() implies (
    #[trigger] after.sets[p]).0 != (#[trigger] after.sets[q]).0 && after.sets[p].1.group
        != after.sets[q].1.group by {
        assert(sets[p].0 != sets[q].0);
        assert(sets[p].1.group != sets[q].1.group);
    }
    assert forall|p: int, k: int|
        0 <= p < after.sets.len() && 0 <= k < after.sets[p].1.workspaces.len() implies bound <= (
    #[trigger] after.sets[p].1.workspaces[k]).handle by {
        if k < sets[p].1.workspaces.len() {
            assert(after.sets[p].1.workspaces[k] == sets[p].1.workspaces[k]);
        }
    }
    assert forall|p: int| 0 <= p < after.sets.len() implies bound <= (
    #[trigger] after.sets[p]).1.group by {
        assert(bound <= sets[p].1.group);
    }
}

/// All parts of a workspace disturb no set.
pub proof fn lemma_parts(
    scene: SetsScene,
    w: WorkspaceView,
    i: int,
    active: int,
    outputs: Seq<Output>,
    bound: int,
)
    requires
        scene.fresh_from(bound),
        scene.has_sets(outputs),
        scene.state.next + outputs.len() <= u64::MAX,
    ensures
        scene.with_parts(w, i, active, outputs).fresh_from(bound),
        scene.with_parts(w, i, active, outputs).state.next == scene.state.next + outputs.len(),
        forall|k: u64| has_key(scene.sets, k) ==> #[trigger] has_key(
            scene.with_parts(w, i, active, outputs).sets,
            k,
        ),
    decreases outputs.len(),
{
    if outputs.len() > 0 {
        let before = outputs.drop_last();
        assert forall|j: int| 0 <= j < before.len() implies has_key(
            scene.sets,
            (#[trigger] before[j]).id,
        ) by {
            assert(before[j] == outputs[j]);
        }
        lemma_parts(scene, w, i, active, before, bound);
        let mid = scene.with_parts(w, i, active, before);
        assert(has_key(scene.sets, outputs[outputs.len() - 1].id));
        assert(has_key(mid.sets, outputs.last().id));
        lemma_part(mid, w, i, active, outputs.last().id, bound);
        let after = scene.with_parts(w, i, active, outputs);
        assert forall|k: u64| has_key(scene.sets, k) implies #[trigger] has_key(after.sets, k) by {
            assert(has_key(mid.sets, k));
        }
    }
}

/// Withdrawing a workspace that no set has disturbs no set.
proof fn lemma_withdrawn(scene: SetsScene, h: WorkspaceHandle, bound: int)
    requires
        scene.fresh_from(bound),
        h < bound,
    ensures
        (SetsScene { state: scene.state.without_workspaces(set![h]), ..scene }).fresh_from(bound),
{
    let after = SetsScene { state: scene.state.without_workspaces(set![h]), ..scene };
    assert forall|i: int| 0 <= i < after.sets.len() implies (#[trigger] after.sets[i]).1.registered(
        after.state,
    ) by {
        let s = scene.sets[i].1;
        assert(s.registered(scene.state));
        assert forall|k: int| 0 <= k < s.workspaces.len() implies after.state.workspaces.dom().contains(
            (#[trigger] s.workspaces[k]).handle,
        ) && after.state.workspaces[s.workspaces[k].handle].group == s.group by {
            assert(bound <= scene.sets[i].1.workspaces[k].handle);
            assert(scene.state.workspaces.dom().contains(s.workspaces[k].handle));
        }
    }
}

/// Splitting workspaces apart leaves all sets known to clients.
pub proof fn lemma_spaces(
    scene: SetsScene,
    set: SetView,
    outputs: Seq<Output>,
    n: int,
    bound: int,
)
    requires
        scene.fresh_from(bound),
        scene.has_sets(outputs),
        0 <= n <= set.workspaces.len(),
        scene.state.next + n * outputs.len() <= u64::MAX,
        forall|i: int| 0 <= i < n ==> (#[trigger] set.workspaces[i]).handle < bound,
    ensures
        scene.with_spaces(set, outputs, n).fresh_from(bound),
        scene.with_spaces(set, outputs, n).has_sets(outputs),
        scene.with_spaces(set, outputs, n).state.next == scene.state.next + n * outputs.len(),
    decreases n,
{
    if n > 0 {
        let m = outputs.len() as int;
        assert(n * m == (n - 1) * m + m) by (nonlinear_arith);
        lemma_spaces(scene, set, outputs, n - 1, bound);
        let mid = scene.with_spaces(set, outputs, n - 1);
        let w = set.workspaces[n - 1];
        lemma_parts(mid, w, n - 1, set.active, outputs, bound);
        let parts = mid.with_parts(w, n - 1, set.active, outputs);
        lemma_withdrawn(parts, w.handle, bound);
        assert forall|j: int| 0 <= j < outputs.len() implies has_key(
            parts.sets,
            (#[trigger] outputs[j]).id,
        ) by {
            assert(has_key(mid.sets, outputs[j].id));
        }
    } else {
        assert(n * outputs.len() == 0) by (nonlinear_arith)
            requires
                n == 0,
        ;
    }
}

/// Picks the elements that an output shows most of.
fn pick(layer: &Layer, output: OutputId) -> (r: Layer)
    ensures
        r@ == elements_on(layer@, output),
{
    let ghost p = |e: ElementView| e.main_output == Some(output);
    let mut r = Layer::new();
    let mut i: usize = 0;
    reveal(Seq::filter);
    while i < layer.elements.len()
        invariant
            i <= layer.elements.len(),
            p == (|e: ElementView| e.main_output == Some(output)),
            r@ == layer@.take(i as int).filter(p),
        decreases layer.elements.len() - i,
    {
        reveal(Seq::filter);
        let element: &Element = &layer.elements[i];
        proof {
            assert(layer@.take(i + 1).drop_last() =~= layer@.take(i as int));
            assert(layer@.take(i + 1).last() == element@);
        }
        let here = match element.main_output {
            Some(o) => o == output,
            None => false,
        };
        if here {
            r.map(element.duplicate());
        }
        i += 1;
    }
    assert(layer@.take(i as int) =~= layer@);
    r
}

/// Moves elements so that they lie as seen from `origin`.
fn shift(layer: &mut Layer, origin: Point)
    ensures
        final(layer)@ == seen_from(old(layer)@, origin),
{
    let ghost before = layer@;
    let mut i: usize = 0;
    while i < layer.elements.len()
        invariant
            i <= layer.elements.len(),
            layer.elements.len() == before.len(),
            forall|j: int|
                0 <= j < i ==> (#[trigger] layer.elements@[j])@ == before[j].at(
                    before[j].location.minus(origin),
                ),
            forall|j: int|
                i <= j < before.len() ==> (#[trigger] layer.elements@[j])@ == before[j],
        decreases layer.elements.len() - i,
    {
        let p: Point = layer.elements[i].location.relative_to(origin);
        layer.elements[i].location = p;
        assert(layer.elements@[i as int]@ =~= before[i as int].at(p));
        i += 1;
    }
    assert(layer@ =~= seen_from(before, origin));
}

/// Keeps only what fills one output.
fn fullscreen_on(fullscreen: &Table<WindowId>, output: OutputId) -> (r: Table<WindowId>)
    requires
        fullscreen.wf(),
    ensures
        r.wf(),
        r.map() == fullscreen.map().restrict(set![output]),
{
    let mut r: Table<WindowId> = Table::new();
    match fullscreen.get(output) {
        Some(window) => {
            r.insert(output, *window);
        },
        None => {},
    }
    assert(r.map() =~= fullscreen.map().restrict(set![output]));
    r
}

/// The part of a workspace that goes to an output.
fn split_workspace(
    workspace: &Workspace,
    output: OutputId,
    blank: Workspace,
) -> (part: Workspace)
    requires
        workspace.wf(),
        blank.wf(),
        blank@ == new_workspace(blank.handle),
        can_split(workspace@, output),
    ensures
        part.wf(),
        part@ == split_space(workspace@, output, blank.handle),
{
    let mut part = blank;
    part.tiling_layer = pick(&workspace.tiling_layer, output);
    let mut floating_layer = pick(&workspace.floating_layer, output);
    match workspace.outputs.get(output) {
        Some(origin) => {
            shift(&mut floating_layer, *origin);
        },
        None => {
            proof {
                let s = workspace@.floating_layer;
                let p = |e: ElementView| e.main_output == Some(output);
                let on = elements_on(s, output);
                if on.len() > 0 {
                    s.lemma_filter_pred(p, 0);
                    assert(on.contains(on[0]));
                    s.lemma_filter_contains_rev(p, on[0]);
                    let i = choose|i: int| 0 <= i < s.len() && s[i] == on[0];
                    assert(s[i].main_output == Some(output));
                }
                assert(floating_layer@ =~= seen_from(on, workspace@.outputs[output]));
            }
        },
    }
    part.floating_layer = floating_layer;
    part.tiling_enabled = workspace.tiling_enabled;
    part.fullscreen = fullscreen_on(&workspace.fullscreen, output);
    part.map_output(output, Point::origin());
    part.refresh();
    assert(part@ =~= split_space(workspace@, output, blank.handle));
    part
}

/// Starts an empty set for each output.
fn fresh_sets(outputs: &Vec<Output>, state: &mut WorkspaceState, t: Ghost<ToplevelView>) -> (sets:
    Table<WorkspaceSet>)
    requires
        old(state).wf(),
        old(state)@.next + outputs@.len() <= u64::MAX,
    ensures
        sets.wf(),
        forall|i: int| 0 <= i < sets.seq().len() ==> (#[trigger] sets.seq()[i]).1.wf(),
        final(state).wf(),
        (SetsScene { sets: sets_view(sets.seq()), state: final(state)@, toplevels: t@ }) == (
        SetsScene { sets: Seq::empty(), state: old(state)@, toplevels: t@ }).with_fresh_sets(
            outputs@,
        ),
{
    let ghost start = SetsScene { sets: Seq::empty(), state: state@, toplevels: t@ };
    let mut sets: Table<WorkspaceSet> = Table::new();
    let mut j: usize = 0;
    proof {
        assert(outputs@.take(0) =~= Seq::<Output>::empty());
        assert(SetsScene { sets: sets_view(sets.seq()), state: state@, toplevels: t@ } =~= start);
    }
    while j < outputs.len()
        invariant
            j <= outputs.len(),
            sets.wf(),
            forall|i: int| 0 <= i < sets.seq().len() ==> (#[trigger] sets.seq()[i]).1.wf(),
            state.wf(),
            start.state.next + outputs@.len() <= u64::MAX,
            state@.next == start.state.next + j,
            (SetsScene { sets: sets_view(sets.seq()), state: state@, toplevels: t@ })
                == start.with_fresh_sets(outputs@.take(j as int)),
        decreases outputs.len() - j,
    {
        let output: OutputId = outputs[j].id;
        let ghost entries = sets.seq();
        let ghost before = SetsScene { sets: sets_view(entries), state: state@, toplevels: t@ };
        let set = WorkspaceSet::new(state, WorkspaceAmount::Static(0));
        proof {
            assert(outputs@.take(j + 1).drop_last() =~= outputs@.take(j as int));
            lemma_sets_view(entries, output);
            lemma_sets_update(entries);
            lemma_slot(entries, output);
            assert(set@.workspaces =~= Seq::<WorkspaceView>::empty());
        }
        sets.insert(output, set);
        proof {
            if !has_key(entries, output) {
                assert(sets_view(sets.seq()) =~= sets_view(entries).push((output, set@)));
            }
            assert(state@ =~= before.state.with_new_group());
            assert(SetsScene { sets: sets_view(sets.seq()), state: state@, toplevels: t@ }
                =~= before.with_fresh_set(output));
        }
        j += 1;
    }
    assert(outputs@.take(j as int) =~= outputs@);
    sets
}

/// Adds the part of a workspace at place `i` that goes to an output to the output's set.
fn add_part(
    new_set: &mut WorkspaceSet,
    workspace: &Workspace,
    i: u8,
    active: usize,
    output: OutputId,
    state: &mut WorkspaceState,
    toplevel_info: &mut ToplevelInfoState,
)
    requires
        old(new_set).wf(),
        workspace.wf(),
        can_split(workspace@, output),
        old(state).wf(),
        old(state)@.groups.dom().contains(old(new_set)@.group),
        old(state)@.next < u64::MAX,
        i < 255,
    ensures
        final(new_set).wf(),
        final(state).wf(),
        ({
            let part = split_space(workspace@, output, old(state)@.next as u64);
            &&& final(new_set)@ == (SetView {
                active: active as int,
                workspaces: old(new_set)@.workspaces.push(part),
                ..old(new_set)@
            })
            &&& final(state)@ == old(state)@.with_new_workspace(
                started_entry(old(new_set)@.group, i, false),
            )
            &&& final(toplevel_info)@ == old(toplevel_info)@.left(
                workspace@.windows(),
                workspace@.handle,
            ).entered(part.windows(), part.handle)
        }),
{
    let ghost before = new_set@.workspaces;
    let blank = start_workspace(state, new_set.group, i, false);
    workspace.leave(toplevel_info, workspace.handle);
    let part = split_workspace(workspace, output, blank);
    part.enter(toplevel_info, part.handle);
    new_set.workspaces.push(part);
    new_set.active = active;
    assert(new_set@.workspaces =~= before.push(part@));
}

/// Adds all parts of a workspace at place `i` to the sets of the outputs.
fn add_parts(
    sets: &mut Table<WorkspaceSet>,
    workspace: &Workspace,
    i: u8,
    active: usize,
    outputs: &Vec<Output>,
    state: &mut WorkspaceState,
    toplevel_info: &mut ToplevelInfoState,
)
    requires
        old(sets).wf(),
        forall|q: int| 0 <= q < old(sets).seq().len() ==> (#[trigger] old(sets).seq()[q]).1.wf(),
        workspace.wf(),
        can_split_all(workspace@, outputs@),
        old(state).wf(),
        (SetsScene {
            sets: sets_view(old(sets).seq()),
            state: old(state)@,
            toplevels: old(toplevel_info)@,
        }).fresh_from(0),
        (SetsScene {
            sets: sets_view(old(sets).seq()),
            state: old(state)@,
            toplevels: old(toplevel_info)@,
        }).has_sets(outputs@),
        old(state)@.next + outputs@.len() <= u64::MAX,
        i < 255,
    ensures
        final(sets).wf(),
        forall|q: int|
            0 <= q < final(sets).seq().len() ==> (#[trigger] final(sets).seq()[q]).1.wf(),
        final(state).wf(),
        (SetsScene {
            sets: sets_view(final(sets).seq()),
            state: final(state)@,
            toplevels: final(toplevel_info)@,
        }) == (SetsScene {
            sets: sets_view(old(sets).seq()),
            state: old(state)@,
            toplevels: old(toplevel_info)@,
        }).with_parts(workspace@, i as int, active as int, outputs@),
{
    let ghost start = SetsScene {
        sets: sets_view(sets.seq()),
        state: state@,
        toplevels: toplevel_info@,
    };
    let ghost w = workspace@;
    let mut j: usize = 0;
    assert(outputs@.take(0) =~= Seq::<Output>::empty());
    while j < outputs.len()
        invariant
            j <= outputs.len(),
            sets.wf(),
            forall|q: int| 0 <= q < sets.seq().len() ==> (#[trigger] sets.seq()[q]).1.wf(),
            workspace.wf(),
            w == workspace@,
            can_split_all(w, outputs@),
            state.wf(),
            start.fresh_from(0),
            start.has_sets(outputs@),
            start.state.next + outputs@.len() <= u64::MAX,
            i < 255,
            (SetsScene { sets: sets_view(sets.seq()), state: state@, toplevels: toplevel_info@ })
                == start.with_parts(w, i as int, active as int, outputs@.take(j as int)),
        decreases outputs.len() - j,
    {
        let output: OutputId = outputs[j].id;
        let ghost entries = sets.seq();
        let ghost before = SetsScene {
            sets: sets_view(entries),
            state: state@,
            toplevels: toplevel_info@,
        };
        let ghost done = outputs@.take(j as int);
        proof {
            assert(outputs@.take(j + 1).drop_last() =~= done);
            assert(has_key(start.sets, outputs@[j as int].id));
            assert forall|q: int| 0 <= q < done.len() implies has_key(
                start.sets,
                (#[trigger] done[q]).id,
            ) by {
                assert(done[q] == outputs@[q]);
            }
            lemma_parts(start, w, i as int, active as int, done, 0);
            assert(has_key(before.sets, output));
            lemma_sets_view(entries, output);
            lemma_sets_update(entries);
            lemma_slot(entries, output);
            assert(before.sets[slot(entries, output)].1.registered(before.state));
            assert(can_split(w, outputs@[j as int].id));
            assert(entries[slot(entries, output)].1.wf());
        }
        match sets.get_mut(output) {
            Some(new_set) => {
                add_part(new_set, workspace, i, active, output, state, toplevel_info);
            },
            None => {},
        }
        proof {
            assert(SetsScene {
                sets: sets_view(sets.seq()),
                state: state@,
                toplevels: toplevel_info@,
            } =~= before.with_part(w, i as int, active as int, output));
        }
        j += 1;
    }
    assert(outputs@.take(j as int) =~= outputs@);
}

/// Splits the set that all outputs share into a set for each of them.
pub fn split_set(
    set: &WorkspaceSet,
    outputs: &Vec<Output>,
    state: &mut WorkspaceState,
    toplevel_info: &mut ToplevelInfoState,
) -> (sets: Table<WorkspaceSet>)
    requires
        set.wf(),
        old(state).wf(),
        set@.registered(old(state)@),
        forall|i: int|
            0 <= i < set@.workspaces.len() ==> can_split_all(
                #[trigger] set@.workspaces[i],
                outputs@,
            ),
        outputs@.len() > 0 ==> set@.workspaces.len() <= 255,
        old(state)@.next + outputs@.len() + set@.workspaces.len() * outputs@.len() <= u64::MAX,
    ensures
        sets.wf(),
        forall|i: int| 0 <= i < sets.seq().len() ==> (#[trigger] sets.seq()[i]).1.wf(),
        final(state).wf(),
        (SetsScene {
            sets: sets_view(sets.seq()),
            state: final(state)@,
            toplevels: final(toplevel_info)@,
        }) == (SetsScene {
            sets: Seq::empty(),
            state: old(state)@,
            toplevels: old(toplevel_info)@,
        }).with_set_split(set@, outputs@),
{
    let ghost nothing = SetsScene {
        sets: Seq::empty(),
        state: state@,
        toplevels: toplevel_info@,
    };
    let ghost bound = state@.next;
    let ghost v = set@;
    let ghost m = outputs@.len() as int;
    let n: usize = set.workspaces.len();
    assert(n == v.workspaces.len());
    proof {
        assert(n * m >= 0) by (nonlinear_arith)
            requires
                n >= 0,
                m >= 0,
        ;
        lemma_fresh_sets(nothing, outputs@, bound);
    }
    let mut sets = fresh_sets(outputs, state, Ghost(toplevel_info@));
    let ghost start = SetsScene {
        sets: sets_view(sets.seq()),
        state: state@,
        toplevels: toplevel_info@,
    };
    proof {
        assert forall|i: int| 0 <= i < n implies (#[trigger] v.workspaces[i]).handle < bound by {
            assert(nothing.state.workspaces.dom().contains(v.workspaces[i].handle));
        }
    }
    let mut i: usize = 0;
    while i < n
        invariant
            i <= n,
            n == v.workspaces.len(),
            n == set.workspaces.len(),
            v == set@,
            set.wf(),
            m == outputs@.len(),
            m > 0 ==> n <= 255,
            sets.wf(),
            forall|q: int| 0 <= q < sets.seq().len() ==> (#[trigger] sets.seq()[q]).1.wf(),
            state.wf(),
            forall|q: int|
                0 <= q < v.workspaces.len() ==> can_split_all(
                    #[trigger] v.workspaces[q],
                    outputs@,
                ),
            forall|q: int| 0 <= q < n ==> (#[trigger] v.workspaces[q]).handle < bound,
            start.fresh_from(bound),
            start.has_sets(outputs@),
            0 <= bound,
            start.state.next + n * m <= u64::MAX,
            (SetsScene { sets: sets_view(sets.seq()), state: state@, toplevels: toplevel_info@ })
                == start.with_spaces(v, outputs@, i as int),
        decreases n - i,
    {
        let workspace: &Workspace = &set.workspaces[i];
        let ghost before = SetsScene {
            sets: sets_view(sets.seq()),
            state: state@,
            toplevels: toplevel_info@,
        };
        proof {
            assert(workspace@ == v.workspaces[i as int]);
            assert(i * m + m <= n * m) by (nonlinear_arith)
                requires
                    i + 1 <= n,
                    m >= 0,
            ;
            lemma_spaces(start, v, outputs@, i as int, bound);
            lemma_lower_bound(before, bound);
        }
        if outputs.len() > 0 {
            add_parts(
                &mut sets,
                workspace,
                i as u8,
                set.active,
                outputs,
                state,
                toplevel_info,
            );
        }
        state.remove_workspace(workspace.handle);
        i += 1;
    }
    state.remove_workspace_group(set.group);
    sets
}

/// A lower bound is a bound.
proof fn lemma_lower_bound(scene: SetsScene, bound: int)
    requires
        scene.fresh_from(bound),
        0 <= bound,
    ensures
        scene.fresh_from(0),
{
}

/// Once a set is split apart, clients know all sets, and each output has one.
pub proof fn lemma_set_split(scene: SetsScene, set: SetView, outputs: Seq<Output>)
    requires
        scene.sets.len() == 0,
        scene.state.wf(),
        set.registered(scene.state),
        scene.state.next + outputs.len() + set.workspaces.len() * outputs.len() <= u64::MAX,
    ensures
        scene.with_set_split(set, outputs).registered(),
        scene.with_set_split(set, outputs).state.wf(),
        scene.with_set_split(set, outputs).has_sets(outputs),
{
    let bound = scene.state.next;
    let n = set.workspaces.len() as int;
    let m = outputs.len() as int;
    assert(n * m >= 0) by (nonlinear_arith)
        requires
            n >= 0,
            m >= 0,
    ;
    lemma_fresh_sets(scene, outputs, bound);
    assert forall|i: int| 0 <= i < n implies (#[trigger] set.workspaces[i]).handle < bound by {
        assert(scene.state.workspaces.dom().contains(set.workspaces[i].handle));
    }
    let start = scene.with_fresh_sets(outputs);
    lemma_spaces(start, set, outputs, n, bound);
    let done = start.with_spaces(set, outputs, n);
    let after = scene.with_set_split(set, outputs);
    assert forall|i: int| 0 <= i < after.sets.len() implies (#[trigger] after.sets[i]).1.registered(
        after.state,
    ) by {
        assert(done.sets[i].1.registered(done.state));
        assert(bound <= done.sets[i].1.group);
    }
}

/// No two outputs have the same name.
pub open spec fn outputs_distinct(outputs: Seq<Output>) -> bool {
    forall|i: int, j: int|
        0 <= i < j < outputs.len() ==> (#[trigger] outputs[i]).id != (#[trigger] outputs[j]).id
}

/// Whether a workspace is the part of `w` that goes to an output.
pub open spec fn is_part(part: WorkspaceView, w: WorkspaceView, output: OutputId) -> bool {
    part == split_space(w, output, part.handle)
}

/// Whether a set consists of the parts of the first `n` workspaces of another one that go to
/// an output, in order.
pub open spec fn parts_in(s: SetView, set: SetView, output: OutputId, n: int) -> bool {
    &&& s.workspaces.len() == n
    &&& n > 0 ==> s.active == set.active
    &&& forall|i: int|
        0 <= i < n ==> is_part(#[trigger] s.workspaces[i], set.workspaces[i], output)
}

impl SetsScene {
    /// Each output has a set of its parts of the first `n` workspaces, and of one more where
    /// the output is among the first `k`.
    spec fn split_so_far(self, set: SetView, outputs: Seq<Output>, n: int, k: int) -> bool {
        &&& self.sets.len() == outputs.len()
        &&& forall|j: int|
            0 <= j < outputs.len() ==> (#[trigger] self.sets[j]).0 == outputs[j].id && parts_in(
                self.sets[j].1,
                set,
                outputs[j].id,
                if j < k {
                    n + 1
                } else {
                    n
                },
            )
    }
}

proof fn lemma_fresh_split(scene: SetsScene, set: SetView, outputs: Seq<Output>)
    requires
        scene.sets.len() == 0,
        outputs_distinct(outputs),
    ensures
        scene.with_fresh_sets(outputs).split_so_far(set, outputs, 0, 0),
    decreases outputs.len(),
{
    if outputs.len() > 0 {
        let before = outputs.drop_last();
        assert forall|i: int, j: int| 0 <= i < j < before.len() implies (#[trigger] before[i]).id != (
        #[trigger] before[j]).id by {
            assert(before[i] == outputs[i] && before[j] == outputs[j]);
        }
        lemma_fresh_split(scene, set, before);
        let mid = scene.with_fresh_sets(before);
        let id = outputs.last().id;
        assert(!has_key(mid.sets, id)) by {
            if has_key(mid.sets, id) {
                let j = choose|j: int| 0 <= j < mid.sets.len() && (#[trigger] mid.sets[j]).0 == id;
                assert(outputs[j].id == before[j].id);
                assert(outputs[j].id != outputs[outputs.len() - 1].id);
            }
        }
        let after = scene.with_fresh_sets(outputs);
        assert forall|j: int| 0 <= j < outputs.len() implies (#[trigger] after.sets[j]).0
            == outputs[j].id && parts_in(after.sets[j].1, set, outputs[j].id, 0) by {
            if j < before.len() {
                assert(after.sets[j] == mid.sets[j]);
                assert(before[j] == outputs[j]);
            }
        }
    }
}

proof fn lemma_parts_split(scene: SetsScene, set: SetView, outputs: Seq<Output>, n: int, k: int)
    requires
        scene.split_so_far(set, outputs, n, 0),
        outputs_distinct(outputs),
        0 <= n < set.workspaces.len(),
        0 <= k <= outputs.len(),
    ensures
        scene.with_parts(set.workspaces[n], n, set.active, outputs.take(k)).split_so_far(
            set,
            outputs,
            n,
            k,
        ),
    decreases k,
{
    let w = set.workspaces[n];
    if k > 0 {
        lemma_parts_split(scene, set, outputs, n, k - 1);
        assert(outputs.take(k).drop_last() =~= outputs.take(k - 1));
        let mid = scene.with_parts(w, n, set.active, outputs.take(k - 1));
        let after = scene.with_parts(w, n, set.active, outputs.take(k));
        let id = outputs[k - 1].id;
        assert(keys_distinct(mid.sets)) by {
            assert forall|i: int, j: int| 0 <= i < j < mid.sets.len() implies (
            #[trigger] mid.sets[i]).0 != (#[trigger] mid.sets[j]).0 by {
                assert(outputs[i].id != outputs[j].id);
            }
        }
        lemma_slot_at(mid.sets, k - 1);
        assert(mid.sets[k - 1].0 == id);
        assert(slot(mid.sets, id) == k - 1);
        assert forall|j: int| 0 <= j < outputs.len() implies (#[trigger] after.sets[j]).0
            == outputs[j].id && parts_in(
            after.sets[j].1,
            set,
            outputs[j].id,
            if j < k {
                n + 1
            } else {
                n
            },
        ) by {
            assert(mid.sets[j].0 == outputs[j].id);
            if j == k - 1 {
                let s = mid.sets[j].1;
                let t = after.sets[j].1;
                assert forall|i: int| 0 <= i < n + 1 implies is_part(
                    #[trigger] t.workspaces[i],
                    set.workspaces[i],
                    id,
                ) by {
                    if i < n {
                        assert(t.workspaces[i] == s.workspaces[i]);
                    }
                }
            } else {
                assert(after.sets[j] == mid.sets[j]);
            }
        }
    } else {
        assert(outputs.take(0) =~= Seq::<Output>::empty());
    }
}

proof fn lemma_spaces_split(scene: SetsScene, set: SetView, outputs: Seq<Output>, n: int)
    requires
        scene.split_so_far(set, outputs, 0, 0),
        outputs_distinct(outputs),
        0 <= n <= set.workspaces.len(),
    ensures
        scene.with_spaces(set, outputs, n).split_so_far(set, outputs, n, 0),
    decreases n,
{
    if n > 0 {
        lemma_spaces_split(scene, set, outputs, n - 1);
        let mid = scene.with_spaces(set, outputs, n - 1);
        let m = outputs.len() as int;
        lemma_parts_split(mid, set, outputs, n - 1, m);
        assert(outputs.take(m) =~= outputs);
        let after = scene.with_spaces(set, outputs, n);
        let parts = mid.with_parts(set.workspaces[n - 1], n - 1, set.active, outputs);
        assert forall|j: int| 0 <= j < outputs.len() implies (#[trigger] after.sets[j]).0
            == outputs[j].id && parts_in(after.sets[j].1, set, outputs[j].id, n) by {
            assert(parts.sets[j].0 == outputs[j].id);
        }
    }
}

/// Splitting a set gives each output a set of its own, with its parts of the workspaces in
/// their order. The active place stays.
pub proof fn law_split_parts(scene: SetsScene, set: SetView, outputs: Seq<Output>, j: int)
    requires
        scene.sets.len() == 0,
        outputs_distinct(outputs),
        0 <= j < outputs.len(),
    ensures
        scene.with_set_split(set, outputs).sets.len() == outputs.len(),
        scene.with_set_split(set, outputs).sets[j].0 == outputs[j].id,
        parts_in(
            scene.with_set_split(set, outputs).sets[j].1,
            set,
            outputs[j].id,
            set.workspaces.len() as int,
        ),
{
    lemma_fresh_split(scene, set, outputs);
    lemma_spaces_split(
        scene.with_fresh_sets(outputs),
        set,
        outputs,
        set.workspaces.len() as int,
    );
    let after = scene.with_set_split(set, outputs);
    assert(after.sets[j].0 == outputs[j].id);
}

/// The part of a workspace that goes to an output has exactly those elements that the output
/// showed most of, on the same kind of layer. Those that float lie at the same place as seen
/// from the output.
pub proof fn law_part_elements(
    w: WorkspaceView,
    output: OutputId,
    handle: WorkspaceHandle,
    e: ElementView,
)
    ensures
        ({
            let part = split_space(w, output, handle);
            let moved = e.at(e.location.minus(w.outputs[output]));
            &&& part.tiling_layer.contains(e) <==> w.tiling_layer.contains(e) && e.main_output
                == Some(output)
            &&& w.floating_layer.contains(e) && e.main_output == Some(output)
                ==> part.floating_layer.contains(moved)
            &&& moved.location.minus(part.outputs[output]) == e.location.minus(w.outputs[output])
            &&& part.floating_layer.len() == elements_on(w.floating_layer, output).len()
        }),
{
    let part = split_space(w, output, handle);
    let p = |x: ElementView| x.main_output == Some(output);
    let tiled = w.tiling_layer;
    let floating = w.floating_layer;
    if part.tiling_layer.contains(e) {
        tiled.lemma_filter_contains_rev(p, e);
        let i = choose|i: int| 0 <= i < part.tiling_layer.len() && part.tiling_layer[i] == e;
        tiled.lemma_filter_pred(p, i);
    }
    if tiled.contains(e) && e.main_output == Some(output) {
        let i = choose|i: int| 0 <= i < tiled.len() && tiled[i] == e;
        tiled.lemma_filter_contains(p, i);
    }
    if floating.contains(e) && e.main_output == Some(output) {
        let i = choose|i: int| 0 <= i < floating.len() && floating[i] == e;
        floating.lemma_filter_contains(p, i);
        let on = elements_on(floating, output);
        let k = choose|k: int| 0 <= k < on.len() && on[k] == e;
        assert(part.floating_layer[k] == e.at(e.location.minus(w.outputs[output])));
    }
}

} // verus!
