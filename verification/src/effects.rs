//! What the operations on outputs do to the shell: to the sets of the outputs, to the workspaces
//! in them and to what clients are told.
use crate::changes::{
    law_set_activated, law_set_can_refresh, law_set_refresh_active, law_set_refresh_dynamic_active,
    same_but_active,
};
use crate::contents::{lemma_same_slots, lemma_sets_refresh_each, lemma_sets_refresh_len};
use crate::fields::{
    law_started_entry, law_with_started, law_workspace_outputs, numeral, same_but_layout,
    same_elements, same_settings,
};
use crate::geometry::Point;
use crate::hotplug::{
    lemma_handed_over_keeps_wf, lemma_keys_left, lemma_other_outputs, moved_spaces, place_of,
    places_numbered,
};
use crate::mode::{all_spaces, ModeView};
use crate::output::Output;
use crate::possible::lemma_first_other;
use crate::protocol::{OutputId, StateView, WorkspaceGroupHandle, WorkspaceHandle};
use crate::scene::SetsScene;
use crate::set::{handles, SetScene, SetView, WorkspaceAmount};
use crate::shell::ShellView;
use crate::table::{has_key, keys_distinct, lemma_slot, lemma_slot_at, lemma_update, slot};
use crate::workspace::WorkspaceView;
use vstd::prelude::*;

verus! {

/// Whether two shells agree in their settings and in what waits to be mapped.
pub open spec fn same_waiting(a: ShellView, b: ShellView) -> bool {
    &&& a.workspace_amount == b.workspace_amount
    &&& a.floating_default == b.floating_default
    &&& a.pending_windows == b.pending_windows
    &&& a.pending_layers == b.pending_layers
}

/// An output has the set that goes by its name. Shared workspaces are every output's.
pub proof fn law_set_for(mode: ModeView, output: OutputId, i: int)
    ensures
        match mode {
            ModeView::Global(set) => mode.set_for(output) == Some(set),
            ModeView::OutputBound(sets) => {
                &&& keys_distinct(sets) && 0 <= i < sets.len() && sets[i].0 == output
                    ==> mode.set_for(output) == Some(sets[i].1)
                &&& mode.set_for(output) is None <==> forall|k: int|
                    0 <= k < sets.len() ==> (#[trigger] sets[k]).0 != output
            },
        },
        match mode.set_for(output) {
            Some(set) => mode.spaces_for(output) == set.workspaces,
            None => mode.spaces_for(output).len() == 0,
        },
        mode.has_active(output) <==> mode.set_for(output) is Some && 0 <= (mode.set_for(
            output,
        )->0).active < (mode.set_for(output)->0).workspaces.len(),
        mode.active_index(output) == (mode.set_for(output)->0).active,
        mode.active_space(output) == (mode.set_for(output)->0).workspaces[(mode.set_for(
            output,
        )->0).active],
{
    if let ModeView::OutputBound(sets) = mode {
        lemma_slot(sets, output);
        if keys_distinct(sets) && 0 <= i < sets.len() && sets[i].0 == output {
            lemma_slot_at(sets, i);
        }
    }
}

/// The workspaces of a set, by number.
pub proof fn law_space(mode: ModeView, num: int, output: OutputId, set: SetView)
    requires
        mode.set_for(output) == Some(set),
    ensures
        0 <= num < set.workspaces.len() ==> mode.space(num, output) == Some(set.workspaces[num]),
        !(0 <= num < set.workspaces.len()) ==> mode.space(num, output) is None,
{
}

/// Giving an output another set leaves those of the others alone.
pub proof fn law_with_set(mode: ModeView, output: OutputId, set: SetView, o: OutputId)
    requires
        mode.set_for(output) is Some,
    ensures
        ({
            let after = mode.with_set(output, set);
            &&& after.set_for(output) == Some(set)
            &&& mode is OutputBound && o != output ==> after.set_for(o) == mode.set_for(o)
            &&& mode is Global ==> after.set_for(o) == Some(set)
            &&& after is Global <==> mode is Global
        }),
{
    if let ModeView::OutputBound(sets) = mode {
        lemma_slot(sets, output);
        lemma_update(sets, slot(sets, output), set);
        lemma_slot(sets, o);
    }
}

/// Replacing a workspace leaves the others of its set alone, and the other sets.
pub proof fn law_with_space(
    mode: ModeView,
    num: int,
    output: OutputId,
    w: WorkspaceView,
    o: OutputId,
)
    requires
        mode.set_for(output) matches Some(set) && 0 <= num < set.workspaces.len(),
    ensures
        ({
            let before = mode.set_for(output)->0;
            let after = mode.with_space(num, output, w);
            &&& after.set_for(output) is Some
            &&& (after.set_for(output)->0).active == before.active
            &&& (after.set_for(output)->0).group == before.group
            &&& (after.set_for(output)->0).workspaces == before.workspaces.update(num, w)
            &&& mode is OutputBound && o != output ==> after.set_for(o) == mode.set_for(o)
        }),
{
    let set = mode.set_for(output)->0;
    law_with_set(mode, output, SetView { workspaces: set.workspaces.update(num, w), ..set }, o);
}

/// The workspaces of several sets are those of the first ones and then those of the last ones.
/// Those of one set are its own.
pub proof fn law_all_spaces(a: Seq<(OutputId, SetView)>, b: Seq<(OutputId, SetView)>, one: (
    OutputId,
    SetView,
))
    ensures
        all_spaces(a + b) == all_spaces(a) + all_spaces(b),
        all_spaces(seq![one]) == one.1.workspaces,
        ModeView::OutputBound(a).spaces() == all_spaces(a),
        ModeView::Global(one.1).spaces() == one.1.workspaces,
    decreases b.len(),
{
    let s = seq![one];
    assert(s.drop_last() =~= Seq::<(OutputId, SetView)>::empty());
    assert(all_spaces(s.drop_last()) =~= Seq::<WorkspaceView>::empty());
    assert(all_spaces(s) =~= one.1.workspaces);
    if b.len() == 0 {
        assert(a + b =~= a);
        assert(all_spaces(a + b) =~= all_spaces(a) + all_spaces(b));
    } else {
        law_all_spaces(a, b.drop_last(), one);
        assert((a + b).drop_last() =~= a + b.drop_last());
        assert((a + b).last() == b.last());
        assert(all_spaces(a + b) =~= all_spaces(a) + all_spaces(b));
    }
}

/// Activating a workspace changes which one of its output's set is active, and nothing else but
/// what is told of that.
pub proof fn law_shell_activated(
    shell: ShellView,
    output: OutputId,
    idx: int,
    o: OutputId,
    h: WorkspaceHandle,
)
    requires
        shell.wf(),
        shell.workspaces.has_active(output),
    ensures
        ({
            let set = shell.workspaces.set_for(output)->0;
            let after = shell.activated(output, idx);
            &&& same_waiting(after, shell)
            &&& after.outputs == shell.outputs
            &&& after.toplevels == shell.toplevels
            &&& after.state.groups == shell.state.groups
            &&& after.state.next == shell.state.next
            &&& same_but_active(after.state, shell.state, h)
            &&& after.workspaces.set_for(output) is Some
            &&& (after.workspaces.set_for(output)->0).workspaces == set.workspaces
            &&& (after.workspaces.set_for(output)->0).group == set.group
            &&& (after.workspaces.set_for(output)->0).active == (if 0 <= idx
                < set.workspaces.len() {
                idx
            } else {
                set.active
            })
            &&& shell.workspaces is OutputBound && o != output ==> after.workspaces.set_for(o)
                == shell.workspaces.set_for(o)
            &&& 0 <= idx < set.workspaces.len() && idx != set.active ==> {
                &&& after.state.workspaces[set.workspaces[idx].handle].active
                &&& !after.state.workspaces[set.workspaces[set.active].handle].active
            }
            &&& h != set.workspaces[idx].handle && h != set.workspaces[set.active].handle
                ==> after.state.workspaces[h].active == shell.state.workspaces[h].active
        }),
{
    let set = shell.workspaces.set_for(output)->0;
    if let ModeView::OutputBound(sets) = shell.workspaces {
        lemma_slot(sets, output);
        assert(sets[slot(sets, output)].1.registered(shell.state));
    }
    assert(set.registered(shell.state));
    law_set_activated(set, shell.state, idx, h);
    law_with_set(shell.workspaces, output, set.activated(idx), o);
}

/// Where nothing goes by the name of an output, activating does nothing.
pub proof fn law_shell_activated_nothing(shell: ShellView, output: OutputId, idx: int)
    requires
        shell.workspaces.set_for(output) is None,
    ensures
        shell.activated(output, idx) == shell,
{
}

/// Whether an entry is that of a workspace that just started at a place.
pub open spec fn entry_started(
    state: StateView,
    h: WorkspaceHandle,
    group: WorkspaceGroupHandle,
    place: int,
    active: bool,
) -> bool {
    let e = state.workspaces[h];
    &&& state.workspaces.dom().contains(h)
    &&& e.group == group
    &&& numeral(e.name) == place + 1
    &&& e.coordinates.0 matches Some(x) && x == place
    &&& e.coordinates.1 is None
    &&& e.coordinates.2 is None
    &&& e.can_activate
    &&& e.hidden
    &&& e.active == active
}

/// An output that is new where every output has its own workspaces gets a set of its own: one
/// workspace if the amount is dynamic, and else as many as there are to be, with the first one
/// active. They are shown on this output alone, at its origin.
pub proof fn law_add_new_output(shell: ShellView, output: Output, i: int)
    requires
        shell.wf(),
        shell.workspaces is OutputBound,
        shell.workspaces.set_for(output.id) is None,
        shell.state.next + 1 + shell.workspace_amount.initial() <= u64::MAX,
    ensures
        ({
            let after = shell.with_added(output);
            let set = after.workspaces.set_for(output.id)->0;
            let w = set.workspaces[i];
            &&& after.workspaces is OutputBound
            &&& after.workspaces.set_for(output.id) is Some
            &&& set.active == 0
            &&& set.group == shell.state.next
            &&& shell.workspace_amount is Dynamic ==> set.workspaces.len() == 1
            &&& shell.workspace_amount is Dynamic ==> after.workspaces.spaces_for(output.id).len()
                == 1
            &&& shell.workspace_amount matches WorkspaceAmount::Static(len)
                ==> set.workspaces.len() == len && after.workspaces.spaces_for(output.id).len()
                == len
            &&& after.workspaces.has_active(output.id) <==> shell.workspace_amount
                != WorkspaceAmount::Static(0)
            &&& after.workspaces.has_active(output.id) ==> after.workspaces.active_index(output.id)
                == 0 && after.workspaces.active_space(output.id).handle == shell.state.next + 1
            &&& 0 <= i < set.workspaces.len() ==> {
                &&& w.handle == shell.state.next + 1 + i
                &&& w.tiling_enabled
                &&& w.mapped().len() == 0
                &&& w.focus_stack.len() == 0
                &&& w.fullscreen == Map::<OutputId, u64>::empty()
                &&& w.outputs == Map::<OutputId, Point>::empty().insert(
                    output.id,
                    Point { x: 0, y: 0 },
                )
            }
        }),
{
    let sets = shell.workspaces->OutputBound_0;
    let after = shell.with_added(output);
    let all = after.workspaces->OutputBound_0;
    lemma_slot(sets, output.id);
    lemma_slot(all, output.id);
    let n = sets.len() as int;
    assert(all[n].0 == output.id);
    assert forall|k: int| 0 <= k < n implies (#[trigger] all[k]).0 != output.id by {
        assert(sets[k].0 != output.id);
    }
    assert(slot(all, output.id) == n);
}

/// What is told of an output that is new where every output has its own workspaces: a group
/// without outputs, and its workspaces, of which the first is active. Everything else stays.
pub proof fn law_add_new_output_rest(
    shell: ShellView,
    output: Output,
    o: OutputId,
    g: WorkspaceGroupHandle,
    h: WorkspaceHandle,
)
    requires
        shell.wf(),
        shell.workspaces is OutputBound,
        shell.workspaces.set_for(output.id) is None,
        shell.state.next + 1 + shell.workspace_amount.initial() <= u64::MAX,
    ensures
        ({
            let after = shell.with_added(output);
            let n = if let WorkspaceAmount::Static(len) = shell.workspace_amount {
                len as int
            } else {
                1
            };
            let next = shell.state.next;
            let new = next + 1 <= h < next + 1 + n;
            &&& same_waiting(after, shell)
            &&& after.outputs == shell.outputs.push(output)
            &&& after.toplevels == shell.toplevels
            &&& o != output.id ==> after.workspaces.set_for(o) == shell.workspaces.set_for(o)
            &&& after.state.next == next + 1 + n
            &&& after.state.groups.dom().contains(g) <==> shell.state.groups.dom().contains(g) || g
                == next
            &&& g == next ==> after.state.groups[g] == Set::<OutputId>::empty()
            &&& g != next ==> after.state.groups[g] == shell.state.groups[g]
            &&& after.state.workspaces.dom().contains(h)
                <==> shell.state.workspaces.dom().contains(h) || new
            &&& shell.state.workspaces.dom().contains(h) ==> after.state.workspaces[h]
                == shell.state.workspaces[h]
            &&& new ==> entry_started(after.state, h, next as u64, 0, h == next + 1)
        }),
{
    let sets = shell.workspaces->OutputBound_0;
    let after = shell.with_added(output);
    let all = after.workspaces->OutputBound_0;
    let n = shell.workspace_amount.initial();
    let mid = shell.state.with_new_group();
    law_with_started(mid, shell.state.next as u64, n, true, h);
    if o != output.id {
        lemma_slot(sets, o);
        lemma_slot(all, o);
        let k = slot(sets, o);
        if k < sets.len() {
            assert(all[k].0 == o);
            if slot(all, o) < k {
                assert(sets[slot(all, o)].0 != o);
            }
        } else if slot(all, o) < sets.len() {
            assert(sets[slot(all, o)].0 == o);
        }
    }
}

/// An output whose set is there already is shown on that set's workspaces, at its origin.
/// Everything else stays.
pub proof fn law_add_known_output(shell: ShellView, output: Output, i: int, o: OutputId)
    requires
        shell.wf(),
        shell.workspaces is OutputBound,
        shell.workspaces.set_for(output.id) is Some,
    ensures
        ({
            let after = shell.with_added(output);
            let before = shell.workspaces.set_for(output.id)->0;
            let set = after.workspaces.set_for(output.id)->0;
            &&& same_waiting(after, shell)
            &&& after.outputs == shell.outputs.push(output)
            &&& after.toplevels == shell.toplevels
            &&& after.state == shell.state
            &&& after.workspaces is OutputBound
            &&& after.workspaces.set_for(output.id) is Some
            &&& o != output.id ==> after.workspaces.set_for(o) == shell.workspaces.set_for(o)
            &&& set.active == before.active
            &&& set.group == before.group
            &&& set.workspaces.len() == before.workspaces.len()
            &&& 0 <= i < set.workspaces.len() ==> {
                let w = set.workspaces[i];
                let v = before.workspaces[i];
                &&& w.handle == v.handle
                &&& same_elements(w, v)
                &&& same_settings(w, v)
                &&& w.needs_refresh == v.needs_refresh
                &&& w.outputs == v.outputs.insert(output.id, Point { x: 0, y: 0 })
            }
        }),
{
    let set = shell.workspaces.set_for(output.id)->0;
    law_with_set(shell.workspaces, output.id, set.with_output(output.id, Point::zero()), o);
}

/// An output that is added where all share their workspaces is shown on each of them, where it
/// lies, and belongs to their group. Everything else stays.
pub proof fn law_add_output_global(
    shell: ShellView,
    output: Output,
    i: int,
    g: WorkspaceGroupHandle,
    o: OutputId,
)
    requires
        shell.wf(),
        shell.workspaces is Global,
    ensures
        ({
            let after = shell.with_added(output);
            let before = shell.workspaces->Global_0;
            let set = after.workspaces->Global_0;
            &&& same_waiting(after, shell)
            &&& after.outputs == shell.outputs.push(output)
            &&& after.toplevels == shell.toplevels
            &&& after.workspaces is Global
            &&& set.active == before.active
            &&& set.group == before.group
            &&& set.workspaces.len() == before.workspaces.len()
            &&& 0 <= i < set.workspaces.len() ==> {
                let w = set.workspaces[i];
                let v = before.workspaces[i];
                &&& w.handle == v.handle
                &&& same_elements(w, v)
                &&& same_settings(w, v)
                &&& w.needs_refresh == v.needs_refresh
                &&& w.outputs == v.outputs.insert(output.id, output.geometry.loc)
            }
            &&& after.state.workspaces == shell.state.workspaces
            &&& after.state.next == shell.state.next
            &&& after.state.groups.dom() == shell.state.groups.dom()
            &&& g != before.group ==> after.state.groups[g] == shell.state.groups[g]
            &&& after.state.groups[before.group].contains(o)
                <==> shell.state.groups[before.group].contains(o) || o == output.id
        }),
{
    assert(shell.state.groups.dom().contains((shell.workspaces->Global_0).group));
    assert(shell.with_added(output).state.groups.dom() =~= shell.state.groups.dom());
}

/// Placing the outputs again changes only where shared workspaces show them.
pub proof fn law_outputs_placed(shell: ShellView, i: int, o: OutputId)
    ensures
        ({
            let after = shell.with_outputs_placed();
            &&& same_waiting(after, shell)
            &&& after.outputs == shell.outputs
            &&& after.toplevels == shell.toplevels
            &&& after.state == shell.state
            &&& shell.workspaces is OutputBound ==> after.workspaces == shell.workspaces
            &&& shell.workspaces is Global ==> {
                let before = shell.workspaces->Global_0;
                let set = after.workspaces->Global_0;
                &&& after.workspaces is Global
                &&& set.active == before.active
                &&& set.group == before.group
                &&& set.workspaces.len() == before.workspaces.len()
                &&& 0 <= i < set.workspaces.len() ==> {
                    let w = set.workspaces[i];
                    let v = before.workspaces[i];
                    &&& w.handle == v.handle
                    &&& same_elements(w, v)
                    &&& same_settings(w, v)
                    &&& w.needs_refresh == v.needs_refresh
                    &&& w.outputs.dom().contains(o) <==> v.outputs.dom().contains(o)
                        || exists|j: int|
                        0 <= j < shell.outputs.len() && (#[trigger] shell.outputs[j]).id == o
                }
            }
        }),
{
    if shell.workspaces is Global {
        let before = shell.workspaces->Global_0;
        if 0 <= i < before.workspaces.len() {
            law_workspace_outputs(before.workspaces[i], shell.outputs, o);
        }
    }
}

/// The outputs other than one, in their order.
pub proof fn law_other_outputs(shell: ShellView, output: OutputId, o: Output)
    ensures
        shell.outputs.len() == 0 ==> shell.other_outputs(output).len() == 0,
        (ShellView { outputs: shell.outputs.push(o), ..shell }).other_outputs(output) == (if o.id
            == output {
            shell.other_outputs(output)
        } else {
            shell.other_outputs(output).push(o)
        }),
        shell.other_outputs(output).contains(o) <==> shell.outputs.contains(o) && o.id != output,
{
    broadcast use vstd::seq_lib::group_filter_ensures;

    reveal(Seq::filter);
    let p = |q: Output| q.id != output;
    assert(shell.outputs.push(o).drop_last() =~= shell.outputs);
    lemma_other_outputs(shell, output);
    if shell.outputs.contains(o) && o.id != output {
        let i = choose|i: int| 0 <= i < shell.outputs.len() && shell.outputs[i] == o;
        assert(p(shell.outputs[i]));
    }
}

/// When an output leaves its workspaces behind, every other output keeps its set with the same
/// position active, and the workspaces that were in it. Only the first of the others gets more.
pub proof fn law_handover(shell: ShellView, output: OutputId, f: int, o: OutputId)
    requires
        shell.wf(),
        shell.workspaces matches ModeView::OutputBound(sets) && has_key(sets, output),
        0 <= f < shell.outputs.len(),
        shell.outputs[f].id != output,
        forall|q: int| 0 <= q < f ==> (#[trigger] shell.outputs[q]).id == output,
        shell.can_release(output),
        o != output,
    ensures
        ({
            let after = shell.handed_over(output);
            let a = after.workspaces.set_for(o);
            let b = shell.workspaces.set_for(o);
            &&& shell.hands_over(output)
            &&& after.workspaces is OutputBound
            &&& after.workspaces.set_for(output) is None
            &&& a is Some <==> b is Some
            &&& o != shell.outputs[f].id ==> a == b
            &&& b is Some ==> {
                &&& (a->0).active == (b->0).active
                &&& (a->0).group == (b->0).group
                &&& (a->0).workspaces.len() == (b->0).workspaces.len() + (if o
                    == shell.outputs[f].id {
                    (shell.workspaces.set_for(output)->0).workspaces.len()
                } else {
                    0
                })
                &&& forall|i: int|
                    0 <= i < (b->0).workspaces.len() ==> (a->0).workspaces[i]
                        == #[trigger] (b->0).workspaces[i]
            }
            &&& shell.workspaces.has_active(o) ==> {
                &&& after.workspaces.has_active(o)
                &&& after.workspaces.active_index(o) == shell.workspaces.active_index(o)
                &&& after.workspaces.active_space(o) == shell.workspaces.active_space(o)
            }
        }),
{
    let sets = shell.workspaces->OutputBound_0;
    let left = sets.remove(slot(sets, output));
    let mid = shell.without_set(output);
    let to = shell.outputs[f].id;
    lemma_first_other(shell.outputs, output, f);
    assert(mid.outputs[0] == shell.outputs[f]);
    lemma_handed_over_keeps_wf(shell, output);
    lemma_slot(sets, output);
    lemma_slot(left, output);
    lemma_slot(sets, o);
    lemma_slot(left, o);
    let s = slot(sets, output);
    if has_key(sets, o) {
        lemma_keys_left(sets, output, o);
    } else if has_key(left, o) {
        let k = slot(left, o);
        if k < s {
            assert(sets[k].0 == o);
        } else {
            assert(sets[k + 1].0 == o);
        }
    }
    assert(mid.workspaces.set_for(o) == shell.workspaces.set_for(o));
    if has_key(left, output) {
        let k = slot(left, output);
        if k < s {
            assert(sets[k].0 == output);
            assert(sets[k].0 != sets[s].0);
        } else {
            assert(sets[k + 1].0 == output);
            assert(sets[s].0 != sets[k + 1].0);
        }
    }
    let target = mid.workspaces.set_for(to)->0;
    let moved = moved_spaces(
        (shell.workspaces.set_for(output)->0).workspaces,
        shell.state.next,
        output,
        to,
    );
    let grown = SetView { workspaces: target.workspaces + moved, ..target };
    law_with_set(mid.workspaces, to, grown, o);
    law_with_set(mid.workspaces, to, grown, output);
}

/// The workspaces that an output leaves behind come after those of the first other output, in
/// their order. They go by new handles and are shown there, at the origin, and are laid out
/// again; what is on them stays.
pub proof fn law_handover_moved(shell: ShellView, output: OutputId, f: int, k: int, o: OutputId)
    requires
        shell.wf(),
        shell.workspaces matches ModeView::OutputBound(sets) && has_key(sets, output),
        0 <= f < shell.outputs.len(),
        shell.outputs[f].id != output,
        forall|q: int| 0 <= q < f ==> (#[trigger] shell.outputs[q]).id == output,
        shell.can_release(output),
        0 <= k < (shell.workspaces.set_for(output)->0).workspaces.len(),
    ensures
        ({
            let to = shell.outputs[f].id;
            let after = shell.handed_over(output);
            let set = after.workspaces.set_for(to)->0;
            let before = (shell.workspaces.set_for(to)->0).workspaces;
            let v = (shell.workspaces.set_for(output)->0).workspaces[k];
            let w = set.workspaces[before.len() + k];
            &&& set.workspaces.len() == before.len() + (shell.workspaces.set_for(
                output,
            )->0).workspaces.len()
            &&& w.handle == shell.state.next + k
            &&& same_elements(w, v)
            &&& same_settings(w, v)
            &&& w.needs_refresh
            &&& w.outputs.dom().contains(o) <==> o != output && (v.outputs.dom().contains(o) || o
                == to)
            &&& w.outputs[to] == (Point { x: 0, y: 0 })
            &&& o != output && o != to && v.outputs.dom().contains(o) ==> w.outputs[o]
                == v.outputs[o]
            &&& entry_started(
                after.state,
                w.handle,
                set.group,
                (before.len() + k) % 256,
                false,
            )
        }),
{
    let mid = shell.without_set(output);
    let to = shell.outputs[f].id;
    lemma_first_other(shell.outputs, output, f);
    assert(mid.outputs[0] == shell.outputs[f]);
    assert(shell.hands_over(output));
    lemma_handed_over_keeps_wf(shell, output);
    let set = shell.workspaces.set_for(output)->0;
    let target = mid.workspaces.set_for(to)->0;
    let moved = moved_spaces(set.workspaces, shell.state.next, output, to);
    let grown = SetView { workspaces: target.workspaces + moved, ..target };
    law_with_set(mid.workspaces, to, grown, to);
    let len = target.workspaces.len() as int;
    assert(place_of(len, k) != 255);
    law_started_entry(target.group, ((len + k) % 256) as u8, false);
}

/// What is told when an output leaves its workspaces behind: they and their group are withdrawn
/// under their old handles. Everything else stays.
pub proof fn law_handover_rest(
    shell: ShellView,
    output: OutputId,
    f: int,
    g: WorkspaceGroupHandle,
    h: WorkspaceHandle,
)
    requires
        shell.wf(),
        shell.workspaces matches ModeView::OutputBound(sets) && has_key(sets, output),
        0 <= f < shell.outputs.len(),
        shell.outputs[f].id != output,
        forall|q: int| 0 <= q < f ==> (#[trigger] shell.outputs[q]).id == output,
        shell.can_release(output),
    ensures
        ({
            let after = shell.handed_over(output);
            let set = shell.workspaces.set_for(output)->0;
            let n = set.workspaces.len();
            let next = shell.state.next;
            let goes = exists|i: int| 0 <= i < n && (#[trigger] set.workspaces[i]).handle == h;
            let new = next <= h < next + n;
            &&& same_waiting(after, shell)
            &&& after.outputs == shell.other_outputs(output)
            &&& after.toplevels == shell.toplevels
            &&& after.state.next == next + n
            &&& after.state.groups.dom().contains(g) <==> shell.state.groups.dom().contains(g) && g
                != set.group
            &&& g != set.group && shell.state.groups.dom().contains(g) ==> after.state.groups[g]
                == shell.state.groups[g]
            &&& after.state.workspaces.dom().contains(h) <==> (shell.state.workspaces.dom().contains(
                h,
            ) && !goes) || new
            &&& !goes && shell.state.workspaces.dom().contains(h) ==> after.state.workspaces[h]
                == shell.state.workspaces[h]
        }),
{
    let set = shell.workspaces.set_for(output)->0;
    if handles(set.workspaces).contains(h) {
        let i = choose|i: int|
            0 <= i < set.workspaces.len() && (#[trigger] set.workspaces[i]).handle == h;
        assert(set.workspaces[i].handle == h);
    }
}

/// Removing an output leaves what another output shows alone, where as many workspaces are to
/// be as that one had: the same position is active, and the same workspace is there.
pub proof fn law_remove_keeps_active(
    shell: ShellView,
    output: OutputId,
    f: int,
    o: OutputId,
    len: u8,
)
    requires
        shell.wf(),
        shell.workspaces matches ModeView::OutputBound(sets) && has_key(sets, output),
        0 <= f < shell.outputs.len(),
        shell.outputs[f].id != output,
        forall|q: int| 0 <= q < f ==> (#[trigger] shell.outputs[q]).id == output,
        shell.can_remove(output),
        shell.workspace_amount == WorkspaceAmount::Static(len),
        o != output,
        shell.workspaces.has_active(o),
        shell.workspaces.active_index(o) < len,
    ensures
        ({
            let after = shell.with_removed(output).workspaces;
            &&& after.has_active(o)
            &&& after.active_index(o) == shell.workspaces.active_index(o)
            &&& after.active_space(o).handle == shell.workspaces.active_space(o).handle
            &&& same_settings(after.active_space(o), shell.workspaces.active_space(o))
            &&& after.active_space(o).outputs == shell.workspaces.active_space(o).outputs
            &&& after.active_space(o).needs_refresh
        }),
{
    law_handover(shell, output, f, o);
    let mid = shell.handed_over(output);
    law_refresh_keeps_active(mid, o, len);
}

/// Refreshing leaves what an output shows alone, where there are to be enough workspaces.
pub proof fn law_refresh_keeps_active(shell: ShellView, o: OutputId, len: u8)
    requires
        shell.can_refresh(),
        shell.workspace_amount == WorkspaceAmount::Static(len),
        shell.workspaces.has_active(o),
        shell.workspaces.active_index(o) < len,
    ensures
        ({
            let after = shell.refreshed().workspaces;
            &&& after.has_active(o)
            &&& after.active_index(o) == shell.workspaces.active_index(o)
            &&& after.spaces_for(o).len() == len
            &&& after.active_space(o).handle == shell.workspaces.active_space(o).handle
            &&& same_settings(after.active_space(o), shell.workspaces.active_space(o))
            &&& after.active_space(o).outputs == shell.workspaces.active_space(o).outputs
            &&& after.active_space(o).needs_refresh
        }),
{
    let amount = shell.workspace_amount;
    match shell.workspaces {
        ModeView::Global(set) => {
            law_set_refresh_active(shell.scene().shared(), amount, len);
        },
        ModeView::OutputBound(sets) => {
            let scene = shell.scene().bound();
            let n = sets.len() as int;
            let k = slot(sets, o);
            lemma_slot(sets, o);
            lemma_sets_refresh_each(scene, amount, n, k);
            assert(scene.turn(amount, k).can_refresh(amount));
            law_set_refresh_active(scene.turn(amount, k), amount, len);
            let done = scene.refreshed(amount, n).sets;
            lemma_refreshed_slots(scene, amount, o);
        },
    }
}

proof fn lemma_refreshed_slots(scene: SetsScene, amount: WorkspaceAmount, o: OutputId)
    ensures
        ({
            let done = scene.refreshed(amount, scene.sets.len() as int).sets;
            &&& done.len() == scene.sets.len()
            &&& slot(done, o) == slot(scene.sets, o)
            &&& has_key(done, o) == has_key(scene.sets, o)
        }),
{
    let n = scene.sets.len() as int;
    let done = scene.refreshed(amount, n).sets;
    lemma_sets_refresh_len(scene, amount, n);
    assert forall|i: int| 0 <= i < n implies (#[trigger] done[i]).0 == scene.sets[i].0 by {
        lemma_sets_refresh_each(scene, amount, n, i);
    }
    lemma_same_slots(scene.sets, done, o);
}

/// Refreshing leaves what an output shows alone in a dynamic set, where every workspace before
/// it has windows.
pub proof fn law_refresh_keeps_dynamic_active(shell: ShellView, o: OutputId)
    requires
        shell.can_refresh(),
        shell.workspace_amount is Dynamic,
        shell.workspaces.has_active(o),
        forall|i: int|
            0 <= i < shell.workspaces.active_index(o) ==> (
            #[trigger] shell.workspaces.spaces_for(o)[i]).has_windows(),
    ensures
        ({
            let after = shell.refreshed().workspaces;
            &&& after.has_active(o)
            &&& after.active_index(o) == shell.workspaces.active_index(o)
            &&& same_but_layout(after.active_space(o), shell.workspaces.active_space(o))
            &&& after.active_space(o).needs_refresh
        }),
{
    let amount = shell.workspace_amount;
    match shell.workspaces {
        ModeView::Global(set) => {
            assert forall|i: int| 0 <= i < set.active implies (
            #[trigger] set.workspaces[i]).has_windows() by {
                assert(shell.workspaces.spaces_for(o)[i].has_windows());
            }
            law_set_refresh_dynamic_active(shell.scene().shared());
        },
        ModeView::OutputBound(sets) => {
            let scene = shell.scene().bound();
            let n = sets.len() as int;
            let k = slot(sets, o);
            lemma_slot(sets, o);
            let set = sets[k].1;
            assert forall|i: int| 0 <= i < set.active implies (
            #[trigger] set.workspaces[i]).has_windows() by {
                assert(shell.workspaces.spaces_for(o)[i].has_windows());
            }
            lemma_sets_refresh_each(scene, amount, n, k);
            law_set_refresh_dynamic_active(scene.turn(amount, k));
            lemma_refreshed_slots(scene, amount, o);
        },
    }
}

/// The sets are refreshed one after the other, each from what is told after the one before.
/// None of the others is touched.
pub proof fn law_refresh_steps(scene: SetsScene, amount: WorkspaceAmount, n: int, k: int)
    requires
        0 <= n < scene.sets.len(),
    ensures
        ({
            let before = scene.refreshed(amount, n);
            let after = scene.refreshed(amount, n + 1);
            let turn = (SetScene {
                set: scene.sets[n].1,
                state: before.state,
                toplevels: before.toplevels,
            }).refreshed(amount);
            &&& scene.refreshed(amount, 0) == scene
            &&& after.sets.len() == scene.sets.len()
            &&& after.sets[n].0 == scene.sets[n].0
            &&& after.sets[n].1 == turn.set
            &&& after.state == turn.state
            &&& after.toplevels == turn.toplevels
            &&& 0 <= k < scene.sets.len() && k != n ==> after.sets[k] == before.sets[k]
            &&& n <= k < scene.sets.len() ==> before.sets[k] == scene.sets[k]
        }),
{
    lemma_sets_refresh_len(scene, amount, n);
    lemma_refresh_later(scene, amount, n, k);
}

proof fn lemma_refresh_later(scene: SetsScene, amount: WorkspaceAmount, n: int, k: int)
    requires
        0 <= n <= scene.sets.len(),
    ensures
        n <= k < scene.sets.len() ==> scene.refreshed(amount, n).sets[k] == scene.sets[k],
    decreases n,
{
    if n > 0 {
        lemma_sets_refresh_len(scene, amount, n - 1);
        lemma_refresh_later(scene, amount, n - 1, k);
    }
}

/// Refreshing a shell refreshes its shared workspaces, or else all sets of its outputs, to the
/// amount that is set.
pub proof fn law_refresh_whole(shell: ShellView)
    ensures
        shell.workspaces matches ModeView::Global(set) ==> {
            let after = (SetScene {
                set,
                state: shell.state,
                toplevels: shell.toplevels,
            }).refreshed(shell.workspace_amount);
            &&& shell.refreshed().workspaces == ModeView::Global(after.set)
            &&& shell.refreshed().state == after.state
            &&& shell.refreshed().toplevels == after.toplevels
        },
        shell.workspaces matches ModeView::OutputBound(sets) ==> {
            let after = (SetsScene {
                sets,
                state: shell.state,
                toplevels: shell.toplevels,
            }).refreshed(shell.workspace_amount, sets.len() as int);
            &&& shell.refreshed().workspaces == ModeView::OutputBound(after.sets)
            &&& shell.refreshed().state == after.state
            &&& shell.refreshed().toplevels == after.toplevels
        },
{
}

/// Refreshing changes neither the outputs nor the settings nor what waits, nor which outputs
/// have sets, and windows stay announced on their outputs.
pub proof fn law_refresh_rest(shell: ShellView, o: OutputId)
    ensures
        ({
            let after = shell.refreshed();
            &&& same_waiting(after, shell)
            &&& after.outputs == shell.outputs
            &&& after.toplevels.outputs == shell.toplevels.outputs
            &&& after.state.groups == shell.state.groups
            &&& after.workspaces is Global <==> shell.workspaces is Global
            &&& after.workspaces.set_for(o) is Some <==> shell.workspaces.set_for(o) is Some
        }),
{
    if let ModeView::OutputBound(sets) = shell.workspaces {
        lemma_refreshed_slots(shell.scene().bound(), shell.workspace_amount, o);
        lemma_refreshed_groups(shell.scene().bound(), shell.workspace_amount, sets.len() as int);
    }
}

proof fn lemma_refreshed_groups(scene: SetsScene, amount: WorkspaceAmount, n: int)
    ensures
        scene.refreshed(amount, n).state.groups == scene.state.groups,
        scene.refreshed(amount, n).toplevels.outputs == scene.toplevels.outputs,
    decreases n,
{
    if n > 0 {
        lemma_refreshed_groups(scene, amount, n - 1);
    }
}

/// Removing an output that has no set, or the last one, leaves the sets of others alone, and
/// what is told.
pub proof fn law_remove_plain(shell: ShellView, output: OutputId, o: OutputId)
    requires
        shell.wf(),
        shell.workspaces is OutputBound,
        shell.workspaces.set_for(output) is None || forall|i: int|
            0 <= i < shell.outputs.len() ==> (#[trigger] shell.outputs[i]).id == output,
    ensures
        ({
            let after = shell.with_removed(output);
            &&& same_waiting(after, shell)
            &&& after.outputs == shell.other_outputs(output)
            &&& after.toplevels == shell.toplevels
            &&& after.state == shell.state
            &&& after.workspaces is OutputBound
            &&& o != output ==> after.workspaces.set_for(o) == shell.workspaces.set_for(o)
            &&& after.workspaces.set_for(output) is None
            &&& shell.with_released(output) == after
        }),
{
    let sets = shell.workspaces->OutputBound_0;
    let left = sets.remove(slot(sets, output));
    lemma_slot(sets, output);
    if has_key(sets, output) {
        lemma_first_other(shell.outputs, output, shell.outputs.len() as int);
        assert(!shell.hands_over(output));
        let s = slot(sets, output);
        lemma_slot(left, output);
        lemma_slot(sets, o);
        lemma_slot(left, o);
        if has_key(left, output) {
            let k = slot(left, output);
            if k < s {
                assert(sets[k].0 == output);
                assert(sets[k].0 != sets[s].0);
            } else {
                assert(sets[k + 1].0 == output);
                assert(sets[s].0 != sets[k + 1].0);
            }
        }
        if o != output {
            if has_key(sets, o) {
                lemma_keys_left(sets, output, o);
            } else if has_key(left, o) {
                let k = slot(left, o);
                if k < s {
                    assert(sets[k].0 == o);
                } else {
                    assert(sets[k + 1].0 == o);
                }
            }
        }
    }
}

/// Removing an output where all share their workspaces takes it off each of them, and out of
/// their group. Everything else stays, but that they are laid out again.
pub proof fn law_remove_global(
    shell: ShellView,
    output: OutputId,
    i: int,
    g: WorkspaceGroupHandle,
    o: OutputId,
)
    requires
        shell.wf(),
        shell.workspaces is Global,
    ensures
        ({
            let after = shell.with_removed(output);
            let before = shell.workspaces->Global_0;
            let set = after.workspaces->Global_0;
            &&& same_waiting(after, shell)
            &&& after.outputs == shell.other_outputs(output)
            &&& after.toplevels == shell.toplevels
            &&& after.workspaces is Global
            &&& shell.with_released(output) == after
            &&& set.active == before.active
            &&& set.group == before.group
            &&& set.workspaces.len() == before.workspaces.len()
            &&& 0 <= i < set.workspaces.len() ==> {
                let w = set.workspaces[i];
                let v = before.workspaces[i];
                &&& w.handle == v.handle
                &&& same_elements(w, v)
                &&& same_settings(w, v)
                &&& w.needs_refresh
                &&& w.outputs == v.outputs.remove(output)
            }
            &&& after.state.workspaces == shell.state.workspaces
            &&& after.state.next == shell.state.next
            &&& after.state.groups.dom() == shell.state.groups.dom()
            &&& g != before.group ==> after.state.groups[g] == shell.state.groups[g]
            &&& after.state.groups[before.group].contains(o)
                <==> shell.state.groups[before.group].contains(o) && o != output
        }),
{
    assert(shell.state.groups.dom().contains((shell.workspaces->Global_0).group));
    assert(shell.with_removed(output).state.groups.dom() =~= shell.state.groups.dom());
}

/// Removing an output that hands its workspaces over is handing them over, and then refreshing.
/// It can be released just where the handles last and no place of its workspaces is beyond the
/// numbers.
pub proof fn law_release(shell: ShellView, output: OutputId, f: int)
    requires
        shell.wf(),
        shell.workspaces matches ModeView::OutputBound(sets) && has_key(sets, output),
        0 <= f < shell.outputs.len(),
        shell.outputs[f].id != output,
        forall|q: int| 0 <= q < f ==> (#[trigger] shell.outputs[q]).id == output,
    ensures
        shell.hands_over(output),
        shell.with_released(output) == shell.handed_over(output),
        shell.with_removed(output) == shell.handed_over(output).refreshed(),
        shell.can_remove(output) <==> shell.can_release(output) && shell.handed_over(
            output,
        ).can_refresh(),
        ({
            let n = (shell.workspaces.set_for(output)->0).workspaces.len();
            let len = (shell.workspaces.set_for(shell.outputs[f].id)->0).workspaces.len();
            shell.can_release(output) <==> shell.state.next + n <= u64::MAX && forall|p: int|
                len <= p < len + n ==> #[trigger] (p % 256) != 255
        }),
{
    lemma_first_other(shell.outputs, output, f);
    let n = (shell.workspaces.set_for(output)->0).workspaces.len() as int;
    let len = (shell.workspaces.set_for(shell.outputs[f].id)->0).workspaces.len() as int;
    law_places_numbered(len, n);
}

/// An output that hands nothing over can always be removed.
pub proof fn law_can_remove_plain(shell: ShellView, output: OutputId)
    requires
        shell.workspaces is Global || shell.workspaces.set_for(output) is None || forall|i: int|
            0 <= i < shell.outputs.len() ==> (#[trigger] shell.outputs[i]).id == output,
    ensures
        shell.can_release(output),
        shell.can_remove(output),
        !shell.hands_over(output),
{
    if let ModeView::OutputBound(sets) = shell.workspaces {
        lemma_slot(sets, output);
        if has_key(sets, output) {
            lemma_first_other(shell.outputs, output, shell.outputs.len() as int);
        }
    }
}

/// How many handles an output needs: none where it has a set or shares one, and else one for a
/// group and one for each workspace.
pub proof fn law_handles_to_add(shell: ShellView, output: Output)
    ensures
        shell.workspaces.set_for(output.id) is Some ==> shell.handles_to_add(output) == 0,
        shell.workspaces.set_for(output.id) is None ==> {
            &&& shell.workspace_amount is Dynamic ==> shell.handles_to_add(output) == 2
            &&& shell.workspace_amount matches WorkspaceAmount::Static(len)
                ==> shell.handles_to_add(output) == 1 + len
        },
{
}

proof fn lemma_next_bound(scene: SetsScene, amount: WorkspaceAmount, n: int)
    requires
        0 <= n <= scene.sets.len(),
    ensures
        scene.refreshed(amount, n).state.next <= scene.state.next + 255 * n,
    decreases n,
{
    if n > 0 {
        lemma_next_bound(scene, amount, n - 1);
    }
}

/// A shell can be refreshed where every active position is one that its set has, with windows
/// on every workspace before it if the amount is dynamic, and where there are to be workspaces
/// and handles for them.
pub proof fn law_can_refresh(shell: ShellView)
    requires
        shell.workspace_amount != WorkspaceAmount::Static(0),
        match shell.workspaces {
            ModeView::Global(set) => {
                &&& 0 <= set.active < set.workspaces.len()
                &&& shell.state.next + 255 <= u64::MAX
                &&& shell.workspace_amount is Dynamic ==> forall|i: int|
                    0 <= i < set.active ==> (#[trigger] set.workspaces[i]).has_windows()
            },
            ModeView::OutputBound(sets) => {
                &&& forall|k: int|
                    0 <= k < sets.len() ==> 0 <= (#[trigger] sets[k]).1.active
                        < sets[k].1.workspaces.len()
                &&& shell.state.next + 255 * sets.len() <= u64::MAX
                &&& shell.workspace_amount is Dynamic ==> forall|k: int, i: int|
                    0 <= k < sets.len() && 0 <= i < sets[k].1.active ==> (
                    #[trigger] sets[k].1.workspaces[i]).has_windows()
            },
        },
    ensures
        shell.can_refresh(),
{
    let amount = shell.workspace_amount;
    match shell.workspaces {
        ModeView::Global(set) => {
            law_set_can_refresh(shell.scene().shared(), amount);
        },
        ModeView::OutputBound(sets) => {
            let scene = shell.scene().bound();
            assert forall|n: int| 0 <= n < sets.len() implies (
            #[trigger] scene.turn(amount, n)).can_refresh(amount) by {
                lemma_next_bound(scene, amount, n);
                let turn = scene.turn(amount, n);
                assert(turn.set == sets[n].1);
                if amount is Dynamic {
                    assert forall|i: int| 0 <= i < turn.set.active implies (
                    #[trigger] turn.set.workspaces[i]).has_windows() by {
                        assert(sets[n].1.workspaces[i].has_windows());
                    }
                }
                law_set_can_refresh(turn, amount);
            }
        },
    }
}

/// Where a place is refused, it is the one beyond the numbers.
pub proof fn law_places_numbered(len: int, n: int)
    requires
        0 <= len,
        0 <= n,
    ensures
        places_numbered(len, n) <==> forall|p: int|
            len <= p < len + n ==> #[trigger] (p % 256) != 255,
{
    if places_numbered(len, n) {
        assert forall|p: int| len <= p < len + n implies #[trigger] (p % 256) != 255 by {
            assert(place_of(len, p - len) != 255);
        }
    }
    if forall|p: int| len <= p < len + n ==> #[trigger] (p % 256) != 255 {
        assert forall|k: int| 0 <= k < n implies #[trigger] place_of(len, k) != 255 by {
            assert((len + k) % 256 != 255);
        }
    }
}

} // verus!
