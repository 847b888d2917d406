//! What a caller sees of tables, layers and elements, and of the workspaces and sets that are
//! handed out to be changed.
use crate::arrivals::law_space_positions;
use crate::effects::{law_with_set, law_with_space};
use crate::element::{
    element_index, has_element, lemma_element_index, windows_in, Element, ElementId, Layer,
    SurfaceId,
};
use crate::fields::{joined, law_absorbed_order, law_workspace_absorbed, same_settings};
use crate::gather::{find_depth, find_lead};
use crate::laws::law_spaces_mut;
use crate::mode::{sets_view, WorkspaceMode};
use crate::modes::law_lead;
use crate::output::Output;
use crate::protocol::{OutputId, WorkspaceHandle, WorkspaceState};
use crate::set::{absorb, handles, refs_view, shown_at, shown_in, WorkspaceSet};
use crate::shell::Shell;
use crate::table::{lemma_slot_at, Table};
use crate::toplevel::{ToplevelInfoState, WindowId};
use crate::workspace::Workspace;
use vstd::prelude::*;

verus! {

/// What a table has under a key is the value of the entry with it.
pub proof fn law_table_get<V>(t: Table<V>, k: u64, r: Option<&V>, has: bool, i: int)
    requires
        t.wf(),
        call_ensures(Table::<V>::get, (&t, k), r),
        call_ensures(Table::<V>::contains_key, (&t, k), has),
    ensures
        has <==> exists|j: int| 0 <= j < t.entries@.len() && (#[trigger] t.entries@[j]).0 == k,
        r is Some <==> has,
        0 <= i < t.entries@.len() && t.entries@[i].0 == k ==> r is Some && *(r->0)
            == t.entries@[i].1,
{
    if 0 <= i < t.entries@.len() && t.entries@[i].0 == k {
        lemma_slot_at(t.entries@, i);
    }
}

/// Putting a value into a table replaces the one under its key, or comes behind the others.
pub proof fn law_table_insert<V>(t: &mut Table<V>, k: u64, v: V, i: int)
    requires
        old(t).wf(),
        call_ensures(Table::<V>::insert, (t, k, v), ()),
    ensures
        final(t).wf(),
        0 <= i < old(t).entries@.len() && old(t).entries@[i].0 == k ==> final(t).entries@
            == old(t).entries@.update(i, (k, v)),
        (forall|j: int| 0 <= j < old(t).entries@.len() ==> (#[trigger] old(t).entries@[j]).0 != k)
            ==> final(t).entries@ == old(t).entries@.push((k, v)),
{
    if 0 <= i < old(t).entries@.len() && old(t).entries@[i].0 == k {
        lemma_slot_at(old(t).entries@, i);
    }
}

/// Taking a value out of a table takes out the entry with its key, and hands the value out.
pub proof fn law_table_remove<V>(t: &mut Table<V>, k: u64, r: Option<V>, i: int)
    requires
        old(t).wf(),
        call_ensures(Table::<V>::remove, (t, k), r),
    ensures
        call_requires(Table::<V>::remove, (t, k)),
        final(t).wf(),
        0 <= i < old(t).entries@.len() && old(t).entries@[i].0 == k ==> r == Some(
            old(t).entries@[i].1,
        ) && final(t).entries@ == old(t).entries@.remove(i),
        (forall|j: int| 0 <= j < old(t).entries@.len() ==> (#[trigger] old(t).entries@[j]).0 != k)
            ==> r is None && final(t).entries@ == old(t).entries@,
{
    if 0 <= i < old(t).entries@.len() && old(t).entries@[i].0 == k {
        lemma_slot_at(old(t).entries@, i);
    }
}

/// A new table is empty.
pub proof fn law_table_new<V>(t: Table<V>)
    requires
        call_ensures(Table::<V>::new, (), t),
    ensures
        t.entries@.len() == 0,
{
}

/// Where an element lies in a layer: the first one of its name.
pub proof fn law_layer_position(
    l: Layer,
    id: ElementId,
    r: Option<usize>,
    has_windows: bool,
    i: int,
)
    requires
        call_ensures(Layer::position, (&l, id), r),
        call_ensures(Layer::has_windows, (&l,), has_windows),
    ensures
        r is None <==> forall|j: int| 0 <= j < l@.len() ==> (#[trigger] l@[j]).id != id,
        r matches Some(p) ==> p < l@.len() && l@[p as int].id == id,
        r matches Some(p) ==> 0 <= i < p ==> l@[i].id != id,
        has_windows <==> exists|j: int, x: WindowId|
            0 <= j < l@.len() && #[trigger] l@[j].shows(x),
{
    lemma_element_index(l@, id);
    if has_windows {
        let x = choose|x: WindowId| windows_in(l@).contains(x);
        let j = choose|j: int| 0 <= j < l@.len() && (#[trigger] l@[j]).shows(x);
        assert(l@[j].shows(x));
    }
    if exists|j: int, x: WindowId| 0 <= j < l@.len() && #[trigger] l@[j].shows(x) {
        let (j, x) = choose|j: int, x: WindowId| 0 <= j < l@.len() && #[trigger] l@[j].shows(x);
        assert(windows_in(l@).contains(x));
    }
}

/// An element that is put on a layer lies on top.
pub proof fn law_layer_map(l: &mut Layer, e: Element)
    requires
        call_ensures(Layer::map, (l, e), ()),
    ensures
        final(l)@ == old(l)@.push(e@),
{
}

/// An element that is taken off a layer is the first one of its name.
pub proof fn law_layer_unmap(l: &mut Layer, id: ElementId, r: Option<Element>, i: int)
    requires
        call_ensures(Layer::unmap, (l, id), r),
    ensures
        0 <= i < old(l)@.len() && old(l)@[i].id == id && (forall|j: int|
            0 <= j < i ==> (#[trigger] old(l)@[j]).id != id) ==> r is Some && r->0@ == old(l)@[i]
            && final(l)@ == old(l)@.remove(i),
        (forall|j: int| 0 <= j < old(l)@.len() ==> (#[trigger] old(l)@[j]).id != id) ==> r is None
            && final(l)@ == old(l)@,
{
    lemma_element_index(old(l)@, id);
    let p = element_index(old(l)@, id);
    if 0 <= i < old(l)@.len() && old(l)@[i].id == id && (forall|j: int|
        0 <= j < i ==> (#[trigger] old(l)@[j]).id != id) {
        assert(has_element(old(l)@, id));
        if p < i {
            assert(old(l)@[p].id != id);
        }
    }
}

/// An element answers for its surfaces, and a copy of it is the same.
pub proof fn law_element_asked(e: Element, surface: SurfaceId, has: bool, copy: Element, i: int)
    requires
        call_ensures(Element::has_surface, (&e, surface), has),
        call_ensures(Element::duplicate, (&e,), copy),
    ensures
        0 <= i < e.surfaces@.len() && e.surfaces@[i] == surface ==> has,
        has ==> exists|j: int| 0 <= j < e.surfaces@.len() && #[trigger] e.surfaces@[j] == surface,
        copy@ == e@,
{
}

/// The windows of an element enter the workspace named.
pub proof fn law_element_enter(
    e: Element,
    t: &mut ToplevelInfoState,
    to: WorkspaceHandle,
    x: WindowId,
    h: WorkspaceHandle,
)
    requires
        call_ensures(Element::enter, (&e, t, to), ()),
    ensures
        final(t)@.outputs == old(t)@.outputs,
        final(t)@.workspaces.contains((x, h)) <==> old(t)@.workspaces.contains((x, h)) || (h == to
            && exists|j: int| 0 <= j < e.windows@.len() && (#[trigger] e.windows@[j]).window == x),
{
    assert(e@.windows == e.windows@);
    if e@.shows(x) {
        let j = choose|j: int| 0 <= j < e@.windows.len() && (#[trigger] e@.windows[j]).window == x;
        assert(e.windows@[j].window == x);
    }
    if exists|j: int| 0 <= j < e.windows@.len() && (#[trigger] e.windows@[j]).window == x {
        let j = choose|j: int| 0 <= j < e.windows@.len() && (#[trigger] e.windows@[j]).window == x;
        assert(e@.windows[j].window == x);
    }
}

/// The windows of an element leave the workspace named.
pub proof fn law_element_leave(
    e: Element,
    t: &mut ToplevelInfoState,
    from: WorkspaceHandle,
    x: WindowId,
    h: WorkspaceHandle,
)
    requires
        call_ensures(Element::leave, (&e, t, from), ()),
    ensures
        final(t)@.outputs == old(t)@.outputs,
        final(t)@.workspaces.contains((x, h)) <==> old(t)@.workspaces.contains((x, h)) && !(h
            == from && exists|j: int|
            0 <= j < e.windows@.len() && (#[trigger] e.windows@[j]).window == x),
{
    assert(e@.windows == e.windows@);
    if e@.shows(x) {
        let j = choose|j: int| 0 <= j < e@.windows.len() && (#[trigger] e@.windows[j]).window == x;
        assert(e.windows@[j].window == x);
    }
    if exists|j: int| 0 <= j < e.windows@.len() && (#[trigger] e.windows@[j]).window == x {
        let j = choose|j: int| 0 <= j < e.windows@.len() && (#[trigger] e.windows@[j]).window == x;
        assert(e@.windows[j].window == x);
    }
}

/// The windows of a layer enter the workspace named.
pub proof fn law_layer_enter(
    l: Layer,
    t: &mut ToplevelInfoState,
    to: WorkspaceHandle,
    x: WindowId,
    h: WorkspaceHandle,
)
    requires
        call_ensures(Layer::enter, (&l, t, to), ()),
    ensures
        final(t)@.outputs == old(t)@.outputs,
        final(t)@.workspaces.contains((x, h)) <==> old(t)@.workspaces.contains((x, h)) || (h == to
            && exists|j: int| 0 <= j < l@.len() && (#[trigger] l@[j]).shows(x)),
{
}

/// The windows of a layer leave the workspace named.
pub proof fn law_layer_leave(
    l: Layer,
    t: &mut ToplevelInfoState,
    from: WorkspaceHandle,
    x: WindowId,
    h: WorkspaceHandle,
)
    requires
        call_ensures(Layer::leave, (&l, t, from), ()),
    ensures
        final(t)@.outputs == old(t)@.outputs,
        final(t)@.workspaces.contains((x, h)) <==> old(t)@.workspaces.contains((x, h)) && !(h
            == from && exists|j: int| 0 <= j < l@.len() && (#[trigger] l@[j]).shows(x)),
{
}

/// The set of an output that is handed out is the one that it has. What becomes of it becomes
/// of that set, and of no other.
pub proof fn law_set_for_mut(
    mode: &mut WorkspaceMode,
    output: OutputId,
    set: &mut WorkspaceSet,
    o: OutputId,
)
    requires
        old(mode).wf(),
        call_ensures(WorkspaceMode::set_for_mut, (mode, output), Some(set)),
    ensures
        old(mode)@.set_for(output) == Some(old(set)@),
        final(mode)@.set_for(output) == Some(final(set)@),
        old(mode)@ is OutputBound && o != output ==> final(mode)@.set_for(o)
            == old(mode)@.set_for(o),
        final(set).wf() ==> final(mode).wf(),
{
    law_with_set(old(mode)@, output, final(set)@, o);
}

/// A workspace of an output that is handed out is the one of that number. What becomes of it
/// becomes of that one, and of no other.
pub proof fn law_get_mut(
    mode: &mut WorkspaceMode,
    num: usize,
    output: Output,
    w: &mut Workspace,
    o: OutputId,
)
    requires
        old(mode).wf(),
        call_ensures(WorkspaceMode::get_mut, (mode, num, &output), Some(w)),
    ensures
        ({
            let b = old(mode)@.set_for(output.id)->0;
            let a = final(mode)@.set_for(output.id)->0;
            &&& old(mode)@.set_for(output.id) is Some
            &&& num < b.workspaces.len()
            &&& b.workspaces[num as int] == old(w)@
            &&& final(mode)@.set_for(output.id) is Some
            &&& a.active == b.active && a.group == b.group
            &&& a.workspaces == b.workspaces.update(num as int, final(w)@)
            &&& old(mode)@ is OutputBound && o != output.id ==> final(mode)@.set_for(o)
                == old(mode)@.set_for(o)
        }),
{
    law_with_space(old(mode)@, num as int, output.id, final(w)@, o);
}

/// The active workspace of an output that is handed out.
pub proof fn law_active_mut(
    mode: &mut WorkspaceMode,
    output: Output,
    w: &mut Workspace,
    o: OutputId,
)
    requires
        old(mode).wf(),
        old(mode)@.has_active(output.id),
        call_ensures(WorkspaceMode::active_mut, (mode, &output), w),
    ensures
        call_requires(WorkspaceMode::active_mut, (mode, &output)),
        ({
            let b = old(mode)@.set_for(output.id)->0;
            let a = final(mode)@.set_for(output.id)->0;
            &&& b.workspaces[b.active] == old(w)@
            &&& final(mode)@.set_for(output.id) is Some
            &&& a.active == b.active && a.group == b.group
            &&& a.workspaces == b.workspaces.update(b.active, final(w)@)
            &&& old(mode)@ is OutputBound && o != output.id ==> final(mode)@.set_for(o)
                == old(mode)@.set_for(o)
        }),
{
    law_with_space(old(mode)@, old(mode)@.active_index(output.id), output.id, final(w)@, o);
}

/// The active workspace of an output that the shell hands out. Nothing else of the shell
/// changes.
pub proof fn law_active_space_mut(shell: &mut Shell, output: Output, w: &mut Workspace, o: OutputId)
    requires
        old(shell).wf(),
        old(shell)@.workspaces.has_active(output.id),
        call_ensures(Shell::active_space_mut, (shell, &output), w),
    ensures
        call_requires(Shell::active_space_mut, (shell, &output)),
        ({
            let b = old(shell)@.workspaces.set_for(output.id)->0;
            let a = final(shell)@.workspaces.set_for(output.id)->0;
            &&& b.workspaces[b.active] == old(w)@
            &&& final(shell)@.workspaces.set_for(output.id) is Some
            &&& a.active == b.active && a.group == b.group
            &&& a.workspaces == b.workspaces.update(b.active, final(w)@)
            &&& old(shell)@.workspaces is OutputBound && o != output.id
                ==> final(shell)@.workspaces.set_for(o) == old(shell)@.workspaces.set_for(o)
        }),
        final(shell)@.outputs == old(shell)@.outputs,
        final(shell)@.state == old(shell)@.state,
        final(shell)@.toplevels == old(shell)@.toplevels,
        final(shell)@.pending_windows == old(shell)@.pending_windows,
        final(shell)@.pending_layers == old(shell)@.pending_layers,
{
    let mode = old(shell)@.workspaces;
    law_with_space(mode, mode.active_index(output.id), output.id, final(w)@, o);
}

/// A workspace that is handed out by its place among all is the one there. What becomes of it
/// becomes of that one, and of no other.
pub proof fn law_nth_mut(mode: &mut WorkspaceMode, i: usize, w: &mut Workspace)
    requires
        old(mode).wf(),
        call_ensures(WorkspaceMode::spaces_mut, (mode, i), Some(w)),
    ensures
        i < old(mode)@.spaces().len(),
        old(mode)@.spaces()[i as int] == old(w)@,
        final(mode)@.spaces() == old(mode)@.spaces().update(i as int, final(w)@),
{
    law_spaces_mut(old(mode)@, i as int, final(w)@);
}

/// The workspace of an element that is handed out is the first one that has it. What becomes of
/// it becomes of that one, and of nothing else of the shell.
pub proof fn law_space_for_mut(shell: &mut Shell, id: ElementId, w: &mut Workspace, i: int)
    requires
        old(shell).wf(),
        0 <= i < old(shell)@.workspaces.spaces().len(),
        old(shell)@.workspaces.spaces()[i].has(id),
        forall|j: int| 0 <= j < i ==> !(#[trigger] old(shell)@.workspaces.spaces()[j]).has(id),
        call_ensures(Shell::space_for_mut, (shell, id), Some(w)),
    ensures
        call_requires(Shell::space_for_mut, (shell, id)),
        old(shell)@.workspaces.spaces()[i] == old(w)@,
        final(shell)@.workspaces.spaces() == old(shell)@.workspaces.spaces().update(i, final(w)@),
        final(shell)@.outputs == old(shell)@.outputs,
        final(shell)@.state == old(shell)@.state,
        final(shell)@.toplevels == old(shell)@.toplevels,
        final(shell)@.pending_windows == old(shell)@.pending_windows,
        final(shell)@.pending_layers == old(shell)@.pending_layers,
{
    let before = old(shell)@;
    law_space_positions(before, id, 0, i);
    let p = before.space_index(id);
    if p < i {
        assert(!before.workspaces.spaces()[p].has(id));
    }
    law_spaces_mut(before.workspaces, i, final(w)@);
}

/// Taking in workspaces: their elements follow in their order, they are withdrawn, and their
/// windows are told to be on the one that took them in.
pub proof fn law_absorb(
    target: &mut Workspace,
    rest: Vec<&Workspace>,
    state: &mut WorkspaceState,
    t: &mut ToplevelInfoState,
    k: int,
    h: WorkspaceHandle,
)
    requires
        call_ensures(absorb, (target, &rest, state, t), ()),
        0 <= k < rest@.len(),
        rest@[k]@.handle != old(target)@.handle,
    ensures
        final(target)@.handle == old(target)@.handle,
        same_settings(final(target)@, old(target)@),
        final(target)@.outputs == old(target)@.outputs,
        final(target)@.tiling_layer == old(target)@.tiling_layer + joined(refs_view(rest@), false),
        final(target)@.floating_layer == old(target)@.floating_layer + joined(
            refs_view(rest@),
            true,
        ),
        !final(state)@.workspaces.dom().contains(rest@[k]@.handle),
        final(state)@.groups == old(state)@.groups,
        final(state)@.next == old(state)@.next,
        final(state)@.workspaces.dom().contains(h) ==> old(state)@.workspaces.dom().contains(h)
            && final(state)@.workspaces[h] == old(state)@.workspaces[h],
        forall|x: WindowId|
            rest@[k]@.windows().contains(x) ==> final(t)@.workspaces.contains(
                (x, old(target)@.handle),
            ) && !#[trigger] final(t)@.workspaces.contains((x, rest@[k]@.handle)),
        final(t)@.outputs == old(t)@.outputs,
{
    let all = refs_view(rest@);
    law_absorbed_order(old(target)@, all);
    law_workspace_absorbed(old(target)@, all, 0);
    assert(all[k] == rest@[k]@);
    assert(handles(all).contains(all[k].handle));
    assert forall|x: WindowId| rest@[k]@.windows().contains(x) implies final(t)@.workspaces.contains(
        (x, old(target)@.handle),
    ) && !#[trigger] final(t)@.workspaces.contains((x, rest@[k]@.handle)) by {
        assert(all[k].windows().contains(x));
        assert(shown_in(all, x));
        assert(shown_at(all, x, all[k].handle));
    }
}

/// Where the active workspaces of several sets come to lie, and how many follow.
pub proof fn law_found_rows(sets: Table<WorkspaceSet>, l: usize, d: usize, i: int)
    requires
        forall|k: int|
            0 <= k < sets.seq().len() ==> (#[trigger] sets.seq()[k]).1.active
                <= sets.seq()[k].1.workspaces@.len(),
        call_ensures(find_lead, (&sets,), l),
        call_ensures(find_depth, (&sets,), d),
        0 <= i < sets.seq().len(),
    ensures
        call_requires(find_lead, (&sets,)),
        call_requires(find_depth, (&sets,)),
        sets.seq()[i].1.active <= l,
        sets.seq()[i].1.workspaces@.len() - sets.seq()[i].1.active <= d,
        l == 0 || exists|k: int|
            0 <= k < sets.seq().len() && (#[trigger] sets.seq()[k]).1.active == l,
        d == 0 || exists|k: int|
            0 <= k < sets.seq().len() && (#[trigger] sets.seq()[k]).1.workspaces@.len()
                - sets.seq()[k].1.active == d,
{
    let v = sets_view(sets.seq());
    assert forall|k: int| 0 <= k < v.len() implies 0 <= (#[trigger] v[k]).1.active
        <= v[k].1.workspaces.len() by {
        assert(sets.seq()[k].1.active <= sets.seq()[k].1.workspaces@.len());
    }
    law_lead(v, i);
    assert(v[i].1.active == sets.seq()[i].1.active);
    if l != 0 {
        let k = choose|k: int| 0 <= k < v.len() && (#[trigger] v[k]).1.active == l;
        assert(sets.seq()[k].1.active == l);
    }
    if d != 0 {
        let k = choose|k: int|
            0 <= k < v.len() && (#[trigger] v[k]).1.workspaces.len() - v[k].1.active == d;
        assert(sets.seq()[k].1.workspaces@.len() - sets.seq()[k].1.active == d);
    }
}

} // verus!
