//! What mapping, moving and looking for windows does, in terms of the workspaces.
use crate::effects::{law_with_space, same_waiting};
use crate::element::{element_of, ElementId, SurfaceId};
use crate::fields::{law_last_focus, law_surface_index, same_settings};
use crate::geometry::Point;
use crate::output::Output;
use crate::protocol::{OutputId, WorkspaceHandle};
use crate::set::SetView;
use crate::shell::{around_all, surface_outputs, LayerId, ShellView};
use crate::toplevel::WindowId;
use crate::windows::{
    gets_focus, is_layer, is_window, lemma_other_space, KeyboardInteractivity, LayerKind,
};
use crate::workspace::{first_where, lemma_first_where, SeatId, WorkspaceView};
use vstd::prelude::*;

verus! {

/// A surface is on every output of the first element with it, on each workspace, and on no
/// other output.
pub proof fn law_surface_outputs(spaces: Seq<WorkspaceView>, surface: SurfaceId, o: OutputId)
    ensures
        surface_outputs(spaces, surface).contains(o) <==> exists|i: int|
            0 <= i < spaces.len() && (#[trigger] spaces[i]).shows_surface(surface)
                && spaces[i].mapped()[spaces[i].surface_index(surface)].outputs.contains(o),
    decreases spaces.len(),
{
    let r = surface_outputs(spaces, surface);
    if spaces.len() > 0 {
        let n = spaces.len() - 1;
        let before = spaces.drop_last();
        let b = surface_outputs(before, surface);
        let w = spaces.last();
        let e = w.mapped()[w.surface_index(surface)];
        law_surface_outputs(before, surface, o);
        if r.contains(o) {
            let q = choose|q: int| 0 <= q < r.len() && r[q] == o;
            if q < b.len() {
                assert(b[q] == o);
                let i = choose|i: int|
                    0 <= i < before.len() && (#[trigger] before[i]).shows_surface(surface)
                        && before[i].mapped()[before[i].surface_index(surface)].outputs.contains(o);
                assert(spaces[i] == before[i]);
            } else {
                assert(e.outputs[q - b.len()] == o);
                assert(spaces[n].shows_surface(surface));
            }
        }
        if exists|i: int|
            0 <= i < spaces.len() && (#[trigger] spaces[i]).shows_surface(surface)
                && spaces[i].mapped()[spaces[i].surface_index(surface)].outputs.contains(o) {
            let i = choose|i: int|
                0 <= i < spaces.len() && (#[trigger] spaces[i]).shows_surface(surface)
                    && spaces[i].mapped()[spaces[i].surface_index(surface)].outputs.contains(o);
            if i < n {
                assert(before[i] == spaces[i]);
                let q = choose|q: int| 0 <= q < b.len() && b[q] == o;
                assert(r[q] == o);
            } else {
                let q = choose|q: int| 0 <= q < e.outputs.len() && e.outputs[q] == o;
                assert(r[b.len() + q] == o);
            }
        }
    }
}

/// The outputs of a surface are those on the first workspaces and then those on the last ones.
/// On one workspace they are those of the first element with the surface, as they stand there.
pub proof fn law_surface_outputs_order(
    a: Seq<WorkspaceView>,
    b: Seq<WorkspaceView>,
    w: WorkspaceView,
    surface: SurfaceId,
    i: int,
)
    ensures
        surface_outputs(a + b, surface) == surface_outputs(a, surface) + surface_outputs(
            b,
            surface,
        ),
        0 <= i < w.mapped().len() && w.mapped()[i].surfaces.contains(surface) && (forall|j: int|
            0 <= j < i ==> !(#[trigger] w.mapped()[j]).surfaces.contains(surface))
            ==> surface_outputs(seq![w], surface) == w.mapped()[i].outputs,
        (forall|j: int|
            0 <= j < w.mapped().len() ==> !(#[trigger] w.mapped()[j]).surfaces.contains(surface))
            ==> surface_outputs(seq![w], surface).len() == 0,
    decreases b.len(),
{
    let one = seq![w];
    assert(one.drop_last() =~= Seq::<WorkspaceView>::empty());
    assert(surface_outputs(one.drop_last(), surface) =~= Seq::<OutputId>::empty());
    law_surface_index(w, surface, i);
    law_surface_index(w, surface, w.surface_index(surface));
    if w.shows_surface(surface) {
        let e = w.mapped()[w.surface_index(surface)];
        assert(surface_outputs(one, surface) =~= e.outputs);
        if 0 <= w.surface_index(surface) < i {
            assert(w.mapped()[w.surface_index(surface)].surfaces.contains(surface));
        }
    }
    if b.len() == 0 {
        assert(a + b =~= a);
    } else {
        law_surface_outputs_order(a, b.drop_last(), w, surface, i);
        assert((a + b).drop_last() =~= a + b.drop_last());
        assert((a + b).last() == b.last());
    }
    assert(surface_outputs(a + b, surface) =~= surface_outputs(a, surface) + surface_outputs(
        b,
        surface,
    ));
}

/// The pending entry of a window is the first one of its name. Without one, the position is
/// that behind the last.
pub proof fn law_pending_window(shell: ShellView, window: WindowId, i: int)
    ensures
        0 <= i < shell.pending_windows.len() && shell.pending_windows[i].0.id == window ==> {
            &&& 0 <= shell.pending_index(window) <= i
            &&& shell.pending_windows[shell.pending_index(window)].0.id == window
        },
        (forall|j: int|
            0 <= j < shell.pending_windows.len() ==> (#[trigger] shell.pending_windows[j]).0.id
                != window) ==> shell.pending_index(window) == shell.pending_windows.len(),
{
    let s = shell.pending_windows;
    let p = is_window(window);
    lemma_first_where(s, p);
    if 0 <= i < s.len() && i < first_where(s, p) {
        assert(!p(s[i]));
    }
    if first_where(s, p) < s.len() {
        assert(p(s[first_where(s, p)]));
    }
}

/// The pending entry of a layer surface is the first one of its name. Without one, the position
/// is that behind the last.
pub proof fn law_pending_layer(shell: ShellView, layer: LayerId, i: int)
    ensures
        0 <= i < shell.pending_layers.len() && shell.pending_layers[i].0 == layer ==> {
            &&& 0 <= shell.pending_layer_index(layer) <= i
            &&& shell.pending_layers[shell.pending_layer_index(layer)].0 == layer
        },
        (forall|j: int|
            0 <= j < shell.pending_layers.len() ==> (#[trigger] shell.pending_layers[j]).0 != layer)
            ==> shell.pending_layer_index(layer) == shell.pending_layers.len(),
{
    let s = shell.pending_layers;
    let p = is_layer(layer);
    lemma_first_where(s, p);
    if 0 <= i < s.len() && i < first_where(s, p) {
        assert(!p(s[i]));
    }
    if first_where(s, p) < s.len() {
        assert(p(s[first_where(s, p)]));
    }
}

/// Layer surfaces above the windows get the focus unless they never take the keyboard.
pub proof fn law_gets_focus(kind: LayerKind, interactivity: KeyboardInteractivity)
    ensures
        interactivity is Never ==> !gets_focus(kind, interactivity),
        kind is Background || kind is Bottom ==> !gets_focus(kind, interactivity),
        kind is Top && !(interactivity is Never) ==> gets_focus(kind, interactivity),
        kind is Overlay && !(interactivity is Never) ==> gets_focus(kind, interactivity),
{
}

/// The workspace of an element is the first one that has it. Without one, the position is that
/// behind the last. The same holds of surfaces.
pub proof fn law_space_positions(shell: ShellView, id: ElementId, surface: SurfaceId, i: int)
    ensures
        ({
            let s = shell.workspaces.spaces();
            &&& 0 <= i < s.len() && s[i].has(id) ==> 0 <= shell.space_index(id) <= i && s[
                shell.space_index(id)].has(id)
            &&& (forall|j: int| 0 <= j < s.len() ==> !(#[trigger] s[j]).has(id))
                ==> shell.space_index(id) == s.len()
            &&& 0 <= i < s.len() && s[i].shows_surface(surface) ==> 0 <= shell.surface_space(
                surface,
            ) <= i && s[shell.surface_space(surface)].shows_surface(surface)
            &&& (forall|j: int| 0 <= j < s.len() ==> !(#[trigger] s[j]).shows_surface(surface))
                ==> shell.surface_space(surface) == s.len()
        }),
{
    let s = shell.workspaces.spaces();
    let p = |w: WorkspaceView| w.has(id);
    let q = |w: WorkspaceView| w.shows_surface(surface);
    lemma_first_where(s, p);
    lemma_first_where(s, q);
    if 0 <= i < s.len() && i < first_where(s, p) {
        assert(!p(s[i]));
    }
    if 0 <= i < s.len() && i < first_where(s, q) {
        assert(!q(s[i]));
    }
    if first_where(s, p) < s.len() {
        assert(p(s[first_where(s, p)]));
    }
    if first_where(s, q) < s.len() {
        assert(q(s[first_where(s, q)]));
    }
}

/// A location on a workspace of an output's own counts from where the output lies. On shared
/// workspaces it is the global one.
pub proof fn law_locations(shell: ShellView, p: Point, output: Output)
    ensures
        shell.workspaces is Global ==> shell.to_space(p, output) == p && shell.to_global(p, output)
            == p,
        shell.workspaces is OutputBound ==> {
            let at = output.geometry.loc;
            let s = shell.to_space(p, output);
            let g = shell.to_global(p, output);
            &&& i32::MIN <= p.x - at.x <= i32::MAX ==> s.x == p.x - at.x
            &&& i32::MIN <= p.y - at.y <= i32::MAX ==> s.y == p.y - at.y
            &&& i32::MIN <= p.x + at.x <= i32::MAX ==> g.x == p.x + at.x
            &&& i32::MIN <= p.y + at.y <= i32::MAX ==> g.y == p.y + at.y
        },
{
}

/// The global space of no outputs is none, that of one output is where it lies, and another
/// output adds where it lies.
pub proof fn law_global_space_grows(outputs: Seq<Output>, o: Output)
    ensures
        around_all(Seq::<Output>::empty()) is None,
        around_all(seq![o]) == Some(o.geometry),
        outputs.len() > 0 ==> around_all(outputs) is Some && around_all(outputs.push(o)) == Some(
            (around_all(outputs)->0).around(o.geometry),
        ),
{
    let one = seq![o];
    assert(one.drop_last() =~= Seq::<Output>::empty());
    assert(around_all(one.drop_last()) is None);
    assert(outputs.push(o).drop_last() =~= outputs);
}

/// Mapping a window puts an element of that window alone on top of the active workspace of the
/// output. It floats if it should or if windows do unless told otherwise. Nothing else changes
/// on any workspace.
pub proof fn law_map_window(
    shell: ShellView,
    window: WindowId,
    output: OutputId,
    i: int,
    o: OutputId,
)
    requires
        shell.pending_index(window) < shell.pending_windows.len(),
        shell.workspaces.has_active(output),
    ensures
        ({
            let w = shell.pending_windows[shell.pending_index(window)].0;
            let floats = w.should_be_floating || shell.floating_default;
            let after = shell.with_window(window, output);
            let before_set = shell.workspaces.set_for(output)->0;
            let set = after.workspaces.set_for(output)->0;
            let old_space = before_set.workspaces[before_set.active];
            let space = set.workspaces[before_set.active];
            let e = if floats {
                space.floating_layer.last()
            } else {
                space.tiling_layer.last()
            };
            &&& after.workspaces.set_for(output) is Some
            &&& set.active == before_set.active
            &&& set.group == before_set.group
            &&& set.workspaces.len() == before_set.workspaces.len()
            &&& 0 <= i < set.workspaces.len() && i != set.active ==> set.workspaces[i]
                == before_set.workspaces[i]
            &&& shell.workspaces is OutputBound && o != output ==> after.workspaces.set_for(o)
                == shell.workspaces.set_for(o)
            &&& space.handle == old_space.handle
            &&& same_settings(space, old_space)
            &&& space.outputs == old_space.outputs
            &&& space.fullscreen == old_space.fullscreen
            &&& space.needs_refresh == old_space.needs_refresh
            &&& floats ==> space.floating_layer == old_space.floating_layer.push(e)
                && space.tiling_layer == old_space.tiling_layer
            &&& !floats ==> space.tiling_layer == old_space.tiling_layer.push(e)
                && space.floating_layer == old_space.floating_layer
            &&& e.id == w.id
            &&& e.windows.len() == 1 && e.windows[0].window == w.id
            &&& e.surfaces.len() == 1 && e.surfaces[0] == w.surface
        }),
{
    let space = shell.workspaces.active_space(output);
    let w = shell.pending_windows[shell.pending_index(window)].0;
    let floats = w.should_be_floating || shell.floating_default;
    law_with_space(
        shell.workspaces,
        shell.workspaces.active_index(output),
        output,
        space.with_element(element_of(w), floats),
        o,
    );
}

/// Mapping a window takes it off those that wait, and announces it on the output and on the
/// active workspace. Everything else stays.
pub proof fn law_map_window_rest(
    shell: ShellView,
    window: WindowId,
    output: OutputId,
    x: WindowId,
    h: u64,
)
    requires
        0 <= shell.pending_index(window) < shell.pending_windows.len(),
        shell.workspaces.has_active(output),
    ensures
        ({
            let pos = shell.pending_index(window);
            let w = shell.pending_windows[pos].0;
            let after = shell.with_window(window, output);
            let set = shell.workspaces.set_for(output)->0;
            &&& after.pending_windows == shell.pending_windows.remove(pos)
            &&& after.pending_layers == shell.pending_layers
            &&& after.workspace_amount == shell.workspace_amount
            &&& after.floating_default == shell.floating_default
            &&& after.outputs == shell.outputs
            &&& after.state == shell.state
            &&& after.toplevels.workspaces.contains((x, h))
                <==> shell.toplevels.workspaces.contains((x, h)) || (x == w.id && h
                == set.workspaces[set.active].handle)
            &&& after.toplevels.outputs.contains((x, h)) <==> shell.toplevels.outputs.contains(
                (x, h),
            ) || (x == w.id && h == output)
        }),
{
}

/// The popups of an element's windows go by where the element lies on its workspace, where the
/// window lies in it and where the window's content starts.
pub proof fn law_popups(shell: ShellView, id: ElementId, j: int)
    ensures
        ({
            let s = shell.workspaces.spaces();
            let i = shell.space_index(id);
            let e = s[i].element(id);
            &&& i >= s.len() ==> shell.popups(id).len() == 0
            &&& i < s.len() ==> shell.popups(id).len() == e.windows.len()
            &&& i < s.len() && 0 <= j < e.windows.len() ==> {
                let w = e.windows[j];
                let p = shell.popups(id)[j];
                let x = e.location.x + w.offset.x;
                let y = e.location.y + w.offset.y;
                &&& p.window == w.window
                &&& i32::MIN <= x <= i32::MAX && i32::MIN <= x + w.geometry_loc.x <= i32::MAX
                    ==> p.location.x == x + w.geometry_loc.x
                &&& i32::MIN <= y <= i32::MAX && i32::MIN <= y + w.geometry_loc.y <= i32::MAX
                    ==> p.location.y == y + w.geometry_loc.y
            }
        }),
{
}

/// The element that a seat has the focus on is that of the latest entry of the seat on the
/// active workspace of the output. Without an entry of the seat there is none.
pub proof fn law_current(shell: ShellView, seat: SeatId, output: OutputId)
    requires
        shell.workspaces.has_active(output),
    ensures
        ({
            let set = shell.workspaces.set_for(output)->0;
            let s = set.workspaces[set.active].focus_stack;
            &&& forall|id: ElementId|
                shell.current(seat, output) == Some(id) <==> exists|k: int|
                    0 <= k < s.len() && #[trigger] s[k] == (seat, id) && forall|j: int|
                        k < j < s.len() ==> (#[trigger] s[j]).0 != seat
            &&& shell.current(seat, output) is None <==> forall|j: int|
                0 <= j < s.len() ==> (#[trigger] s[j]).0 != seat
        }),
{
    let set = shell.workspaces.set_for(output)->0;
    let s = set.workspaces[set.active].focus_stack;
    law_last_focus(s, seat);
    let r = shell.current(seat, output);
    assert forall|id: ElementId|
        (exists|k: int|
            0 <= k < s.len() && #[trigger] s[k] == (seat, id) && forall|j: int|
                k < j < s.len() ==> (#[trigger] s[j]).0 != seat) implies r == Some(id) by {
        let k = choose|k: int|
            0 <= k < s.len() && #[trigger] s[k] == (seat, id) && forall|j: int|
                k < j < s.len() ==> (#[trigger] s[j]).0 != seat;
        match r {
            Some(other) => {
                let q = choose|q: int|
                    0 <= q < s.len() && #[trigger] s[q] == (seat, other) && forall|j: int|
                        q < j < s.len() ==> (#[trigger] s[j]).0 != seat;
                if q < k {
                    assert(s[k].0 != seat);
                } else if k < q {
                    assert(s[q].0 != seat);
                }
            },
            None => {
                assert(s[k].0 != seat);
            },
        }
    }
    if r is Some {
        let k = choose|k: int|
            0 <= k < s.len() && #[trigger] s[k] == (seat, r->0) && forall|j: int|
                k < j < s.len() ==> (#[trigger] s[j]).0 != seat;
        assert(!(s[k].0 != seat));
    }
}

/// When a move is done, and when it can be.
pub proof fn law_can_move(shell: ShellView, seat: SeatId, output: OutputId, idx: int)
    requires
        shell.workspaces.has_active(output),
    ensures
        ({
            let set = shell.workspaces.set_for(output)->0;
            let focus = shell.current(seat, output);
            &&& shell.moves(seat, output, idx) <==> idx != set.active && focus is Some
            &&& idx == set.active ==> shell.can_move(seat, output, idx)
            &&& focus is None ==> shell.can_move(seat, output, idx)
            &&& focus is Some && 0 <= idx < set.workspaces.len()
                && set.workspaces[set.active].on_one_layer(focus->0) ==> shell.can_move(
                seat,
                output,
                idx,
            )
        }),
{
}

/// Moving to the active position is always possible where there is a set.
pub proof fn law_can_stay(shell: ShellView, seat: SeatId, output: OutputId, set: SetView)
    requires
        shell.workspaces.set_for(output) == Some(set),
    ensures
        shell.can_move(seat, output, set.active),
        !shell.moves(seat, output, set.active),
{
}

/// Moving an element takes it off the active workspace of the output and puts it on top of the
/// same layer of the other one, as it is. Nothing else changes on any workspace.
pub proof fn law_move(
    shell: ShellView,
    id: ElementId,
    output: OutputId,
    idx: int,
    i: int,
    o: OutputId,
)
    requires
        shell.workspaces.has_active(output),
        0 <= idx < (shell.workspaces.set_for(output)->0).workspaces.len(),
        idx != shell.workspaces.active_index(output),
        shell.workspaces.active_space(output).on_one_layer(id),
    ensures
        ({
            let before = shell.workspaces.set_for(output)->0;
            let after = shell.with_moved(id, output, idx);
            let set = after.workspaces.set_for(output)->0;
            let from = before.workspaces[before.active];
            let left = set.workspaces[before.active];
            let to = before.workspaces[idx];
            let got = set.workspaces[idx];
            let e = from.element(id);
            &&& after.workspaces.set_for(output) is Some
            &&& set.active == before.active
            &&& set.group == before.group
            &&& set.workspaces.len() == before.workspaces.len()
            &&& 0 <= i < set.workspaces.len() && i != before.active && i != idx
                ==> set.workspaces[i] == before.workspaces[i]
            &&& shell.workspaces is OutputBound && o != output ==> after.workspaces.set_for(o)
                == shell.workspaces.set_for(o)
            &&& left == from.without_element(id)
            &&& from.floats(id) ==> got.floating_layer == to.floating_layer.push(e)
                && got.tiling_layer == to.tiling_layer
            &&& !from.floats(id) ==> got.tiling_layer == to.tiling_layer.push(e)
                && got.floating_layer == to.floating_layer
            &&& got.handle == to.handle
            &&& same_settings(got, to)
            &&& got.outputs == to.outputs
            &&& got.fullscreen == to.fullscreen
            &&& got.needs_refresh == to.needs_refresh
        }),
{
    let a = shell.workspaces.active_index(output);
    let space = shell.workspaces.active_space(output);
    let left = space.without_element(id);
    law_with_space(shell.workspaces, a, output, left, o);
    let mid = shell.workspaces.with_space(a, output, left);
    lemma_other_space(shell.workspaces, output, left, idx);
    let to = mid.space(idx, output)->0;
    law_with_space(mid, idx, output, to.with_element(space.element(id), space.floats(id)), o);
}

/// Moving an element announces its windows on the workspace that it went to, and no longer on
/// the one that it left. That it went to is not hidden any more. Everything else stays.
pub proof fn law_move_rest(
    shell: ShellView,
    id: ElementId,
    output: OutputId,
    idx: int,
    x: WindowId,
    h: WorkspaceHandle,
)
    requires
        shell.wf(),
        shell.workspaces.has_active(output),
        0 <= idx < (shell.workspaces.set_for(output)->0).workspaces.len(),
        idx != shell.workspaces.active_index(output),
        shell.workspaces.active_space(output).on_one_layer(id),
    ensures
        ({
            let before = shell.workspaces.set_for(output)->0;
            let from = before.workspaces[before.active];
            let to = before.workspaces[idx];
            let after = shell.with_moved(id, output, idx);
            let shows = exists|j: int|
                0 <= j < from.element(id).windows.len() && (#[trigger] from.element(
                    id,
                ).windows[j]).window == x;
            let a = after.state.workspaces[h];
            let b = shell.state.workspaces[h];
            &&& same_waiting(after, shell)
            &&& after.outputs == shell.outputs
            &&& after.toplevels.outputs == shell.toplevels.outputs
            &&& after.toplevels.workspaces.contains((x, h)) <==> (
            shell.toplevels.workspaces.contains((x, h)) && !(shows && h == from.handle)) || (shows
                && h == to.handle)
            &&& after.state.groups == shell.state.groups
            &&& after.state.next == shell.state.next
            &&& after.state.workspaces.dom().contains(h)
                <==> shell.state.workspaces.dom().contains(h)
            &&& h != to.handle ==> a == b
            &&& h == to.handle && shell.state.workspaces.dom().contains(h) ==> !a.hidden
            &&& a.active == b.active && a.group == b.group && a.name == b.name && a.coordinates
                == b.coordinates && a.can_activate == b.can_activate
        }),
{
    let space = shell.workspaces.active_space(output);
    let left = space.without_element(id);
    lemma_other_space(shell.workspaces, output, left, idx);
}

} // verus!
