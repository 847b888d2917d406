//! What a caller sees of each operation: what it gives back and what it leaves behind, for
//! whatever it was called with.
use crate::arrivals::{
    law_current, law_global_space_grows, law_map_window, law_map_window_rest, law_move,
    law_move_rest, law_pending_layer,
    law_pending_window, law_space_positions, law_surface_outputs,
};
use crate::changes::{
    law_dynamic_entries, law_dynamic_order, law_set_activated, law_set_refreshed, law_static_fewer,
    law_static_fewer_told, law_static_more, same_but_active,
};
use crate::config::{Config, WorkspaceMode as ConfigMode};
use crate::effects::{
    entry_started, law_add_known_output, law_add_new_output, law_add_new_output_rest,
    law_add_output_global, law_handover, law_handover_rest, law_outputs_placed, law_refresh_rest,
    law_release, law_remove_global, law_remove_keeps_active, law_remove_plain, law_set_for,
    law_shell_activated, same_waiting,
};
use crate::element::{Element, ElementId, Layer, SurfaceId, Window};
use crate::fields::{
    law_decimal, law_element_named, law_last_focus, law_surface_index, law_with_started,
    law_workspace_outputs, law_without_element, numeral, same_but_layout, same_elements,
    same_settings,
};
use crate::geometry::{Point, Rectangle};
use crate::laws::law_dynamic_ends_empty;
use crate::mode::{ModeView, WorkspaceMode};
use crate::modes::{law_lead, law_merge, law_merge_entries, law_split, law_split_entries};
use crate::output::Output;
use crate::possible::lemma_first_other;
use crate::protocol::{
    number_text, Coordinates, OutputId, WState, WorkspaceGroupHandle, WorkspaceHandle,
    WorkspaceState,
};
use crate::set::{
    create_workspace, init_workspace_handle, start_workspace, SetScene, WorkspaceAmount,
    WorkspaceSet,
};
use crate::shell::{around_all, is_among, LayerId, MotionEvent, Shell};
use crate::split::outputs_distinct;
use crate::table::{has_key, lemma_slot};
use crate::toplevel::{ToplevelInfoState, WindowId};
use crate::windows::{
    wants_focus, KeyboardInteractivity, LayerKind, MappedLayer, MappedWindow, PopupUpdate,
};
use crate::workspace::{first_where, lemma_first_where, SeatId, Workspace};
use vstd::prelude::*;

verus! {

/// Adding and subtracting points gives what their coordinates say.
pub proof fn law_point_results(a: Point, b: Point, origin: Point, sum: Point, difference: Point)
    requires
        call_ensures(Point::origin, (), origin),
        call_ensures(Point::offset_by, (a, b), sum),
        call_ensures(Point::relative_to, (a, b), difference),
    ensures
        origin.x == 0 && origin.y == 0,
        i32::MIN <= a.x + b.x <= i32::MAX ==> sum.x == a.x + b.x,
        i32::MIN <= a.y + b.y <= i32::MAX ==> sum.y == a.y + b.y,
        i32::MIN <= a.x - b.x <= i32::MAX ==> difference.x == a.x - b.x,
        i32::MIN <= a.y - b.y <= i32::MAX ==> difference.y == a.y - b.y,
{
}

/// A merged rectangle is the least one around both, where its size can be measured.
pub proof fn law_merged_rectangle(a: Rectangle, b: Rectangle, r: Rectangle)
    requires
        call_ensures(Rectangle::merge, (a, b), r),
        a.size.w >= 0 && a.size.h >= 0 && b.size.w >= 0 && b.size.h >= 0,
        a.loc.x + a.size.w <= i32::MAX && b.loc.x + b.size.w <= i32::MAX,
        a.loc.y + a.size.h <= i32::MAX && b.loc.y + b.size.h <= i32::MAX,
        a.loc.x + a.size.w - b.loc.x <= i32::MAX && b.loc.x + b.size.w - a.loc.x <= i32::MAX,
        a.loc.y + a.size.h - b.loc.y <= i32::MAX && b.loc.y + b.size.h - a.loc.y <= i32::MAX,
    ensures
        call_requires(Rectangle::merge, (a, b)),
        r.loc.x <= a.loc.x && r.loc.x <= b.loc.x,
        r.loc.x == a.loc.x || r.loc.x == b.loc.x,
        r.loc.y <= a.loc.y && r.loc.y <= b.loc.y,
        r.loc.y == a.loc.y || r.loc.y == b.loc.y,
        r.loc.x + r.size.w >= a.loc.x + a.size.w && r.loc.x + r.size.w >= b.loc.x + b.size.w,
        r.loc.x + r.size.w == a.loc.x + a.size.w || r.loc.x + r.size.w == b.loc.x + b.size.w,
        r.loc.y + r.size.h >= a.loc.y + a.size.h && r.loc.y + r.size.h >= b.loc.y + b.size.h,
        r.loc.y + r.size.h == a.loc.y + a.size.h || r.loc.y + r.size.h == b.loc.y + b.size.h,
{
}

/// An output lies where its part of the global space starts.
pub proof fn law_current_location(output: Output, p: Point)
    requires
        call_ensures(Output::current_location, (&output,), p),
    ensures
        p == output.geometry.loc,
{
}

/// A number is written in digits that stand for it.
pub proof fn law_number_text(n: u16, s: String)
    requires
        call_ensures(number_text, (n,), s),
    ensures
        numeral(s@) == n,
        s@.len() > 0,
        s@.len() > 1 ==> s@[0] != '0',
{
    law_decimal(n as nat);
}

/// Nothing is announced at first.
pub proof fn law_new_registries(state: WorkspaceState, t: ToplevelInfoState)
    requires
        call_ensures(WorkspaceState::new, (), state),
        call_ensures(ToplevelInfoState::new, (), t),
    ensures
        state@.groups == Map::<u64, Set<OutputId>>::empty(),
        state@.workspaces.dom() == Set::<WorkspaceHandle>::empty(),
        state@.next == 0,
        t@.workspaces == Set::<(WindowId, WorkspaceHandle)>::empty(),
        t@.outputs == Set::<(WindowId, OutputId)>::empty(),
{
}

/// A new group goes by a handle that is new, and has no outputs.
pub proof fn law_create_group(state: &mut WorkspaceState, g: WorkspaceGroupHandle, k: u64)
    requires
        old(state).wf(),
        old(state)@.next < u64::MAX,
        call_ensures(WorkspaceState::create_workspace_group, (state,), g),
    ensures
        call_requires(WorkspaceState::create_workspace_group, (state,)),
        !old(state)@.groups.dom().contains(g),
        !old(state)@.workspaces.dom().contains(g),
        g == old(state)@.next,
        final(state)@.groups.dom().contains(k) <==> old(state)@.groups.dom().contains(k) || k == g,
        final(state)@.groups[g] == Set::<OutputId>::empty(),
        k != g ==> final(state)@.groups[k] == old(state)@.groups[k],
        final(state)@.workspaces == old(state)@.workspaces,
        final(state)@.next == old(state)@.next + 1,
{
}

/// A new workspace goes by a handle that is new, in a group that there is. Without the group
/// there is none.
pub proof fn law_create_workspace(
    state: &mut WorkspaceState,
    group: WorkspaceGroupHandle,
    r: Option<WorkspaceHandle>,
    k: u64,
)
    requires
        old(state).wf(),
        old(state)@.next < u64::MAX,
        call_ensures(WorkspaceState::create_workspace, (state, group), r),
    ensures
        call_requires(WorkspaceState::create_workspace, (state, group)),
        r is Some <==> old(state)@.groups.dom().contains(group),
        r is None ==> final(state)@ == old(state)@,
        r matches Some(h) ==> {
            let e = final(state)@.workspaces[h];
            &&& h == old(state)@.next
            &&& !old(state)@.workspaces.dom().contains(h)
            &&& final(state)@.workspaces.dom().contains(k)
                <==> old(state)@.workspaces.dom().contains(k) || k == h
            &&& k != h ==> final(state)@.workspaces[k] == old(state)@.workspaces[k]
            &&& e.group == group
            &&& !e.active && !e.hidden && !e.can_activate
            &&& final(state)@.groups == old(state)@.groups
            &&& final(state)@.next == old(state)@.next + 1
        },
{
}

/// Setting a state of a workspace sets just that.
pub proof fn law_add_state(
    state: &mut WorkspaceState,
    handle: WorkspaceHandle,
    s: WState,
    k: WorkspaceHandle,
)
    requires
        old(state).wf(),
        call_ensures(WorkspaceState::add_workspace_state, (state, handle, s), ()),
    ensures
        call_requires(WorkspaceState::add_workspace_state, (state, handle, s)),
        final(state)@.groups == old(state)@.groups,
        final(state)@.next == old(state)@.next,
        final(state)@.workspaces.dom() == old(state)@.workspaces.dom(),
        k != handle ==> final(state)@.workspaces[k] == old(state)@.workspaces[k],
        old(state)@.workspaces.dom().contains(handle) ==> {
            let a = final(state)@.workspaces[handle];
            let b = old(state)@.workspaces[handle];
            &&& a.active == (b.active || s is Active)
            &&& a.hidden == (b.hidden || s is Hidden)
            &&& a.group == b.group && a.name == b.name && a.coordinates == b.coordinates
                && a.can_activate == b.can_activate
        },
{
    assert(final(state)@.workspaces.dom() =~= old(state)@.workspaces.dom());
}

/// Taking a state off a workspace takes off just that.
pub proof fn law_remove_state(
    state: &mut WorkspaceState,
    handle: WorkspaceHandle,
    s: WState,
    k: WorkspaceHandle,
)
    requires
        old(state).wf(),
        call_ensures(WorkspaceState::remove_workspace_state, (state, handle, s), ()),
    ensures
        call_requires(WorkspaceState::remove_workspace_state, (state, handle, s)),
        final(state)@.groups == old(state)@.groups,
        final(state)@.next == old(state)@.next,
        final(state)@.workspaces.dom() == old(state)@.workspaces.dom(),
        k != handle ==> final(state)@.workspaces[k] == old(state)@.workspaces[k],
        old(state)@.workspaces.dom().contains(handle) ==> {
            let a = final(state)@.workspaces[handle];
            let b = old(state)@.workspaces[handle];
            &&& a.active == (b.active && !(s is Active))
            &&& a.hidden == (b.hidden && !(s is Hidden))
            &&& a.group == b.group && a.name == b.name && a.coordinates == b.coordinates
                && a.can_activate == b.can_activate
        },
{
    assert(final(state)@.workspaces.dom() =~= old(state)@.workspaces.dom());
}

/// Withdrawing a workspace withdraws that one.
pub proof fn law_remove_workspace(state: &mut WorkspaceState, handle: WorkspaceHandle, k: u64)
    requires
        old(state).wf(),
        call_ensures(WorkspaceState::remove_workspace, (state, handle), ()),
    ensures
        call_requires(WorkspaceState::remove_workspace, (state, handle)),
        final(state)@.groups == old(state)@.groups,
        final(state)@.next == old(state)@.next,
        final(state)@.workspaces.dom().contains(k) <==> old(state)@.workspaces.dom().contains(k) && k
            != handle,
        k != handle && old(state)@.workspaces.dom().contains(k) ==> final(state)@.workspaces[k]
            == old(state)@.workspaces[k],
{
}

/// Withdrawing a group withdraws that one.
pub proof fn law_remove_group(state: &mut WorkspaceState, group: WorkspaceGroupHandle, k: u64)
    requires
        old(state).wf(),
        call_ensures(WorkspaceState::remove_workspace_group, (state, group), ()),
    ensures
        call_requires(WorkspaceState::remove_workspace_group, (state, group)),
        final(state)@.workspaces == old(state)@.workspaces,
        final(state)@.next == old(state)@.next,
        final(state)@.groups.dom().contains(k) <==> old(state)@.groups.dom().contains(k) && k
            != group,
        k != group && old(state)@.groups.dom().contains(k) ==> final(state)@.groups[k]
            == old(state)@.groups[k],
{
}

/// An output is added to just the group named.
pub proof fn law_add_group_output(
    state: &mut WorkspaceState,
    group: WorkspaceGroupHandle,
    output: OutputId,
    k: WorkspaceGroupHandle,
    o: OutputId,
)
    requires
        old(state).wf(),
        call_ensures(WorkspaceState::add_group_output, (state, group, output), ()),
    ensures
        call_requires(WorkspaceState::add_group_output, (state, group, output)),
        final(state)@.workspaces == old(state)@.workspaces,
        final(state)@.next == old(state)@.next,
        final(state)@.groups.dom().contains(k) <==> old(state)@.groups.dom().contains(k),
        old(state)@.groups.dom().contains(k) ==> (final(state)@.groups[k].contains(o)
            <==> old(state)@.groups[k].contains(o) || (k == group && o == output)),
{
}

/// An output is taken out of just the group named.
pub proof fn law_remove_group_output(
    state: &mut WorkspaceState,
    group: WorkspaceGroupHandle,
    output: OutputId,
    k: WorkspaceGroupHandle,
    o: OutputId,
)
    requires
        old(state).wf(),
        call_ensures(WorkspaceState::remove_group_output, (state, group, output), ()),
    ensures
        call_requires(WorkspaceState::remove_group_output, (state, group, output)),
        final(state)@.workspaces == old(state)@.workspaces,
        final(state)@.next == old(state)@.next,
        final(state)@.groups.dom().contains(k) <==> old(state)@.groups.dom().contains(k),
        old(state)@.groups.dom().contains(k) ==> (final(state)@.groups[k].contains(o)
            <==> old(state)@.groups[k].contains(o) && !(k == group && o == output)),
{
}

/// A workspace that gets its place is named by it, lies there, can be activated and is hidden.
pub proof fn law_init_workspace_handle(
    state: &mut WorkspaceState,
    idx: u8,
    handle: WorkspaceHandle,
    k: WorkspaceHandle,
)
    requires
        old(state).wf(),
        idx < 255,
        call_ensures(init_workspace_handle, (state, idx, handle), ()),
    ensures
        call_requires(init_workspace_handle, (state, idx, handle)),
        final(state)@.groups == old(state)@.groups,
        final(state)@.next == old(state)@.next,
        k != handle ==> final(state)@.workspaces[k] == old(state)@.workspaces[k],
        final(state)@.workspaces.dom().contains(k) <==> old(state)@.workspaces.dom().contains(k),
        old(state)@.workspaces.dom().contains(handle) ==> {
            let e = final(state)@.workspaces[handle];
            &&& numeral(e.name) == idx + 1
            &&& e.coordinates == (Some(idx as u32), None::<u32>, None::<u32>)
            &&& e.can_activate
            &&& e.hidden
            &&& e.active == old(state)@.workspaces[handle].active
            &&& e.group == old(state)@.workspaces[handle].group
        },
{
    law_decimal((idx + 1) as nat);
}

/// A workspace that starts goes by the next handle and is announced at its place.
pub proof fn law_start_workspace(
    state: &mut WorkspaceState,
    group: WorkspaceGroupHandle,
    idx: u8,
    active: bool,
    w: Workspace,
    k: WorkspaceHandle,
)
    requires
        old(state).wf(),
        old(state)@.groups.dom().contains(group),
        old(state)@.next < u64::MAX,
        idx < 255,
        call_ensures(start_workspace, (state, group, idx, active), w),
    ensures
        call_requires(start_workspace, (state, group, idx, active)),
        w.handle == old(state)@.next,
        w.tiling_enabled,
        w@.mapped().len() == 0,
        w@.outputs == Map::<OutputId, Point>::empty(),
        final(state)@.groups == old(state)@.groups,
        final(state)@.next == old(state)@.next + 1,
        entry_started(final(state)@, w.handle, group, idx as int, active),
        k != w.handle ==> final(state)@.workspaces[k] == old(state)@.workspaces[k],
        k != w.handle ==> (final(state)@.workspaces.dom().contains(k)
            <==> old(state)@.workspaces.dom().contains(k)),
{
    law_decimal((idx + 1) as nat);
}

/// A workspace that is created starts at the first place.
pub proof fn law_created_workspace(
    state: &mut WorkspaceState,
    group: WorkspaceGroupHandle,
    active: bool,
    w: Workspace,
)
    requires
        old(state).wf(),
        old(state)@.groups.dom().contains(group),
        old(state)@.next < u64::MAX,
        call_ensures(create_workspace, (state, group, active), w),
    ensures
        call_requires(create_workspace, (state, group, active)),
        w.handle == old(state)@.next,
        w.tiling_enabled,
        w@.mapped().len() == 0,
        final(state)@.next == old(state)@.next + 1,
        entry_started(final(state)@, w.handle, group, 0, active),
{
    law_decimal(1);
}

/// A new set has a group of its own and one workspace if it is dynamic, else as many as there
/// are to be. The first one is active.
pub proof fn law_new_set(
    state: &mut WorkspaceState,
    amount: WorkspaceAmount,
    set: WorkspaceSet,
    i: int,
)
    requires
        old(state).wf(),
        old(state)@.next + 256 <= u64::MAX,
        call_ensures(WorkspaceSet::new, (state, amount), set),
    ensures
        call_requires(WorkspaceSet::new, (state, amount)),
        set.active == 0,
        set.group == old(state)@.next,
        amount is Dynamic ==> set@.workspaces.len() == 1,
        amount matches WorkspaceAmount::Static(len) ==> set@.workspaces.len() == len,
        final(state)@.groups.dom().contains(set.group),
        final(state)@.groups[set.group] == Set::<OutputId>::empty(),
        0 <= i < set@.workspaces.len() ==> {
            &&& set@.workspaces[i].handle == old(state)@.next + 1 + i
            &&& set@.workspaces[i].tiling_enabled
            &&& set@.workspaces[i].mapped().len() == 0
            &&& entry_started(final(state)@, set@.workspaces[i].handle, set.group, 0, i == 0)
        },
{
    if 0 <= i < set@.workspaces.len() {
        law_with_started(
            old(state)@.with_new_group(),
            set.group,
            amount.initial(),
            true,
            set@.workspaces[i].handle,
        );
    }
}

/// A new workspace is tiled, with nothing on it.
pub proof fn law_workspace_new(handle: WorkspaceHandle, w: Workspace)
    requires
        call_ensures(Workspace::new, (handle,), w),
    ensures
        w.handle == handle,
        w.tiling_enabled,
        w@.tiling_layer.len() == 0 && w@.floating_layer.len() == 0,
        w.focus_stack@.len() == 0,
        w@.outputs == Map::<OutputId, Point>::empty(),
        w@.fullscreen == Map::<OutputId, WindowId>::empty(),
        !w.needs_refresh,
{
}

/// What a workspace answers about its elements and windows.
pub proof fn law_workspace_asked(
    w: Workspace,
    id: ElementId,
    has_windows: bool,
    has_element: bool,
    ids: Vec<ElementId>,
    i: int,
)
    requires
        call_ensures(Workspace::has_windows, (&w,), has_windows),
        call_ensures(Workspace::has_element, (&w, id), has_element),
        call_ensures(Workspace::mapped_ids, (&w,), ids),
    ensures
        has_windows <==> exists|x: WindowId| w@.windows().contains(x),
        has_element <==> exists|j: int|
            0 <= j < w@.mapped().len() && (#[trigger] w@.mapped()[j]).id == id,
        ids@.len() == w@.mapped().len(),
        0 <= i < ids@.len() ==> ids@[i] == w@.mapped()[i].id,
{
}

/// The element that has the focus of a seat is that of the seat's latest entry.
pub proof fn law_focused(w: Workspace, seat: SeatId, r: Option<ElementId>)
    requires
        call_ensures(Workspace::focused, (&w, seat), r),
    ensures
        ({
            let s = w.focus_stack@;
            &&& r is None <==> forall|j: int| 0 <= j < s.len() ==> (#[trigger] s[j]).0 != seat
            &&& r matches Some(id) ==> exists|k: int|
                0 <= k < s.len() && #[trigger] s[k] == (seat, id) && forall|j: int|
                    k < j < s.len() ==> (#[trigger] s[j]).0 != seat
        }),
{
    law_last_focus(w.focus_stack@, seat);
}

/// An element is found by its name, and by its surface: the first one, those that float first.
pub proof fn law_workspace_found(
    w: Workspace,
    id: ElementId,
    surface: SurfaceId,
    by_name: Option<&Element>,
    by_surface: Option<&Element>,
    i: int,
)
    requires
        call_ensures(Workspace::element, (&w, id), by_name),
        call_ensures(Workspace::element_for_surface, (&w, surface), by_surface),
    ensures
        by_name is Some <==> exists|j: int|
            0 <= j < w@.mapped().len() && (#[trigger] w@.mapped()[j]).id == id,
        by_name matches Some(e) ==> {
            &&& 0 <= i < w@.mapped().len() && w@.mapped()[i].id == id && (forall|j: int|
                0 <= j < i ==> (#[trigger] w@.mapped()[j]).id != id) ==> e@ == w@.mapped()[i]
        },
        by_surface is Some <==> exists|j: int|
            0 <= j < w@.mapped().len() && (#[trigger] w@.mapped()[j]).surfaces.contains(surface),
        by_surface matches Some(e) ==> {
            &&& 0 <= i < w@.mapped().len() && w@.mapped()[i].surfaces.contains(surface) && (
            forall|j: int| 0 <= j < i ==> !(#[trigger] w@.mapped()[j]).surfaces.contains(surface))
                ==> e@ == w@.mapped()[i]
        },
{
    let m = w@.mapped();
    if 0 <= i < m.len() && m[i].id == id && (forall|j: int|
        0 <= j < i ==> (#[trigger] m[j]).id != id) {
        law_element_named(w@, id, i);
    }
    law_surface_index(w@, surface, i);
    if w@.shows_surface(surface) {
        law_surface_index(w@, surface, w@.surface_index(surface));
        assert(m[w@.surface_index(surface)].surfaces.contains(surface));
    }
    if exists|j: int| 0 <= j < m.len() && (#[trigger] m[j]).surfaces.contains(surface) {
        let j = choose|j: int| 0 <= j < m.len() && (#[trigger] m[j]).surfaces.contains(surface);
        law_surface_index(w@, surface, j);
    }
}

/// Mapping puts an element on top of the layer named.
pub proof fn law_workspace_map(w: &mut Workspace, e: Element, floating: bool)
    requires
        old(w).wf(),
        call_ensures(Workspace::map, (w, e, floating), ()),
    ensures
        call_requires(Workspace::map, (w, e, floating)),
        final(w)@.floating_layer == (if floating {
            old(w)@.floating_layer.push(e@)
        } else {
            old(w)@.floating_layer
        }),
        final(w)@.tiling_layer == (if floating {
            old(w)@.tiling_layer
        } else {
            old(w)@.tiling_layer.push(e@)
        }),
        final(w)@.handle == old(w)@.handle,
        same_settings(final(w)@, old(w)@),
        final(w)@.outputs == old(w)@.outputs,
        final(w)@.fullscreen == old(w)@.fullscreen,
        final(w)@.needs_refresh == old(w)@.needs_refresh,
{
}

/// Unmapping hands an element out with the layer that it was on, and takes it off that.
pub proof fn law_workspace_unmap(w: &mut Workspace, id: ElementId, r: (Element, bool), i: int)
    requires
        old(w).wf(),
        old(w)@.on_one_layer(id),
        call_ensures(Workspace::unmap, (w, id), r),
    ensures
        call_requires(Workspace::unmap, (w, id)),
        r.1 <==> exists|j: int|
            0 <= j < old(w)@.floating_layer.len() && (#[trigger] old(w)@.floating_layer[j]).id
                == id,
        0 <= i < old(w)@.floating_layer.len() && old(w)@.floating_layer[i].id == id && (forall|
            j: int,
        |
            0 <= j < i ==> (#[trigger] old(w)@.floating_layer[j]).id != id) ==> r.0@
            == old(w)@.floating_layer[i] && final(w)@.floating_layer
            == old(w)@.floating_layer.remove(i) && final(w)@.tiling_layer == old(w)@.tiling_layer,
        0 <= i < old(w)@.tiling_layer.len() && old(w)@.tiling_layer[i].id == id && (forall|j: int|
            0 <= j < i ==> (#[trigger] old(w)@.tiling_layer[j]).id != id) ==> r.0@
            == old(w)@.tiling_layer[i] && final(w)@.tiling_layer == old(w)@.tiling_layer.remove(i)
            && final(w)@.floating_layer == old(w)@.floating_layer,
        final(w)@.handle == old(w)@.handle,
        same_settings(final(w)@, old(w)@),
        final(w)@.outputs == old(w)@.outputs,
        final(w)@.fullscreen == old(w)@.fullscreen,
        final(w)@.needs_refresh == old(w)@.needs_refresh,
{
    law_without_element(old(w)@, id, i);
}

/// Merging takes in the elements of another workspace, layer by layer.
pub proof fn law_workspace_merge(w: &mut Workspace, other: Workspace, o: OutputId)
    requires
        old(w).wf(),
        other.wf(),
        call_ensures(Workspace::merge, (w, &other), ()),
    ensures
        call_requires(Workspace::merge, (w, &other)),
        final(w)@.tiling_layer == old(w)@.tiling_layer + other@.tiling_layer,
        final(w)@.floating_layer == old(w)@.floating_layer + other@.floating_layer,
        final(w)@.fullscreen.dom().contains(o) <==> old(w)@.fullscreen.dom().contains(o)
            || other@.fullscreen.dom().contains(o),
        other@.fullscreen.dom().contains(o) ==> final(w)@.fullscreen[o] == other@.fullscreen[o],
        final(w)@.handle == old(w)@.handle,
        same_settings(final(w)@, old(w)@),
        final(w)@.outputs == old(w)@.outputs,
        final(w)@.needs_refresh == old(w)@.needs_refresh,
{
}

/// Showing an output on a workspace.
pub proof fn law_workspace_map_output(w: &mut Workspace, output: OutputId, at: Point)
    requires
        old(w).wf(),
        call_ensures(Workspace::map_output, (w, output, at), ()),
    ensures
        call_requires(Workspace::map_output, (w, output, at)),
        final(w)@.outputs == old(w)@.outputs.insert(output, at),
        final(w)@.handle == old(w)@.handle,
        same_elements(final(w)@, old(w)@),
        same_settings(final(w)@, old(w)@),
        final(w)@.needs_refresh == old(w)@.needs_refresh,
{
}

/// Showing an output on a workspace no longer.
pub proof fn law_workspace_unmap_output(w: &mut Workspace, output: OutputId)
    requires
        old(w).wf(),
        call_ensures(Workspace::unmap_output, (w, output), ()),
    ensures
        call_requires(Workspace::unmap_output, (w, output)),
        final(w)@.outputs == old(w)@.outputs.remove(output),
        final(w)@.handle == old(w)@.handle,
        same_elements(final(w)@, old(w)@),
        same_settings(final(w)@, old(w)@),
        final(w)@.needs_refresh == old(w)@.needs_refresh,
{
}

/// Refreshing a workspace asks for a new layout and changes nothing else.
pub proof fn law_workspace_refresh(w: &mut Workspace)
    requires
        old(w).wf(),
        call_ensures(Workspace::refresh, (w,), ()),
    ensures
        call_requires(Workspace::refresh, (w,)),
        final(w)@.needs_refresh,
        final(w)@.handle == old(w)@.handle,
        same_elements(final(w)@, old(w)@),
        same_settings(final(w)@, old(w)@),
        final(w)@.outputs == old(w)@.outputs,
{
}

/// The windows of a workspace enter the workspace named.
pub proof fn law_workspace_enter(
    w: Workspace,
    t: &mut ToplevelInfoState,
    to: WorkspaceHandle,
    x: WindowId,
    h: WorkspaceHandle,
)
    requires
        call_ensures(Workspace::enter, (&w, t, to), ()),
    ensures
        final(t)@.workspaces.contains((x, h)) <==> old(t)@.workspaces.contains((x, h)) || (h == to
            && w@.windows().contains(x)),
        final(t)@.outputs == old(t)@.outputs,
{
}

/// The windows of a workspace leave the workspace named.
pub proof fn law_workspace_leave(
    w: Workspace,
    t: &mut ToplevelInfoState,
    from: WorkspaceHandle,
    x: WindowId,
    h: WorkspaceHandle,
)
    requires
        call_ensures(Workspace::leave, (&w, t, from), ()),
    ensures
        final(t)@.workspaces.contains((x, h)) <==> old(t)@.workspaces.contains((x, h)) && !(h
            == from && w@.windows().contains(x)),
        final(t)@.outputs == old(t)@.outputs,
{
}

/// A window enters just the workspace named.
pub proof fn law_toplevel_enter(
    t: &mut ToplevelInfoState,
    window: WindowId,
    workspace: WorkspaceHandle,
    x: WindowId,
    h: WorkspaceHandle,
)
    requires
        call_ensures(ToplevelInfoState::toplevel_enter_workspace, (t, window, workspace), ()),
    ensures
        final(t)@.workspaces.contains((x, h)) <==> old(t)@.workspaces.contains((x, h)) || (x
            == window && h == workspace),
        final(t)@.outputs == old(t)@.outputs,
{
}

/// A window leaves just the workspace named.
pub proof fn law_toplevel_leave(
    t: &mut ToplevelInfoState,
    window: WindowId,
    workspace: WorkspaceHandle,
    x: WindowId,
    h: WorkspaceHandle,
)
    requires
        call_ensures(ToplevelInfoState::toplevel_leave_workspace, (t, window, workspace), ()),
    ensures
        final(t)@.workspaces.contains((x, h)) <==> old(t)@.workspaces.contains((x, h)) && !(x
            == window && h == workspace),
        final(t)@.outputs == old(t)@.outputs,
{
}

/// A window enters just the output named.
pub proof fn law_toplevel_enter_output(
    t: &mut ToplevelInfoState,
    window: WindowId,
    output: OutputId,
    x: WindowId,
    o: OutputId,
)
    requires
        call_ensures(ToplevelInfoState::toplevel_enter_output, (t, window, output), ()),
    ensures
        final(t)@.outputs.contains((x, o)) <==> old(t)@.outputs.contains((x, o)) || (x == window
            && o == output),
        final(t)@.workspaces == old(t)@.workspaces,
{
}

/// The element of a single window.
pub proof fn law_from_window(window: Window, e: Element)
    requires
        call_ensures(Element::from_window, (window,), e),
    ensures
        e.id == window.id,
        e.windows@.len() == 1,
        e.windows@[0].window == window.id,
        e.windows@[0].offset.x == 0 && e.windows@[0].offset.y == 0,
        e.windows@[0].geometry_loc == window.geometry_loc,
        e.surfaces@.len() == 1 && e.surfaces@[0] == window.surface,
        e.outputs@.len() == 0,
        e.main_output is None,
{
}

/// Merging a layer into another one puts its elements behind those that are there.
pub proof fn law_layer_merge(l: &mut Layer, other: Layer)
    requires
        call_ensures(Layer::merge, (l, other), ()),
    ensures
        final(l)@ == old(l)@ + other@,
{
}

/// A new layer is empty, and a copy has the same elements.
pub proof fn law_layers(new: Layer, l: Layer, copy: Layer)
    requires
        call_ensures(Layer::new, (), new),
        call_ensures(Layer::duplicate, (&l,), copy),
    ensures
        new@.len() == 0,
        copy@ == l@,
{
}

/// A new shell has no outputs, and nothing waits. Where all share their workspaces these are
/// there at once: one if the amount is dynamic, else as many as there are to be.
pub proof fn law_new_shell(config: Config, shell: Shell, i: int)
    requires
        call_ensures(Shell::new, (&config,), shell),
    ensures
        call_requires(Shell::new, (&config,)),
        shell.outputs@.len() == 0,
        shell.pending_windows@.len() == 0,
        shell.pending_layers@.len() == 0,
        shell.workspace_amount == config.static_conf.workspace_amount,
        shell.floating_default == config.static_conf.floating_default,
        shell@.toplevels.workspaces == Set::<(WindowId, WorkspaceHandle)>::empty(),
        shell@.toplevels.outputs == Set::<(WindowId, OutputId)>::empty(),
        config.static_conf.workspace_mode is OutputBound ==> {
            &&& shell@.workspaces is OutputBound
            &&& (shell@.workspaces->OutputBound_0).len() == 0
            &&& shell@.state.workspaces.dom() == Set::<WorkspaceHandle>::empty()
            &&& shell@.state.groups.dom() == Set::<WorkspaceGroupHandle>::empty()
            &&& shell@.state.next == 0
        },
        config.static_conf.workspace_mode is Global ==> {
            let set = shell@.workspaces->Global_0;
            &&& shell@.workspaces is Global
            &&& set.active == 0
            &&& set.group == 0
            &&& config.static_conf.workspace_amount is Dynamic ==> set.workspaces.len() == 1
            &&& config.static_conf.workspace_amount matches WorkspaceAmount::Static(len)
                ==> set.workspaces.len() == len
            &&& shell@.state.groups.dom() == set![0u64]
            &&& shell@.state.groups[0] == Set::<OutputId>::empty()
            &&& shell@.state.next == 1 + set.workspaces.len()
            &&& 0 <= i < set.workspaces.len() ==> {
                &&& set.workspaces[i].handle == 1 + i
                &&& set.workspaces[i].tiling_enabled
                &&& set.workspaces[i].mapped().len() == 0
                &&& entry_started(shell@.state, set.workspaces[i].handle, 0, 0, i == 0)
            }
        },
{
    let amount = config.static_conf.workspace_amount;
    if config.static_conf.workspace_mode is Global {
        let nothing = crate::protocol::StateView {
            groups: Map::empty(),
            workspaces: Map::empty(),
            next: 0,
        };
        let set = shell@.workspaces->Global_0;
        assert(shell@.state.groups.dom() =~= set![0u64]);
        if 0 <= i < set.workspaces.len() {
            law_with_started(
                nothing.with_new_group(),
                0,
                amount.initial(),
                true,
                set.workspaces[i].handle,
            );
        }
    }
}

/// Activating a workspace makes it the active one of the output, where there is one, and gives
/// nothing back.
pub proof fn law_shell_activate(
    shell: &mut Shell,
    output: Output,
    idx: usize,
    r: Option<MotionEvent>,
    o: OutputId,
)
    requires
        old(shell).wf(),
        old(shell)@.workspaces.has_active(output.id),
        call_ensures(Shell::activate, (shell, &output, idx), r),
    ensures
        call_requires(Shell::activate, (shell, &output, idx)),
        r is None,
        ({
            let before = old(shell)@.workspaces.set_for(output.id)->0;
            let after = final(shell)@.workspaces.set_for(output.id)->0;
            &&& final(shell)@.workspaces.set_for(output.id) is Some
            &&& after.workspaces == before.workspaces
            &&& after.group == before.group
            &&& idx < before.workspaces.len() ==> after.active == idx
            &&& idx >= before.workspaces.len() ==> after.active == before.active
            &&& idx < before.workspaces.len() && idx != before.active ==> {
                &&& final(shell)@.state.workspaces[before.workspaces[idx as int].handle].active
                &&& !final(shell)@.state.workspaces[before.workspaces[before.active].handle].active
            }
            &&& old(shell)@.workspaces is OutputBound && o != output.id
                ==> final(shell)@.workspaces.set_for(o) == old(shell)@.workspaces.set_for(o)
        }),
        same_waiting(final(shell)@, old(shell)@),
        final(shell)@.outputs == old(shell)@.outputs,
        final(shell)@.toplevels == old(shell)@.toplevels,
{
    law_shell_activated(old(shell)@, output.id, idx as int, o, 0);
}

/// Activating asks for an active position only where there is another one to leave it for.
pub proof fn law_shell_activate_asks(shell: &mut Shell, output: Output, idx: usize)
    requires
        old(shell).wf(),
        match old(shell)@.workspaces.set_for(output.id) {
            Some(set) => idx >= set.workspaces.len() || idx == set.active || set.active
                < set.workspaces.len(),
            None => true,
        },
    ensures
        call_requires(Shell::activate, (shell, &output, idx)),
{
}

/// A surface is on the output of the layer surface, if it is one. Else it is on every output of
/// an element with it, and on no other.
pub proof fn law_outputs_for_surface(
    shell: Shell,
    surface: SurfaceId,
    layer_outputs: Vec<OutputId>,
    r: Vec<OutputId>,
    k: int,
    o: OutputId,
)
    requires
        shell.wf(),
        call_ensures(Shell::outputs_for_surface, (&shell, surface, &layer_outputs), r),
    ensures
        call_requires(Shell::outputs_for_surface, (&shell, surface, &layer_outputs)),
        0 <= k < shell.outputs@.len() && layer_outputs@.contains(shell.outputs@[k].id) && (forall|
            j: int,
        |
            0 <= j < k ==> !layer_outputs@.contains((#[trigger] shell.outputs@[j]).id)) ==> r@
            == seq![shell.outputs@[k].id],
        (forall|j: int|
            0 <= j < shell.outputs@.len() ==> !layer_outputs@.contains(
                (#[trigger] shell.outputs@[j]).id,
            )) ==> (r@.contains(o) <==> exists|i: int|
            0 <= i < shell@.workspaces.spaces().len() && (
            #[trigger] shell@.workspaces.spaces()[i]).shows_surface(surface)
                && shell@.workspaces.spaces()[i].mapped()[shell@.workspaces.spaces()[i].surface_index(
            surface)].outputs.contains(o)),
{
    let s = shell@.outputs;
    let p = is_among(layer_outputs@);
    lemma_first_where(s, p);
    let f = first_where(s, p);
    if f < s.len() {
        assert(p(s[f]));
        assert(layer_outputs@.contains(s[f].id));
    }
    if 0 <= k < s.len() && k < f {
        assert(!p(s[k]));
    }
    law_surface_outputs(shell@.workspaces.spaces(), surface, o);
}

/// The workspace of an element is the first one that has it, and the element of a surface is
/// on the first workspace that shows it.
pub proof fn law_shell_found(
    shell: Shell,
    id: ElementId,
    surface: SurfaceId,
    space: Option<&Workspace>,
    element: Option<&Element>,
    i: int,
)
    requires
        shell.wf(),
        call_ensures(Shell::space_for, (&shell, id), space),
        call_ensures(Shell::element_for_surface, (&shell, surface), element),
    ensures
        ({
            let s = shell@.workspaces.spaces();
            &&& space is Some <==> exists|j: int| 0 <= j < s.len() && (#[trigger] s[j]).has(id)
            &&& space matches Some(w) ==> 0 <= i < s.len() && s[i].has(id) && (forall|j: int|
                0 <= j < i ==> !(#[trigger] s[j]).has(id)) ==> w@ == s[i]
            &&& element is Some <==> exists|j: int|
                0 <= j < s.len() && (#[trigger] s[j]).shows_surface(surface)
            &&& element matches Some(e) ==> e@.surfaces.contains(surface)
            &&& element matches Some(e) ==> 0 <= i < s.len() && s[i].shows_surface(surface) && (
            forall|j: int| 0 <= j < i ==> !(#[trigger] s[j]).shows_surface(surface)) ==> e@
                == s[i].mapped()[s[i].surface_index(surface)]
        }),
{
    let s = shell@.workspaces.spaces();
    law_space_positions(shell@, id, surface, i);
    if exists|j: int| 0 <= j < s.len() && (#[trigger] s[j]).has(id) {
        let j = choose|j: int| 0 <= j < s.len() && (#[trigger] s[j]).has(id);
        law_space_positions(shell@, id, surface, j);
    }
    if exists|j: int| 0 <= j < s.len() && (#[trigger] s[j]).shows_surface(surface) {
        let j = choose|j: int| 0 <= j < s.len() && (#[trigger] s[j]).shows_surface(surface);
        law_space_positions(shell@, id, surface, j);
        let w = s[shell@.surface_space(surface)];
        law_surface_index(w, surface, 0);
    }
}

/// Locations count from where the output lies, unless all share their workspaces.
pub proof fn law_mapped_locations(shell: Shell, p: Point, output: Output, s: Point, g: Point)
    requires
        call_ensures(Shell::map_global_to_space, (&shell, p, &output), s),
        call_ensures(Shell::map_space_to_global, (&shell, p, &output), g),
    ensures
        shell@.workspaces is Global ==> s == p && g == p,
        shell@.workspaces is OutputBound ==> {
            let at = output.geometry.loc;
            &&& i32::MIN <= p.x - at.x <= i32::MAX ==> s.x == p.x - at.x
            &&& i32::MIN <= p.y - at.y <= i32::MAX ==> s.y == p.y - at.y
            &&& i32::MIN <= p.x + at.x <= i32::MAX ==> g.x == p.x + at.x
            &&& i32::MIN <= p.y + at.y <= i32::MAX ==> g.y == p.y + at.y
        },
{
}

/// The global space is that of all outputs, and without outputs it is empty.
pub proof fn law_shell_global_space(shell: Shell, r: Rectangle)
    requires
        shell.wf(),
        call_ensures(Shell::global_space, (&shell,), r),
    ensures
        call_requires(Shell::global_space, (&shell,)),
        shell.outputs@.len() == 0 ==> r.loc.x == 0 && r.loc.y == 0 && r.size.w == 0 && r.size.h
            == 0,
        shell.outputs@.len() == 1 ==> r == shell.outputs@[0].geometry,
        shell.outputs@.len() > 0 ==> around_all(shell.outputs@) == Some(r),
{
    let outputs = shell.outputs@;
    if outputs.len() > 0 {
        let before = outputs.drop_last();
        law_global_space_grows(before, outputs.last());
        assert(before.push(outputs.last()) =~= outputs);
        if outputs.len() == 1 {
            assert(before =~= Seq::<Output>::empty());
            assert(seq![outputs.last()] =~= outputs);
        }
    }
}

/// The outputs come in the order in which they were added.
pub proof fn law_shell_outputs(shell: Shell, r: &Vec<Output>)
    requires
        call_ensures(Shell::outputs, (&shell,), r),
    ensures
        r@ == shell.outputs@,
{
}

/// What the shell shows on an output, and what its workspaces are.
pub proof fn law_mode_asked(
    mode: WorkspaceMode,
    output: Output,
    num: usize,
    set: Option<&WorkspaceSet>,
    space: Option<&Workspace>,
    all: Vec<&Workspace>,
    own: Vec<&Workspace>,
    i: int,
)
    requires
        mode.wf(),
        call_ensures(WorkspaceMode::set_for, (&mode, output.id), set),
        call_ensures(WorkspaceMode::get, (&mode, num, &output), space),
        call_ensures(WorkspaceMode::spaces, (&mode,), all),
        call_ensures(WorkspaceMode::spaces_for_output, (&mode, &output), own),
    ensures
        mode@ matches ModeView::Global(s) ==> set is Some && set->0@ == s && all@.len()
            == s.workspaces.len(),
        mode@ matches ModeView::OutputBound(sets) ==> {
            &&& set is None <==> forall|k: int|
                0 <= k < sets.len() ==> (#[trigger] sets[k]).0 != output.id
            &&& set is Some && 0 <= i < sets.len() && sets[i].0 == output.id && (forall|k: int|
                0 <= k < i ==> (#[trigger] sets[k]).0 != output.id) ==> set->0@ == sets[i].1
        },
        set is None ==> space is None && own@.len() == 0,
        set matches Some(s) ==> {
            &&& space is Some <==> num < s@.workspaces.len()
            &&& space matches Some(w) ==> w@ == s@.workspaces[num as int]
            &&& own@.len() == s@.workspaces.len()
            &&& 0 <= i < own@.len() ==> own@[i]@ == s@.workspaces[i]
        },
        0 <= i < all@.len() ==> all@[i]@ == mode@.spaces()[i],
        all@.len() == mode@.spaces().len(),
{
    if let ModeView::OutputBound(sets) = mode@ {
        lemma_slot(sets, output.id);
    }
}

/// The active workspace of an output, and its number.
pub proof fn law_mode_active(
    mode: WorkspaceMode,
    shell: Shell,
    output: Output,
    w: &Workspace,
    v: &Workspace,
    n: usize,
)
    requires
        mode.wf(),
        mode@.has_active(output.id),
        shell@.workspaces == mode@,
        call_ensures(WorkspaceMode::active, (&mode, &output), w),
        call_ensures(WorkspaceMode::active_num, (&mode, &output), n),
        call_ensures(Shell::active_space, (&shell, &output), v),
    ensures
        n == (mode@.set_for(output.id)->0).active,
        w@ == (mode@.set_for(output.id)->0).workspaces[n as int],
        v@ == w@,
{
}

/// Adding an output: it gets a set of its own where every output has one and it has none yet.
/// Else it is shown on the workspaces that are there, at its origin or, on shared ones, where
/// it lies.
pub proof fn law_shell_add_output(shell: &mut Shell, output: Output, i: int, o: OutputId)
    requires
        old(shell).wf(),
        output.wf(),
        old(shell)@.state.next + 256 <= u64::MAX,
        call_ensures(Shell::add_output, (shell, &output), ()),
    ensures
        call_requires(Shell::add_output, (shell, &output)),
        final(shell)@.outputs == old(shell)@.outputs.push(output),
        same_waiting(final(shell)@, old(shell)@),
        final(shell)@.toplevels == old(shell)@.toplevels,
        final(shell)@.workspaces is Global <==> old(shell)@.workspaces is Global,
        old(shell)@.workspaces is OutputBound && old(shell)@.workspaces.set_for(output.id) is None
            ==> {
            let set = final(shell)@.workspaces.set_for(output.id)->0;
            &&& final(shell)@.workspaces.set_for(output.id) is Some
            &&& set.active == 0
            &&& old(shell)@.workspace_amount is Dynamic ==> set.workspaces.len() == 1
            &&& old(shell)@.workspace_amount matches WorkspaceAmount::Static(len)
                ==> set.workspaces.len() == len
            &&& 0 <= i < set.workspaces.len() ==> {
                &&& set.workspaces[i].outputs == Map::<OutputId, Point>::empty().insert(
                    output.id,
                    Point { x: 0, y: 0 },
                )
                &&& entry_started(
                    final(shell)@.state,
                    set.workspaces[i].handle,
                    set.group,
                    0,
                    i == 0,
                )
            }
        },
        old(shell)@.workspaces is OutputBound && o != output.id
            ==> final(shell)@.workspaces.set_for(o) == old(shell)@.workspaces.set_for(o),
        old(shell)@.workspaces is OutputBound && old(shell)@.workspaces.set_for(output.id) is Some
            ==> {
            let a = final(shell)@.workspaces.set_for(output.id)->0;
            let b = old(shell)@.workspaces.set_for(output.id)->0;
            &&& final(shell)@.workspaces.set_for(output.id) is Some
            &&& a.active == b.active && a.group == b.group
            &&& a.workspaces.len() == b.workspaces.len()
            &&& final(shell)@.state == old(shell)@.state
            &&& 0 <= i < a.workspaces.len() ==> a.workspaces[i].handle == b.workspaces[i].handle
                && same_elements(a.workspaces[i], b.workspaces[i]) && a.workspaces[i].outputs
                == b.workspaces[i].outputs.insert(output.id, Point { x: 0, y: 0 })
        },
        old(shell)@.workspaces is Global ==> {
            let a = final(shell)@.workspaces->Global_0;
            let b = old(shell)@.workspaces->Global_0;
            &&& a.active == b.active && a.group == b.group
            &&& a.workspaces.len() == b.workspaces.len()
            &&& final(shell)@.state.groups[b.group].contains(output.id)
            &&& 0 <= i < a.workspaces.len() ==> a.workspaces[i].handle == b.workspaces[i].handle
                && same_elements(a.workspaces[i], b.workspaces[i]) && a.workspaces[i].outputs
                == b.workspaces[i].outputs.insert(output.id, output.geometry.loc)
        },
{
    let before = old(shell)@;
    if before.workspaces is Global {
        law_add_output_global(before, output, i, 0, output.id);
    } else {
        law_set_for(before.workspaces, output.id, 0);
        if before.workspaces.set_for(output.id) is None {
            law_add_new_output(before, output, i);
            law_add_new_output_rest(before, output, o, 0, (before.state.next + 1 + i) as u64);
        } else {
            law_add_known_output(before, output, i, o);
        }
    }
}

/// Removing an output leaves what the others show alone, where as many workspaces are to be as
/// they had.
pub proof fn law_shell_remove_output(
    shell: &mut Shell,
    output: Output,
    f: int,
    o: OutputId,
    len: u8,
)
    requires
        old(shell).wf(),
        old(shell)@.workspaces matches ModeView::OutputBound(sets) && has_key(sets, output.id),
        0 <= f < old(shell)@.outputs.len(),
        old(shell)@.outputs[f].id != output.id,
        forall|q: int| 0 <= q < f ==> (#[trigger] old(shell)@.outputs[q]).id == output.id,
        old(shell)@.can_remove(output.id),
        call_ensures(Shell::remove_output, (shell, &output), ()),
        old(shell)@.workspace_amount == WorkspaceAmount::Static(len),
        o != output.id,
        old(shell)@.workspaces.has_active(o),
        old(shell)@.workspaces.active_index(o) < len,
    ensures
        call_requires(Shell::remove_output, (shell, &output)),
        final(shell)@.workspaces.has_active(o),
        final(shell)@.workspaces.active_index(o) == old(shell)@.workspaces.active_index(o),
        final(shell)@.workspaces.active_space(o).handle == old(shell)@.workspaces.active_space(
            o,
        ).handle,
        same_settings(
            final(shell)@.workspaces.active_space(o),
            old(shell)@.workspaces.active_space(o),
        ),
        final(shell)@.workspaces.set_for(output.id) is None,
        final(shell)@.outputs == old(shell)@.other_outputs(output.id),
        same_waiting(final(shell)@, old(shell)@),
{
    let before = old(shell)@;
    law_remove_keeps_active(before, output.id, f, o, len);
    law_handover(before, output.id, f, o);
    law_handover_rest(before, output.id, f, 0, 0);
    law_refresh_rest(before.handed_over(output.id), output.id);
}

/// Releasing an output hands its workspaces over to the first of the others, and says so. Every
/// other output keeps its workspaces, and the same one active.
pub proof fn law_shell_release_output(
    shell: &mut Shell,
    output: Output,
    moved: bool,
    f: int,
    o: OutputId,
)
    requires
        old(shell).wf(),
        old(shell)@.workspaces matches ModeView::OutputBound(sets) && has_key(sets, output.id),
        0 <= f < old(shell)@.outputs.len(),
        old(shell)@.outputs[f].id != output.id,
        forall|q: int| 0 <= q < f ==> (#[trigger] old(shell)@.outputs[q]).id == output.id,
        old(shell)@.can_release(output.id),
        call_ensures(Shell::release_output, (shell, &output), moved),
        o != output.id,
        old(shell)@.workspaces.has_active(o),
    ensures
        call_requires(Shell::release_output, (shell, &output)),
        moved,
        final(shell)@.workspaces.set_for(output.id) is None,
        final(shell)@.workspaces.has_active(o),
        final(shell)@.workspaces.active_index(o) == old(shell)@.workspaces.active_index(o),
        final(shell)@.workspaces.active_space(o) == old(shell)@.workspaces.active_space(o),
        o == old(shell)@.outputs[f].id ==> final(shell)@.workspaces.spaces_for(o).len()
            == old(shell)@.workspaces.spaces_for(o).len() + old(shell)@.workspaces.spaces_for(
            output.id,
        ).len(),
        o != old(shell)@.outputs[f].id ==> final(shell)@.workspaces.set_for(o)
            == old(shell)@.workspaces.set_for(o),
        final(shell)@.outputs == old(shell)@.other_outputs(output.id),
        same_waiting(final(shell)@, old(shell)@),
{
    let before = old(shell)@;
    law_release(before, output.id, f);
    law_handover(before, output.id, f, o);
    law_handover_rest(before, output.id, f, 0, 0);
}

/// Releasing the last output, or one without workspaces of its own, moves nothing, and says so.
pub proof fn law_shell_release_nothing(shell: &mut Shell, output: Output, moved: bool)
    requires
        old(shell).wf(),
        call_ensures(Shell::release_output, (shell, &output), moved),
        old(shell)@.workspaces is Global || old(shell)@.workspaces.set_for(output.id) is None
            || forall|i: int|
            0 <= i < old(shell)@.outputs.len() ==> (#[trigger] old(shell)@.outputs[i]).id
                == output.id,
    ensures
        call_requires(Shell::release_output, (shell, &output)),
        !moved,
        final(shell)@.outputs == old(shell)@.other_outputs(output.id),
        final(shell)@.toplevels == old(shell)@.toplevels,
        final(shell)@.state.workspaces == old(shell)@.state.workspaces,
        same_waiting(final(shell)@, old(shell)@),
{
    let before = old(shell)@;
    if before.workspaces is Global {
        law_remove_global(before, output.id, 0, 0, 0);
    } else {
        law_remove_plain(before, output.id, 0);
        law_set_for(before.workspaces, output.id, 0);
        if before.workspaces.set_for(output.id) is Some {
            lemma_first_other(before.outputs, output.id, before.outputs.len() as int);
        }
    }
}

/// Placing the outputs again.
pub proof fn law_shell_refresh_outputs(shell: &mut Shell, i: int, o: OutputId)
    requires
        old(shell).wf(),
        call_ensures(Shell::refresh_outputs, (shell,), ()),
    ensures
        call_requires(Shell::refresh_outputs, (shell,)),
        same_waiting(final(shell)@, old(shell)@),
        final(shell)@.outputs == old(shell)@.outputs,
        final(shell)@.toplevels == old(shell)@.toplevels,
        final(shell)@.state == old(shell)@.state,
        old(shell)@.workspaces is OutputBound ==> final(shell)@.workspaces
            == old(shell)@.workspaces,
        old(shell)@.workspaces is Global ==> {
            let a = final(shell)@.workspaces->Global_0;
            let b = old(shell)@.workspaces->Global_0;
            &&& a.active == b.active && a.workspaces.len() == b.workspaces.len()
            &&& 0 <= i < a.workspaces.len() ==> a.workspaces[i].handle == b.workspaces[i].handle
                && same_elements(a.workspaces[i], b.workspaces[i]) && (
            a.workspaces[i].outputs.dom().contains(o) <==> b.workspaces[i].outputs.dom().contains(o)
                || exists|j: int|
                0 <= j < old(shell)@.outputs.len() && (#[trigger] old(shell)@.outputs[j]).id == o)
        },
{
    law_outputs_placed(old(shell)@, i, o);
}

/// Refreshing keeps the outputs, the settings and what waits.
pub proof fn law_shell_refresh(shell: &mut Shell, o: OutputId)
    requires
        old(shell).wf(),
        old(shell)@.can_refresh(),
        call_ensures(Shell::refresh, (shell,), ()),
    ensures
        call_requires(Shell::refresh, (shell,)),
        final(shell)@ == old(shell)@.refreshed(),
        same_waiting(final(shell)@, old(shell)@),
        final(shell)@.outputs == old(shell)@.outputs,
        final(shell)@.toplevels.outputs == old(shell)@.toplevels.outputs,
        final(shell)@.workspaces.set_for(o) is Some <==> old(shell)@.workspaces.set_for(o) is Some,
{
    law_refresh_rest(old(shell)@, o);
}

/// Splitting shared workspaces keeps on every part whether the workspace is tiled.
pub proof fn law_shell_split(shell: &mut Shell, i: int, j: int)
    requires
        old(shell).wf(),
        old(shell)@.workspaces is Global,
        old(shell)@.can_convert(ConfigMode::OutputBound),
        outputs_distinct(old(shell)@.outputs),
        0 <= j < old(shell)@.outputs.len(),
        0 <= i < (old(shell)@.workspaces->Global_0).workspaces.len(),
        call_ensures(Shell::convert, (shell, ConfigMode::OutputBound), ()),
    ensures
        call_requires(Shell::convert, (shell, ConfigMode::OutputBound)),
        ({
            let set = old(shell)@.workspaces->Global_0;
            let sets = final(shell)@.workspaces->OutputBound_0;
            &&& final(shell)@.workspaces is OutputBound
            &&& sets.len() == old(shell)@.outputs.len()
            &&& sets[j].0 == old(shell)@.outputs[j].id
            &&& sets[j].1.active == set.active
            &&& sets[j].1.workspaces.len() == set.workspaces.len()
            &&& sets[j].1.workspaces[i].tiling_enabled == set.workspaces[i].tiling_enabled
            &&& entry_started(
                final(shell)@.state,
                sets[j].1.workspaces[i].handle,
                sets[j].1.group,
                i,
                false,
            )
        }),
        final(shell)@.outputs == old(shell)@.outputs,
        same_waiting(final(shell)@, old(shell)@),
{
    law_split(old(shell)@, i, j, 0);
    law_split_entries(old(shell)@, i, j, 0, 0);
}

/// Changing the mode is converting the workspaces and then refreshing.
pub proof fn law_shell_set_mode(shell: &mut Shell, mode: ConfigMode)
    requires
        old(shell).wf(),
        old(shell)@.can_convert(mode),
        old(shell)@.converted(mode).can_refresh(),
        call_ensures(Shell::set_mode, (shell, mode), ()),
    ensures
        call_requires(Shell::set_mode, (shell, mode)),
        call_requires(Shell::convert, (shell, mode)),
        final(shell)@ == old(shell)@.converted(mode).refreshed(),
        final(shell)@.workspaces is Global <==> mode is Global,
        same_waiting(final(shell)@, old(shell)@),
        final(shell)@.outputs == old(shell)@.outputs,
{
    law_refresh_rest(old(shell)@.converted(mode), 0);
}

/// Layer surfaces above the windows get the focus unless they never take the keyboard.
pub proof fn law_wants_focus(kind: LayerKind, interactivity: KeyboardInteractivity, r: bool)
    requires
        call_ensures(wants_focus, (kind, interactivity), r),
    ensures
        r <==> (kind is Top || kind is Overlay) && (interactivity is Exclusive
            || interactivity is OnDemand),
{
}

/// The popups of an element are those of its windows, in their order.
pub proof fn law_reactive_popups(shell: Shell, id: ElementId, r: Vec<PopupUpdate>, j: int)
    requires
        shell.wf(),
        call_ensures(Shell::update_reactive_popups, (&shell, id), r),
    ensures
        call_requires(Shell::update_reactive_popups, (&shell, id)),
        ({
            let s = shell@.workspaces.spaces();
            let i = shell@.space_index(id);
            let e = s[i].element(id);
            &&& i >= s.len() ==> r@.len() == 0
            &&& i < s.len() ==> r@.len() == e.windows.len()
            &&& i < s.len() && 0 <= j < e.windows.len() ==> {
                let w = e.windows[j];
                let x = e.location.x + w.offset.x;
                let y = e.location.y + w.offset.y;
                &&& r@[j].window == w.window
                &&& i32::MIN <= x <= i32::MAX && i32::MIN <= x + w.geometry_loc.x <= i32::MAX
                    ==> r@[j].location.x == x + w.geometry_loc.x
                &&& i32::MIN <= y <= i32::MAX && i32::MIN <= y + w.geometry_loc.y <= i32::MAX
                    ==> r@[j].location.y == y + w.geometry_loc.y
            }
        }),
{
}

/// Mapping a window says which element and whose seat it was for, and names the elements on the
/// workspace as it is then.
pub proof fn law_shell_map_window(
    shell: &mut Shell,
    window: WindowId,
    output: Output,
    r: MappedWindow,
    pos: int,
    i: int,
    x: WindowId,
    h: u64,
)
    requires
        old(shell).wf(),
        0 <= pos < old(shell)@.pending_windows.len(),
        old(shell)@.pending_windows[pos].0.id == window,
        forall|j: int|
            0 <= j < pos ==> (#[trigger] old(shell)@.pending_windows[j]).0.id != window,
        old(shell)@.workspaces.has_active(output.id),
        call_ensures(Shell::map_window, (shell, window, &output), r),
    ensures
        call_requires(Shell::map_window, (shell, window, &output)),
        ({
            let (w, seat) = old(shell)@.pending_windows[pos];
            let b = old(shell)@.workspaces.set_for(output.id)->0;
            let a = final(shell)@.workspaces.set_for(output.id)->0;
            let space = a.workspaces[a.active];
            let floats = w.should_be_floating || old(shell)@.floating_default;
            let old_space = b.workspaces[b.active];
            &&& r.element == window
            &&& r.seat == seat
            &&& r.reactive@.len() == space.mapped().len()
            &&& 0 <= i < r.reactive@.len() ==> r.reactive@[i] == space.mapped()[i].id
            &&& final(shell)@.pending_windows == old(shell)@.pending_windows.remove(pos)
            &&& a.active == b.active
            &&& floats ==> space.floating_layer.len() == old_space.floating_layer.len() + 1
                && space.floating_layer.last().id == window && space.tiling_layer
                == old_space.tiling_layer
            &&& !floats ==> space.tiling_layer.len() == old_space.tiling_layer.len() + 1
                && space.tiling_layer.last().id == window && space.floating_layer
                == old_space.floating_layer
            &&& final(shell)@.state == old(shell)@.state
            &&& final(shell)@.outputs == old(shell)@.outputs
            &&& final(shell)@.toplevels.workspaces.contains((x, h))
                <==> old(shell)@.toplevels.workspaces.contains((x, h)) || (x == window && h
                == old_space.handle)
            &&& final(shell)@.toplevels.outputs.contains((x, h))
                <==> old(shell)@.toplevels.outputs.contains((x, h)) || (x == window && h
                == output.id)
        }),
{
    let before = old(shell)@;
    law_pending_window(before, window, pos);
    let p = before.pending_index(window);
    if p < pos {
        assert(before.pending_windows[p].0.id != window);
    }
    law_map_window(before, window, output.id, 0, 0);
    law_map_window_rest(before, window, output.id, x, h);
}

/// Mapping a layer surface takes it off those that wait. The seat gets the focus there if the
/// surface is above the windows and takes the keyboard.
pub proof fn law_shell_map_layer(
    shell: &mut Shell,
    layer: LayerId,
    kind: LayerKind,
    interactivity: KeyboardInteractivity,
    r: MappedLayer,
    pos: int,
)
    requires
        old(shell).wf(),
        0 <= pos < old(shell)@.pending_layers.len(),
        old(shell)@.pending_layers[pos].0 == layer,
        forall|j: int| 0 <= j < pos ==> (#[trigger] old(shell)@.pending_layers[j]).0 != layer,
        call_ensures(Shell::map_layer, (shell, layer, kind, interactivity), r),
    ensures
        call_requires(Shell::map_layer, (shell, layer, kind, interactivity)),
        r.output == old(shell)@.pending_layers[pos].1,
        (kind is Top || kind is Overlay) && !(interactivity is Never) ==> r.focus == Some(
            old(shell)@.pending_layers[pos].2,
        ),
        kind is Background || kind is Bottom || interactivity is Never ==> r.focus is None,
        final(shell)@.pending_layers == old(shell)@.pending_layers.remove(pos),
        final(shell)@.pending_windows == old(shell)@.pending_windows,
        final(shell)@.workspaces == old(shell)@.workspaces,
        final(shell)@.state == old(shell)@.state,
        final(shell)@.toplevels == old(shell)@.toplevels,
        final(shell)@.outputs == old(shell)@.outputs,
{
    let before = old(shell)@;
    law_pending_layer(before, layer, pos);
    let p = before.pending_layer_index(layer);
    if p < pos {
        assert(before.pending_layers[p].0 != layer);
    }
}

/// Moving the window in focus takes the element of the seat's latest entry from the active
/// workspace to the one named, and names the elements that are left.
pub proof fn law_shell_move(
    shell: &mut Shell,
    seat: SeatId,
    output: Output,
    idx: usize,
    r: Vec<ElementId>,
    k: int,
    i: int,
)
    requires
        old(shell).wf(),
        old(shell)@.workspaces.has_active(output.id),
        idx < (old(shell)@.workspaces.set_for(output.id)->0).workspaces.len(),
        idx != (old(shell)@.workspaces.set_for(output.id)->0).active,
        0 <= k < old(shell)@.workspaces.active_space(output.id).focus_stack.len(),
        old(shell)@.workspaces.active_space(output.id).focus_stack[k].0 == seat,
        forall|j: int|
            k < j < old(shell)@.workspaces.active_space(output.id).focus_stack.len() ==> (
            #[trigger] old(shell)@.workspaces.active_space(output.id).focus_stack[j]).0 != seat,
        old(shell)@.workspaces.active_space(output.id).on_one_layer(
            old(shell)@.workspaces.active_space(output.id).focus_stack[k].1,
        ),
        call_ensures(Shell::move_current_window, (shell, seat, &output, idx), r),
    ensures
        call_requires(Shell::move_current_window, (shell, seat, &output, idx)),
        ({
            let id = old(shell)@.workspaces.active_space(output.id).focus_stack[k].1;
            let b = old(shell)@.workspaces.set_for(output.id)->0;
            let a = final(shell)@.workspaces.set_for(output.id)->0;
            let from = b.workspaces[b.active];
            let left = a.workspaces[b.active];
            let to = b.workspaces[idx as int];
            let got = a.workspaces[idx as int];
            &&& a.active == b.active
            &&& left == from.without_element(id)
            &&& from.floats(id) ==> got.floating_layer == to.floating_layer.push(from.element(id))
                && got.tiling_layer == to.tiling_layer
            &&& !from.floats(id) ==> got.tiling_layer == to.tiling_layer.push(from.element(id))
                && got.floating_layer == to.floating_layer
            &&& got.handle == to.handle
            &&& r@.len() == left.mapped().len()
            &&& 0 <= i < r@.len() ==> r@[i] == left.mapped()[i].id
            &&& !final(shell)@.state.workspaces[to.handle].hidden
        }),
        same_waiting(final(shell)@, old(shell)@),
        final(shell)@.outputs == old(shell)@.outputs,
{
    let before = old(shell)@;
    let s = before.workspaces.active_space(output.id).focus_stack;
    let id = s[k].1;
    law_current(before, seat, output.id);
    assert(s[k] == (seat, id));
    assert(before.current(seat, output.id) == Some(id));
    law_move(before, id, output.id, idx as int, 0, 0);
    let set = before.workspaces.set_for(output.id)->0;
    let h = set.workspaces[idx as int].handle;
    if let ModeView::OutputBound(sets) = before.workspaces {
        lemma_slot(sets, output.id);
        assert(sets[crate::table::slot(sets, output.id)].1.registered(before.state));
    }
    assert(set.registered(before.state));
    assert(before.state.workspaces.dom().contains(set.workspaces[idx as int].handle));
    law_move_rest(before, id, output.id, idx as int, 0, h);
}

/// Moving to the active workspace does nothing, and neither does moving for a seat that has no
/// entry there.
pub proof fn law_shell_move_nothing(
    shell: &mut Shell,
    seat: SeatId,
    output: Output,
    idx: usize,
    r: Vec<ElementId>,
)
    requires
        old(shell).wf(),
        old(shell)@.workspaces.has_active(output.id),
        idx == (old(shell)@.workspaces.set_for(output.id)->0).active || forall|j: int|
            0 <= j < old(shell)@.workspaces.active_space(output.id).focus_stack.len() ==> (
            #[trigger] old(shell)@.workspaces.active_space(output.id).focus_stack[j]).0 != seat,
        call_ensures(Shell::move_current_window, (shell, seat, &output, idx), r),
    ensures
        call_requires(Shell::move_current_window, (shell, seat, &output, idx)),
        final(shell)@ == old(shell)@,
        r@.len() == 0,
{
    law_current(old(shell)@, seat, output.id);
}

/// A set that activates a workspace.
pub proof fn law_set_activate(
    set: &mut WorkspaceSet,
    idx: usize,
    state: &mut WorkspaceState,
    h: WorkspaceHandle,
)
    requires
        old(set).wf(),
        old(state).wf(),
        old(set)@.registered(old(state)@),
        old(set)@.active < old(set)@.workspaces.len(),
        call_ensures(WorkspaceSet::activate, (set, idx, state), ()),
    ensures
        call_requires(WorkspaceSet::activate, (set, idx, state)),
        final(set)@.workspaces == old(set)@.workspaces,
        final(set)@.group == old(set)@.group,
        idx < old(set)@.workspaces.len() ==> final(set)@.active == idx,
        idx >= old(set)@.workspaces.len() ==> final(set)@.active == old(set)@.active,
        same_but_active(final(state)@, old(state)@, h),
        idx < old(set)@.workspaces.len() && idx != old(set)@.active ==> {
            let left = old(set)@.workspaces[old(set)@.active].handle;
            let entered = old(set)@.workspaces[idx as int].handle;
            &&& final(state)@.workspaces[entered].active
            &&& !final(state)@.workspaces[left].active
            &&& h != left && h != entered ==> final(state)@.workspaces[h].active
                == old(state)@.workspaces[h].active
        },
{
    law_set_activated(old(set)@, old(state)@, idx as int, h);
}

/// A set that shows an output.
pub proof fn law_set_map_output(set: &mut WorkspaceSet, output: OutputId, at: Point, i: int)
    requires
        old(set).wf(),
        0 <= i < old(set)@.workspaces.len(),
        call_ensures(WorkspaceSet::map_output, (set, output, at), ()),
    ensures
        call_requires(WorkspaceSet::map_output, (set, output, at)),
        final(set)@.active == old(set)@.active,
        final(set)@.group == old(set)@.group,
        final(set)@.workspaces.len() == old(set)@.workspaces.len(),
        ({
            let a = final(set)@.workspaces[i];
            let b = old(set)@.workspaces[i];
            &&& a.outputs == b.outputs.insert(output, at)
            &&& a.handle == b.handle
            &&& same_elements(a, b)
            &&& same_settings(a, b)
            &&& a.needs_refresh == b.needs_refresh
        }),
{
}

/// A set that shows an output no longer.
pub proof fn law_set_unmap_output(set: &mut WorkspaceSet, output: OutputId, i: int)
    requires
        old(set).wf(),
        0 <= i < old(set)@.workspaces.len(),
        call_ensures(WorkspaceSet::unmap_output, (set, output), ()),
    ensures
        call_requires(WorkspaceSet::unmap_output, (set, output)),
        final(set)@.active == old(set)@.active,
        final(set)@.group == old(set)@.group,
        final(set)@.workspaces.len() == old(set)@.workspaces.len(),
        ({
            let a = final(set)@.workspaces[i];
            let b = old(set)@.workspaces[i];
            &&& a.outputs == b.outputs.remove(output)
            &&& a.handle == b.handle
            &&& same_elements(a, b)
            &&& same_settings(a, b)
            &&& a.needs_refresh
        }),
{
}

/// A set that shows several outputs.
pub proof fn law_set_map_outputs(
    set: &mut WorkspaceSet,
    outputs: Vec<Output>,
    i: int,
    o: OutputId,
)
    requires
        old(set).wf(),
        0 <= i < old(set)@.workspaces.len(),
        call_ensures(WorkspaceSet::map_outputs, (set, &outputs), ()),
    ensures
        call_requires(WorkspaceSet::map_outputs, (set, &outputs)),
        final(set)@.active == old(set)@.active,
        final(set)@.group == old(set)@.group,
        final(set)@.workspaces.len() == old(set)@.workspaces.len(),
        ({
            let a = final(set)@.workspaces[i];
            let b = old(set)@.workspaces[i];
            &&& a.outputs.dom().contains(o) <==> b.outputs.dom().contains(o) || exists|j: int|
                0 <= j < outputs@.len() && (#[trigger] outputs@[j]).id == o
            &&& a.handle == b.handle
            &&& same_elements(a, b)
            &&& same_settings(a, b)
            &&& a.needs_refresh == b.needs_refresh
        }),
{
    law_workspace_outputs(old(set)@.workspaces[i], outputs@, o);
}

/// A dynamic set ends on an empty workspace. Of its workspaces just those go that are empty,
/// not active and not the last.
pub proof fn law_set_last_empty(
    set: &mut WorkspaceSet,
    state: &mut WorkspaceState,
    i: int,
    h: WorkspaceHandle,
)
    requires
        old(set).wf(),
        old(state).wf(),
        old(set)@.registered(old(state)@),
        0 <= i < old(set)@.workspaces.len() - 1,
        old(state)@.next < u64::MAX,
        call_ensures(WorkspaceSet::ensure_last_empty, (set, state), ()),
    ensures
        call_requires(WorkspaceSet::ensure_last_empty, (set, state)),
        final(set)@.active == old(set)@.active,
        final(set)@.group == old(set)@.group,
        final(set)@.workspaces.len() > 0,
        !final(set)@.workspaces.last().has_windows(),
        final(set)@.workspaces.contains(old(set)@.workspaces[i])
            <==> old(set)@.workspaces[i].has_windows() || i == old(set)@.active,
        final(set)@.workspaces.contains(old(set)@.workspaces.last()),
        final(state)@.groups == old(state)@.groups,
        final(state)@.workspaces.dom().contains(old(set)@.workspaces[i].handle)
            <==> old(set)@.workspaces[i].has_windows() || i == old(set)@.active,
        old(state)@.workspaces.dom().contains(h) && final(state)@.workspaces.dom().contains(h)
            ==> final(state)@.workspaces[h] == old(state)@.workspaces[h],
{
    let s = old(set)@.workspaces;
    let t = crate::toplevel::ToplevelView { workspaces: Set::empty(), outputs: Set::empty() };
    let scene = SetScene { set: old(set)@, state: old(state)@, toplevels: t };
    law_dynamic_order(scene, i, s.len() - 1, 0, 0);
    law_dynamic_entries(scene, h);
    law_dynamic_entries(scene, s[i].handle);
    law_dynamic_ends_empty(old(set)@, old(state)@);
    assert(old(state)@.workspaces.dom().contains(s[i].handle));
    if exists|q: int|
        0 <= q < s.len() && (#[trigger] s[q]).handle == s[i].handle && !s[q].has_windows() && q
            != old(set)@.active && q != s.len() - 1 {
        let q = choose|q: int|
            0 <= q < s.len() && (#[trigger] s[q]).handle == s[i].handle && !s[q].has_windows() && q
                != old(set)@.active && q != s.len() - 1;
        if q < i {
            assert(s[q].handle != s[i].handle);
        } else if i < q {
            assert(s[i].handle != s[q].handle);
        }
    }
}

/// A static set has just as many workspaces as it is to have. Those before the last that stays
/// are as they were, and what is active stays so where it can.
pub proof fn law_set_static(
    set: &mut WorkspaceSet,
    amount: usize,
    state: &mut WorkspaceState,
    t: &mut ToplevelInfoState,
    i: int,
)
    requires
        old(set).wf(),
        old(state).wf(),
        old(set)@.registered(old(state)@),
        amount > 0,
        old(state)@.next + amount <= u64::MAX,
        0 <= i < amount,
        call_ensures(WorkspaceSet::ensure_static, (set, amount, state, t), ()),
    ensures
        call_requires(WorkspaceSet::ensure_static, (set, amount, state, t)),
        final(set)@.workspaces.len() == amount,
        final(set)@.group == old(set)@.group,
        old(set)@.active < amount ==> final(set)@.active == old(set)@.active,
        amount < old(set)@.workspaces.len() && old(set)@.active >= amount ==> final(set)@.active
            == amount - 1,
        i < old(set)@.workspaces.len() ==> final(set)@.workspaces[i].handle
            == old(set)@.workspaces[i].handle && same_settings(
            final(set)@.workspaces[i],
            old(set)@.workspaces[i],
        ),
        i < old(set)@.workspaces.len() && (i < amount - 1 || amount >= old(set)@.workspaces.len())
            ==> final(set)@.workspaces[i] == old(set)@.workspaces[i],
        i >= old(set)@.workspaces.len() ==> final(set)@.workspaces[i].mapped().len() == 0
            && final(set)@.workspaces[i].tiling_enabled && entry_started(
            final(state)@,
            final(set)@.workspaces[i].handle,
            old(set)@.group,
            0,
            false,
        ),
        final(state)@.groups == old(state)@.groups,
        final(t)@.outputs == old(t)@.outputs,
{
    let scene = SetScene { set: old(set)@, state: old(state)@, toplevels: old(t)@ };
    let n = old(set)@.workspaces.len();
    if amount < n {
        law_static_fewer(scene, amount as int, i);
        law_static_fewer_told(scene, amount as int, 0, 0);
    } else {
        law_static_more(scene, amount as int, i, 0);
        law_static_more(scene, amount as int, i, final(set)@.workspaces[i].handle);
    }
}

/// Refreshing a set brings it to its amount and lays the active workspace out again.
pub proof fn law_set_refresh(
    set: &mut WorkspaceSet,
    amount: WorkspaceAmount,
    state: &mut WorkspaceState,
    t: &mut ToplevelInfoState,
    i: int,
)
    requires
        old(set).wf(),
        old(state).wf(),
        old(set)@.registered(old(state)@),
        (SetScene { set: old(set)@, state: old(state)@, toplevels: old(t)@ }).can_refresh(amount),
        call_ensures(WorkspaceSet::refresh, (set, amount, state, t), ()),
    ensures
        call_requires(WorkspaceSet::refresh, (set, amount, state, t)),
        ({
            let scene = SetScene { set: old(set)@, state: old(state)@, toplevels: old(t)@ };
            let mid = match amount {
                WorkspaceAmount::Dynamic => scene.last_empty(),
                WorkspaceAmount::Static(len) => scene.resized(len as int),
            };
            let a = final(set)@.active;
            &&& a == mid.set.active
            &&& final(set)@.group == mid.set.group
            &&& final(set)@.workspaces.len() == mid.set.workspaces.len()
            &&& final(set)@.workspaces[a].needs_refresh
            &&& same_but_layout(final(set)@.workspaces[a], mid.set.workspaces[a])
            &&& 0 <= i < final(set)@.workspaces.len() && i != a ==> final(set)@.workspaces[i]
                == mid.set.workspaces[i]
            &&& final(state)@ == mid.state
            &&& final(t)@ == mid.toplevels
        }),
{
    let scene = SetScene { set: old(set)@, state: old(state)@, toplevels: old(t)@ };
    law_set_refreshed(scene, amount, i);
}

/// A new mode has its shared workspaces at once, or no sets yet.
pub proof fn law_new_mode(
    config: ConfigMode,
    amount: WorkspaceAmount,
    state: &mut WorkspaceState,
    mode: WorkspaceMode,
    i: int,
)
    requires
        old(state).wf(),
        old(state)@.next + 256 <= u64::MAX,
        call_ensures(WorkspaceMode::new, (config, amount, state), mode),
    ensures
        call_requires(WorkspaceMode::new, (config, amount, state)),
        config is OutputBound ==> {
            &&& mode@ is OutputBound
            &&& (mode@->OutputBound_0).len() == 0
            &&& final(state)@ == old(state)@
        },
        config is Global ==> {
            let set = mode@->Global_0;
            &&& mode@ is Global
            &&& set.active == 0
            &&& set.group == old(state)@.next
            &&& amount is Dynamic ==> set.workspaces.len() == 1
            &&& amount matches WorkspaceAmount::Static(len) ==> set.workspaces.len() == len
            &&& 0 <= i < set.workspaces.len() ==> {
                &&& set.workspaces[i].handle == old(state)@.next + 1 + i
                &&& set.workspaces[i].tiling_enabled
                &&& set.workspaces[i].mapped().len() == 0
                &&& entry_started(
                    final(state)@,
                    set.workspaces[i].handle,
                    set.group,
                    0,
                    i == 0,
                )
            }
        },
{
    if config is Global {
        let set = mode@->Global_0;
        if 0 <= i < set.workspaces.len() {
            law_with_started(
                old(state)@.with_new_group(),
                set.group,
                amount.initial(),
                true,
                set.workspaces[i].handle,
            );
        }
    }
}

/// Merging the sets of the outputs: where the workspaces of all come to lie.
pub proof fn law_shell_merge(shell: &mut Shell, r: int, s: int, o: OutputId)
    requires
        old(shell).wf(),
        old(shell)@.workspaces is OutputBound,
        old(shell)@.can_convert(ConfigMode::Global),
        0 <= s < (old(shell)@.workspaces->OutputBound_0).len(),
        call_ensures(Shell::convert, (shell, ConfigMode::Global), ()),
    ensures
        call_requires(Shell::convert, (shell, ConfigMode::Global)),
        ({
            let sets = old(shell)@.workspaces->OutputBound_0;
            let set = final(shell)@.workspaces->Global_0;
            let w = set.workspaces[r];
            let v = sets[s].1.workspaces[r - set.active + sets[s].1.active];
            &&& final(shell)@.workspaces is Global
            &&& final(shell)@.outputs == old(shell)@.outputs
            &&& same_waiting(final(shell)@, old(shell)@)
            &&& sets[s].1.active < sets[s].1.workspaces.len() ==> set.active >= sets[s].1.active
                && set.workspaces.len() - set.active >= sets[s].1.workspaces.len()
                - sets[s].1.active
            &&& 0 <= r < set.workspaces.len() ==> {
                &&& w.handle == old(shell)@.state.next + 1 + r
                &&& w.outputs.dom().contains(o) <==> exists|j: int|
                    0 <= j < old(shell)@.outputs.len() && (#[trigger] old(shell)@.outputs[j]).id
                        == o
                &&& entry_started(final(shell)@.state, w.handle, set.group, r, false)
                &&& sets[s].1.active < sets[s].1.workspaces.len() && 0 <= r - set.active
                    + sets[s].1.active < sets[s].1.workspaces.len() && v.tiling_enabled
                    ==> w.tiling_enabled
            }
        }),
{
    let before = old(shell)@;
    let sets = before.workspaces->OutputBound_0;
    law_lead(sets, s);
    law_merge(before, r, o);
    law_merge_entries(before, 0, 0);
    let set = before.converted(ConfigMode::Global).workspaces->Global_0;
    if 0 <= r < set.workspaces.len() {
        law_merge_entries(before, 0, set.workspaces[r].handle);
    }
}

/// Removing an output that shares its workspaces, or that is the last one or has none.
pub proof fn law_shell_remove_plain(shell: &mut Shell, output: Output, i: int, o: OutputId)
    requires
        old(shell).wf(),
        call_ensures(Shell::remove_output, (shell, &output), ()),
        old(shell)@.workspaces is Global || old(shell)@.workspaces.set_for(output.id) is None
            || forall|k: int|
            0 <= k < old(shell)@.outputs.len() ==> (#[trigger] old(shell)@.outputs[k]).id
                == output.id,
    ensures
        call_requires(Shell::remove_output, (shell, &output)),
        final(shell)@.outputs == old(shell)@.other_outputs(output.id),
        final(shell)@.toplevels == old(shell)@.toplevels,
        final(shell)@.state.workspaces == old(shell)@.state.workspaces,
        final(shell)@.state.next == old(shell)@.state.next,
        same_waiting(final(shell)@, old(shell)@),
        old(shell)@.workspaces is OutputBound && o != output.id
            ==> final(shell)@.workspaces.set_for(o) == old(shell)@.workspaces.set_for(o),
        old(shell)@.workspaces is Global ==> {
            let a = final(shell)@.workspaces->Global_0;
            let b = old(shell)@.workspaces->Global_0;
            &&& a.active == b.active && a.group == b.group
            &&& a.workspaces.len() == b.workspaces.len()
            &&& !final(shell)@.state.groups[b.group].contains(output.id)
            &&& 0 <= i < a.workspaces.len() ==> a.workspaces[i].handle == b.workspaces[i].handle
                && same_elements(a.workspaces[i], b.workspaces[i]) && a.workspaces[i].outputs
                == b.workspaces[i].outputs.remove(output.id)
        },
{
    let before = old(shell)@;
    if before.workspaces is Global {
        law_remove_global(before, output.id, i, 0, output.id);
    } else {
        law_remove_plain(before, output.id, o);
        law_set_for(before.workspaces, output.id, 0);
        if before.workspaces.set_for(output.id) is Some {
            lemma_first_other(before.outputs, output.id, before.outputs.len() as int);
        }
    }
}

/// What is set of an entry: whether it can be activated.
pub proof fn law_set_capabilities(
    state: &mut WorkspaceState,
    handle: WorkspaceHandle,
    on: bool,
    k: WorkspaceHandle,
)
    requires
        old(state).wf(),
        call_ensures(WorkspaceState::set_workspace_capabilities, (state, handle, on), ()),
    ensures
        call_requires(WorkspaceState::set_workspace_capabilities, (state, handle, on)),
        final(state)@.groups == old(state)@.groups,
        final(state)@.next == old(state)@.next,
        final(state)@.workspaces.dom().contains(k) <==> old(state)@.workspaces.dom().contains(k),
        k != handle ==> final(state)@.workspaces[k] == old(state)@.workspaces[k],
        old(state)@.workspaces.dom().contains(handle) ==> {
            let a = final(state)@.workspaces[handle];
            let b = old(state)@.workspaces[handle];
            &&& a.can_activate == on
            &&& a.group == b.group && a.name == b.name && a.coordinates == b.coordinates
                && a.active == b.active && a.hidden == b.hidden
        },
{
}

/// What is set of an entry: its name.
pub proof fn law_set_name(
    state: &mut WorkspaceState,
    handle: WorkspaceHandle,
    name: String,
    k: WorkspaceHandle,
)
    requires
        old(state).wf(),
        call_ensures(WorkspaceState::set_workspace_name, (state, handle, name), ()),
    ensures
        call_requires(WorkspaceState::set_workspace_name, (state, handle, name)),
        final(state)@.groups == old(state)@.groups,
        final(state)@.next == old(state)@.next,
        final(state)@.workspaces.dom().contains(k) <==> old(state)@.workspaces.dom().contains(k),
        k != handle ==> final(state)@.workspaces[k] == old(state)@.workspaces[k],
        old(state)@.workspaces.dom().contains(handle) ==> {
            let a = final(state)@.workspaces[handle];
            let b = old(state)@.workspaces[handle];
            &&& a.name == name@
            &&& a.group == b.group && a.can_activate == b.can_activate && a.coordinates
                == b.coordinates && a.active == b.active && a.hidden == b.hidden
        },
{
}

/// What is set of an entry: where it lies.
pub proof fn law_set_coordinates(
    state: &mut WorkspaceState,
    handle: WorkspaceHandle,
    coordinates: Coordinates,
    k: WorkspaceHandle,
)
    requires
        old(state).wf(),
        call_ensures(WorkspaceState::set_workspace_coordinates, (state, handle, coordinates), ()),
    ensures
        call_requires(WorkspaceState::set_workspace_coordinates, (state, handle, coordinates)),
        final(state)@.groups == old(state)@.groups,
        final(state)@.next == old(state)@.next,
        final(state)@.workspaces.dom().contains(k) <==> old(state)@.workspaces.dom().contains(k),
        k != handle ==> final(state)@.workspaces[k] == old(state)@.workspaces[k],
        old(state)@.workspaces.dom().contains(handle) ==> {
            let a = final(state)@.workspaces[handle];
            let b = old(state)@.workspaces[handle];
            &&& a.coordinates == coordinates
            &&& a.group == b.group && a.can_activate == b.can_activate && a.name == b.name
                && a.active == b.active && a.hidden == b.hidden
        },
{
}

/// What the shell answers about what is possible.
pub proof fn law_possible(
    shell: Shell,
    output: Output,
    window: WindowId,
    layer: LayerId,
    idx: usize,
    active: bool,
    activate: bool,
    waits: bool,
    layer_waits: bool,
)
    requires
        call_ensures(Shell::has_active_space, (&shell, &output), active),
        call_ensures(Shell::activate_possible, (&shell, &output, idx), activate),
        call_ensures(Shell::window_pending, (&shell, window), waits),
        call_ensures(Shell::layer_pending, (&shell, layer), layer_waits),
    ensures
        active <==> (shell@.workspaces.set_for(output.id) matches Some(set) && 0 <= set.active
            < set.workspaces.len()),
        active ==> activate,
        shell@.workspaces.set_for(output.id) is None ==> activate,
        shell@.workspaces.set_for(output.id) matches Some(set) ==> idx >= set.workspaces.len()
            ==> activate,
        waits <==> exists|j: int|
            0 <= j < shell@.pending_windows.len() && (#[trigger] shell@.pending_windows[j]).0.id
                == window,
        layer_waits <==> exists|j: int|
            0 <= j < shell@.pending_layers.len() && (#[trigger] shell@.pending_layers[j]).0
                == layer,
{
    law_pending_window(shell@, window, 0);
    law_pending_layer(shell@, layer, 0);
    if exists|j: int|
        0 <= j < shell@.pending_windows.len() && (#[trigger] shell@.pending_windows[j]).0.id
            == window {
        let j = choose|j: int|
            0 <= j < shell@.pending_windows.len() && (#[trigger] shell@.pending_windows[j]).0.id
                == window;
        law_pending_window(shell@, window, j);
    }
    if exists|j: int|
        0 <= j < shell@.pending_layers.len() && (#[trigger] shell@.pending_layers[j]).0 == layer {
        let j = choose|j: int|
            0 <= j < shell@.pending_layers.len() && (#[trigger] shell@.pending_layers[j]).0
                == layer;
        law_pending_layer(shell@, layer, j);
    }
}

/// What the shell answers about what is possible is what its operations ask for.
pub proof fn law_possible_is_asked(
    shell: Shell,
    output: Output,
    mode: ConfigMode,
    seat: SeatId,
    idx: usize,
    refresh: bool,
    add: bool,
    release: bool,
    convert: bool,
    moves: bool,
)
    requires
        call_ensures(Shell::refresh_possible, (&shell,), refresh),
        call_ensures(Shell::add_possible, (&shell, &output), add),
        call_ensures(Shell::release_possible, (&shell, &output), release),
        call_ensures(Shell::convert_possible, (&shell, mode), convert),
        call_ensures(Shell::move_possible, (&shell, seat, &output, idx), moves),
    ensures
        refresh == shell@.can_refresh(),
        release == shell@.can_release(output.id),
        convert == shell@.can_convert(mode),
        moves == shell@.can_move(seat, output.id, idx as int),
        add ==> output.wf(),
        output.wf() && shell@.workspaces is Global && shell@.state.next <= u64::MAX ==> add,
        output.wf() && shell@.state.next + 256 <= u64::MAX ==> add,
        add && shell@.workspaces is OutputBound && shell@.workspaces.set_for(output.id) is None
            ==> shell@.state.next < u64::MAX,
{
}

} // verus!
