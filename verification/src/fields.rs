//! What the small operations do, field by field: on coordinates, on what clients are told, on
//! elements and on workspaces.
use crate::element::{
    element_index, element_of, has_element, lemma_element_index, Element, ElementId, ElementView,
    Layer, Window,
};
use crate::geometry::{Point, Rectangle};
use crate::output::Output;
use crate::protocol::{
    blank_entry, decimal, EntryView, OutputId, StateView, WState, WorkspaceEntry,
    WorkspaceGroupHandle, WorkspaceHandle, WorkspaceState,
};
use crate::set::{
    absorbed, handles, new_workspaces, shown_at, shown_in, started_entry, WorkspaceAmount,
    WorkspaceSet,
};
use crate::shell::Shell;
use crate::toplevel::{ToplevelInfoState, ToplevelView, WindowId};
use crate::workspace::{
    first_where, last_focus, lemma_element_layer, lemma_first_where, new_workspace, SeatId,
    Workspace, WorkspaceView,
};
use vstd::prelude::*;

verus! {

/// Points are added and subtracted coordinate by coordinate. What is out of range becomes the
/// bound that it is beyond.
pub proof fn law_points(a: Point, b: Point)
    ensures
        i32::MIN <= a.x + b.x <= i32::MAX ==> a.plus(b).x == a.x + b.x,
        i32::MIN <= a.y + b.y <= i32::MAX ==> a.plus(b).y == a.y + b.y,
        i32::MIN <= a.x - b.x <= i32::MAX ==> a.minus(b).x == a.x - b.x,
        i32::MIN <= a.y - b.y <= i32::MAX ==> a.minus(b).y == a.y - b.y,
        a.x + b.x > i32::MAX ==> a.plus(b).x == i32::MAX,
        a.x + b.x < i32::MIN ==> a.plus(b).x == i32::MIN,
        a.y + b.y > i32::MAX ==> a.plus(b).y == i32::MAX,
        a.y + b.y < i32::MIN ==> a.plus(b).y == i32::MIN,
        a.x - b.x > i32::MAX ==> a.minus(b).x == i32::MAX,
        a.x - b.x < i32::MIN ==> a.minus(b).x == i32::MIN,
        a.y - b.y > i32::MAX ==> a.minus(b).y == i32::MAX,
        a.y - b.y < i32::MIN ==> a.minus(b).y == i32::MIN,
        Point::zero().x == 0 && Point::zero().y == 0,
{
}

/// A merged rectangle starts at the smaller coordinates of both. It reaches as far as the one
/// that reaches farther, as far as that can be measured.
pub proof fn law_rectangle_around(a: Rectangle, b: Rectangle)
    requires
        a.size.w >= 0 && a.size.h >= 0 && b.size.w >= 0 && b.size.h >= 0,
        a.loc.x + a.size.w <= i32::MAX && a.loc.y + a.size.h <= i32::MAX,
        b.loc.x + b.size.w <= i32::MAX && b.loc.y + b.size.h <= i32::MAX,
    ensures
        ({
            let r = a.around(b);
            let right = if a.loc.x + a.size.w >= b.loc.x + b.size.w {
                a.loc.x + a.size.w
            } else {
                b.loc.x + b.size.w
            };
            let bottom = if a.loc.y + a.size.h >= b.loc.y + b.size.h {
                a.loc.y + a.size.h
            } else {
                b.loc.y + b.size.h
            };
            &&& r.loc.x == a.loc.x || r.loc.x == b.loc.x
            &&& r.loc.x <= a.loc.x && r.loc.x <= b.loc.x
            &&& r.loc.y == a.loc.y || r.loc.y == b.loc.y
            &&& r.loc.y <= a.loc.y && r.loc.y <= b.loc.y
            &&& right - r.loc.x <= i32::MAX ==> r.loc.x + r.size.w == right
            &&& right - r.loc.x > i32::MAX ==> r.size.w == i32::MAX
            &&& bottom - r.loc.y <= i32::MAX ==> r.loc.y + r.size.h == bottom
            &&& bottom - r.loc.y > i32::MAX ==> r.size.h == i32::MAX
            &&& Rectangle::empty().loc == Point::zero()
            &&& Rectangle::empty().size.w == 0 && Rectangle::empty().size.h == 0
        }),
{
}

/// Where an output lies is where the part of the global space starts that it shows.
pub proof fn law_output_location(output: Output)
    ensures
        output.location() == output.geometry.loc,
{
}

/// The number that a row of digits stands for.
pub open spec fn numeral(s: Seq<char>) -> int
    decreases s.len(),
{
    if s.len() == 0 {
        0
    } else {
        10 * numeral(s.drop_last()) + (s.last() as int - '0' as int)
    }
}

/// A number is written with digits that stand for it, and without leading zeros.
pub proof fn law_decimal(n: nat)
    ensures
        numeral(decimal(n)) == n,
        decimal(n).len() > 0,
        forall|i: int| 0 <= i < decimal(n).len() ==> '0' <= #[trigger] decimal(n)[i] <= '9',
        decimal(n).len() > 1 ==> decimal(n)[0] != '0',
    decreases n,
{
    let s = decimal(n);
    assert(numeral(Seq::<char>::empty()) == 0);
    if n < 10 {
        assert(s.drop_last() =~= Seq::<char>::empty());
        assert(numeral(s) == s.last() as int - '0' as int);
    } else {
        law_decimal(n / 10);
        let t = decimal(n / 10);
        assert(s.drop_last() =~= t);
        assert forall|i: int| 0 <= i < s.len() implies '0' <= #[trigger] s[i] <= '9' by {
            if i < t.len() {
                assert(s[i] == t[i]);
            }
        }
        assert(s[0] == t[0]);
        if t.len() == 1 {
            assert(t.drop_last() =~= Seq::<char>::empty());
            assert(numeral(t) == t[0] as int - '0' as int);
        }
    }
}

/// A workspace that starts at a place is named by the number of the place, counted from one,
/// lies there, can be activated and is hidden. Its group stays, and whether it is active.
pub proof fn law_entry_initialised(entry: EntryView, idx: u8)
    ensures
        ({
            let after = entry.initialised(idx);
            &&& numeral(after.name) == idx + 1
            &&& after.coordinates == (Some(idx as u32), None::<u32>, None::<u32>)
            &&& after.can_activate
            &&& after.hidden
            &&& after.group == entry.group
            &&& after.active == entry.active
        }),
{
    law_decimal((idx + 1) as nat);
}

/// What is announced of a workspace that starts.
pub proof fn law_started_entry(group: WorkspaceGroupHandle, idx: u8, active: bool)
    ensures
        ({
            let entry = started_entry(group, idx, active);
            &&& entry.group == group
            &&& entry.active == active
            &&& numeral(entry.name) == idx + 1
            &&& entry.coordinates == (Some(idx as u32), None::<u32>, None::<u32>)
            &&& entry.can_activate
            &&& entry.hidden
            &&& blank_entry(group).group == group
            &&& !blank_entry(group).active && !blank_entry(group).hidden
        }),
{
    law_decimal((idx + 1) as nat);
}

/// Setting a state of a workspace sets that alone, and on that workspace alone.
pub proof fn law_with_state(
    state: StateView,
    h: WorkspaceHandle,
    s: WState,
    on: bool,
    k: WorkspaceHandle,
)
    ensures
        ({
            let after = state.with_state(h, s, on);
            let a = after.workspaces[k];
            let b = state.workspaces[k];
            &&& after.groups == state.groups
            &&& after.next == state.next
            &&& after.workspaces.dom().contains(k) <==> state.workspaces.dom().contains(k)
            &&& k != h ==> a == b
            &&& a.group == b.group && a.name == b.name && a.coordinates == b.coordinates
                && a.can_activate == b.can_activate
            &&& k == h && state.workspaces.dom().contains(h) && s is Active ==> a.active == on
                && a.hidden == b.hidden
            &&& k == h && state.workspaces.dom().contains(h) && s is Hidden ==> a.hidden == on
                && a.active == b.active
        }),
{
}

/// Replacing the entry of a workspace changes that one, and only where there is one.
pub proof fn law_replaced(
    state: StateView,
    h: WorkspaceHandle,
    entry: EntryView,
    k: WorkspaceHandle,
)
    ensures
        ({
            let after = state.replaced(h, entry);
            &&& after.groups == state.groups
            &&& after.next == state.next
            &&& after.workspaces.dom().contains(k) <==> state.workspaces.dom().contains(k)
            &&& k != h ==> after.workspaces[k] == state.workspaces[k]
            &&& state.workspaces.dom().contains(h) ==> after.workspaces[h] == entry
        }),
{
}

/// A new group goes by the next handle and has no outputs. Everything else stays.
pub proof fn law_new_group(state: StateView, g: WorkspaceGroupHandle)
    requires
        0 <= state.next < u64::MAX,
    ensures
        ({
            let after = state.with_new_group();
            &&& after.groups.dom().contains(g) <==> state.groups.dom().contains(g) || g
                == state.next
            &&& g == state.next ==> after.groups[g] == Set::<OutputId>::empty()
            &&& g != state.next ==> after.groups[g] == state.groups[g]
            &&& after.workspaces == state.workspaces
            &&& after.next == state.next + 1
        }),
{
}

/// A new workspace goes by the next handle. Everything else stays.
pub proof fn law_registered_workspace(state: StateView, entry: EntryView, h: WorkspaceHandle)
    requires
        0 <= state.next < u64::MAX,
    ensures
        ({
            let after = state.with_new_workspace(entry);
            &&& after.workspaces.dom().contains(h) <==> state.workspaces.dom().contains(h) || h
                == state.next
            &&& h == state.next ==> after.workspaces[h] == entry
            &&& h != state.next ==> after.workspaces[h] == state.workspaces[h]
            &&& after.groups == state.groups
            &&& after.next == state.next + 1
        }),
{
}

/// Withdrawing workspaces, or groups, withdraws those and no others.
pub proof fn law_withdrawn(
    state: StateView,
    gone: Set<WorkspaceHandle>,
    groups: Set<WorkspaceGroupHandle>,
    h: u64,
)
    ensures
        ({
            let after = state.without_workspaces(gone);
            let last = state.without_groups(groups);
            &&& after.workspaces.dom().contains(h) <==> state.workspaces.dom().contains(h)
                && !gone.contains(h)
            &&& !gone.contains(h) && state.workspaces.dom().contains(h) ==> after.workspaces[h]
                == state.workspaces[h]
            &&& after.groups == state.groups && after.next == state.next
            &&& last.groups.dom().contains(h) <==> state.groups.dom().contains(h)
                && !groups.contains(h)
            &&& !groups.contains(h) && state.groups.dom().contains(h) ==> last.groups[h]
                == state.groups[h]
            &&& last.workspaces == state.workspaces && last.next == state.next
        }),
{
}

/// Outputs are added to, and taken out of, just the group named.
pub proof fn law_group_output(
    state: StateView,
    g: WorkspaceGroupHandle,
    output: OutputId,
    k: WorkspaceGroupHandle,
    o: OutputId,
)
    requires
        state.groups.dom().contains(g),
    ensures
        ({
            let more = state.with_group_output(g, output);
            let less = state.without_group_output(g, output);
            &&& more.groups.dom().contains(k) <==> state.groups.dom().contains(k)
            &&& less.groups.dom().contains(k) <==> state.groups.dom().contains(k)
            &&& k != g ==> more.groups[k] == state.groups[k] && less.groups[k] == state.groups[k]
            &&& more.groups[g].contains(o) <==> state.groups[g].contains(o) || o == output
            &&& less.groups[g].contains(o) <==> state.groups[g].contains(o) && o != output
            &&& more.workspaces == state.workspaces && more.next == state.next
            &&& less.workspaces == state.workspaces && less.next == state.next
        }),
{
}

/// Workspaces that start together go by the next handles, all at the first place. The first of
/// them is active if it leads. Everything else stays.
pub proof fn law_with_started(
    state: StateView,
    group: WorkspaceGroupHandle,
    n: int,
    lead: bool,
    h: WorkspaceHandle,
)
    requires
        0 <= n,
        0 <= state.next,
        state.next + n <= u64::MAX,
    ensures
        ({
            let after = state.with_started(group, n, lead);
            let new = state.next <= h < state.next + n;
            let e = after.workspaces[h];
            &&& after.next == state.next + n
            &&& after.groups == state.groups
            &&& after.workspaces.dom().contains(h) <==> state.workspaces.dom().contains(h) || new
            &&& !new && state.workspaces.dom().contains(h) ==> e == state.workspaces[h]
            &&& new ==> e.group == group && numeral(e.name) == 1 && e.coordinates == (
                Some(0u32),
                None::<u32>,
                None::<u32>,
            ) && e.can_activate && e.hidden && (e.active <==> lead && h == state.next)
        }),
{
    law_started_entry(group, 0, lead && h == state.next);
}

/// Windows leave, and enter, just the workspace named, and the outputs stay.
pub proof fn law_enter_leave(
    t: ToplevelView,
    windows: Set<WindowId>,
    h: WorkspaceHandle,
    x: WindowId,
    k: WorkspaceHandle,
)
    ensures
        t.left(windows, h).workspaces.contains((x, k)) <==> t.workspaces.contains((x, k)) && !(
        windows.contains(x) && k == h),
        t.entered(windows, h).workspaces.contains((x, k)) <==> t.workspaces.contains((x, k)) || (
        windows.contains(x) && k == h),
        t.left(windows, h).outputs == t.outputs,
        t.entered(windows, h).outputs == t.outputs,
{
}

/// The element of a single window has that window, at its origin, and that window's surface. It
/// goes by the window's name, and no layout has said where it lies.
pub proof fn law_element_of(window: Window)
    ensures
        ({
            let e = element_of(window);
            &&& e.id == window.id
            &&& e.windows.len() == 1
            &&& e.windows[0].window == window.id
            &&& e.windows[0].offset.x == 0 && e.windows[0].offset.y == 0
            &&& e.windows[0].geometry_loc == window.geometry_loc
            &&& e.surfaces.len() == 1 && e.surfaces[0] == window.surface
            &&& e.outputs.len() == 0
            &&& e.main_output is None
            &&& e.location.x == 0 && e.location.y == 0
        }),
{
}

/// The windows of an element are those in its list.
pub proof fn law_element_shows(e: ElementView, x: WindowId)
    ensures
        e.shows(x) <==> exists|j: int|
            0 <= j < e.windows.len() && (#[trigger] e.windows[j]).window == x,
        e.window_set().contains(x) <==> exists|j: int|
            0 <= j < e.windows.len() && (#[trigger] e.windows[j]).window == x,
{
}

/// An element at another place is otherwise the same.
pub proof fn law_element_at(e: ElementView, location: Point)
    ensures
        ({
            let f = e.at(location);
            &&& f.location == location
            &&& f.id == e.id && f.windows == e.windows && f.surfaces == e.surfaces
            &&& f.outputs == e.outputs && f.main_output == e.main_output
        }),
{
}

/// The element that a seat's focus went to last is the one of the latest entry of that seat.
/// Without an entry of the seat there is none.
pub proof fn law_last_focus(s: Seq<(SeatId, ElementId)>, seat: SeatId)
    ensures
        match last_focus(s, seat) {
            Some(id) => exists|k: int|
                0 <= k < s.len() && #[trigger] s[k] == (seat, id) && forall|j: int|
                    k < j < s.len() ==> (#[trigger] s[j]).0 != seat,
            None => forall|j: int| 0 <= j < s.len() ==> (#[trigger] s[j]).0 != seat,
        },
    decreases s.len(),
{
    if s.len() > 0 {
        let n = s.len() - 1;
        if s.last().0 == seat {
            assert(s[n] == (seat, s.last().1));
        } else {
            let t = s.drop_last();
            law_last_focus(t, seat);
            match last_focus(t, seat) {
                Some(id) => {
                    let k = choose|k: int|
                        0 <= k < t.len() && #[trigger] t[k] == (seat, id) && forall|j: int|
                            k < j < t.len() ==> (#[trigger] t[j]).0 != seat;
                    assert(s[k] == (seat, id));
                    assert forall|j: int| k < j < s.len() implies (#[trigger] s[j]).0 != seat by {
                        if j < n {
                            assert(t[j].0 != seat);
                        }
                    }
                },
                None => {
                    assert forall|j: int| 0 <= j < s.len() implies (#[trigger] s[j]).0 != seat by {
                        if j < n {
                            assert(t[j].0 != seat);
                        }
                    }
                },
            }
        }
    }
}

/// A later entry of the seat decides, whatever comes before it and whatever other seats do
/// after it.
pub proof fn law_latest_focus(s: Seq<(SeatId, ElementId)>, seat: SeatId, k: int)
    requires
        0 <= k < s.len(),
        s[k].0 == seat,
        forall|j: int| k < j < s.len() ==> (#[trigger] s[j]).0 != seat,
    ensures
        last_focus(s, seat) == Some(s[k].1),
{
    law_last_focus(s, seat);
    match last_focus(s, seat) {
        Some(id) => {
            let q = choose|q: int|
                0 <= q < s.len() && #[trigger] s[q] == (seat, id) && forall|j: int|
                    q < j < s.len() ==> (#[trigger] s[j]).0 != seat;
            if q < k {
                assert(s[k].0 != seat);
            } else if k < q {
                assert(s[q].0 != seat);
            }
        },
        None => {
            assert(s[k].0 != seat);
        },
    }
}

/// The elements of a workspace are those that float, and behind them those that are tiled.
pub proof fn law_mapped(w: WorkspaceView, i: int)
    ensures
        w.mapped().len() == w.floating_layer.len() + w.tiling_layer.len(),
        0 <= i < w.floating_layer.len() ==> w.mapped()[i] == w.floating_layer[i],
        0 <= i < w.tiling_layer.len() ==> w.mapped()[w.floating_layer.len() + i]
            == w.tiling_layer[i],
        w.names().len() == w.mapped().len(),
        0 <= i < w.mapped().len() ==> w.names()[i] == w.mapped()[i].id,
{
}

/// The windows of a workspace are those of the elements on either layer.
pub proof fn law_workspace_windows(w: WorkspaceView, x: WindowId)
    ensures
        w.windows().contains(x) <==> ((exists|i: int|
            0 <= i < w.floating_layer.len() && (#[trigger] w.floating_layer[i]).shows(x)) || (
        exists|i: int| 0 <= i < w.tiling_layer.len() && (#[trigger] w.tiling_layer[i]).shows(x))),
        w.has_windows() <==> exists|y: WindowId| w.windows().contains(y),
{
    let m = w.mapped();
    let n = w.floating_layer.len() as int;
    if w.windows().contains(x) {
        let k = choose|k: int| 0 <= k < m.len() && (#[trigger] m[k]).shows(x);
        if k < n {
            assert(w.floating_layer[k].shows(x));
        } else {
            assert(w.tiling_layer[k - n].shows(x));
        }
    }
    if exists|i: int| 0 <= i < n && (#[trigger] w.floating_layer[i]).shows(x) {
        let i = choose|i: int| 0 <= i < n && (#[trigger] w.floating_layer[i]).shows(x);
        assert(m[i].shows(x));
    }
    if exists|i: int| 0 <= i < w.tiling_layer.len() && (#[trigger] w.tiling_layer[i]).shows(x) {
        let i = choose|i: int|
            0 <= i < w.tiling_layer.len() && (#[trigger] w.tiling_layer[i]).shows(x);
        assert(m[n + i].shows(x));
    }
}

/// The element of a name is the first one with it, and those that float come first.
pub proof fn law_element_named(w: WorkspaceView, id: ElementId, i: int)
    requires
        0 <= i < w.mapped().len(),
        w.mapped()[i].id == id,
        forall|j: int| 0 <= j < i ==> (#[trigger] w.mapped()[j]).id != id,
    ensures
        w.has(id),
        w.element(id) == w.mapped()[i],
{
    lemma_element_index(w.mapped(), id);
    let k = element_index(w.mapped(), id);
    if k < i {
        assert(w.mapped()[k].id != id);
    }
    if i < k {
        assert(w.mapped()[i].id != id);
    }
}

/// An element floats if it is on the layer of those that do.
pub proof fn law_floats(w: WorkspaceView, id: ElementId)
    ensures
        w.floats(id) <==> exists|i: int|
            0 <= i < w.floating_layer.len() && (#[trigger] w.floating_layer[i]).id == id,
        w.has(id) <==> exists|i: int| 0 <= i < w.mapped().len() && (#[trigger] w.mapped()[i]).id
            == id,
        w.on_one_layer(id) <==> ((exists|i: int|
            0 <= i < w.floating_layer.len() && (#[trigger] w.floating_layer[i]).id == id) != (
        exists|i: int| 0 <= i < w.tiling_layer.len() && (#[trigger] w.tiling_layer[i]).id == id)),
{
}

/// The first element with a surface.
pub proof fn law_surface_index(w: WorkspaceView, surface: u64, j: int)
    ensures
        0 <= j < w.mapped().len() && w.mapped()[j].surfaces.contains(surface) ==> w.shows_surface(
            surface,
        ) && w.surface_index(surface) <= j,
        w.shows_surface(surface) ==> 0 <= w.surface_index(surface) < w.mapped().len()
            && w.mapped()[w.surface_index(surface)].surfaces.contains(surface),
{
    let p = |e: ElementView| e.surfaces.contains(surface);
    lemma_first_where(w.mapped(), p);
    if 0 <= j < w.mapped().len() && j < first_where(w.mapped(), p) {
        assert(!p(w.mapped()[j]));
    }
}

/// A new workspace is tiled, and nothing is on it or known of it but its handle.
pub proof fn law_new_workspace(handle: WorkspaceHandle)
    ensures
        ({
            let w = new_workspace(handle);
            &&& w.handle == handle
            &&& w.tiling_enabled
            &&& w.tiling_layer.len() == 0 && w.floating_layer.len() == 0
            &&& w.focus_stack.len() == 0
            &&& w.fullscreen == Map::<OutputId, WindowId>::empty()
            &&& w.outputs == Map::<OutputId, Point>::empty()
            &&& !w.needs_refresh
        }),
{
}

/// New workspaces go by handles in a row.
pub proof fn law_new_workspaces(first: int, n: int, i: int)
    requires
        0 <= first,
        0 <= i < n,
        first + n <= u64::MAX + 1,
    ensures
        new_workspaces(first, n).len() == n,
        new_workspaces(first, n)[i].handle == first + i,
        new_workspaces(first, n)[i].tiling_enabled,
        new_workspaces(first, n)[i].mapped().len() == 0,
        new_workspaces(first, n)[i].outputs == Map::<OutputId, Point>::empty(),
{
}

/// Whether two workspaces have the same elements, on the same layers and in the same order, and
/// the same windows that fill outputs.
pub open spec fn same_elements(a: WorkspaceView, b: WorkspaceView) -> bool {
    &&& a.tiling_layer == b.tiling_layer
    &&& a.floating_layer == b.floating_layer
    &&& a.fullscreen == b.fullscreen
}

/// Whether two workspaces agree in whether they are tiled and in who had the focus.
pub open spec fn same_settings(a: WorkspaceView, b: WorkspaceView) -> bool {
    &&& a.tiling_enabled == b.tiling_enabled
    &&& a.focus_stack == b.focus_stack
}

/// Whether two workspaces differ at most in being laid out again.
pub open spec fn same_but_layout(a: WorkspaceView, b: WorkspaceView) -> bool {
    &&& a.handle == b.handle
    &&& same_elements(a, b)
    &&& same_settings(a, b)
    &&& a.outputs == b.outputs
}

/// Showing an output, or showing it no longer, changes that alone.
pub proof fn law_workspace_output(w: WorkspaceView, output: OutputId, at: Point, o: OutputId)
    ensures
        ({
            let more = w.with_output(output, at);
            let less = w.without_output(output);
            &&& more.handle == w.handle && less.handle == w.handle
            &&& same_elements(more, w) && same_elements(less, w)
            &&& same_settings(more, w) && same_settings(less, w)
            &&& more.needs_refresh == w.needs_refresh && less.needs_refresh == w.needs_refresh
            &&& more.outputs.dom().contains(o) <==> w.outputs.dom().contains(o) || o == output
            &&& less.outputs.dom().contains(o) <==> w.outputs.dom().contains(o) && o != output
            &&& more.outputs[output] == at
            &&& o != output && w.outputs.dom().contains(o) ==> more.outputs[o] == w.outputs[o]
                && less.outputs[o] == w.outputs[o]
        }),
{
}

/// A workspace that is to be laid out again is otherwise the same.
pub proof fn law_workspace_refreshed(w: WorkspaceView)
    ensures
        w.refreshed().needs_refresh,
        same_but_layout(w.refreshed(), w),
{
}

/// Showing outputs changes nothing else, and shows no other outputs.
pub proof fn law_workspace_outputs(w: WorkspaceView, outputs: Seq<Output>, o: OutputId)
    ensures
        ({
            let after = w.with_outputs(outputs);
            &&& after.handle == w.handle
            &&& same_elements(after, w)
            &&& same_settings(after, w)
            &&& after.needs_refresh == w.needs_refresh
            &&& after.outputs.dom().contains(o) <==> w.outputs.dom().contains(o) || exists|j: int|
                0 <= j < outputs.len() && (#[trigger] outputs[j]).id == o
            &&& (forall|j: int| 0 <= j < outputs.len() ==> (#[trigger] outputs[j]).id != o)
                && w.outputs.dom().contains(o) ==> after.outputs[o] == w.outputs[o]
        }),
    decreases outputs.len(),
{
    if outputs.len() > 0 {
        let before = outputs.drop_last();
        law_workspace_outputs(w, before, o);
        let n = outputs.len() - 1;
        if exists|j: int| 0 <= j < before.len() && (#[trigger] before[j]).id == o {
            let j = choose|j: int| 0 <= j < before.len() && (#[trigger] before[j]).id == o;
            assert(outputs[j].id == o);
        }
        if exists|j: int| 0 <= j < outputs.len() && (#[trigger] outputs[j]).id == o {
            let j = choose|j: int| 0 <= j < outputs.len() && (#[trigger] outputs[j]).id == o;
            if j < n {
                assert(before[j].id == o);
            }
        } else {
            assert forall|j: int| 0 <= j < before.len() implies (#[trigger] before[j]).id != o by {
                assert(outputs[j].id != o);
            }
            assert(outputs[n].id != o);
        }
        if outputs[n].id == o {
            assert(outputs[n].id == o);
        }
    }
}

/// Where an output is shown is where the last output of its name lies.
pub proof fn law_workspace_output_place(w: WorkspaceView, outputs: Seq<Output>, j: int)
    requires
        0 <= j < outputs.len(),
        forall|k: int| j < k < outputs.len() ==> (#[trigger] outputs[k]).id != outputs[j].id,
    ensures
        w.with_outputs(outputs).outputs.dom().contains(outputs[j].id),
        w.with_outputs(outputs).outputs[outputs[j].id] == outputs[j].geometry.loc,
    decreases outputs.len(),
{
    let before = outputs.drop_last();
    let n = outputs.len() - 1;
    if j < n {
        assert(before[j] == outputs[j]);
        assert forall|k: int| j < k < before.len() implies (#[trigger] before[k]).id
            != before[j].id by {
            assert(before[k] == outputs[k]);
        }
        law_workspace_output_place(w, before, j);
        assert(outputs[n].id != outputs[j].id);
    }
}

/// Merging a workspace into another puts its elements behind, layer by layer, and lets its
/// windows fill outputs in place of others. Nothing else changes.
pub proof fn law_workspace_merged(a: WorkspaceView, b: WorkspaceView, o: OutputId)
    ensures
        ({
            let m = a.merged(b);
            &&& m.handle == a.handle
            &&& same_settings(m, a)
            &&& m.outputs == a.outputs
            &&& m.needs_refresh == a.needs_refresh
            &&& m.tiling_layer.len() == a.tiling_layer.len() + b.tiling_layer.len()
            &&& m.floating_layer.len() == a.floating_layer.len() + b.floating_layer.len()
            &&& forall|i: int|
                0 <= i < a.tiling_layer.len() ==> #[trigger] m.tiling_layer[i] == a.tiling_layer[i]
            &&& forall|i: int|
                0 <= i < b.tiling_layer.len() ==> m.tiling_layer[a.tiling_layer.len() + i]
                    == #[trigger] b.tiling_layer[i]
            &&& forall|i: int|
                0 <= i < a.floating_layer.len() ==> #[trigger] m.floating_layer[i]
                    == a.floating_layer[i]
            &&& forall|i: int|
                0 <= i < b.floating_layer.len() ==> m.floating_layer[a.floating_layer.len() + i]
                    == #[trigger] b.floating_layer[i]
            &&& m.fullscreen.dom().contains(o) <==> a.fullscreen.dom().contains(o)
                || b.fullscreen.dom().contains(o)
            &&& b.fullscreen.dom().contains(o) ==> m.fullscreen[o] == b.fullscreen[o]
            &&& a.fullscreen.dom().contains(o) && !b.fullscreen.dom().contains(o)
                ==> m.fullscreen[o] == a.fullscreen[o]
        }),
{
}

/// Merging several workspaces into one is merging them one after the other, and changes
/// neither its handle nor its settings nor where it is shown.
pub proof fn law_workspace_absorbed(w: WorkspaceView, rest: Seq<WorkspaceView>, o: OutputId)
    ensures
        ({
            let m = absorbed(w, rest);
            &&& m.handle == w.handle
            &&& same_settings(m, w)
            &&& m.outputs == w.outputs
            &&& m.needs_refresh == w.needs_refresh
            &&& rest.len() == 0 ==> m == w
            &&& rest.len() > 0 ==> m == absorbed(w, rest.drop_last()).merged(rest.last())
            &&& m.fullscreen.dom().contains(o) <==> w.fullscreen.dom().contains(o) || exists|k: int|
                0 <= k < rest.len() && (#[trigger] rest[k]).fullscreen.dom().contains(o)
        }),
    decreases rest.len(),
{
    if rest.len() > 0 {
        let before = rest.drop_last();
        law_workspace_absorbed(w, before, o);
        let n = rest.len() - 1;
        if exists|k: int| 0 <= k < before.len() && (#[trigger] before[k]).fullscreen.dom().contains(o) {
            let k = choose|k: int|
                0 <= k < before.len() && (#[trigger] before[k]).fullscreen.dom().contains(o);
            assert(rest[k].fullscreen.dom().contains(o));
        }
        if exists|k: int| 0 <= k < rest.len() && (#[trigger] rest[k]).fullscreen.dom().contains(o) {
            let k = choose|k: int|
                0 <= k < rest.len() && (#[trigger] rest[k]).fullscreen.dom().contains(o);
            if k < n {
                assert(before[k].fullscreen.dom().contains(o));
            }
        }
        if rest.last().fullscreen.dom().contains(o) {
            assert(rest[n].fullscreen.dom().contains(o));
        }
    }
}

/// The elements of one layer of workspaces, one workspace after the other.
pub open spec fn joined(s: Seq<WorkspaceView>, floating: bool) -> Seq<ElementView>
    decreases s.len(),
{
    if s.len() == 0 {
        Seq::empty()
    } else {
        (if floating {
            s[0].floating_layer
        } else {
            s[0].tiling_layer
        }) + joined(s.drop_first(), floating)
    }
}

proof fn lemma_joined_last(s: Seq<WorkspaceView>, floating: bool)
    requires
        s.len() > 0,
    ensures
        joined(s, floating) == joined(s.drop_last(), floating) + (if floating {
            s.last().floating_layer
        } else {
            s.last().tiling_layer
        }),
    decreases s.len(),
{
    let d = s.drop_first();
    if d.len() > 0 {
        lemma_joined_last(d, floating);
        assert(d.drop_last() =~= s.drop_last().drop_first());
        assert(s.drop_last()[0] == s[0]);
        assert(d.last() == s.last());
    } else {
        assert(s.drop_last() =~= Seq::<WorkspaceView>::empty());
        assert(joined(d, floating) =~= Seq::<ElementView>::empty());
        assert(joined(s.drop_last(), floating) =~= Seq::<ElementView>::empty());
    }
    assert(joined(s, floating) =~= joined(s.drop_last(), floating) + (if floating {
        s.last().floating_layer
    } else {
        s.last().tiling_layer
    }));
}

/// Workspaces that are merged into one add their elements in their order, layer by layer.
pub proof fn law_absorbed_order(w: WorkspaceView, rest: Seq<WorkspaceView>)
    ensures
        absorbed(w, rest).tiling_layer == w.tiling_layer + joined(rest, false),
        absorbed(w, rest).floating_layer == w.floating_layer + joined(rest, true),
    decreases rest.len(),
{
    if rest.len() > 0 {
        law_absorbed_order(w, rest.drop_last());
        lemma_joined_last(rest, false);
        lemma_joined_last(rest, true);
    }
    assert(absorbed(w, rest).tiling_layer =~= w.tiling_layer + joined(rest, false));
    assert(absorbed(w, rest).floating_layer =~= w.floating_layer + joined(rest, true));
}

/// The window that fills an output is, after a merge, the one of the last workspace that has
/// one there.
pub proof fn law_absorbed_fullscreen(
    w: WorkspaceView,
    rest: Seq<WorkspaceView>,
    o: OutputId,
    k: int,
)
    requires
        0 <= k < rest.len(),
        rest[k].fullscreen.dom().contains(o),
        forall|j: int|
            k < j < rest.len() ==> !(#[trigger] rest[j]).fullscreen.dom().contains(o),
    ensures
        absorbed(w, rest).fullscreen.dom().contains(o),
        absorbed(w, rest).fullscreen[o] == rest[k].fullscreen[o],
    decreases rest.len(),
{
    let before = rest.drop_last();
    let n = rest.len() - 1;
    if k < n {
        assert(before[k] == rest[k]);
        assert forall|j: int| k < j < before.len() implies !(
        #[trigger] before[j]).fullscreen.dom().contains(o) by {
            assert(before[j] == rest[j]);
        }
        law_absorbed_fullscreen(w, before, o, k);
        assert(!rest[n].fullscreen.dom().contains(o));
    }
}

/// Mapping an element puts it on top of the one layer named, and changes nothing else.
pub proof fn law_with_element(w: WorkspaceView, e: ElementView, floating: bool)
    ensures
        ({
            let after = w.with_element(e, floating);
            &&& after.handle == w.handle
            &&& same_settings(after, w)
            &&& after.outputs == w.outputs
            &&& after.fullscreen == w.fullscreen
            &&& after.needs_refresh == w.needs_refresh
            &&& floating ==> after.floating_layer == w.floating_layer.push(e) && after.tiling_layer
                == w.tiling_layer
            &&& !floating ==> after.tiling_layer == w.tiling_layer.push(e) && after.floating_layer
                == w.floating_layer
        }),
{
}

/// Taking an element off removes the first one of its name from the layer that it is on, and
/// changes nothing else.
pub proof fn law_without_element(w: WorkspaceView, id: ElementId, i: int)
    requires
        w.on_one_layer(id),
    ensures
        ({
            let after = w.without_element(id);
            &&& after.handle == w.handle
            &&& same_settings(after, w)
            &&& after.outputs == w.outputs
            &&& after.fullscreen == w.fullscreen
            &&& after.needs_refresh == w.needs_refresh
            &&& 0 <= i < w.floating_layer.len() && w.floating_layer[i].id == id && (forall|j: int|
                0 <= j < i ==> (#[trigger] w.floating_layer[j]).id != id) ==> after.floating_layer
                == w.floating_layer.remove(i) && after.tiling_layer == w.tiling_layer
                && w.element(id) == w.floating_layer[i]
            &&& 0 <= i < w.tiling_layer.len() && w.tiling_layer[i].id == id && (forall|j: int|
                0 <= j < i ==> (#[trigger] w.tiling_layer[j]).id != id) ==> after.tiling_layer
                == w.tiling_layer.remove(i) && after.floating_layer == w.floating_layer
                && w.element(id) == w.tiling_layer[i]
        }),
{
    lemma_element_layer(w, id);
    lemma_element_index(w.floating_layer, id);
    lemma_element_index(w.tiling_layer, id);
    let f = element_index(w.floating_layer, id);
    let t = element_index(w.tiling_layer, id);
    if 0 <= i < w.floating_layer.len() && w.floating_layer[i].id == id && (forall|j: int|
        0 <= j < i ==> (#[trigger] w.floating_layer[j]).id != id) {
        if f < i {
            assert(w.floating_layer[f].id != id);
        }
        assert(f == i);
        assert(has_element(w.floating_layer, id));
    }
    if 0 <= i < w.tiling_layer.len() && w.tiling_layer[i].id == id && (forall|j: int|
        0 <= j < i ==> (#[trigger] w.tiling_layer[j]).id != id) {
        if t < i {
            assert(w.tiling_layer[t].id != id);
        }
        assert(t == i);
        assert(has_element(w.tiling_layer, id));
    }
}

/// A window is shown on some of the workspaces if it is one of a workspace's windows, and under
/// a handle if that is the workspace's.
pub proof fn law_shown(s: Seq<WorkspaceView>, x: WindowId, h: WorkspaceHandle, k: int)
    requires
        0 <= k < s.len(),
        s[k].windows().contains(x),
    ensures
        shown_in(s, x),
        s[k].handle == h ==> shown_at(s, x, h),
{
}

/// The windows of workspaces that are gathered are told to be on the one that they went to,
/// and no longer on those that they came from.
pub proof fn law_gathered(
    t: ToplevelView,
    from: Seq<WorkspaceView>,
    to: WorkspaceHandle,
    x: WindowId,
    k: int,
)
    requires
        0 <= k < from.len(),
        from[k].windows().contains(x),
        from[k].handle != to,
    ensures
        t.gathered(from, to).workspaces.contains((x, to)),
        !t.gathered(from, to).workspaces.contains((x, from[k].handle)),
        t.gathered(from, to).outputs == t.outputs,
        forall|y: WindowId, h: WorkspaceHandle|
            h != to && !handles(from).contains(h) ==> (
            #[trigger] t.gathered(from, to).workspaces.contains((y, h)) <==> t.workspaces.contains(
                (y, h),
            )),
{
    assert(from[k].handle == from[k].handle);
    assert(shown_at(from, x, from[k].handle));
    assert(shown_in(from, x));
    assert forall|y: WindowId, h: WorkspaceHandle| h != to && !handles(from).contains(h) implies (
    #[trigger] t.gathered(from, to).workspaces.contains((y, h)) <==> t.workspaces.contains(
        (y, h),
    )) by {
        if shown_at(from, y, h) {
            let q = choose|q: int|
                0 <= q < from.len() && (#[trigger] from[q]).handle == h
                    && from[q].windows().contains(y);
            assert(handles(from).contains(h));
        }
    }
}

/// A set starts with one workspace if it is dynamic, and else with as many as it is to have.
pub proof fn law_initial(amount: WorkspaceAmount)
    ensures
        amount is Dynamic ==> amount.initial() == 1,
        amount matches WorkspaceAmount::Static(len) ==> amount.initial() == len,
{
}

/// The value of an element, of a workspace and of a set has what they have.
pub proof fn law_views(e: Element, l: Layer, w: Workspace, set: WorkspaceSet, i: int)
    ensures
        e@.id == e.id && e@.windows == e.windows@ && e@.surfaces == e.surfaces@,
        e@.outputs == e.outputs@ && e@.main_output == e.main_output && e@.location == e.location,
        l@.len() == l.elements@.len(),
        0 <= i < l@.len() ==> l@[i] == l.elements@[i]@,
        w@.handle == w.handle && w@.tiling_enabled == w.tiling_enabled,
        w@.tiling_layer == w.tiling_layer@ && w@.floating_layer == w.floating_layer@,
        w@.focus_stack == w.focus_stack@ && w@.needs_refresh == w.needs_refresh,
        w@.fullscreen == w.fullscreen.map() && w@.outputs == w.outputs.map(),
        set@.active == set.active && set@.group == set.group,
        set@.workspaces.len() == set.workspaces@.len(),
        0 <= i < set@.workspaces.len() ==> set@.workspaces[i] == set.workspaces@[i]@,
{
}

/// The value of what clients are told, and of the shell, has what they have.
pub proof fn law_state_views(
    entry: WorkspaceEntry,
    state: WorkspaceState,
    t: ToplevelInfoState,
    shell: Shell,
    h: u64,
)
    ensures
        entry@.group == entry.group && entry@.name == entry.name@ && entry@.coordinates
            == entry.coordinates,
        entry@.can_activate == entry.can_activate && entry@.active == entry.active && entry@.hidden
            == entry.hidden,
        state@.next == state.next,
        state@.workspaces.dom().contains(h) <==> state.workspaces.map().dom().contains(h),
        state@.workspaces.dom().contains(h) ==> state@.workspaces[h] == state.workspaces.map()[h]@,
        state@.groups.dom().contains(h) <==> state.groups.map().dom().contains(h),
        state@.groups.dom().contains(h) ==> state@.groups[h] == state.groups.map()[h]@.to_set(),
        t@.workspaces == t.workspaces@.to_set() && t@.outputs == t.outputs@.to_set(),
        shell@.outputs == shell.outputs@ && shell@.workspaces == shell.workspaces@,
        shell@.workspace_amount == shell.workspace_amount && shell@.floating_default
            == shell.floating_default,
        shell@.pending_windows == shell.pending_windows@ && shell@.pending_layers
            == shell.pending_layers@,
        shell@.toplevels == shell.toplevel_info_state@ && shell@.state == shell.workspace_state@,
{
}

} // verus!
