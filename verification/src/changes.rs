//! What becomes of a set of workspaces, workspace by workspace and entry by entry.
use crate::fields::{
    joined, law_absorbed_fullscreen, law_absorbed_order, law_new_workspaces, law_with_started,
    law_workspace_absorbed, law_workspace_outputs, numeral, same_but_layout, same_elements,
    same_settings,
};
use crate::geometry::Point;
use crate::output::Output;
use crate::protocol::{OutputId, StateView, WorkspaceHandle};
use crate::set::{
    absorbed, activated_state, dropped, handles, kept, lemma_kept_source, padded, shown_at,
    shown_in, stays, SetScene, SetView, WorkspaceAmount,
};
use crate::toplevel::WindowId;
use crate::workspace::WorkspaceView;
use vstd::prelude::*;

verus! {

/// Showing an output changes where the workspaces are shown, and nothing else of a set. So does
/// showing it no longer, but for asking that they be laid out again.
pub proof fn law_set_output(set: SetView, output: OutputId, at: Point, i: int, o: OutputId)
    requires
        0 <= i < set.workspaces.len(),
    ensures
        ({
            let more = set.with_output(output, at);
            let less = set.without_output(output);
            let w = set.workspaces[i];
            let m = more.workspaces[i];
            let l = less.workspaces[i];
            &&& more.active == set.active && less.active == set.active
            &&& more.group == set.group && less.group == set.group
            &&& more.workspaces.len() == set.workspaces.len()
            &&& less.workspaces.len() == set.workspaces.len()
            &&& m.handle == w.handle && l.handle == w.handle
            &&& same_elements(m, w) && same_elements(l, w)
            &&& same_settings(m, w) && same_settings(l, w)
            &&& m.needs_refresh == w.needs_refresh
            &&& l.needs_refresh
            &&& m.outputs.dom().contains(o) <==> w.outputs.dom().contains(o) || o == output
            &&& m.outputs[output] == at
            &&& l.outputs.dom().contains(o) <==> w.outputs.dom().contains(o) && o != output
            &&& o != output && w.outputs.dom().contains(o) ==> m.outputs[o] == w.outputs[o]
                && l.outputs[o] == w.outputs[o]
        }),
{
}

/// Showing several outputs changes where the workspaces are shown, and nothing else of a set.
pub proof fn law_set_outputs(set: SetView, outputs: Seq<Output>, i: int, o: OutputId)
    requires
        0 <= i < set.workspaces.len(),
    ensures
        ({
            let after = set.with_outputs(outputs);
            let w = set.workspaces[i];
            let v = after.workspaces[i];
            &&& after.active == set.active
            &&& after.group == set.group
            &&& after.workspaces.len() == set.workspaces.len()
            &&& v.handle == w.handle
            &&& same_elements(v, w)
            &&& same_settings(v, w)
            &&& v.needs_refresh == w.needs_refresh
            &&& v.outputs.dom().contains(o) <==> w.outputs.dom().contains(o) || exists|j: int|
                0 <= j < outputs.len() && (#[trigger] outputs[j]).id == o
        }),
{
    law_workspace_outputs(set.workspaces[i], outputs, o);
}

/// Whether the entries of two states agree in all but being active.
pub open spec fn same_but_active(a: StateView, b: StateView, h: WorkspaceHandle) -> bool {
    &&& a.workspaces.dom().contains(h) <==> b.workspaces.dom().contains(h)
    &&& a.workspaces[h].group == b.workspaces[h].group
    &&& a.workspaces[h].name == b.workspaces[h].name
    &&& a.workspaces[h].coordinates == b.workspaces[h].coordinates
    &&& a.workspaces[h].can_activate == b.workspaces[h].can_activate
    &&& a.workspaces[h].hidden == b.workspaces[h].hidden
}

/// Activating a workspace changes which one is active, and what is told of that: the entry of
/// the one left and that of the one entered, and of these only that.
pub proof fn law_set_activated(set: SetView, state: StateView, idx: int, h: WorkspaceHandle)
    requires
        set.registered(state),
        0 <= set.active < set.workspaces.len(),
    ensures
        ({
            let after = set.activated(idx);
            let told = activated_state(set, state, idx);
            &&& after.workspaces == set.workspaces
            &&& after.group == set.group
            &&& 0 <= idx < set.workspaces.len() ==> after.active == idx
            &&& !(0 <= idx < set.workspaces.len()) ==> after.active == set.active && told == state
            &&& idx == set.active ==> told == state
            &&& told.groups == state.groups
            &&& told.next == state.next
            &&& same_but_active(told, state, h)
            &&& 0 <= idx < set.workspaces.len() && idx != set.active ==> {
                &&& told.workspaces[set.workspaces[idx].handle].active
                &&& !told.workspaces[set.workspaces[set.active].handle].active
                &&& h != set.workspaces[idx].handle && h != set.workspaces[set.active].handle
                    ==> told.workspaces[h].active == state.workspaces[h].active
            }
        }),
{
    if 0 <= idx < set.workspaces.len() && idx != set.active {
        if idx < set.active {
            assert(set.workspaces[idx].handle != set.workspaces[set.active].handle);
        } else {
            assert(set.workspaces[set.active].handle != set.workspaces[idx].handle);
        }
        assert(state.workspaces.dom().contains(set.workspaces[idx].handle));
        assert(state.workspaces.dom().contains(set.workspaces[set.active].handle));
    }
}

proof fn lemma_kept_pair(s: Seq<WorkspaceView>, active: int, n: int, a: int, b: int) -> (r: (
    int,
    int,
))
    requires
        0 <= n <= s.len(),
        0 <= a < b < kept(s, active, n).len(),
    ensures
        0 <= r.0 < r.1 < n,
        kept(s, active, n)[a] == s[r.0],
        kept(s, active, n)[b] == s[r.1],
    decreases n,
{
    if stays(s, active, n - 1) && b == kept(s, active, n).len() - 1 {
        let i = lemma_kept_source(s, active, n - 1, a);
        (i, n - 1)
    } else {
        lemma_kept_pair(s, active, n - 1, a, b)
    }
}

proof fn lemma_kept_has(s: Seq<WorkspaceView>, active: int, n: int, i: int) -> (j: int)
    requires
        0 <= i < n <= s.len(),
        stays(s, active, i),
    ensures
        0 <= j < kept(s, active, n).len(),
        kept(s, active, n)[j] == s[i],
    decreases n,
{
    if i == n - 1 {
        kept(s, active, n).len() - 1
    } else {
        lemma_kept_has(s, active, n - 1, i)
    }
}

/// A dynamic set keeps its group, the position that is active and the order of its workspaces,
/// and each workspace that stays is as it was. A workspace that has no windows, is not active
/// and not the last one goes, and no other.
pub proof fn law_dynamic_order(scene: SetScene, i: int, j: int, a: int, b: int)
    requires
        scene.set.registered(scene.state),
        scene.state.wf(),
        0 <= i < j < scene.set.workspaces.len(),
        scene.state.next < u64::MAX,
    ensures
        ({
            let s = scene.set.workspaces;
            let after = scene.last_empty();
            let t = after.set.workspaces;
            let stay = s[i].has_windows() || i == scene.set.active;
            &&& after.set.active == scene.set.active
            &&& after.set.group == scene.set.group
            &&& after.toplevels == scene.toplevels
            &&& t.contains(s[i]) <==> stay
            &&& t.contains(s.last())
            &&& 0 <= a < t.len() && 0 <= b < t.len() && t[a].handle == s[i].handle && t[b].handle
                == s[j].handle ==> a < b && t[a] == s[i] && t[b] == s[j]
            &&& 0 <= a < t.len() ==> s.contains(t[a]) || (a == t.len() - 1 && t[a].handle
                == scene.state.next && t[a].mapped().len() == 0 && t[a].tiling_enabled
                && t[a].outputs.dom().len() == 0)
        }),
{
    let s = scene.set.workspaces;
    let active = scene.set.active;
    let all = padded(scene.set, scene.state);
    let n = all.len() as int;
    let t = scene.last_empty().set.workspaces;
    assert(t == kept(all, active, n));
    assert(all[i] == s[i] && all[j] == s[j]);
    assert forall|p: int, q: int| 0 <= p < n && 0 <= q < n && (#[trigger] all[p]).handle == (
    #[trigger] all[q]).handle implies p == q by {
        if p < s.len() && q < s.len() {
            if p < q {
                assert(s[p].handle != s[q].handle);
            } else if q < p {
                assert(s[q].handle != s[p].handle);
            }
        } else {
            if p < s.len() {
                assert(scene.state.workspaces.dom().contains(s[p].handle));
            }
            if q < s.len() {
                assert(scene.state.workspaces.dom().contains(s[q].handle));
            }
        }
    }
    if stays(all, active, i) {
        let k = lemma_kept_has(all, active, n, i);
        assert(t[k] == s[i]);
        assert(t.contains(s[i]));
    }
    if t.contains(s[i]) {
        let k = choose|k: int| 0 <= k < t.len() && t[k] == s[i];
        let p = lemma_kept_source(all, active, n, k);
        assert(all[p].handle == all[i].handle);
        assert(p == i);
    }
    let last = s.len() - 1;
    assert(all[last] == s.last());
    let k = lemma_kept_has(all, active, n, last);
    assert(t[k] == s.last());
    if 0 <= a < t.len() && 0 <= b < t.len() && t[a].handle == s[i].handle && t[b].handle
        == s[j].handle {
        let p = lemma_kept_source(all, active, n, a);
        let q = lemma_kept_source(all, active, n, b);
        assert(all[p].handle == all[i].handle);
        assert(all[q].handle == all[j].handle);
        if b < a {
            let r = lemma_kept_pair(all, active, n, b, a);
            assert(all[r.0].handle == all[j].handle);
            assert(all[r.1].handle == all[i].handle);
        }
    }
    if 0 <= a < t.len() {
        let p = lemma_kept_source(all, active, n, a);
        if p < s.len() {
            assert(s[p] == t[a]);
        } else {
            if a < t.len() - 1 {
                let r = lemma_kept_pair(all, active, n, a, t.len() - 1);
                assert(all[r.0].handle == all[p].handle);
            }
            assert(t[a].mapped().len() == 0);
        }
    }
}

/// A dynamic set ends with its last workspace, as it was, where that has no windows. Else a new
/// one comes behind it, tiled and empty, under the next handle.
pub proof fn law_dynamic_last(scene: SetScene)
    requires
        scene.set.workspaces.len() > 0,
        0 <= scene.state.next < u64::MAX,
    ensures
        ({
            let s = scene.set.workspaces;
            let t = scene.last_empty().set.workspaces;
            let w = t.last();
            &&& t.len() > 0
            &&& !s.last().has_windows() ==> w == s.last()
            &&& s.last().has_windows() ==> {
                &&& t.len() > 1
                &&& t[t.len() - 2] == s.last()
                &&& w.handle == scene.state.next
                &&& w.tiling_enabled
                &&& w.mapped().len() == 0
                &&& w.focus_stack.len() == 0
                &&& w.outputs == Map::<OutputId, Point>::empty()
                &&& w.fullscreen == Map::<OutputId, WindowId>::empty()
            }
        }),
{
    let s = scene.set.workspaces;
    let all = padded(scene.set, scene.state);
    let active = scene.set.active;
    let n = all.len() as int;
    assert(stays(all, active, n - 1));
    assert(kept(all, active, n) == kept(all, active, n - 1).push(all[n - 1]));
    if s.last().has_windows() {
        assert(all[n - 2] == s.last());
        assert(stays(all, active, n - 2));
        assert(kept(all, active, n - 1) == kept(all, active, n - 2).push(all[n - 2]));
    }
}

/// What is told of a dynamic set: a workspace that goes is withdrawn, and a new one is
/// announced where the last one has windows. Nothing else changes.
pub proof fn law_dynamic_entries(scene: SetScene, h: WorkspaceHandle)
    requires
        scene.set.registered(scene.state),
        scene.state.wf(),
        scene.set.workspaces.len() > 0,
        scene.state.next < u64::MAX,
    ensures
        ({
            let s = scene.set.workspaces;
            let before = scene.state;
            let after = scene.last_empty().state;
            let grows = s.last().has_windows();
            let goes = exists|i: int|
                0 <= i < s.len() && (#[trigger] s[i]).handle == h && !s[i].has_windows() && i
                    != scene.set.active && i != s.len() - 1;
            let e = after.workspaces[h];
            &&& after.groups == before.groups
            &&& after.next == before.next + (if grows {
                1int
            } else {
                0
            })
            &&& after.workspaces.dom().contains(h) <==> (before.workspaces.dom().contains(h)
                && !goes) || (grows && h == before.next)
            &&& before.workspaces.dom().contains(h) && !goes ==> e == before.workspaces[h]
            &&& grows && h == before.next ==> e.group == scene.set.group && !e.active && e.hidden
                && e.can_activate && numeral(e.name) == 1 && e.coordinates == (
                Some(0u32),
                None::<u32>,
                None::<u32>,
            )
        }),
{
    let s = scene.set.workspaces;
    let active = scene.set.active;
    let all = padded(scene.set, scene.state);
    let n = all.len() as int;
    let gone = dropped(all, active, n);
    let goes = exists|i: int|
        0 <= i < s.len() && (#[trigger] s[i]).handle == h && !s[i].has_windows() && i != active && i
            != s.len() - 1;
    law_with_started(scene.state, scene.set.group, 1, false, h);
    if goes {
        let i = choose|i: int|
            0 <= i < s.len() && (#[trigger] s[i]).handle == h && !s[i].has_windows() && i != active
                && i != s.len() - 1;
        assert(all[i] == s[i]);
        assert(!stays(all, active, i));
        assert(gone.contains(h));
        assert(scene.state.workspaces.dom().contains(s[i].handle));
    }
    if gone.contains(h) {
        let i = choose|i: int|
            0 <= i < n && !stays(all, active, i) && (#[trigger] all[i]).handle == h;
        assert(i < s.len());
        assert(all[i] == s[i]);
        assert(s[i].handle == h);
        assert(i != s.len() - 1);
        assert(goes);
        assert(scene.state.workspaces.dom().contains(s[i].handle));
    }
}

/// A set cut to fewer workspaces keeps those before the last one that stays just as they were.
/// That one takes in the elements of the rest, in their order. What was active stays so, or
/// else the last one is.
pub proof fn law_static_fewer(scene: SetScene, amount: int, i: int)
    requires
        0 <= i < amount < scene.set.workspaces.len(),
    ensures
        ({
            let s = scene.set.workspaces;
            let after = scene.resized(amount);
            let t = after.set.workspaces;
            let rest = s.skip(amount);
            let last = s[amount - 1];
            &&& t.len() == amount
            &&& after.set.group == scene.set.group
            &&& scene.set.active < amount ==> after.set.active == scene.set.active
            &&& scene.set.active >= amount ==> after.set.active == amount - 1
            &&& i < amount - 1 ==> t[i] == s[i]
            &&& t[i].handle == s[i].handle
            &&& same_settings(t[i], s[i])
            &&& t[i].outputs == s[i].outputs
            &&& t[amount - 1].needs_refresh
            &&& t[amount - 1].tiling_layer == last.tiling_layer + joined(rest, false)
            &&& t[amount - 1].floating_layer == last.floating_layer + joined(rest, true)
        }),
{
    let rest = scene.set.workspaces.skip(amount);
    let last = scene.set.workspaces[amount - 1];
    law_absorbed_order(last, rest);
    law_workspace_absorbed(last, rest, 0);
}

/// The window that fills an output on the last workspace of a set that is cut is that of the
/// last workspace that has one there.
pub proof fn law_static_fewer_fullscreen(scene: SetScene, amount: int, o: OutputId, k: int)
    requires
        0 < amount < scene.set.workspaces.len(),
        amount - 1 <= k < scene.set.workspaces.len(),
        forall|j: int|
            k < j < scene.set.workspaces.len() ==> !(
            #[trigger] scene.set.workspaces[j]).fullscreen.dom().contains(o),
    ensures
        ({
            let s = scene.set.workspaces;
            let w = scene.resized(amount).set.workspaces[amount - 1];
            &&& s[k].fullscreen.dom().contains(o) ==> w.fullscreen.dom().contains(o)
                && w.fullscreen[o] == s[k].fullscreen[o]
            &&& k == amount - 1 && !s[k].fullscreen.dom().contains(o)
                ==> !w.fullscreen.dom().contains(o)
        }),
{
    let s = scene.set.workspaces;
    let rest = s.skip(amount);
    let last = s[amount - 1];
    assert forall|j: int| k - amount < j < rest.len() && 0 <= j implies !(
    #[trigger] rest[j]).fullscreen.dom().contains(o) by {
        assert(!s[amount + j].fullscreen.dom().contains(o));
    }
    if k >= amount {
        assert(rest[k - amount] == s[k]);
        if s[k].fullscreen.dom().contains(o) {
            law_absorbed_fullscreen(last, rest, o, k - amount);
        }
    } else {
        lemma_absorbed_untouched(last, rest, o);
    }
}

proof fn lemma_absorbed_untouched(w: WorkspaceView, rest: Seq<WorkspaceView>, o: OutputId)
    requires
        forall|j: int|
            0 <= j < rest.len() ==> !(#[trigger] rest[j]).fullscreen.dom().contains(o),
    ensures
        absorbed(w, rest).fullscreen.dom().contains(o) == w.fullscreen.dom().contains(o),
        w.fullscreen.dom().contains(o) ==> absorbed(w, rest).fullscreen[o] == w.fullscreen[o],
    decreases rest.len(),
{
    if rest.len() > 0 {
        let before = rest.drop_last();
        assert forall|j: int| 0 <= j < before.len() implies !(
        #[trigger] before[j]).fullscreen.dom().contains(o) by {
            assert(before[j] == rest[j]);
        }
        lemma_absorbed_untouched(w, before, o);
        assert(!rest[rest.len() - 1].fullscreen.dom().contains(o));
    }
}

/// What is told of a set that is cut: the workspaces beyond are withdrawn, their windows are
/// told to be on the last one that stays, and that one is active where an active one went.
/// Nothing else changes.
pub proof fn law_static_fewer_told(scene: SetScene, amount: int, h: WorkspaceHandle, x: WindowId)
    requires
        scene.set.registered(scene.state),
        0 < amount < scene.set.workspaces.len(),
    ensures
        ({
            let s = scene.set.workspaces;
            let before = scene.state;
            let after = scene.resized(amount);
            let last = s[amount - 1];
            let goes = exists|i: int| amount <= i < s.len() && (#[trigger] s[i]).handle == h;
            let shown = exists|i: int|
                amount <= i < s.len() && (#[trigger] s[i]).windows().contains(x);
            let shown_here = exists|i: int|
                amount <= i < s.len() && (#[trigger] s[i]).handle == h && s[i].windows().contains(
                    x,
                );
            &&& after.state.groups == before.groups
            &&& after.state.next == before.next
            &&& after.state.workspaces.dom().contains(h) <==> before.workspaces.dom().contains(h)
                && !goes
            &&& !goes && before.workspaces.dom().contains(h) ==> same_but_active(
                after.state,
                before,
                h,
            )
            &&& !goes && before.workspaces.dom().contains(h) && h != last.handle ==> after.state.workspaces[h].active
                == before.workspaces[h].active
            &&& after.state.workspaces[last.handle].active <==> scene.set.active >= amount
                || before.workspaces[last.handle].active
            &&& after.toplevels.outputs == scene.toplevels.outputs
            &&& after.toplevels.workspaces.contains((x, h)) <==> (h == last.handle && shown) || (
            scene.toplevels.workspaces.contains((x, h)) && !shown_here)
        }),
{
    let s = scene.set.workspaces;
    let rest = s.skip(amount);
    let last = s[amount - 1];
    assert(scene.state.workspaces.dom().contains(s[amount - 1].handle));
    if handles(rest).contains(h) {
        let k = choose|k: int| 0 <= k < rest.len() && (#[trigger] rest[k]).handle == h;
        assert(s[amount + k].handle == h);
    }
    if handles(rest).contains(last.handle) {
        let k = choose|k: int| 0 <= k < rest.len() && (#[trigger] rest[k]).handle == last.handle;
        assert(s[amount - 1].handle != s[amount + k].handle);
    }
    if exists|i: int| amount <= i < s.len() && (#[trigger] s[i]).handle == h {
        let i = choose|i: int| amount <= i < s.len() && (#[trigger] s[i]).handle == h;
        assert(rest[i - amount].handle == h);
    }
    if exists|i: int| amount <= i < s.len() && (#[trigger] s[i]).windows().contains(x) {
        let i = choose|i: int| amount <= i < s.len() && (#[trigger] s[i]).windows().contains(x);
        assert(rest[i - amount].windows().contains(x));
        assert(shown_in(rest, x));
    }
    if shown_in(rest, x) {
        let k = choose|k: int| 0 <= k < rest.len() && (#[trigger] rest[k]).windows().contains(x);
        assert(s[amount + k].windows().contains(x));
    }
    if exists|i: int|
        amount <= i < s.len() && (#[trigger] s[i]).handle == h && s[i].windows().contains(x) {
        let i = choose|i: int|
            amount <= i < s.len() && (#[trigger] s[i]).handle == h && s[i].windows().contains(x);
        assert(rest[i - amount].handle == h);
        assert(shown_at(rest, x, h));
    }
    if shown_at(rest, x, h) {
        let k = choose|k: int|
            0 <= k < rest.len() && (#[trigger] rest[k]).handle == h && rest[k].windows().contains(x);
        assert(s[amount + k].handle == h);
    }
}

/// A set brought up to more workspaces keeps those it has, and what is active. The new ones go
/// by the next handles and are empty, and what is told changes by their entries alone.
pub proof fn law_static_more(scene: SetScene, amount: int, i: int, h: WorkspaceHandle)
    requires
        0 <= scene.state.next,
        scene.set.workspaces.len() <= amount,
        scene.state.next + amount - scene.set.workspaces.len() <= u64::MAX,
        0 <= i < amount,
    ensures
        ({
            let s = scene.set.workspaces;
            let n = s.len();
            let before = scene.state;
            let after = scene.resized(amount);
            let t = after.set.workspaces;
            let new = before.next <= h < before.next + amount - n;
            let e = after.state.workspaces[h];
            &&& t.len() == amount
            &&& after.set.active == scene.set.active
            &&& after.set.group == scene.set.group
            &&& after.toplevels == scene.toplevels
            &&& i < n ==> t[i] == s[i]
            &&& i >= n ==> t[i].handle == before.next + i - n && t[i].tiling_enabled
                && t[i].mapped().len() == 0 && t[i].outputs == Map::<OutputId, Point>::empty()
            &&& after.state.groups == before.groups
            &&& after.state.next == before.next + amount - n
            &&& after.state.workspaces.dom().contains(h) <==> before.workspaces.dom().contains(h)
                || new
            &&& !new && before.workspaces.dom().contains(h) ==> e == before.workspaces[h]
            &&& new ==> e.group == scene.set.group && !e.active && e.hidden && e.can_activate
                && numeral(e.name) == 1 && e.coordinates == (Some(0u32), None::<u32>, None::<u32>)
        }),
{
    let n = scene.set.workspaces.len();
    law_with_started(scene.state, scene.set.group, amount - n, false, h);
    if i >= n {
        law_new_workspaces(scene.state.next, amount - n, i - n);
    }
}

/// A set is brought to the amount that it is to have. Then its active workspace is laid out
/// again, and no other one.
pub proof fn law_set_refreshed(scene: SetScene, amount: WorkspaceAmount, i: int)
    requires
        scene.can_refresh(amount),
    ensures
        ({
            let mid = match amount {
                WorkspaceAmount::Dynamic => scene.last_empty(),
                WorkspaceAmount::Static(len) => scene.resized(len as int),
            };
            let after = scene.refreshed(amount);
            let a = after.set.active;
            &&& after.state == mid.state
            &&& after.toplevels == mid.toplevels
            &&& after.set.group == mid.set.group
            &&& after.set.active == mid.set.active
            &&& after.set.workspaces.len() == mid.set.workspaces.len()
            &&& 0 <= a < after.set.workspaces.len()
            &&& after.set.workspaces[a].needs_refresh
            &&& same_but_layout(after.set.workspaces[a], mid.set.workspaces[a])
            &&& 0 <= i < after.set.workspaces.len() && i != a ==> after.set.workspaces[i]
                == mid.set.workspaces[i]
        }),
{
}

/// Refreshing leaves what is active alone where the set is to have that many workspaces.
pub proof fn law_set_refresh_active(scene: SetScene, amount: WorkspaceAmount, len: u8)
    requires
        scene.can_refresh(amount),
        amount == WorkspaceAmount::Static(len),
        0 <= scene.set.active < scene.set.workspaces.len(),
        scene.set.active < len,
    ensures
        ({
            let after = scene.refreshed(amount).set;
            &&& after.active == scene.set.active
            &&& after.workspaces.len() == len
            &&& after.workspaces[after.active].handle == scene.set.workspaces[scene.set.active].handle
            &&& same_settings(
                after.workspaces[after.active],
                scene.set.workspaces[scene.set.active],
            )
            &&& after.workspaces[after.active].outputs
                == scene.set.workspaces[scene.set.active].outputs
        }),
{
    if len < scene.set.workspaces.len() {
        law_static_fewer(scene, len as int, scene.set.active);
    }
}

/// Refreshing leaves what is active alone in a dynamic set where every workspace before it has
/// windows.
pub proof fn law_set_refresh_dynamic_active(scene: SetScene)
    requires
        0 <= scene.set.active < scene.set.workspaces.len(),
        forall|i: int|
            0 <= i < scene.set.active ==> (#[trigger] scene.set.workspaces[i]).has_windows(),
    ensures
        ({
            let after = scene.refreshed(WorkspaceAmount::Dynamic).set;
            &&& scene.set.active < scene.last_empty().set.workspaces.len()
            &&& after.active == scene.set.active
            &&& after.active < after.workspaces.len()
            &&& after.workspaces[after.active].needs_refresh
            &&& same_but_layout(
                after.workspaces[after.active],
                scene.set.workspaces[scene.set.active],
            )
        }),
{
    let all = padded(scene.set, scene.state);
    let a = scene.set.active;
    assert forall|i: int| 0 <= i <= a implies stays(all, a, i) by {
        assert(all[i] == scene.set.workspaces[i]);
        if i < a {
            assert(scene.set.workspaces[i].has_windows());
        }
    }
    lemma_kept_prefix(all, a, all.len() as int, a);
}

proof fn lemma_kept_prefix(s: Seq<WorkspaceView>, active: int, n: int, a: int)
    requires
        0 <= n <= s.len(),
        forall|i: int| 0 <= i <= a ==> #[trigger] stays(s, active, i),
    ensures
        kept(s, active, n).len() >= (if n <= a + 1 {
            n
        } else {
            a + 1
        }),
        n <= a + 1 ==> kept(s, active, n).len() == n,
        forall|i: int|
            0 <= i <= a && i < n ==> #[trigger] kept(s, active, n)[i] == s[i],
    decreases n,
{
    if n > 0 {
        lemma_kept_prefix(s, active, n - 1, a);
        if n - 1 <= a {
            assert(stays(s, active, n - 1));
        }
    }
}

/// A set can be refreshed where the handles last and its active position is one that it has:
/// in a static set of at least one workspace always, and in a dynamic one where every workspace
/// before it has windows.
pub proof fn law_set_can_refresh(scene: SetScene, amount: WorkspaceAmount)
    requires
        0 <= scene.set.active < scene.set.workspaces.len(),
        match amount {
            WorkspaceAmount::Dynamic => {
                &&& scene.state.next < u64::MAX
                &&& forall|i: int|
                    0 <= i < scene.set.active ==> (
                    #[trigger] scene.set.workspaces[i]).has_windows()
            },
            WorkspaceAmount::Static(len) => {
                &&& len > 0
                &&& scene.state.next <= u64::MAX
                &&& scene.state.next + len - scene.set.workspaces.len() <= u64::MAX
            },
        },
    ensures
        scene.can_refresh(amount),
{
    match amount {
        WorkspaceAmount::Dynamic => {
            law_set_refresh_dynamic_active(scene);
        },
        WorkspaceAmount::Static(len) => {},
    }
}

/// When a set can be refreshed: just where there are to be workspaces, the position that is
/// active then is one of them, and the handles last.
pub proof fn law_set_can_refresh_when(scene: SetScene, len: u8)
    requires
        scene.state.next <= u64::MAX,
    ensures
        ({
            let n = scene.set.workspaces.len();
            let a = scene.set.active;
            &&& scene.can_refresh(WorkspaceAmount::Dynamic) <==> n > 0 && 0 <= a
                < scene.last_empty().set.workspaces.len() && (
            scene.set.workspaces.last().has_windows() ==> scene.state.next < u64::MAX)
            &&& scene.can_refresh(WorkspaceAmount::Static(len)) <==> len > 0 && 0 <= a && (a < len
                || len < n) && scene.state.next + len - n <= u64::MAX
        }),
{
}

} // verus!
