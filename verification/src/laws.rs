//! What holds across the operations of the shell.
use crate::announce::lemma_set_registered;
use crate::config::WorkspaceMode as ConfigMode;
use crate::contents::{lemma_same_slots, lemma_sets_refresh_each, lemma_sets_refresh_len};
use crate::element::{lemma_element_index, ElementId, ElementView, SurfaceId};
use crate::gather::{among, groups_of, lemma_rows_fit};
use crate::geometry::{Point, Rectangle};
use crate::hotplug::{lemma_handed_over_keeps_wf, lemma_other_outputs, moved_spaces};
use crate::mode::{all_spaces, lemma_locate, lemma_locate_inverse, locate, ModeView};
use crate::output::Output;
use crate::protocol::{OutputId, StateView, WorkspaceHandle};
use crate::scene::{lemma_sets_refreshed, SetsScene};
use crate::set::{
    activated_state, dropped, handles, handles_distinct, kept, last_empty_set, last_empty_state,
    lemma_absorbed_handle, lemma_kept_source, lemma_last_empty_registered, new_workspaces, padded,
    stays, SetScene, SetView, WorkspaceAmount,
};
use crate::shell::{around_all, ShellView};
use crate::split::outputs_distinct;
use crate::table::{as_map, has_key, lemma_remove, lemma_slot, lemma_update, slot};
use crate::toplevel::WindowId;
use crate::workspace::{first_where, lemma_first_where, new_workspace, WorkspaceView};
use vstd::prelude::*;

verus! {

/// Activating a workspace announces it as active, and the one before as active no longer.
/// Nothing else is announced.
pub proof fn law_activate(set: SetView, state: StateView, idx: int, h: WorkspaceHandle)
    requires
        set.registered(state),
        0 <= set.active < set.workspaces.len(),
        0 <= idx < set.workspaces.len(),
        idx != set.active,
    ensures
        ({
            let after = activated_state(set, state, idx);
            let before = set.workspaces[set.active].handle;
            let now = set.workspaces[idx].handle;
            &&& set.activated(idx).active == idx
            &&& after.workspaces[now].active
            &&& !after.workspaces[before].active
            &&& after.workspaces.dom() == state.workspaces.dom()
            &&& h != before && h != now ==> after.workspaces[h] == state.workspaces[h]
            &&& after.groups == state.groups
        }),
{
    let before = set.workspaces[set.active].handle;
    let now = set.workspaces[idx].handle;
    assert(before != now);
    assert(state.workspaces.dom().contains(before));
    assert(state.workspaces.dom().contains(now));
    assert(activated_state(set, state, idx).workspaces.dom() =~= state.workspaces.dom());
}

/// Activating a workspace and then the one before again leaves everything as it was, if just
/// that one was announced as active.
pub proof fn law_activate_back(set: SetView, state: StateView, idx: int)
    requires
        set.registered(state),
        0 <= set.active < set.workspaces.len(),
        0 <= idx < set.workspaces.len(),
        state.workspaces[set.workspaces[set.active].handle].active,
        idx != set.active ==> !state.workspaces[set.workspaces[idx].handle].active,
    ensures
        set.activated(idx).activated(set.active) == set,
        activated_state(
            set.activated(idx),
            activated_state(set, state, idx),
            set.active,
        ) == state,
{
    let a = set.workspaces[set.active].handle;
    let b = set.workspaces[idx].handle;
    assert(state.workspaces.dom().contains(a));
    assert(state.workspaces.dom().contains(b));
    let there = activated_state(set, state, idx);
    let back = activated_state(set.activated(idx), there, set.active);
    if idx != set.active {
        assert(a != b);
        assert(back.workspaces[a] =~= state.workspaces[a]);
        assert(back.workspaces[b] =~= state.workspaces[b]);
        assert(back.workspaces =~= state.workspaces);
        assert(back =~= state);
    }
}

/// Activating what is not there changes nothing, and neither does activating what is active.
pub proof fn law_activate_nothing(set: SetView, state: StateView, idx: int)
    requires
        !(0 <= idx < set.workspaces.len()) || idx == set.active,
    ensures
        set.activated(idx) == set,
        activated_state(set, state, idx) == state,
{
}

/// Just the active workspace of a set is announced as active.
pub open spec fn shows_active(set: SetView, state: StateView) -> bool {
    forall|i: int|
        0 <= i < set.workspaces.len() ==> (state.workspaces[(
        #[trigger] set.workspaces[i]).handle].active <==> i == set.active)
}

/// Of a new set, just the first workspace is announced as active.
pub proof fn law_new_shows_active(state: StateView, n: int)
    requires
        0 <= state.next,
        0 <= n,
        state.next + 1 + n <= u64::MAX,
    ensures
        ({
            let group = state.next as u64;
            shows_active(
                SetView { active: 0, group, workspaces: new_workspaces(state.next + 1, n) },
                state.with_new_group().with_started(group, n, true),
            )
        }),
{
}

/// Activating a workspace leaves just that one announced as active.
pub proof fn law_activate_shows_active(set: SetView, state: StateView, idx: int)
    requires
        set.registered(state),
        0 <= set.active < set.workspaces.len(),
        shows_active(set, state),
    ensures
        shows_active(set.activated(idx), activated_state(set, state, idx)),
{
    let after = activated_state(set, state, idx);
    if 0 <= idx < set.workspaces.len() && idx != set.active {
        let ws = set.workspaces;
        assert forall|i: int| 0 <= i < ws.len() implies (after.workspaces[(
        #[trigger] ws[i]).handle].active <==> i == idx) by {
            law_activate(set, state, idx, ws[i].handle);
            lemma_handles_differ(ws, i, idx);
            lemma_handles_differ(ws, i, set.active);
            assert(state.workspaces[ws[i].handle].active <==> i == set.active);
        }
    }
}

proof fn lemma_handles_differ(s: Seq<WorkspaceView>, i: int, j: int)
    requires
        handles_distinct(s),
        0 <= i < s.len(),
        0 <= j < s.len(),
    ensures
        i != j ==> s[i].handle != s[j].handle,
{
    if i < j {
        assert(s[i].handle != s[j].handle);
    } else if j < i {
        assert(s[j].handle != s[i].handle);
    }
}

/// Bringing a set to a fixed number of workspaces leaves just its active one announced as
/// active.
pub proof fn law_static_shows_active(scene: SetScene, amount: int)
    requires
        scene.set.registered(scene.state),
        scene.state.wf(),
        0 < amount,
        0 <= scene.set.active < scene.set.workspaces.len(),
        scene.state.next + amount - scene.set.workspaces.len() <= u64::MAX,
        shows_active(scene.set, scene.state),
    ensures
        shows_active(scene.resized(amount).set, scene.resized(amount).state),
{
    let all = scene.set.workspaces;
    let n = all.len() as int;
    let set = scene.resized(amount).set;
    let after = scene.resized(amount).state;
    if amount < n {
        let rest = all.skip(amount);
        lemma_absorbed_handle(all[amount - 1], rest);
        assert forall|i: int| 0 <= i < amount implies (after.workspaces[(
        #[trigger] set.workspaces[i]).handle].active <==> i == set.active) by {
            assert(set.workspaces[i].handle == all[i].handle);
            assert(scene.state.workspaces.dom().contains(all[i].handle));
            assert(scene.state.workspaces[all[i].handle].active <==> i == scene.set.active);
            lemma_handles_differ(all, i, amount - 1);
            assert(!handles(rest).contains(all[i].handle)) by {
                if handles(rest).contains(all[i].handle) {
                    let q = choose|q: int|
                        0 <= q < rest.len() && (#[trigger] rest[q]).handle == all[i].handle;
                    lemma_handles_differ(all, i, amount + q);
                }
            }
        }
    } else {
        assert forall|i: int| 0 <= i < amount implies (after.workspaces[(
        #[trigger] set.workspaces[i]).handle].active <==> i == set.active) by {
            if i < n {
                assert(set.workspaces[i] == all[i]);
                assert(scene.state.workspaces.dom().contains(all[i].handle));
                assert(scene.state.workspaces[all[i].handle].active <==> i == scene.set.active);
            }
        }
    }
}

/// Bringing a dynamic set in order leaves just its active workspace announced as active, if
/// every workspace in front of it shows windows.
pub proof fn law_dynamic_shows_active(set: SetView, state: StateView)
    requires
        set.registered(state),
        state.wf(),
        0 <= set.active < set.workspaces.len(),
        set.workspaces.last().has_windows() ==> state.next < u64::MAX,
        forall|i: int| 0 <= i < set.active ==> (#[trigger] set.workspaces[i]).has_windows(),
        shows_active(set, state),
    ensures
        shows_active(last_empty_set(set, state), last_empty_state(set, state)),
        last_empty_set(set, state).workspaces[set.active] == set.workspaces[set.active],
{
    let all = padded(set, state);
    let n = all.len() as int;
    let a = set.active;
    let after = last_empty_set(set, state);
    lemma_last_empty_registered(set, state);
    lemma_kept_head(all, a, a + 1);
    assert(all[a] == set.workspaces[a]);
    lemma_kept_more(all, a, a + 1, n);
    assert(kept(all, a, a + 1)[a] == all[a]);
    assert forall|j: int| 0 <= j < after.workspaces.len() implies (last_empty_state(
        set,
        state,
    ).workspaces[(#[trigger] after.workspaces[j]).handle].active <==> j == a) by {
        let i = lemma_kept_source(all, a, n, j);
        if i == a {
            assert(kept(all, a, a).len() == a) by {
                lemma_kept_head(all, a, a);
            }
        } else if j == a {
            if i < a {
                lemma_kept_head(all, a, i);
            } else {
                lemma_kept_more(all, a, a + 1, i);
            }
        }
        if i < set.workspaces.len() {
            assert(all[i] == set.workspaces[i]);
            assert(state.workspaces[set.workspaces[i].handle].active <==> i == a);
            assert(state.workspaces.dom().contains(set.workspaces[i].handle));
        }
        let h = after.workspaces[j].handle;
        assert(last_empty_state(set, state).workspaces.dom().contains(h));
    }
}

/// As long as all stay, all are kept where they are.
proof fn lemma_kept_head(s: Seq<WorkspaceView>, active: int, n: int)
    requires
        0 <= n <= s.len(),
        forall|i: int| 0 <= i < n ==> stays(s, active, i),
    ensures
        kept(s, active, n) == s.take(n),
    decreases n,
{
    if n > 0 {
        lemma_kept_head(s, active, n - 1);
        assert(stays(s, active, n - 1));
        assert(s.take(n) =~= s.take(n - 1).push(s[n - 1]));
    } else {
        assert(s.take(n) =~= Seq::<WorkspaceView>::empty());
    }
}

/// What is kept of more workspaces comes behind.
proof fn lemma_kept_more(s: Seq<WorkspaceView>, active: int, m: int, n: int)
    requires
        0 <= m <= n <= s.len(),
    ensures
        kept(s, active, m).len() <= kept(s, active, n).len(),
        forall|i: int|
            0 <= i < kept(s, active, m).len() ==> #[trigger] kept(s, active, n)[i] == kept(
                s,
                active,
                m,
            )[i],
    decreases n,
{
    if m < n {
        lemma_kept_more(s, active, m, n - 1);
    }
}

/// A dynamic set that is in order ends with a workspace without windows.
pub proof fn law_dynamic_ends_empty(set: SetView, state: StateView)
    requires
        set.workspaces.len() > 0,
    ensures
        last_empty_set(set, state).workspaces.len() > 0,
        !last_empty_set(set, state).workspaces.last().has_windows(),
        last_empty_set(set, state).workspaces.last() == padded(set, state).last(),
{
    let all = padded(set, state);
    let n = all.len() as int;
    assert(stays(all, set.active, n - 1));
    if set.workspaces.last().has_windows() {
        let w = new_workspace(state.next as u64);
        assert(w.mapped() =~= Seq::<ElementView>::empty());
    }
}

/// In a dynamic set that is in order, every workspace but the last shows windows, except
/// for the one that was active.
pub proof fn law_dynamic_inner(set: SetView, state: StateView, j: int)
    requires
        0 <= j < last_empty_set(set, state).workspaces.len() - 1,
    ensures
        last_empty_set(set, state).workspaces[j].has_windows() || last_empty_set(
            set,
            state,
        ).workspaces[j] == set.workspaces[set.active],
{
    let all = padded(set, state);
    let n = all.len() as int;
    let i = lemma_kept_source(all, set.active, n, j);
    let last = last_empty_set(set, state).workspaces.len() - 1;
    assert(stays(all, set.active, n - 1));
    if i == n - 1 {
        assert(kept(all, set.active, n - 1).len() == last);
    }
    if i == set.active {
        assert(all[i] == set.workspaces[i]);
    }
}

/// A dynamic set that is in order stays as it is when it is brought in order again. The
/// exception is an active workspace without windows that moves to another position.
pub proof fn law_dynamic_settles(set: SetView, state: StateView)
    requires
        0 <= set.active < set.workspaces.len(),
        ({
            ||| forall|i: int| 0 <= i < set.active ==> (#[trigger] set.workspaces[i]).has_windows()
            ||| set.workspaces[set.active].has_windows()
            ||| set.active == set.workspaces.len() - 1
        }),
    ensures
        last_empty_set(last_empty_set(set, state), last_empty_state(set, state)) == last_empty_set(
            set,
            state,
        ),
        last_empty_state(last_empty_set(set, state), last_empty_state(set, state))
            == last_empty_state(set, state),
{
    let all = padded(set, state);
    let n = all.len() as int;
    let a = set.active;
    let after = last_empty_set(set, state);
    let known = last_empty_state(set, state);
    let m = after.workspaces.len() as int;
    law_dynamic_ends_empty(set, state);
    assert forall|j: int| 0 <= j < m implies stays(after.workspaces, a, j) by {
        let i = lemma_kept_source(all, a, n, j);
        if j < m - 1 {
            assert(stays(all, a, n - 1));
            if i == n - 1 {
                assert(kept(all, a, n - 1).len() == m - 1);
            }
            if i == a && !all[a].has_windows() {
                assert(all[a] == set.workspaces[a]);
                if a == set.workspaces.len() - 1 {
                    assert(set.workspaces.last() == set.workspaces[a]);
                    assert(n - 1 == a);
                } else {
                    assert forall|q: int| 0 <= q < a implies stays(all, a, q) by {
                        assert(all[q] == set.workspaces[q]);
                        assert(set.workspaces[q].has_windows());
                    }
                    lemma_kept_head(all, a, a);
                    assert(j == a);
                }
            }
        }
    }
    lemma_kept_head(after.workspaces, a, m);
    assert(after.workspaces.take(m) =~= after.workspaces);
    assert(padded(after, known) == after.workspaces);
    assert(dropped(after.workspaces, a, m) =~= Set::<WorkspaceHandle>::empty()) by {
        assert forall|h: WorkspaceHandle| !dropped(after.workspaces, a, m).contains(h) by {
            if dropped(after.workspaces, a, m).contains(h) {
                let k = choose|k: int|
                    0 <= k < m && !stays(after.workspaces, a, k) && (
                    #[trigger] after.workspaces[k]).handle == h;
                assert(stays(after.workspaces, a, k));
            }
        }
    }
    assert(last_empty_set(after, known) =~= after);
    assert(last_empty_state(after, known) =~= known);
}

/// A set with the number of workspaces asked for stays as it is when it is brought to that
/// number again.
pub proof fn law_static_settles(scene: SetScene, amount: int)
    requires
        0 < amount,
    ensures
        scene.resized(amount).resized(amount) == scene.resized(amount),
{
    let after = scene.resized(amount);
    let again = after.resized(amount);
    assert(again.set.workspaces =~= after.set.workspaces);
    assert(again.state =~= after.state);
}

/// Bringing a dynamic set in order takes no workspace out that shows windows, and clients
/// still know it.
pub proof fn law_dynamic_keeps_shown(set: SetView, state: StateView, i: int)
    requires
        set.registered(state),
        state.wf(),
        0 <= i < set.workspaces.len(),
        set.workspaces[i].has_windows() || i == set.active,
    ensures
        among(last_empty_set(set, state).workspaces, set.workspaces[i]),
        last_empty_state(set, state).workspaces.dom().contains(set.workspaces[i].handle),
{
    let all = padded(set, state);
    let n = all.len() as int;
    let w = set.workspaces[i];
    assert(all[i] == w);
    lemma_kept_has(all, set.active, n, i);
    let h = w.handle;
    assert(state.workspaces.dom().contains(h));
    if dropped(all, set.active, n).contains(h) {
        let k = choose|k: int|
            0 <= k < n && !stays(all, set.active, k) && (#[trigger] all[k]).handle == h;
        if k < set.workspaces.len() {
            assert(all[k] == set.workspaces[k]);
            if k < i {
                assert(set.workspaces[k].handle != set.workspaces[i].handle);
            } else if i < k {
                assert(set.workspaces[i].handle != set.workspaces[k].handle);
            }
        }
    }
}

/// What stays is kept.
proof fn lemma_kept_has(s: Seq<WorkspaceView>, active: int, n: int, i: int)
    requires
        0 <= i < n <= s.len(),
        stays(s, active, i),
    ensures
        among(kept(s, active, n), s[i]),
    decreases n,
{
    let k = kept(s, active, n);
    if i == n - 1 {
        assert(k[k.len() - 1] == s[i]);
    } else {
        lemma_kept_has(s, active, n - 1, i);
        let before = kept(s, active, n - 1);
        let q = choose|q: int| 0 <= q < before.len() && #[trigger] before[q] == s[i];
        assert(k[q] == s[i]);
    }
}

/// A set that is brought to a fixed number of workspaces stays active where it was, or at its
/// last workspace if there is none any more. That one is then announced as active.
pub proof fn law_static_active(scene: SetScene, amount: int)
    requires
        scene.set.registered(scene.state),
        0 < amount,
        0 <= scene.set.active < scene.set.workspaces.len(),
    ensures
        ({
            let after = scene.resized(amount);
            &&& 0 <= after.set.active < after.set.workspaces.len()
            &&& after.set.active == (if scene.set.active < amount {
                scene.set.active
            } else {
                amount - 1
            })
            &&& scene.set.active >= amount ==> after.state.workspaces[scene.set.workspaces[amount
                - 1].handle].active
        }),
{
    let all = scene.set.workspaces;
    if scene.set.active >= amount {
        let h = all[amount - 1].handle;
        let rest = all.skip(amount);
        assert(scene.state.workspaces.dom().contains(h));
        assert(!handles(rest).contains(h)) by {
            if handles(rest).contains(h) {
                let q = choose|q: int| 0 <= q < rest.len() && (#[trigger] rest[q]).handle == h;
                assert(all[amount + q].handle == all[amount - 1].handle);
            }
        }
    }
}

/// After a refresh a set has an active workspace, and that is to be laid out again.
pub proof fn law_refresh_active(scene: SetScene, amount: WorkspaceAmount)
    requires
        scene.can_refresh(amount),
    ensures
        ({
            let set = scene.refreshed(amount).set;
            &&& 0 <= set.active < set.workspaces.len()
            &&& set.workspaces[set.active].needs_refresh
        }),
{
}

/// Whether a dynamic set is in order: its last workspace shows no window, and every other one
/// does, except for the one that was active before.
pub open spec fn dynamic_shape(before: SetView, after: SetView) -> bool {
    &&& !after.workspaces.last().has_windows()
    &&& forall|j: int|
        0 <= j < after.workspaces.len() - 1 ==> (#[trigger] after.workspaces[j]).has_windows()
            || after.workspaces[j].handle == before.workspaces[before.active].handle
}

/// Whether a set is as a refresh leaves it: it has an active workspace, which is to be laid out
/// again, and as many workspaces as asked for.
pub open spec fn has_amount(before: SetView, after: SetView, amount: WorkspaceAmount) -> bool {
    &&& 0 <= after.active < after.workspaces.len()
    &&& after.workspaces[after.active].needs_refresh
    &&& match amount {
        WorkspaceAmount::Dynamic => dynamic_shape(before, after),
        WorkspaceAmount::Static(len) => after.workspaces.len() == len,
    }
}

proof fn lemma_set_has_amount(scene: SetScene, amount: WorkspaceAmount)
    requires
        scene.can_refresh(amount),
    ensures
        has_amount(scene.set, scene.refreshed(amount).set, amount),
{
    let ensured = scene.ensured(amount).set;
    let after = scene.refreshed(amount).set;
    if amount is Dynamic {
        law_dynamic_ends_empty(scene.set, scene.state);
        assert(after.workspaces.last().windows() == ensured.workspaces.last().windows());
        assert forall|j: int| 0 <= j < after.workspaces.len() - 1 implies (
        #[trigger] after.workspaces[j]).has_windows() || after.workspaces[j].handle
            == scene.set.workspaces[scene.set.active].handle by {
            law_dynamic_inner(scene.set, scene.state, j);
            assert(after.workspaces[j].windows() == ensured.workspaces[j].windows());
            assert(after.workspaces[j].handle == ensured.workspaces[j].handle);
            if ensured.workspaces[j].has_windows() {
                let x = choose|x: WindowId| ensured.workspaces[j].windows().contains(x);
                assert(after.workspaces[j].windows().contains(x));
            }
        }
    }
}

/// After a refresh of the shell, every set that an output shows has an active workspace, and as
/// many workspaces as asked for.
pub proof fn law_refresh_amounts(shell: ShellView, output: OutputId)
    requires
        shell.can_refresh(),
        shell.workspaces.set_for(output) is Some,
    ensures
        shell.refreshed().workspaces.set_for(output) is Some,
        has_amount(
            shell.workspaces.set_for(output)->0,
            shell.refreshed().workspaces.set_for(output)->0,
            shell.workspace_amount,
        ),
{
    let amount = shell.workspace_amount;
    match shell.workspaces {
        ModeView::Global(_) => {
            lemma_set_has_amount(shell.scene().shared(), amount);
        },
        ModeView::OutputBound(sets) => {
            let scene = shell.scene().bound();
            let n = sets.len() as int;
            let after = scene.refreshed(amount, n).sets;
            lemma_sets_refresh_len(scene, amount, n);
            assert forall|k: int| 0 <= k < n implies (#[trigger] after[k]).0 == sets[k].0 by {
                lemma_sets_refresh_each(scene, amount, n, k);
            }
            lemma_same_slots(sets, after, output);
            lemma_slot(sets, output);
            let k = slot(sets, output);
            lemma_sets_refresh_each(scene, amount, n, k);
            assert(scene.turn(amount, k).can_refresh(amount));
            lemma_set_has_amount(scene.turn(amount, k), amount);
        },
    }
}

/// The active workspace of an output is the one at its active position.
pub proof fn law_active_is_at_active_num(mode: ModeView, output: OutputId)
    requires
        mode.has_active(output),
    ensures
        mode.space(mode.active_index(output), output) == Some(mode.active_space(output)),
{
}

/// The workspaces that an output shows are among all workspaces.
pub proof fn law_spaces_for_output(mode: ModeView, output: OutputId, i: int)
    requires
        0 <= i < mode.spaces_for(output).len(),
    ensures
        among(mode.spaces(), mode.spaces_for(output)[i]),
{
    match mode {
        ModeView::Global(set) => {
            assert(mode.spaces()[i] == mode.spaces_for(output)[i]);
        },
        ModeView::OutputBound(sets) => {
            lemma_slot(sets, output);
            let s = slot(sets, output);
            lemma_locate(sets, s, i);
            assert(mode.spaces()[all_spaces(sets.take(s)).len() + i] == mode.spaces_for(output)[i]);
        },
    }
}

/// Changing one of all workspaces changes that one alone.
pub proof fn law_spaces_mut(mode: ModeView, i: int, w: WorkspaceView)
    requires
        0 <= i < mode.spaces().len(),
    ensures
        mode.with_nth(i, w).spaces() == mode.spaces().update(i, w),
{
    if let ModeView::OutputBound(sets) = mode {
        lemma_locate_inverse(sets, i);
        let (s, k) = locate(sets, i);
        let set = sets[s].1;
        let new = (sets[s].0, SetView { workspaces: set.workspaces.update(k, w), ..set });
        lemma_all_spaces_update(sets, s, k, w);
        assert(mode.with_nth(i, w).spaces() =~= mode.spaces().update(i, w));
    }
}

/// Replacing a workspace of a set replaces it among all workspaces.
pub proof fn lemma_all_spaces_update(
    sets: Seq<(OutputId, SetView)>,
    s: int,
    k: int,
    w: WorkspaceView,
)
    requires
        0 <= s < sets.len(),
        0 <= k < sets[s].1.workspaces.len(),
    ensures
        ({
            let set = sets[s].1;
            let new = (sets[s].0, SetView { workspaces: set.workspaces.update(k, w), ..set });
            all_spaces(sets.update(s, new)) == all_spaces(sets).update(
                all_spaces(sets.take(s)).len() + k,
                w,
            )
        }),
    decreases sets.len(),
{
    let set = sets[s].1;
    let new = (sets[s].0, SetView { workspaces: set.workspaces.update(k, w), ..set });
    let t = sets.update(s, new);
    let at = all_spaces(sets.take(s)).len() + k;
    lemma_locate(sets, s, k);
    if s == sets.len() - 1 {
        assert(sets.take(s) =~= sets.drop_last());
        assert(t.drop_last() =~= sets.drop_last());
    } else {
        lemma_locate(sets.drop_last(), s, k);
        lemma_all_spaces_update(sets.drop_last(), s, k, w);
        assert(sets.drop_last().take(s) =~= sets.take(s));
        assert(t.drop_last() =~= sets.drop_last().update(s, new));
        assert(t.last() == sets.last());
    }
    assert(all_spaces(t) =~= all_spaces(sets).update(at, w));
}

/// The workspace that is found for an element has it, and is found if any has it.
pub proof fn law_space_for(shell: ShellView, id: ElementId, i: int)
    requires
        0 <= i < shell.workspaces.spaces().len(),
        shell.workspaces.spaces()[i].has(id),
    ensures
        0 <= shell.space_index(id) <= i,
        shell.workspaces.spaces()[shell.space_index(id)].has(id),
        shell.workspaces.spaces()[shell.space_index(id)].element(id).id == id,
{
    let spaces = shell.workspaces.spaces();
    let p = |w: WorkspaceView| w.has(id);
    lemma_first_where(spaces, p);
    let k = first_where(spaces, p);
    if i < k {
        assert(!p(spaces[i]));
    }
    lemma_element_index(spaces[k].mapped(), id);
}

/// The element that is found for a surface has it, and is found if any has it.
pub proof fn law_element_for_surface(shell: ShellView, surface: SurfaceId, i: int, j: int)
    requires
        0 <= i < shell.workspaces.spaces().len(),
        0 <= j < shell.workspaces.spaces()[i].mapped().len(),
        shell.workspaces.spaces()[i].mapped()[j].surfaces.contains(surface),
    ensures
        ({
            let k = shell.surface_space(surface);
            let w = shell.workspaces.spaces()[k];
            &&& 0 <= k <= i
            &&& w.shows_surface(surface)
            &&& w.mapped()[w.surface_index(surface)].surfaces.contains(surface)
        }),
{
    let spaces = shell.workspaces.spaces();
    let p = |w: WorkspaceView| w.shows_surface(surface);
    let q = |e: ElementView| e.surfaces.contains(surface);
    lemma_first_where(spaces, p);
    lemma_first_where(spaces[i].mapped(), q);
    let f = first_where(spaces[i].mapped(), q);
    if f > j {
        assert(!q(spaces[i].mapped()[j]));
    }
    assert(p(spaces[i]));
    let k = first_where(spaces, p);
    if i < k {
        assert(!p(spaces[i]));
    }
    lemma_first_where(spaces[k].mapped(), q);
}

/// Going from the global space to the workspace of an output and back, or the other way
/// round, leads to the same place, as long as no coordinate is out of range on the way.
pub proof fn law_places_map_back(shell: ShellView, p: Point, output: Output)
    ensures
        ({
            let o = output.location();
            &&& i32::MIN <= p.x - o.x <= i32::MAX && i32::MIN <= p.y - o.y <= i32::MAX
                ==> shell.to_global(shell.to_space(p, output), output) == p
            &&& i32::MIN <= p.x + o.x <= i32::MAX && i32::MIN <= p.y + o.y <= i32::MAX
                ==> shell.to_space(shell.to_global(p, output), output) == p
            &&& shell.workspaces is Global ==> shell.to_space(p, output) == p && shell.to_global(
                p,
                output,
            ) == p
        }),
{
}

/// The location of an output is the origin of its own workspaces.
pub proof fn law_output_at_origin(shell: ShellView, output: Output)
    requires
        shell.workspaces is OutputBound,
    ensures
        shell.to_space(output.location(), output) == Point::zero(),
        shell.to_global(Point::zero(), output) == output.location(),
{
}

/// Whether two rectangles lie so that the distances between their sides are coordinates.
pub open spec fn within_reach(a: Rectangle, b: Rectangle) -> bool {
    &&& a.right() - b.loc.x <= i32::MAX
    &&& a.bottom() - b.loc.y <= i32::MAX
}

/// Whether all outputs lie within reach of each other.
pub open spec fn all_within_reach(outputs: Seq<Output>) -> bool {
    forall|i: int, j: int|
        0 <= i < outputs.len() && 0 <= j < outputs.len() ==> within_reach(
            (#[trigger] outputs[i]).geometry,
            (#[trigger] outputs[j]).geometry,
        )
}

/// Among some outputs there are those that reach farthest to each side.
spec fn spanned(outputs: Seq<Output>, r: Rectangle, a: int, b: int, c: int, d: int) -> bool {
    let n = outputs.len();
    &&& 0 <= a < n && 0 <= b < n && 0 <= c < n && 0 <= d < n
    &&& r.loc.x == outputs[a].geometry.loc.x
    &&& r.loc.y == outputs[b].geometry.loc.y
    &&& r.right() == outputs[c].geometry.right()
    &&& r.bottom() == outputs[d].geometry.bottom()
    &&& r.size.wf()
}

/// The smallest rectangle around all outputs covers each, and touches one on each side.
proof fn lemma_around_all(outputs: Seq<Output>) -> (sides: (int, int, int, int))
    requires
        outputs.len() > 0,
        all_within_reach(outputs),
        forall|i: int| 0 <= i < outputs.len() ==> (#[trigger] outputs[i]).wf(),
    ensures
        around_all(outputs) is Some,
        spanned(outputs, around_all(outputs)->0, sides.0, sides.1, sides.2, sides.3),
        forall|i: int|
            0 <= i < outputs.len() ==> (around_all(outputs)->0).covers(
                (#[trigger] outputs[i]).geometry,
            ),
    decreases outputs.len(),
{
    let n = outputs.len() as int;
    let before = outputs.drop_last();
    let g = outputs.last().geometry;
    assert(outputs[n - 1].wf());
    if n == 1 {
        assert(around_all(before) is None);
        (0, 0, 0, 0)
    } else {
        assert forall|i: int| 0 <= i < before.len() implies (#[trigger] before[i]).wf() by {
            assert(before[i] == outputs[i]);
        }
        assert forall|i: int, j: int|
            0 <= i < before.len() && 0 <= j < before.len() implies within_reach(
            (#[trigger] before[i]).geometry,
            (#[trigger] before[j]).geometry,
        ) by {
            assert(before[i] == outputs[i] && before[j] == outputs[j]);
        }
        let (a, b, c, d) = lemma_around_all(before);
        let r = around_all(before)->0;
        let s = r.around(g);
        assert(before[a] == outputs[a] && before[b] == outputs[b]);
        assert(before[c] == outputs[c] && before[d] == outputs[d]);
        assert(within_reach(outputs[c].geometry, outputs[a].geometry));
        assert(within_reach(outputs[c].geometry, outputs[n - 1].geometry));
        assert(within_reach(outputs[n - 1].geometry, outputs[a].geometry));
        assert(within_reach(outputs[n - 1].geometry, outputs[n - 1].geometry));
        assert(within_reach(outputs[d].geometry, outputs[b].geometry));
        assert(within_reach(outputs[d].geometry, outputs[n - 1].geometry));
        assert(within_reach(outputs[n - 1].geometry, outputs[b].geometry));
        assert forall|i: int| 0 <= i < outputs.len() implies s.covers(
            (#[trigger] outputs[i]).geometry,
        ) by {
            if i < before.len() {
                assert(r.covers(before[i].geometry));
            }
        }
        (
            if r.loc.x <= g.loc.x {
                a
            } else {
                n - 1
            },
            if r.loc.y <= g.loc.y {
                b
            } else {
                n - 1
            },
            if r.right() >= g.right() {
                c
            } else {
                n - 1
            },
            if r.bottom() >= g.bottom() {
                d
            } else {
                n - 1
            },
        )
    }
}

/// The global space covers every output, and any rectangle that does so covers it, as long
/// as all outputs lie within reach of each other.
pub proof fn law_global_space(outputs: Seq<Output>, other: Rectangle)
    requires
        outputs.len() > 0,
        all_within_reach(outputs),
        forall|i: int| 0 <= i < outputs.len() ==> (#[trigger] outputs[i]).wf(),
    ensures
        around_all(outputs) is Some,
        forall|i: int|
            0 <= i < outputs.len() ==> (around_all(outputs)->0).covers(
                (#[trigger] outputs[i]).geometry,
            ),
        (forall|i: int|
            0 <= i < outputs.len() ==> other.covers((#[trigger] outputs[i]).geometry))
            ==> other.covers(around_all(outputs)->0),
{
    let (a, b, c, d) = lemma_around_all(outputs);
    if forall|i: int| 0 <= i < outputs.len() ==> other.covers((#[trigger] outputs[i]).geometry) {
        assert(other.covers(outputs[a].geometry));
        assert(other.covers(outputs[b].geometry));
        assert(other.covers(outputs[c].geometry));
        assert(other.covers(outputs[d].geometry));
    }
}

/// An output that is added is there, and the workspaces that it shows show it: those of its
/// own at their origin, and those that all outputs share where it lies.
pub proof fn law_add_output(shell: ShellView, output: Output, i: int)
    requires
        0 <= i < shell.with_added(output).workspaces.spaces_for(output.id).len(),
    ensures
        shell.with_added(output).outputs.last() == output,
        shell.with_added(output).workspaces.set_for(output.id) is Some,
        ({
            let w = shell.with_added(output).workspaces.spaces_for(output.id)[i];
            &&& w.outputs.dom().contains(output.id)
            &&& w.outputs[output.id] == (if shell.workspaces is Global {
                output.location()
            } else {
                Point::zero()
            })
        }),
{
    if let ModeView::OutputBound(sets) = shell.workspaces {
        let new_sets = shell.with_added(output).workspaces->OutputBound_0;
        lemma_slot(sets, output.id);
        lemma_slot(new_sets, output.id);
        if has_key(sets, output.id) {
            let k = slot(sets, output.id);
            lemma_update(
                sets,
                k,
                sets[k].1.with_output(output.id, Point::zero()),
            );
        } else {
            let n = sets.len() as int;
            let k = slot(new_sets, output.id);
            assert(new_sets[n].0 == output.id);
            if k < n {
                assert(sets[k].0 == output.id);
            }
        }
    }
}

/// An output that is removed is gone: it is none of the outputs, it has no set of its own,
/// and no workspace that all outputs share shows it.
pub proof fn law_remove_output(shell: ShellView, output: OutputId)
    requires
        shell.wf(),
        shell.can_remove(output),
    ensures
        ({
            let after = shell.with_removed(output);
            &&& forall|i: int|
                0 <= i < after.outputs.len() ==> (#[trigger] after.outputs[i]).id != output
            &&& match after.workspaces {
                ModeView::OutputBound(_) => after.workspaces.set_for(output) is None,
                ModeView::Global(set) => forall|i: int|
                    0 <= i < set.workspaces.len() ==> !(
                    #[trigger] set.workspaces[i]).outputs.dom().contains(output),
            }
        }),
{
    let after = shell.with_removed(output);
    lemma_other_outputs(shell, output);
    if let ModeView::OutputBound(sets) = shell.workspaces {
        if has_key(sets, output) {
            let left = shell.without_set(output);
            let others = left.workspaces->OutputBound_0;
            let r = slot(sets, output);
            lemma_slot(sets, output);
            assert(!has_key(others, output)) by {
                lemma_remove(sets, r);
                assert(!as_map(others).dom().contains(output));
            }
            if shell.hands_over(output) {
                let mid = shell.handed_over(output);
                let new_sets = mid.workspaces->OutputBound_0;
                let to = shell.other_outputs(output)[0].id;
                lemma_handed_over_keeps_wf(shell, output);
                lemma_slot(others, to);
                assert(!has_key(new_sets, output)) by {
                    if has_key(new_sets, output) {
                        let i = choose|i: int|
                            0 <= i < new_sets.len() && (#[trigger] new_sets[i]).0 == output;
                        assert(others[i].0 == output);
                    }
                }
                lemma_sets_refreshed(
                    mid.scene().bound(),
                    mid.workspace_amount,
                    new_sets.len() as int,
                );
                let done = after.workspaces->OutputBound_0;
                if has_key(done, output) {
                    let i = choose|i: int| 0 <= i < done.len() && (#[trigger] done[i]).0 == output;
                    assert(new_sets[i].0 == output);
                }
            }
        }
    }
}

/// Workspaces that are handed over show the first of the other outputs at their origin, and
/// no longer the output that they came from.
pub proof fn law_handover_shown(
    s: Seq<WorkspaceView>,
    first: int,
    from: OutputId,
    to: OutputId,
    k: int,
)
    requires
        0 <= k < s.len(),
        from != to,
    ensures
        ({
            let w = moved_spaces(s, first, from, to)[k];
            &&& w.outputs.dom().contains(to) && w.outputs[to] == Point::zero()
            &&& !w.outputs.dom().contains(from)
            &&& w.mapped() == s[k].mapped()
        }),
{
}

/// Adding an output to a set that all outputs share, and removing it again, leaves everything
/// as it was, but for the workspaces being laid out again.
pub proof fn law_add_remove_output(shell: ShellView, output: Output)
    requires
        shell.workspaces is Global,
        forall|i: int| 0 <= i < shell.outputs.len() ==> (#[trigger] shell.outputs[i]).id != output.id,
        forall|i: int|
            0 <= i < shell.workspaces.spaces().len() ==> !(
            #[trigger] shell.workspaces.spaces()[i]).outputs.dom().contains(output.id),
        !shell.state.groups[(shell.workspaces->Global_0).group].contains(output.id),
    ensures
        ({
            let set = shell.workspaces->Global_0;
            shell.with_added(output).with_removed(output.id) == (ShellView {
                workspaces: ModeView::Global(
                    SetView {
                        workspaces: set.workspaces.map_values(
                            |w: WorkspaceView| w.refreshed(),
                        ),
                        ..set
                    },
                ),
                ..shell
            })
        }),
{
    let set = shell.workspaces->Global_0;
    let after = shell.with_added(output).with_removed(output.id);
    let p = |o: Output| o.id != output.id;
    let added = shell.outputs.push(output);
    assert(added.filter(p) == shell.outputs) by {
        reveal(Seq::filter);
        assert(added.drop_last() =~= shell.outputs);
        lemma_filter_all(shell.outputs, p);
    }
    let refreshed = set.workspaces.map_values(|w: WorkspaceView| w.refreshed());
    let got = after.workspaces->Global_0;
    assert forall|i: int| 0 <= i < refreshed.len() implies got.workspaces[i]
        == #[trigger] refreshed[i] by {
        let w = set.workspaces[i];
        assert(shell.workspaces.spaces()[i] == w);
        assert(w.outputs.insert(output.id, output.location()).remove(output.id) =~= w.outputs);
    }
    assert(got.workspaces =~= refreshed);
    let g = set.group;
    if shell.state.groups.dom().contains(g) {
        assert(shell.state.groups[g].insert(output.id).remove(output.id) =~= shell.state.groups[g]);
        assert(after.state.groups =~= shell.state.groups);
    }
}

proof fn lemma_filter_all(s: Seq<Output>, p: spec_fn(Output) -> bool)
    requires
        forall|i: int| 0 <= i < s.len() ==> p(#[trigger] s[i]),
    ensures
        s.filter(p) == s,
    decreases s.len(),
{
    reveal(Seq::filter);
    if s.len() > 0 {
        lemma_filter_all(s.drop_last(), p);
        assert(p(s[s.len() - 1]));
        assert(s.drop_last().push(s.last()) =~= s);
    }
}

/// After outputs have moved, a set that all outputs share shows each where it lies.
pub proof fn law_refresh_outputs(shell: ShellView, i: int, j: int)
    requires
        shell.workspaces is Global,
        outputs_distinct(shell.outputs),
        0 <= i < shell.workspaces.spaces().len(),
        0 <= j < shell.outputs.len(),
    ensures
        ({
            let w = shell.with_outputs_placed().workspaces.spaces()[i];
            let o = shell.outputs[j];
            w.outputs.dom().contains(o.id) && w.outputs[o.id] == o.location()
        }),
{
    lemma_placed(shell.workspaces.spaces()[i], shell.outputs, j);
}

proof fn lemma_placed(w: WorkspaceView, outputs: Seq<Output>, j: int)
    requires
        outputs_distinct(outputs),
        0 <= j < outputs.len(),
    ensures
        w.with_outputs(outputs).outputs.dom().contains(outputs[j].id),
        w.with_outputs(outputs).outputs[outputs[j].id] == outputs[j].location(),
    decreases outputs.len(),
{
    let n = outputs.len() - 1;
    if j < n {
        let before = outputs.drop_last();
        assert(before[j] == outputs[j]);
        assert forall|p: int, q: int| 0 <= p < q < before.len() implies (#[trigger] before[p]).id != (
        #[trigger] before[q]).id by {
            assert(outputs[p].id != outputs[q].id);
        }
        lemma_placed(w, before, j);
        assert(outputs[j].id != outputs[n].id);
    }
}

/// Once sets are merged, clients know neither the old workspaces nor their groups any more.
pub proof fn law_merge_withdraws(shell: ShellView, h: WorkspaceHandle, s: int)
    requires
        shell.wf(),
        shell.workspaces is OutputBound,
        shell.can_convert(ConfigMode::Global),
    ensures
        ({
            let sets = shell.workspaces->OutputBound_0;
            let after = shell.converted(ConfigMode::Global).state;
            &&& handles(all_spaces(sets)).contains(h) ==> !after.workspaces.dom().contains(h)
            &&& 0 <= s < sets.len() ==> !after.groups.dom().contains(sets[s].1.group)
        }),
{
    let sets = shell.workspaces->OutputBound_0;
    let all = all_spaces(sets);
    if handles(all).contains(h) {
        let i = choose|i: int| 0 <= i < all.len() && (#[trigger] all[i]).handle == h;
        lemma_locate_inverse(sets, i);
        let (q, k) = locate(sets, i);
        assert(sets[q].1.registered(shell.state));
        assert(shell.state.workspaces.dom().contains(sets[q].1.workspaces[k].handle));
    }
    if 0 <= s < sets.len() {
        assert(groups_of(sets).contains(sets[s].1.group));
    }
}

/// Once workspaces are handed over, clients know neither the old ones nor their group any
/// more.
pub proof fn law_handover_withdraws(shell: ShellView, output: OutputId, h: WorkspaceHandle)
    requires
        shell.wf(),
        shell.hands_over(output),
        shell.state.next + shell.workspaces.spaces_for(output).len() <= u64::MAX,
    ensures
        ({
            let set = shell.workspaces.set_for(output)->0;
            let after = shell.handed_over(output).state;
            &&& handles(set.workspaces).contains(h) ==> !after.workspaces.dom().contains(h)
            &&& !after.groups.dom().contains(set.group)
        }),
{
    let set = shell.workspaces.set_for(output)->0;
    lemma_set_registered(shell, output);
    if handles(set.workspaces).contains(h) {
        let i = choose|i: int|
            0 <= i < set.workspaces.len() && (#[trigger] set.workspaces[i]).handle == h;
        assert(shell.state.workspaces.dom().contains(set.workspaces[i].handle));
    }
}

/// Whether what is known now and was not known before goes by handles that had not been
/// given out before.
pub open spec fn grown_from(before: StateView, after: StateView) -> bool {
    &&& before.next <= after.next
    &&& forall|h: u64| #[trigger]
        after.workspaces.dom().contains(h) ==> before.workspaces.dom().contains(h) || before.next
            <= h
    &&& forall|g: u64| #[trigger]
        after.groups.dom().contains(g) ==> before.groups.dom().contains(g) || before.next <= g
}

proof fn lemma_grown_on(a: StateView, b: StateView, c: StateView)
    requires
        grown_from(a, b),
        grown_from(b, c),
    ensures
        grown_from(a, c),
{
    assert forall|h: u64| #[trigger] c.workspaces.dom().contains(h) implies
        a.workspaces.dom().contains(h) || a.next <= h by {
        if b.workspaces.dom().contains(h) {
        }
    }
    assert forall|g: u64| #[trigger] c.groups.dom().contains(g) implies a.groups.dom().contains(g)
        || a.next <= g by {
        if b.groups.dom().contains(g) {
        }
    }
}

proof fn lemma_set_refresh_grown(scene: SetScene, amount: WorkspaceAmount)
    requires
        scene.can_refresh(amount),
    ensures
        grown_from(scene.state, scene.refreshed(amount).state),
{
}

proof fn lemma_sets_refresh_grown(scene: SetsScene, amount: WorkspaceAmount, n: int)
    requires
        scene.can_refresh(amount),
        0 <= n <= scene.sets.len(),
    ensures
        grown_from(scene.state, scene.refreshed(amount, n).state),
    decreases n,
{
    if n > 0 {
        lemma_sets_refresh_grown(scene, amount, n - 1);
        let turn = scene.turn(amount, n - 1);
        assert(turn.can_refresh(amount));
        lemma_set_refresh_grown(turn, amount);
        lemma_grown_on(scene.state, turn.state, turn.refreshed(amount).state);
    }
}

/// A refresh gives out no handle twice.
pub proof fn law_refresh_handles(shell: ShellView)
    requires
        shell.can_refresh(),
    ensures
        grown_from(shell.state, shell.refreshed().state),
{
    match shell.workspaces {
        ModeView::Global(_) => {
            lemma_set_refresh_grown(shell.scene().shared(), shell.workspace_amount);
        },
        ModeView::OutputBound(sets) => {
            lemma_sets_refresh_grown(
                shell.scene().bound(),
                shell.workspace_amount,
                sets.len() as int,
            );
        },
    }
}

/// Adding an output gives out no handle twice.
pub proof fn law_add_output_handles(shell: ShellView, output: Output)
    requires
        0 <= shell.state.next,
        shell.state.next + shell.handles_to_add(output) <= u64::MAX,
    ensures
        grown_from(shell.state, shell.with_added(output).state),
{
}

/// Removing an output gives out no handle twice.
pub proof fn law_remove_output_handles(shell: ShellView, output: OutputId)
    requires
        shell.wf(),
        shell.can_remove(output),
    ensures
        grown_from(shell.state, shell.with_removed(output).state),
{
    if shell.hands_over(output) {
        let mid = shell.handed_over(output);
        assert(grown_from(shell.state, mid.state));
        law_refresh_handles(mid);
        lemma_grown_on(shell.state, mid.state, mid.refreshed().state);
    }
}

proof fn lemma_fresh_sets_grown(scene: SetsScene, outputs: Seq<Output>)
    requires
        0 <= scene.state.next,
        scene.state.next + outputs.len() <= u64::MAX,
    ensures
        grown_from(scene.state, scene.with_fresh_sets(outputs).state),
        scene.with_fresh_sets(outputs).state.next == scene.state.next + outputs.len(),
    decreases outputs.len(),
{
    if outputs.len() > 0 {
        lemma_fresh_sets_grown(scene, outputs.drop_last());
        let mid = scene.with_fresh_sets(outputs.drop_last());
        assert(grown_from(mid.state, mid.state.with_new_group()));
        lemma_grown_on(scene.state, mid.state, mid.state.with_new_group());
    }
}

proof fn lemma_parts_grown(
    scene: SetsScene,
    w: WorkspaceView,
    i: int,
    active: int,
    outputs: Seq<Output>,
)
    requires
        0 <= scene.state.next,
        scene.state.next + outputs.len() <= u64::MAX,
    ensures
        grown_from(scene.state, scene.with_parts(w, i, active, outputs).state),
        scene.with_parts(w, i, active, outputs).state.next == scene.state.next + outputs.len(),
    decreases outputs.len(),
{
    if outputs.len() > 0 {
        let before = outputs.drop_last();
        lemma_parts_grown(scene, w, i, active, before);
        let mid = scene.with_parts(w, i, active, before);
        let after = scene.with_parts(w, i, active, outputs);
        assert(grown_from(mid.state, after.state));
        lemma_grown_on(scene.state, mid.state, after.state);
    }
}

proof fn lemma_spaces_grown(scene: SetsScene, set: SetView, outputs: Seq<Output>, n: int)
    requires
        0 <= scene.state.next,
        0 <= n,
        scene.state.next + n * outputs.len() <= u64::MAX,
    ensures
        grown_from(scene.state, scene.with_spaces(set, outputs, n).state),
        scene.with_spaces(set, outputs, n).state.next == scene.state.next + n * outputs.len(),
    decreases n,
{
    if n > 0 {
        let m = outputs.len() as int;
        assert(n * m == (n - 1) * m + m) by (nonlinear_arith);
        assert((n - 1) * m >= 0) by (nonlinear_arith)
            requires
                n >= 1,
                m >= 0,
        ;
        lemma_spaces_grown(scene, set, outputs, n - 1);
        let mid = scene.with_spaces(set, outputs, n - 1);
        let w = set.workspaces[n - 1];
        lemma_parts_grown(mid, w, n - 1, set.active, outputs);
        let parts = mid.with_parts(w, n - 1, set.active, outputs);
        let after = scene.with_spaces(set, outputs, n);
        assert(grown_from(parts.state, after.state));
        lemma_grown_on(mid.state, parts.state, after.state);
        lemma_grown_on(scene.state, mid.state, after.state);
    } else {
        assert(n * outputs.len() == 0) by (nonlinear_arith)
            requires
                n == 0,
        ;
    }
}

/// A change of the mode gives out no handle twice.
pub proof fn law_set_mode_handles(shell: ShellView, mode: ConfigMode)
    requires
        shell.wf(),
        shell.can_convert(mode),
        shell.converted(mode).can_refresh(),
    ensures
        grown_from(shell.state, shell.converted(mode).refreshed().state),
{
    let mid = shell.converted(mode);
    match (shell.workspaces, mode) {
        (ModeView::OutputBound(sets), ConfigMode::Global) => {
            lemma_rows_fit(sets);
            assert(grown_from(shell.state, mid.state));
        },
        (ModeView::Global(set), ConfigMode::OutputBound) => {
            let nothing = SetsScene {
                sets: Seq::empty(),
                state: shell.state,
                toplevels: shell.toplevels,
            };
            let n = set.workspaces.len() as int;
            let m = shell.outputs.len() as int;
            assert(n * m >= 0) by (nonlinear_arith)
                requires
                    n >= 0,
                    m >= 0,
            ;
            let start = nothing.with_fresh_sets(shell.outputs);
            let done = start.with_spaces(set, shell.outputs, n);
            lemma_fresh_sets_grown(nothing, shell.outputs);
            lemma_spaces_grown(start, set, shell.outputs, n);
            lemma_grown_on(shell.state, start.state, done.state);
            assert(grown_from(done.state, mid.state));
            lemma_grown_on(shell.state, done.state, mid.state);
        },
        _ => {},
    }
    law_refresh_handles(mid);
    lemma_grown_on(shell.state, mid.state, mid.refreshed().state);
}

proof fn lemma_spaces_withdrawn(
    scene: SetsScene,
    set: SetView,
    outputs: Seq<Output>,
    n: int,
    i: int,
)
    requires
        0 <= scene.state.next,
        0 <= i < n,
        set.workspaces[i].handle < scene.state.next,
        scene.state.next + n * outputs.len() <= u64::MAX,
    ensures
        !scene.with_spaces(set, outputs, n).state.workspaces.dom().contains(
            set.workspaces[i].handle,
        ),
    decreases n,
{
    let m = outputs.len() as int;
    assert(n * m == (n - 1) * m + m) by (nonlinear_arith);
    assert((n - 1) * m >= 0) by (nonlinear_arith)
        requires
            n >= 1,
            m >= 0,
    ;
    if i < n - 1 {
        lemma_spaces_withdrawn(scene, set, outputs, n - 1, i);
        lemma_spaces_grown(scene, set, outputs, n - 1);
        let mid = scene.with_spaces(set, outputs, n - 1);
        lemma_parts_grown(mid, set.workspaces[n - 1], n - 1, set.active, outputs);
    }
}

/// Once a set is split, clients know neither its workspaces nor its group any more.
pub proof fn law_split_withdraws(shell: ShellView, i: int)
    requires
        shell.wf(),
        shell.workspaces is Global,
        shell.can_convert(ConfigMode::OutputBound),
    ensures
        ({
            let set = shell.workspaces->Global_0;
            let after = shell.converted(ConfigMode::OutputBound).state;
            &&& 0 <= i < set.workspaces.len() ==> !after.workspaces.dom().contains(
                set.workspaces[i].handle,
            )
            &&& !after.groups.dom().contains(set.group)
        }),
{
    let set = shell.workspaces->Global_0;
    let n = set.workspaces.len() as int;
    let m = shell.outputs.len() as int;
    let nothing = SetsScene {
        sets: Seq::empty(),
        state: shell.state,
        toplevels: shell.toplevels,
    };
    assert(n * m >= 0) by (nonlinear_arith)
        requires
            n >= 0,
            m >= 0,
    ;
    lemma_fresh_sets_grown(nothing, shell.outputs);
    if 0 <= i < n {
        assert(shell.state.workspaces.dom().contains(set.workspaces[i].handle));
        lemma_spaces_withdrawn(
            nothing.with_fresh_sets(shell.outputs),
            set,
            shell.outputs,
            n,
            i,
        );
    }
}

} // verus!
