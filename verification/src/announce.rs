//! What clients are told of windows agrees with what is on the workspaces.
//!
//! Every operation keeps it so, with three exceptions. Windows that are handed over to another
//! output, or dropped with the last one, stay announced where they were. So do those on a
//! shared set that is split while there is no output. And a window that two elements of a
//! workspace show is withdrawn from it when one of them moves.
use crate::config::WorkspaceMode as ConfigMode;
use crate::contents::lemma_outputs_keep_layers;
use crate::convert::lemma_converted_keeps_wf;
use crate::element::{
    element_index, element_of, lemma_element_index, lemma_windows_add, lemma_windows_push,
    windows_in, ElementId, ElementView,
};
use crate::gather::{in_row, lead, lemma_rows_fit, merged_set, row, row_count, row_start};
use crate::hotplug::{lemma_handed_over_keeps_wf, moved_spaces};
use crate::laws::lemma_all_spaces_update;
use crate::mode::{all_spaces, lemma_locate, lemma_locate_inverse, locate, ModeView};
use crate::output::Output;
use crate::protocol::{OutputId, WorkspaceHandle};
use crate::scene::{lemma_sets_refreshed, SetsScene};
use crate::set::{
    absorbed, handles, handles_distinct, kept, lemma_absorbed_handle, new_workspaces, padded,
    shown_at, shown_in, stays, SetScene, SetView, WorkspaceAmount,
};
use crate::shell::ShellView;
use crate::split::{lemma_fresh_sets, lemma_parts, lemma_spaces};
use crate::table::{has_key, lemma_slot, slot};
use crate::toplevel::{ToplevelView, WindowId};
use crate::windows::lemma_other_space;
use crate::workspace::{
    lemma_element_layer, lemma_outputs_keep_handles, new_workspace, WorkspaceView,
};
use vstd::prelude::*;

verus! {

/// Clients are told that a window is on a workspace exactly where it is on one.
pub open spec fn told(spaces: Seq<WorkspaceView>, t: ToplevelView) -> bool {
    forall|x: WindowId, h: WorkspaceHandle| #[trigger]
        t.workspaces.contains((x, h)) <==> shown_at(spaces, x, h)
}

impl ShellView {
    /// Clients are told of each window on which workspaces it is.
    pub open spec fn told(self) -> bool {
        told(self.workspaces.spaces(), self.toplevels)
    }
}

/// The windows on two layers are those of either.
proof fn lemma_windows_layers(w: WorkspaceView)
    ensures
        w.windows() == windows_in(w.floating_layer).union(windows_in(w.tiling_layer)),
{
    lemma_windows_add(w.floating_layer, w.tiling_layer);
}

/// A merged workspace shows the windows of both.
proof fn lemma_merged_windows(a: WorkspaceView, b: WorkspaceView)
    ensures
        a.merged(b).windows() == a.windows().union(b.windows()),
{
    lemma_windows_layers(a);
    lemma_windows_layers(b);
    lemma_windows_layers(a.merged(b));
    lemma_windows_add(a.floating_layer, b.floating_layer);
    lemma_windows_add(a.tiling_layer, b.tiling_layer);
    assert(a.merged(b).windows() =~= a.windows().union(b.windows()));
}

/// What is merged into a workspace shows there.
proof fn lemma_absorbed_windows(w: WorkspaceView, rest: Seq<WorkspaceView>, x: WindowId)
    ensures
        absorbed(w, rest).windows().contains(x) <==> w.windows().contains(x) || shown_in(rest, x),
    decreases rest.len(),
{
    if rest.len() > 0 {
        let before = rest.drop_last();
        lemma_absorbed_windows(w, before, x);
        lemma_merged_windows(absorbed(w, before), rest.last());
        if shown_in(before, x) {
            let k = choose|k: int| 0 <= k < before.len() && (#[trigger] before[k]).windows().contains(x);
            assert(rest[k].windows().contains(x));
        }
        if rest.last().windows().contains(x) {
            assert(rest[rest.len() - 1].windows().contains(x));
        }
        if shown_in(rest, x) {
            let k = choose|k: int| 0 <= k < rest.len() && (#[trigger] rest[k]).windows().contains(x);
            if k < before.len() {
                assert(before[k].windows().contains(x));
            }
        }
    }
}

/// Without elements there are no windows.
proof fn lemma_empty_windows(w: WorkspaceView)
    requires
        w.floating_layer.len() == 0,
        w.tiling_layer.len() == 0,
    ensures
        forall|x: WindowId| !w.windows().contains(x),
{
    assert(w.mapped() =~= Seq::<ElementView>::empty());
}

/// Where no workspace is there twice, a window shows under a handle on just that workspace.
proof fn lemma_shown_under(s: Seq<WorkspaceView>, i: int, x: WindowId)
    requires
        handles_distinct(s),
        0 <= i < s.len(),
    ensures
        shown_at(s, x, s[i].handle) <==> s[i].windows().contains(x),
{
    let h = s[i].handle;
    if s[i].windows().contains(x) {
        assert(s[i].handle == h && s[i].windows().contains(x));
    }
    if shown_at(s, x, h) {
        let k = choose|k: int|
            0 <= k < s.len() && (#[trigger] s[k]).handle == h && s[k].windows().contains(x);
        if k < i {
            assert(s[k].handle != s[i].handle);
        } else if i < k {
            assert(s[i].handle != s[k].handle);
        }
    }
}

/// What is shown on all sets is shown on one of them.
proof fn lemma_shown_all(sets: Seq<(OutputId, SetView)>, x: WindowId, h: WorkspaceHandle)
    ensures
        shown_at(all_spaces(sets), x, h) <==> exists|s: int|
            0 <= s < sets.len() && shown_at((#[trigger] sets[s]).1.workspaces, x, h),
{
    let all = all_spaces(sets);
    if shown_at(all, x, h) {
        let i = choose|i: int|
            0 <= i < all.len() && (#[trigger] all[i]).handle == h && all[i].windows().contains(x);
        lemma_locate_inverse(sets, i);
        let (s, k) = locate(sets, i);
        assert(sets[s].1.workspaces[k].handle == h);
        assert(shown_at(sets[s].1.workspaces, x, h));
    }
    if exists|s: int| 0 <= s < sets.len() && shown_at((#[trigger] sets[s]).1.workspaces, x, h) {
        let s = choose|s: int|
            0 <= s < sets.len() && shown_at((#[trigger] sets[s]).1.workspaces, x, h);
        let ws = sets[s].1.workspaces;
        let k = choose|k: int|
            0 <= k < ws.len() && (#[trigger] ws[k]).handle == h && ws[k].windows().contains(x);
        lemma_locate(sets, s, k);
        assert(all[all_spaces(sets.take(s)).len() + k].handle == h);
    }
}

/// What is told of the windows of one set, beside what is told of others.
spec fn told_beside(
    ws: Seq<WorkspaceView>,
    t: ToplevelView,
    others: spec_fn(WindowId, WorkspaceHandle) -> bool,
) -> bool {
    forall|x: WindowId, h: WorkspaceHandle| #[trigger]
        t.workspaces.contains((x, h)) <==> shown_at(ws, x, h) || others(x, h)
}

/// Workspaces that stay show what all show: those that go are empty.
proof fn lemma_kept_shown(
    s: Seq<WorkspaceView>,
    active: int,
    n: int,
    x: WindowId,
    h: WorkspaceHandle,
)
    requires
        0 <= n <= s.len(),
    ensures
        shown_at(kept(s, active, n), x, h) <==> shown_at(s.take(n), x, h),
    decreases n,
{
    if n > 0 {
        lemma_kept_shown(s, active, n - 1, x, h);
        let a = kept(s, active, n - 1);
        let b = s.take(n - 1);
        let w = s[n - 1];
        assert(s.take(n) =~= b.push(w));
        lemma_shown_push(b, w, x, h);
        if stays(s, active, n - 1) {
            lemma_shown_push(a, w, x, h);
        } else {
            assert(!w.windows().contains(x));
        }
    } else {
        assert(s.take(n) =~= Seq::<WorkspaceView>::empty());
    }
}

proof fn lemma_shown_push(s: Seq<WorkspaceView>, w: WorkspaceView, x: WindowId, h: WorkspaceHandle)
    ensures
        shown_at(s.push(w), x, h) <==> shown_at(s, x, h) || (w.handle == h && w.windows().contains(
            x,
        )),
{
    lemma_shown_add(s, seq![w], x, h);
    assert(s + seq![w] =~= s.push(w));
    if w.handle == h && w.windows().contains(x) {
        assert(seq![w][0].handle == h);
    }
}

proof fn lemma_shown_add(
    a: Seq<WorkspaceView>,
    b: Seq<WorkspaceView>,
    x: WindowId,
    h: WorkspaceHandle,
)
    ensures
        shown_at(a + b, x, h) <==> shown_at(a, x, h) || shown_at(b, x, h),
{
    let s = a + b;
    if shown_at(a, x, h) {
        let k = choose|k: int|
            0 <= k < a.len() && (#[trigger] a[k]).handle == h && a[k].windows().contains(x);
        assert(s[k] == a[k]);
    }
    if shown_at(b, x, h) {
        let k = choose|k: int|
            0 <= k < b.len() && (#[trigger] b[k]).handle == h && b[k].windows().contains(x);
        assert(s[a.len() + k] == b[k]);
    }
    if shown_at(s, x, h) {
        let k = choose|k: int|
            0 <= k < s.len() && (#[trigger] s[k]).handle == h && s[k].windows().contains(x);
        if k < a.len() {
            assert(a[k] == s[k]);
        } else {
            assert(b[k - a.len()] == s[k]);
        }
    }
}

/// What shows the same windows under the same handles is told the same.
proof fn lemma_shown_same(
    a: Seq<WorkspaceView>,
    b: Seq<WorkspaceView>,
    x: WindowId,
    h: WorkspaceHandle,
)
    requires
        a.len() == b.len(),
        forall|i: int|
            0 <= i < a.len() ==> (#[trigger] a[i]).handle == b[i].handle && a[i].windows()
                == b[i].windows(),
    ensures
        shown_at(a, x, h) == shown_at(b, x, h),
{
    if shown_at(a, x, h) {
        let k = choose|k: int|
            0 <= k < a.len() && (#[trigger] a[k]).handle == h && a[k].windows().contains(x);
        assert(b[k].handle == h && b[k].windows().contains(x));
    }
    if shown_at(b, x, h) {
        let k = choose|k: int|
            0 <= k < b.len() && (#[trigger] b[k]).handle == h && b[k].windows().contains(x);
        assert(a[k].handle == h && a[k].windows().contains(x));
    }
}

proof fn lemma_resized_told(
    scene: SetScene,
    amount: int,
    others: spec_fn(WindowId, WorkspaceHandle) -> bool,
)
    requires
        handles_distinct(scene.set.workspaces),
        0 < amount,
        told_beside(scene.set.workspaces, scene.toplevels, others),
        forall|x: WindowId, h: WorkspaceHandle| #[trigger]
            others(x, h) ==> !handles(scene.set.workspaces).contains(h),
    ensures
        told_beside(
            scene.resized(amount).set.workspaces,
            scene.resized(amount).toplevels,
            others,
        ),
{
    let all = scene.set.workspaces;
    let n = all.len() as int;
    let after = scene.resized(amount).set.workspaces;
    let t = scene.toplevels;
    let u = scene.resized(amount).toplevels;
    if amount < n {
        let rest = all.skip(amount);
        let head = all.take(amount);
        let last = all[amount - 1];
        let grown = absorbed(last, rest).refreshed();
        lemma_absorbed_handle(last, rest);
        assert(head + rest =~= all);
        assert forall|x: WindowId, h: WorkspaceHandle| #[trigger]
            u.workspaces.contains((x, h)) <==> shown_at(after, x, h) || others(x, h) by {
            lemma_shown_add(head, rest, x, h);
            lemma_absorbed_windows(last, rest, x);
            assert(grown.windows() == absorbed(last, rest).windows());
            assert(t.workspaces.contains((x, h)) <==> shown_at(all, x, h) || others(x, h));
            if shown_at(rest, x, h) {
                let k = choose|k: int|
                    0 <= k < rest.len() && (#[trigger] rest[k]).handle == h
                        && rest[k].windows().contains(x);
                assert(all[amount + k].handle == h);
                assert(handles(all).contains(h));
            }
            // under a handle that stays, nothing of the rest is shown
            if shown_at(after, x, h) {
                let k = choose|k: int|
                    0 <= k < after.len() && (#[trigger] after[k]).handle == h
                        && after[k].windows().contains(x);
                assert(all[k].handle == h);
                if shown_at(rest, x, h) {
                    let q = choose|q: int|
                        0 <= q < rest.len() && (#[trigger] rest[q]).handle == h
                            && rest[q].windows().contains(x);
                    assert(all[k].handle != all[amount + q].handle);
                }
                if k < amount - 1 {
                    assert(head[k] == after[k]);
                    assert(shown_at(head, x, h));
                } else if last.windows().contains(x) {
                    assert(head[amount - 1] == last);
                    assert(shown_at(head, x, h));
                }
            }
            if shown_at(head, x, h) {
                let k = choose|k: int|
                    0 <= k < head.len() && (#[trigger] head[k]).handle == h
                        && head[k].windows().contains(x);
                assert(head[k] == all[k]);
                if shown_at(rest, x, h) {
                    let q = choose|q: int|
                        0 <= q < rest.len() && (#[trigger] rest[q]).handle == h
                            && rest[q].windows().contains(x);
                    assert(all[k].handle != all[amount + q].handle);
                }
                if k < amount - 1 {
                    assert(after[k] == head[k]);
                } else {
                    assert(after[amount - 1] == grown);
                }
                assert(shown_at(after, x, h));
            }
            if h == last.handle && shown_in(rest, x) {
                assert(after[amount - 1] == grown);
                assert(shown_at(after, x, h));
            }
        }
    } else {
        let more = new_workspaces(scene.state.next, amount - n);
        assert forall|x: WindowId, h: WorkspaceHandle| #[trigger]
            u.workspaces.contains((x, h)) <==> shown_at(after, x, h) || others(x, h) by {
            lemma_shown_add(all, more, x, h);
            if shown_at(more, x, h) {
                let k = choose|k: int|
                    0 <= k < more.len() && (#[trigger] more[k]).handle == h
                        && more[k].windows().contains(x);
                lemma_empty_windows(more[k]);
            }
            assert(t.workspaces.contains((x, h)) <==> shown_at(all, x, h) || others(x, h));
        }
    }
}

proof fn lemma_set_refresh_told(
    scene: SetScene,
    amount: WorkspaceAmount,
    others: spec_fn(WindowId, WorkspaceHandle) -> bool,
)
    requires
        handles_distinct(scene.set.workspaces),
        scene.can_refresh(amount),
        told_beside(scene.set.workspaces, scene.toplevels, others),
        forall|x: WindowId, h: WorkspaceHandle| #[trigger]
            others(x, h) ==> !handles(scene.set.workspaces).contains(h),
    ensures
        told_beside(
            scene.refreshed(amount).set.workspaces,
            scene.refreshed(amount).toplevels,
            others,
        ),
{
    let ensured = scene.ensured(amount);
    let after = scene.refreshed(amount);
    match amount {
        WorkspaceAmount::Dynamic => {
            let all = padded(scene.set, scene.state);
            let n = all.len() as int;
            assert(all.take(n) =~= all);
            assert forall|x: WindowId, h: WorkspaceHandle| #[trigger]
                ensured.toplevels.workspaces.contains((x, h)) <==> shown_at(
                    ensured.set.workspaces,
                    x,
                    h,
                ) || others(x, h) by {
                lemma_kept_shown(all, scene.set.active, n, x, h);
                if scene.set.workspaces.last().has_windows() {
                    let w = new_workspace(scene.state.next as u64);
                    lemma_shown_push(scene.set.workspaces, w, x, h);
                    lemma_empty_windows(w);
                }
            }
        },
        WorkspaceAmount::Static(len) => {
            lemma_resized_told(scene, len as int, others);
        },
    }
    assert forall|x: WindowId, h: WorkspaceHandle| #[trigger]
        after.toplevels.workspaces.contains((x, h)) <==> shown_at(after.set.workspaces, x, h)
            || others(x, h) by {
        lemma_shown_same(after.set.workspaces, ensured.set.workspaces, x, h);
        assert(ensured.toplevels.workspaces.contains((x, h)) <==> shown_at(
            ensured.set.workspaces,
            x,
            h,
        ) || others(x, h));
    }
}

/// A handle that one set has, no other has.
proof fn lemma_handles_apart(scene: SetsScene, s: int, r: int, h: WorkspaceHandle)
    requires
        scene.registered(),
        0 <= s < scene.sets.len(),
        0 <= r < scene.sets.len(),
        s != r,
        handles(scene.sets[s].1.workspaces).contains(h),
    ensures
        !handles(scene.sets[r].1.workspaces).contains(h),
{
    let a = scene.sets[s].1;
    let b = scene.sets[r].1;
    assert(a.registered(scene.state) && b.registered(scene.state));
    let i = choose|i: int| 0 <= i < a.workspaces.len() && (#[trigger] a.workspaces[i]).handle == h;
    assert(scene.state.workspaces[a.workspaces[i].handle].group == a.group);
    if handles(b.workspaces).contains(h) {
        let j = choose|j: int|
            0 <= j < b.workspaces.len() && (#[trigger] b.workspaces[j]).handle == h;
        assert(scene.state.workspaces[b.workspaces[j].handle].group == b.group);
        if s < r {
            assert(scene.sets[s].1.group != scene.sets[r].1.group);
        } else {
            assert(scene.sets[r].1.group != scene.sets[s].1.group);
        }
    }
}

proof fn lemma_shown_has_handle(s: Seq<WorkspaceView>, x: WindowId, h: WorkspaceHandle)
    requires
        shown_at(s, x, h),
    ensures
        handles(s).contains(h),
{
    let k = choose|k: int|
        0 <= k < s.len() && (#[trigger] s[k]).handle == h && s[k].windows().contains(x);
    assert(s[k].handle == h);
}

/// Whether a window is shown on a set other than the one at `k`.
spec fn shown_beside(
    sets: Seq<(OutputId, SetView)>,
    k: int,
    x: WindowId,
    h: WorkspaceHandle,
) -> bool {
    exists|s: int|
        0 <= s < sets.len() && s != k && shown_at((#[trigger] sets[s]).1.workspaces, x, h)
}

proof fn lemma_sets_refresh_told(scene: SetsScene, amount: WorkspaceAmount, n: int)
    requires
        scene.registered(),
        scene.state.wf(),
        scene.can_refresh(amount),
        0 <= n <= scene.sets.len(),
        told(all_spaces(scene.sets), scene.toplevels),
    ensures
        told(
            all_spaces(scene.refreshed(amount, n).sets),
            scene.refreshed(amount, n).toplevels,
        ),
    decreases n,
{
    if n > 0 {
        lemma_sets_refresh_told(scene, amount, n - 1);
        lemma_sets_refreshed(scene, amount, n - 1);
        let before = scene.refreshed(amount, n - 1);
        let after = scene.refreshed(amount, n);
        let k = n - 1;
        let turn = scene.turn(amount, k);
        assert(before.sets[k] == scene.sets[k]);
        assert(before.sets[k].1.registered(before.state));
        assert(turn.can_refresh(amount));
        let others = |x: WindowId, h: WorkspaceHandle| shown_beside(before.sets, k, x, h);
        let ws = turn.set.workspaces;
        assert forall|x: WindowId, h: WorkspaceHandle| #[trigger]
            turn.toplevels.workspaces.contains((x, h)) <==> shown_at(ws, x, h) || others(x, h) by {
            lemma_shown_all(before.sets, x, h);
            if shown_at(ws, x, h) {
                assert(shown_at(before.sets[k].1.workspaces, x, h));
            }
        }
        assert forall|x: WindowId, h: WorkspaceHandle| #[trigger] others(x, h) implies !handles(
            ws,
        ).contains(h) by {
            let s = choose|s: int|
                0 <= s < before.sets.len() && s != k && shown_at(
                    (#[trigger] before.sets[s]).1.workspaces,
                    x,
                    h,
                );
            lemma_shown_has_handle(before.sets[s].1.workspaces, x, h);
            lemma_handles_apart(before, s, k, h);
        }
        lemma_set_refresh_told(turn, amount, others);
        assert forall|x: WindowId, h: WorkspaceHandle| #[trigger]
            after.toplevels.workspaces.contains((x, h)) <==> shown_at(
                all_spaces(after.sets),
                x,
                h,
            ) by {
            lemma_shown_all(after.sets, x, h);
            let new = after.sets[k].1.workspaces;
            assert(after.toplevels.workspaces.contains((x, h)) <==> shown_at(new, x, h) || others(
                x,
                h,
            ));
            if others(x, h) {
                let s = choose|s: int|
                    0 <= s < before.sets.len() && s != k && shown_at(
                        (#[trigger] before.sets[s]).1.workspaces,
                        x,
                        h,
                    );
                assert(after.sets[s] == before.sets[s]);
            }
            if exists|s: int|
                0 <= s < after.sets.len() && shown_at((#[trigger] after.sets[s]).1.workspaces, x, h) {
                let s = choose|s: int|
                    0 <= s < after.sets.len() && shown_at(
                        (#[trigger] after.sets[s]).1.workspaces,
                        x,
                        h,
                    );
                if s != k {
                    assert(after.sets[s] == before.sets[s]);
                    assert(others(x, h));
                }
            }
        }
    }
}

/// A refresh keeps what clients are told of windows true.
pub proof fn law_refresh_told(shell: ShellView)
    requires
        shell.wf(),
        shell.can_refresh(),
        shell.told(),
    ensures
        shell.refreshed().told(),
{
    match shell.workspaces {
        ModeView::Global(set) => {
            let others = |x: WindowId, h: WorkspaceHandle| false;
            let scene = shell.scene().shared();
            assert(told_beside(set.workspaces, shell.toplevels, others)) by {
                assert forall|x: WindowId, h: WorkspaceHandle| #[trigger]
                    shell.toplevels.workspaces.contains((x, h)) <==> shown_at(set.workspaces, x, h)
                        || others(x, h) by {}
            }
            lemma_set_refresh_told(scene, shell.workspace_amount, others);
            let after = shell.refreshed();
            assert forall|x: WindowId, h: WorkspaceHandle| #[trigger]
                after.toplevels.workspaces.contains((x, h)) <==> shown_at(
                    after.workspaces.spaces(),
                    x,
                    h,
                ) by {
                assert(!others(x, h));
            }
        },
        ModeView::OutputBound(sets) => {
            lemma_sets_refresh_told(
                shell.scene().bound(),
                shell.workspace_amount,
                sets.len() as int,
            );
        },
    }
}

/// Merging sets keeps what clients are told of windows true.
proof fn lemma_merged_told(shell: ShellView)
    requires
        shell.wf(),
        shell.workspaces is OutputBound,
        shell.can_convert(ConfigMode::Global),
        shell.told(),
    ensures
        shell.converted(ConfigMode::Global).told(),
{
    let sets = shell.workspaces->OutputBound_0;
    let all = all_spaces(sets);
    let first = shell.state.next + 1;
    let n = row_count(sets);
    let set = merged_set(sets, shell.outputs, shell.state.next);
    let after = shell.converted(ConfigMode::Global);
    lemma_rows_fit(sets);
    assert forall|r: int| 0 <= r < n implies (#[trigger] set.workspaces[r]).handle == first + r by {
        let h = (first + r) as u64;
        let line = row(sets, lead(sets), r);
        lemma_absorbed_handle(row_start(shell.outputs, h, line), line);
        lemma_outputs_keep_handles(new_workspace(h), shell.outputs);
    }
    assert forall|r: int, x: WindowId| 0 <= r < n implies (
    #[trigger] set.workspaces[r].windows().contains(x) <==> shown_in(row(sets, lead(sets), r), x)) by {
        let h = (first + r) as u64;
        let line = row(sets, lead(sets), r);
        let start = row_start(shell.outputs, h, line);
        lemma_absorbed_windows(start, line, x);
        lemma_start_layers(shell.outputs, h, line);
        lemma_empty_windows(start);
    }
    assert forall|x: WindowId, h: WorkspaceHandle| #[trigger]
        after.toplevels.workspaces.contains((x, h)) <==> shown_at(set.workspaces, x, h) by {
        assert(shell.toplevels.workspaces.contains((x, h)) <==> shown_at(all, x, h));
        if in_row(sets, first, n, x, h) {
            let r = h - first;
            assert(set.workspaces[r].handle == h);
            assert(set.workspaces[r].windows().contains(x));
            assert(shown_at(set.workspaces, x, h));
        }
        if shown_at(set.workspaces, x, h) {
            let r = choose|r: int|
                0 <= r < set.workspaces.len() && (#[trigger] set.workspaces[r]).handle == h
                    && set.workspaces[r].windows().contains(x);
            assert(h == first + r);
        }
    }
}

/// A row starts without elements.
proof fn lemma_start_layers(outputs: Seq<Output>, handle: WorkspaceHandle, s: Seq<WorkspaceView>)
    ensures
        row_start(outputs, handle, s).floating_layer.len() == 0,
        row_start(outputs, handle, s).tiling_layer.len() == 0,
{
    lemma_outputs_keep_layers(new_workspace(handle), outputs);
}

/// What is told while a set is being split: of the parts, and of what is still to come.
spec fn told_while_split(scene: SetsScene, rest: Seq<WorkspaceView>) -> bool {
    forall|x: WindowId, h: WorkspaceHandle| #[trigger]
        scene.toplevels.workspaces.contains((x, h)) <==> shown_at(all_spaces(scene.sets), x, h)
            || shown_at(rest, x, h)
}

proof fn lemma_part_told(
    scene: SetsScene,
    w: WorkspaceView,
    i: int,
    active: int,
    output: OutputId,
    rest: Seq<WorkspaceView>,
    bound: int,
)
    requires
        scene.fresh_from(bound),
        has_key(scene.sets, output),
        scene.state.next < u64::MAX,
        w.handle < bound,
        told_while_split(scene, rest) || told_while_split(scene, seq![w] + rest),
        !handles(rest).contains(w.handle),
        forall|h: WorkspaceHandle| #[trigger] handles(rest).contains(h) ==> h < bound,
    ensures
        told_while_split(scene.with_part(w, i, active, output), rest),
{
    let after = scene.with_part(w, i, active, output);
    let k = slot(scene.sets, output);
    lemma_slot(scene.sets, output);
    let new = after.sets[k].1.workspaces;
    let part = new.last();
    let old_set = scene.sets[k].1.workspaces;
    assert(new == old_set.push(part));
    assert forall|x: WindowId, h: WorkspaceHandle| #[trigger]
        after.toplevels.workspaces.contains((x, h)) <==> shown_at(all_spaces(after.sets), x, h)
            || shown_at(rest, x, h) by {
        lemma_shown_all(scene.sets, x, h);
        lemma_shown_all(after.sets, x, h);
        lemma_shown_push(old_set, part, x, h);
        lemma_shown_add(seq![w], rest, x, h);
        assert(scene.toplevels.workspaces.contains((x, h)) || !scene.toplevels.workspaces.contains(
            (x, h),
        ));
        if shown_at(seq![w], x, h) {
            let q = choose|q: int|
                0 <= q < seq![w].len() && (#[trigger] seq![w][q]).handle == h
                    && seq![w][q].windows().contains(x);
            assert(seq![w][q] == w);
        }
        if h == w.handle && w.windows().contains(x) {
            assert(seq![w][0].handle == h && seq![w][0].windows().contains(x));
        }
        // no set has the handle of the workspace that is split
        if shown_at(all_spaces(scene.sets), x, h) {
            let s = choose|s: int|
                0 <= s < scene.sets.len() && shown_at((#[trigger] scene.sets[s]).1.workspaces, x, h);
            let ws = scene.sets[s].1.workspaces;
            let q = choose|q: int|
                0 <= q < ws.len() && (#[trigger] ws[q]).handle == h && ws[q].windows().contains(x);
            assert(bound <= scene.sets[s].1.workspaces[q].handle);
            if s == k {
                assert(shown_at(after.sets[k].1.workspaces, x, h));
            } else {
                assert(after.sets[s] == scene.sets[s]);
                assert(shown_at(after.sets[s].1.workspaces, x, h));
            }
        }
        if shown_at(rest, x, h) {
            lemma_shown_has_handle(rest, x, h);
        }
        if part.handle == h && part.windows().contains(x) {
            assert(shown_at(after.sets[k].1.workspaces, x, h));
        }
        if shown_at(all_spaces(after.sets), x, h) {
            let s = choose|s: int|
                0 <= s < after.sets.len() && shown_at((#[trigger] after.sets[s]).1.workspaces, x, h);
            if s != k {
                assert(after.sets[s] == scene.sets[s]);
                assert(shown_at(scene.sets[s].1.workspaces, x, h));
            } else if shown_at(old_set, x, h) {
                assert(shown_at(scene.sets[k].1.workspaces, x, h));
            }
        }
    }
}

proof fn lemma_parts_told(
    scene: SetsScene,
    w: WorkspaceView,
    i: int,
    active: int,
    outputs: Seq<Output>,
    rest: Seq<WorkspaceView>,
    bound: int,
)
    requires
        scene.fresh_from(bound),
        scene.has_sets(outputs),
        outputs.len() > 0,
        scene.state.next + outputs.len() <= u64::MAX,
        w.handle < bound,
        told_while_split(scene, seq![w] + rest),
        !handles(rest).contains(w.handle),
        forall|h: WorkspaceHandle| #[trigger] handles(rest).contains(h) ==> h < bound,
    ensures
        told_while_split(scene.with_parts(w, i, active, outputs), rest),
    decreases outputs.len(),
{
    let before = outputs.drop_last();
    assert forall|j: int| 0 <= j < before.len() implies has_key(
        scene.sets,
        (#[trigger] before[j]).id,
    ) by {
        assert(before[j] == outputs[j]);
    }
    lemma_parts(scene, w, i, active, before, bound);
    let mid = scene.with_parts(w, i, active, before);
    assert(has_key(scene.sets, outputs[outputs.len() - 1].id));
    assert(has_key(mid.sets, outputs.last().id));
    if before.len() > 0 {
        lemma_parts_told(scene, w, i, active, before, rest, bound);
    }
    lemma_part_told(mid, w, i, active, outputs.last().id, rest, bound);
}

proof fn lemma_spaces_told(
    scene: SetsScene,
    set: SetView,
    outputs: Seq<Output>,
    n: int,
    bound: int,
)
    requires
        scene.fresh_from(bound),
        scene.has_sets(outputs),
        outputs.len() > 0,
        handles_distinct(set.workspaces),
        0 <= n <= set.workspaces.len(),
        scene.state.next + n * outputs.len() <= u64::MAX,
        forall|i: int|
            0 <= i < set.workspaces.len() ==> (#[trigger] set.workspaces[i]).handle < bound,
        told_while_split(scene, set.workspaces),
    ensures
        told_while_split(scene.with_spaces(set, outputs, n), set.workspaces.skip(n)),
    decreases n,
{
    let ws = set.workspaces;
    if n > 0 {
        let m = outputs.len() as int;
        assert(n * m == (n - 1) * m + m) by (nonlinear_arith);
        lemma_spaces_told(scene, set, outputs, n - 1, bound);
        lemma_spaces(scene, set, outputs, n - 1, bound);
        let mid = scene.with_spaces(set, outputs, n - 1);
        let w = ws[n - 1];
        let rest = ws.skip(n);
        assert(ws.skip(n - 1) =~= seq![w] + rest);
        assert forall|h: WorkspaceHandle| #[trigger] handles(rest).contains(h) implies h < bound
            && h != w.handle by {
            let q = choose|q: int| 0 <= q < rest.len() && (#[trigger] rest[q]).handle == h;
            assert(ws[n + q].handle == h);
            assert(ws[n - 1].handle != ws[n + q].handle);
        }
        lemma_parts_told(mid, w, n - 1, set.active, outputs, rest, bound);
        let parts = mid.with_parts(w, n - 1, set.active, outputs);
        let after = scene.with_spaces(set, outputs, n);
        assert(after.sets == parts.sets && after.toplevels == parts.toplevels);
        assert forall|x: WindowId, h: WorkspaceHandle| #[trigger]
            after.toplevels.workspaces.contains((x, h)) <==> shown_at(all_spaces(after.sets), x, h)
                || shown_at(rest, x, h) by {
            assert(parts.toplevels.workspaces.contains((x, h)) <==> shown_at(
                all_spaces(parts.sets),
                x,
                h,
            ) || shown_at(rest, x, h));
        }
    } else {
        assert(ws.skip(0) =~= ws);
    }
}

/// Fresh sets show nothing.
proof fn lemma_fresh_sets_empty(scene: SetsScene, outputs: Seq<Output>)
    requires
        scene.sets.len() == 0,
    ensures
        forall|s: int|
            0 <= s < scene.with_fresh_sets(outputs).sets.len() ==> (
            #[trigger] scene.with_fresh_sets(outputs).sets[s]).1.workspaces.len() == 0,
        scene.with_fresh_sets(outputs).toplevels == scene.toplevels,
    decreases outputs.len(),
{
    if outputs.len() > 0 {
        let before = outputs.drop_last();
        lemma_fresh_sets_empty(scene, before);
        let mid = scene.with_fresh_sets(before);
        let after = scene.with_fresh_sets(outputs);
        let id = outputs.last().id;
        lemma_slot(mid.sets, id);
        assert forall|s: int| 0 <= s < after.sets.len() implies (
        #[trigger] after.sets[s]).1.workspaces.len() == 0 by {
            if s < mid.sets.len() {
                assert(mid.sets[s].1.workspaces.len() == 0);
            }
        }
    }
}

/// Splitting a set keeps what clients are told of windows true.
proof fn lemma_split_told(shell: ShellView)
    requires
        shell.wf(),
        shell.workspaces is Global,
        shell.outputs.len() > 0,
        shell.can_convert(ConfigMode::OutputBound),
        shell.told(),
    ensures
        shell.converted(ConfigMode::OutputBound).told(),
{
    let set = shell.workspaces->Global_0;
    let outputs = shell.outputs;
    let nothing = SetsScene {
        sets: Seq::empty(),
        state: shell.state,
        toplevels: shell.toplevels,
    };
    let bound = shell.state.next;
    let n = set.workspaces.len() as int;
    let m = outputs.len() as int;
    assert(n * m >= 0) by (nonlinear_arith)
        requires
            n >= 0,
            m >= 0,
    ;
    lemma_fresh_sets(nothing, outputs, bound);
    lemma_fresh_sets_empty(nothing, outputs);
    let start = nothing.with_fresh_sets(outputs);
    assert forall|i: int| 0 <= i < n implies (#[trigger] set.workspaces[i]).handle < bound by {
        assert(shell.state.workspaces.dom().contains(set.workspaces[i].handle));
    }
    assert forall|x: WindowId, h: WorkspaceHandle| #[trigger]
        start.toplevels.workspaces.contains((x, h)) <==> shown_at(all_spaces(start.sets), x, h)
            || shown_at(set.workspaces, x, h) by {
        lemma_shown_all(start.sets, x, h);
        assert(shell.toplevels.workspaces.contains((x, h)) <==> shown_at(
            shell.workspaces.spaces(),
            x,
            h,
        ));
        if exists|s: int|
            0 <= s < start.sets.len() && shown_at((#[trigger] start.sets[s]).1.workspaces, x, h) {
            let s = choose|s: int|
                0 <= s < start.sets.len() && shown_at((#[trigger] start.sets[s]).1.workspaces, x, h);
            assert(start.sets[s].1.workspaces.len() == 0);
        }
    }
    lemma_spaces_told(start, set, outputs, n, bound);
    let done = start.with_spaces(set, outputs, n);
    let after = shell.converted(ConfigMode::OutputBound);
    assert(set.workspaces.skip(n) =~= Seq::<WorkspaceView>::empty());
    assert forall|x: WindowId, h: WorkspaceHandle| #[trigger]
        after.toplevels.workspaces.contains((x, h)) <==> shown_at(
            after.workspaces.spaces(),
            x,
            h,
        ) by {
        assert(done.toplevels.workspaces.contains((x, h)) <==> shown_at(
            all_spaces(done.sets),
            x,
            h,
        ) || shown_at(set.workspaces.skip(n), x, h));
    }
}

/// A change of the mode keeps what clients are told of windows true, as long as there is an
/// output to split workspaces onto.
pub proof fn law_set_mode_told(shell: ShellView, mode: ConfigMode)
    requires
        shell.wf(),
        shell.can_convert(mode),
        shell.converted(mode).can_refresh(),
        shell.told(),
        shell.workspaces is Global && mode is OutputBound ==> shell.outputs.len() > 0,
    ensures
        shell.converted(mode).refreshed().told(),
{
    lemma_converted_keeps_wf(shell, mode);
    match (shell.workspaces, mode) {
        (ModeView::OutputBound(_), ConfigMode::Global) => {
            lemma_merged_told(shell);
        },
        (ModeView::Global(_), ConfigMode::OutputBound) => {
            lemma_split_told(shell);
        },
        _ => {},
    }
    law_refresh_told(shell.converted(mode));
}

/// No workspace of a shell in order is there twice.
pub proof fn lemma_all_handles_distinct(shell: ShellView)
    requires
        shell.wf(),
    ensures
        handles_distinct(shell.workspaces.spaces()),
{
    if let ModeView::OutputBound(sets) = shell.workspaces {
        let all = all_spaces(sets);
        let scene = shell.scene().bound();
        assert forall|i: int, j: int| 0 <= i < j < all.len() implies (#[trigger] all[i]).handle != (
        #[trigger] all[j]).handle by {
            lemma_locate_inverse(sets, i);
            lemma_locate_inverse(sets, j);
            let (s, k) = locate(sets, i);
            let (r, l) = locate(sets, j);
            let a = sets[s].1.workspaces[k];
            let b = sets[r].1.workspaces[l];
            assert(sets[s].1.registered(shell.state));
            if s == r {
                if k < l {
                    assert(sets[s].1.workspaces[k].handle != sets[s].1.workspaces[l].handle);
                } else {
                    assert(k != l);
                    assert(sets[s].1.workspaces[l].handle != sets[s].1.workspaces[k].handle);
                }
            } else {
                assert(handles(sets[s].1.workspaces).contains(a.handle));
                lemma_handles_apart(scene, s, r, a.handle);
                if a.handle == b.handle {
                    assert(handles(sets[r].1.workspaces).contains(a.handle));
                }
            }
        }
    }
}

/// Where the workspace at `num` of an output stands among all of them.
proof fn lemma_space_position(mode: ModeView, num: int, output: OutputId, w: WorkspaceView) -> (pos:
    int)
    requires
        mode.space(num, output) is Some,
    ensures
        0 <= pos < mode.spaces().len(),
        mode.spaces()[pos] == mode.space(num, output)->0,
        mode.with_space(num, output, w).spaces() == mode.spaces().update(pos, w),
{
    match mode {
        ModeView::Global(set) => num,
        ModeView::OutputBound(sets) => {
            lemma_slot(sets, output);
            let s = slot(sets, output);
            lemma_locate(sets, s, num);
            lemma_all_spaces_update(sets, s, num, w);
            all_spaces(sets.take(s)).len() + num
        },
    }
}

/// Replacing a workspace by one with the same handle changes what is shown under that handle
/// alone.
proof fn lemma_shown_update(
    s: Seq<WorkspaceView>,
    i: int,
    w: WorkspaceView,
    x: WindowId,
    h: WorkspaceHandle,
)
    requires
        handles_distinct(s),
        0 <= i < s.len(),
        s[i].handle == w.handle,
    ensures
        shown_at(s.update(i, w), x, h) <==> if h == w.handle {
            w.windows().contains(x)
        } else {
            shown_at(s, x, h)
        },
        handles_distinct(s.update(i, w)),
{
    let t = s.update(i, w);
    assert(handles_distinct(t)) by {
        assert forall|p: int, q: int| 0 <= p < q < t.len() implies (#[trigger] t[p]).handle != (
        #[trigger] t[q]).handle by {
            assert(s[p].handle != s[q].handle);
        }
    }
    lemma_shown_under(t, i, x);
    if h != w.handle {
        if shown_at(t, x, h) {
            let k = choose|k: int|
                0 <= k < t.len() && (#[trigger] t[k]).handle == h && t[k].windows().contains(x);
            assert(s[k] == t[k]);
        }
        if shown_at(s, x, h) {
            let k = choose|k: int|
                0 <= k < s.len() && (#[trigger] s[k]).handle == h && s[k].windows().contains(x);
            assert(t[k] == s[k]);
        }
    }
}

/// One more element shows its windows.
proof fn lemma_with_element_windows(w: WorkspaceView, e: ElementView, floating: bool)
    ensures
        w.with_element(e, floating).windows() == w.windows().union(e.window_set()),
{
    let after = w.with_element(e, floating);
    lemma_windows_layers(w);
    lemma_windows_layers(after);
    if floating {
        lemma_windows_push(w.floating_layer, e);
    } else {
        lemma_windows_push(w.tiling_layer, e);
    }
    assert(after.windows() =~= w.windows().union(e.window_set()));
}

/// Mapping a window keeps what clients are told of windows true.
pub proof fn law_map_window_told(shell: ShellView, window: WindowId, output: OutputId)
    requires
        shell.wf(),
        shell.workspaces.has_active(output),
        shell.told(),
    ensures
        shell.with_window(window, output).told(),
{
    let w = shell.pending_windows[shell.pending_index(window)].0;
    let space = shell.workspaces.active_space(output);
    let e = element_of(w);
    let new = space.with_element(e, w.should_be_floating || shell.floating_default);
    let a = shell.workspaces.active_index(output);
    assert(shell.workspaces.space(a, output) == Some(space));
    let pos = lemma_space_position(shell.workspaces, a, output, new);
    lemma_all_handles_distinct(shell);
    lemma_with_element_windows(space, e, w.should_be_floating || shell.floating_default);
    let spaces = shell.workspaces.spaces();
    let after = shell.with_window(window, output);
    assert forall|x: WindowId, h: WorkspaceHandle| #[trigger]
        after.toplevels.workspaces.contains((x, h)) <==> shown_at(
            after.workspaces.spaces(),
            x,
            h,
        ) by {
        lemma_shown_update(spaces, pos, new, x, h);
        lemma_shown_under(spaces, pos, x);
        assert(shell.toplevels.workspaces.contains((x, h)) <==> shown_at(spaces, x, h));
        assert(e.window_set().contains(x) <==> x == w.id) by {
            assert(e.windows[0].window == w.id);
        }
    }
}

/// Whether no other element of a workspace shows a window of this one.
pub open spec fn windows_alone(w: WorkspaceView, id: ElementId) -> bool {
    forall|x: WindowId|
        w.element(id).shows(x) ==> !(#[trigger] w.without_element(id).windows().contains(x))
}

/// Taking an element off leaves the windows of the others.
proof fn lemma_without_element_windows(w: WorkspaceView, id: ElementId, x: WindowId)
    requires
        w.on_one_layer(id),
    ensures
        w.windows().contains(x) <==> w.without_element(id).windows().contains(x) || w.element(
            id,
        ).shows(x),
{
    lemma_element_layer(w, id);
    lemma_element_index(w.floating_layer, id);
    lemma_element_index(w.tiling_layer, id);
    let rest = w.without_element(id);
    lemma_windows_layers(w);
    lemma_windows_layers(rest);
    if w.floats(id) {
        lemma_windows_remove(w.floating_layer, element_index(w.floating_layer, id), x);
    } else {
        lemma_windows_remove(w.tiling_layer, element_index(w.tiling_layer, id), x);
    }
}

proof fn lemma_windows_remove(s: Seq<ElementView>, i: int, x: WindowId)
    requires
        0 <= i < s.len(),
    ensures
        windows_in(s).contains(x) <==> windows_in(s.remove(i)).contains(x) || s[i].shows(x),
{
    let t = s.remove(i);
    if windows_in(t).contains(x) {
        let k = choose|k: int| 0 <= k < t.len() && (#[trigger] t[k]).shows(x);
        let q = if k < i {
            k
        } else {
            k + 1
        };
        assert(s[q] == t[k]);
    }
    if windows_in(s).contains(x) && !s[i].shows(x) {
        let k = choose|k: int| 0 <= k < s.len() && (#[trigger] s[k]).shows(x);
        let q = if k < i {
            k
        } else {
            k - 1
        };
        assert(t[q] == s[k]);
    }
}

/// Moving an element keeps what clients are told of windows true, if no other element of its
/// workspace shows one of its windows.
pub proof fn law_move_told(shell: ShellView, id: ElementId, output: OutputId, idx: int)
    requires
        shell.wf(),
        shell.workspaces.has_active(output),
        idx != shell.workspaces.active_index(output),
        shell.workspaces.space(idx, output) is Some,
        shell.workspaces.active_space(output).on_one_layer(id),
        windows_alone(shell.workspaces.active_space(output), id),
        shell.told(),
    ensures
        shell.with_moved(id, output, idx).told(),
{
    let mode = shell.workspaces;
    let spaces = mode.spaces();
    let a = mode.active_index(output);
    let space = mode.active_space(output);
    let rest = space.without_element(id);
    let e = space.element(id);
    let taken = shell.with_taken(id, output);
    let after = shell.with_moved(id, output, idx);
    assert(mode.space(a, output) == Some(space));
    let p = lemma_space_position(mode, a, output, rest);
    lemma_other_space(mode, output, rest, idx);
    let there = taken.workspaces.space(idx, output)->0;
    let grown = there.with_element(e, space.floats(id));
    let q = lemma_space_position(taken.workspaces, idx, output, grown);
    lemma_all_handles_distinct(shell);
    lemma_with_element_windows(there, e, space.floats(id));
    let mid = taken.workspaces.spaces();
    assert(mode.set_for(output) is Some);
    assert(space.handle != there.handle) by {
        let set = mode.set_for(output)->0;
        lemma_set_registered(shell, output);
        if a < idx {
            assert(set.workspaces[a].handle != set.workspaces[idx].handle);
        } else {
            assert(set.workspaces[idx].handle != set.workspaces[a].handle);
        }
    }
    assert forall|x: WindowId, h: WorkspaceHandle| #[trigger]
        after.toplevels.workspaces.contains((x, h)) <==> shown_at(
            after.workspaces.spaces(),
            x,
            h,
        ) by {
        lemma_shown_update(spaces, p, rest, x, h);
        lemma_shown_update(mid, q, grown, x, h);
        lemma_shown_under(spaces, p, x);
        lemma_shown_under(mid, q, x);
        lemma_without_element_windows(space, id, x);
        assert(shell.toplevels.workspaces.contains((x, h)) <==> shown_at(spaces, x, h));
        assert(e.window_set().contains(x) <==> e.shows(x));
        if e.shows(x) {
            assert(!space.without_element(id).windows().contains(x));
        }
    }
}

/// Clients know the set that an output shows.
pub proof fn lemma_set_registered(shell: ShellView, output: OutputId)
    requires
        shell.wf(),
        shell.workspaces.set_for(output) is Some,
    ensures
        (shell.workspaces.set_for(output)->0).registered(shell.state),
{
    if let ModeView::OutputBound(sets) = shell.workspaces {
        lemma_slot(sets, output);
        assert(sets[slot(sets, output)].1.registered(shell.state));
    }
}

/// Workspaces that show the same windows under the same handles are told the same.
proof fn lemma_told_same(a: Seq<WorkspaceView>, b: Seq<WorkspaceView>, t: ToplevelView)
    requires
        told(a, t),
        a.len() == b.len(),
        forall|i: int|
            0 <= i < a.len() ==> (#[trigger] a[i]).handle == b[i].handle && a[i].windows()
                == b[i].windows(),
    ensures
        told(b, t),
{
    assert forall|x: WindowId, h: WorkspaceHandle| #[trigger]
        t.workspaces.contains((x, h)) <==> shown_at(b, x, h) by {
        lemma_shown_same(a, b, x, h);
        assert(t.workspaces.contains((x, h)) <==> shown_at(a, x, h));
    }
}

/// New workspaces leave nothing to tell.
pub proof fn law_new_told(first: int, n: int)
    requires
        0 <= n,
    ensures
        told(
            new_workspaces(first, n),
            ToplevelView { workspaces: Set::empty(), outputs: Set::empty() },
        ),
{
    let spaces = new_workspaces(first, n);
    let t = ToplevelView { workspaces: Set::empty(), outputs: Set::empty() };
    assert forall|x: WindowId, h: WorkspaceHandle| #[trigger]
        t.workspaces.contains((x, h)) <==> shown_at(spaces, x, h) by {
        if shown_at(spaces, x, h) {
            let k = choose|k: int|
                0 <= k < spaces.len() && (#[trigger] spaces[k]).handle == h
                    && spaces[k].windows().contains(x);
            lemma_empty_windows(spaces[k]);
        }
    }
}

/// Showing outputs where they lie keeps what clients are told of windows true.
pub proof fn law_refresh_outputs_told(shell: ShellView)
    requires
        shell.told(),
    ensures
        shell.with_outputs_placed().told(),
{
    if let ModeView::Global(set) = shell.workspaces {
        let after = set.with_outputs(shell.outputs);
        assert forall|i: int| 0 <= i < set.workspaces.len() implies (
        #[trigger] set.workspaces[i]).handle == after.workspaces[i].handle
            && set.workspaces[i].windows() == after.workspaces[i].windows() by {
            lemma_outputs_keep_handles(set.workspaces[i], shell.outputs);
            lemma_outputs_keep_layers(set.workspaces[i], shell.outputs);
        }
        lemma_told_same(set.workspaces, after.workspaces, shell.toplevels);
    }
}

/// Activating a workspace keeps what clients are told of windows true.
pub proof fn law_activate_told(shell: ShellView, output: OutputId, idx: int)
    requires
        shell.told(),
    ensures
        shell.activated(output, idx).told(),
{
    if let ModeView::OutputBound(sets) = shell.workspaces {
        lemma_slot(sets, output);
        if has_key(sets, output) {
            let k = slot(sets, output);
            let after = shell.activated(output, idx);
            let new_sets = after.workspaces->OutputBound_0;
            assert forall|i: int| 0 <= i < sets.len() implies (
            #[trigger] new_sets[i]).1.workspaces == sets[i].1.workspaces by {}
            lemma_same_spaces(sets, new_sets);
        }
    }
}

/// Sets with the same workspaces have the same workspaces in all.
proof fn lemma_same_spaces(a: Seq<(OutputId, SetView)>, b: Seq<(OutputId, SetView)>)
    requires
        a.len() == b.len(),
        forall|i: int|
            0 <= i < a.len() ==> (#[trigger] b[i]).1.workspaces == a[i].1.workspaces,
    ensures
        all_spaces(a) == all_spaces(b),
    decreases a.len(),
{
    if a.len() > 0 {
        assert forall|i: int| 0 <= i < a.len() - 1 implies (
        #[trigger] b.drop_last()[i]).1.workspaces == a.drop_last()[i].1.workspaces by {
            assert(b[i].1.workspaces == a[i].1.workspaces);
        }
        lemma_same_spaces(a.drop_last(), b.drop_last());
        assert(b[b.len() - 1].1.workspaces == a[a.len() - 1].1.workspaces);
    }
}

/// Adding an output keeps what clients are told of windows true.
pub proof fn law_add_output_told(shell: ShellView, output: Output)
    requires
        shell.told(),
    ensures
        shell.with_added(output).told(),
{
    let after = shell.with_added(output);
    match shell.workspaces {
        ModeView::Global(set) => {
            lemma_told_same(set.workspaces, after.workspaces.spaces(), shell.toplevels);
        },
        ModeView::OutputBound(sets) => {
            let new_sets = after.workspaces->OutputBound_0;
            let t = shell.toplevels;
            assert forall|x: WindowId, h: WorkspaceHandle| #[trigger]
                t.workspaces.contains((x, h)) <==> shown_at(all_spaces(new_sets), x, h) by {
                assert(t.workspaces.contains((x, h)) <==> shown_at(all_spaces(sets), x, h));
                lemma_shown_all(sets, x, h);
                lemma_shown_all(new_sets, x, h);
                lemma_slot(sets, output.id);
                assert forall|s: int| 0 <= s < sets.len() implies shown_at(
                    (#[trigger] sets[s]).1.workspaces,
                    x,
                    h,
                ) == shown_at(new_sets[s].1.workspaces, x, h) by {
                    lemma_shown_same(sets[s].1.workspaces, new_sets[s].1.workspaces, x, h);
                }
                if !has_key(sets, output.id) {
                    let new = new_sets[sets.len() as int].1.workspaces;
                    if shown_at(new, x, h) {
                        let k = choose|k: int|
                            0 <= k < new.len() && (#[trigger] new[k]).handle == h
                                && new[k].windows().contains(x);
                        lemma_empty_windows(new[k]);
                    }
                }
                if shown_at(all_spaces(sets), x, h) {
                    let s = choose|s: int|
                        0 <= s < sets.len() && shown_at((#[trigger] sets[s]).1.workspaces, x, h);
                    assert(shown_at(new_sets[s].1.workspaces, x, h));
                }
                if shown_at(all_spaces(new_sets), x, h) {
                    let s = choose|s: int|
                        0 <= s < new_sets.len() && shown_at(
                            (#[trigger] new_sets[s]).1.workspaces,
                            x,
                            h,
                        );
                    assert(s < sets.len());
                    assert(shown_at(sets[s].1.workspaces, x, h));
                }
            }
        },
    }
}

/// Whether nothing is on the workspaces of an output.
pub open spec fn shows_nothing(mode: ModeView, output: OutputId) -> bool {
    forall|i: int|
        0 <= i < mode.spaces_for(output).len() ==> !(
        #[trigger] mode.spaces_for(output)[i]).has_windows()
}

/// Removing an output keeps what clients are told of windows true, if all outputs share a
/// set, or if the output shows no windows.
pub proof fn law_remove_output_told(shell: ShellView, output: OutputId)
    requires
        shell.wf(),
        shell.can_remove(output),
        shell.workspaces is Global || shows_nothing(shell.workspaces, output),
        shell.told(),
    ensures
        shell.with_removed(output).told(),
{
    match shell.workspaces {
        ModeView::Global(set) => {
            lemma_told_same(
                set.workspaces,
                shell.with_removed(output).workspaces.spaces(),
                shell.toplevels,
            );
        },
        ModeView::OutputBound(sets) => {
            if has_key(sets, output) {
                let left = shell.without_set(output);
                let others = left.workspaces->OutputBound_0;
                let r = slot(sets, output);
                let t = shell.toplevels;
                lemma_slot(sets, output);
                let set = sets[r].1;
                assert(shell.workspaces.spaces_for(output) == set.workspaces);
                assert forall|x: WindowId, h: WorkspaceHandle| #[trigger]
                    t.workspaces.contains((x, h)) <==> shown_at(all_spaces(others), x, h) by {
                    assert(t.workspaces.contains((x, h)) <==> shown_at(all_spaces(sets), x, h));
                    lemma_shown_without(sets, r, x, h);
                }
                if shell.hands_over(output) {
                    let mid = shell.handed_over(output);
                    let new_sets = mid.workspaces->OutputBound_0;
                    let to = shell.other_outputs(output)[0].id;
                    lemma_handed_over_keeps_wf(shell, output);
                    lemma_slot(others, to);
                    let k = slot(others, to);
                    let moved = moved_spaces(set.workspaces, shell.state.next, output, to);
                    assert forall|x: WindowId, h: WorkspaceHandle| #[trigger]
                        t.workspaces.contains((x, h)) <==> shown_at(all_spaces(new_sets), x, h) by {
                        assert(t.workspaces.contains((x, h)) <==> shown_at(
                            all_spaces(others),
                            x,
                            h,
                        ));
                        lemma_shown_all(others, x, h);
                        lemma_shown_all(new_sets, x, h);
                        lemma_shown_add(others[k].1.workspaces, moved, x, h);
                        if shown_at(moved, x, h) {
                            let q = choose|q: int|
                                0 <= q < moved.len() && (#[trigger] moved[q]).handle == h
                                    && moved[q].windows().contains(x);
                            assert(set.workspaces[q].windows().contains(x));
                            assert(set.workspaces[q].has_windows());
                        }
                        if shown_at(all_spaces(others), x, h) {
                            let s = choose|s: int|
                                0 <= s < others.len() && shown_at(
                                    (#[trigger] others[s]).1.workspaces,
                                    x,
                                    h,
                                );
                            assert(shown_at(new_sets[s].1.workspaces, x, h));
                        }
                        if shown_at(all_spaces(new_sets), x, h) {
                            let s = choose|s: int|
                                0 <= s < new_sets.len() && shown_at(
                                    (#[trigger] new_sets[s]).1.workspaces,
                                    x,
                                    h,
                                );
                            assert(shown_at(others[s].1.workspaces, x, h));
                        }
                    }
                    law_refresh_told(mid);
                }
            }
        },
    }
}

/// A set without windows can go unnoticed.
proof fn lemma_shown_without(
    sets: Seq<(OutputId, SetView)>,
    r: int,
    x: WindowId,
    h: WorkspaceHandle,
)
    requires
        0 <= r < sets.len(),
        forall|i: int|
            0 <= i < sets[r].1.workspaces.len() ==> !(
            #[trigger] sets[r].1.workspaces[i]).has_windows(),
    ensures
        shown_at(all_spaces(sets), x, h) <==> shown_at(all_spaces(sets.remove(r)), x, h),
{
    let others = sets.remove(r);
    lemma_shown_all(sets, x, h);
    lemma_shown_all(others, x, h);
    if shown_at(all_spaces(sets), x, h) {
        let s = choose|s: int|
            0 <= s < sets.len() && shown_at((#[trigger] sets[s]).1.workspaces, x, h);
        if s == r {
            let ws = sets[r].1.workspaces;
            let q = choose|q: int|
                0 <= q < ws.len() && (#[trigger] ws[q]).handle == h && ws[q].windows().contains(x);
            assert(sets[r].1.workspaces[q].has_windows());
        } else {
            let k = if s < r {
                s
            } else {
                s - 1
            };
            assert(others[k] == sets[s]);
            assert(shown_at(others[k].1.workspaces, x, h));
        }
    }
    if shown_at(all_spaces(others), x, h) {
        let k = choose|k: int|
            0 <= k < others.len() && shown_at((#[trigger] others[k]).1.workspaces, x, h);
        let s = if k < r {
            k
        } else {
            k + 1
        };
        assert(sets[s] == others[k]);
        assert(shown_at(sets[s].1.workspaces, x, h));
    }
}

} // verus!
