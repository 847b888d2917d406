//! What changing between shared workspaces and workspaces of each output's own does, workspace
//! by workspace and entry by entry.
use crate::config::WorkspaceMode as ConfigMode;
use crate::effects::{entry_started, law_with_set, same_waiting};
use crate::element::ElementView;
use crate::fields::{
    joined, law_absorbed_order, law_started_entry, law_workspace_absorbed, law_workspace_outputs,
    law_workspace_output_place,
};
use crate::gather::{
    actives_within, depth, groups_of, lead, lemma_row_has, lemma_row_source, lemma_rows_fit, row,
    row_count, row_start, some_tiled,
};
use crate::geometry::Point;
use crate::mode::{all_spaces, lemma_locate, lemma_locate_inverse, ModeView};
use crate::output::Output;
use crate::protocol::{OutputId, StateView, WorkspaceGroupHandle, WorkspaceHandle};
use crate::scene::SetsScene;
use crate::set::{handles, shown_at, shown_in, started_entry, SetView};
use crate::shell::ShellView;
use crate::split::{
    can_split, can_split_all, elements_on, law_split_parts, outputs_distinct, seen_from,
    split_space,
};
use crate::table::{has_key, keys_distinct, lemma_slot, lemma_slot_at, slot};
use crate::toplevel::WindowId;
use crate::workspace::{new_workspace, WorkspaceView};
use vstd::prelude::*;

verus! {

/// The active workspaces of several sets come to lie at the greatest of their positions, and
/// there are as many behind it as behind any of them.
pub proof fn law_lead(sets: Seq<(OutputId, SetView)>, i: int)
    requires
        actives_within(sets),
    ensures
        0 <= i < sets.len() ==> sets[i].1.active <= lead(sets) && sets[i].1.workspaces.len()
            - sets[i].1.active <= depth(sets),
        lead(sets) == 0 || exists|k: int|
            0 <= k < sets.len() && (#[trigger] sets[k]).1.active == lead(sets),
        depth(sets) == 0 || exists|k: int|
            0 <= k < sets.len() && (#[trigger] sets[k]).1.workspaces.len() - sets[k].1.active
                == depth(sets),
        row_count(sets) == lead(sets) + depth(sets),
    decreases sets.len(),
{
    lemma_rows_fit(sets);
    if 0 <= i < sets.len() {
        assert(sets[i].1.active <= lead(sets));
    }
    if sets.len() > 0 {
        let before = sets.drop_last();
        let n = sets.len() - 1;
        assert(actives_within(before)) by {
            assert forall|k: int| 0 <= k < before.len() implies 0 <= (
            #[trigger] before[k]).1.active <= before[k].1.workspaces.len() by {
                assert(before[k] == sets[k]);
            }
        }
        law_lead(before, 0);
        if lead(sets) != 0 {
            if lead(sets) == sets[n].1.active {
                assert(sets[n].1.active == lead(sets));
            } else {
                let k = choose|k: int|
                    0 <= k < before.len() && (#[trigger] before[k]).1.active == lead(before);
                assert(sets[k].1.active == lead(sets));
            }
        }
        if depth(sets) != 0 {
            if depth(sets) == sets[n].1.workspaces.len() - sets[n].1.active {
                assert(sets[n].1.workspaces.len() - sets[n].1.active == depth(sets));
            } else {
                let k = choose|k: int|
                    0 <= k < before.len() && (#[trigger] before[k]).1.workspaces.len()
                        - before[k].1.active == depth(before);
                assert(sets[k].1.workspaces.len() - sets[k].1.active == depth(sets));
            }
        }
    }
}

/// What comes to lie on one place are the workspaces as far from their active ones as the place
/// is from the active one of all, in the order of the sets.
pub proof fn law_row(
    a: Seq<(OutputId, SetView)>,
    b: Seq<(OutputId, SetView)>,
    one: (OutputId, SetView),
    l: int,
    r: int,
)
    ensures
        row(a + b, l, r) == row(a, l, r) + row(b, l, r),
        0 <= one.1.active + (r - l) < one.1.workspaces.len() ==> row(seq![one], l, r)
            == seq![one.1.workspaces[one.1.active + (r - l)]],
        !(0 <= one.1.active + (r - l) < one.1.workspaces.len()) ==> row(seq![one], l, r).len()
            == 0,
    decreases b.len(),
{
    let s = seq![one];
    assert(s.drop_last() =~= Seq::<(OutputId, SetView)>::empty());
    assert(row(s.drop_last(), l, r) =~= Seq::<WorkspaceView>::empty());
    if 0 <= one.1.active + (r - l) < one.1.workspaces.len() {
        assert(row(s, l, r) =~= seq![one.1.workspaces[one.1.active + (r - l)]]);
    }
    if b.len() == 0 {
        assert(a + b =~= a);
    } else {
        law_row(a, b.drop_last(), one, l, r);
        assert((a + b).drop_last() =~= a + b.drop_last());
        assert((a + b).last() == b.last());
    }
    assert(row(a + b, l, r) =~= row(a, l, r) + row(b, l, r));
}

/// Merging the sets of the outputs: the workspaces that come to lie on one place become one,
/// with their elements in their order. It is tiled if one of them is. It is shown on every
/// output, where that lies.
pub proof fn law_merge(shell: ShellView, r: int, o: OutputId)
    requires
        shell.workspaces is OutputBound,
        shell.can_convert(ConfigMode::Global),
        0 <= shell.state.next,
    ensures
        ({
            let sets = shell.workspaces->OutputBound_0;
            let after = shell.converted(ConfigMode::Global);
            let set = after.workspaces->Global_0;
            let w = set.workspaces[r];
            let l = lead(sets);
            let line = row(sets, l, r);
            &&& after.workspaces is Global
            &&& set.group == shell.state.next
            &&& set.workspaces.len() == lead(sets) + depth(sets)
            &&& set.workspaces.len() > lead(sets) ==> set.active == lead(sets)
            &&& set.workspaces.len() <= lead(sets) ==> set.active == 0
            &&& 0 <= r < set.workspaces.len() ==> {
                &&& w.handle == shell.state.next + 1 + r
                &&& w.tiling_enabled <==> exists|s: int|
                    0 <= s < sets.len() && 0 <= r - l + (#[trigger] sets[s]).1.active
                        < sets[s].1.workspaces.len() && sets[s].1.workspaces[r - l
                        + sets[s].1.active].tiling_enabled
                &&& w.tiling_layer == joined(line, false)
                &&& w.floating_layer == joined(line, true)
                &&& w.focus_stack.len() == 0
                &&& !w.needs_refresh
                &&& w.outputs.dom().contains(o) <==> exists|j: int|
                    0 <= j < shell.outputs.len() && (#[trigger] shell.outputs[j]).id == o
                &&& w.fullscreen.dom().contains(o) <==> exists|k: int|
                    0 <= k < line.len() && (#[trigger] line[k]).fullscreen.dom().contains(o)
            }
        }),
{
    let sets = shell.workspaces->OutputBound_0;
    let l = lead(sets);
    let line = row(sets, l, r);
    lemma_rows_fit(sets);
    if 0 <= r < row_count(sets) {
        let h = (shell.state.next + 1 + r) as u64;
        let start = row_start(shell.outputs, h, line);
        law_absorbed_order(start, line);
        law_workspace_absorbed(start, line, o);
        law_workspace_outputs(new_workspace(h), shell.outputs, o);
        assert(start.tiling_layer + joined(line, false) =~= joined(line, false));
        assert(start.floating_layer + joined(line, true) =~= joined(line, true));
        if some_tiled(line) {
            let k = choose|k: int| 0 <= k < line.len() && (#[trigger] line[k]).tiling_enabled;
            let s = lemma_row_source(sets, l, r, k);
            assert(sets[s].1.workspaces[r - l + sets[s].1.active].tiling_enabled);
        }
        if exists|s: int|
            0 <= s < sets.len() && 0 <= r - l + (#[trigger] sets[s]).1.active
                < sets[s].1.workspaces.len() && sets[s].1.workspaces[r - l
                + sets[s].1.active].tiling_enabled {
            let s = choose|s: int|
                0 <= s < sets.len() && 0 <= r - l + (#[trigger] sets[s]).1.active
                    < sets[s].1.workspaces.len() && sets[s].1.workspaces[r - l
                    + sets[s].1.active].tiling_enabled;
            let k = lemma_row_has(sets, l, r, s);
            assert(line[k].tiling_enabled);
        }
    }
}

/// Where the outputs lie on the workspaces that sets were merged into.
pub proof fn law_merge_outputs(shell: ShellView, r: int, j: int)
    requires
        shell.workspaces is OutputBound,
        shell.can_convert(ConfigMode::Global),
        0 <= r < (shell.converted(ConfigMode::Global).workspaces->Global_0).workspaces.len(),
        0 <= j < shell.outputs.len(),
        forall|k: int|
            j < k < shell.outputs.len() ==> (#[trigger] shell.outputs[k]).id
                != shell.outputs[j].id,
    ensures
        (shell.converted(ConfigMode::Global).workspaces->Global_0).workspaces[r].outputs[
            shell.outputs[j].id] == shell.outputs[j].geometry.loc,
{
    let sets = shell.workspaces->OutputBound_0;
    let line = row(sets, lead(sets), r);
    let h = (shell.state.next + 1 + r) as u64;
    law_workspace_absorbed(row_start(shell.outputs, h, line), line, 0);
    law_workspace_output_place(new_workspace(h), shell.outputs, j);
}

/// What is told when sets are merged: their groups and workspaces are withdrawn, and one group
/// is announced with the workspaces that they were merged into, by place. Everything else
/// stays.
pub proof fn law_merge_entries(
    shell: ShellView,
    g: WorkspaceGroupHandle,
    h: WorkspaceHandle,
)
    requires
        shell.wf(),
        shell.workspaces is OutputBound,
        shell.can_convert(ConfigMode::Global),
    ensures
        ({
            let sets = shell.workspaces->OutputBound_0;
            let after = shell.converted(ConfigMode::Global);
            let next = shell.state.next;
            let n = (after.workspaces->Global_0).workspaces.len();
            let new = next + 1 <= h < next + 1 + n;
            let group_goes = exists|s: int|
                0 <= s < sets.len() && (#[trigger] sets[s]).1.group == g;
            let goes = exists|s: int, i: int|
                0 <= s < sets.len() && 0 <= i < sets[s].1.workspaces.len() && (
                #[trigger] sets[s].1.workspaces[i]).handle == h;
            &&& same_waiting(after, shell)
            &&& after.outputs == shell.outputs
            &&& after.toplevels.outputs == shell.toplevels.outputs
            &&& after.state.next == next + 1 + n
            &&& after.state.groups.dom().contains(g) <==> g == next || (
            shell.state.groups.dom().contains(g) && !group_goes)
            &&& g == next ==> after.state.groups[g] == Set::<OutputId>::empty()
            &&& shell.state.groups.dom().contains(g) && !group_goes ==> after.state.groups[g]
                == shell.state.groups[g]
            &&& after.state.workspaces.dom().contains(h) <==> new || (
            shell.state.workspaces.dom().contains(h) && !goes)
            &&& new ==> entry_started(after.state, h, next as u64, h - next - 1, false)
            &&& shell.state.workspaces.dom().contains(h) && !goes ==> after.state.workspaces[h]
                == shell.state.workspaces[h]
        }),
{
    let sets = shell.workspaces->OutputBound_0;
    let after = shell.converted(ConfigMode::Global);
    let next = shell.state.next;
    let all = all_spaces(sets);
    lemma_rows_fit(sets);
    let n = row_count(sets);
    if next + 1 <= h < next + 1 + n {
        law_started_entry(next as u64, (h - next - 1) as u8, false);
    }
    if groups_of(sets).contains(next as u64) {
        let s = choose|s: int| 0 <= s < sets.len() && (#[trigger] sets[s]).1.group == next as u64;
        assert(sets[s].1.registered(shell.state));
    }
    if handles(all).contains(h) {
        let k = choose|k: int| 0 <= k < all.len() && (#[trigger] all[k]).handle == h;
        lemma_locate_inverse(sets, k);
    }
    if exists|s: int, i: int|
        0 <= s < sets.len() && 0 <= i < sets[s].1.workspaces.len() && (
        #[trigger] sets[s].1.workspaces[i]).handle == h {
        let (s, i) = choose|s: int, i: int|
            0 <= s < sets.len() && 0 <= i < sets[s].1.workspaces.len() && (
            #[trigger] sets[s].1.workspaces[i]).handle == h;
        lemma_locate(sets, s, i);
        assert(all[all_spaces(sets.take(s)).len() + i].handle == h);
    }
    if exists|s: int| 0 <= s < sets.len() && (#[trigger] sets[s]).1.group == g {
        assert(groups_of(sets).contains(g));
    }
}

/// A window is told to be on the workspace that its workspace was merged into, and no longer on
/// its old one. What is told of windows that no workspace shows stays.
pub proof fn law_merge_windows(shell: ShellView, x: WindowId, h: WorkspaceHandle, r: int)
    requires
        shell.wf(),
        shell.workspaces is OutputBound,
        shell.can_convert(ConfigMode::Global),
    ensures
        ({
            let sets = shell.workspaces->OutputBound_0;
            let after = shell.converted(ConfigMode::Global);
            let l = lead(sets);
            let shown_here = exists|s: int, i: int|
                0 <= s < sets.len() && 0 <= i < sets[s].1.workspaces.len() && (
                #[trigger] sets[s].1.workspaces[i]).handle == h
                    && sets[s].1.workspaces[i].windows().contains(x);
            let shown_on = exists|s: int|
                0 <= s < sets.len() && 0 <= r - l + (#[trigger] sets[s]).1.active
                    < sets[s].1.workspaces.len() && sets[s].1.workspaces[r - l
                    + sets[s].1.active].windows().contains(x);
            &&& h == shell.state.next + 1 + r && 0 <= r < (
            after.workspaces->Global_0).workspaces.len() ==> (after.toplevels.workspaces.contains(
                (x, h),
            ) <==> shown_on || shell.toplevels.workspaces.contains((x, h)))
            &&& h > shell.state.next + (after.workspaces->Global_0).workspaces.len() ==> (
            after.toplevels.workspaces.contains((x, h)) <==> shell.toplevels.workspaces.contains(
                (x, h),
            ))
            &&& h <= shell.state.next ==> (after.toplevels.workspaces.contains((x, h))
                <==> shell.toplevels.workspaces.contains((x, h)) && !shown_here)
        }),
{
    let sets = shell.workspaces->OutputBound_0;
    let after = shell.converted(ConfigMode::Global);
    let l = lead(sets);
    let all = all_spaces(sets);
    let line = row(sets, l, r);
    lemma_rows_fit(sets);
    if shown_at(all, x, h) {
        let k = choose|k: int|
            0 <= k < all.len() && (#[trigger] all[k]).handle == h && all[k].windows().contains(x);
        lemma_locate_inverse(sets, k);
        let (s, i) = crate::mode::locate(sets, k);
        assert(sets[s].1.workspaces[i].handle == h);
        assert(sets[s].1.registered(shell.state));
        assert(shell.state.workspaces.dom().contains(sets[s].1.workspaces[i].handle));
    }
    if exists|s: int, i: int|
        0 <= s < sets.len() && 0 <= i < sets[s].1.workspaces.len() && (
        #[trigger] sets[s].1.workspaces[i]).handle == h
            && sets[s].1.workspaces[i].windows().contains(x) {
        let (s, i) = choose|s: int, i: int|
            0 <= s < sets.len() && 0 <= i < sets[s].1.workspaces.len() && (
            #[trigger] sets[s].1.workspaces[i]).handle == h
                && sets[s].1.workspaces[i].windows().contains(x);
        lemma_locate(sets, s, i);
        let k = all_spaces(sets.take(s)).len() + i;
        assert(all[k].handle == h);
        assert(shown_at(all, x, h));
    }
    if h == shell.state.next + 1 + r {
        assert(h - (shell.state.next + 1) == r);
        if shown_in(line, x) {
            let k = choose|k: int| 0 <= k < line.len() && (#[trigger] line[k]).windows().contains(x);
            let s = lemma_row_source(sets, l, r, k);
            assert(sets[s].1.workspaces[r - l + sets[s].1.active].windows().contains(x));
        }
        if exists|s: int|
            0 <= s < sets.len() && 0 <= r - l + (#[trigger] sets[s]).1.active
                < sets[s].1.workspaces.len() && sets[s].1.workspaces[r - l
                + sets[s].1.active].windows().contains(x) {
            let s = choose|s: int|
                0 <= s < sets.len() && 0 <= r - l + (#[trigger] sets[s]).1.active
                    < sets[s].1.workspaces.len() && sets[s].1.workspaces[r - l
                    + sets[s].1.active].windows().contains(x);
            let k = lemma_row_has(sets, l, r, s);
            assert(line[k].windows().contains(x));
        }
    }
}

/// The elements that an output shows most of, in their order.
pub proof fn law_elements_on(s: Seq<ElementView>, e: ElementView, output: OutputId)
    ensures
        elements_on(Seq::<ElementView>::empty(), output).len() == 0,
        e.main_output == Some(output) ==> elements_on(s.push(e), output) == elements_on(
            s,
            output,
        ).push(e),
        e.main_output != Some(output) ==> elements_on(s.push(e), output) == elements_on(s, output),
{
    reveal(Seq::filter);
    assert(s.push(e).drop_last() =~= s);
}

/// Elements as seen from a place lie by as much nearer, and are otherwise the same.
pub proof fn law_seen_from(s: Seq<ElementView>, origin: Point, i: int)
    requires
        0 <= i < s.len(),
    ensures
        ({
            let e = s[i];
            let f = seen_from(s, origin)[i];
            &&& seen_from(s, origin).len() == s.len()
            &&& f.id == e.id && f.windows == e.windows && f.surfaces == e.surfaces
            &&& f.outputs == e.outputs && f.main_output == e.main_output
            &&& i32::MIN <= e.location.x - origin.x <= i32::MAX ==> f.location.x == e.location.x
                - origin.x
            &&& i32::MIN <= e.location.y - origin.y <= i32::MAX ==> f.location.y == e.location.y
                - origin.y
        }),
{
}

/// Splitting shared workspaces: each output has a set of its own with a part of every
/// workspace, in their order, and with the same position active. A part is tiled just if the
/// workspace is. It has the elements that the output shows most of, on their layers, and the
/// window that fills the output. It is shown on that output alone, at its origin.
pub proof fn law_split(shell: ShellView, i: int, j: int, o: OutputId)
    requires
        shell.workspaces is Global,
        outputs_distinct(shell.outputs),
        0 <= j < shell.outputs.len(),
        0 <= i < (shell.workspaces->Global_0).workspaces.len(),
    ensures
        ({
            let set = shell.workspaces->Global_0;
            let after = shell.converted(ConfigMode::OutputBound);
            let sets = after.workspaces->OutputBound_0;
            let id = shell.outputs[j].id;
            let w = set.workspaces[i];
            let part = sets[j].1.workspaces[i];
            &&& after.workspaces is OutputBound
            &&& sets.len() == shell.outputs.len()
            &&& sets[j].0 == id
            &&& sets[j].1.active == set.active
            &&& sets[j].1.workspaces.len() == set.workspaces.len()
            &&& part.tiling_enabled == w.tiling_enabled
            &&& part.tiling_layer == elements_on(w.tiling_layer, id)
            &&& part.floating_layer == seen_from(
                elements_on(w.floating_layer, id),
                w.outputs[id],
            )
            &&& part.needs_refresh
            &&& part.focus_stack.len() == 0
            &&& part.outputs == Map::<OutputId, Point>::empty().insert(id, Point { x: 0, y: 0 })
            &&& part.fullscreen.dom().contains(o) <==> o == id && w.fullscreen.dom().contains(o)
            &&& w.fullscreen.dom().contains(id) ==> part.fullscreen[id] == w.fullscreen[id]
            &&& after.workspaces.set_for(id) == Some(sets[j].1)
        }),
{
    let set = shell.workspaces->Global_0;
    let start = SetsScene { sets: Seq::empty(), state: shell.state, toplevels: shell.toplevels };
    let done = start.with_set_split(set, shell.outputs);
    law_split_parts(start, set, shell.outputs, j);
    let part = done.sets[j].1.workspaces[i];
    assert(part == split_space(set.workspaces[i], shell.outputs[j].id, part.handle));
    assert(keys_distinct(done.sets)) by {
        assert forall|a: int, b: int| 0 <= a < b < done.sets.len() implies (
        #[trigger] done.sets[a]).0 != (#[trigger] done.sets[b]).0 by {
            law_split_parts(start, set, shell.outputs, a);
            law_split_parts(start, set, shell.outputs, b);
        }
    }
    lemma_slot_at(done.sets, j);
}

/// How far a split has come: `n` workspaces are split, and of the next one `k` parts.
spec fn numbered(scene: SetsScene, outputs: Seq<Output>, base: int, n: int, k: int) -> bool {
    let m = outputs.len() as int;
    &&& scene.sets.len() == m
    &&& scene.state.next == base + m + n * m + k
    &&& forall|j: int|
        0 <= j < m ==> {
            &&& (#[trigger] scene.sets[j]).0 == outputs[j].id
            &&& scene.sets[j].1.group == base + j
            &&& scene.sets[j].1.workspaces.len() == (if j < k {
                n + 1
            } else {
                n
            })
            &&& scene.state.groups.dom().contains((base + j) as u64)
            &&& scene.state.groups[(base + j) as u64] == Set::<OutputId>::empty()
        }
    &&& forall|j: int, i: int|
        0 <= j < m && 0 <= i < scene.sets[j].1.workspaces.len() ==> {
            let w = #[trigger] scene.sets[j].1.workspaces[i];
            &&& base <= w.handle < scene.state.next
            &&& w.handle == base + m + i * m + j
            &&& scene.state.workspaces.dom().contains(w.handle)
            &&& scene.state.workspaces[w.handle] == started_entry(
                (base + j) as u64,
                i as u8,
                false,
            )
        }
}

/// What a split leaves of what was told before.
spec fn left_alone(
    before: StateView,
    after: StateView,
    base: int,
    gone: Seq<WorkspaceView>,
    g: WorkspaceGroupHandle,
    h: WorkspaceHandle,
) -> bool {
    &&& g < base ==> (after.groups.dom().contains(g) <==> before.groups.dom().contains(g))
        && after.groups[g] == before.groups[g]
    &&& h < base ==> (after.workspaces.dom().contains(h) <==> before.workspaces.dom().contains(h)
        && !handles(gone).contains(h))
    &&& h < base && !handles(gone).contains(h) && before.workspaces.dom().contains(h)
        ==> after.workspaces[h] == before.workspaces[h]
}

proof fn lemma_fresh_numbered(
    scene: SetsScene,
    outputs: Seq<Output>,
    g: WorkspaceGroupHandle,
    h: WorkspaceHandle,
)
    requires
        scene.sets.len() == 0,
        0 <= scene.state.next,
        scene.state.next + outputs.len() <= u64::MAX,
        outputs_distinct(outputs),
    ensures
        numbered(scene.with_fresh_sets(outputs), outputs, scene.state.next, 0, 0),
        left_alone(
            scene.state,
            scene.with_fresh_sets(outputs).state,
            scene.state.next,
            Seq::empty(),
            g,
            h,
        ),
    decreases outputs.len(),
{
    let base = scene.state.next;
    if outputs.len() > 0 {
        let before = outputs.drop_last();
        let n = outputs.len() - 1;
        assert forall|i: int, j: int| 0 <= i < j < before.len() implies (#[trigger] before[i]).id
            != (#[trigger] before[j]).id by {
            assert(outputs[i].id != outputs[j].id);
        }
        lemma_fresh_numbered(scene, before, g, h);
        let mid = scene.with_fresh_sets(before);
        let after = scene.with_fresh_sets(outputs);
        assert(!has_key(mid.sets, outputs.last().id)) by {
            if has_key(mid.sets, outputs.last().id) {
                let j = choose|j: int|
                    0 <= j < mid.sets.len() && (#[trigger] mid.sets[j]).0 == outputs.last().id;
                assert(outputs[j].id != outputs[n].id);
                assert(before[j] == outputs[j]);
            }
        }
        assert forall|j: int| 0 <= j < outputs.len() implies {
            &&& (#[trigger] after.sets[j]).0 == outputs[j].id
            &&& after.sets[j].1.group == base + j
            &&& after.sets[j].1.workspaces.len() == 0
            &&& after.state.groups.dom().contains((base + j) as u64)
            &&& after.state.groups[(base + j) as u64] == Set::<OutputId>::empty()
        } by {
            if j < n {
                assert(after.sets[j] == mid.sets[j]);
                assert(before[j] == outputs[j]);
            }
        }
    }
}

proof fn lemma_parts_numbered(
    scene: SetsScene,
    w: WorkspaceView,
    active: int,
    outputs: Seq<Output>,
    base: int,
    n: int,
    k: int,
    g: WorkspaceGroupHandle,
    h: WorkspaceHandle,
)
    requires
        numbered(scene, outputs, base, n, 0),
        outputs_distinct(outputs),
        0 <= base,
        0 <= n,
        0 <= k <= outputs.len(),
        base + outputs.len() + n * outputs.len() + k <= u64::MAX,
    ensures
        numbered(
            scene.with_parts(w, n, active, outputs.take(k)),
            outputs,
            base,
            n,
            k,
        ),
        left_alone(
            scene.state,
            scene.with_parts(w, n, active, outputs.take(k)).state,
            base,
            Seq::empty(),
            g,
            h,
        ),
    decreases k,
{
    let m = outputs.len() as int;
    assert(0 <= n * m) by (nonlinear_arith)
        requires
            0 <= n,
            0 <= m,
    ;
    if k > 0 {
        lemma_parts_numbered(scene, w, active, outputs, base, n, k - 1, g, h);
        assert(outputs.take(k).drop_last() =~= outputs.take(k - 1));
        let mid = scene.with_parts(w, n, active, outputs.take(k - 1));
        let after = scene.with_parts(w, n, active, outputs.take(k));
        assert(keys_distinct(mid.sets)) by {
            assert forall|i: int, j: int| 0 <= i < j < mid.sets.len() implies (
            #[trigger] mid.sets[i]).0 != (#[trigger] mid.sets[j]).0 by {
                assert(outputs[i].id != outputs[j].id);
            }
        }
        assert(mid.sets[k - 1].0 == outputs[k - 1].id);
        lemma_slot_at(mid.sets, k - 1);
        assert(outputs.take(k).last() == outputs[k - 1]);
        assert(after == mid.with_part(w, n, active, outputs[k - 1].id));
        assert forall|j: int| 0 <= j < m implies {
            &&& (#[trigger] after.sets[j]).0 == outputs[j].id
            &&& after.sets[j].1.group == base + j
            &&& after.sets[j].1.workspaces.len() == (if j < k {
                n + 1
            } else {
                n
            })
            &&& after.state.groups.dom().contains((base + j) as u64)
            &&& after.state.groups[(base + j) as u64] == Set::<OutputId>::empty()
        } by {
            assert(mid.sets[j].0 == outputs[j].id);
        }
        assert forall|j: int, i: int|
            0 <= j < m && 0 <= i < after.sets[j].1.workspaces.len() implies {
            let v = #[trigger] after.sets[j].1.workspaces[i];
            &&& base <= v.handle < after.state.next
            &&& v.handle == base + m + i * m + j
            &&& after.state.workspaces.dom().contains(v.handle)
            &&& after.state.workspaces[v.handle] == started_entry((base + j) as u64, i as u8, false)
        } by {
            assert(mid.sets[j].0 == outputs[j].id);
            if j == k - 1 && i == n {
                assert(after.sets[j].1.workspaces[i].handle == mid.state.next);
            } else {
                assert(after.sets[j].1.workspaces[i] == mid.sets[j].1.workspaces[i]);
            }
        }
    } else {
        assert(outputs.take(0) =~= Seq::<Output>::empty());
    }
}

proof fn lemma_spaces_numbered(
    scene: SetsScene,
    set: SetView,
    outputs: Seq<Output>,
    base: int,
    n: int,
    g: WorkspaceGroupHandle,
    h: WorkspaceHandle,
)
    requires
        numbered(scene, outputs, base, 0, 0),
        outputs_distinct(outputs),
        0 <= base,
        0 <= n <= set.workspaces.len(),
        base + outputs.len() + n * outputs.len() <= u64::MAX,
        forall|i: int| 0 <= i < set.workspaces.len() ==> (#[trigger] set.workspaces[i]).handle < base,
    ensures
        numbered(scene.with_spaces(set, outputs, n), outputs, base, n, 0),
        left_alone(
            scene.state,
            scene.with_spaces(set, outputs, n).state,
            base,
            set.workspaces.take(n),
            g,
            h,
        ),
    decreases n,
{
    let m = outputs.len() as int;
    if n > 0 {
        assert((n - 1) * m + m == n * m) by (nonlinear_arith);
        lemma_spaces_numbered(scene, set, outputs, base, n - 1, g, h);
        let mid = scene.with_spaces(set, outputs, n - 1);
        let w = set.workspaces[n - 1];
        lemma_parts_numbered(mid, w, set.active, outputs, base, n - 1, m, g, h);
        assert(outputs.take(m) =~= outputs);
        let parts = mid.with_parts(w, n - 1, set.active, outputs);
        let after = scene.with_spaces(set, outputs, n);
        assert(after.sets == parts.sets);
        assert forall|j: int| 0 <= j < m implies {
            &&& (#[trigger] after.sets[j]).0 == outputs[j].id
            &&& after.sets[j].1.group == base + j
            &&& after.sets[j].1.workspaces.len() == n
            &&& after.state.groups.dom().contains((base + j) as u64)
            &&& after.state.groups[(base + j) as u64] == Set::<OutputId>::empty()
        } by {
            assert(parts.sets[j].0 == outputs[j].id);
        }
        assert forall|j: int, i: int|
            0 <= j < m && 0 <= i < after.sets[j].1.workspaces.len() implies {
            let v = #[trigger] after.sets[j].1.workspaces[i];
            &&& base <= v.handle < after.state.next
            &&& v.handle == base + m + i * m + j
            &&& after.state.workspaces.dom().contains(v.handle)
            &&& after.state.workspaces[v.handle] == started_entry((base + j) as u64, i as u8, false)
        } by {
            let v = parts.sets[j].1.workspaces[i];
            assert(v.handle >= base);
        }
        let a = set.workspaces.take(n - 1);
        let b = set.workspaces.take(n);
        if handles(b).contains(h) {
            let q = choose|q: int| 0 <= q < b.len() && (#[trigger] b[q]).handle == h;
            if q < n - 1 {
                assert(a[q].handle == h);
            }
        }
        if handles(a).contains(h) {
            let q = choose|q: int| 0 <= q < a.len() && (#[trigger] a[q]).handle == h;
            assert(b[q].handle == h);
        }
        assert(b[n - 1] == w);
        assert(handles(b).contains(w.handle));
        assert(!handles(Seq::<WorkspaceView>::empty()).contains(h));
    } else {
        let a = set.workspaces.take(0);
        assert(a =~= Seq::<WorkspaceView>::empty());
        assert(!handles(a).contains(h));
        assert(0 * m == 0);
    }
}

/// What is told when shared workspaces are split: each output's group, then the parts of one
/// workspace after the other, each at the place of its workspace and none active. The shared
/// workspaces and their group are withdrawn. Everything else stays.
pub proof fn law_split_entries(
    shell: ShellView,
    i: int,
    j: int,
    g: WorkspaceGroupHandle,
    h: WorkspaceHandle,
)
    requires
        shell.wf(),
        shell.workspaces is Global,
        shell.can_convert(ConfigMode::OutputBound),
        outputs_distinct(shell.outputs),
    ensures
        ({
            let set = shell.workspaces->Global_0;
            let after = shell.converted(ConfigMode::OutputBound);
            let sets = after.workspaces->OutputBound_0;
            let next = shell.state.next;
            let n = set.workspaces.len() as int;
            let m = shell.outputs.len() as int;
            let goes = exists|q: int| 0 <= q < n && (#[trigger] set.workspaces[q]).handle == h;
            &&& same_waiting(after, shell)
            &&& after.outputs == shell.outputs
            &&& after.state.next == next + m + n * m
            &&& 0 <= j < m ==> {
                &&& sets[j].1.group == next + j
                &&& after.state.groups.dom().contains(sets[j].1.group)
                &&& after.state.groups[sets[j].1.group] == Set::<OutputId>::empty()
            }
            &&& 0 <= j < m && 0 <= i < n ==> {
                let w = sets[j].1.workspaces[i];
                &&& w.handle == next + m + i * m + j
                &&& entry_started(after.state, w.handle, sets[j].1.group, i, false)
            }
            &&& g < next ==> (after.state.groups.dom().contains(g)
                <==> shell.state.groups.dom().contains(g) && g != set.group)
            &&& g < next && g != set.group && shell.state.groups.dom().contains(g)
                ==> after.state.groups[g] == shell.state.groups[g]
            &&& h < next ==> (after.state.workspaces.dom().contains(h)
                <==> shell.state.workspaces.dom().contains(h) && !goes)
            &&& h < next && !goes && shell.state.workspaces.dom().contains(h)
                ==> after.state.workspaces[h] == shell.state.workspaces[h]
        }),
{
    let set = shell.workspaces->Global_0;
    let base = shell.state.next;
    let n = set.workspaces.len() as int;
    let m = shell.outputs.len() as int;
    let start = SetsScene { sets: Seq::empty(), state: shell.state, toplevels: shell.toplevels };
    assert(0 <= n * m) by (nonlinear_arith)
        requires
            0 <= n,
            0 <= m,
    ;
    lemma_fresh_numbered(start, shell.outputs, g, h);
    let fresh = start.with_fresh_sets(shell.outputs);
    assert forall|q: int| 0 <= q < set.workspaces.len() implies (
    #[trigger] set.workspaces[q]).handle < base by {
        assert(shell.state.workspaces.dom().contains(set.workspaces[q].handle));
    }
    lemma_spaces_numbered(fresh, set, shell.outputs, base, n, g, h);
    assert(set.workspaces.take(n) =~= set.workspaces);
    assert(!handles(Seq::<WorkspaceView>::empty()).contains(h));
    let spaces = fresh.with_spaces(set, shell.outputs, n);
    assert(shell.state.groups.dom().contains(set.group));
    if 0 <= j < m {
        assert(spaces.sets[j].1.group == base + j);
        if 0 <= i < n {
            assert(spaces.sets[j].1.workspaces[i].handle == base + m + i * m + j);
            law_started_entry((base + j) as u64, i as u8, false);
        }
    }
    if handles(set.workspaces).contains(h) {
        let q = choose|q: int| 0 <= q < n && (#[trigger] set.workspaces[q]).handle == h;
        assert(set.workspaces[q].handle == h);
    }
}

/// Changing to the mode that there is changes nothing.
pub proof fn law_convert_same(shell: ShellView)
    ensures
        shell.workspaces is Global ==> shell.converted(ConfigMode::Global) == shell,
        shell.workspaces is OutputBound ==> shell.converted(ConfigMode::OutputBound) == shell,
        shell.workspaces is Global ==> shell.can_convert(ConfigMode::Global),
        shell.workspaces is OutputBound ==> shell.can_convert(ConfigMode::OutputBound),
{
}

/// When sets can be merged: just where their active positions lie within them or behind the
/// last, and the places and the handles last.
pub proof fn law_can_merge(shell: ShellView)
    requires
        shell.workspaces is OutputBound,
    ensures
        ({
            let sets = shell.workspaces->OutputBound_0;
            let rows = lead(sets) + depth(sets);
            shell.can_convert(ConfigMode::Global) <==> (forall|i: int|
                0 <= i < sets.len() ==> 0 <= (#[trigger] sets[i]).1.active
                    <= sets[i].1.workspaces.len()) && rows <= 255 && shell.state.next + 1 + rows
                <= u64::MAX
        }),
{
}

/// When shared workspaces can be split: just where every output that an element floats on is
/// shown, and the places and the handles last. Without outputs there are no places.
pub proof fn law_can_split(shell: ShellView)
    requires
        shell.workspaces is Global,
    ensures
        ({
            let s = (shell.workspaces->Global_0).workspaces;
            let n = s.len();
            let m = shell.outputs.len();
            shell.can_convert(ConfigMode::OutputBound) <==> (forall|i: int, j: int, k: int|
                0 <= i < n && 0 <= j < m && 0 <= k < s[i].floating_layer.len() && (
                #[trigger] s[i].floating_layer[k]).main_output == Some(
                    (#[trigger] shell.outputs[j]).id,
                ) ==> s[i].outputs.dom().contains(shell.outputs[j].id)) && (m > 0 ==> n <= 255)
                && shell.state.next + m + n * m <= u64::MAX
        }),
{
    let s = (shell.workspaces->Global_0).workspaces;
    let n = s.len();
    let m = shell.outputs.len();
    if forall|i: int, j: int, k: int|
        0 <= i < n && 0 <= j < m && 0 <= k < s[i].floating_layer.len() && (
        #[trigger] s[i].floating_layer[k]).main_output == Some((#[trigger] shell.outputs[j]).id)
            ==> s[i].outputs.dom().contains(shell.outputs[j].id) {
        assert forall|i: int| 0 <= i < n implies can_split_all(#[trigger] s[i], shell.outputs) by {
            assert forall|j: int| 0 <= j < m implies can_split(
                s[i],
                (#[trigger] shell.outputs[j]).id,
            ) by {
                if exists|k: int|
                    0 <= k < s[i].floating_layer.len() && (
                    #[trigger] s[i].floating_layer[k]).main_output == Some(shell.outputs[j].id) {
                    let k = choose|k: int|
                        0 <= k < s[i].floating_layer.len() && (
                        #[trigger] s[i].floating_layer[k]).main_output == Some(
                            shell.outputs[j].id,
                        );
                    assert(s[i].outputs.dom().contains(shell.outputs[j].id));
                }
            }
        }
    }
    if forall|i: int| 0 <= i < n ==> can_split_all(#[trigger] s[i], shell.outputs) {
        assert forall|i: int, j: int, k: int|
            0 <= i < n && 0 <= j < m && 0 <= k < s[i].floating_layer.len() && (
            #[trigger] s[i].floating_layer[k]).main_output == Some(
                (#[trigger] shell.outputs[j]).id,
            ) implies s[i].outputs.dom().contains(shell.outputs[j].id) by {
            assert(can_split_all(s[i], shell.outputs));
            assert(can_split(s[i], shell.outputs[j].id));
        }
    }
}

/// An output that gets a set to put parts in gets an empty one, in a group of its own. The sets
/// of others stay.
pub proof fn law_fresh_set(scene: SetsScene, output: OutputId, o: OutputId)
    requires
        0 <= scene.state.next < u64::MAX,
    ensures
        ({
            let after = scene.with_fresh_set(output);
            let mode = ModeView::OutputBound(after.sets);
            let set = mode.set_for(output)->0;
            &&& mode.set_for(output) is Some
            &&& set.active == 0
            &&& set.workspaces.len() == 0
            &&& set.group == scene.state.next
            &&& o != output ==> mode.set_for(o) == ModeView::OutputBound(scene.sets).set_for(o)
            &&& after.toplevels == scene.toplevels
            &&& after.state.next == scene.state.next + 1
            &&& after.state.workspaces == scene.state.workspaces
            &&& after.state.groups == scene.state.groups.insert(
                scene.state.next as u64,
                Set::empty(),
            )
        }),
{
    let before = ModeView::OutputBound(scene.sets);
    let set = SetView { active: 0, group: scene.state.next as u64, workspaces: Seq::empty() };
    if has_key(scene.sets, output) {
        law_with_set(before, output, set, o);
    } else {
        let all = scene.sets.push((output, set));
        lemma_slot(scene.sets, output);
        lemma_slot(scene.sets, o);
        lemma_slot(all, output);
        lemma_slot(all, o);
        let n = scene.sets.len() as int;
        assert(all[n].0 == output);
        if slot(all, output) < n {
            assert(scene.sets[slot(all, output)].0 == output);
        }
        if o != output {
            if slot(scene.sets, o) < n {
                assert(all[slot(scene.sets, o)].0 == o);
                if slot(all, o) < slot(scene.sets, o) {
                    assert(scene.sets[slot(all, o)].0 != o);
                }
            } else if slot(all, o) < n {
                assert(scene.sets[slot(all, o)].0 == o);
            }
        }
    }
}

/// A part comes behind those that the output's set has, and the windows of the workspace leave
/// it: those on the part are told to be there. The sets of others stay.
pub proof fn law_part(
    scene: SetsScene,
    w: WorkspaceView,
    i: int,
    active: int,
    output: OutputId,
    o: OutputId,
    x: WindowId,
    h: WorkspaceHandle,
)
    requires
        0 <= scene.state.next < u64::MAX,
        0 <= i < 255,
        has_key(scene.sets, output),
    ensures
        ({
            let after = scene.with_part(w, i, active, output);
            let before = ModeView::OutputBound(scene.sets).set_for(output)->0;
            let mode = ModeView::OutputBound(after.sets);
            let set = mode.set_for(output)->0;
            let part = set.workspaces.last();
            &&& mode.set_for(output) is Some
            &&& set.active == active
            &&& set.group == before.group
            &&& set.workspaces == before.workspaces.push(part)
            &&& part.handle == scene.state.next
            &&& part.tiling_enabled == w.tiling_enabled
            &&& o != output ==> mode.set_for(o) == ModeView::OutputBound(scene.sets).set_for(o)
            &&& after.state.next == scene.state.next + 1
            &&& after.state.groups == scene.state.groups
            &&& entry_started(after.state, part.handle, before.group, i, false)
            &&& h != part.handle ==> after.state.workspaces[h] == scene.state.workspaces[h]
            &&& after.toplevels.outputs == scene.toplevels.outputs
            &&& after.toplevels.workspaces.contains((x, h)) <==> (
            scene.toplevels.workspaces.contains((x, h)) && !(h == w.handle && w.windows().contains(
                x,
            ))) || (h == part.handle && part.windows().contains(x))
        }),
{
    let k = slot(scene.sets, output);
    lemma_slot(scene.sets, output);
    let set = scene.sets[k].1;
    let part = split_space(w, output, scene.state.next as u64);
    let grown = SetView { active, workspaces: set.workspaces.push(part), ..set };
    law_with_set(ModeView::OutputBound(scene.sets), output, grown, o);
    law_started_entry(set.group, i as u8, false);
}

} // verus!
