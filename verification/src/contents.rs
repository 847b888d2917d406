//! What is on workspaces, counted.
//!
//! A refresh, a merge of sets, a move and a hand-over lose no window. Two operations can: a set
//! that is split keeps just what one of the outputs showed most of, and with the last output
//! its set is dropped.
use crate::config::WorkspaceMode as ConfigMode;
use crate::element::{element_of, lemma_element_index, windows_in, ElementId, ElementView};
use crate::gather::{
    actives_within, first_rows, lead, lemma_row_has, lemma_rows_fit, merged_row, merged_rows,
    merged_set, row, row_count, row_place, row_start,
};
use crate::hotplug::{lemma_handed_over_keeps_wf, moved_spaces};
use crate::mode::{all_spaces, ModeView};
use crate::output::Output;
use crate::protocol::OutputId;
use crate::scene::SetsScene;
use crate::set::{
    absorbed, kept, new_workspaces, padded, stays, SetScene, SetView, WorkspaceAmount,
};
use crate::shell::ShellView;
use crate::split::{is_part, law_part_elements, law_split_parts, outputs_distinct};
use crate::table::{has_key, lemma_slot, slot};
use crate::toplevel::WindowId;
use crate::windows::{lemma_other_space, lemma_set_after};
use crate::workspace::{lemma_element_layer, new_workspace, WorkspaceView};
use vstd::multiset::Multiset;
use vstd::prelude::*;

verus! {

impl WorkspaceView {
    /// The elements on one of the two layers.
    pub open spec fn layer(self, floating: bool) -> Seq<ElementView> {
        if floating {
            self.floating_layer
        } else {
            self.tiling_layer
        }
    }
}

/// The elements on one of the two layers of some workspaces, each as often as it is there.
pub open spec fn contents(s: Seq<WorkspaceView>, floating: bool) -> Multiset<ElementView>
    decreases s.len(),
{
    if s.len() == 0 {
        Multiset::empty()
    } else {
        contents(s.drop_last(), floating).add(s.last().layer(floating).to_multiset())
    }
}

/// One more workspace adds its elements.
pub proof fn lemma_contents_push(s: Seq<WorkspaceView>, w: WorkspaceView, floating: bool)
    ensures
        contents(s.push(w), floating) == contents(s, floating).add(
            w.layer(floating).to_multiset(),
        ),
{
    assert(s.push(w).drop_last() =~= s);
}

/// More workspaces add their elements.
pub proof fn lemma_contents_add(a: Seq<WorkspaceView>, b: Seq<WorkspaceView>, floating: bool)
    ensures
        contents(a + b, floating) == contents(a, floating).add(contents(b, floating)),
    decreases b.len(),
{
    if b.len() == 0 {
        assert(a + b =~= a);
        assert(contents(a, floating).add(Multiset::empty()) =~= contents(a, floating));
    } else {
        lemma_contents_add(a, b.drop_last(), floating);
        assert((a + b).drop_last() =~= a + b.drop_last());
        assert((a + b).last() == b.last());
        assert(contents(a + b, floating) =~= contents(a, floating).add(contents(b, floating)));
    }
}

/// Workspaces with the same layers have the same contents.
pub proof fn lemma_contents_same(a: Seq<WorkspaceView>, b: Seq<WorkspaceView>, floating: bool)
    requires
        a.len() == b.len(),
        forall|i: int|
            0 <= i < a.len() ==> (#[trigger] a[i]).layer(floating) == b[i].layer(floating),
    ensures
        contents(a, floating) == contents(b, floating),
    decreases a.len(),
{
    if a.len() > 0 {
        lemma_contents_same(a.drop_last(), b.drop_last(), floating);
        assert(a.last().layer(floating) == b[b.len() - 1].layer(floating));
    }
}

/// What replaces a workspace brings its elements in place of the old ones.
pub proof fn lemma_contents_update(s: Seq<WorkspaceView>, i: int, w: WorkspaceView, floating: bool)
    requires
        0 <= i < s.len(),
    ensures
        contents(s.update(i, w), floating).add(s[i].layer(floating).to_multiset()) == contents(
            s,
            floating,
        ).add(w.layer(floating).to_multiset()),
    decreases s.len(),
{
    let t = s.update(i, w);
    if i == s.len() - 1 {
        assert(t.drop_last() =~= s.drop_last());
    } else {
        lemma_contents_update(s.drop_last(), i, w, floating);
        assert(t.drop_last() =~= s.drop_last().update(i, w));
        assert(t.last() == s.last());
    }
    let x = s[i].layer(floating).to_multiset();
    let y = w.layer(floating).to_multiset();
    assert forall|e: ElementView| contents(t, floating).add(x).count(e) == contents(
        s,
        floating,
    ).add(y).count(e) by {
        if i < s.len() - 1 {
            assert(contents(t.drop_last(), floating).add(x).count(e) == contents(
                s.drop_last(),
                floating,
            ).add(y).count(e));
        }
    }
    assert(contents(t, floating).add(x) =~= contents(s, floating).add(y));
}

/// An element is counted exactly where a workspace has it.
pub proof fn lemma_contents_has(s: Seq<WorkspaceView>, floating: bool, e: ElementView)
    ensures
        contents(s, floating).count(e) > 0 <==> exists|i: int|
            0 <= i < s.len() && (#[trigger] s[i]).layer(floating).contains(e),
    decreases s.len(),
{
    broadcast use vstd::seq_lib::group_to_multiset_ensures;

    if s.len() > 0 {
        let t = s.drop_last();
        lemma_contents_has(t, floating, e);
        assert(s.last().layer(floating).contains(e) <==> s.last().layer(
            floating,
        ).to_multiset().count(e) > 0);
        if contents(t, floating).count(e) > 0 {
            let i = choose|i: int| 0 <= i < t.len() && (#[trigger] t[i]).layer(floating).contains(e);
            assert(s[i].layer(floating).contains(e));
        }
        if s.last().layer(floating).contains(e) {
            assert(s[s.len() - 1].layer(floating).contains(e));
        }
        if exists|i: int| 0 <= i < s.len() && (#[trigger] s[i]).layer(floating).contains(e) {
            let i = choose|i: int| 0 <= i < s.len() && (#[trigger] s[i]).layer(floating).contains(e);
            if i < t.len() {
                assert(t[i].layer(floating).contains(e));
            }
        }
    }
}

/// Empty workspaces have no contents.
proof fn lemma_new_contents(first: int, n: int, floating: bool)
    requires
        0 <= n,
    ensures
        contents(new_workspaces(first, n), floating) == Multiset::<ElementView>::empty(),
    decreases n,
{
    broadcast use vstd::seq_lib::group_to_multiset_ensures;

    let s = new_workspaces(first, n);
    if n > 0 {
        lemma_new_contents(first, n - 1, floating);
        assert(s.drop_last() =~= new_workspaces(first, n - 1));
        assert(s.last().layer(floating) =~= Seq::<ElementView>::empty());
        assert(s.last().layer(floating).to_multiset() =~= Multiset::<ElementView>::empty());
        assert(contents(s, floating) =~= Multiset::<ElementView>::empty());
    }
}

/// What is merged into a workspace is on it afterwards, beside what was there.
pub proof fn lemma_absorbed_contents(w: WorkspaceView, rest: Seq<WorkspaceView>, floating: bool)
    ensures
        absorbed(w, rest).layer(floating).to_multiset() == w.layer(floating).to_multiset().add(
            contents(rest, floating),
        ),
    decreases rest.len(),
{
    if rest.len() == 0 {
        assert(w.layer(floating).to_multiset().add(Multiset::empty()) =~= w.layer(
            floating,
        ).to_multiset());
    } else {
        let before = absorbed(w, rest.drop_last());
        lemma_absorbed_contents(w, rest.drop_last(), floating);
        vstd::seq_lib::lemma_multiset_commutative(
            before.layer(floating),
            rest.last().layer(floating),
        );
        assert(absorbed(w, rest).layer(floating) == before.layer(floating) + rest.last().layer(
            floating,
        ));
        assert(absorbed(w, rest).layer(floating).to_multiset() =~= w.layer(
            floating,
        ).to_multiset().add(contents(rest, floating)));
    }
}

/// A set that is brought to a fixed number of workspaces keeps every element, on the same
/// kind of layer.
pub proof fn law_static_keeps_elements(scene: SetScene, amount: int, floating: bool)
    requires
        0 < amount,
    ensures
        contents(scene.resized(amount).set.workspaces, floating) == contents(
            scene.set.workspaces,
            floating,
        ),
{
    let all = scene.set.workspaces;
    let n = all.len() as int;
    let after = scene.resized(amount).set.workspaces;
    if amount < n {
        let head = all.take(amount);
        let rest = all.skip(amount);
        let last = all[amount - 1];
        let grown = absorbed(last, rest).refreshed();
        lemma_absorbed_contents(last, rest, floating);
        lemma_contents_update(head, amount - 1, grown, floating);
        assert(grown.layer(floating) == absorbed(last, rest).layer(floating));
        lemma_contents_add(head, rest, floating);
        assert(head + rest =~= all);
        assert(contents(after, floating) =~= contents(all, floating)) by {
            assert forall|e: ElementView| contents(after, floating).count(e) == contents(
                all,
                floating,
            ).count(e) by {
                assert(contents(after, floating).add(last.layer(floating).to_multiset()).count(e)
                    == contents(head, floating).add(grown.layer(floating).to_multiset()).count(e));
            }
        }
    } else {
        lemma_new_contents(scene.state.next, amount - n, floating);
        lemma_contents_add(all, new_workspaces(scene.state.next, amount - n), floating);
        assert(contents(after, floating) =~= contents(all, floating));
    }
}

/// A set that is brought to a fixed number of workspaces has that many.
pub proof fn law_static_amount(scene: SetScene, amount: int)
    requires
        0 < amount,
    ensures
        scene.resized(amount).set.workspaces.len() == amount,
{
}

/// Without windows on a workspace, no element there has a window.
proof fn lemma_no_windows(w: WorkspaceView, floating: bool, e: ElementView)
    requires
        !w.has_windows(),
        e.windows.len() > 0,
    ensures
        w.layer(floating).to_multiset().count(e) == 0,
{
    broadcast use vstd::seq_lib::group_to_multiset_ensures;

    if w.layer(floating).contains(e) {
        let l = w.layer(floating);
        let j = choose|j: int| 0 <= j < l.len() && l[j] == e;
        let m = w.mapped();
        let k = if floating {
            j
        } else {
            w.floating_layer.len() + j
        };
        assert(m[k] == e);
        let x = e.windows[0].window;
        assert(e.shows(x));
        assert(windows_in(m).contains(x));
        assert(w.windows().contains(x));
    }
}

proof fn lemma_kept_contents(
    s: Seq<WorkspaceView>,
    active: int,
    n: int,
    floating: bool,
    e: ElementView,
)
    requires
        0 <= n <= s.len(),
        e.windows.len() > 0,
    ensures
        contents(kept(s, active, n), floating).count(e) == contents(s.take(n), floating).count(e),
    decreases n,
{
    if n > 0 {
        lemma_kept_contents(s, active, n - 1, floating, e);
        assert(s.take(n).drop_last() =~= s.take(n - 1));
        if stays(s, active, n - 1) {
            lemma_contents_push(kept(s, active, n - 1), s[n - 1], floating);
        } else {
            lemma_no_windows(s[n - 1], floating, e);
        }
    } else {
        assert(s.take(n) =~= Seq::<WorkspaceView>::empty());
    }
}

/// A dynamic set that is brought in order keeps every element that has a window, on the
/// same kind of layer.
pub proof fn law_dynamic_keeps_elements(scene: SetScene, floating: bool, e: ElementView)
    requires
        scene.set.workspaces.len() > 0,
        e.windows.len() > 0,
    ensures
        contents(scene.last_empty().set.workspaces, floating).count(e) == contents(
            scene.set.workspaces,
            floating,
        ).count(e),
{
    broadcast use vstd::seq_lib::group_to_multiset_ensures;

    let all = padded(scene.set, scene.state);
    lemma_kept_contents(all, scene.set.active, all.len() as int, floating, e);
    assert(all.take(all.len() as int) =~= all);
    if scene.set.workspaces.last().has_windows() {
        let w = new_workspace(scene.state.next as u64);
        lemma_contents_push(scene.set.workspaces, w, floating);
        assert(!w.layer(floating).contains(e));
        assert(w.layer(floating).to_multiset().count(e) == 0);
    }
}

/// A refresh of a set keeps every element that has a window, on the same kind of layer.
pub proof fn law_set_refresh_keeps_elements(
    scene: SetScene,
    amount: WorkspaceAmount,
    floating: bool,
    e: ElementView,
)
    requires
        scene.can_refresh(amount),
        e.windows.len() > 0,
    ensures
        contents(scene.refreshed(amount).set.workspaces, floating).count(e) == contents(
            scene.set.workspaces,
            floating,
        ).count(e),
{
    match amount {
        WorkspaceAmount::Dynamic => {
            law_dynamic_keeps_elements(scene, floating, e);
        },
        WorkspaceAmount::Static(len) => {
            law_static_keeps_elements(scene, len as int, floating);
        },
    }
    lemma_contents_same(
        scene.refreshed(amount).set.workspaces,
        scene.ensured(amount).set.workspaces,
        floating,
    );
}

/// Replacing a set replaces its share of the contents.
proof fn lemma_all_contents_update(
    sets: Seq<(OutputId, SetView)>,
    k: int,
    set: (OutputId, SetView),
    floating: bool,
)
    requires
        0 <= k < sets.len(),
    ensures
        contents(all_spaces(sets.update(k, set)), floating).add(
            contents(sets[k].1.workspaces, floating),
        ) == contents(all_spaces(sets), floating).add(contents(set.1.workspaces, floating)),
    decreases sets.len(),
{
    let t = sets.update(k, set);
    lemma_contents_add(all_spaces(sets.drop_last()), sets.last().1.workspaces, floating);
    lemma_contents_add(all_spaces(t.drop_last()), t.last().1.workspaces, floating);
    if k == sets.len() - 1 {
        assert(t.drop_last() =~= sets.drop_last());
    } else {
        assert(t.drop_last() =~= sets.drop_last().update(k, set));
        lemma_all_contents_update(sets.drop_last(), k, set, floating);
    }
    let x = contents(sets[k].1.workspaces, floating);
    let y = contents(set.1.workspaces, floating);
    assert forall|e: ElementView| contents(all_spaces(t), floating).add(x).count(e) == contents(
        all_spaces(sets),
        floating,
    ).add(y).count(e) by {
        if k < sets.len() - 1 {
            assert(contents(all_spaces(t.drop_last()), floating).add(x).count(e) == contents(
                all_spaces(sets.drop_last()),
                floating,
            ).add(y).count(e));
        }
    }
    assert(contents(all_spaces(t), floating).add(x) =~= contents(all_spaces(sets), floating).add(
        y,
    ));
}

proof fn lemma_sets_refresh_keeps_elements(
    scene: SetsScene,
    amount: WorkspaceAmount,
    n: int,
    floating: bool,
    e: ElementView,
)
    requires
        scene.can_refresh(amount),
        0 <= n <= scene.sets.len(),
        e.windows.len() > 0,
    ensures
        contents(all_spaces(scene.refreshed(amount, n).sets), floating).count(e) == contents(
            all_spaces(scene.sets),
            floating,
        ).count(e),
        scene.refreshed(amount, n).sets.len() == scene.sets.len(),
        forall|i: int|
            n <= i < scene.sets.len() ==> #[trigger] scene.refreshed(amount, n).sets[i]
                == scene.sets[i],
    decreases n,
{
    if n > 0 {
        lemma_sets_refresh_keeps_elements(scene, amount, n - 1, floating, e);
        let before = scene.refreshed(amount, n - 1);
        let after = scene.refreshed(amount, n);
        let turn = scene.turn(amount, n - 1);
        assert(turn.can_refresh(amount));
        assert(before.sets[n - 1] == scene.sets[n - 1]);
        law_set_refresh_keeps_elements(turn, amount, floating, e);
        lemma_all_contents_update(before.sets, n - 1, after.sets[n - 1], floating);
        let a = contents(all_spaces(after.sets), floating);
        let b = contents(all_spaces(before.sets), floating);
        assert(a.add(contents(before.sets[n - 1].1.workspaces, floating)).count(e) == b.add(
            contents(after.sets[n - 1].1.workspaces, floating),
        ).count(e));
    }
}

/// A refresh of the shell keeps every element that has a window, on the same kind of layer.
pub proof fn law_refresh_keeps_elements(shell: ShellView, floating: bool, e: ElementView)
    requires
        shell.can_refresh(),
        e.windows.len() > 0,
    ensures
        contents(shell.refreshed().workspaces.spaces(), floating).count(e) == contents(
            shell.workspaces.spaces(),
            floating,
        ).count(e),
{
    match shell.workspaces {
        ModeView::Global(_) => {
            law_set_refresh_keeps_elements(
                shell.scene().shared(),
                shell.workspace_amount,
                floating,
                e,
            );
        },
        ModeView::OutputBound(sets) => {
            lemma_sets_refresh_keeps_elements(
                shell.scene().bound(),
                shell.workspace_amount,
                sets.len() as int,
                floating,
                e,
            );
        },
    }
}

/// How many workspaces of a set stand in the first `n` rows.
spec fn in_rows(set: SetView, l: int, n: int) -> int {
    let i = row_place(set, l, n);
    if i < 0 {
        0
    } else if i > set.workspaces.len() {
        set.workspaces.len() as int
    } else {
        i
    }
}

proof fn lemma_rows_last_set(sets: Seq<(OutputId, SetView)>, l: int, n: int, floating: bool)
    requires
        sets.len() > 0,
        0 <= sets.last().1.active <= l,
        0 <= n,
    ensures
        contents(first_rows(sets, l, n), floating) == contents(
            first_rows(sets.drop_last(), l, n),
            floating,
        ).add(
            contents(sets.last().1.workspaces.take(in_rows(sets.last().1, l, n)), floating),
        ),
    decreases n,
{
    let before = sets.drop_last();
    let set = sets.last().1;
    let c = in_rows(set, l, n);
    if n == 0 {
        assert(set.workspaces.take(c) =~= Seq::<WorkspaceView>::empty());
        assert(Multiset::<ElementView>::empty().add(Multiset::empty()) =~= Multiset::<
            ElementView,
        >::empty());
    } else {
        lemma_rows_last_set(sets, l, n - 1, floating);
        lemma_contents_add(first_rows(sets, l, n - 1), row(sets, l, n - 1), floating);
        lemma_contents_add(first_rows(before, l, n - 1), row(before, l, n - 1), floating);
        let i = row_place(set, l, n - 1);
        let d = in_rows(set, l, n - 1);
        if 0 <= i < set.workspaces.len() {
            assert(d == i && c == i + 1);
            lemma_contents_push(row(before, l, n - 1), set.workspaces[i], floating);
            assert(set.workspaces.take(c) =~= set.workspaces.take(d).push(set.workspaces[i]));
            lemma_contents_push(set.workspaces.take(d), set.workspaces[i], floating);
        } else {
            assert(c == d);
        }
        assert(contents(first_rows(sets, l, n), floating) =~= contents(
            first_rows(before, l, n),
            floating,
        ).add(contents(set.workspaces.take(c), floating)));
    }
}

proof fn lemma_no_rows(sets: Seq<(OutputId, SetView)>, l: int, n: int)
    requires
        sets.len() == 0,
    ensures
        first_rows(sets, l, n) == Seq::<WorkspaceView>::empty(),
    decreases n,
{
    if n > 0 {
        lemma_no_rows(sets, l, n - 1);
        assert(first_rows(sets, l, n) =~= Seq::<WorkspaceView>::empty());
    }
}

proof fn lemma_rows_contents(sets: Seq<(OutputId, SetView)>, l: int, n: int, floating: bool)
    requires
        0 <= n,
        forall|i: int|
            0 <= i < sets.len() ==> 0 <= (#[trigger] sets[i]).1.active <= l && l
                + sets[i].1.workspaces.len() - sets[i].1.active <= n,
    ensures
        contents(first_rows(sets, l, n), floating) == contents(all_spaces(sets), floating),
    decreases sets.len(),
{
    if sets.len() == 0 {
        lemma_no_rows(sets, l, n);
    } else {
        let before = sets.drop_last();
        let set = sets.last().1;
        assert(sets[sets.len() - 1].1 == set);
        assert forall|i: int| 0 <= i < before.len() implies 0 <= (#[trigger] before[i]).1.active
            <= l && l + before[i].1.workspaces.len() - before[i].1.active <= n by {
            assert(before[i] == sets[i]);
        }
        lemma_rows_contents(before, l, n, floating);
        lemma_rows_last_set(sets, l, n, floating);
        assert(set.workspaces.take(in_rows(set, l, n)) =~= set.workspaces);
        lemma_contents_add(all_spaces(before), set.workspaces, floating);
    }
}

/// Showing outputs changes no layer.
pub proof fn lemma_outputs_keep_layers(w: WorkspaceView, outputs: Seq<Output>)
    ensures
        w.with_outputs(outputs).floating_layer == w.floating_layer,
        w.with_outputs(outputs).tiling_layer == w.tiling_layer,
    decreases outputs.len(),
{
    if outputs.len() > 0 {
        lemma_outputs_keep_layers(w, outputs.drop_last());
    }
}

/// What a row becomes has what was in the row.
pub proof fn lemma_merged_row_contents(
    outputs: Seq<Output>,
    handle: u64,
    s: Seq<WorkspaceView>,
    floating: bool,
)
    ensures
        merged_row(outputs, handle, s).layer(floating).to_multiset() == contents(s, floating),
{
    broadcast use vstd::seq_lib::group_to_multiset_ensures;

    let start = row_start(outputs, handle, s);
    lemma_outputs_keep_layers(new_workspace(handle), outputs);
    lemma_absorbed_contents(start, s, floating);
    assert(start.layer(floating) =~= Seq::<ElementView>::empty());
    assert(start.layer(floating).to_multiset() =~= Multiset::<ElementView>::empty());
    assert(merged_row(outputs, handle, s).layer(floating).to_multiset() =~= contents(s, floating));
}

proof fn lemma_merged_rows_contents(
    sets: Seq<(OutputId, SetView)>,
    outputs: Seq<Output>,
    first: int,
    n: int,
    floating: bool,
)
    requires
        0 <= n,
    ensures
        contents(merged_rows(sets, outputs, first, n), floating) == contents(
            first_rows(sets, lead(sets), n),
            floating,
        ),
    decreases n,
{
    if n > 0 {
        lemma_merged_rows_contents(sets, outputs, first, n - 1, floating);
        let r = row(sets, lead(sets), n - 1);
        let h = (first + n - 1) as u64;
        lemma_merged_row_contents(outputs, h, r, floating);
        lemma_contents_add(first_rows(sets, lead(sets), n - 1), r, floating);
        let all = merged_rows(sets, outputs, first, n);
        assert(all.drop_last() =~= merged_rows(sets, outputs, first, n - 1));
        assert(all.last() == merged_row(outputs, h, r));
    }
}

/// Merging the sets of several outputs keeps every element, on the same kind of layer.
pub proof fn law_merge_keeps_elements(
    sets: Seq<(OutputId, SetView)>,
    outputs: Seq<Output>,
    next: int,
    floating: bool,
)
    requires
        actives_within(sets),
    ensures
        contents(merged_set(sets, outputs, next).workspaces, floating) == contents(
            all_spaces(sets),
            floating,
        ),
{
    lemma_rows_fit(sets);
    lemma_merged_rows_contents(sets, outputs, next + 1, row_count(sets), floating);
    lemma_rows_contents(sets, lead(sets), row_count(sets), floating);
}

/// Merging the sets of several outputs keeps places: what was `k` places behind the active
/// workspace of its output is `k` places behind the active workspace of all outputs, and
/// what was on the active workspace of an output is on the active one of all.
pub proof fn law_merge_keeps_places(
    sets: Seq<(OutputId, SetView)>,
    outputs: Seq<Output>,
    next: int,
    s: int,
    i: int,
    floating: bool,
    e: ElementView,
)
    requires
        actives_within(sets),
        0 <= s < sets.len(),
        0 <= i < sets[s].1.workspaces.len(),
        sets[s].1.workspaces[i].layer(floating).contains(e),
    ensures
        ({
            let set = merged_set(sets, outputs, next);
            let r = i - sets[s].1.active + lead(sets);
            &&& 0 <= r < set.workspaces.len()
            &&& set.workspaces[r].layer(floating).contains(e)
            &&& sets[s].1.active < sets[s].1.workspaces.len() ==> set.active == lead(sets)
        }),
{
    broadcast use vstd::seq_lib::group_to_multiset_ensures;

    lemma_rows_fit(sets);
    let l = lead(sets);
    let set = merged_set(sets, outputs, next);
    let r = i - sets[s].1.active + l;
    assert(sets[s].1.active <= l);
    assert(row_place(sets[s].1, l, r) == i);
    let k = lemma_row_has(sets, l, r, s);
    let line = row(sets, l, r);
    let h = (next + 1 + r) as u64;
    lemma_merged_row_contents(outputs, h, line, floating);
    lemma_contents_has(line, floating, e);
    assert(line[k].layer(floating).contains(e));
    assert(set.workspaces[r] == merged_row(outputs, h, line));
    assert(set.workspaces[r].layer(floating).to_multiset().count(e) > 0);
}

/// Changing to a set for all outputs keeps every element that has a window, on the same
/// kind of layer.
pub proof fn law_set_mode_keeps_elements(shell: ShellView, floating: bool, e: ElementView)
    requires
        shell.workspaces is OutputBound,
        shell.can_convert(ConfigMode::Global),
        shell.converted(ConfigMode::Global).can_refresh(),
        e.windows.len() > 0,
    ensures
        contents(
            shell.converted(ConfigMode::Global).refreshed().workspaces.spaces(),
            floating,
        ).count(e) == contents(shell.workspaces.spaces(), floating).count(e),
{
    let sets = shell.workspaces->OutputBound_0;
    law_refresh_keeps_elements(shell.converted(ConfigMode::Global), floating, e);
    law_merge_keeps_elements(sets, shell.outputs, shell.state.next, floating);
}

/// Changing to a set for each output keeps every element that has a window and that an output
/// showed most of: it is on that output's set, on the same kind of layer. If it floats, it
/// lies at the same place as seen from the output.
pub proof fn law_set_mode_splits_elements(
    shell: ShellView,
    i: int,
    j: int,
    floating: bool,
    e: ElementView,
)
    requires
        shell.workspaces is Global,
        shell.can_convert(ConfigMode::OutputBound),
        shell.converted(ConfigMode::OutputBound).can_refresh(),
        outputs_distinct(shell.outputs),
        0 <= i < shell.workspaces.spaces().len(),
        0 <= j < shell.outputs.len(),
        shell.workspaces.spaces()[i].layer(floating).contains(e),
        e.main_output == Some(shell.outputs[j].id),
        e.windows.len() > 0,
    ensures
        ({
            let o = shell.outputs[j].id;
            let w = shell.workspaces.spaces()[i];
            let there = if floating {
                e.at(e.location.minus(w.outputs[o]))
            } else {
                e
            };
            contents(
                shell.converted(ConfigMode::OutputBound).refreshed().workspaces.spaces_for(o),
                floating,
            ).count(there) > 0
        }),
{
    let o = shell.outputs[j].id;
    let set = shell.workspaces->Global_0;
    let w = set.workspaces[i];
    let mid = shell.converted(ConfigMode::OutputBound);
    let sets = mid.workspaces->OutputBound_0;
    let nothing = SetsScene {
        sets: Seq::empty(),
        state: shell.state,
        toplevels: shell.toplevels,
    };
    let there = if floating {
        e.at(e.location.minus(w.outputs[o]))
    } else {
        e
    };
    law_split_parts(nothing, set, shell.outputs, j);
    let part = sets[j].1.workspaces[i];
    assert(is_part(part, w, o));
    law_part_elements(w, o, part.handle, e);
    assert(part.layer(floating).contains(there));
    lemma_slot(sets, o);
    let k = slot(sets, o);
    assert(has_key(sets, o)) by {
        assert(sets[j].0 == o);
    }
    if k != j {
        law_split_parts(nothing, set, shell.outputs, k);
        if k < j {
            assert(shell.outputs[k].id != shell.outputs[j].id);
        } else {
            assert(sets[j].0 != o);
        }
    }
    lemma_contents_has(mid.workspaces.spaces_for(o), floating, there);
    assert(mid.workspaces.spaces_for(o)[i].layer(floating).contains(there));
    law_refresh_keeps_elements_on_output(mid, o, floating, there);
}

/// Changing to the mode that is there is a refresh, and nothing else.
pub proof fn law_set_mode_same(shell: ShellView, mode: ConfigMode)
    requires
        mode is Global <==> shell.workspaces is Global,
    ensures
        shell.converted(mode) == shell,
{
}

/// Each set is refreshed for itself.
pub proof fn lemma_sets_refresh_each(scene: SetsScene, amount: WorkspaceAmount, n: int, k: int)
    requires
        0 <= k < n <= scene.sets.len(),
    ensures
        scene.refreshed(amount, n).sets.len() == scene.sets.len(),
        scene.refreshed(amount, n).sets[k] == (
            scene.sets[k].0,
            scene.turn(amount, k).refreshed(amount).set,
        ),
    decreases n,
{
    lemma_sets_refresh_len(scene, amount, n - 1);
    if k < n - 1 {
        lemma_sets_refresh_each(scene, amount, n - 1, k);
    }
}

/// A refresh takes no set out.
pub proof fn lemma_sets_refresh_len(scene: SetsScene, amount: WorkspaceAmount, n: int)
    requires
        0 <= n <= scene.sets.len(),
    ensures
        scene.refreshed(amount, n).sets.len() == scene.sets.len(),
    decreases n,
{
    if n > 0 {
        lemma_sets_refresh_len(scene, amount, n - 1);
    }
}

/// A refresh of the shell keeps every element that has a window on its output: the set that
/// an output shows has it afterwards if it had it before.
pub proof fn law_refresh_keeps_elements_on_output(
    shell: ShellView,
    output: OutputId,
    floating: bool,
    e: ElementView,
)
    requires
        shell.can_refresh(),
        e.windows.len() > 0,
    ensures
        shell.refreshed().workspaces.set_for(output) is Some <==> shell.workspaces.set_for(
            output,
        ) is Some,
        contents(shell.refreshed().workspaces.spaces_for(output), floating).count(e) == contents(
            shell.workspaces.spaces_for(output),
            floating,
        ).count(e),
{
    let amount = shell.workspace_amount;
    match shell.workspaces {
        ModeView::Global(_) => {
            law_set_refresh_keeps_elements(shell.scene().shared(), amount, floating, e);
        },
        ModeView::OutputBound(sets) => {
            let scene = shell.scene().bound();
            let n = sets.len() as int;
            let after = scene.refreshed(amount, n).sets;
            lemma_sets_refresh_len(scene, amount, n);
            assert forall|k: int| 0 <= k < n implies (#[trigger] after[k]).0 == sets[k].0 by {
                lemma_sets_refresh_each(scene, amount, n, k);
            }
            lemma_same_slots(sets, after, output);
            if has_key(sets, output) {
                lemma_slot(sets, output);
                let k = slot(sets, output);
                lemma_sets_refresh_each(scene, amount, n, k);
                assert(scene.turn(amount, k).can_refresh(amount));
                law_set_refresh_keeps_elements(scene.turn(amount, k), amount, floating, e);
            }
        },
    }
}

/// Entries with the same keys are found in the same places.
pub proof fn lemma_same_slots(a: Seq<(OutputId, SetView)>, b: Seq<(OutputId, SetView)>, k: OutputId)
    requires
        a.len() == b.len(),
        forall|i: int| 0 <= i < a.len() ==> (#[trigger] b[i]).0 == a[i].0,
    ensures
        slot(a, k) == slot(b, k),
        has_key(a, k) == has_key(b, k),
{
    lemma_slot(a, k);
    lemma_slot(b, k);
    if slot(a, k) < slot(b, k) {
        assert(b[slot(a, k)].0 != k);
    }
    if slot(b, k) < slot(a, k) {
        assert(a[slot(b, k)].0 != k);
        assert(b[slot(b, k)].0 == k);
    }
}

/// Taking a set out takes its share of the contents.
proof fn lemma_all_contents_remove(sets: Seq<(OutputId, SetView)>, k: int, floating: bool)
    requires
        0 <= k < sets.len(),
    ensures
        contents(all_spaces(sets.remove(k)), floating).add(
            contents(sets[k].1.workspaces, floating),
        ) == contents(all_spaces(sets), floating),
    decreases sets.len(),
{
    let t = sets.remove(k);
    lemma_contents_add(all_spaces(sets.drop_last()), sets.last().1.workspaces, floating);
    if k == sets.len() - 1 {
        assert(t =~= sets.drop_last());
    } else {
        assert(t.drop_last() =~= sets.drop_last().remove(k));
        assert(t.last() == sets.last());
        lemma_contents_add(all_spaces(t.drop_last()), t.last().1.workspaces, floating);
        lemma_all_contents_remove(sets.drop_last(), k, floating);
        let x = contents(sets[k].1.workspaces, floating);
        assert forall|e: ElementView| contents(all_spaces(t), floating).add(x).count(e)
            == contents(all_spaces(sets), floating).count(e) by {
            assert(contents(all_spaces(t.drop_last()), floating).add(x).count(e) == contents(
                all_spaces(sets.drop_last()),
                floating,
            ).count(e));
        }
        assert(contents(all_spaces(t), floating).add(x) =~= contents(all_spaces(sets), floating));
    }
}

/// Handing the workspaces of an output over keeps every element. The first of the other
/// outputs has what it had, and what was handed over.
pub proof fn law_handover_keeps_elements(shell: ShellView, output: OutputId, floating: bool)
    requires
        shell.wf(),
        shell.hands_over(output),
        shell.state.next + shell.workspaces.spaces_for(output).len() <= u64::MAX,
    ensures
        contents(shell.handed_over(output).workspaces.spaces(), floating) == contents(
            shell.workspaces.spaces(),
            floating,
        ),
        ({
            let to = shell.other_outputs(output)[0].id;
            contents(shell.handed_over(output).workspaces.spaces_for(to), floating) == contents(
                shell.workspaces.spaces_for(to),
                floating,
            ).add(contents(shell.workspaces.spaces_for(output), floating))
        }),
{
    let to = shell.other_outputs(output)[0].id;
    let sets = shell.workspaces->OutputBound_0;
    let r = slot(sets, output);
    let left = shell.without_set(output);
    let others = left.workspaces->OutputBound_0;
    let after = shell.handed_over(output);
    let new_sets = after.workspaces->OutputBound_0;
    lemma_handed_over_keeps_wf(shell, output);
    lemma_slot(sets, output);
    lemma_slot(others, to);
    let k = slot(others, to);
    let set = sets[r].1;
    let target = others[k].1;
    let moved = moved_spaces(set.workspaces, shell.state.next, output, to);
    lemma_contents_same(set.workspaces, moved, floating);
    lemma_contents_add(target.workspaces, moved, floating);
    lemma_all_contents_remove(sets, r, floating);
    let grown = new_sets[k];
    lemma_all_contents_update(others, k, grown, floating);
    let a = contents(all_spaces(new_sets), floating);
    let b = contents(all_spaces(others), floating);
    let c = contents(all_spaces(sets), floating);
    let x = contents(set.workspaces, floating);
    let y = contents(target.workspaces, floating);
    assert forall|e: ElementView| a.count(e) == c.count(e) by {
        assert(a.add(y).count(e) == b.add(contents(grown.1.workspaces, floating)).count(e));
        assert(b.add(x).count(e) == c.count(e));
    }
    assert(a =~= c);
    lemma_same_slots(others, new_sets, to);
}

/// Removing an output while others are there keeps every element that has a window, on the
/// same kind of layer. What was on the output is on the first of the others.
pub proof fn law_remove_output_keeps_elements(
    shell: ShellView,
    output: OutputId,
    floating: bool,
    e: ElementView,
)
    requires
        shell.wf(),
        shell.hands_over(output),
        shell.can_remove(output),
        e.windows.len() > 0,
    ensures
        contents(shell.with_removed(output).workspaces.spaces(), floating).count(e) == contents(
            shell.workspaces.spaces(),
            floating,
        ).count(e),
        ({
            let to = shell.other_outputs(output)[0].id;
            contents(shell.with_removed(output).workspaces.spaces_for(to), floating).count(e)
                == contents(shell.workspaces.spaces_for(to), floating).count(e) + contents(
                shell.workspaces.spaces_for(output),
                floating,
            ).count(e)
        }),
{
    let to = shell.other_outputs(output)[0].id;
    let mid = shell.handed_over(output);
    law_handover_keeps_elements(shell, output, floating);
    law_refresh_keeps_elements(mid, floating, e);
    law_refresh_keeps_elements_on_output(mid, to, floating, e);
}

/// Removing an output from a set that all outputs share keeps every element.
pub proof fn law_remove_output_global_keeps_elements(
    shell: ShellView,
    output: OutputId,
    floating: bool,
)
    requires
        shell.workspaces is Global,
    ensures
        contents(shell.with_removed(output).workspaces.spaces(), floating) == contents(
            shell.workspaces.spaces(),
            floating,
        ),
{
    let set = shell.workspaces->Global_0;
    lemma_contents_same(set.workspaces, set.without_output(output).workspaces, floating);
}

/// Replacing a workspace of an output replaces its share of the contents.
proof fn lemma_mode_contents_update(
    mode: ModeView,
    num: int,
    output: OutputId,
    w: WorkspaceView,
    floating: bool,
)
    requires
        mode.space(num, output) is Some,
    ensures
        contents(mode.with_space(num, output, w).spaces(), floating).add(
            (mode.space(num, output)->0).layer(floating).to_multiset(),
        ) == contents(mode.spaces(), floating).add(w.layer(floating).to_multiset()),
{
    let set = mode.set_for(output)->0;
    let old_space = set.workspaces[num];
    lemma_contents_update(set.workspaces, num, w, floating);
    match mode {
        ModeView::Global(_) => {},
        ModeView::OutputBound(sets) => {
            lemma_slot(sets, output);
            let k = slot(sets, output);
            let new = SetView { workspaces: set.workspaces.update(num, w), ..set };
            lemma_all_contents_update(sets, k, (output, new), floating);
            let a = contents(mode.with_space(num, output, w).spaces(), floating);
            let b = contents(mode.spaces(), floating);
            let x = contents(set.workspaces, floating);
            let y = contents(new.workspaces, floating);
            let o = old_space.layer(floating).to_multiset();
            let n = w.layer(floating).to_multiset();
            assert forall|e: ElementView| a.add(o).count(e) == b.add(n).count(e) by {
                assert(a.add(x).count(e) == b.add(y).count(e));
                assert(y.add(o).count(e) == x.add(n).count(e));
            }
            assert(a.add(o) =~= b.add(n));
        },
    }
}

/// Mapping a window adds its element to the layer that it belongs on, and changes nothing
/// else.
pub proof fn law_map_window_adds_element(
    shell: ShellView,
    window: WindowId,
    output: OutputId,
    floating: bool,
)
    requires
        shell.workspaces.has_active(output),
    ensures
        ({
            let w = shell.pending_windows[shell.pending_index(window)].0;
            let before = contents(shell.workspaces.spaces(), floating);
            let after = contents(shell.with_window(window, output).workspaces.spaces(), floating);
            after == (if floating == (w.should_be_floating || shell.floating_default) {
                before.insert(element_of(w))
            } else {
                before
            })
        }),
{
    broadcast use vstd::seq_lib::group_to_multiset_ensures;

    let w = shell.pending_windows[shell.pending_index(window)].0;
    let a = shell.workspaces.active_index(output);
    let space = shell.workspaces.active_space(output);
    let floats = w.should_be_floating || shell.floating_default;
    let new = space.with_element(element_of(w), floats);
    assert(shell.workspaces.space(a, output) == Some(space));
    lemma_mode_contents_update(shell.workspaces, a, output, new, floating);
    let before = contents(shell.workspaces.spaces(), floating);
    let after = contents(shell.with_window(window, output).workspaces.spaces(), floating);
    let o = space.layer(floating).to_multiset();
    let n = new.layer(floating).to_multiset();
    if floating == floats {
        assert(new.layer(floating) == space.layer(floating).push(element_of(w)));
        assert(n =~= o.insert(element_of(w)));
        assert forall|e: ElementView| after.count(e) == before.insert(element_of(w)).count(e) by {
            assert(after.add(o).count(e) == before.add(n).count(e));
        }
        assert(after =~= before.insert(element_of(w)));
    } else {
        assert forall|e: ElementView| after.count(e) == before.count(e) by {
            assert(after.add(o).count(e) == before.add(n).count(e));
        }
        assert(after =~= before);
    }
}

/// Moving an element to another workspace keeps every element, on the same kind of layer.
pub proof fn law_move_keeps_elements(
    shell: ShellView,
    id: ElementId,
    output: OutputId,
    idx: int,
    floating: bool,
)
    requires
        shell.workspaces.has_active(output),
        idx != shell.workspaces.active_index(output),
        shell.workspaces.space(idx, output) is Some,
        shell.workspaces.active_space(output).on_one_layer(id),
    ensures
        contents(shell.with_moved(id, output, idx).workspaces.spaces(), floating) == contents(
            shell.workspaces.spaces(),
            floating,
        ),
{
    broadcast use vstd::seq_lib::group_to_multiset_ensures;

    let mode = shell.workspaces;
    let a = mode.active_index(output);
    let space = mode.active_space(output);
    let rest = space.without_element(id);
    let taken = shell.with_taken(id, output);
    let e = space.element(id);
    let floats = space.floats(id);
    assert(mode.space(a, output) == Some(space));
    lemma_mode_contents_update(mode, a, output, rest, floating);
    lemma_other_space(mode, output, rest, idx);
    let there = taken.workspaces.space(idx, output)->0;
    let grown = there.with_element(e, floats);
    lemma_mode_contents_update(taken.workspaces, idx, output, grown, floating);
    lemma_element_layer(space, id);
    lemma_element_index(space.floating_layer, id);
    lemma_element_index(space.tiling_layer, id);
    let c0 = contents(mode.spaces(), floating);
    let c1 = contents(taken.workspaces.spaces(), floating);
    let c2 = contents(shell.with_moved(id, output, idx).workspaces.spaces(), floating);
    let o = space.layer(floating).to_multiset();
    let r = rest.layer(floating).to_multiset();
    let t = there.layer(floating).to_multiset();
    let g = grown.layer(floating).to_multiset();
    if floating == floats {
        assert(space.layer(floating).contains(e));
        assert(o.count(e) > 0);
        assert(r == o.remove(e));
        assert(g =~= t.insert(e));
    }
    assert forall|x: ElementView| c2.count(x) == c0.count(x) by {
        assert(c1.add(o).count(x) == c0.add(r).count(x));
        assert(c2.add(t).count(x) == c1.add(g).count(x));
    }
    assert(c2 =~= c0);
}

/// An element that is moved is on top of the layer of the same kind of its new workspace.
pub proof fn law_move_arrives(shell: ShellView, id: ElementId, output: OutputId, idx: int)
    requires
        shell.workspaces.has_active(output),
        idx != shell.workspaces.active_index(output),
        shell.workspaces.space(idx, output) is Some,
    ensures
        ({
            let space = shell.workspaces.active_space(output);
            let there = shell.workspaces.space(idx, output)->0;
            let after = shell.with_moved(id, output, idx).workspaces;
            &&& after.space(idx, output) == Some(
                there.with_element(space.element(id), space.floats(id)),
            )
            &&& after.active_space(output) == space.without_element(id)
            &&& after.active_index(output) == shell.workspaces.active_index(output)
        }),
{
    let mode = shell.workspaces;
    let a = mode.active_index(output);
    let space = mode.active_space(output);
    let rest = space.without_element(id);
    let taken = shell.with_taken(id, output);
    assert(mode.space(a, output) == Some(space));
    lemma_set_after(mode, output, a, rest);
    lemma_other_space(mode, output, rest, idx);
    let there = taken.workspaces.space(idx, output)->0;
    lemma_set_after(
        taken.workspaces,
        output,
        idx,
        there.with_element(space.element(id), space.floats(id)),
    );
}

} // verus!
