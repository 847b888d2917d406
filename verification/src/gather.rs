//! Turning the sets of several outputs into one set that all outputs share.
//!
//! The sets are laid side by side so that their active workspaces stand in one row. Each
//! row becomes one workspace.
use crate::geometry::max;
use crate::mode::{all_spaces, lemma_locate, lemma_locate_inverse, locate, sets_view};
use crate::output::Output;
use crate::protocol::{
    OutputId, StateView, WorkspaceGroupHandle, WorkspaceHandle, WorkspaceState,
};
use crate::set::{
    absorb, absorbed, handles, lemma_absorbed_handle, refs_view, shown_at, shown_in,
    start_workspace, started_entry, SetView, WorkspaceAmount, WorkspaceSet,
};
use crate::table::Table;
use crate::toplevel::{ToplevelInfoState, ToplevelView, WindowId};
use crate::workspace::{lemma_outputs_keep_handles, new_workspace, Workspace, WorkspaceView};
use vstd::prelude::*;

verus! {

/// The row of the active workspaces: there is room above it for those of every set that
/// come before.
pub open spec fn lead(sets: Seq<(OutputId, SetView)>) -> int
    decreases sets.len(),
{
    if sets.len() == 0 {
        0
    } else {
        max(lead(sets.drop_last()), sets.last().1.active)
    }
}

/// The number of rows from the active workspaces on: there is room for those of every set.
pub open spec fn depth(sets: Seq<(OutputId, SetView)>) -> int
    decreases sets.len(),
{
    if sets.len() == 0 {
        0
    } else {
        let set = sets.last().1;
        max(depth(sets.drop_last()), set.workspaces.len() - set.active)
    }
}

/// The number of rows.
pub open spec fn row_count(sets: Seq<(OutputId, SetView)>) -> int {
    lead(sets) + depth(sets)
}

/// The position in a set of the workspace that stands in row `r`, if there is one.
pub open spec fn row_place(set: SetView, lead: int, r: int) -> int {
    r - lead + set.active
}

/// The workspaces in row `r`, set by set, where the active ones stand in row `lead`.
pub open spec fn row(sets: Seq<(OutputId, SetView)>, lead: int, r: int) -> Seq<WorkspaceView>
    decreases sets.len(),
{
    if sets.len() == 0 {
        Seq::empty()
    } else {
        let set = sets.last().1;
        let i = row_place(set, lead, r);
        let before = row(sets.drop_last(), lead, r);
        if 0 <= i < set.workspaces.len() {
            before.push(set.workspaces[i])
        } else {
            before
        }
    }
}

/// The workspaces in the first `n` rows, row by row.
pub open spec fn first_rows(sets: Seq<(OutputId, SetView)>, lead: int, n: int) -> Seq<WorkspaceView>
    decreases n,
{
    if n <= 0 {
        Seq::empty()
    } else {
        first_rows(sets, lead, n - 1) + row(sets, lead, n - 1)
    }
}

/// Whether any of the workspaces is tiled.
pub open spec fn some_tiled(s: Seq<WorkspaceView>) -> bool {
    exists|k: int| 0 <= k < s.len() && (#[trigger] s[k]).tiling_enabled
}

/// The workspace that a row starts with, before anything is on it.
pub open spec fn row_start(
    outputs: Seq<Output>,
    handle: WorkspaceHandle,
    s: Seq<WorkspaceView>,
) -> WorkspaceView {
    WorkspaceView {
        tiling_enabled: some_tiled(s),
        ..new_workspace(handle).with_outputs(outputs)
    }
}

/// The workspace that a row becomes.
pub open spec fn merged_row(
    outputs: Seq<Output>,
    handle: WorkspaceHandle,
    s: Seq<WorkspaceView>,
) -> WorkspaceView {
    absorbed(row_start(outputs, handle, s), s)
}

/// The workspaces that the first `n` rows become, under handles from `first` on.
pub open spec fn merged_rows(
    sets: Seq<(OutputId, SetView)>,
    outputs: Seq<Output>,
    first: int,
    n: int,
) -> Seq<WorkspaceView> {
    Seq::new(
        n as nat,
        |r: int| merged_row(outputs, (first + r) as u64, row(sets, lead(sets), r)),
    )
}

/// The set that all outputs share once sets are merged. Its group goes by the handle `next`.
pub open spec fn merged_set(
    sets: Seq<(OutputId, SetView)>,
    outputs: Seq<Output>,
    next: int,
) -> SetView {
    SetView {
        active: if depth(sets) > 0 {
            lead(sets)
        } else {
            0
        },
        group: next as u64,
        workspaces: merged_rows(sets, outputs, next + 1, row_count(sets)),
    }
}

/// The groups of some sets.
pub open spec fn groups_of(sets: Seq<(OutputId, SetView)>) -> Set<WorkspaceGroupHandle> {
    Set::new(
        |g: WorkspaceGroupHandle|
            exists|i: int| 0 <= i < sets.len() && (#[trigger] sets[i]).1.group == g,
    )
}

impl StateView {
    /// The state without the workspaces `gone`, and with `n` new ones in `group`, one at each
    /// place from the first on.
    pub open spec fn with_rows(
        self,
        gone: Seq<WorkspaceView>,
        group: WorkspaceGroupHandle,
        n: int,
    ) -> StateView {
        StateView {
            workspaces: self.workspaces.remove_keys(handles(gone)).union_prefer_right(
                Map::new(
                    |h: WorkspaceHandle| self.next <= h < self.next + n,
                    |h: WorkspaceHandle| started_entry(group, (h - self.next) as u8, false),
                ),
            ),
            next: self.next + n,
            ..self
        }
    }

    /// What clients are told once sets are merged: a new group, a new workspace in it for
    /// each row, and neither the old workspaces nor their groups.
    pub open spec fn with_merged(self, sets: Seq<(OutputId, SetView)>) -> StateView {
        self.with_new_group().with_rows(
            all_spaces(sets),
            self.next as u64,
            row_count(sets),
        ).without_groups(groups_of(sets))
    }
}

/// Whether `x` is a window of the row that became the workspace with handle `h`.
pub open spec fn in_row(
    sets: Seq<(OutputId, SetView)>,
    first: int,
    n: int,
    x: WindowId,
    h: WorkspaceHandle,
) -> bool {
    first <= h < first + n && shown_in(row(sets, lead(sets), h - first), x)
}

impl ToplevelView {
    /// The windows of the workspaces in `gone` leave those. Those of the first `n` rows
    /// enter what their row became.
    pub open spec fn with_rows(
        self,
        gone: Seq<WorkspaceView>,
        sets: Seq<(OutputId, SetView)>,
        first: int,
        n: int,
    ) -> ToplevelView {
        ToplevelView {
            workspaces: Set::new(
                |p: (WindowId, WorkspaceHandle)|
                    (self.workspaces.contains(p) && !shown_at(gone, p.0, p.1)) || in_row(
                        sets,
                        first,
                        n,
                        p.0,
                        p.1,
                    ),
            ),
            ..self
        }
    }

    /// Each window leaves the workspace that it was on, and enters what its row became.
    pub open spec fn with_merged(self, sets: Seq<(OutputId, SetView)>, first: int) -> ToplevelView {
        self.with_rows(all_spaces(sets), sets, first, row_count(sets))
    }
}

/// Whether no set is active behind its last workspace.
pub open spec fn actives_within(sets: Seq<(OutputId, SetView)>) -> bool {
    forall|i: int|
        0 <= i < sets.len() ==> 0 <= (#[trigger] sets[i]).1.active <= sets[i].1.workspaces.len()
}

/// There is room above and below the row of active workspaces for every set.
pub proof fn lemma_rows_fit(sets: Seq<(OutputId, SetView)>)
    requires
        actives_within(sets),
    ensures
        0 <= lead(sets),
        0 <= depth(sets),
        forall|i: int|
            0 <= i < sets.len() ==> (#[trigger] sets[i]).1.active <= lead(sets)
                && sets[i].1.workspaces.len() - sets[i].1.active <= depth(sets),
    decreases sets.len(),
{
    if sets.len() > 0 {
        let before = sets.drop_last();
        assert forall|i: int| 0 <= i < before.len() implies 0 <= (#[trigger] before[i]).1.active
            <= before[i].1.workspaces.len() by {
            assert(before[i] == sets[i]);
        }
        lemma_rows_fit(before);
        assert forall|i: int| 0 <= i < sets.len() implies (#[trigger] sets[i]).1.active <= lead(sets)
            && sets[i].1.workspaces.len() - sets[i].1.active <= depth(sets) by {
            if i < before.len() {
                assert(before[i] == sets[i]);
            }
        }
        assert(sets[sets.len() - 1].1.active >= 0);
    }
}

/// Each workspace in a row comes from a set.
pub proof fn lemma_row_source(sets: Seq<(OutputId, SetView)>, lead: int, r: int, k: int) -> (s: int)
    requires
        0 <= k < row(sets, lead, r).len(),
    ensures
        0 <= s < sets.len(),
        0 <= row_place(sets[s].1, lead, r) < sets[s].1.workspaces.len(),
        row(sets, lead, r)[k] == sets[s].1.workspaces[row_place(sets[s].1, lead, r)],
    decreases sets.len(),
{
    let before = sets.drop_last();
    if k < row(before, lead, r).len() {
        let s = lemma_row_source(before, lead, r, k);
        assert(before[s] == sets[s]);
        s
    } else {
        sets.len() - 1
    }
}

/// Each set has its workspace in the row where it belongs.
pub proof fn lemma_row_has(sets: Seq<(OutputId, SetView)>, lead: int, r: int, s: int) -> (k: int)
    requires
        0 <= s < sets.len(),
        0 <= row_place(sets[s].1, lead, r) < sets[s].1.workspaces.len(),
    ensures
        0 <= k < row(sets, lead, r).len(),
        row(sets, lead, r)[k] == sets[s].1.workspaces[row_place(sets[s].1, lead, r)],
    decreases sets.len(),
{
    let before = sets.drop_last();
    if s < before.len() {
        assert(before[s] == sets[s]);
        lemma_row_has(before, lead, r, s)
    } else {
        row(before, lead, r).len() as int
    }
}

/// Whether `w` is one of the workspaces.
pub open spec fn among(s: Seq<WorkspaceView>, w: WorkspaceView) -> bool {
    exists|k: int| 0 <= k < s.len() && #[trigger] s[k] == w
}

proof fn lemma_among_first_rows(
    sets: Seq<(OutputId, SetView)>,
    lead: int,
    n: int,
    r: int,
    k: int,
)
    requires
        0 <= r < n,
        0 <= k < row(sets, lead, r).len(),
    ensures
        among(first_rows(sets, lead, n), row(sets, lead, r)[k]),
    decreases n,
{
    let all = first_rows(sets, lead, n);
    let before = first_rows(sets, lead, n - 1);
    let w = row(sets, lead, r)[k];
    if r == n - 1 {
        assert(all[before.len() + k] == w);
    } else {
        lemma_among_first_rows(sets, lead, n - 1, r, k);
        let q = choose|q: int| 0 <= q < before.len() && #[trigger] before[q] == w;
        assert(all[q] == w);
    }
}

proof fn lemma_first_rows_source(
    sets: Seq<(OutputId, SetView)>,
    lead: int,
    n: int,
    q: int,
) -> (res: (int, int))
    requires
        0 <= q < first_rows(sets, lead, n).len(),
    ensures
        0 <= res.0 < n,
        0 <= res.1 < row(sets, lead, res.0).len(),
        first_rows(sets, lead, n)[q] == row(sets, lead, res.0)[res.1],
    decreases n,
{
    let before = first_rows(sets, lead, n - 1);
    if q < before.len() {
        lemma_first_rows_source(sets, lead, n - 1, q)
    } else {
        (n - 1, q - before.len())
    }
}

/// A workspace in a row is one of all.
pub proof fn lemma_row_among_all(sets: Seq<(OutputId, SetView)>, lead: int, r: int, k: int)
    requires
        0 <= k < row(sets, lead, r).len(),
    ensures
        among(all_spaces(sets), row(sets, lead, r)[k]),
{
    let s = lemma_row_source(sets, lead, r, k);
    let i = row_place(sets[s].1, lead, r);
    lemma_locate(sets, s, i);
    assert(all_spaces(sets)[all_spaces(sets.take(s)).len() + i] == row(sets, lead, r)[k]);
}

/// The rows hold the workspaces of all sets, and nothing else.
pub proof fn lemma_rows_cover(sets: Seq<(OutputId, SetView)>)
    requires
        actives_within(sets),
    ensures
        forall|w: WorkspaceView|
            among(first_rows(sets, lead(sets), row_count(sets)), w) <==> #[trigger] among(
                all_spaces(sets),
                w,
            ),
{
    let l = lead(sets);
    let n = row_count(sets);
    let rows = first_rows(sets, l, n);
    let all = all_spaces(sets);
    lemma_rows_fit(sets);
    assert forall|w: WorkspaceView| among(rows, w) <==> #[trigger] among(all, w) by {
        if among(rows, w) {
            let q = choose|q: int| 0 <= q < rows.len() && #[trigger] rows[q] == w;
            let (r, k) = lemma_first_rows_source(sets, l, n, q);
            lemma_row_among_all(sets, l, r, k);
        }
        if among(all, w) {
            let i = choose|i: int| 0 <= i < all.len() && #[trigger] all[i] == w;
            lemma_locate_inverse(sets, i);
            let (s, k) = locate(sets, i);
            let r = k - sets[s].1.active + l;
            assert(row_place(sets[s].1, l, r) == k);
            let q = lemma_row_has(sets, l, r, s);
            lemma_among_first_rows(sets, l, n, r, q);
        }
    }
}

/// What holds the same workspaces has the same handles and shows the same windows.
proof fn lemma_same_among(a: Seq<WorkspaceView>, b: Seq<WorkspaceView>)
    requires
        forall|w: WorkspaceView| among(a, w) ==> #[trigger] among(b, w),
    ensures
        forall|h: WorkspaceHandle| handles(a).contains(h) ==> #[trigger] handles(b).contains(h),
        forall|x: WindowId, h: WorkspaceHandle| shown_at(a, x, h) ==> #[trigger] shown_at(b, x, h),
{
    assert forall|h: WorkspaceHandle| handles(a).contains(h) implies #[trigger] handles(b).contains(h) by {
        let i = choose|i: int| 0 <= i < a.len() && (#[trigger] a[i]).handle == h;
        assert(among(a, a[i]));
        assert(among(b, a[i]));
        let j = choose|j: int| 0 <= j < b.len() && #[trigger] b[j] == a[i];
        assert(b[j].handle == h);
    }
    assert forall|x: WindowId, h: WorkspaceHandle| shown_at(a, x, h) implies #[trigger] shown_at(
        b,
        x,
        h,
    ) by {
        let i = choose|i: int|
            0 <= i < a.len() && (#[trigger] a[i]).handle == h && a[i].windows().contains(x);
        assert(among(a, a[i]));
        assert(among(b, a[i]));
        let j = choose|j: int| 0 <= j < b.len() && #[trigger] b[j] == a[i];
        assert(b[j].handle == h && b[j].windows().contains(x));
    }
}

/// Finds the row of the active workspaces.
pub fn find_lead(sets: &Table<WorkspaceSet>) -> (l: usize)
    requires
        actives_within(sets_view(sets.seq())),
    ensures
        l == lead(sets_view(sets.seq())),
{
    let ghost v = sets_view(sets.seq());
    let mut l: usize = 0;
    let mut s: usize = 0;
    assert(v.take(0) =~= Seq::<(OutputId, SetView)>::empty());
    while s < sets.entries.len()
        invariant
            s <= sets.entries.len(),
            v == sets_view(sets.seq()),
            l == lead(v.take(s as int)),
        decreases sets.entries.len() - s,
    {
        proof {
            assert(v.take(s + 1).drop_last() =~= v.take(s as int));
            assert(v.take(s + 1).last() == v[s as int]);
        }
        let active: usize = sets.entries[s].1.active;
        assert(v[s as int].1.active == active);
        if active > l {
            l = active;
        }
        s += 1;
    }
    assert(v.take(s as int) =~= v);
    l
}

/// Finds the number of rows from the active workspaces on.
pub fn find_depth(sets: &Table<WorkspaceSet>) -> (d: usize)
    requires
        actives_within(sets_view(sets.seq())),
    ensures
        d == depth(sets_view(sets.seq())),
{
    let ghost v = sets_view(sets.seq());
    let mut d: usize = 0;
    let mut s: usize = 0;
    assert(v.take(0) =~= Seq::<(OutputId, SetView)>::empty());
    while s < sets.entries.len()
        invariant
            s <= sets.entries.len(),
            v == sets_view(sets.seq()),
            actives_within(v),
            d == depth(v.take(s as int)),
        decreases sets.entries.len() - s,
    {
        proof {
            assert(v.take(s + 1).drop_last() =~= v.take(s as int));
            assert(v.take(s + 1).last() == v[s as int]);
            assert(v[s as int].1.workspaces.len() == sets.seq()[s as int].1.workspaces@.len());
            assert(v[s as int].1.active <= v[s as int].1.workspaces.len());
        }
        let set: &WorkspaceSet = &sets.entries[s].1;
        let below: usize = set.workspaces.len() - set.active;
        if below > d {
            d = below;
        }
        s += 1;
    }
    assert(v.take(s as int) =~= v);
    d
}

/// Collects the workspaces in row `r`.
fn collect_row<'a>(sets: &'a Table<WorkspaceSet>, l: usize, r: usize) -> (res: Vec<&'a Workspace>)
    requires
        actives_within(sets_view(sets.seq())),
        forall|i: int| 0 <= i < sets.seq().len() ==> (#[trigger] sets.seq()[i]).1.wf(),
    ensures
        refs_view(res@) == row(sets_view(sets.seq()), l as int, r as int),
        forall|i: int| 0 <= i < res@.len() ==> (#[trigger] res@[i]).wf(),
{
    let ghost v = sets_view(sets.seq());
    let mut res: Vec<&'a Workspace> = Vec::new();
    let mut s: usize = 0;
    assert(v.take(0) =~= Seq::<(OutputId, SetView)>::empty());
    assert(refs_view(res@) =~= row(v.take(0), l as int, r as int));
    while s < sets.entries.len()
        invariant
            s <= sets.entries.len(),
            v == sets_view(sets.seq()),
            actives_within(v),
            forall|i: int| 0 <= i < sets.seq().len() ==> (#[trigger] sets.seq()[i]).1.wf(),
            refs_view(res@) == row(v.take(s as int), l as int, r as int),
            forall|i: int| 0 <= i < res@.len() ==> (#[trigger] res@[i]).wf(),
        decreases sets.entries.len() - s,
    {
        let set: &WorkspaceSet = &sets.entries[s].1;
        proof {
            assert(v.take(s + 1).drop_last() =~= v.take(s as int));
            assert(v.take(s + 1).last() == v[s as int]);
            assert(v[s as int].1 == set@);
            assert(set@.workspaces.len() == set.workspaces@.len());
            assert(v[s as int].1.active <= v[s as int].1.workspaces.len());
            assert(sets.seq()[s as int].1.wf());
        }
        let len: usize = set.workspaces.len();
        let ghost before = refs_view(res@);
        if r >= l {
            if r - l < len - set.active {
                let i: usize = set.active + (r - l);
                res.push(&set.workspaces[i]);
                assert(refs_view(res@) =~= before.push(set@.workspaces[i as int]));
            }
        } else if l - r <= set.active {
            let i: usize = set.active - (l - r);
            res.push(&set.workspaces[i]);
            assert(refs_view(res@) =~= before.push(set@.workspaces[i as int]));
        }
        s += 1;
    }
    assert(v.take(s as int) =~= v);
    res
}

/// Whether any of the workspaces is tiled.
fn any_tiled(workspaces: &Vec<&Workspace>) -> (r: bool)
    ensures
        r == some_tiled(refs_view(workspaces@)),
{
    let ghost v = refs_view(workspaces@);
    let mut k: usize = 0;
    while k < workspaces.len()
        invariant
            k <= workspaces.len(),
            v == refs_view(workspaces@),
            forall|j: int| 0 <= j < k ==> !(#[trigger] v[j]).tiling_enabled,
        decreases workspaces.len() - k,
    {
        assert(v[k as int] == workspaces@[k as int]@);
        if workspaces[k].tiling_enabled {
            return true;
        }
        k += 1;
    }
    false
}

/// One more row leaves one more workspace.
proof fn lemma_state_one_more(
    base: StateView,
    gone: Seq<WorkspaceView>,
    more: Seq<WorkspaceView>,
    group: WorkspaceGroupHandle,
    n: int,
)
    requires
        0 <= n < 255,
        0 <= base.next,
        base.next + n < u64::MAX,
        forall|h: WorkspaceHandle| #[trigger] handles(more).contains(h) ==> h < base.next,
    ensures
        base.with_rows(gone, group, n).with_new_workspace(
            started_entry(group, n as u8, false),
        ).without_workspaces(handles(more)) == base.with_rows(gone + more, group, n + 1),
{
    let both = gone + more;
    assert forall|h: WorkspaceHandle| handles(both).contains(h) == (handles(gone).contains(h)
        || handles(more).contains(h)) by {
        if handles(gone).contains(h) {
            let i = choose|i: int| 0 <= i < gone.len() && (#[trigger] gone[i]).handle == h;
            assert(both[i].handle == h);
        }
        if handles(more).contains(h) {
            let i = choose|i: int| 0 <= i < more.len() && (#[trigger] more[i]).handle == h;
            assert(both[gone.len() + i].handle == h);
        }
        if handles(both).contains(h) {
            let i = choose|i: int| 0 <= i < both.len() && (#[trigger] both[i]).handle == h;
            if i < gone.len() {
                assert(gone[i].handle == h);
            } else {
                assert(more[i - gone.len()].handle == h);
            }
        }
    }
    assert(base.with_rows(gone, group, n).with_new_workspace(
        started_entry(group, n as u8, false),
    ).without_workspaces(handles(more)) =~= base.with_rows(both, group, n + 1));
}

/// The windows of one more row enter what it became.
proof fn lemma_toplevels_one_more(
    t: ToplevelView,
    gone: Seq<WorkspaceView>,
    sets: Seq<(OutputId, SetView)>,
    first: int,
    n: int,
)
    requires
        0 <= n,
        0 <= first,
        first + n < u64::MAX,
        forall|h: WorkspaceHandle| #[trigger]
            handles(row(sets, lead(sets), n)).contains(h) ==> h < first,
    ensures
        t.with_rows(gone, sets, first, n).gathered(
            row(sets, lead(sets), n),
            (first + n) as u64,
        ) == t.with_rows(gone + row(sets, lead(sets), n), sets, first, n + 1),
{
    let more = row(sets, lead(sets), n);
    let both = gone + more;
    let to = (first + n) as u64;
    assert forall|x: WindowId, h: WorkspaceHandle| shown_at(both, x, h) == (shown_at(gone, x, h)
        || shown_at(more, x, h)) by {
        if shown_at(gone, x, h) {
            let i = choose|i: int|
                0 <= i < gone.len() && (#[trigger] gone[i]).handle == h && gone[i].windows().contains(
                    x,
                );
            assert(both[i] == gone[i]);
        }
        if shown_at(more, x, h) {
            let i = choose|i: int|
                0 <= i < more.len() && (#[trigger] more[i]).handle == h && more[i].windows().contains(
                    x,
                );
            assert(both[gone.len() + i] == more[i]);
        }
        if shown_at(both, x, h) {
            let i = choose|i: int|
                0 <= i < both.len() && (#[trigger] both[i]).handle == h && both[i].windows().contains(
                    x,
                );
            if i < gone.len() {
                assert(gone[i] == both[i]);
            } else {
                assert(more[i - gone.len()] == both[i]);
            }
        }
    }
    let a = t.with_rows(gone, sets, first, n).gathered(more, to);
    let b = t.with_rows(both, sets, first, n + 1);
    assert forall|p: (WindowId, WorkspaceHandle)| a.workspaces.contains(p) == b.workspaces.contains(
        p,
    ) by {
        if shown_at(more, p.0, p.1) {
            let i = choose|i: int|
                0 <= i < more.len() && (#[trigger] more[i]).handle == p.1
                    && more[i].windows().contains(p.0);
            assert(handles(more).contains(p.1));
        }
    }
    assert(a =~= b);
}

/// Merges the sets of several outputs into one.
pub fn merge_sets(
    sets: &Table<WorkspaceSet>,
    outputs: &Vec<Output>,
    state: &mut WorkspaceState,
    toplevel_info: &mut ToplevelInfoState,
) -> (new_set: WorkspaceSet)
    requires
        forall|i: int| 0 <= i < sets.seq().len() ==> (#[trigger] sets.seq()[i]).1.wf(),
        actives_within(sets_view(sets.seq())),
        forall|i: int|
            0 <= i < sets.seq().len() ==> (#[trigger] sets_view(sets.seq())[i]).1.registered(
                old(state)@,
            ),
        old(state).wf(),
        row_count(sets_view(sets.seq())) <= 255,
        old(state)@.next + 1 + row_count(sets_view(sets.seq())) <= u64::MAX,
    ensures
        new_set.wf(),
        final(state).wf(),
        new_set@ == merged_set(sets_view(sets.seq()), outputs@, old(state)@.next),
        final(state)@ == old(state)@.with_merged(sets_view(sets.seq())),
        final(toplevel_info)@ == old(toplevel_info)@.with_merged(
            sets_view(sets.seq()),
            old(state)@.next + 1,
        ),
{
    let ghost v = sets_view(sets.seq());
    let ghost start = state@;
    let ghost tops = toplevel_info@;
    proof {
        lemma_rows_fit(v);
    }
    let mut new_set = WorkspaceSet::new(state, WorkspaceAmount::Static(0));
    let l: usize = find_lead(sets);
    let d: usize = find_depth(sets);
    let count: usize = l + d;
    let group: WorkspaceGroupHandle = new_set.group;
    let ghost base = start.with_new_group();
    let ghost first = base.next;
    let mut r: usize = 0;
    proof {
        assert(state@ =~= base.with_rows(first_rows(v, l as int, 0), group, 0));
        assert(toplevel_info@ =~= tops.with_rows(first_rows(v, l as int, 0), v, first, 0));
        assert(new_set@.workspaces =~= merged_rows(v, outputs@, first, 0));
    }
    while r < count
        invariant
            r <= count,
            count == row_count(v),
            count <= 255,
            l == lead(v),
            v == sets_view(sets.seq()),
            forall|i: int| 0 <= i < sets.seq().len() ==> (#[trigger] sets.seq()[i]).1.wf(),
            actives_within(v),
            forall|i: int| 0 <= i < v.len() ==> (#[trigger] v[i]).1.registered(start),
            start.wf(),
            base == start.with_new_group(),
            first == base.next,
            first + count <= u64::MAX,
            group == start.next,
            new_set.wf(),
            new_set.active == 0,
            new_set.group == group,
            new_set@.workspaces == merged_rows(v, outputs@, first, r as int),
            state.wf(),
            state@ == base.with_rows(first_rows(v, l as int, r as int), group, r as int),
            toplevel_info@ == tops.with_rows(
                first_rows(v, l as int, r as int),
                v,
                first,
                r as int,
            ),
        decreases count - r,
    {
        // merge each row into one workspace and put that into the new set
        let workspaces = collect_row(sets, l, r);
        let ghost more = row(v, l as int, r as int);
        let ghost gone = first_rows(v, l as int, r as int);
        proof {
            assert forall|h: WorkspaceHandle| #[trigger] handles(more).contains(h) implies h
                < start.next by {
                let k = choose|k: int| 0 <= k < more.len() && (#[trigger] more[k]).handle == h;
                let s = lemma_row_source(v, l as int, r as int, k);
                assert(v[s].1.registered(start));
                let i = row_place(v[s].1, l as int, r as int);
                assert(start.workspaces.dom().contains(v[s].1.workspaces[i].handle));
            }
            lemma_state_one_more(base, gone, more, group, r as int);
            lemma_toplevels_one_more(tops, gone, v, first, r as int);
            assert(base.groups.dom().contains(group));
            assert(first_rows(v, l as int, r + 1) == gone + more);
        }
        let mut merged = start_workspace(state, group, r as u8, false);
        let ghost handle = merged.handle;
        assert(handle == first + r);
        merged.map_outputs(outputs);
        merged.tiling_enabled = any_tiled(&workspaces);
        proof {
            assert(merged@ =~= row_start(outputs@, handle, more));
            lemma_outputs_keep_handles(new_workspace(handle), outputs@);
        }
        absorb(&mut merged, &workspaces, state, toplevel_info);
        let ghost before = new_set@.workspaces;
        new_set.workspaces.push(merged);
        proof {
            assert(new_set@.workspaces =~= before.push(merged@));
            assert(new_set@.workspaces =~= merged_rows(v, outputs@, first, r + 1));
        }
        r += 1;
    }
    if d > 0 {
        new_set.active = l;
    }
    proof {
        let rows = first_rows(v, l as int, count as int);
        let all = all_spaces(v);
        lemma_rows_cover(v);
        lemma_same_among(rows, all);
        lemma_same_among(all, rows);
        assert(handles(rows) =~= handles(all));
        assert(state@ =~= base.with_rows(all, group, count as int));
        assert(toplevel_info@ =~= tops.with_rows(all, v, first, count as int));
        assert(new_set@ =~= merged_set(v, outputs@, start.next));
    }
    let ghost known = state@;
    let mut s: usize = 0;
    assert(v.take(0) =~= Seq::<(OutputId, SetView)>::empty());
    assert(state@ =~= known.without_groups(groups_of(v.take(0))));
    while s < sets.entries.len()
        invariant
            s <= sets.entries.len(),
            v == sets_view(sets.seq()),
            state.wf(),
            state@ == known.without_groups(groups_of(v.take(s as int))),
        decreases sets.entries.len() - s,
    {
        state.remove_workspace_group(sets.entries[s].1.group);
        proof {
            let a = v.take(s as int);
            let b = v.take(s + 1);
            let g = v[s as int].1.group;
            assert(b[s as int].1.group == g);
            assert forall|q: WorkspaceGroupHandle| groups_of(b).contains(q) == (groups_of(
                a,
            ).contains(q) || q == g) by {
                if groups_of(a).contains(q) {
                    let i = choose|i: int| 0 <= i < a.len() && (#[trigger] a[i]).1.group == q;
                    assert(b[i].1.group == q);
                }
                if groups_of(b).contains(q) {
                    let i = choose|i: int| 0 <= i < b.len() && (#[trigger] b[i]).1.group == q;
                    if i < s {
                        assert(a[i].1.group == q);
                    }
                }
            }
            assert(state@ =~= known.without_groups(groups_of(b)));
        }
        s += 1;
    }
    assert(v.take(s as int) =~= v);
    new_set
}

/// Once sets are merged, clients know the new set.
pub proof fn lemma_merged_registered(
    sets: Seq<(OutputId, SetView)>,
    outputs: Seq<Output>,
    state: StateView,
)
    requires
        state.wf(),
        actives_within(sets),
        forall|i: int| 0 <= i < sets.len() ==> (#[trigger] sets[i]).1.registered(state),
        state.next + 1 + row_count(sets) <= u64::MAX,
    ensures
        merged_set(sets, outputs, state.next).registered(state.with_merged(sets)),
        state.with_merged(sets).wf(),
{
    let set = merged_set(sets, outputs, state.next);
    let after = state.with_merged(sets);
    lemma_rows_fit(sets);
    assert(!groups_of(sets).contains(set.group)) by {
        if groups_of(sets).contains(set.group) {
            let i = choose|i: int| 0 <= i < sets.len() && (#[trigger] sets[i]).1.group == set.group;
            assert(sets[i].1.registered(state));
        }
    }
    assert forall|r: int| 0 <= r < set.workspaces.len() implies (
    #[trigger] set.workspaces[r]).handle == state.next + 1 + r by {
        let h = (state.next + 1 + r) as u64;
        let s = row(sets, lead(sets), r);
        lemma_absorbed_handle(row_start(outputs, h, s), s);
        lemma_outputs_keep_handles(new_workspace(h), outputs);
    }
}

} // verus!
