//! Sets of workspaces, of which one is active.
use crate::geometry::Point;
use crate::output::Output;
use crate::protocol::{
    blank_entry, number_text, EntryView, OutputId, StateView, WState, WorkspaceGroupHandle,
    WorkspaceHandle, WorkspaceState,
};
use crate::toplevel::{ToplevelInfoState, ToplevelView, WindowId};
use crate::workspace::{new_workspace, Workspace, WorkspaceView};
use vstd::prelude::*;

verus! {

/// How many workspaces a set is to have.
#[derive(Debug, Clone, Copy, PartialEq, Eq, Structural)]
pub enum WorkspaceAmount {
    /// As many as hold windows, and an empty one at the end.
    Dynamic,
    /// This many.
    Static(u8),
}

/// Workspaces in order. All of them belong to one group, and one of them is active.
#[derive(Debug)]
pub struct WorkspaceSet {
    pub active: usize,
    pub group: WorkspaceGroupHandle,
    pub workspaces: Vec<Workspace>,
}

/// The value of a [`WorkspaceSet`].
#[verifier::ext_equal]
pub struct SetView {
    pub active: int,
    pub group: WorkspaceGroupHandle,
    pub workspaces: Seq<WorkspaceView>,
}

/// The values of some workspaces.
pub open spec fn workspaces_view(s: Seq<Workspace>) -> Seq<WorkspaceView> {
    s.map_values(|w: Workspace| w@)
}

impl View for WorkspaceSet {
    type V = SetView;

    open spec fn view(&self) -> SetView {
        SetView {
            active: self.active as int,
            group: self.group,
            workspaces: workspaces_view(self.workspaces@),
        }
    }
}

/// A set of workspaces together with what clients are told.
#[verifier::ext_equal]
pub struct SetScene {
    pub set: SetView,
    pub state: StateView,
    pub toplevels: ToplevelView,
}

/// What is announced of a workspace of `group` that starts at place `idx`.
pub open spec fn started_entry(group: WorkspaceGroupHandle, idx: u8, active: bool) -> EntryView {
    (EntryView { active, ..blank_entry(group) }).initialised(idx)
}

/// The handles of some workspaces.
pub open spec fn handles(s: Seq<WorkspaceView>) -> Set<WorkspaceHandle> {
    Set::new(|h: WorkspaceHandle| exists|i: int| 0 <= i < s.len() && (#[trigger] s[i]).handle == h)
}

/// No two workspaces have the same handle.
pub open spec fn handles_distinct(s: Seq<WorkspaceView>) -> bool {
    forall|i: int, j: int|
        0 <= i < j < s.len() ==> (#[trigger] s[i]).handle != (#[trigger] s[j]).handle
}

/// `n` empty workspaces with handles from `first` on.
pub open spec fn new_workspaces(first: int, n: int) -> Seq<WorkspaceView> {
    Seq::new(n as nat, |i: int| new_workspace((first + i) as u64))
}

impl StateView {
    /// The state with `n` more workspaces in `group`, all of them started at the first
    /// place. Where `lead` holds, the first of them is active.
    pub open spec fn with_started(self, group: WorkspaceGroupHandle, n: int, lead: bool) -> StateView {
        StateView {
            workspaces: self.workspaces.union_prefer_right(
                Map::new(
                    |h: WorkspaceHandle| self.next <= h < self.next + n,
                    |h: WorkspaceHandle| started_entry(group, 0, lead && h == self.next),
                ),
            ),
            next: self.next + n,
            ..self
        }
    }
}

impl WorkspaceAmount {
    /// How many workspaces a new set starts with.
    pub open spec fn initial(self) -> int {
        match self {
            WorkspaceAmount::Dynamic => 1,
            WorkspaceAmount::Static(len) => len as int,
        }
    }
}

impl SetView {
    /// Clients know the set's group, and know its workspaces as members of that group.
    pub open spec fn registered(self, state: StateView) -> bool {
        &&& state.groups.dom().contains(self.group)
        &&& handles_distinct(self.workspaces)
        &&& forall|i: int|
            0 <= i < self.workspaces.len() ==> state.workspaces.dom().contains(
                (#[trigger] self.workspaces[i]).handle,
            ) && state.workspaces[self.workspaces[i].handle].group == self.group
    }

    /// The set with another workspace active.
    pub open spec fn activated(self, idx: int) -> SetView {
        if 0 <= idx < self.workspaces.len() {
            SetView { active: idx, ..self }
        } else {
            self
        }
    }
}

impl SetView {
    /// The set with each workspace shown on an output, which lies at `position`.
    pub open spec fn with_output(self, output: OutputId, position: Point) -> SetView {
        SetView {
            workspaces: self.workspaces.map_values(
                |w: WorkspaceView| w.with_output(output, position),
            ),
            ..self
        }
    }

    /// The set with no workspace shown on an output, each to be laid out again.
    pub open spec fn without_output(self, output: OutputId) -> SetView {
        SetView {
            workspaces: self.workspaces.map_values(
                |w: WorkspaceView| w.without_output(output).refreshed(),
            ),
            ..self
        }
    }

    /// The set with each workspace shown on all of the outputs.
    pub open spec fn with_outputs(self, outputs: Seq<Output>) -> SetView {
        SetView {
            workspaces: self.workspaces.map_values(|w: WorkspaceView| w.with_outputs(outputs)),
            ..self
        }
    }
}

/// Gives a workspace what every workspace at place `idx` starts with.
pub fn init_workspace_handle(state: &mut WorkspaceState, idx: u8, handle: WorkspaceHandle)
    requires
        old(state).wf(),
        idx < 255,
    ensures
        final(state).wf(),
        final(state)@ == old(state)@.replaced(
            handle,
            old(state)@.workspaces[handle].initialised(idx),
        ),
{
    state.set_workspace_capabilities(handle, true);
    state.set_workspace_name(handle, number_text((idx + 1) as u16));
    state.set_workspace_coordinates(handle, (Some(idx as u32), None, None));
    state.add_workspace_state(handle, WState::Hidden);
    assert(state@ =~= old(state)@.replaced(
        handle,
        old(state)@.workspaces[handle].initialised(idx),
    ));
}

/// Starts a workspace in a group, at place `idx`.
pub fn start_workspace(
    state: &mut WorkspaceState,
    group: WorkspaceGroupHandle,
    idx: u8,
    active: bool,
) -> (w: Workspace)
    requires
        old(state).wf(),
        old(state)@.groups.dom().contains(group),
        old(state)@.next < u64::MAX,
        idx < 255,
    ensures
        final(state).wf(),
        w.wf(),
        w@ == new_workspace(old(state)@.next as u64),
        final(state)@ == old(state)@.with_new_workspace(started_entry(group, idx, active)),
{
    let handle: WorkspaceHandle = state.create_workspace(group).unwrap();
    if active {
        state.add_workspace_state(handle, WState::Active);
    }
    init_workspace_handle(state, idx, handle);
    assert(state@ =~= old(state)@.with_new_workspace(started_entry(group, idx, active)));
    Workspace::new(handle)
}

/// Starts a workspace at the first place of a group.
pub fn create_workspace(
    state: &mut WorkspaceState,
    group: WorkspaceGroupHandle,
    active: bool,
) -> (w: Workspace)
    requires
        old(state).wf(),
        old(state)@.groups.dom().contains(group),
        old(state)@.next < u64::MAX,
    ensures
        final(state).wf(),
        w.wf(),
        w@ == new_workspace(old(state)@.next as u64),
        final(state)@ == old(state)@.with_new_workspace(started_entry(group, 0, active)),
{
    start_workspace(state, group, 0, active)
}

impl WorkspaceSet {
    /// Each workspace is well formed.
    pub open spec fn wf(self) -> bool {
        forall|i: int| 0 <= i < self.workspaces@.len() ==> (#[trigger] self.workspaces@[i]).wf()
    }

    /// Starts a set, in a group of its own.
    pub fn new(state: &mut WorkspaceState, amount: WorkspaceAmount) -> (set: WorkspaceSet)
        requires
            old(state).wf(),
            old(state)@.next + 1 + amount.initial() <= u64::MAX,
        ensures
            final(state).wf(),
            set.wf(),
            set@ == (SetView {
                active: 0,
                group: old(state)@.next as u64,
                workspaces: new_workspaces(old(state)@.next + 1, amount.initial()),
            }),
            final(state)@ == old(state)@.with_new_group().with_started(
                old(state)@.next as u64,
                amount.initial(),
                true,
            ),
            set@.registered(final(state)@),
    {
        let group: WorkspaceGroupHandle = state.create_workspace_group();
        let n: usize = match amount {
            WorkspaceAmount::Dynamic => 1,
            WorkspaceAmount::Static(len) => len as usize,
        };
        let mut workspaces: Vec<Workspace> = Vec::new();
        let ghost base = state@;
        let mut i: usize = 0;
        assert(state@ =~= base.with_started(group, 0, true));
        while i < n
            invariant
                i <= n,
                n == amount.initial(),
                base == old(state)@.with_new_group(),
                group == old(state)@.next,
                base.groups.dom().contains(group),
                base.next + n <= u64::MAX,
                state.wf(),
                state@ == base.with_started(group, i as int, true),
                workspaces.len() == i,
                forall|j: int|
                    0 <= j < i ==> (#[trigger] workspaces@[j]).wf() && workspaces@[j]@
                        == new_workspace((base.next + j) as u64),
            decreases n - i,
        {
            let w = create_workspace(state, group, i == 0);
            workspaces.push(w);
            assert(state@ =~= base.with_started(group, i + 1, true));
            i += 1;
        }
        let set = WorkspaceSet { active: 0, group, workspaces };
        assert(set@.workspaces =~= new_workspaces(old(state)@.next + 1, amount.initial()));
        set
    }

    /// Makes another workspace the active one. Does nothing where there is none at `idx`.
    pub fn activate(&mut self, idx: usize, state: &mut WorkspaceState)
        requires
            old(self).wf(),
            old(state).wf(),
            idx < old(self)@.workspaces.len() && old(self)@.active != idx ==> old(self)@.active < old(
                self,
            )@.workspaces.len(),
        ensures
            final(self).wf(),
            final(state).wf(),
            final(self)@ == old(self)@.activated(idx as int),
            final(state)@ == activated_state(old(self)@, old(state)@, idx as int),
    {
        if idx < self.workspaces.len() && self.active != idx {
            let old_active: usize = self.active;
            state.remove_workspace_state(self.workspaces[old_active].handle, WState::Active);
            state.add_workspace_state(self.workspaces[idx].handle, WState::Active);
            self.active = idx;
        }
    }

    /// Shows each workspace on an output, which lies at `position`.
    pub fn map_output(&mut self, output: OutputId, position: Point)
        requires
            old(self).wf(),
        ensures
            final(self).wf(),
            final(self)@ == old(self)@.with_output(output, position),
    {
        let ghost before = self@;
        let mut i: usize = 0;
        while i < self.workspaces.len()
            invariant
                i <= self.workspaces.len(),
                self.wf(),
                self.active == before.active,
                self.group == before.group,
                self.workspaces.len() == before.workspaces.len(),
                forall|j: int|
                    0 <= j < i ==> (#[trigger] self.workspaces@[j])@
                        == before.workspaces[j].with_output(output, position),
                forall|j: int|
                    i <= j < self.workspaces.len() ==> (#[trigger] self.workspaces@[j])@
                        == before.workspaces[j],
            decreases self.workspaces.len() - i,
        {
            self.workspaces[i].map_output(output, position);
            i += 1;
        }
        assert(self@ =~= before.with_output(output, position));
    }

    /// Shows no workspace on an output any longer.
    pub fn unmap_output(&mut self, output: OutputId)
        requires
            old(self).wf(),
        ensures
            final(self).wf(),
            final(self)@ == old(self)@.without_output(output),
    {
        let ghost before = self@;
        let mut i: usize = 0;
        while i < self.workspaces.len()
            invariant
                i <= self.workspaces.len(),
                self.wf(),
                self.active == before.active,
                self.group == before.group,
                self.workspaces.len() == before.workspaces.len(),
                forall|j: int|
                    0 <= j < i ==> (#[trigger] self.workspaces@[j])@
                        == before.workspaces[j].without_output(output).refreshed(),
                forall|j: int|
                    i <= j < self.workspaces.len() ==> (#[trigger] self.workspaces@[j])@
                        == before.workspaces[j],
            decreases self.workspaces.len() - i,
        {
            self.workspaces[i].unmap_output(output);
            self.workspaces[i].refresh();
            i += 1;
        }
        assert(self@ =~= before.without_output(output));
    }

    /// Shows each workspace on all of the outputs, each where it lies.
    pub fn map_outputs(&mut self, outputs: &Vec<Output>)
        requires
            old(self).wf(),
        ensures
            final(self).wf(),
            final(self)@ == old(self)@.with_outputs(outputs@),
    {
        let ghost before = self@;
        let mut i: usize = 0;
        while i < self.workspaces.len()
            invariant
                i <= self.workspaces.len(),
                self.wf(),
                self.active == before.active,
                self.group == before.group,
                self.workspaces.len() == before.workspaces.len(),
                forall|j: int|
                    0 <= j < i ==> (#[trigger] self.workspaces@[j])@
                        == before.workspaces[j].with_outputs(outputs@),
                forall|j: int|
                    i <= j < self.workspaces.len() ==> (#[trigger] self.workspaces@[j])@
                        == before.workspaces[j],
            decreases self.workspaces.len() - i,
        {
            self.workspaces[i].map_outputs(outputs);
            i += 1;
        }
        assert(self@ =~= before.with_outputs(outputs@));
    }
}

/// What clients are told when the workspace at `idx` of a set is made the active one.
pub open spec fn activated_state(set: SetView, state: StateView, idx: int) -> StateView {
    if 0 <= idx < set.workspaces.len() && idx != set.active {
        state.with_state(set.workspaces[set.active].handle, WState::Active, false).with_state(
            set.workspaces[idx].handle,
            WState::Active,
            true,
        )
    } else {
        state
    }
}

/// Whether the workspace at `i` of a dynamic set stays: those that show windows do, and
/// so do the active one and the last one.
pub open spec fn stays(s: Seq<WorkspaceView>, active: int, i: int) -> bool {
    s[i].has_windows() || i == active || i == s.len() - 1
}

/// Those of the first `n` workspaces that stay, in order.
pub open spec fn kept(s: Seq<WorkspaceView>, active: int, n: int) -> Seq<WorkspaceView>
    decreases n,
{
    if n <= 0 {
        Seq::empty()
    } else if stays(s, active, n - 1) {
        kept(s, active, n - 1).push(s[n - 1])
    } else {
        kept(s, active, n - 1)
    }
}

/// The handles of those of the first `n` workspaces that do not stay.
pub open spec fn dropped(s: Seq<WorkspaceView>, active: int, n: int) -> Set<WorkspaceHandle> {
    Set::new(
        |h: WorkspaceHandle|
            exists|i: int| 0 <= i < n && !stays(s, active, i) && (#[trigger] s[i]).handle == h,
    )
}

/// A workspace with all of `rest` merged into it, one after the other.
pub open spec fn absorbed(w: WorkspaceView, rest: Seq<WorkspaceView>) -> WorkspaceView
    decreases rest.len(),
{
    if rest.len() == 0 {
        w
    } else {
        absorbed(w, rest.drop_last()).merged(rest.last())
    }
}

/// Whether `x` is a window of one of the workspaces.
pub open spec fn shown_in(s: Seq<WorkspaceView>, x: WindowId) -> bool {
    exists|k: int| 0 <= k < s.len() && (#[trigger] s[k]).windows().contains(x)
}

/// Whether `x` is a window of a workspace with handle `h`.
pub open spec fn shown_at(s: Seq<WorkspaceView>, x: WindowId, h: WorkspaceHandle) -> bool {
    exists|k: int|
        0 <= k < s.len() && (#[trigger] s[k]).handle == h && s[k].windows().contains(x)
}

impl ToplevelView {
    /// The windows of the workspaces in `from` leave those and enter workspace `to`.
    pub open spec fn gathered(self, from: Seq<WorkspaceView>, to: WorkspaceHandle) -> ToplevelView {
        ToplevelView {
            workspaces: Set::new(
                |p: (WindowId, WorkspaceHandle)|
                    (self.workspaces.contains(p) && !shown_at(from, p.0, p.1)) || (p.1 == to
                        && shown_in(from, p.0)),
            ),
            ..self
        }
    }
}

/// The workspaces of a dynamic set, with one more at the end if the last one shows windows.
pub open spec fn padded(set: SetView, state: StateView) -> Seq<WorkspaceView> {
    if set.workspaces.last().has_windows() {
        set.workspaces.push(new_workspace(state.next as u64))
    } else {
        set.workspaces
    }
}

/// What clients are told of the workspaces in [`padded`].
pub open spec fn padded_state(set: SetView, state: StateView) -> StateView {
    if set.workspaces.last().has_windows() {
        state.with_started(set.group, 1, false)
    } else {
        state
    }
}

/// A dynamic set in which an empty workspace comes last, and in which no other workspace is
/// empty but the one at the active position.
pub open spec fn last_empty_set(set: SetView, state: StateView) -> SetView {
    let all = padded(set, state);
    SetView { workspaces: kept(all, set.active, all.len() as int), ..set }
}

/// What clients are told of the set in [`last_empty_set`].
pub open spec fn last_empty_state(set: SetView, state: StateView) -> StateView {
    let all = padded(set, state);
    padded_state(set, state).without_workspaces(dropped(all, set.active, all.len() as int))
}

impl SetScene {
    /// The scene in which an empty workspace ends the set, and in which no other workspace
    /// is empty but the one at the active position.
    pub open spec fn last_empty(self) -> SetScene {
        SetScene {
            set: last_empty_set(self.set, self.state),
            state: last_empty_state(self.set, self.state),
            ..self
        }
    }

    /// The scene with `amount` workspaces in the set. Those beyond are merged into the last
    /// one that stays, and those that are missing are added.
    pub open spec fn resized(self, amount: int) -> SetScene {
        let all = self.set.workspaces;
        let n = all.len() as int;
        if amount < n {
            let rest = all.skip(amount);
            let last = all[amount - 1];
            let falls = self.set.active >= amount;
            let state = if falls {
                self.state.with_state(last.handle, WState::Active, true)
            } else {
                self.state
            };
            SetScene {
                set: SetView {
                    active: if falls {
                        amount - 1
                    } else {
                        self.set.active
                    },
                    workspaces: all.take(amount).update(
                        amount - 1,
                        absorbed(last, rest).refreshed(),
                    ),
                    ..self.set
                },
                state: state.without_workspaces(handles(rest)),
                toplevels: self.toplevels.gathered(rest, last.handle),
            }
        } else {
            SetScene {
                set: SetView {
                    workspaces: all + new_workspaces(self.state.next, amount - n),
                    ..self.set
                },
                state: self.state.with_started(self.set.group, amount - n, false),
                ..self
            }
        }
    }

    /// The scene in which the active workspace is to be laid out again.
    pub open spec fn active_refreshed(self) -> SetScene {
        let a = self.set.active;
        SetScene {
            set: SetView {
                workspaces: self.set.workspaces.update(a, self.set.workspaces[a].refreshed()),
                ..self.set
            },
            ..self
        }
    }

    /// The scene with as many workspaces as asked for.
    pub open spec fn ensured(self, amount: WorkspaceAmount) -> SetScene {
        match amount {
            WorkspaceAmount::Dynamic => self.last_empty(),
            WorkspaceAmount::Static(len) => self.resized(len as int),
        }
    }

    /// The scene after a refresh of the set.
    pub open spec fn refreshed(self, amount: WorkspaceAmount) -> SetScene {
        self.ensured(amount).active_refreshed()
    }

    /// How many handles it takes to ensure the amount.
    pub open spec fn handles_needed(self, amount: WorkspaceAmount) -> int {
        match amount {
            WorkspaceAmount::Dynamic => if self.set.workspaces.last().has_windows() {
                1
            } else {
                0
            },
            WorkspaceAmount::Static(len) => if len > self.set.workspaces.len() {
                len - self.set.workspaces.len()
            } else {
                0
            },
        }
    }

    /// Whether the set can be brought to the amount, and has an active workspace then.
    pub open spec fn can_refresh(self, amount: WorkspaceAmount) -> bool {
        &&& match amount {
            WorkspaceAmount::Dynamic => self.set.workspaces.len() > 0,
            WorkspaceAmount::Static(len) => len > 0,
        }
        &&& 0 <= self.ensured(amount).set.active < self.ensured(amount).set.workspaces.len()
        &&& self.state.next + self.handles_needed(amount) <= u64::MAX
    }
}

proof fn lemma_kept_len(s: Seq<WorkspaceView>, active: int, n: int)
    requires
        0 <= n <= s.len(),
    ensures
        kept(s, active, n).len() <= n,
    decreases n,
{
    if n > 0 {
        lemma_kept_len(s, active, n - 1);
    }
}

/// Each workspace that is kept is one that stays, and they stand in their old order.
pub proof fn lemma_kept_source(s: Seq<WorkspaceView>, active: int, n: int, j: int) -> (i: int)
    requires
        0 <= n <= s.len(),
        0 <= j < kept(s, active, n).len(),
    ensures
        j <= i < n,
        stays(s, active, i),
        kept(s, active, n)[j] == s[i],
        kept(s, active, i).len() == j,
    decreases n,
{
    lemma_kept_len(s, active, n);
    if stays(s, active, n - 1) {
        lemma_kept_len(s, active, n - 1);
        if j == kept(s, active, n - 1).len() {
            return n - 1;
        }
    }
    lemma_kept_source(s, active, n - 1, j)
}

proof fn lemma_gathered_more(
    t: ToplevelView,
    done: Seq<WorkspaceView>,
    w: WorkspaceView,
    to: WorkspaceHandle,
)
    requires
        w.handle != to,
        !handles(done).contains(to),
    ensures
        t.gathered(done, to).left(w.windows(), w.handle).entered(w.windows(), to) == t.gathered(
            done.push(w),
            to,
        ),
{
    let more = done.push(w);
    assert(more[done.len() as int] == w);
    assert forall|x: WindowId, h: WorkspaceHandle| shown_at(more, x, h) == (shown_at(done, x, h) || (
    w.handle == h && w.windows().contains(x))) by {
        if shown_at(done, x, h) {
            let k = choose|k: int|
                0 <= k < done.len() && (#[trigger] done[k]).handle == h && done[k].windows().contains(
                    x,
                );
            assert(more[k] == done[k]);
        }
        if shown_at(more, x, h) {
            let k = choose|k: int|
                0 <= k < more.len() && (#[trigger] more[k]).handle == h && more[k].windows().contains(
                    x,
                );
            if k < done.len() {
                assert(more[k] == done[k]);
            }
        }
    }
    assert forall|x: WindowId| shown_in(more, x) == (shown_in(done, x) || w.windows().contains(x)) by {
        if shown_in(done, x) {
            let k = choose|k: int| 0 <= k < done.len() && (#[trigger] done[k]).windows().contains(x);
            assert(more[k] == done[k]);
        }
        if shown_in(more, x) {
            let k = choose|k: int| 0 <= k < more.len() && (#[trigger] more[k]).windows().contains(x);
            if k < done.len() {
                assert(more[k] == done[k]);
            }
        }
    }
    assert(t.gathered(done, to).left(w.windows(), w.handle).entered(w.windows(), to)
        =~= t.gathered(more, to));
}

/// One more workspace adds its handle.
pub proof fn lemma_handles_push(s: Seq<WorkspaceView>, w: WorkspaceView)
    ensures
        handles(s.push(w)) == handles(s).insert(w.handle),
{
    let t = s.push(w);
    assert(t[s.len() as int] == w);
    assert forall|h: WorkspaceHandle| handles(t).contains(h) == handles(s).insert(w.handle).contains(
        h,
    ) by {
        if handles(s).contains(h) {
            let i = choose|i: int| 0 <= i < s.len() && (#[trigger] s[i]).handle == h;
            assert(t[i].handle == h);
        }
        if handles(t).contains(h) {
            let i = choose|i: int| 0 <= i < t.len() && (#[trigger] t[i]).handle == h;
            if i < s.len() {
                assert(s[i].handle == h);
            }
        }
    }
    assert(handles(t) =~= handles(s).insert(w.handle));
}

/// The values of some workspaces that are referred to.
pub open spec fn refs_view(s: Seq<&Workspace>) -> Seq<WorkspaceView> {
    s.map_values(|w: &Workspace| w@)
}

/// Refers to each of some workspaces.
fn workspace_refs(v: &Vec<Workspace>) -> (r: Vec<&Workspace>)
    ensures
        r@.len() == v@.len(),
        forall|i: int| 0 <= i < v@.len() ==> *(#[trigger] r@[i]) == v@[i],
{
    let mut r: Vec<&Workspace> = Vec::new();
    let mut i: usize = 0;
    while i < v.len()
        invariant
            i <= v.len(),
            r@.len() == i,
            forall|j: int| 0 <= j < i ==> *(#[trigger] r@[j]) == v@[j],
        decreases v.len() - i,
    {
        r.push(&v[i]);
        i += 1;
    }
    r
}

/// Merges workspaces into another one, one after the other. Their windows move along, and
/// they are withdrawn.
pub fn absorb(
    target: &mut Workspace,
    rest: &Vec<&Workspace>,
    state: &mut WorkspaceState,
    toplevel_info: &mut ToplevelInfoState,
)
    requires
        old(target).wf(),
        forall|i: int| 0 <= i < rest@.len() ==> (#[trigger] rest@[i]).wf(),
        old(state).wf(),
        !handles(refs_view(rest@)).contains(old(target).handle),
    ensures
        final(target).wf(),
        final(state).wf(),
        final(target)@ == absorbed(old(target)@, refs_view(rest@)),
        final(state)@ == old(state)@.without_workspaces(handles(refs_view(rest@))),
        final(toplevel_info)@ == old(toplevel_info)@.gathered(
            refs_view(rest@),
            old(target).handle,
        ),
{
    let ghost all = refs_view(rest@);
    let ghost w0 = target@;
    let ghost base = state@;
    let ghost tops = toplevel_info@;
    let handle: WorkspaceHandle = target.handle;
    let mut k: usize = 0;
    proof {
        assert(all.take(0) =~= Seq::<WorkspaceView>::empty());
        assert(toplevel_info@ =~= tops.gathered(all.take(0), handle));
        assert(state@ =~= base.without_workspaces(handles(all.take(0))));
    }
    while k < rest.len()
        invariant
            k <= rest.len(),
            rest.len() == all.len(),
            all == refs_view(rest@),
            forall|i: int| 0 <= i < rest@.len() ==> (#[trigger] rest@[i]).wf(),
            target.wf(),
            state.wf(),
            target@ == absorbed(w0, all.take(k as int)),
            w0.handle == handle,
            !handles(all).contains(handle),
            state@ == base.without_workspaces(handles(all.take(k as int))),
            toplevel_info@ == tops.gathered(all.take(k as int), handle),
        decreases rest.len() - k,
    {
        let workspace: &Workspace = rest[k];
        let ghost w = workspace@;
        let ghost done = all.take(k as int);
        proof {
            assert(w == all[k as int]);
            assert(handles(all).contains(w.handle));
            assert(all.take(k + 1) =~= done.push(w));
            assert(!handles(done).contains(handle)) by {
                if handles(done).contains(handle) {
                    let q = choose|q: int| 0 <= q < done.len() && (#[trigger] done[q]).handle == handle;
                    assert(all[q].handle == handle);
                }
            }
            lemma_gathered_more(tops, done, w, handle);
            lemma_handles_push(done, w);
            assert(done.push(w).drop_last() =~= done);
        }
        // fixup toplevel state
        workspace.leave(toplevel_info, workspace.handle);
        workspace.enter(toplevel_info, handle);
        target.merge(workspace);
        state.remove_workspace(workspace.handle);
        assert(state@ =~= base.without_workspaces(handles(all.take(k + 1))));
        k += 1;
    }
    assert(all.take(k as int) =~= all);
}

impl WorkspaceSet {
    /// Ends the set with an empty workspace, and takes the other empty ones out, except for
    /// the one at the active position.
    pub fn ensure_last_empty(&mut self, state: &mut WorkspaceState)
        requires
            old(self).wf(),
            old(state).wf(),
            old(self)@.workspaces.len() > 0,
            old(self)@.workspaces.last().has_windows() ==> old(state)@.groups.dom().contains(
                old(self)@.group,
            ) && old(state)@.next < u64::MAX,
        ensures
            final(self).wf(),
            final(state).wf(),
            final(self)@ == last_empty_set(old(self)@, old(state)@),
            final(state)@ == last_empty_state(old(self)@, old(state)@),
    {
        let ghost set = self@;
        let ghost known = state@;
        // add an empty one at the end, if necessary
        let count: usize = self.workspaces.len();
        if self.workspaces[count - 1].has_windows() {
            let w = create_workspace(state, self.group, false);
            self.workspaces.push(w);
            assert(state@ =~= known.with_started(self.group, 1, false));
        }
        let ghost all = self@.workspaces;
        assert(all =~= padded(set, known));
        assert(state@ =~= padded_state(set, known));
        // remove the empty ones in between, if they are not active
        let len: usize = self.workspaces.len();
        let ghost base = state@;
        let mut i: usize = 0;
        let mut pos: usize = 0;
        assert(self@.workspaces =~= kept(all, self@.active, 0) + all.skip(0));
        assert(state@ =~= base.without_workspaces(dropped(all, self@.active, 0)));
        while i < len
            invariant
                i <= len,
                len == all.len(),
                self.wf(),
                state.wf(),
                self.active == set.active,
                self.group == set.group,
                pos == kept(all, set.active, i as int).len(),
                self@.workspaces == kept(all, set.active, i as int) + all.skip(i as int),
                state@ == base.without_workspaces(dropped(all, set.active, i as int)),
            decreases len - i,
        {
            let ghost before = self@.workspaces;
            proof {
                lemma_kept_len(all, set.active, i as int);
            }
            let ghost so_far = kept(all, set.active, i as int);
            assert(before.len() == self.workspaces@.len());
            assert(before[pos as int] == all[i as int]);
            assert(self.workspaces@[pos as int]@ == all[i as int]);
            let has_windows = self.workspaces[pos].has_windows();
            if !has_windows && i != self.active && i != len - 1 {
                state.remove_workspace(self.workspaces[pos].handle);
                self.workspaces.remove(pos);
                assert(self@.workspaces =~= before.remove(pos as int));
                assert(before.remove(pos as int) =~= so_far + all.skip(i + 1));
            } else {
                assert(before =~= so_far.push(all[i as int]) + all.skip(i + 1));
                pos += 1;
            }
            proof {
                let a = set.active;
                assert forall|h: WorkspaceHandle| dropped(all, a, i + 1).contains(h) == (dropped(
                    all,
                    a,
                    i as int,
                ).contains(h) || (!stays(all, a, i as int) && all[i as int].handle == h)) by {
                    if dropped(all, a, i + 1).contains(h) {
                        let k = choose|k: int|
                            0 <= k < i + 1 && !stays(all, a, k) && (#[trigger] all[k]).handle == h;
                        if k < i {
                            assert(dropped(all, a, i as int).contains(h));
                        }
                    }
                }
                assert(state@ =~= base.without_workspaces(dropped(all, a, i + 1)));
            }
            i += 1;
        }
        proof {
            assert(all.skip(i as int) =~= Seq::<WorkspaceView>::empty());
            assert(self@.workspaces =~= kept(all, set.active, len as int));
        }
    }

    /// Brings the set to `amount` workspaces.
    pub fn ensure_static(
        &mut self,
        amount: usize,
        state: &mut WorkspaceState,
        toplevel_info: &mut ToplevelInfoState,
    )
        requires
            old(self).wf(),
            old(state).wf(),
            old(self)@.registered(old(state)@),
            amount < old(self)@.workspaces.len() ==> amount > 0,
            old(state)@.next + amount - old(self)@.workspaces.len() <= u64::MAX,
        ensures
            final(self).wf(),
            final(state).wf(),
            (SetScene {
                set: final(self)@,
                state: final(state)@,
                toplevels: final(toplevel_info)@,
            }) == (SetScene {
                set: old(self)@,
                state: old(state)@,
                toplevels: old(toplevel_info)@,
            }).resized(amount as int),
    {
        let ghost scene = SetScene { set: self@, state: state@, toplevels: toplevel_info@ };
        let ghost all = self@.workspaces;
        let count: usize = self.workspaces.len();
        if amount < count {
            // merge the last ones
            let overflow: Vec<Workspace> = self.workspaces.split_off(amount);
            let ghost rest = all.skip(amount as int);
            let last: usize = amount - 1;
            assert(workspaces_view(overflow@) =~= rest);
            assert(self@.workspaces =~= all.take(amount as int));
            if self.active >= amount {
                self.active = last;
                state.add_workspace_state(self.workspaces[last].handle, WState::Active);
            }
            let handle: WorkspaceHandle = self.workspaces[last].handle;
            let rest_refs = workspace_refs(&overflow);
            proof {
                assert(refs_view(rest_refs@) =~= rest);
                assert(!handles(rest).contains(handle)) by {
                    if handles(rest).contains(handle) {
                        let q = choose|q: int|
                            0 <= q < rest.len() && (#[trigger] rest[q]).handle == handle;
                        assert(all[amount + q].handle == all[amount - 1].handle);
                    }
                }
                assert(self.workspaces@[last as int]@ == all[amount - 1]);
            }
            absorb(&mut self.workspaces[last], &rest_refs, state, toplevel_info);
            self.workspaces[last].refresh();
            proof {
                assert(self@.workspaces =~= all.take(amount as int).update(
                    last as int,
                    absorbed(all[amount - 1], rest).refreshed(),
                ));
                assert(SetScene { set: self@, state: state@, toplevels: toplevel_info@ }
                    =~= scene.resized(amount as int));
            }
        } else {
            // add empty ones
            let mut len: usize = count;
            assert(state@ =~= scene.state.with_started(self.group, 0, false));
            assert(self@.workspaces =~= all + new_workspaces(scene.state.next, 0));
            while amount > len
                invariant
                    count <= len <= amount,
                    count == all.len(),
                    self.wf(),
                    state.wf(),
                    self.group == scene.set.group,
                    self@.active == scene.set.active,
                    self.workspaces.len() == len,
                    scene.state.groups.dom().contains(self.group),
                    scene.state.next + amount - count <= u64::MAX,
                    self@.workspaces == all + new_workspaces(scene.state.next, len - count),
                    state@ == scene.state.with_started(self.group, len - count, false),
                    toplevel_info@ == scene.toplevels,
                decreases amount - len,
            {
                let ghost before = self@.workspaces;
                let w = create_workspace(state, self.group, false);
                self.workspaces.push(w);
                proof {
                    assert(self@.workspaces =~= before.push(w@));
                    assert(state@ =~= scene.state.with_started(
                        self.group,
                        len + 1 - count,
                        false,
                    ));
                    assert(self@.workspaces =~= all + new_workspaces(
                        scene.state.next,
                        len + 1 - count,
                    ));
                }
                len += 1;
            }
            assert(SetScene { set: self@, state: state@, toplevels: toplevel_info@ }
                =~= scene.resized(amount as int));
        }
    }

    /// Brings the set to the amount of workspaces asked for, and lays the active one out
    /// again.
    pub fn refresh(
        &mut self,
        amount: WorkspaceAmount,
        state: &mut WorkspaceState,
        toplevel_info: &mut ToplevelInfoState,
    )
        requires
            old(self).wf(),
            old(state).wf(),
            old(self)@.registered(old(state)@),
            (SetScene {
                set: old(self)@,
                state: old(state)@,
                toplevels: old(toplevel_info)@,
            }).can_refresh(amount),
        ensures
            final(self).wf(),
            final(state).wf(),
            (SetScene {
                set: final(self)@,
                state: final(state)@,
                toplevels: final(toplevel_info)@,
            }) == (SetScene {
                set: old(self)@,
                state: old(state)@,
                toplevels: old(toplevel_info)@,
            }).refreshed(amount),
    {
        let ghost scene = SetScene { set: self@, state: state@, toplevels: toplevel_info@ };
        match amount {
            WorkspaceAmount::Dynamic => {
                self.ensure_last_empty(state);
            },
            WorkspaceAmount::Static(len) => self.ensure_static(len as usize, state, toplevel_info),
        }
        let ghost ensured = SetScene { set: self@, state: state@, toplevels: toplevel_info@ };
        assert(ensured == scene.ensured(amount));
        let active: usize = self.active;
        assert(self.workspaces@[active as int]@ == self@.workspaces[active as int]);
        self.workspaces[active].refresh();
        assert(self@.workspaces =~= ensured.active_refreshed().set.workspaces);
        assert(SetScene { set: self@, state: state@, toplevels: toplevel_info@ }
            =~= scene.refreshed(amount));
    }
}

/// Whether every set that is registered in one state is so in another, if its group is
/// not `group`.
pub open spec fn others_kept(before: StateView, after: StateView, group: WorkspaceGroupHandle) -> bool {
    forall|other: SetView|
        other.group != group && #[trigger] other.registered(before) ==> other.registered(after)
}

/// No other group loses a workspace or its group entry.
pub open spec fn confined(before: StateView, after: StateView, group: WorkspaceGroupHandle) -> bool {
    &&& forall|g: u64| #[trigger]
        before.groups.dom().contains(g) && g != group ==> after.groups.dom().contains(g)
    &&& forall|h: u64|
        before.workspaces.dom().contains(h) && before.workspaces[h].group != group
            ==> #[trigger] after.workspaces.dom().contains(h) && after.workspaces[h].group
            == before.workspaces[h].group
}

/// A change that is confined to a group disturbs no set of another group.
pub proof fn lemma_confined(before: StateView, after: StateView, group: WorkspaceGroupHandle)
    requires
        confined(before, after, group),
    ensures
        others_kept(before, after, group),
{
    assert forall|other: SetView|
        other.group != group && #[trigger] other.registered(before) implies other.registered(after) by {
        assert forall|i: int| 0 <= i < other.workspaces.len() implies after.workspaces.dom().contains(
            (#[trigger] other.workspaces[i]).handle,
        ) && after.workspaces[other.workspaces[i].handle].group == other.group by {
            let h = other.workspaces[i].handle;
            assert(before.workspaces.dom().contains(h));
        }
    }
}

/// Bringing a dynamic set in order leaves its workspaces known to clients, and disturbs no
/// other set.
pub proof fn lemma_last_empty_registered(set: SetView, state: StateView)
    requires
        set.registered(state),
        state.wf(),
        set.workspaces.len() > 0,
        set.workspaces.last().has_windows() ==> state.next < u64::MAX,
    ensures
        last_empty_set(set, state).registered(last_empty_state(set, state)),
        last_empty_state(set, state).wf(),
        others_kept(state, last_empty_state(set, state), set.group),
{
    let all = padded(set, state);
    let mid = padded_state(set, state);
    let a = set.active;
    let n = all.len() as int;
    let after = last_empty_state(set, state);
    let new = last_empty_set(set, state);
    assert forall|i: int| 0 <= i < n implies mid.workspaces.dom().contains(
        (#[trigger] all[i]).handle,
    ) && mid.workspaces[all[i].handle].group == set.group by {
        if i < set.workspaces.len() {
            assert(all[i] == set.workspaces[i]);
        }
    }
    assert(handles_distinct(all)) by {
        assert forall|i: int, j: int| 0 <= i < j < all.len() implies (#[trigger] all[i]).handle != (
        #[trigger] all[j]).handle by {
            assert(all[i] == set.workspaces[i]);
            if j < set.workspaces.len() {
                assert(all[j] == set.workspaces[j]);
            } else {
                assert(state.workspaces.dom().contains(all[i].handle));
            }
        }
    }
    assert forall|j: int| 0 <= j < new.workspaces.len() implies after.workspaces.dom().contains(
        (#[trigger] new.workspaces[j]).handle,
    ) && after.workspaces[new.workspaces[j].handle].group == set.group by {
        let i = lemma_kept_source(all, a, n, j);
        let h = all[i].handle;
        assert(mid.workspaces.dom().contains(h));
        if dropped(all, a, n).contains(h) {
            let k = choose|k: int| 0 <= k < n && !stays(all, a, k) && (#[trigger] all[k]).handle == h;
            if k < i {
                assert(all[k].handle != all[i].handle);
            } else if i < k {
                assert(all[i].handle != all[k].handle);
            }
        }
    }
    assert forall|p: int, q: int| 0 <= p < q < new.workspaces.len() implies (
    #[trigger] new.workspaces[p]).handle != (#[trigger] new.workspaces[q]).handle by {
        let i = lemma_kept_source(all, a, n, p);
        let k = lemma_kept_source(all, a, n, q);
        assert(all[i] == new.workspaces[p] && all[k] == new.workspaces[q]);
        if i < k {
            assert(all[i].handle != all[k].handle);
        } else {
            assert(i != k);
            assert(all[k].handle != all[i].handle);
        }
    }
    assert(confined(state, after, set.group)) by {
        assert forall|h: u64|
            state.workspaces.dom().contains(h) && state.workspaces[h].group != set.group implies
            #[trigger] after.workspaces.dom().contains(h) && after.workspaces[h].group
            == state.workspaces[h].group by {
            if dropped(all, a, n).contains(h) {
                let k = choose|k: int|
                    0 <= k < n && !stays(all, a, k) && (#[trigger] all[k]).handle == h;
                assert(mid.workspaces[all[k].handle].group == set.group);
            }
        }
    }
    lemma_confined(state, after, set.group);
}

/// Bringing a set to a fixed number of workspaces leaves them known to clients, and
/// disturbs no other set.
pub proof fn lemma_resized_registered(scene: SetScene, amount: int)
    requires
        scene.set.registered(scene.state),
        scene.state.wf(),
        amount > 0,
        scene.state.next + amount - scene.set.workspaces.len() <= u64::MAX,
    ensures
        scene.resized(amount).set.registered(scene.resized(amount).state),
        scene.resized(amount).state.wf(),
        others_kept(scene.state, scene.resized(amount).state, scene.set.group),
{
    let all = scene.set.workspaces;
    let n = all.len() as int;
    let after = scene.resized(amount).state;
    let new = scene.resized(amount).set;
    let g = scene.set.group;
    if amount < n {
        let rest = all.skip(amount);
        lemma_absorbed_handle(all[amount - 1], rest);
        assert forall|i: int| 0 <= i < amount implies (#[trigger] new.workspaces[i]).handle
            == all[i].handle by {}
        assert forall|i: int| 0 <= i < amount implies !handles(rest).contains(
            (#[trigger] all[i]).handle,
        ) by {
            if handles(rest).contains(all[i].handle) {
                let q = choose|q: int|
                    0 <= q < rest.len() && (#[trigger] rest[q]).handle == all[i].handle;
                assert(all[amount + q].handle == all[i].handle);
            }
        }
        assert forall|i: int| 0 <= i < new.workspaces.len() implies after.workspaces.dom().contains(
            (#[trigger] new.workspaces[i]).handle,
        ) && after.workspaces[new.workspaces[i].handle].group == g by {
            assert(scene.state.workspaces.dom().contains(all[i].handle));
            assert(!handles(rest).contains(all[i].handle));
        }
        assert forall|i: int, j: int| 0 <= i < j < new.workspaces.len() implies (
        #[trigger] new.workspaces[i]).handle != (#[trigger] new.workspaces[j]).handle by {
            assert(all[i].handle != all[j].handle);
        }
        assert(confined(scene.state, after, g)) by {
            assert forall|h: u64|
                scene.state.workspaces.dom().contains(h) && scene.state.workspaces[h].group != g implies
                #[trigger] after.workspaces.dom().contains(h) && after.workspaces[h].group
                == scene.state.workspaces[h].group by {
                if handles(rest).contains(h) {
                    let q = choose|q: int| 0 <= q < rest.len() && (#[trigger] rest[q]).handle == h;
                    assert(all[amount + q].handle == h);
                }
            }
        }
    } else {
        assert forall|i: int| 0 <= i < new.workspaces.len() implies after.workspaces.dom().contains(
            (#[trigger] new.workspaces[i]).handle,
        ) && after.workspaces[new.workspaces[i].handle].group == g by {
            if i < n {
                assert(new.workspaces[i] == all[i]);
                assert(scene.state.workspaces.dom().contains(all[i].handle));
            }
        }
        assert forall|i: int, j: int| 0 <= i < j < new.workspaces.len() implies (
        #[trigger] new.workspaces[i]).handle != (#[trigger] new.workspaces[j]).handle by {
            if j < n {
                assert(all[i].handle != all[j].handle);
            } else if i < n {
                assert(scene.state.workspaces.dom().contains(all[i].handle));
            }
        }
        assert(confined(scene.state, after, g)) by {
            assert forall|h: u64|
                scene.state.workspaces.dom().contains(h) && scene.state.workspaces[h].group != g implies
                #[trigger] after.workspaces.dom().contains(h) && after.workspaces[h].group
                == scene.state.workspaces[h].group by {}
        }
    }
    lemma_confined(scene.state, after, g);
}

/// Merging other workspaces into one leaves it its handle.
pub proof fn lemma_absorbed_handle(w: WorkspaceView, rest: Seq<WorkspaceView>)
    ensures
        absorbed(w, rest).handle == w.handle,
    decreases rest.len(),
{
    if rest.len() > 0 {
        lemma_absorbed_handle(w, rest.drop_last());
    }
}

/// A refresh leaves the workspaces of a set known to clients, and disturbs no other set.
pub proof fn lemma_refreshed_registered(scene: SetScene, amount: WorkspaceAmount)
    requires
        scene.set.registered(scene.state),
        scene.state.wf(),
        scene.can_refresh(amount),
    ensures
        scene.refreshed(amount).set.registered(scene.refreshed(amount).state),
        scene.refreshed(amount).state.wf(),
        scene.refreshed(amount).set.group == scene.set.group,
        others_kept(scene.state, scene.refreshed(amount).state, scene.set.group),
{
    match amount {
        WorkspaceAmount::Dynamic => {
            lemma_last_empty_registered(scene.set, scene.state);
        },
        WorkspaceAmount::Static(len) => {
            lemma_resized_registered(scene, len as int);
        },
    }
    let ensured = scene.ensured(amount);
    let done = scene.refreshed(amount);
    assert forall|i: int| 0 <= i < done.set.workspaces.len() implies (
    #[trigger] done.set.workspaces[i]).handle == ensured.set.workspaces[i].handle by {}
    assert forall|i: int| 0 <= i < done.set.workspaces.len() implies done.state.workspaces.dom().contains(
        (#[trigger] done.set.workspaces[i]).handle,
    ) && done.state.workspaces[done.set.workspaces[i].handle].group == done.set.group by {
        assert(ensured.state.workspaces.dom().contains(ensured.set.workspaces[i].handle));
    }
    assert forall|i: int, j: int| 0 <= i < j < done.set.workspaces.len() implies (
    #[trigger] done.set.workspaces[i]).handle != (#[trigger] done.set.workspaces[j]).handle by {
        assert(ensured.set.workspaces[i].handle != ensured.set.workspaces[j].handle);
    }
}

} // verus!
