//! Outputs that come and go.
use crate::geometry::Point;
use crate::mode::{lemma_sets_update, lemma_sets_view, sets_view, ModeView, WorkspaceMode};
use crate::output::Output;
use crate::protocol::{OutputId, StateView, WorkspaceGroupHandle, WorkspaceHandle, WorkspaceState};
use crate::set::{
    confined, handles, init_workspace_handle, lemma_confined, lemma_handles_push, new_workspaces,
    others_kept, started_entry, workspaces_view, SetView, WorkspaceSet,
};
use crate::shell::{
    lemma_keys_follow, lemma_like_keeps_wf, lemma_with_set_like, set_like, state_like, Shell,
    ShellView,
};
use crate::table::{has_key, keys_distinct, lemma_remove, lemma_slot, lemma_slot_at, slot};
use crate::workspace::{lemma_outputs_keep_handles, Workspace, WorkspaceView};
use vstd::prelude::*;

verus! {

impl ShellView {
    /// How many handles it takes to add an output.
    pub open spec fn handles_to_add(self, output: Output) -> int {
        match self.workspaces {
            ModeView::OutputBound(sets) => if has_key(sets, output.id) {
                0
            } else {
                1 + self.workspace_amount.initial()
            },
            ModeView::Global(_) => 0,
        }
    }

    /// The shell with one more output. Where outputs have sets of their own, it starts one
    /// unless there is one already, and its workspaces show the output at their origin. A
    /// shared set shows the output where it lies.
    pub open spec fn with_added(self, output: Output) -> ShellView {
        let shell = ShellView { outputs: self.outputs.push(output), ..self };
        match self.workspaces {
            ModeView::OutputBound(sets) => if has_key(sets, output.id) {
                let set = sets[slot(sets, output.id)].1;
                ShellView {
                    workspaces: self.workspaces.with_set(
                        output.id,
                        set.with_output(output.id, Point::zero()),
                    ),
                    ..shell
                }
            } else {
                let n = self.workspace_amount.initial();
                let group = self.state.next as u64;
                let set = SetView {
                    active: 0,
                    group,
                    workspaces: new_workspaces(self.state.next + 1, n),
                };
                ShellView {
                    workspaces: ModeView::OutputBound(
                        sets.push((output.id, set.with_output(output.id, Point::zero()))),
                    ),
                    state: self.state.with_new_group().with_started(group, n, true),
                    ..shell
                }
            },
            ModeView::Global(set) => ShellView {
                workspaces: ModeView::Global(set.with_output(output.id, output.location())),
                state: self.state.with_group_output(set.group, output.id),
                ..shell
            },
        }
    }

    /// The shell with every output shown where it lies now. Sets of their own show their
    /// output at the origin anyway.
    pub open spec fn with_outputs_placed(self) -> ShellView {
        match self.workspaces {
            ModeView::OutputBound(_) => self,
            ModeView::Global(set) => ShellView {
                workspaces: ModeView::Global(set.with_outputs(self.outputs)),
                ..self
            },
        }
    }
}

/// A workspace under a new handle, shown on output `to` at its origin and no longer on
/// output `from`, to be laid out again.
pub open spec fn moved_space(
    w: WorkspaceView,
    handle: WorkspaceHandle,
    from: OutputId,
    to: OutputId,
) -> WorkspaceView {
    (WorkspaceView { handle, ..w }).with_output(to, Point::zero()).without_output(from).refreshed()
}

/// Workspaces that move from one output to another, under handles from `first` on.
pub open spec fn moved_spaces(
    s: Seq<WorkspaceView>,
    first: int,
    from: OutputId,
    to: OutputId,
) -> Seq<WorkspaceView> {
    Seq::new(s.len(), |k: int| moved_space(s[k], (first + k) as u64, from, to))
}

impl StateView {
    /// The state without some workspaces, and with as many new ones in `group`. Those start
    /// at the places from `len` on, which are counted in a byte.
    pub open spec fn with_moved(
        self,
        s: Seq<WorkspaceView>,
        group: WorkspaceGroupHandle,
        len: int,
    ) -> StateView {
        StateView {
            workspaces: self.workspaces.remove_keys(handles(s)).union_prefer_right(
                Map::new(
                    |h: WorkspaceHandle| self.next <= h < self.next + s.len(),
                    |h: WorkspaceHandle|
                        started_entry(group, ((len + h - self.next) % 256) as u8, false),
                ),
            ),
            next: self.next + s.len(),
            ..self
        }
    }
}

/// Whether `n` workspaces can be numbered from place `len` on. The place before a byte
/// overflows has no number.
pub open spec fn places_numbered(len: int, n: int) -> bool {
    forall|k: int| 0 <= k < n ==> #[trigger] place_of(len, k) != 255
}

/// The place of the workspace `k` places behind `len`.
pub open spec fn place_of(len: int, k: int) -> int {
    (len + k) % 256
}

impl ShellView {
    /// The outputs other than this one.
    pub open spec fn other_outputs(self, output: OutputId) -> Seq<Output> {
        self.outputs.filter(|o: Output| o.id != output)
    }

    /// The shell in which the first output has taken over the workspaces of a set that
    /// belonged to output `from`.
    pub open spec fn with_taken_over(self, set: SetView, from: OutputId) -> ShellView {
        let to = self.outputs[0].id;
        let target = self.workspaces.set_for(to)->0;
        ShellView {
            workspaces: self.workspaces.with_set(
                to,
                SetView {
                    workspaces: target.workspaces + moved_spaces(
                        set.workspaces,
                        self.state.next,
                        from,
                        to,
                    ),
                    ..target
                },
            ),
            state: self.state.with_moved(
                set.workspaces,
                target.group,
                target.workspaces.len() as int,
            ).without_groups(set![set.group]),
            ..self
        }
    }

    /// The shell in which an output, and its set, is just gone.
    pub open spec fn without_set(self, output: OutputId) -> ShellView {
        ShellView {
            outputs: self.other_outputs(output),
            workspaces: match self.workspaces {
                ModeView::OutputBound(sets) => ModeView::OutputBound(
                    sets.remove(slot(sets, output)),
                ),
                ModeView::Global(set) => ModeView::Global(set),
            },
            ..self
        }
    }

    /// Whether removing an output leaves workspaces for the first output to take over.
    pub open spec fn hands_over(self, output: OutputId) -> bool {
        &&& self.workspaces matches ModeView::OutputBound(sets) && has_key(sets, output)
        &&& self.other_outputs(output).len() > 0
    }

    /// The shell in which the first of the other outputs has taken over the workspaces of an
    /// output that is gone.
    pub open spec fn handed_over(self, output: OutputId) -> ShellView {
        self.without_set(output).with_taken_over(self.workspaces.set_for(output)->0, output)
    }

    /// The shell without an output. A shared set is no longer shown there. Where outputs
    /// have sets of their own, the first of the others takes over; if there is none, the
    /// workspaces are gone.
    pub open spec fn with_removed(self, output: OutputId) -> ShellView {
        match self.workspaces {
            ModeView::OutputBound(sets) => if !has_key(sets, output) {
                ShellView { outputs: self.other_outputs(output), ..self }
            } else if self.hands_over(output) {
                self.handed_over(output).refreshed()
            } else {
                self.without_set(output)
            },
            ModeView::Global(set) => ShellView {
                outputs: self.other_outputs(output),
                workspaces: ModeView::Global(set.without_output(output)),
                state: self.state.without_group_output(set.group, output),
                ..self
            },
        }
    }

    /// Whether there are numbers and handles enough for the workspaces of an output to be
    /// taken over, where that has to be.
    pub open spec fn can_release(self, output: OutputId) -> bool {
        self.hands_over(output) ==> {
            let set = self.workspaces.set_for(output)->0;
            let target = self.workspaces.set_for(self.other_outputs(output)[0].id)->0;
            let n = set.workspaces.len() as int;
            &&& self.state.next + n <= u64::MAX
            &&& places_numbered(target.workspaces.len() as int, n)
        }
    }

    /// The shell without an output, before any set is brought to the amount of workspaces
    /// asked for.
    pub open spec fn with_released(self, output: OutputId) -> ShellView {
        if self.hands_over(output) {
            self.handed_over(output)
        } else {
            self.with_removed(output)
        }
    }

    /// Whether the workspaces of an output can be taken over, where that has to be, and the
    /// sets brought to the amount of workspaces asked for then.
    pub open spec fn can_remove(self, output: OutputId) -> bool {
        &&& self.can_release(output)
        &&& self.hands_over(output) ==> self.handed_over(output).can_refresh()
    }
}

/// A set keeps its workspaces whatever outputs they are shown on.
pub proof fn lemma_set_outputs_like(set: SetView, output: OutputId, at: Point, outputs: Seq<Output>)
    ensures
        set_like(set, set.with_output(output, at)),
        set_like(set, set.without_output(output)),
        set_like(set, set.with_outputs(outputs)),
{
    assert forall|i: int| 0 <= i < set.workspaces.len() implies (#[trigger] set.with_outputs(
        outputs,
    ).workspaces[i]).handle == set.workspaces[i].handle by {
        lemma_outputs_keep_handles(set.workspaces[i], outputs);
    }
}

/// One more output, with a set to show, leaves a shell in order.
proof fn lemma_added_keeps_wf(shell: ShellView, output: Output)
    requires
        shell.wf(),
        output.wf(),
        shell.state.next + shell.handles_to_add(output) <= u64::MAX,
    ensures
        shell.with_added(output).wf(),
{
    let after = shell.with_added(output);
    assert forall|i: int| 0 <= i < after.outputs.len() implies (#[trigger] after.outputs[i]).wf() by {
        if i < shell.outputs.len() {
            assert(shell.outputs[i].wf());
        }
    }
    match shell.workspaces {
        ModeView::Global(set) => {
            lemma_set_outputs_like(set, output.id, output.location(), Seq::empty());
            let mid = ShellView { outputs: shell.outputs, ..after };
            assert(state_like(shell.state, after.state)) by {
                assert(after.state.groups.dom() =~= shell.state.groups.dom());
            }
            lemma_like_keeps_wf(shell, mid);
            assert(after.scene() == mid.scene());
        },
        ModeView::OutputBound(sets) => {
            let new_sets = after.workspaces->OutputBound_0;
            if has_key(sets, output.id) {
                lemma_slot(sets, output.id);
                let set = sets[slot(sets, output.id)].1;
                lemma_set_outputs_like(set, output.id, Point::zero(), Seq::empty());
                lemma_with_set_like(
                    shell.workspaces,
                    output.id,
                    set.with_output(output.id, Point::zero()),
                );
                let mid = ShellView { outputs: shell.outputs, ..after };
                lemma_like_keeps_wf(shell, mid);
                assert(has_key(new_sets, output.id)) by {
                    assert(new_sets[slot(sets, output.id)].0 == output.id);
                }
                assert forall|i: int| 0 <= i < after.outputs.len() implies has_key(
                    new_sets,
                    (#[trigger] after.outputs[i]).id,
                ) by {
                    if i < shell.outputs.len() {
                        assert(mid.outputs[i] == after.outputs[i]);
                    }
                }
            } else {
                let n = sets.len() as int;
                let new = new_sets[n].1;
                assert forall|i: int| 0 <= i < new_sets.len() implies (
                #[trigger] new_sets[i]).1.registered(after.state) by {
                    if i == n {
                        assert forall|k: int| 0 <= k < new.workspaces.len() implies (
                        #[trigger] new.workspaces[k]).handle == shell.state.next + 1 + k by {}
                        assert(new.registered(after.state));
                    } else {
                        assert(new_sets[i] == sets[i]);
                        assert(sets[i].1.registered(shell.state));
                        assert forall|k: int| 0 <= k < sets[i].1.workspaces.len() implies
                            after.state.workspaces.dom().contains(
                            (#[trigger] sets[i].1.workspaces[k]).handle,
                        ) && after.state.workspaces[sets[i].1.workspaces[k].handle].group
                            == sets[i].1.group by {
                            assert(shell.state.workspaces.dom().contains(
                                sets[i].1.workspaces[k].handle,
                            ));
                        }
                    }
                }
                assert forall|i: int, j: int| 0 <= i < j < new_sets.len() implies (
                #[trigger] new_sets[i]).0 != (#[trigger] new_sets[j]).0 && new_sets[i].1.group
                    != new_sets[j].1.group by {
                    assert(new_sets[i] == sets[i]);
                    if j < n {
                        assert(new_sets[j] == sets[j]);
                    } else {
                        assert(sets[i].1.registered(shell.state));
                    }
                }
                assert forall|i: int| 0 <= i < after.outputs.len() implies has_key(
                    new_sets,
                    (#[trigger] after.outputs[i]).id,
                ) by {
                    if i < shell.outputs.len() {
                        assert(has_key(sets, shell.outputs[i].id));
                        let k = choose|k: int|
                            0 <= k < sets.len() && (#[trigger] sets[k]).0 == shell.outputs[i].id;
                        assert(new_sets[k].0 == after.outputs[i].id);
                    } else {
                        assert(new_sets[n].0 == output.id);
                    }
                }
            }
        },
    }
}

/// The outputs other than one are outputs, and none of them is that one.
pub proof fn lemma_other_outputs(shell: ShellView, output: OutputId)
    ensures
        forall|i: int|
            0 <= i < shell.other_outputs(output).len() ==> shell.outputs.contains(
                #[trigger] shell.other_outputs(output)[i],
            ) && shell.other_outputs(output)[i].id != output,
{
    let p = |o: Output| o.id != output;
    let others = shell.other_outputs(output);
    assert forall|i: int| 0 <= i < others.len() implies shell.outputs.contains(
        #[trigger] others[i],
    ) && others[i].id != output by {
        shell.outputs.lemma_filter_pred(p, i);
        assert(others.contains(others[i]));
        shell.outputs.lemma_filter_contains_rev(p, others[i]);
    }
}

/// A set that is not the one taken out keeps its key.
pub proof fn lemma_keys_left(sets: Seq<(OutputId, SetView)>, output: OutputId, k: OutputId)
    requires
        keys_distinct(sets),
        has_key(sets, k),
        k != output,
    ensures
        has_key(sets.remove(slot(sets, output)), k) || !has_key(sets, output),
        has_key(sets, output) ==> {
            let left = sets.remove(slot(sets, output));
            left[slot(left, k)] == sets[slot(sets, k)]
        },
{
    lemma_slot(sets, output);
    lemma_slot(sets, k);
    if has_key(sets, output) {
        let r = slot(sets, output);
        let i = slot(sets, k);
        let left = sets.remove(r);
        lemma_remove(sets, r);
        let j = if i < r {
            i
        } else {
            i - 1
        };
        assert(left[j] == sets[i]);
        assert(left[j].0 == k);
        lemma_slot_at(left, j);
    }
}

/// Without one output and its set, the others still have theirs.
proof fn lemma_without_set_keeps_wf(shell: ShellView, output: OutputId)
    requires
        shell.wf(),
        shell.workspaces matches ModeView::OutputBound(sets) && has_key(sets, output),
    ensures
        shell.without_set(output).wf(),
{
    let after = shell.without_set(output);
    let sets = shell.workspaces->OutputBound_0;
    let left = after.workspaces->OutputBound_0;
    let r = slot(sets, output);
    lemma_slot(sets, output);
    lemma_other_outputs(shell, output);
    lemma_remove(sets, r);
    assert(forall|j: int|
        0 <= j < left.len() ==> #[trigger] left[j] == sets[if j < r {
            j
        } else {
            j + 1
        }]);
    assert forall|i: int| 0 <= i < after.outputs.len() implies (#[trigger] after.outputs[i]).wf()
        && has_key(left, after.outputs[i].id) by {
        let o = after.outputs[i];
        let k = choose|k: int| 0 <= k < shell.outputs.len() && shell.outputs[k] == o;
        assert(shell.outputs[k].wf());
        assert(has_key(sets, shell.outputs[k].id));
        lemma_keys_left(sets, output, o.id);
    }
    assert forall|i: int| 0 <= i < left.len() implies (#[trigger] left[i]).1.registered(
        after.state,
    ) by {
        let j = if i < r {
            i
        } else {
            i + 1
        };
        assert(sets[j].1.registered(shell.state));
    }
    assert forall|i: int, j: int| 0 <= i < j < left.len() implies (#[trigger] left[i]).1.group != (
    #[trigger] left[j]).1.group by {
        let p = if i < r {
            i
        } else {
            i + 1
        };
        let q = if j < r {
            j
        } else {
            j + 1
        };
        assert(sets[p].1.group != sets[q].1.group);
    }
}

/// A set that gives up its group leaves every other one known to clients.
proof fn lemma_moved_registered(
    state: StateView,
    set: SetView,
    target: SetView,
    from: OutputId,
    to: OutputId,
)
    requires
        state.wf(),
        set.registered(state),
        target.registered(state),
        set.group != target.group,
        state.next + set.workspaces.len() <= u64::MAX,
    ensures
        ({
            let after = state.with_moved(
                set.workspaces,
                target.group,
                target.workspaces.len() as int,
            ).without_groups(set![set.group]);
            let grown = SetView {
                workspaces: target.workspaces + moved_spaces(set.workspaces, state.next, from, to),
                ..target
            };
            &&& after.wf()
            &&& grown.registered(after)
            &&& others_kept(state, after, set.group)
        }),
{
    let gone = handles(set.workspaces);
    let after = state.with_moved(
        set.workspaces,
        target.group,
        target.workspaces.len() as int,
    ).without_groups(set![set.group]);
    let grown = SetView {
        workspaces: target.workspaces + moved_spaces(set.workspaces, state.next, from, to),
        ..target
    };
    let n = target.workspaces.len() as int;
    assert forall|h: u64| #[trigger] gone.contains(h) implies state.workspaces.dom().contains(h)
        && state.workspaces[h].group == set.group by {
        let i = choose|i: int| 0 <= i < set.workspaces.len() && (#[trigger] set.workspaces[i]).handle
            == h;
        assert(state.workspaces.dom().contains(set.workspaces[i].handle));
    }
    assert(confined(state, after, set.group)) by {
        assert forall|h: u64|
            state.workspaces.dom().contains(h) && state.workspaces[h].group != set.group implies
            #[trigger] after.workspaces.dom().contains(h) && after.workspaces[h].group
            == state.workspaces[h].group by {
            assert(!gone.contains(h));
        }
    }
    lemma_confined(state, after, set.group);
    assert(target.registered(after));
    assert forall|i: int| n <= i < grown.workspaces.len() implies (
    #[trigger] grown.workspaces[i]).handle == state.next + i - n by {}
    assert forall|i: int| 0 <= i < grown.workspaces.len() implies after.workspaces.dom().contains(
        (#[trigger] grown.workspaces[i]).handle,
    ) && after.workspaces[grown.workspaces[i].handle].group == grown.group by {
        if i < n {
            assert(grown.workspaces[i] == target.workspaces[i]);
        }
    }
    assert forall|i: int, j: int| 0 <= i < j < grown.workspaces.len() implies (
    #[trigger] grown.workspaces[i]).handle != (#[trigger] grown.workspaces[j]).handle by {
        if i < n {
            assert(grown.workspaces[i] == target.workspaces[i]);
            assert(state.workspaces.dom().contains(target.workspaces[i].handle));
        }
        if j < n {
            assert(grown.workspaces[j] == target.workspaces[j]);
        }
    }
}

/// Handing workspaces over leaves a shell in order.
pub proof fn lemma_handed_over_keeps_wf(shell: ShellView, output: OutputId)
    requires
        shell.wf(),
        shell.hands_over(output),
        shell.state.next + (shell.workspaces.set_for(output)->0).workspaces.len() <= u64::MAX,
    ensures
        shell.handed_over(output).wf(),
        shell.without_set(output).workspaces.set_for(shell.other_outputs(output)[0].id)
            == shell.workspaces.set_for(shell.other_outputs(output)[0].id),
        shell.workspaces.set_for(shell.other_outputs(output)[0].id) is Some,
{
    let left = shell.without_set(output);
    let after = shell.handed_over(output);
    let sets = shell.workspaces->OutputBound_0;
    let others = left.workspaces->OutputBound_0;
    let r = slot(sets, output);
    let set = sets[r].1;
    let to = left.outputs[0].id;
    lemma_without_set_keeps_wf(shell, output);
    lemma_other_outputs(shell, output);
    lemma_slot(sets, output);
    let o = left.outputs[0];
    let q = choose|q: int| 0 <= q < shell.outputs.len() && shell.outputs[q] == o;
    assert(has_key(sets, shell.outputs[q].id));
    lemma_keys_left(sets, output, to);
    lemma_slot(others, to);
    lemma_slot(sets, to);
    let k = slot(others, to);
    let target = others[k].1;
    let new_sets = after.workspaces->OutputBound_0;
    assert(set.registered(shell.state));
    assert(target.registered(left.state));
    assert(forall|j: int|
        0 <= j < others.len() ==> #[trigger] others[j] == sets[if j < r {
            j
        } else {
            j + 1
        }]);
    assert forall|j: int| 0 <= j < others.len() implies (#[trigger] others[j]).1.group != set.group by {
        let p = if j < r {
            j
        } else {
            j + 1
        };
        assert(others[j] == sets[p]);
        if p < r {
            assert(sets[p].1.group != sets[r].1.group);
        } else {
            assert(sets[r].1.group != sets[p].1.group);
        }
    }
    lemma_moved_registered(shell.state, set, target, output, to);
    let grown = new_sets[k].1;
    lemma_keys_follow(others, new_sets);
    assert forall|i: int| 0 <= i < after.outputs.len() implies has_key(
        new_sets,
        (#[trigger] after.outputs[i]).id,
    ) && after.outputs[i].wf() by {
        assert(has_key(others, left.outputs[i].id));
    }
    assert forall|i: int| 0 <= i < new_sets.len() implies (#[trigger] new_sets[i]).1.registered(
        after.state,
    ) by {
        if i != k {
            assert(new_sets[i] == others[i]);
            assert(others[i].1.registered(left.state));
        }
    }
    assert forall|i: int, j: int| 0 <= i < j < new_sets.len() implies (
    #[trigger] new_sets[i]).1.group != (#[trigger] new_sets[j]).1.group by {
        assert(others[i].1.group != others[j].1.group);
    }
}

/// Where nothing is handed over, removing an output leaves a shell in order too.
proof fn lemma_removed_keeps_wf(shell: ShellView, output: OutputId)
    requires
        shell.wf(),
        !shell.hands_over(output),
    ensures
        shell.with_removed(output).wf(),
{
    let after = shell.with_removed(output);
    lemma_other_outputs(shell, output);
    assert forall|i: int| 0 <= i < after.outputs.len() implies (#[trigger] after.outputs[i]).wf() by {
        let o = after.outputs[i];
        let k = choose|k: int| 0 <= k < shell.outputs.len() && shell.outputs[k] == o;
        assert(shell.outputs[k].wf());
    }
    match shell.workspaces {
        ModeView::Global(set) => {
            lemma_set_outputs_like(set, output, Point::zero(), Seq::empty());
            let mid = ShellView { outputs: shell.outputs, ..after };
            assert(state_like(shell.state, after.state)) by {
                assert(after.state.groups.dom() =~= shell.state.groups.dom());
            }
            lemma_like_keeps_wf(shell, mid);
            assert(after.scene() == mid.scene());
        },
        ModeView::OutputBound(sets) => {
            if has_key(sets, output) {
                lemma_without_set_keeps_wf(shell, output);
            } else {
                assert(after.scene() == shell.scene());
                assert forall|i: int| 0 <= i < after.outputs.len() implies has_key(
                    sets,
                    (#[trigger] after.outputs[i]).id,
                ) by {
                    let o = after.outputs[i];
                    let k = choose|k: int| 0 <= k < shell.outputs.len() && shell.outputs[k] == o;
                    assert(has_key(sets, shell.outputs[k].id));
                }
            }
        },
    }
}

/// The workspaces of a set pass on to another set, which takes them under new handles.
fn take_over(
    new_set: &mut WorkspaceSet,
    set: WorkspaceSet,
    from: OutputId,
    to: OutputId,
    state: &mut WorkspaceState,
)
    requires
        old(new_set).wf(),
        set.wf(),
        old(state).wf(),
        old(state)@.groups.dom().contains(old(new_set)@.group),
        set@.registered(old(state)@),
        old(state)@.next + set@.workspaces.len() <= u64::MAX,
        places_numbered(old(new_set)@.workspaces.len() as int, set@.workspaces.len() as int),
    ensures
        final(new_set).wf(),
        final(state).wf(),
        final(new_set)@ == (SetView {
            workspaces: old(new_set)@.workspaces + moved_spaces(
                set@.workspaces,
                old(state)@.next,
                from,
                to,
            ),
            ..old(new_set)@
        }),
        final(state)@ == old(state)@.with_moved(
            set@.workspaces,
            old(new_set)@.group,
            old(new_set)@.workspaces.len() as int,
        ).without_groups(set![set.group]),
{
    let ghost all = set@.workspaces;
    let ghost base = state@;
    let ghost target = new_set@;
    let ghost len = target.workspaces.len() as int;
    let n: usize = set.workspaces.len();
    let group: WorkspaceGroupHandle = set.group;
    let workspace_group: WorkspaceGroupHandle = new_set.group;
    let mut rest: Vec<Workspace> = set.workspaces;
    let mut k: usize = 0;
    proof {
        assert(all.skip(0) =~= all);
        assert(all.take(0) =~= Seq::<WorkspaceView>::empty());
        assert(state@ =~= base.with_moved(all.take(0), workspace_group, len));
        assert(target.workspaces + moved_spaces(all.take(0), base.next, from, to)
            =~= target.workspaces);
    }
    while k < n
        invariant
            k <= n,
            n == all.len(),
            len == target.workspaces.len(),
            new_set.wf(),
            state.wf(),
            base.wf(),
            base.groups.dom().contains(workspace_group),
            base.next + n <= u64::MAX,
            places_numbered(len, n as int),
            forall|i: int|
                0 <= i < n ==> base.workspaces.dom().contains((#[trigger] all[i]).handle),
            workspaces_view(rest@) == all.skip(k as int),
            forall|i: int| 0 <= i < rest@.len() ==> (#[trigger] rest@[i]).wf(),
            new_set.active == target.active,
            new_set.group == target.group,
            workspace_group == target.group,
            new_set@.workspaces == target.workspaces + moved_spaces(
                all.take(k as int),
                base.next,
                from,
                to,
            ),
            state@ == base.with_moved(all.take(k as int), workspace_group, len),
        decreases n - k,
    {
        let ghost before = new_set@.workspaces;
        let ghost done = all.take(k as int);
        proof {
            assert(workspaces_view(rest@).len() == rest@.len());
            assert(workspaces_view(rest@)[0] == rest@[0]@);
            assert(place_of(len, k as int) != 255);
            assert(all.take(k + 1) =~= done.push(all[k as int]));
            lemma_handles_push(done, all[k as int]);
            assert(base.workspaces.dom().contains(all[k as int].handle));
            assert(new_set@.workspaces.len() == new_set.workspaces@.len());
        }
        let ghost view = workspaces_view(rest@);
        let mut workspace = rest.remove(0);
        assert(workspaces_view(rest@) =~= view.remove(0));
        assert(view.remove(0) =~= all.skip(k + 1));
        // update workspace protocol state
        state.remove_workspace(workspace.handle);
        let handle: WorkspaceHandle = state.create_workspace(workspace_group).unwrap();
        let place: u8 = (new_set.workspaces.len() % 256) as u8;
        init_workspace_handle(state, place, handle);
        workspace.handle = handle;
        // update mapping
        workspace.map_output(to, Point::origin());
        workspace.unmap_output(from);
        workspace.refresh();
        proof {
            assert(handle == base.next + k);
            assert(workspace@ =~= moved_space(all[k as int], handle, from, to));
        }
        new_set.workspaces.push(workspace);
        proof {
            assert(new_set@.workspaces =~= before.push(workspace@));
            assert(new_set@.workspaces =~= target.workspaces + moved_spaces(
                all.take(k + 1),
                base.next,
                from,
                to,
            ));
            assert(state@ =~= base.with_moved(all.take(k + 1), workspace_group, len));
        }
        k += 1;
    }
    assert(all.take(k as int) =~= all);
    state.remove_workspace_group(group);
}

/// Keeps the outputs other than one.
fn retain_outputs(outputs: &mut Vec<Output>, output: OutputId)
    ensures
        final(outputs)@ == old(outputs)@.filter(|o: Output| o.id != output),
{
    let ghost p = |o: Output| o.id != output;
    let mut kept: Vec<Output> = Vec::new();
    let mut i: usize = 0;
    while i < outputs.len()
        invariant
            i <= outputs.len(),
            p == (|o: Output| o.id != output),
            kept@ == outputs@.take(i as int).filter(p),
            outputs@ == old(outputs)@,
        decreases outputs.len() - i,
    {
        reveal(Seq::filter);
        assert(outputs@.take(i + 1).drop_last() =~= outputs@.take(i as int));
        if outputs[i].id != output {
            kept.push(outputs[i]);
        }
        i += 1;
    }
    assert(outputs@.take(i as int) =~= outputs@);
    *outputs = kept;
}

impl Shell {
    /// Adds an output.
    pub fn add_output(&mut self, output: &Output)
        requires
            old(self).wf(),
            output.wf(),
            old(self)@.state.next + old(self)@.handles_to_add(*output) <= u64::MAX,
        ensures
            final(self).wf(),
            final(self)@ == old(self)@.with_added(*output),
    {
        let ghost before = self@;
        proof {
            lemma_added_keeps_wf(before, *output);
        }
        self.outputs.push(*output);
        match &mut self.workspaces {
            WorkspaceMode::OutputBound(sets) => {
                let ghost entries = sets.seq();
                proof {
                    lemma_sets_view(entries, output.id);
                    lemma_slot(entries, output.id);
                    lemma_sets_update(entries);
                }
                if !sets.contains_key(output.id) {
                    let mut set = WorkspaceSet::new(
                        &mut self.workspace_state,
                        self.workspace_amount,
                    );
                    set.map_output(output.id, Point::origin());
                    sets.insert(output.id, set);
                    assert(sets_view(sets.seq()) =~= sets_view(entries).push((output.id, set@)));
                } else {
                    match sets.get_mut(output.id) {
                        Some(set) => {
                            set.map_output(output.id, Point::origin());
                        },
                        None => {},
                    }
                }
            },
            WorkspaceMode::Global(set) => {
                self.workspace_state.add_group_output(set.group, output.id);
                set.map_output(output.id, output.current_location());
            },
        }
        assert(self@ =~= before.with_added(*output));
    }

    /// Removes an output, and leaves it at that: no set is brought to the amount of workspaces
    /// asked for yet. Returns whether workspaces were taken over.
    pub fn release_output(&mut self, output: &Output) -> (moved: bool)
        requires
            old(self).wf(),
            old(self)@.can_release(output.id),
        ensures
            final(self).wf(),
            final(self)@ == old(self)@.with_released(output.id),
            moved == old(self)@.hands_over(output.id),
    {
        let ghost before = self@;
        proof {
            lemma_other_outputs(before, output.id);
        }
        retain_outputs(&mut self.outputs, output.id);
        let mut moved: bool = false;
        match &mut self.workspaces {
            WorkspaceMode::OutputBound(sets) => {
                let ghost entries = sets.seq();
                proof {
                    lemma_sets_view(entries, output.id);
                    lemma_slot(entries, output.id);
                }
                match sets.remove(output.id) {
                    Some(set) => {
                        let ghost left = sets.seq();
                        let ghost r = slot(entries, output.id);
                        proof {
                            assert(sets_view(left) =~= sets_view(entries).remove(r));
                            lemma_without_set_keeps_wf(before, output.id);
                            assert(sets_view(entries)[r].1.registered(before.state));
                            assert(forall|j: int|
                                0 <= j < left.len() ==> #[trigger] left[j] == entries[if j < r {
                                    j
                                } else {
                                    j + 1
                                }]);
                        }
                        // it is supposed to be the most internal one, so the first is a guess
                        if self.outputs.len() > 0 {
                            let to: OutputId = self.outputs[0].id;
                            proof {
                                lemma_handed_over_keeps_wf(before, output.id);
                                lemma_sets_view(left, to);
                                lemma_slot(left, to);
                                lemma_slot(sets_view(left), to);
                                lemma_sets_update(left);
                            }
                            match sets.get_mut(to) {
                                Some(new_set) => {
                                    take_over(
                                        new_set,
                                        set,
                                        output.id,
                                        to,
                                        &mut self.workspace_state,
                                    );
                                },
                                None => {},
                            }
                            moved = true;
                        }
                    },
                    None => {},
                }
            },
            WorkspaceMode::Global(set) => {
                self.workspace_state.remove_group_output(set.group, output.id);
                set.unmap_output(output.id);
            },
        }
        proof {
            if moved {
                assert(self@ =~= before.handed_over(output.id));
            } else {
                assert(self@ =~= before.with_removed(output.id));
                lemma_removed_keeps_wf(before, output.id);
            }
        }
        moved
    }

    /// Removes an output.
    pub fn remove_output(&mut self, output: &Output)
        requires
            old(self).wf(),
            old(self)@.can_remove(output.id),
        ensures
            final(self).wf(),
            final(self)@ == old(self)@.with_removed(output.id),
    {
        if self.release_output(output) {
            // cleans up the excess of workspaces and the empty ones
            self.refresh();
        }
    }

    /// Shows every output where it lies now, after some have moved.
    pub fn refresh_outputs(&mut self)
        requires
            old(self).wf(),
        ensures
            final(self).wf(),
            final(self)@ == old(self)@.with_outputs_placed(),
    {
        let ghost before = self@;
        match &mut self.workspaces {
            WorkspaceMode::Global(set) => {
                proof {
                    lemma_set_outputs_like(set@, 0, Point::zero(), before.outputs);
                }
                set.map_outputs(&self.outputs);
            },
            WorkspaceMode::OutputBound(_) => {},
        }
        proof {
            assert(self@ =~= before.with_outputs_placed());
            lemma_like_keeps_wf(before, self@);
        }
    }
}

} // verus!
