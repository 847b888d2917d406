//! All sets of the shell together with what clients are told.
use crate::mode::{lemma_sets_update, sets_view, ModeView};
use crate::protocol::{OutputId, StateView, WorkspaceState};
use crate::set::{lemma_refreshed_registered, SetScene, SetView, WorkspaceAmount, WorkspaceSet};
use crate::table::{keys_distinct, Table};
use crate::toplevel::{ToplevelInfoState, ToplevelView};
use vstd::prelude::*;

verus! {

/// The sets of several outputs together with what clients are told.
#[verifier::ext_equal]
pub struct SetsScene {
    pub sets: Seq<(OutputId, SetView)>,
    pub state: StateView,
    pub toplevels: ToplevelView,
}

/// All workspaces of the shell together with what clients are told.
#[verifier::ext_equal]
pub struct ModeScene {
    pub mode: ModeView,
    pub state: StateView,
    pub toplevels: ToplevelView,
}

/// No two sets share a group.
pub open spec fn groups_distinct(sets: Seq<(OutputId, SetView)>) -> bool {
    forall|i: int, j: int|
        0 <= i < j < sets.len() ==> (#[trigger] sets[i]).1.group != (#[trigger] sets[j]).1.group
}

impl SetsScene {
    /// Clients know all sets, and no two of them share a group or an output.
    pub open spec fn registered(self) -> bool {
        &&& keys_distinct(self.sets)
        &&& groups_distinct(self.sets)
        &&& forall|i: int|
            0 <= i < self.sets.len() ==> (#[trigger] self.sets[i]).1.registered(self.state)
    }

    /// The scene after a refresh of the first `n` sets, one after the other.
    pub open spec fn refreshed(self, amount: WorkspaceAmount, n: int) -> SetsScene
        decreases n,
    {
        if n <= 0 {
            self
        } else {
            let before = self.refreshed(amount, n - 1);
            let (output, set) = self.sets[n - 1];
            let after = (SetScene {
                set,
                state: before.state,
                toplevels: before.toplevels,
            }).refreshed(amount);
            SetsScene {
                sets: before.sets.update(n - 1, (output, after.set)),
                state: after.state,
                toplevels: after.toplevels,
            }
        }
    }

    /// The set at position `n`, when its turn for a refresh comes.
    pub open spec fn turn(self, amount: WorkspaceAmount, n: int) -> SetScene {
        let before = self.refreshed(amount, n);
        SetScene { set: self.sets[n].1, state: before.state, toplevels: before.toplevels }
    }

    /// Whether each set can be refreshed when its turn comes.
    pub open spec fn can_refresh(self, amount: WorkspaceAmount) -> bool {
        forall|n: int|
            0 <= n < self.sets.len() ==> (#[trigger] self.turn(amount, n)).can_refresh(amount)
    }
}

impl ModeScene {
    /// The set that all outputs share, with what clients are told.
    pub open spec fn shared(self) -> SetScene
        recommends
            self.mode is Global,
    {
        SetScene { set: self.mode->Global_0, state: self.state, toplevels: self.toplevels }
    }

    /// The sets of the outputs, with what clients are told.
    pub open spec fn bound(self) -> SetsScene
        recommends
            self.mode is OutputBound,
    {
        SetsScene { sets: self.mode->OutputBound_0, state: self.state, toplevels: self.toplevels }
    }

    /// Clients know all sets.
    pub open spec fn registered(self) -> bool {
        match self.mode {
            ModeView::Global(set) => set.registered(self.state),
            ModeView::OutputBound(_) => self.bound().registered(),
        }
    }

    /// Whether all sets can be refreshed.
    pub open spec fn can_refresh(self, amount: WorkspaceAmount) -> bool {
        match self.mode {
            ModeView::Global(_) => self.shared().can_refresh(amount),
            ModeView::OutputBound(_) => self.bound().can_refresh(amount),
        }
    }

    /// The scene after a refresh of all sets.
    pub open spec fn refreshed(self, amount: WorkspaceAmount) -> ModeScene {
        match self.mode {
            ModeView::Global(_) => {
                let after = self.shared().refreshed(amount);
                ModeScene {
                    mode: ModeView::Global(after.set),
                    state: after.state,
                    toplevels: after.toplevels,
                }
            },
            ModeView::OutputBound(sets) => {
                let after = self.bound().refreshed(amount, sets.len() as int);
                ModeScene {
                    mode: ModeView::OutputBound(after.sets),
                    state: after.state,
                    toplevels: after.toplevels,
                }
            },
        }
    }
}

/// Refreshing sets one after the other keeps all of them known to clients.
pub proof fn lemma_sets_refreshed(scene: SetsScene, amount: WorkspaceAmount, n: int)
    requires
        scene.registered(),
        scene.state.wf(),
        scene.can_refresh(amount),
        0 <= n <= scene.sets.len(),
    ensures
        scene.refreshed(amount, n).registered(),
        scene.refreshed(amount, n).state.wf(),
        scene.refreshed(amount, n).sets.len() == scene.sets.len(),
        forall|i: int|
            0 <= i < scene.sets.len() ==> (#[trigger] scene.refreshed(amount, n).sets[i]).0
                == scene.sets[i].0 && scene.refreshed(amount, n).sets[i].1.group
                == scene.sets[i].1.group,
        forall|i: int|
            n <= i < scene.sets.len() ==> #[trigger] scene.refreshed(amount, n).sets[i]
                == scene.sets[i],
    decreases n,
{
    if n > 0 {
        lemma_sets_refreshed(scene, amount, n - 1);
        let before = scene.refreshed(amount, n - 1);
        let turn = scene.turn(amount, n - 1);
        assert(before.sets[n - 1] == scene.sets[n - 1]);
        assert(before.sets[n - 1].1.registered(before.state));
        lemma_refreshed_registered(turn, amount);
        let after = scene.refreshed(amount, n);
        assert forall|i: int| 0 <= i < scene.sets.len() implies (#[trigger] after.sets[i]).0
            == scene.sets[i].0 && after.sets[i].1.group == scene.sets[i].1.group by {
            assert(before.sets[i].0 == scene.sets[i].0);
        }
        assert forall|i: int| 0 <= i < scene.sets.len() implies (#[trigger] after.sets[i]).1.registered(
            after.state,
        ) by {
            assert(before.sets[i].1.registered(before.state));
            if i < n - 1 {
                assert(scene.sets[i].1.group != scene.sets[n - 1].1.group);
                assert(before.sets[i].1.group == scene.sets[i].1.group);
            } else if i > n - 1 {
                assert(scene.sets[n - 1].1.group != scene.sets[i].1.group);
                assert(before.sets[i].1.group == scene.sets[i].1.group);
            }
        }
        assert forall|i: int, j: int| 0 <= i < j < after.sets.len() implies (
        #[trigger] after.sets[i]).0 != (#[trigger] after.sets[j]).0 && after.sets[i].1.group
            != after.sets[j].1.group by {
            assert(scene.sets[i].0 != scene.sets[j].0);
            assert(scene.sets[i].1.group != scene.sets[j].1.group);
        }
    }
}

/// A refresh keeps all sets known to clients.
pub proof fn lemma_mode_refreshed(scene: ModeScene, amount: WorkspaceAmount)
    requires
        scene.registered(),
        scene.state.wf(),
        scene.can_refresh(amount),
    ensures
        scene.refreshed(amount).registered(),
        scene.refreshed(amount).state.wf(),
{
    match scene.mode {
        ModeView::Global(_) => {
            lemma_refreshed_registered(scene.shared(), amount);
        },
        ModeView::OutputBound(sets) => {
            lemma_sets_refreshed(scene.bound(), amount, sets.len() as int);
            let after = scene.refreshed(amount);
            assert(after.bound() =~= scene.bound().refreshed(amount, sets.len() as int));
        },
    }
}

/// Refreshes the sets of all outputs, one after the other.
pub fn refresh_sets(
    sets: &mut Table<WorkspaceSet>,
    amount: WorkspaceAmount,
    state: &mut WorkspaceState,
    toplevel_info: &mut ToplevelInfoState,
)
    requires
        old(sets).wf(),
        forall|i: int| 0 <= i < old(sets).seq().len() ==> (#[trigger] old(sets).seq()[i]).1.wf(),
        old(state).wf(),
        (SetsScene {
            sets: sets_view(old(sets).seq()),
            state: old(state)@,
            toplevels: old(toplevel_info)@,
        }).registered(),
        (SetsScene {
            sets: sets_view(old(sets).seq()),
            state: old(state)@,
            toplevels: old(toplevel_info)@,
        }).can_refresh(amount),
    ensures
        final(sets).wf(),
        forall|i: int|
            0 <= i < final(sets).seq().len() ==> (#[trigger] final(sets).seq()[i]).1.wf(),
        final(state).wf(),
        (SetsScene {
            sets: sets_view(final(sets).seq()),
            state: final(state)@,
            toplevels: final(toplevel_info)@,
        }) == (SetsScene {
            sets: sets_view(old(sets).seq()),
            state: old(state)@,
            toplevels: old(toplevel_info)@,
        }).refreshed(amount, old(sets).seq().len() as int),
{
    let ghost scene = SetsScene {
        sets: sets_view(sets.seq()),
        state: state@,
        toplevels: toplevel_info@,
    };
    let mut s: usize = 0;
    assert(SetsScene { sets: sets_view(sets.seq()), state: state@, toplevels: toplevel_info@ }
        =~= scene.refreshed(amount, 0));
    while s < sets.entries.len()
        invariant
            s <= sets.entries.len(),
            sets.seq().len() == scene.sets.len(),
            sets.wf(),
            forall|i: int| 0 <= i < sets.seq().len() ==> (#[trigger] sets.seq()[i]).1.wf(),
            state.wf(),
            scene.registered(),
            scene.state.wf(),
            scene.can_refresh(amount),
            (SetsScene {
                sets: sets_view(sets.seq()),
                state: state@,
                toplevels: toplevel_info@,
            }) == scene.refreshed(amount, s as int),
        decreases sets.entries.len() - s,
    {
        let ghost before = sets.seq();
        proof {
            lemma_sets_refreshed(scene, amount, s as int);
            lemma_sets_update(before);
            let now = scene.refreshed(amount, s as int);
            assert(now.sets[s as int] == scene.sets[s as int]);
            assert(now.sets[s as int].1.registered(now.state));
            assert(before[s as int].1@ == scene.sets[s as int].1);
            assert(before[s as int].0 == scene.sets[s as int].0);
            assert(scene.turn(amount, s as int).can_refresh(amount));
            assert(before[s as int].1.wf());
        }
        sets.entries[s].1.refresh(amount, state, toplevel_info);
        proof {
            let set = sets.seq()[s as int].1;
            assert(sets.seq() =~= before.update(s as int, (before[s as int].0, set)));
            assert(forall|i: int| 0 <= i < before.len() ==> (#[trigger] sets.seq()[i]).0 == before[i].0);
            assert(keys_distinct(sets.seq())) by {
                assert forall|i: int, j: int| 0 <= i < j < sets.seq().len() implies (
                #[trigger] sets.seq()[i]).0 != (#[trigger] sets.seq()[j]).0 by {
                    assert(before[i].0 != before[j].0);
                }
            }
            assert(SetsScene {
                sets: sets_view(sets.seq()),
                state: state@,
                toplevels: toplevel_info@,
            } =~= scene.refreshed(amount, s + 1));
        }
        s += 1;
    }
}

} // verus!
