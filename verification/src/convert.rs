//! Changing between a set for each output and a set for all of them.
use crate::config::WorkspaceMode as ConfigMode;
use crate::gather::{
    actives_within, lemma_merged_registered, merge_sets, merged_set, row_count,
};
use crate::mode::{sets_view, ModeView, WorkspaceMode};
use crate::scene::SetsScene;
use crate::shell::{Shell, ShellView};
use crate::split::{can_split_all, lemma_set_split, split_set};
use vstd::prelude::*;

verus! {

impl ShellView {
    /// The shell in which all outputs share one set.
    pub open spec fn merged(self) -> ShellView {
        let sets = self.workspaces->OutputBound_0;
        ShellView {
            workspaces: ModeView::Global(merged_set(sets, self.outputs, self.state.next)),
            state: self.state.with_merged(sets),
            toplevels: self.toplevels.with_merged(sets, self.state.next + 1),
            ..self
        }
    }

    /// The shell in which each output has a set of its own.
    pub open spec fn split(self) -> ShellView {
        let after = (SetsScene {
            sets: Seq::empty(),
            state: self.state,
            toplevels: self.toplevels,
        }).with_set_split(self.workspaces->Global_0, self.outputs);
        ShellView {
            workspaces: ModeView::OutputBound(after.sets),
            state: after.state,
            toplevels: after.toplevels,
            ..self
        }
    }

    /// The shell in another mode.
    pub open spec fn converted(self, mode: ConfigMode) -> ShellView {
        match (self.workspaces, mode) {
            (ModeView::OutputBound(_), ConfigMode::Global) => self.merged(),
            (ModeView::Global(_), ConfigMode::OutputBound) => self.split(),
            _ => self,
        }
    }

    /// Whether there are numbers and handles enough for the workspaces of another mode, and
    /// whether it is known what is active and where outputs lie.
    pub open spec fn can_convert(self, mode: ConfigMode) -> bool {
        match (self.workspaces, mode) {
            (ModeView::OutputBound(sets), ConfigMode::Global) => {
                &&& actives_within(sets)
                &&& row_count(sets) <= 255
                &&& self.state.next + 1 + row_count(sets) <= u64::MAX
            },
            (ModeView::Global(set), ConfigMode::OutputBound) => {
                let n = set.workspaces.len();
                let m = self.outputs.len();
                &&& forall|i: int|
                    0 <= i < n ==> can_split_all(#[trigger] set.workspaces[i], self.outputs)
                &&& m > 0 ==> n <= 255
                &&& self.state.next + m + n * m <= u64::MAX
            },
            _ => true,
        }
    }
}

/// Another mode leaves a shell in order.
pub proof fn lemma_converted_keeps_wf(shell: ShellView, mode: ConfigMode)
    requires
        shell.wf(),
        shell.can_convert(mode),
    ensures
        shell.converted(mode).wf(),
{
    let after = shell.converted(mode);
    match (shell.workspaces, mode) {
        (ModeView::OutputBound(sets), ConfigMode::Global) => {
            lemma_merged_registered(sets, shell.outputs, shell.state);
        },
        (ModeView::Global(set), ConfigMode::OutputBound) => {
            let nothing = SetsScene {
                sets: Seq::empty(),
                state: shell.state,
                toplevels: shell.toplevels,
            };
            lemma_set_split(nothing, set, shell.outputs);
            let done = nothing.with_set_split(set, shell.outputs);
            assert(after.scene().bound() =~= done);
        },
        _ => {},
    }
}

impl Shell {
    /// Changes the mode, and leaves it at that: no set is brought to the amount of workspaces
    /// asked for yet.
    pub fn convert(&mut self, mode: ConfigMode)
        requires
            old(self).wf(),
            old(self)@.can_convert(mode),
        ensures
            final(self).wf(),
            final(self)@ == old(self)@.converted(mode),
    {
        let ghost before = self@;
        proof {
            lemma_converted_keeps_wf(before, mode);
        }
        match (&self.workspaces, mode) {
            (WorkspaceMode::OutputBound(sets), ConfigMode::Global) => {
                assert(forall|i: int|
                    0 <= i < sets.seq().len() ==> (#[trigger] sets_view(
                        sets.seq(),
                    )[i]).1.registered(before.state));
                let set = merge_sets(
                    sets,
                    &self.outputs,
                    &mut self.workspace_state,
                    &mut self.toplevel_info_state,
                );
                self.workspaces = WorkspaceMode::Global(set);
            },
            (WorkspaceMode::Global(set), ConfigMode::OutputBound) => {
                let sets = split_set(
                    set,
                    &self.outputs,
                    &mut self.workspace_state,
                    &mut self.toplevel_info_state,
                );
                self.workspaces = WorkspaceMode::OutputBound(sets);
            },
            _ => {},
        }
        assert(self@ =~= before.converted(mode));
    }

    /// Changes the mode. Windows keep their place as well as possible.
    pub fn set_mode(&mut self, mode: ConfigMode)
        requires
            old(self).wf(),
            old(self)@.can_convert(mode),
            old(self)@.converted(mode).can_refresh(),
        ensures
            final(self).wf(),
            final(self)@ == old(self)@.converted(mode).refreshed(),
    {
        self.convert(mode);
        // get rid of empty workspaces and enforce a potential maximum
        self.refresh();
    }
}

} // verus!
