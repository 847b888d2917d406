//! What clients are told about windows: the workspaces and the outputs that they are on.
use crate::protocol::{OutputId, WorkspaceHandle};
use vstd::prelude::*;

verus! {

/// Names a window.
pub type WindowId = u64;

/// On which workspaces and on which outputs each window is announced.
#[derive(Debug)]
pub struct ToplevelInfoState {
    pub workspaces: Vec<(WindowId, WorkspaceHandle)>,
    pub outputs: Vec<(WindowId, OutputId)>,
}

/// The value of a [`ToplevelInfoState`].
#[verifier::ext_equal]
pub struct ToplevelView {
    pub workspaces: Set<(WindowId, WorkspaceHandle)>,
    pub outputs: Set<(WindowId, OutputId)>,
}

impl View for ToplevelInfoState {
    type V = ToplevelView;

    open spec fn view(&self) -> ToplevelView {
        ToplevelView { workspaces: self.workspaces@.to_set(), outputs: self.outputs@.to_set() }
    }
}

impl ToplevelView {
    /// The windows in `windows` leave workspace `from`.
    pub open spec fn left(self, windows: Set<WindowId>, from: WorkspaceHandle) -> ToplevelView {
        ToplevelView {
            workspaces: self.workspaces.filter(
                |p: (WindowId, WorkspaceHandle)| !(windows.contains(p.0) && p.1 == from),
            ),
            ..self
        }
    }

    /// The windows in `windows` enter workspace `to`.
    pub open spec fn entered(self, windows: Set<WindowId>, to: WorkspaceHandle) -> ToplevelView {
        ToplevelView {
            workspaces: self.workspaces.union(
                Set::new(|p: (WindowId, WorkspaceHandle)| windows.contains(p.0) && p.1 == to),
            ),
            ..self
        }
    }
}

proof fn lemma_push_pair(s: Seq<(u64, u64)>, x: (u64, u64))
    ensures
        s.push(x).to_set() =~= s.to_set().insert(x),
{
    assert forall|y: (u64, u64)| s.push(x).to_set().contains(y) == s.to_set().insert(x).contains(y) by {
        if s.contains(y) {
            let i = choose|i: int| 0 <= i < s.len() && s[i] == y;
            assert(s.push(x)[i] == y);
        }
        assert(s.push(x)[s.len() as int] == x);
    }
}

impl ToplevelInfoState {
    /// Starts without any window.
    pub fn new() -> (s: ToplevelInfoState)
        ensures
            s@ == (ToplevelView { workspaces: Set::empty(), outputs: Set::empty() }),
    {
        let s = ToplevelInfoState { workspaces: Vec::new(), outputs: Vec::new() };
        assert(s@ =~= ToplevelView { workspaces: Set::empty(), outputs: Set::empty() });
        s
    }

    /// Announces a window on a workspace.
    pub fn toplevel_enter_workspace(&mut self, window: WindowId, workspace: WorkspaceHandle)
        ensures
            final(self)@ == old(self)@.entered(set![window], workspace),
    {
        self.workspaces.push((window, workspace));
        proof {
            lemma_push_pair(old(self).workspaces@, (window, workspace));
            assert(self@ =~= old(self)@.entered(set![window], workspace));
        }
    }

    /// Withdraws a window from a workspace.
    pub fn toplevel_leave_workspace(&mut self, window: WindowId, workspace: WorkspaceHandle)
        ensures
            final(self)@ == old(self)@.left(set![window], workspace),
    {
        let ghost before = self.workspaces@;
        let mut kept: Vec<(WindowId, WorkspaceHandle)> = Vec::new();
        let mut i: usize = 0;
        while i < self.workspaces.len()
            invariant
                i <= self.workspaces@.len(),
                self.workspaces@ == before,
                self.outputs@ == old(self).outputs@,
                forall|j: int|
                    0 <= j < kept@.len() ==> before.contains(#[trigger] kept@[j]) && kept@[j] != (
                    window,
                    workspace,
                    ),
                forall|j: int|
                    0 <= j < i && before[j] != (window, workspace) ==> kept@.contains(
                        #[trigger] before[j],
                    ),
            decreases self.workspaces@.len() - i,
        {
            let pair: (WindowId, WorkspaceHandle) = self.workspaces[i];
            assert(before.contains(pair));
            if pair.0 != window || pair.1 != workspace {
                let ghost so_far = kept@;
                kept.push(pair);
                proof {
                    assert(kept@[so_far.len() as int] == pair);
                    assert forall|j: int| 0 <= j < i && before[j] != (window, workspace) implies kept@.contains(
                        #[trigger] before[j]) by {
                        let k = choose|k: int| 0 <= k < so_far.len() && so_far[k] == before[j];
                        assert(kept@[k] == before[j]);
                    }
                }
            }
            i += 1;
        }
        self.workspaces = kept;
        proof {
            assert forall|p: (WindowId, WorkspaceHandle)| #[trigger]
                self@.workspaces.contains(p) == old(self)@.left(set![window], workspace).workspaces.contains(
                    p,
                ) by {
                if before.contains(p) && p != (window, workspace) {
                    let j = choose|j: int| 0 <= j < before.len() && before[j] == p;
                    assert(kept@.contains(before[j]));
                }
            }
            assert(self@ =~= old(self)@.left(set![window], workspace));
        }
    }

    /// Announces a window on an output.
    pub fn toplevel_enter_output(&mut self, window: WindowId, output: OutputId)
        ensures
            final(self)@ == (ToplevelView {
                outputs: old(self)@.outputs.insert((window, output)),
                ..old(self)@
            }),
    {
        self.outputs.push((window, output));
        proof {
            lemma_push_pair(old(self).outputs@, (window, output));
            assert(self@ =~= ToplevelView {
                outputs: old(self)@.outputs.insert((window, output)),
                ..old(self)@
            });
        }
    }
}

} // verus!
