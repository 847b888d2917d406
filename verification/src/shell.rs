//! The shell: outputs, workspaces and the windows on them.
use crate::config::{Config, WorkspaceMode as ConfigMode};
use crate::element::{contains_id, copy_vec, Element, ElementId, SurfaceId, Window};
use crate::geometry::{Point, Rectangle, Size};
use crate::mode::{lemma_locate_inverse, ModeView, WorkspaceMode};
use crate::output::Output;
use crate::protocol::{OutputId, StateView, WorkspaceState};
use crate::scene::{lemma_mode_refreshed, lemma_sets_refreshed, refresh_sets, ModeScene};
use crate::set::{activated_state, new_workspaces, SetView, WorkspaceAmount};
use crate::table::{has_key, keys_distinct, lemma_slot};
use crate::toplevel::{ToplevelInfoState, ToplevelView};
use crate::workspace::{
    first_where, lemma_first_where_is, SeatId, Workspace, WorkspaceView,
};
use vstd::prelude::*;

verus! {

/// Names a surface that is drawn on a layer of an output, such as a panel.
pub type LayerId = u64;

/// A movement of the pointer that the shell causes.
#[derive(Clone, Copy, PartialEq, Eq, Structural, Debug)]
pub struct MotionEvent {
    pub serial: u32,
    pub time: u32,
}

/// The shell.
#[derive(Debug)]
pub struct Shell {
    pub outputs: Vec<Output>,
    pub workspaces: WorkspaceMode,
    pub workspace_amount: WorkspaceAmount,
    /// Whether new windows float unless told otherwise.
    pub floating_default: bool,
    /// Windows that are not mapped yet, each with the seat that it is for.
    pub pending_windows: Vec<(Window, SeatId)>,
    /// Layer surfaces that are not mapped yet.
    pub pending_layers: Vec<(LayerId, OutputId, SeatId)>,
    pub toplevel_info_state: ToplevelInfoState,
    pub workspace_state: WorkspaceState,
}

/// The value of a [`Shell`].
#[verifier::ext_equal]
pub struct ShellView {
    pub outputs: Seq<Output>,
    pub workspaces: ModeView,
    pub workspace_amount: WorkspaceAmount,
    pub floating_default: bool,
    pub pending_windows: Seq<(Window, SeatId)>,
    pub pending_layers: Seq<(LayerId, OutputId, SeatId)>,
    pub toplevels: ToplevelView,
    pub state: StateView,
}

impl View for Shell {
    type V = ShellView;

    open spec fn view(&self) -> ShellView {
        ShellView {
            outputs: self.outputs@,
            workspaces: self.workspaces@,
            workspace_amount: self.workspace_amount,
            floating_default: self.floating_default,
            pending_windows: self.pending_windows@,
            pending_layers: self.pending_layers@,
            toplevels: self.toplevel_info_state@,
            state: self.workspace_state@,
        }
    }
}

/// The smallest rectangle around some outputs.
pub open spec fn around_all(outputs: Seq<Output>) -> Option<Rectangle>
    decreases outputs.len(),
{
    if outputs.len() == 0 {
        None
    } else {
        match around_all(outputs.drop_last()) {
            Some(r) => Some(r.around(outputs.last().geometry)),
            None => Some(outputs.last().geometry),
        }
    }
}

/// Says of an output whether it is among those named.
pub open spec fn is_among(ids: Seq<OutputId>) -> spec_fn(Output) -> bool {
    |o: Output| ids.contains(o.id)
}

/// The outputs of the elements that have the surface, the first such element of each
/// workspace.
pub open spec fn surface_outputs(spaces: Seq<WorkspaceView>, surface: SurfaceId) -> Seq<OutputId>
    decreases spaces.len(),
{
    if spaces.len() == 0 {
        Seq::empty()
    } else {
        let w = spaces.last();
        let before = surface_outputs(spaces.drop_last(), surface);
        if w.shows_surface(surface) {
            before + w.mapped()[w.surface_index(surface)].outputs
        } else {
            before
        }
    }
}

impl ShellView {
    /// The workspaces together with what clients are told.
    pub open spec fn scene(self) -> ModeScene {
        ModeScene { mode: self.workspaces, state: self.state, toplevels: self.toplevels }
    }

    /// The shell with another scene.
    pub open spec fn with_scene(self, scene: ModeScene) -> ShellView {
        ShellView {
            workspaces: scene.mode,
            state: scene.state,
            toplevels: scene.toplevels,
            ..self
        }
    }

    /// Where outputs have sets of their own, each output has one.
    pub open spec fn outputs_have_sets(self) -> bool {
        match self.workspaces {
            ModeView::Global(_) => true,
            ModeView::OutputBound(sets) => forall|i: int|
                0 <= i < self.outputs.len() ==> has_key(sets, (#[trigger] self.outputs[i]).id),
        }
    }

    /// Clients know every workspace, and each output has a set to show.
    pub open spec fn wf(self) -> bool {
        &&& self.state.wf()
        &&& self.scene().registered()
        &&& self.outputs_have_sets()
        &&& forall|i: int| 0 <= i < self.outputs.len() ==> (#[trigger] self.outputs[i]).wf()
    }

    /// Whether all sets can be refreshed.
    pub open spec fn can_refresh(self) -> bool {
        self.scene().can_refresh(self.workspace_amount)
    }

    /// The shell after a refresh of all sets.
    pub open spec fn refreshed(self) -> ShellView {
        self.with_scene(self.scene().refreshed(self.workspace_amount))
    }

    /// The position of the first workspace with this element, or the number of workspaces.
    pub open spec fn space_index(self, id: ElementId) -> int {
        first_where(self.workspaces.spaces(), |w: WorkspaceView| w.has(id))
    }

    /// The position of the first workspace with this surface, or the number of workspaces.
    pub open spec fn surface_space(self, surface: SurfaceId) -> int {
        first_where(self.workspaces.spaces(), |w: WorkspaceView| w.shows_surface(surface))
    }

    /// The place on the workspace of an output that a place of the global space is.
    pub open spec fn to_space(self, global_loc: Point, output: Output) -> Point {
        match self.workspaces {
            ModeView::Global(_) => global_loc,
            ModeView::OutputBound(_) => global_loc.minus(output.location()),
        }
    }

    /// The place of the global space that a place on the workspace of an output is.
    pub open spec fn to_global(self, space_loc: Point, output: Output) -> Point {
        match self.workspaces {
            ModeView::Global(_) => space_loc,
            ModeView::OutputBound(_) => space_loc.plus(output.location()),
        }
    }

    /// The shell in which another workspace of an output is the active one.
    pub open spec fn activated(self, output: OutputId, idx: int) -> ShellView {
        match self.workspaces.set_for(output) {
            Some(set) => ShellView {
                workspaces: self.workspaces.with_set(output, set.activated(idx)),
                state: activated_state(set, self.state, idx),
                ..self
            },
            None => self,
        }
    }
}

/// A refresh leaves every output with a set.
pub proof fn lemma_refresh_keeps_wf(shell: ShellView)
    requires
        shell.wf(),
        shell.can_refresh(),
    ensures
        shell.refreshed().wf(),
{
    lemma_mode_refreshed(shell.scene(), shell.workspace_amount);
    let after = shell.refreshed();
    assert(after.scene() =~= shell.scene().refreshed(shell.workspace_amount));
    if let ModeView::OutputBound(sets) = shell.workspaces {
        lemma_sets_refreshed(
            shell.scene().bound(),
            shell.workspace_amount,
            sets.len() as int,
        );
        let new_sets = after.workspaces->OutputBound_0;
        assert forall|i: int| 0 <= i < after.outputs.len() implies has_key(
            new_sets,
            (#[trigger] after.outputs[i]).id,
        ) by {
            let id = after.outputs[i].id;
            assert(has_key(sets, shell.outputs[i].id));
            let k = choose|k: int| 0 <= k < sets.len() && (#[trigger] sets[k]).0 == id;
            assert(new_sets[k].0 == id);
        }
    }
}

/// Whether two sets have the same group and the same workspaces, whatever is on them.
pub open spec fn set_like(a: SetView, b: SetView) -> bool {
    &&& a.group == b.group
    &&& a.workspaces.len() == b.workspaces.len()
    &&& forall|i: int|
        0 <= i < a.workspaces.len() ==> (#[trigger] b.workspaces[i]).handle
            == a.workspaces[i].handle
}

/// Whether two arrangements have the same outputs, groups and workspaces, whatever is on
/// them.
pub open spec fn mode_like(a: ModeView, b: ModeView) -> bool {
    match (a, b) {
        (ModeView::Global(x), ModeView::Global(y)) => set_like(x, y),
        (ModeView::OutputBound(x), ModeView::OutputBound(y)) => {
            &&& x.len() == y.len()
            &&& forall|i: int|
                0 <= i < x.len() ==> (#[trigger] y[i]).0 == x[i].0 && set_like(x[i].1, y[i].1)
        },
        _ => false,
    }
}

/// Whether clients know the same groups, and the same workspaces in them.
pub open spec fn state_like(a: StateView, b: StateView) -> bool {
    &&& a.groups.dom() == b.groups.dom()
    &&& a.workspaces.dom() == b.workspaces.dom()
    &&& forall|h: u64| #[trigger]
        b.workspaces.dom().contains(h) ==> b.workspaces[h].group == a.workspaces[h].group
    &&& a.next == b.next
}

/// A set that looks the same is known to clients in the same way.
pub proof fn lemma_set_like(a: SetView, b: SetView, before: StateView, after: StateView)
    requires
        set_like(a, b),
        state_like(before, after),
        a.registered(before),
    ensures
        b.registered(after),
{
    assert forall|i: int| 0 <= i < b.workspaces.len() implies after.workspaces.dom().contains(
        (#[trigger] b.workspaces[i]).handle,
    ) && after.workspaces[b.workspaces[i].handle].group == b.group by {
        assert(before.workspaces.dom().contains(a.workspaces[i].handle));
    }
    assert forall|i: int, j: int| 0 <= i < j < b.workspaces.len() implies (
    #[trigger] b.workspaces[i]).handle != (#[trigger] b.workspaces[j]).handle by {
        assert(a.workspaces[i].handle != a.workspaces[j].handle);
    }
}

/// What is on the workspaces, and which of them are active, does not matter for what
/// clients know of them.
pub proof fn lemma_like_keeps_wf(before: ShellView, after: ShellView)
    requires
        before.wf(),
        mode_like(before.workspaces, after.workspaces),
        state_like(before.state, after.state),
        before.outputs == after.outputs,
    ensures
        after.wf(),
{
    match (before.workspaces, after.workspaces) {
        (ModeView::Global(x), ModeView::Global(y)) => {
            lemma_set_like(x, y, before.state, after.state);
        },
        (ModeView::OutputBound(x), ModeView::OutputBound(y)) => {
            lemma_keys_follow(x, y);
            assert forall|i: int| 0 <= i < y.len() implies (#[trigger] y[i]).1.registered(
                after.state,
            ) by {
                assert(x[i].1.registered(before.state));
                lemma_set_like(x[i].1, y[i].1, before.state, after.state);
            }
            assert forall|i: int, j: int| 0 <= i < j < y.len() implies (#[trigger] y[i]).1.group != (
            #[trigger] y[j]).1.group by {
                assert(x[i].1.group != x[j].1.group);
            }
        },
        _ => {},
    }
}

/// A set that looks the same in place of another changes no outputs, groups or workspaces.
pub proof fn lemma_with_set_like(mode: ModeView, output: OutputId, set: SetView)
    requires
        mode.set_for(output) matches Some(old_set) && set_like(old_set, set),
    ensures
        mode_like(mode, mode.with_set(output, set)),
{
    if let ModeView::OutputBound(sets) = mode {
        lemma_slot(sets, output);
    }
}

/// A workspace with the same handle in place of another changes no outputs, groups or
/// workspaces.
pub proof fn lemma_with_space_like(mode: ModeView, num: int, output: OutputId, w: WorkspaceView)
    requires
        mode.space(num, output) matches Some(old_space) && old_space.handle == w.handle,
    ensures
        mode_like(mode, mode.with_space(num, output, w)),
{
    let set = mode.set_for(output)->0;
    lemma_with_set_like(
        mode,
        output,
        SetView { workspaces: set.workspaces.update(num, w), ..set },
    );
}

/// Among all workspaces, too, one with the same handle may stand in for another.
pub proof fn lemma_with_nth_like(mode: ModeView, i: int, w: WorkspaceView)
    requires
        0 <= i < mode.spaces().len(),
        mode.spaces()[i].handle == w.handle,
    ensures
        mode_like(mode, mode.with_nth(i, w)),
{
    if let ModeView::OutputBound(sets) = mode {
        lemma_locate_inverse(sets, i);
    }
}

/// Making another workspace the active one keeps every workspace known to clients.
pub proof fn lemma_activated_keeps_wf(shell: ShellView, output: OutputId, idx: int)
    requires
        shell.wf(),
    ensures
        shell.activated(output, idx).wf(),
{
    let after = shell.activated(output, idx);
    assert(after.state.workspaces.dom() =~= shell.state.workspaces.dom()) by {
        if let Some(set) = shell.workspaces.set_for(output) {
            assert(activated_state(set, shell.state, idx).workspaces.dom()
                =~= shell.state.workspaces.dom());
        }
    }
    match shell.workspaces.set_for(output) {
        Some(set) => {
            lemma_with_set_like(shell.workspaces, output, set.activated(idx));
            lemma_like_keeps_wf(shell, after);
        },
        None => {},
    }
}

/// Entries with the same keys in the same order have the same keys.
pub proof fn lemma_keys_follow(a: Seq<(u64, SetView)>, b: Seq<(u64, SetView)>)
    requires
        a.len() == b.len(),
        forall|i: int| 0 <= i < a.len() ==> (#[trigger] b[i]).0 == a[i].0,
    ensures
        forall|k: u64| has_key(a, k) ==> #[trigger] has_key(b, k),
        keys_distinct(a) ==> keys_distinct(b),
{
    assert forall|k: u64| has_key(a, k) implies #[trigger] has_key(b, k) by {
        let i = choose|i: int| 0 <= i < a.len() && (#[trigger] a[i]).0 == k;
        assert(b[i].0 == k);
    }
    if keys_distinct(a) {
        assert forall|i: int, j: int| 0 <= i < j < b.len() implies (#[trigger] b[i]).0 != (
        #[trigger] b[j]).0 by {
            assert(a[i].0 != a[j].0);
        }
    }
}

impl Shell {
    /// See [`ShellView::wf`].
    pub open spec fn wf(self) -> bool {
        &&& self.workspaces.wf()
        &&& self.workspace_state.wf()
        &&& self@.wf()
    }

    /// Starts without outputs and without windows.
    pub fn new(config: &Config) -> (shell: Shell)
        ensures
            shell.wf(),
            shell@.outputs == Seq::<Output>::empty(),
            shell@.workspace_amount == config.static_conf.workspace_amount,
            shell@.floating_default == config.static_conf.floating_default,
            shell@.pending_windows == Seq::<(Window, SeatId)>::empty(),
            shell@.pending_layers == Seq::<(LayerId, OutputId, SeatId)>::empty(),
            shell@.toplevels == (ToplevelView { workspaces: Set::empty(), outputs: Set::empty() }),
            ({
                let nothing = StateView {
                    groups: Map::empty(),
                    workspaces: Map::empty(),
                    next: 0,
                };
                let n = config.static_conf.workspace_amount.initial();
                match config.static_conf.workspace_mode {
                    ConfigMode::OutputBound => {
                        &&& shell@.workspaces == ModeView::OutputBound(Seq::empty())
                        &&& shell@.state == nothing
                    },
                    ConfigMode::Global => {
                        &&& shell@.workspaces == ModeView::Global(
                            (SetView { active: 0, group: 0, workspaces: new_workspaces(1, n) }),
                        )
                        &&& shell@.state == nothing.with_new_group().with_started(0, n, true)
                    },
                }
            }),
    {
        let mut workspace_state = WorkspaceState::new();
        let amount: WorkspaceAmount = config.static_conf.workspace_amount;
        let mode = WorkspaceMode::new(
            config.static_conf.workspace_mode,
            amount,
            &mut workspace_state,
        );
        Shell {
            outputs: Vec::new(),
            workspaces: mode,
            workspace_amount: amount,
            floating_default: config.static_conf.floating_default,
            pending_windows: Vec::new(),
            pending_layers: Vec::new(),
            toplevel_info_state: ToplevelInfoState::new(),
            workspace_state,
        }
    }

    /// Brings every set to the amount of workspaces asked for, and lays the active
    /// workspaces out again.
    pub fn refresh(&mut self)
        requires
            old(self).wf(),
            old(self)@.can_refresh(),
        ensures
            final(self).wf(),
            final(self)@ == old(self)@.refreshed(),
    {
        let ghost before = self@;
        proof {
            lemma_refresh_keeps_wf(before);
        }
        match &mut self.workspaces {
            WorkspaceMode::OutputBound(sets) => {
                refresh_sets(
                    sets,
                    self.workspace_amount,
                    &mut self.workspace_state,
                    &mut self.toplevel_info_state,
                );
            },
            WorkspaceMode::Global(set) => {
                set.refresh(
                    self.workspace_amount,
                    &mut self.workspace_state,
                    &mut self.toplevel_info_state,
                );
            },
        }
        assert(self@ =~= before.refreshed());
    }

    /// Makes another workspace the active one on an output. The pointer does not move.
    pub fn activate(&mut self, output: &Output, idx: usize) -> (r: Option<MotionEvent>)
        requires
            old(self).wf(),
            old(self)@.workspaces.set_for(output.id) matches Some(set) ==> idx < set.workspaces.len()
                && set.active != idx ==> set.active < set.workspaces.len(),
        ensures
            final(self).wf(),
            r is None,
            final(self)@ == old(self)@.activated(output.id, idx as int),
    {
        let ghost before = self@;
        match self.workspaces.set_for_mut(output.id) {
            Some(set) => {
                set.activate(idx, &mut self.workspace_state);
            },
            None => {},
        }
        proof {
            assert(self@ =~= before.activated(output.id, idx as int));
            lemma_activated_keeps_wf(before, output.id, idx as int);
        }
        None
    }

    /// The active workspace of an output.
    pub fn active_space(&self, output: &Output) -> (w: &Workspace)
        requires
            self.wf(),
            self@.workspaces.has_active(output.id),
        ensures
            w.wf(),
            w@ == self@.workspaces.active_space(output.id),
    {
        self.workspaces.active(output)
    }

    /// The active workspace of an output, to be changed.
    pub fn active_space_mut(&mut self, output: &Output) -> (w: &mut Workspace)
        requires
            old(self).wf(),
            old(self)@.workspaces.has_active(output.id),
        ensures
            w.wf(),
            (*w)@ == old(self)@.workspaces.active_space(output.id),
            final(w).wf() && final(w).handle == w.handle ==> final(self).wf(),
            final(self)@ == (ShellView {
                workspaces: old(self)@.workspaces.with_space(
                    old(self)@.workspaces.active_index(output.id),
                    output.id,
                    (*final(w))@,
                ),
                ..old(self)@
            }),
    {
        proof {
            let mode = self@.workspaces;
            let a = mode.active_index(output.id);
            assert forall|v: WorkspaceView|
                v.handle == mode.active_space(output.id).handle implies (ShellView {
                workspaces: #[trigger] mode.with_space(a, output.id, v),
                ..self@
            }).wf() by {
                lemma_with_space_like(mode, a, output.id, v);
                lemma_like_keeps_wf(
                    self@,
                    ShellView { workspaces: mode.with_space(a, output.id, v), ..self@ },
                );
            }
        }
        self.workspaces.active_mut(output)
    }

    /// The element that has the surface: the first of the first workspace with one.
    pub fn element_for_surface(&self, surface: SurfaceId) -> (r: Option<&Element>)
        requires
            self.wf(),
        ensures
            ({
                let i = self@.surface_space(surface);
                match r {
                    Some(e) => {
                        let w = self@.workspaces.spaces()[i];
                        &&& i < self@.workspaces.spaces().len()
                        &&& e@ == w.mapped()[w.surface_index(surface)]
                    },
                    None => i == self@.workspaces.spaces().len(),
                }
            }),
    {
        let spaces = self.workspaces.spaces();
        let ghost all = self@.workspaces.spaces();
        let ghost p = |w: WorkspaceView| w.shows_surface(surface);
        let mut i: usize = 0;
        while i < spaces.len()
            invariant
                i <= spaces.len(),
                all == self@.workspaces.spaces(),
                p == (|w: WorkspaceView| w.shows_surface(surface)),
                spaces@.len() == all.len(),
                forall|j: int| 0 <= j < spaces@.len() ==> (#[trigger] spaces@[j])@ == all[j],
                forall|j: int| 0 <= j < i ==> !p(#[trigger] all[j]),
            decreases spaces.len() - i,
        {
            assert(spaces@[i as int]@ == all[i as int]);
            match spaces[i].element_for_surface(surface) {
                Some(e) => {
                    proof {
                        lemma_first_where_is(all, p, i as int);
                    }
                    return Some(e);
                },
                None => {},
            }
            i += 1;
        }
        proof {
            lemma_first_where_is(all, p, all.len() as int);
        }
        None
    }

    /// The position of the first workspace with this element, among all of them.
    fn space_position(&self, mapped: ElementId) -> (r: Option<usize>)
        requires
            self.wf(),
        ensures
            match r {
                Some(i) => i == self@.space_index(mapped) && i < self@.workspaces.spaces().len(),
                None => self@.space_index(mapped) == self@.workspaces.spaces().len(),
            },
    {
        let spaces = self.workspaces.spaces();
        let ghost all = self@.workspaces.spaces();
        let ghost p = |w: WorkspaceView| w.has(mapped);
        let mut i: usize = 0;
        while i < spaces.len()
            invariant
                i <= spaces.len(),
                all == self@.workspaces.spaces(),
                p == (|w: WorkspaceView| w.has(mapped)),
                spaces@.len() == all.len(),
                forall|j: int| 0 <= j < spaces@.len() ==> (#[trigger] spaces@[j])@ == all[j],
                forall|j: int| 0 <= j < i ==> !p(#[trigger] all[j]),
            decreases spaces.len() - i,
        {
            assert(spaces@[i as int]@ == all[i as int]);
            if spaces[i].has_element(mapped) {
                proof {
                    lemma_first_where_is(all, p, i as int);
                }
                return Some(i);
            }
            i += 1;
        }
        proof {
            lemma_first_where_is(all, p, all.len() as int);
        }
        None
    }

    /// The first workspace with this element.
    pub fn space_for(&self, mapped: ElementId) -> (r: Option<&Workspace>)
        requires
            self.wf(),
        ensures
            match r {
                Some(w) => {
                    &&& self@.space_index(mapped) < self@.workspaces.spaces().len()
                    &&& w@ == self@.workspaces.spaces()[self@.space_index(mapped)]
                    &&& w.wf()
                },
                None => self@.space_index(mapped) == self@.workspaces.spaces().len(),
            },
    {
        match self.space_position(mapped) {
            Some(i) => {
                let spaces = self.workspaces.spaces();
                assert(spaces@[i as int]@ == self@.workspaces.spaces()[i as int]);
                Some(spaces[i])
            },
            None => None,
        }
    }

    /// The first workspace with this element, to be changed.
    pub fn space_for_mut(&mut self, mapped: ElementId) -> (r: Option<&mut Workspace>)
        requires
            old(self).wf(),
        ensures
            ({
                let i = old(self)@.space_index(mapped);
                let spaces = old(self)@.workspaces.spaces();
                match r {
                    Some(w) => {
                        &&& i < spaces.len()
                        &&& (*w)@ == spaces[i]
                        &&& w.wf()
                        &&& final(w).wf() && final(w).handle == w.handle ==> final(self).wf()
                        &&& final(self)@ == (ShellView {
                            workspaces: old(self)@.workspaces.with_nth(i, (*final(w))@),
                            ..old(self)@
                        })
                    },
                    None => {
                        &&& i == spaces.len()
                        &&& final(self)@ == old(self)@
                        &&& final(self).wf()
                    },
                }
            }),
    {
        match self.space_position(mapped) {
            Some(i) => {
                proof {
                    let mode = self@.workspaces;
                    assert forall|v: WorkspaceView|
                        v.handle == mode.spaces()[i as int].handle implies (ShellView {
                        workspaces: #[trigger] mode.with_nth(i as int, v),
                        ..self@
                    }).wf() by {
                        lemma_with_nth_like(mode, i as int, v);
                        lemma_like_keeps_wf(
                            self@,
                            ShellView { workspaces: mode.with_nth(i as int, v), ..self@ },
                        );
                    }
                }
                self.workspaces.spaces_mut(i)
            },
            None => None,
        }
    }

    /// The outputs that show a surface: the first one that has it on a layer
    /// (`layer_outputs` names those that do), or else those of the elements that have it.
    pub fn outputs_for_surface(&self, surface: SurfaceId, layer_outputs: &Vec<OutputId>) -> (r: Vec<
        OutputId,
    >)
        requires
            self.wf(),
        ensures
            ({
                let k = first_where(self@.outputs, is_among(layer_outputs@));
                r@ == (if k < self@.outputs.len() {
                    seq![self@.outputs[k].id]
                } else {
                    surface_outputs(self@.workspaces.spaces(), surface)
                })
            }),
    {
        let mut r: Vec<OutputId> = Vec::new();
        let ghost p = is_among(layer_outputs@);
        let mut k: usize = 0;
        while k < self.outputs.len()
            invariant
                k <= self.outputs.len(),
                p == is_among(layer_outputs@),
                r@ == Seq::<OutputId>::empty(),
                forall|j: int| 0 <= j < k ==> !p(#[trigger] self.outputs@[j]),
            decreases self.outputs.len() - k,
        {
            if contains_id(layer_outputs, self.outputs[k].id) {
                proof {
                    lemma_first_where_is(self.outputs@, p, k as int);
                }
                r.push(self.outputs[k].id);
                assert(r@ =~= seq![self.outputs@[k as int].id]);
                return r;
            }
            k += 1;
        }
        proof {
            lemma_first_where_is(self.outputs@, p, self.outputs@.len() as int);
        }
        let spaces = self.workspaces.spaces();
        let ghost all = self@.workspaces.spaces();
        let mut i: usize = 0;
        assert(all.take(0) =~= Seq::<WorkspaceView>::empty());
        while i < spaces.len()
            invariant
                i <= spaces.len(),
                spaces@.len() == all.len(),
                forall|j: int| 0 <= j < spaces@.len() ==> (#[trigger] spaces@[j])@ == all[j],
                r@ == surface_outputs(all.take(i as int), surface),
            decreases spaces.len() - i,
        {
            proof {
                assert(spaces@[i as int]@ == all[i as int]);
                assert(all.take(i + 1).drop_last() =~= all.take(i as int));
                assert(all.take(i + 1).last() == all[i as int]);
            }
            match spaces[i].element_for_surface(surface) {
                Some(e) => {
                    let mut more = copy_vec(&e.outputs);
                    r.append(&mut more);
                },
                None => {},
            }
            i += 1;
        }
        assert(all.take(i as int) =~= all);
        r
    }

    /// The smallest rectangle around all outputs.
    pub fn global_space(&self) -> (r: Rectangle)
        requires
            self.wf(),
        ensures
            r == (match around_all(self@.outputs) {
                Some(space) => space,
                None => Rectangle::empty(),
            }),
    {
        let mut maybe_geo: Option<Rectangle> = None;
        let mut i: usize = 0;
        assert(self.outputs@.take(0) =~= Seq::<Output>::empty());
        while i < self.outputs.len()
            invariant
                i <= self.outputs.len(),
                forall|j: int| 0 <= j < self.outputs@.len() ==> (#[trigger] self.outputs@[j]).wf(),
                maybe_geo == around_all(self.outputs@.take(i as int)),
                maybe_geo matches Some(r) ==> r.size.wf(),
            decreases self.outputs.len() - i,
        {
            proof {
                assert(self.outputs@.take(i + 1).drop_last() =~= self.outputs@.take(i as int));
                assert(self.outputs@[i as int].wf());
            }
            let geometry: Rectangle = self.outputs[i].geometry;
            maybe_geo =
            match maybe_geo {
                Some(rect) => Some(rect.merge(geometry)),
                None => Some(geometry),
            };
            i += 1;
        }
        assert(self.outputs@.take(i as int) =~= self.outputs@);
        match maybe_geo {
            Some(rect) => rect,
            None => Rectangle { loc: Point::origin(), size: Size { w: 0, h: 0 } },
        }
    }

    /// The place on the workspace of an output that a place of the global space is.
    pub fn map_global_to_space(&self, global_loc: Point, output: &Output) -> (p: Point)
        ensures
            p == self@.to_space(global_loc, *output),
    {
        match &self.workspaces {
            WorkspaceMode::Global(_) => global_loc,
            WorkspaceMode::OutputBound(_) => global_loc.relative_to(output.current_location()),
        }
    }

    /// The place of the global space that a place on the workspace of an output is.
    pub fn map_space_to_global(&self, space_loc: Point, output: &Output) -> (p: Point)
        ensures
            p == self@.to_global(space_loc, *output),
    {
        match &self.workspaces {
            WorkspaceMode::Global(_) => space_loc,
            WorkspaceMode::OutputBound(_) => space_loc.offset_by(output.current_location()),
        }
    }

    /// The outputs, in the order in which they were added.
    pub fn outputs(&self) -> (r: &Vec<Output>)
        ensures
            r@ == self@.outputs,
    {
        &self.outputs
    }
}

} // verus!
