//! Windows and layer surfaces that are mapped and moved.
use crate::element::{element_of, Element, ElementId, ElementView, ElementWindow, Window};
use crate::geometry::Point;
use crate::mode::ModeView;
use crate::output::Output;
use crate::protocol::{OutputId, WState};
use crate::set::SetView;
use crate::shell::{
    lemma_like_keeps_wf, lemma_with_space_like, state_like, LayerId, Shell, ShellView,
};
use crate::table::{lemma_slot, lemma_update, slot};
use crate::toplevel::{ToplevelView, WindowId};
use crate::workspace::{
    first_where, last_focus, lemma_first_where, lemma_first_where_is, SeatId, Workspace,
    WorkspaceView,
};
use vstd::prelude::*;

verus! {

/// A window whose popups are to be placed, and where the window lies.
#[derive(Clone, Copy, PartialEq, Eq, Structural, Debug)]
pub struct PopupUpdate {
    pub window: WindowId,
    pub location: Point,
}

/// What is left to do once a window is mapped.
#[derive(Debug)]
pub struct MappedWindow {
    /// The element that the seat's focus goes to.
    pub element: ElementId,
    pub seat: SeatId,
    /// The elements whose popups are to be placed anew, once the workspace is laid out.
    pub reactive: Vec<ElementId>,
}

/// What is left to do once a layer surface is no longer pending.
#[derive(Clone, Copy, PartialEq, Eq, Structural, Debug)]
pub struct MappedLayer {
    /// The output to put it on.
    pub output: OutputId,
    /// The seat whose focus it gets, if any.
    pub focus: Option<SeatId>,
}

/// The layers of an output, from the back to the front.
#[derive(Clone, Copy, PartialEq, Eq, Structural, Debug)]
pub enum LayerKind {
    Background,
    Bottom,
    Top,
    Overlay,
}

/// Whether a layer surface takes input from the keyboard.
#[derive(Clone, Copy, PartialEq, Eq, Structural, Debug)]
pub enum KeyboardInteractivity {
    Never,
    Exclusive,
    OnDemand,
}

/// Where each window of an element lies, and so where its popups are to be placed.
pub open spec fn element_popups(e: ElementView) -> Seq<PopupUpdate> {
    e.windows.map_values(
        |w: ElementWindow|
            PopupUpdate {
                window: w.window,
                location: e.location.plus(w.offset).plus(w.geometry_loc),
            },
    )
}

/// Whether a layer surface gets the focus when it is mapped: one in front of the windows
/// does, if it takes input at all.
pub open spec fn gets_focus(kind: LayerKind, interactivity: KeyboardInteractivity) -> bool {
    (kind is Top || kind is Overlay) && !(interactivity is Never)
}

/// Says of a pending window whether it is this one.
pub open spec fn is_window(window: WindowId) -> spec_fn((Window, SeatId)) -> bool {
    |p: (Window, SeatId)| p.0.id == window
}

/// Says of a pending layer surface whether it is this one.
pub open spec fn is_layer(layer: LayerId) -> spec_fn((LayerId, OutputId, SeatId)) -> bool {
    |p: (LayerId, OutputId, SeatId)| p.0 == layer
}

impl ShellView {
    /// The popups to be placed anew for an element, if it is on a workspace.
    pub open spec fn popups(self, id: ElementId) -> Seq<PopupUpdate> {
        let i = self.space_index(id);
        if i < self.workspaces.spaces().len() {
            element_popups(self.workspaces.spaces()[i].element(id))
        } else {
            Seq::empty()
        }
    }

    /// The position of a window among those that are pending, or their number.
    pub open spec fn pending_index(self, window: WindowId) -> int {
        first_where(self.pending_windows, is_window(window))
    }

    /// The position of a layer surface among those that are pending, or their number.
    pub open spec fn pending_layer_index(self, layer: LayerId) -> int {
        first_where(self.pending_layers, is_layer(layer))
    }

    /// The shell with a pending window on the active workspace of an output. It floats if
    /// it should, or if all windows do.
    pub open spec fn with_window(self, window: WindowId, output: OutputId) -> ShellView {
        let pos = self.pending_index(window);
        let w = self.pending_windows[pos].0;
        let space = self.workspaces.active_space(output);
        ShellView {
            pending_windows: self.pending_windows.remove(pos),
            workspaces: self.workspaces.with_space(
                self.workspaces.active_index(output),
                output,
                space.with_element(
                    element_of(w),
                    w.should_be_floating || self.floating_default,
                ),
            ),
            toplevels: (ToplevelView {
                outputs: self.toplevels.outputs.insert((w.id, output)),
                ..self.toplevels
            }).entered(set![w.id], space.handle),
            ..self
        }
    }

    /// The element that is moved off the active workspace of an output for a seat.
    pub open spec fn current(self, seat: SeatId, output: OutputId) -> Option<ElementId> {
        last_focus(self.workspaces.active_space(output).focus_stack, seat)
    }

    /// The shell with an element taken off the active workspace of an output.
    pub open spec fn with_taken(self, id: ElementId, output: OutputId) -> ShellView {
        let space = self.workspaces.active_space(output);
        ShellView {
            workspaces: self.workspaces.with_space(
                self.workspaces.active_index(output),
                output,
                space.without_element(id),
            ),
            toplevels: self.toplevels.left(space.element(id).window_set(), space.handle),
            ..self
        }
    }

    /// The shell with an element put on a workspace of an output, which is hidden no longer.
    pub open spec fn with_put(
        self,
        e: ElementView,
        floating: bool,
        output: OutputId,
        idx: int,
    ) -> ShellView {
        let space = self.workspaces.space(idx, output)->0;
        ShellView {
            workspaces: self.workspaces.with_space(idx, output, space.with_element(e, floating)),
            toplevels: self.toplevels.entered(e.window_set(), space.handle),
            state: self.state.with_state(space.handle, WState::Hidden, false),
            ..self
        }
    }

    /// The shell with an element moved from the active workspace of an output to another
    /// one, on the layer of the same kind.
    pub open spec fn with_moved(self, id: ElementId, output: OutputId, idx: int) -> ShellView {
        let space = self.workspaces.active_space(output);
        self.with_taken(id, output).with_put(space.element(id), space.floats(id), output, idx)
    }

    /// Whether moving the current window of a seat to workspace `idx` moves anything.
    pub open spec fn moves(self, seat: SeatId, output: OutputId, idx: int) -> bool {
        idx != self.workspaces.active_index(output) && self.current(seat, output) is Some
    }

    /// Whether what is to be moved is there, and where it is to go.
    pub open spec fn can_move(self, seat: SeatId, output: OutputId, idx: int) -> bool {
        &&& self.workspaces.set_for(output) is Some
        &&& idx != self.workspaces.active_index(output) ==> self.workspaces.has_active(output)
        &&& self.moves(seat, output, idx) ==> {
            &&& self.workspaces.active_space(output).on_one_layer(self.current(seat, output)->0)
            &&& self.workspaces.space(idx, output) is Some
        }
    }
}

/// Whether a layer surface gets the focus when it is mapped.
pub fn wants_focus(kind: LayerKind, interactivity: KeyboardInteractivity) -> (r: bool)
    ensures
        r == gets_focus(kind, interactivity),
{
    let in_front = match kind {
        LayerKind::Top => true,
        LayerKind::Overlay => true,
        _ => false,
    };
    let takes_input = match interactivity {
        KeyboardInteractivity::Never => false,
        _ => true,
    };
    in_front && takes_input
}

impl Shell {
    /// Says where the windows of an element lie, as its workspace was last laid out, so that
    /// popups that react to that can be placed anew. An element that is on no workspace has
    /// none.
    pub fn update_reactive_popups(&self, mapped: ElementId) -> (r: Vec<PopupUpdate>)
        requires
            self.wf(),
        ensures
            r@ == self@.popups(mapped),
    {
        let mut r: Vec<PopupUpdate> = Vec::new();
        match self.space_for(mapped) {
            Some(workspace) => {
                proof {
                    lemma_first_where(
                        self@.workspaces.spaces(),
                        |w: WorkspaceView| w.has(mapped),
                    );
                }
                let element: &Element = workspace.element(mapped).unwrap();
                let ghost e = element@;
                let mut j: usize = 0;
                while j < element.windows.len()
                    invariant
                        j <= element.windows.len(),
                        element@ == e,
                        r@ == element_popups(e).take(j as int),
                    decreases element.windows.len() - j,
                {
                    let w: ElementWindow = element.windows[j];
                    r.push(
                        PopupUpdate {
                            window: w.window,
                            location: element.location.offset_by(w.offset).offset_by(
                                w.geometry_loc,
                            ),
                        },
                    );
                    assert(r@ =~= element_popups(e).take(j + 1));
                    j += 1;
                }
                assert(element_popups(e).take(j as int) =~= element_popups(e));
            },
            None => {},
        }
        r
    }

    /// The position of a window among those that are pending.
    fn pending_position(&self, window: WindowId) -> (pos: usize)
        requires
            self@.pending_index(window) < self@.pending_windows.len(),
        ensures
            pos == self@.pending_index(window),
            pos < self@.pending_windows.len(),
            self@.pending_windows[pos as int].0.id == window,
    {
        let ghost p = is_window(window);
        let ghost s = self.pending_windows@;
        proof {
            lemma_first_where(s, p);
        }
        let mut i: usize = 0;
        while self.pending_windows[i].0.id != window
            invariant
                i <= first_where(s, p) < s.len(),
                s == self.pending_windows@,
                s.len() == self.pending_windows.len(),
                p == is_window(window),
                p(s[first_where(s, p)]),
                forall|j: int| 0 <= j < i ==> !p(#[trigger] s[j]),
            decreases s.len() - i,
        {
            assert(!p(s[i as int]));
            i += 1;
        }
        proof {
            assert(p(s[i as int]));
            lemma_first_where_is(s, p, i as int);
        }
        i
    }

    /// The position of a layer surface among those that are pending.
    fn pending_layer_position(&self, layer: LayerId) -> (pos: usize)
        requires
            self@.pending_layer_index(layer) < self@.pending_layers.len(),
        ensures
            pos == self@.pending_layer_index(layer),
            pos < self@.pending_layers.len(),
    {
        let ghost p = is_layer(layer);
        let ghost s = self.pending_layers@;
        proof {
            lemma_first_where(s, p);
        }
        let mut i: usize = 0;
        while self.pending_layers[i].0 != layer
            invariant
                i <= first_where(s, p) < s.len(),
                s == self.pending_layers@,
                s.len() == self.pending_layers.len(),
                p == is_layer(layer),
                p(s[first_where(s, p)]),
                forall|j: int| 0 <= j < i ==> !p(#[trigger] s[j]),
            decreases s.len() - i,
        {
            assert(!p(s[i as int]));
            i += 1;
        }
        proof {
            assert(p(s[i as int]));
            lemma_first_where_is(s, p, i as int);
        }
        i
    }

    /// Maps a pending window on the active workspace of an output. Where it and the other
    /// elements come to lie is for the layout to say, so popups are placed after that.
    pub fn map_window(&mut self, window: WindowId, output: &Output) -> (r: MappedWindow)
        requires
            old(self).wf(),
            old(self)@.pending_index(window) < old(self)@.pending_windows.len(),
            old(self)@.workspaces.has_active(output.id),
        ensures
            final(self).wf(),
            final(self)@ == old(self)@.with_window(window, output.id),
            ({
                let (w, seat) = old(self)@.pending_windows[old(self)@.pending_index(window)];
                &&& r.element == element_of(w).id
                &&& r.seat == seat
                &&& r.reactive@ == final(self)@.workspaces.active_space(output.id).names()
            }),
    {
        let ghost before = self@;
        let pos: usize = self.pending_position(window);
        let (window, seat) = self.pending_windows.remove(pos);
        let floating_default: bool = self.floating_default;
        let workspace: &mut Workspace = self.workspaces.active_mut(output);
        self.toplevel_info_state.toplevel_enter_output(window.id, output.id);
        self.toplevel_info_state.toplevel_enter_workspace(window.id, workspace.handle);
        let mapped = Element::from_window(window);
        let element: ElementId = mapped.id;
        workspace.map(mapped, window.should_be_floating || floating_default);
        proof {
            let a = before.workspaces.active_index(output.id);
            let space = before.workspaces.active_space(output.id).with_element(
                element_of(window),
                window.should_be_floating || floating_default,
            );
            assert(before.workspaces.space(a, output.id) == Some(
                before.workspaces.active_space(output.id),
            ));
            lemma_with_space_like(before.workspaces, a, output.id, space);
            lemma_like_keeps_wf(before, self@);
            lemma_active_after(before.workspaces, output.id, space);
            assert(self@ =~= before.with_window(window.id, output.id));
        }
        let reactive = self.workspaces.active(output).mapped_ids();
        MappedWindow { element, seat, reactive }
    }

    /// Takes a layer surface out of those that are pending, and says where it goes and
    /// whose focus it gets.
    pub fn map_layer(
        &mut self,
        layer: LayerId,
        kind: LayerKind,
        interactivity: KeyboardInteractivity,
    ) -> (r: MappedLayer)
        requires
            old(self).wf(),
            old(self)@.pending_layer_index(layer) < old(self)@.pending_layers.len(),
        ensures
            final(self).wf(),
            ({
                let pos = old(self)@.pending_layer_index(layer);
                let (_, output, seat) = old(self)@.pending_layers[pos];
                &&& final(self)@ == (ShellView {
                    pending_layers: old(self)@.pending_layers.remove(pos),
                    ..old(self)@
                })
                &&& r.output == output
                &&& r.focus == (if gets_focus(kind, interactivity) {
                    Some(seat)
                } else {
                    None
                })
            }),
    {
        let pos: usize = self.pending_layer_position(layer);
        let (_, output, seat) = self.pending_layers.remove(pos);
        assert(self@.scene() == old(self)@.scene());
        if wants_focus(kind, interactivity) {
            MappedLayer { output, focus: Some(seat) }
        } else {
            MappedLayer { output, focus: None }
        }
    }

    /// Moves the element that a seat's focus went to last on the active workspace of an
    /// output to workspace `idx`. Names the elements on the workspace that it left: their popups
    /// are to be placed anew, once that workspace is laid out.
    pub fn move_current_window(&mut self, seat: SeatId, output: &Output, idx: usize) -> (r: Vec<
        ElementId,
    >)
        requires
            old(self).wf(),
            old(self)@.can_move(seat, output.id, idx as int),
        ensures
            final(self).wf(),
            if old(self)@.moves(seat, output.id, idx as int) {
                let id = old(self)@.current(seat, output.id)->0;
                &&& final(self)@ == old(self)@.with_moved(id, output.id, idx as int)
                &&& r@ == old(self)@.workspaces.active_space(output.id).without_element(id).names()
            } else {
                &&& final(self)@ == old(self)@
                &&& r@ == Seq::<ElementId>::empty()
            },
    {
        if idx == self.workspaces.active_num(output) {
            return Vec::new();
        }
        let ghost before = self@;
        let maybe_window = self.workspaces.active(output).focused(seat);
        match maybe_window {
            Some(id) => {
                let ghost a = before.workspaces.active_index(output.id);
                let ghost space = before.workspaces.active_space(output.id);
                proof {
                    assert(before.workspaces.space(a, output.id) == Some(space));
                    lemma_with_space_like(before.workspaces, a, output.id, space.without_element(id));
                    lemma_active_after(before.workspaces, output.id, space.without_element(id));
                }
                let old_workspace: &mut Workspace = self.workspaces.active_mut(output);
                let (mapped, was_floating) = old_workspace.unmap(id);
                mapped.leave(&mut self.toplevel_info_state, old_workspace.handle);
                proof {
                    assert(self@ =~= before.with_taken(id, output.id));
                    lemma_like_keeps_wf(before, self@);
                }
                let ghost taken = self@;
                let reactive = self.workspaces.active(output).mapped_ids();
                let ghost there = taken.workspaces.space(idx as int, output.id)->0;
                let ghost e = space.element(id);
                proof {
                    lemma_other_space(
                        before.workspaces,
                        output.id,
                        space.without_element(id),
                        idx as int,
                    );
                    lemma_with_space_like(
                        taken.workspaces,
                        idx as int,
                        output.id,
                        there.with_element(e, was_floating),
                    );
                }
                match self.workspaces.get_mut(idx, output) {
                    Some(new_workspace) => {
                        mapped.enter(&mut self.toplevel_info_state, new_workspace.handle);
                        self.workspace_state.remove_workspace_state(
                            new_workspace.handle,
                            WState::Hidden,
                        );
                        new_workspace.map(mapped, was_floating);
                    },
                    None => {},
                }
                proof {
                    assert(self@ =~= before.with_moved(id, output.id, idx as int));
                    assert(state_like(taken.state, self@.state)) by {
                        assert(self@.state.workspaces.dom() =~= taken.state.workspaces.dom());
                    }
                    lemma_like_keeps_wf(taken, self@);
                }
                reactive
            },
            None => Vec::new(),
        }
    }
}

/// A workspace that is put at the active position of an output is its active workspace.
pub proof fn lemma_active_after(mode: ModeView, output: OutputId, w: WorkspaceView)
    requires
        mode.has_active(output),
    ensures
        ({
            let after = mode.with_space(mode.active_index(output), output, w);
            &&& after.has_active(output)
            &&& after.active_index(output) == mode.active_index(output)
            &&& after.active_space(output) == w
        }),
{
    lemma_set_after(mode, output, mode.active_index(output), w);
}

/// The set of an output, after one of its workspaces was replaced.
pub proof fn lemma_set_after(mode: ModeView, output: OutputId, num: int, w: WorkspaceView)
    requires
        mode.space(num, output) is Some,
    ensures
        mode.with_space(num, output, w).set_for(output) == Some(
            (SetView {
                workspaces: (mode.set_for(output)->0).workspaces.update(num, w),
                ..mode.set_for(output)->0
            }),
        ),
{
    if let ModeView::OutputBound(sets) = mode {
        lemma_slot(sets, output);
        let k = slot(sets, output);
        let set = mode.set_for(output)->0;
        let new = SetView { workspaces: set.workspaces.update(num, w), ..set };
        lemma_update(sets, k, new);
        assert(sets.update(k, (sets[k].0, new)) == sets.update(k, (output, new)));
    }
}

/// The workspaces beside the active one stay when that is replaced.
pub proof fn lemma_other_space(mode: ModeView, output: OutputId, w: WorkspaceView, idx: int)
    requires
        mode.has_active(output),
        idx != mode.active_index(output),
    ensures
        mode.with_space(mode.active_index(output), output, w).space(idx, output) == mode.space(
            idx,
            output,
        ),
{
    lemma_set_after(mode, output, mode.active_index(output), w);
}

} // verus!
