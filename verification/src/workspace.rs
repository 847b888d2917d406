//! Workspaces.
use crate::element::{
    element_index, has_element, lemma_element_index, lemma_windows_add, windows_in, Element,
    ElementId, ElementView, Layer, SurfaceId,
};
use crate::geometry::Point;
use crate::output::Output;
use crate::protocol::{OutputId, WorkspaceHandle};
use crate::table::{has_key, lemma_slot_at, Table};
use crate::toplevel::{ToplevelInfoState, WindowId};
use vstd::prelude::*;

verus! {

/// Names a seat.
pub type SeatId = u64;

/// A workspace: what is mapped on it, and on which outputs it is shown.
#[derive(Debug)]
pub struct Workspace {
    pub handle: WorkspaceHandle,
    pub tiling_layer: Layer,
    pub floating_layer: Layer,
    pub tiling_enabled: bool,
    /// The window that fills an output.
    pub fullscreen: Table<WindowId>,
    /// The elements that had the focus of a seat, the latest last.
    pub focus_stack: Vec<(SeatId, ElementId)>,
    /// The outputs that show the workspace, and where on it each lies.
    pub outputs: Table<Point>,
    /// Whether the compositor has to lay the workspace out again.
    pub needs_refresh: bool,
}

/// The value of a [`Workspace`].
#[verifier::ext_equal]
pub struct WorkspaceView {
    pub handle: WorkspaceHandle,
    pub tiling_layer: Seq<ElementView>,
    pub floating_layer: Seq<ElementView>,
    pub tiling_enabled: bool,
    pub fullscreen: Map<OutputId, WindowId>,
    pub focus_stack: Seq<(SeatId, ElementId)>,
    pub outputs: Map<OutputId, Point>,
    pub needs_refresh: bool,
}

impl View for Workspace {
    type V = WorkspaceView;

    open spec fn view(&self) -> WorkspaceView {
        WorkspaceView {
            handle: self.handle,
            tiling_layer: self.tiling_layer@,
            floating_layer: self.floating_layer@,
            tiling_enabled: self.tiling_enabled,
            fullscreen: self.fullscreen.map(),
            focus_stack: self.focus_stack@,
            outputs: self.outputs.map(),
            needs_refresh: self.needs_refresh,
        }
    }
}

/// An empty workspace that no output shows.
pub open spec fn new_workspace(handle: WorkspaceHandle) -> WorkspaceView {
    WorkspaceView {
        handle,
        tiling_layer: Seq::empty(),
        floating_layer: Seq::empty(),
        tiling_enabled: true,
        fullscreen: Map::empty(),
        focus_stack: Seq::empty(),
        outputs: Map::empty(),
        needs_refresh: false,
    }
}

/// The position of the first value that `p` holds of, or the number of values.
pub open spec fn first_where<A>(s: Seq<A>, p: spec_fn(A) -> bool) -> int
    decreases s.len(),
{
    if s.len() == 0 || p(s[0]) {
        0
    } else {
        1 + first_where(s.drop_first(), p)
    }
}

/// `first_where` finds the first value that `p` holds of.
pub proof fn lemma_first_where<A>(s: Seq<A>, p: spec_fn(A) -> bool)
    ensures
        0 <= first_where(s, p) <= s.len(),
        first_where(s, p) < s.len() ==> p(s[first_where(s, p)]),
        forall|i: int| 0 <= i < first_where(s, p) ==> !p(#[trigger] s[i]),
    decreases s.len(),
{
    if s.len() > 0 && !p(s[0]) {
        let t = s.drop_first();
        lemma_first_where(t, p);
        assert forall|i: int| 0 <= i < first_where(s, p) implies !p(#[trigger] s[i]) by {
            if i > 0 {
                assert(!p(t[i - 1]));
            }
        }
    }
}

/// There is just one first value that `p` holds of.
pub proof fn lemma_first_where_is<A>(s: Seq<A>, p: spec_fn(A) -> bool, i: int)
    requires
        0 <= i <= s.len(),
        i < s.len() ==> p(s[i]),
        forall|j: int| 0 <= j < i ==> !p(#[trigger] s[j]),
    ensures
        first_where(s, p) == i,
{
    lemma_first_where(s, p);
    let f = first_where(s, p);
    if f < i {
        assert(!p(s[f]));
    }
    if i < f {
        assert(!p(s[i]));
    }
}

/// The element that a seat's focus went to last, among entries of a focus stack.
pub open spec fn last_focus(s: Seq<(SeatId, ElementId)>, seat: SeatId) -> Option<ElementId>
    decreases s.len(),
{
    if s.len() == 0 {
        None
    } else if s.last().0 == seat {
        Some(s.last().1)
    } else {
        last_focus(s.drop_last(), seat)
    }
}

impl WorkspaceView {
    /// The elements of the workspace: those that float, then those that are tiled.
    pub open spec fn mapped(self) -> Seq<ElementView> {
        self.floating_layer + self.tiling_layer
    }

    /// The names of the elements of the workspace.
    pub open spec fn names(self) -> Seq<ElementId> {
        self.mapped().map_values(|e: ElementView| e.id)
    }

    /// The windows of the workspace.
    pub open spec fn windows(self) -> Set<WindowId> {
        windows_in(self.mapped())
    }

    /// Whether the workspace shows any window.
    pub open spec fn has_windows(self) -> bool {
        exists|x: WindowId| self.windows().contains(x)
    }

    /// Whether an element with this name is mapped on the workspace.
    pub open spec fn has(self, id: ElementId) -> bool {
        has_element(self.mapped(), id)
    }

    /// The first element with this name.
    pub open spec fn element(self, id: ElementId) -> ElementView {
        self.mapped()[element_index(self.mapped(), id)]
    }

    /// The position of the first element that has the surface, or the number of elements.
    pub open spec fn surface_index(self, surface: SurfaceId) -> int {
        first_where(self.mapped(), |e: ElementView| e.surfaces.contains(surface))
    }

    /// Whether an element of the workspace has the surface.
    pub open spec fn shows_surface(self, surface: SurfaceId) -> bool {
        self.surface_index(surface) < self.mapped().len()
    }

    /// Whether the element with this name floats.
    pub open spec fn floats(self, id: ElementId) -> bool {
        has_element(self.floating_layer, id)
    }

    /// Whether an element with this name is on exactly one of the layers.
    pub open spec fn on_one_layer(self, id: ElementId) -> bool {
        self.floats(id) != has_element(self.tiling_layer, id)
    }

    /// The workspace with an element on top of one of its layers.
    pub open spec fn with_element(self, e: ElementView, floating: bool) -> WorkspaceView {
        if floating {
            WorkspaceView { floating_layer: self.floating_layer.push(e), ..self }
        } else {
            WorkspaceView { tiling_layer: self.tiling_layer.push(e), ..self }
        }
    }

    /// The workspace without the first element with this name on the layer that it is on.
    pub open spec fn without_element(self, id: ElementId) -> WorkspaceView {
        if self.floats(id) {
            WorkspaceView {
                floating_layer: self.floating_layer.remove(element_index(self.floating_layer, id)),
                ..self
            }
        } else {
            WorkspaceView {
                tiling_layer: self.tiling_layer.remove(element_index(self.tiling_layer, id)),
                ..self
            }
        }
    }

    /// The workspace with an output shown at `position`.
    pub open spec fn with_output(self, output: OutputId, position: Point) -> WorkspaceView {
        WorkspaceView { outputs: self.outputs.insert(output, position), ..self }
    }

    /// The workspace with all of the outputs shown, each where it lies.
    pub open spec fn with_outputs(self, outputs: Seq<Output>) -> WorkspaceView
        decreases outputs.len(),
    {
        if outputs.len() == 0 {
            self
        } else {
            let o = outputs.last();
            self.with_outputs(outputs.drop_last()).with_output(o.id, o.location())
        }
    }

    /// The workspace without an output.
    pub open spec fn without_output(self, output: OutputId) -> WorkspaceView {
        WorkspaceView { outputs: self.outputs.remove(output), ..self }
    }

    /// The workspace, to be laid out again.
    pub open spec fn refreshed(self) -> WorkspaceView {
        WorkspaceView { needs_refresh: true, ..self }
    }

    /// The workspace with the elements of another one on top of its own, layer by layer.
    pub open spec fn merged(self, other: WorkspaceView) -> WorkspaceView {
        WorkspaceView {
            tiling_layer: self.tiling_layer + other.tiling_layer,
            floating_layer: self.floating_layer + other.floating_layer,
            fullscreen: self.fullscreen.union_prefer_right(other.fullscreen),
            ..self
        }
    }
}

/// The first element with a name is the first one that floats, if any does.
pub proof fn lemma_element_layer(w: WorkspaceView, id: ElementId)
    ensures
        w.has(id) <==> has_element(w.floating_layer, id) || has_element(w.tiling_layer, id),
        has_element(w.floating_layer, id) ==> w.element(id) == w.floating_layer[element_index(
            w.floating_layer,
            id,
        )],
        !has_element(w.floating_layer, id) && has_element(w.tiling_layer, id) ==> w.element(id)
            == w.tiling_layer[element_index(w.tiling_layer, id)],
{
    let m = w.mapped();
    let n = w.floating_layer.len() as int;
    lemma_element_index(m, id);
    lemma_element_index(w.floating_layer, id);
    lemma_element_index(w.tiling_layer, id);
    let f = element_index(w.floating_layer, id);
    let t = element_index(w.tiling_layer, id);
    let i = element_index(m, id);
    assert(forall|j: int| 0 <= j < n ==> m[j] == #[trigger] w.floating_layer[j]);
    assert(forall|j: int|
        0 <= j < w.tiling_layer.len() ==> m[n + j] == #[trigger] w.tiling_layer[j]);
    if f < n {
        assert(m[f].id == id);
        if i < f {
            assert(w.floating_layer[i].id != id);
        }
    } else if t < w.tiling_layer.len() {
        assert(m[n + t].id == id);
        if i < n {
            assert(w.floating_layer[i].id != id);
        } else if i < n + t {
            assert(w.tiling_layer[i - n].id != id);
        }
    } else if i < m.len() {
        if i < n {
            assert(w.floating_layer[i].id != id);
        } else {
            assert(w.tiling_layer[i - n].id != id);
        }
    }
}

/// Showing an output changes no handle.
pub proof fn lemma_outputs_keep_handles(w: WorkspaceView, outputs: Seq<Output>)
    ensures
        w.with_outputs(outputs).handle == w.handle,
    decreases outputs.len(),
{
    if outputs.len() > 0 {
        lemma_outputs_keep_handles(w, outputs.drop_last());
    }
}

impl Workspace {
    /// No output is named twice.
    pub open spec fn wf(self) -> bool {
        self.fullscreen.wf() && self.outputs.wf()
    }

    /// An empty workspace that no output shows.
    pub fn new(handle: WorkspaceHandle) -> (w: Workspace)
        ensures
            w.wf(),
            w@ == new_workspace(handle),
    {
        let w = Workspace {
            handle,
            tiling_layer: Layer::new(),
            floating_layer: Layer::new(),
            tiling_enabled: true,
            fullscreen: Table::new(),
            focus_stack: Vec::new(),
            outputs: Table::new(),
            needs_refresh: false,
        };
        assert(w@ =~= new_workspace(handle));
        w
    }

    /// Whether the workspace shows any window.
    pub fn has_windows(&self) -> (r: bool)
        ensures
            r == self@.has_windows(),
    {
        let r = self.floating_layer.has_windows() || self.tiling_layer.has_windows();
        proof {
            lemma_windows_add(self@.floating_layer, self@.tiling_layer);
            if r {
                let x = choose|x: WindowId|
                    windows_in(self@.floating_layer).contains(x) || windows_in(
                        self@.tiling_layer,
                    ).contains(x);
                assert(self@.windows().contains(x));
            }
        }
        r
    }

    /// Shows the workspace on an output, which lies at `position`.
    pub fn map_output(&mut self, output: OutputId, position: Point)
        requires
            old(self).wf(),
        ensures
            final(self).wf(),
            final(self)@ == old(self)@.with_output(output, position),
    {
        self.outputs.insert(output, position);
    }

    /// Shows the workspace on all of the outputs, each where it lies.
    pub fn map_outputs(&mut self, outputs: &Vec<Output>)
        requires
            old(self).wf(),
        ensures
            final(self).wf(),
            final(self)@ == old(self)@.with_outputs(outputs@),
    {
        let mut i: usize = 0;
        assert(outputs@.take(0) =~= Seq::<Output>::empty());
        while i < outputs.len()
            invariant
                i <= outputs.len(),
                self.wf(),
                self@ == old(self)@.with_outputs(outputs@.take(i as int)),
            decreases outputs.len() - i,
        {
            assert(outputs@.take(i + 1).drop_last() =~= outputs@.take(i as int));
            self.map_output(outputs[i].id, outputs[i].current_location());
            i += 1;
        }
        assert(outputs@.take(i as int) =~= outputs@);
    }

    /// Shows the workspace on an output no longer.
    pub fn unmap_output(&mut self, output: OutputId)
        requires
            old(self).wf(),
        ensures
            final(self).wf(),
            final(self)@ == old(self)@.without_output(output),
    {
        self.outputs.remove(output);
    }

    /// Asks for the workspace to be laid out again.
    pub fn refresh(&mut self)
        requires
            old(self).wf(),
        ensures
            final(self).wf(),
            final(self)@ == old(self)@.refreshed(),
    {
        self.needs_refresh = true;
    }

    /// Takes over the elements and the fullscreen windows of another workspace.
    pub fn merge(&mut self, other: &Workspace)
        requires
            old(self).wf(),
            other.wf(),
        ensures
            final(self).wf(),
            final(self)@ == old(self)@.merged(other@),
    {
        self.tiling_layer.merge(other.tiling_layer.duplicate());
        self.floating_layer.merge(other.floating_layer.duplicate());
        let ghost base = self.fullscreen.map();
        let ghost entries = other.fullscreen.seq();
        let mut i: usize = 0;
        assert(self.fullscreen.map() =~= base);
        while i < other.fullscreen.entries.len()
            invariant
                i <= other.fullscreen.entries.len(),
                other.fullscreen.wf(),
                entries == other.fullscreen.seq(),
                self.wf(),
                self.handle == old(self).handle,
                self.tiling_layer@ == old(self).tiling_layer@ + other.tiling_layer@,
                self.floating_layer@ == old(self).floating_layer@ + other.floating_layer@,
                self.tiling_enabled == old(self).tiling_enabled,
                self.focus_stack == old(self).focus_stack,
                self.outputs == old(self).outputs,
                self.needs_refresh == old(self).needs_refresh,
                forall|k: u64| #[trigger]
                    self.fullscreen.map().dom().contains(k) <==> base.dom().contains(k) || (exists|
                        j: int,
                    |
                        0 <= j < i && (#[trigger] entries[j]).0 == k),
                forall|j: int|
                    0 <= j < i ==> self.fullscreen.map()[(#[trigger] entries[j]).0] == entries[j].1,
                forall|k: u64|
                    base.dom().contains(k) && !(exists|j: int|
                        0 <= j < i && (#[trigger] entries[j]).0 == k)
                        ==> #[trigger] self.fullscreen.map()[k] == base[k],
            decreases other.fullscreen.entries.len() - i,
        {
            let (output, window) = other.fullscreen.entries[i];
            assert(entries[i as int] == (output, window));
            self.fullscreen.insert(output, window);
            i += 1;
        }
        proof {
            assert forall|k: u64| #[trigger]
                self.fullscreen.map().dom().contains(k) <==> base.union_prefer_right(
                    other.fullscreen.map(),
                ).dom().contains(k) by {
                if has_key(entries, k) {
                    let j = choose|j: int| 0 <= j < entries.len() && (#[trigger] entries[j]).0 == k;
                    lemma_slot_at(entries, j);
                }
            }
            assert forall|k: u64| self.fullscreen.map().dom().contains(k) implies #[trigger] self.fullscreen.map()[k]
                == base.union_prefer_right(other.fullscreen.map())[k] by {
                if has_key(entries, k) {
                    let j = choose|j: int| 0 <= j < entries.len() && (#[trigger] entries[j]).0 == k;
                    lemma_slot_at(entries, j);
                }
            }
            assert(self.fullscreen.map() =~= base.union_prefer_right(other.fullscreen.map()));
            assert(self@ =~= old(self)@.merged(other@));
        }
    }

    /// The windows of the workspace leave `from`, as clients are told.
    pub fn leave(&self, toplevel_info: &mut ToplevelInfoState, from: WorkspaceHandle)
        ensures
            final(toplevel_info)@ == old(toplevel_info)@.left(self@.windows(), from),
    {
        self.floating_layer.leave(toplevel_info, from);
        self.tiling_layer.leave(toplevel_info, from);
        proof {
            lemma_windows_add(self@.floating_layer, self@.tiling_layer);
            assert(toplevel_info@ =~= old(toplevel_info)@.left(self@.windows(), from));
        }
    }

    /// The windows of the workspace enter `to`, as clients are told.
    pub fn enter(&self, toplevel_info: &mut ToplevelInfoState, to: WorkspaceHandle)
        ensures
            final(toplevel_info)@ == old(toplevel_info)@.entered(self@.windows(), to),
    {
        self.floating_layer.enter(toplevel_info, to);
        self.tiling_layer.enter(toplevel_info, to);
        proof {
            lemma_windows_add(self@.floating_layer, self@.tiling_layer);
            assert(toplevel_info@ =~= old(toplevel_info)@.entered(self@.windows(), to));
        }
    }

    /// Whether an element with this name is mapped on the workspace.
    pub fn has_element(&self, id: ElementId) -> (r: bool)
        ensures
            r == self@.has(id),
    {
        self.element(id).is_some()
    }

    /// The element that the seat's focus went to last.
    pub fn focused(&self, seat: SeatId) -> (r: Option<ElementId>)
        ensures
            r == last_focus(self@.focus_stack, seat),
    {
        let mut i: usize = self.focus_stack.len();
        assert(self.focus_stack@.take(i as int) =~= self.focus_stack@);
        while i > 0
            invariant
                i <= self.focus_stack.len(),
                last_focus(self.focus_stack@, seat) == last_focus(
                    self.focus_stack@.take(i as int),
                    seat,
                ),
            decreases i,
        {
            assert(self.focus_stack@.take(i as int).drop_last() =~= self.focus_stack@.take(i - 1));
            let (s, e) = self.focus_stack[i - 1];
            if s == seat {
                return Some(e);
            }
            i -= 1;
        }
        None
    }

    /// The element with this name, those that float first.
    pub fn element(&self, id: ElementId) -> (r: Option<&Element>)
        ensures
            r is Some <==> self@.has(id),
            r matches Some(e) ==> e@ == self@.element(id),
    {
        proof {
            lemma_element_layer(self@, id);
        }
        match self.floating_layer.position(id) {
            Some(i) => Some(&self.floating_layer.elements[i]),
            None => match self.tiling_layer.position(id) {
                Some(i) => Some(&self.tiling_layer.elements[i]),
                None => None,
            },
        }
    }

    /// Takes an element off the layer that it is on. Returns it, and whether it floated.
    pub fn unmap(&mut self, id: ElementId) -> (r: (Element, bool))
        requires
            old(self).wf(),
            old(self)@.on_one_layer(id),
        ensures
            final(self).wf(),
            r.0@ == old(self)@.element(id),
            r.1 == old(self)@.floats(id),
            final(self)@ == old(self)@.without_element(id),
    {
        proof {
            lemma_element_layer(self@, id);
        }
        let was_floating = self.floating_layer.unmap(id);
        let was_tiling = self.tiling_layer.unmap(id);
        match was_floating {
            Some(element) => (element, true),
            None => (was_tiling.unwrap(), false),
        }
    }

    /// Puts an element on top of one of the layers.
    pub fn map(&mut self, element: Element, floating: bool)
        requires
            old(self).wf(),
        ensures
            final(self).wf(),
            final(self)@ == old(self)@.with_element(element@, floating),
    {
        if floating {
            self.floating_layer.map(element);
        } else {
            self.tiling_layer.map(element);
        }
    }

    /// The names of the elements of the workspace, those that float first.
    pub fn mapped_ids(&self) -> (r: Vec<ElementId>)
        ensures
            r@ == self@.names(),
    {
        let mut r: Vec<ElementId> = Vec::new();
        let ghost ids = self@.names();
        let n: usize = self.floating_layer.elements.len();
        let mut i: usize = 0;
        while i < n
            invariant
                i <= n,
                n == self.floating_layer.elements.len(),
                ids == self@.names(),
                r@ == ids.take(i as int),
            decreases n - i,
        {
            r.push(self.floating_layer.elements[i].id);
            assert(r@ =~= ids.take(i + 1));
            i += 1;
        }
        let k: usize = self.tiling_layer.elements.len();
        let mut i: usize = 0;
        while i < k
            invariant
                i <= k,
                k == self.tiling_layer.elements.len(),
                n == self.floating_layer.elements.len(),
                ids == self@.names(),
                r@ == ids.take(n + i),
            decreases k - i,
        {
            r.push(self.tiling_layer.elements[i].id);
            assert(r@ =~= ids.take(n + i + 1));
            i += 1;
        }
        assert(r@ =~= ids);
        r
    }

    /// The first element of the workspace that has the surface.
    pub fn element_for_surface(&self, surface: SurfaceId) -> (r: Option<&Element>)
        ensures
            match r {
                Some(e) => self@.shows_surface(surface) && e@
                    == self@.mapped()[self@.surface_index(surface)],
                None => !self@.shows_surface(surface),
            },
    {
        let ghost m = self@.mapped();
        let ghost p = |e: ElementView| e.surfaces.contains(surface);
        let n: usize = self.floating_layer.elements.len();
        let mut i: usize = 0;
        while i < n
            invariant
                i <= n,
                n == self.floating_layer.elements.len(),
                m == self@.mapped(),
                p == (|e: ElementView| e.surfaces.contains(surface)),
                forall|j: int| 0 <= j < i ==> !p(#[trigger] m[j]),
            decreases n - i,
        {
            let e = &self.floating_layer.elements[i];
            assert(m[i as int] == e@);
            if e.has_surface(surface) {
                proof {
                    lemma_first_where_is(m, p, i as int);
                }
                return Some(e);
            }
            i += 1;
        }
        let k: usize = self.tiling_layer.elements.len();
        let mut i: usize = 0;
        while i < k
            invariant
                i <= k,
                k == self.tiling_layer.elements.len(),
                n == self.floating_layer.elements.len(),
                m == self@.mapped(),
                p == (|e: ElementView| e.surfaces.contains(surface)),
                forall|j: int| 0 <= j < n + i ==> !p(#[trigger] m[j]),
            decreases k - i,
        {
            let e = &self.tiling_layer.elements[i];
            assert(m[n + i] == e@);
            if e.has_surface(surface) {
                proof {
                    lemma_first_where_is(m, p, n + i);
                }
                return Some(e);
            }
            i += 1;
        }
        proof {
            lemma_first_where_is(m, p, m.len() as int);
        }
        None
    }
}

} // verus!
