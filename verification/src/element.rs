//! What is mapped on a workspace: elements, each made of one or more windows, and the
//! layers that hold them.
use crate::geometry::Point;
use crate::protocol::{OutputId, WorkspaceHandle};
use crate::toplevel::{ToplevelInfoState, WindowId};
use vstd::prelude::*;

verus! {

/// Names an element.
pub type ElementId = u64;

/// Names a surface.
pub type SurfaceId = u64;

/// A window, as it asks to be mapped.
#[derive(Clone, Copy, PartialEq, Eq, Structural, Debug)]
pub struct Window {
    pub id: WindowId,
    pub surface: SurfaceId,
    /// Where the visible part of the window lies within its surface.
    pub geometry_loc: Point,
    /// Whether it is of a kind that is not tiled, such as a dialog.
    pub should_be_floating: bool,
}

/// A window within an element.
#[derive(Clone, Copy, PartialEq, Eq, Structural, Debug)]
pub struct ElementWindow {
    pub window: WindowId,
    /// Where the window lies within the element.
    pub offset: Point,
    /// Where the visible part of the window lies within its surface.
    pub geometry_loc: Point,
}

/// One or more windows that are placed together.
///
/// Where it lies, and which outputs show it, is what the layout of its workspace last said. A
/// change of what is on the workspace does not say it anew: the compositor lays the workspace
/// out after that, and writes it down.
#[derive(Debug)]
pub struct Element {
    pub id: ElementId,
    pub windows: Vec<ElementWindow>,
    /// The surfaces of the windows, with their popups and subsurfaces.
    pub surfaces: Vec<SurfaceId>,
    /// The outputs that show some of it, as last laid out.
    pub outputs: Vec<OutputId>,
    /// The output that shows most of it, as last laid out.
    pub main_output: Option<OutputId>,
    /// Where it lies on its workspace, as last laid out.
    pub location: Point,
}

/// The value of an [`Element`].
#[verifier::ext_equal]
pub struct ElementView {
    pub id: ElementId,
    pub windows: Seq<ElementWindow>,
    pub surfaces: Seq<SurfaceId>,
    pub outputs: Seq<OutputId>,
    pub main_output: Option<OutputId>,
    pub location: Point,
}

impl View for Element {
    type V = ElementView;

    open spec fn view(&self) -> ElementView {
        ElementView {
            id: self.id,
            windows: self.windows@,
            surfaces: self.surfaces@,
            outputs: self.outputs@,
            main_output: self.main_output,
            location: self.location,
        }
    }
}

impl ElementView {
    /// Whether one of the element's windows is `x`.
    pub open spec fn shows(self, x: WindowId) -> bool {
        exists|j: int| 0 <= j < self.windows.len() && (#[trigger] self.windows[j]).window == x
    }

    /// The element's windows.
    pub open spec fn window_set(self) -> Set<WindowId> {
        Set::new(|x: WindowId| self.shows(x))
    }

    /// The first `n` of the element's windows.
    pub open spec fn first_windows(self, n: int) -> Set<WindowId> {
        (ElementView { windows: self.windows.take(n), ..self }).window_set()
    }

    /// The element at another place.
    pub open spec fn at(self, location: Point) -> ElementView {
        ElementView { location, ..self }
    }
}

/// The element that a single window makes.
pub open spec fn element_of(window: Window) -> ElementView {
    ElementView {
        id: window.id,
        windows: seq![
            ElementWindow {
                window: window.id,
                offset: Point::zero(),
                geometry_loc: window.geometry_loc,
            },
        ],
        surfaces: seq![window.surface],
        outputs: Seq::empty(),
        main_output: None,
        location: Point::zero(),
    }
}

/// The windows of a sequence of elements.
pub open spec fn windows_in(s: Seq<ElementView>) -> Set<WindowId> {
    Set::new(|x: WindowId| exists|i: int| 0 <= i < s.len() && (#[trigger] s[i]).shows(x))
}

/// Whether an element with this name is among `s`.
pub open spec fn has_element(s: Seq<ElementView>, id: ElementId) -> bool {
    exists|i: int| 0 <= i < s.len() && (#[trigger] s[i]).id == id
}

/// The position of the first element with this name, or the number of elements.
pub open spec fn element_index(s: Seq<ElementView>, id: ElementId) -> int
    decreases s.len(),
{
    if s.len() == 0 || s[0].id == id {
        0
    } else {
        1 + element_index(s.drop_first(), id)
    }
}

/// `element_index` finds the first element with a name.
pub proof fn lemma_element_index(s: Seq<ElementView>, id: ElementId)
    ensures
        0 <= element_index(s, id) <= s.len(),
        has_element(s, id) <==> element_index(s, id) < s.len(),
        element_index(s, id) < s.len() ==> s[element_index(s, id)].id == id,
        forall|i: int| 0 <= i < element_index(s, id) ==> (#[trigger] s[i]).id != id,
    decreases s.len(),
{
    if s.len() > 0 && s[0].id != id {
        let t = s.drop_first();
        lemma_element_index(t, id);
        assert forall|i: int| 0 <= i < element_index(s, id) implies (#[trigger] s[i]).id != id by {
            if i > 0 {
                assert(t[i - 1].id != id);
            }
        }
        if has_element(s, id) {
            let i = choose|i: int| 0 <= i < s.len() && (#[trigger] s[i]).id == id;
            assert(t[i - 1].id == id);
        }
    }
}

/// One more element adds its windows.
pub proof fn lemma_windows_push(s: Seq<ElementView>, e: ElementView)
    ensures
        windows_in(s.push(e)) == windows_in(s).union(e.window_set()),
{
    let t = s.push(e);
    assert forall|x: WindowId| windows_in(t).contains(x) == windows_in(s).union(
        e.window_set(),
    ).contains(x) by {
        if windows_in(s).contains(x) {
            let i = choose|i: int| 0 <= i < s.len() && (#[trigger] s[i]).shows(x);
            assert(t[i].shows(x));
        }
        if e.shows(x) {
            assert(t[s.len() as int].shows(x));
        }
        if windows_in(t).contains(x) {
            let i = choose|i: int| 0 <= i < t.len() && (#[trigger] t[i]).shows(x);
            if i < s.len() {
                assert(s[i].shows(x));
            }
        }
    }
    assert(windows_in(t) =~= windows_in(s).union(e.window_set()));
}

/// More elements add their windows.
pub proof fn lemma_windows_add(a: Seq<ElementView>, b: Seq<ElementView>)
    ensures
        windows_in(a + b) == windows_in(a).union(windows_in(b)),
    decreases b.len(),
{
    if b.len() == 0 {
        assert(a + b =~= a);
        assert(windows_in(b) =~= Set::<WindowId>::empty());
        assert(windows_in(a).union(windows_in(b)) =~= windows_in(a));
    } else {
        lemma_windows_add(a, b.drop_last());
        lemma_windows_push(a + b.drop_last(), b.last());
        lemma_windows_push(b.drop_last(), b.last());
        assert((a + b.drop_last()).push(b.last()) =~= a + b);
        assert(b.drop_last().push(b.last()) =~= b);
        assert(windows_in(a + b) =~= windows_in(a).union(windows_in(b)));
    }
}

/// Copies a vector of plain values.
pub fn copy_vec<T: Copy>(v: &Vec<T>) -> (r: Vec<T>)
    ensures
        r@ == v@,
{
    let mut r: Vec<T> = Vec::new();
    let mut i: usize = 0;
    while i < v.len()
        invariant
            i <= v.len(),
            r@ == v@.take(i as int),
        decreases v.len() - i,
    {
        r.push(v[i]);
        i += 1;
        assert(r@ =~= v@.take(i as int));
    }
    assert(v@.take(i as int) =~= v@);
    r
}

/// Whether a name is among some.
pub fn contains_id(v: &Vec<u64>, x: u64) -> (r: bool)
    ensures
        r == v@.contains(x),
{
    let mut i: usize = 0;
    while i < v.len()
        invariant
            i <= v.len(),
            forall|j: int| 0 <= j < i ==> v@[j] != x,
        decreases v.len() - i,
    {
        if v[i] == x {
            assert(v@[i as int] == x);
            return true;
        }
        i += 1;
    }
    false
}

impl Element {
    /// An element of a single window, which nothing has laid out yet. It goes by the name
    /// of the window.
    pub fn from_window(window: Window) -> (e: Element)
        ensures
            e@ == element_of(window),
    {
        let mut windows: Vec<ElementWindow> = Vec::new();
        windows.push(
            ElementWindow {
                window: window.id,
                offset: Point::origin(),
                geometry_loc: window.geometry_loc,
            },
        );
        let mut surfaces: Vec<SurfaceId> = Vec::new();
        surfaces.push(window.surface);
        let e = Element {
            id: window.id,
            windows,
            surfaces,
            outputs: Vec::new(),
            main_output: None,
            location: Point::origin(),
        };
        assert(e@ =~= element_of(window));
        e
    }

    /// Another reference to the same element.
    pub fn duplicate(&self) -> (e: Element)
        ensures
            e@ == self@,
    {
        Element {
            id: self.id,
            windows: copy_vec(&self.windows),
            surfaces: copy_vec(&self.surfaces),
            outputs: copy_vec(&self.outputs),
            main_output: self.main_output,
            location: self.location,
        }
    }

    /// Whether the surface is one of the element's.
    pub fn has_surface(&self, surface: SurfaceId) -> (r: bool)
        ensures
            r == self@.surfaces.contains(surface),
    {
        contains_id(&self.surfaces, surface)
    }

    /// The windows of the element leave a workspace, as clients are told.
    pub fn leave(&self, toplevel_info: &mut ToplevelInfoState, from: WorkspaceHandle)
        ensures
            final(toplevel_info)@ == old(toplevel_info)@.left(self@.window_set(), from),
    {
        let ghost before = toplevel_info@;
        let ghost e = self@;
        let mut j: usize = 0;
        assert(toplevel_info@ =~= before.left(e.first_windows(0), from));
        while j < self.windows.len()
            invariant
                j <= self.windows.len(),
                self@ == e,
                toplevel_info@ == before.left(e.first_windows(j as int), from),
            decreases self.windows.len() - j,
        {
            let w: WindowId = self.windows[j].window;
            toplevel_info.toplevel_leave_workspace(w, from);
            proof {
                lemma_one_more_window(e, j as int);
                assert(toplevel_info@ =~= before.left(e.first_windows(j + 1), from));
            }
            j += 1;
        }
        assert(e.windows.take(j as int) =~= e.windows);
    }

    /// The windows of the element enter a workspace, as clients are told.
    pub fn enter(&self, toplevel_info: &mut ToplevelInfoState, to: WorkspaceHandle)
        ensures
            final(toplevel_info)@ == old(toplevel_info)@.entered(self@.window_set(), to),
    {
        let ghost before = toplevel_info@;
        let ghost e = self@;
        let mut j: usize = 0;
        assert(toplevel_info@ =~= before.entered(e.first_windows(0), to));
        while j < self.windows.len()
            invariant
                j <= self.windows.len(),
                self@ == e,
                toplevel_info@ == before.entered(e.first_windows(j as int), to),
            decreases self.windows.len() - j,
        {
            let w: WindowId = self.windows[j].window;
            toplevel_info.toplevel_enter_workspace(w, to);
            proof {
                lemma_one_more_window(e, j as int);
                assert(toplevel_info@ =~= before.entered(e.first_windows(j + 1), to));
            }
            j += 1;
        }
        assert(e.windows.take(j as int) =~= e.windows);
    }
}

/// The elements of a workspace that are placed by the same rules.
#[derive(Debug)]
pub struct Layer {
    pub elements: Vec<Element>,
}

impl View for Layer {
    type V = Seq<ElementView>;

    open spec fn view(&self) -> Seq<ElementView> {
        self.elements@.map_values(|e: Element| e@)
    }
}

impl Layer {
    /// A layer without elements.
    pub fn new() -> (l: Layer)
        ensures
            l@ == Seq::<ElementView>::empty(),
    {
        let l = Layer { elements: Vec::new() };
        assert(l@ =~= Seq::<ElementView>::empty());
        l
    }

    /// The position of the first element with this name.
    pub fn position(&self, id: ElementId) -> (r: Option<usize>)
        ensures
            r is Some <==> has_element(self@, id),
            r matches Some(i) ==> i < self@.len() && i == element_index(self@, id) && self@[i as int].id == id,
    {
        let mut i: usize = 0;
        while i < self.elements.len()
            invariant
                i <= self.elements.len(),
                forall|j: int| 0 <= j < i ==> (#[trigger] self@[j]).id != id,
            decreases self.elements.len() - i,
        {
            if self.elements[i].id == id {
                proof {
                    lemma_element_index(self@, id);
                    assert(self@[i as int].id == id);
                }
                return Some(i);
            }
            i += 1;
        }
        None
    }

    /// Puts an element on top of the others.
    pub fn map(&mut self, element: Element)
        ensures
            final(self)@ == old(self)@.push(element@),
    {
        self.elements.push(element);
        assert(self@ =~= old(self)@.push(element@));
    }

    /// Takes an element off the layer. Returns it, if it was there.
    pub fn unmap(&mut self, id: ElementId) -> (r: Option<Element>)
        ensures
            r is Some <==> has_element(old(self)@, id),
            r matches Some(e) ==> e@ == old(self)@[element_index(old(self)@, id)] && final(self)@
                == old(self)@.remove(element_index(old(self)@, id)),
            r is None ==> final(self)@ == old(self)@,
    {
        match self.position(id) {
            Some(i) => {
                let e = self.elements.remove(i);
                assert(self@ =~= old(self)@.remove(i as int));
                Some(e)
            },
            None => None,
        }
    }

    /// Puts the elements of another layer on top of these.
    pub fn merge(&mut self, other: Layer)
        ensures
            final(self)@ == old(self)@ + other@,
    {
        let mut other = other;
        let ghost added = other@;
        self.elements.append(&mut other.elements);
        assert(self@ =~= old(self)@ + added);
    }

    /// Another layer with the same elements.
    pub fn duplicate(&self) -> (l: Layer)
        ensures
            l@ == self@,
    {
        let mut elements: Vec<Element> = Vec::new();
        let mut i: usize = 0;
        while i < self.elements.len()
            invariant
                i <= self.elements.len(),
                elements.len() == i,
                forall|j: int| 0 <= j < i ==> (#[trigger] elements@[j])@ == self@[j],
            decreases self.elements.len() - i,
        {
            let e = self.elements[i].duplicate();
            elements.push(e);
            i += 1;
        }
        let l = Layer { elements };
        assert(l@ =~= self@);
        l
    }

    /// Whether any element of the layer has a window.
    pub fn has_windows(&self) -> (r: bool)
        ensures
            r == !windows_in(self@).is_empty(),
            r == exists|x: WindowId| windows_in(self@).contains(x),
    {
        let mut i: usize = 0;
        while i < self.elements.len()
            invariant
                i <= self.elements.len(),
                forall|j: int| 0 <= j < i ==> (#[trigger] self@[j]).windows.len() == 0,
            decreases self.elements.len() - i,
        {
            if self.elements[i].windows.len() > 0 {
                proof {
                    let e = self@[i as int];
                    let x = e.windows[0].window;
                    assert(e.shows(x));
                    assert(windows_in(self@).contains(x));
                }
                return true;
            }
            assert(self@[i as int].windows.len() == 0);
            i += 1;
        }
        assert(windows_in(self@) =~= Set::<WindowId>::empty());
        false
    }

    /// The windows of the layer's elements leave a workspace, as clients are told.
    pub fn leave(&self, toplevel_info: &mut ToplevelInfoState, from: WorkspaceHandle)
        ensures
            final(toplevel_info)@ == old(toplevel_info)@.left(windows_in(self@), from),
    {
        let ghost before = toplevel_info@;
        let mut i: usize = 0;
        assert(toplevel_info@ =~= before.left(windows_in(self@.take(0)), from));
        while i < self.elements.len()
            invariant
                i <= self.elements.len(),
                toplevel_info@ == before.left(windows_in(self@.take(i as int)), from),
            decreases self.elements.len() - i,
        {
            let ghost done = windows_in(self@.take(i as int));
            let ghost e = self@[i as int];
            self.elements[i].leave(toplevel_info, from);
            proof {
                lemma_windows_push(self@.take(i as int), e);
                assert(self@.take(i as int).push(e) =~= self@.take(i + 1));
                assert(toplevel_info@ =~= before.left(done.union(e.window_set()), from));
            }
            i += 1;
        }
        assert(self@.take(i as int) =~= self@);
    }

    /// The windows of the layer's elements enter a workspace, as clients are told.
    pub fn enter(&self, toplevel_info: &mut ToplevelInfoState, to: WorkspaceHandle)
        ensures
            final(toplevel_info)@ == old(toplevel_info)@.entered(windows_in(self@), to),
    {
        let ghost before = toplevel_info@;
        let mut i: usize = 0;
        assert(toplevel_info@ =~= before.entered(windows_in(self@.take(0)), to));
        while i < self.elements.len()
            invariant
                i <= self.elements.len(),
                toplevel_info@ == before.entered(windows_in(self@.take(i as int)), to),
            decreases self.elements.len() - i,
        {
            let ghost done = windows_in(self@.take(i as int));
            let ghost e = self@[i as int];
            self.elements[i].enter(toplevel_info, to);
            proof {
                lemma_windows_push(self@.take(i as int), e);
                assert(self@.take(i as int).push(e) =~= self@.take(i + 1));
                assert(toplevel_info@ =~= before.entered(done.union(e.window_set()), to));
            }
            i += 1;
        }
        assert(self@.take(i as int) =~= self@);
    }
}

proof fn lemma_one_more_window(e: ElementView, j: int)
    requires
        0 <= j < e.windows.len(),
    ensures
        e.first_windows(j + 1) == e.first_windows(j).insert(e.windows[j].window),
{
    let a = ElementView { windows: e.windows.take(j + 1), ..e };
    let b = ElementView { windows: e.windows.take(j), ..e };
    assert forall|x: WindowId| a.window_set().contains(x) == b.window_set().insert(
        e.windows[j].window,
    ).contains(x) by {
        if b.shows(x) {
            let k = choose|k: int| 0 <= k < b.windows.len() && (#[trigger] b.windows[k]).window == x;
            assert(a.windows[k].window == x);
        }
        assert(a.windows[j] == e.windows[j]);
        if a.shows(x) {
            let k = choose|k: int| 0 <= k < a.windows.len() && (#[trigger] a.windows[k]).window == x;
            if k < j {
                assert(b.windows[k].window == x);
            }
        }
    }
    assert(a.window_set() =~= b.window_set().insert(e.windows[j].window));
}

} // verus!
