//! What clients are told about workspaces: the groups, the workspaces in them and
//! what is announced of each.
use crate::table::Table;
use vstd::prelude::*;

verus! {

/// Names an output.
pub type OutputId = u64;

/// Names a group of workspaces.
pub type WorkspaceGroupHandle = u64;

/// Names a workspace.
pub type WorkspaceHandle = u64;

/// The states that a workspace can be announced in.
#[derive(Clone, Copy, PartialEq, Eq, Structural, Debug)]
pub enum WState {
    Active,
    Hidden,
}

/// Where a workspace is placed within its group, along up to three axes.
pub type Coordinates = (Option<u32>, Option<u32>, Option<u32>);

/// What is announced of one workspace.
#[derive(Debug)]
pub struct WorkspaceEntry {
    pub group: WorkspaceGroupHandle,
    pub name: String,
    pub coordinates: Coordinates,
    pub can_activate: bool,
    pub active: bool,
    pub hidden: bool,
}

/// The value of a [`WorkspaceEntry`].
#[verifier::ext_equal]
pub struct EntryView {
    pub group: WorkspaceGroupHandle,
    pub name: Seq<char>,
    pub coordinates: Coordinates,
    pub can_activate: bool,
    pub active: bool,
    pub hidden: bool,
}

impl View for WorkspaceEntry {
    type V = EntryView;

    open spec fn view(&self) -> EntryView {
        EntryView {
            group: self.group,
            name: self.name@,
            coordinates: self.coordinates,
            can_activate: self.can_activate,
            active: self.active,
            hidden: self.hidden,
        }
    }
}

/// Everything that is announced of groups and workspaces.
#[derive(Debug)]
pub struct WorkspaceState {
    /// The outputs of each group.
    pub groups: Table<Vec<OutputId>>,
    pub workspaces: Table<WorkspaceEntry>,
    /// The next handle to give out. Handles are not used again.
    pub next: u64,
}

/// The value of a [`WorkspaceState`].
#[verifier::ext_equal]
pub struct StateView {
    pub groups: Map<WorkspaceGroupHandle, Set<OutputId>>,
    pub workspaces: Map<WorkspaceHandle, EntryView>,
    pub next: int,
}

impl View for WorkspaceState {
    type V = StateView;

    open spec fn view(&self) -> StateView {
        StateView {
            groups: self.groups.map().map_values(|outputs: Vec<OutputId>| outputs@.to_set()),
            workspaces: self.workspaces.map().map_values(|entry: WorkspaceEntry| entry@),
            next: self.next as int,
        }
    }
}

/// The decimal digits of `n`.
pub open spec fn decimal(n: nat) -> Seq<char>
    decreases n,
{
    if n < 10 {
        seq![(('0' as u32) + n) as char]
    } else {
        decimal(n / 10).push((('0' as u32) + n % 10) as char)
    }
}

/// What is known of a workspace that was just created in `group`.
pub open spec fn blank_entry(group: WorkspaceGroupHandle) -> EntryView {
    EntryView {
        group,
        name: Seq::empty(),
        coordinates: (None, None, None),
        can_activate: false,
        active: false,
        hidden: false,
    }
}

impl EntryView {
    /// The entry with the name, the place, the capability and the state that every
    /// workspace starts with at place `idx`.
    pub open spec fn initialised(self, idx: u8) -> EntryView {
        EntryView {
            name: decimal((idx + 1) as nat),
            coordinates: (Some(idx as u32), None, None),
            can_activate: true,
            hidden: true,
            ..self
        }
    }

    /// The entry with one of its states set or cleared.
    pub open spec fn with_state(self, state: WState, on: bool) -> EntryView {
        match state {
            WState::Active => EntryView { active: on, ..self },
            WState::Hidden => EntryView { hidden: on, ..self },
        }
    }
}

impl StateView {
    /// Handles that were given out are below the next one.
    pub open spec fn wf(self) -> bool {
        &&& 0 <= self.next
        &&& forall|g: u64| #[trigger] self.groups.dom().contains(g) ==> g < self.next
        &&& forall|h: u64| #[trigger] self.workspaces.dom().contains(h) ==> h < self.next
    }

    /// The state with another entry at `h`, where `h` is known at all.
    pub open spec fn replaced(self, h: WorkspaceHandle, entry: EntryView) -> StateView {
        if self.workspaces.dom().contains(h) {
            StateView { workspaces: self.workspaces.insert(h, entry), ..self }
        } else {
            self
        }
    }

    /// The state in which workspace `h` is, or is not, announced in state `state`.
    pub open spec fn with_state(self, h: WorkspaceHandle, state: WState, on: bool) -> StateView {
        self.replaced(h, self.workspaces[h].with_state(state, on))
    }

    /// The state with one more group, without outputs, under the next handle.
    pub open spec fn with_new_group(self) -> StateView {
        StateView {
            groups: self.groups.insert(self.next as u64, Set::empty()),
            next: self.next + 1,
            ..self
        }
    }

    /// The state with one more workspace, under the next handle.
    pub open spec fn with_new_workspace(self, entry: EntryView) -> StateView {
        StateView {
            workspaces: self.workspaces.insert(self.next as u64, entry),
            next: self.next + 1,
            ..self
        }
    }

    /// The state without the workspaces in `gone`.
    pub open spec fn without_workspaces(self, gone: Set<WorkspaceHandle>) -> StateView {
        StateView { workspaces: self.workspaces.remove_keys(gone), ..self }
    }

    /// The state without the groups in `gone`.
    pub open spec fn without_groups(self, gone: Set<WorkspaceGroupHandle>) -> StateView {
        StateView { groups: self.groups.remove_keys(gone), ..self }
    }

    /// The state in which `output` belongs to group `g`, where `g` is known at all.
    pub open spec fn with_group_output(self, g: WorkspaceGroupHandle, output: OutputId) -> StateView {
        if self.groups.dom().contains(g) {
            StateView { groups: self.groups.insert(g, self.groups[g].insert(output)), ..self }
        } else {
            self
        }
    }

    /// The state in which `output` does not belong to group `g`.
    pub open spec fn without_group_output(
        self,
        g: WorkspaceGroupHandle,
        output: OutputId,
    ) -> StateView {
        if self.groups.dom().contains(g) {
            StateView { groups: self.groups.insert(g, self.groups[g].remove(output)), ..self }
        } else {
            self
        }
    }
}

fn digit(d: u16) -> (s: &'static str)
    requires
        d < 10,
    ensures
        s@ == seq![(('0' as u32) + d) as char],
{
    proof {
        reveal_strlit("0");
        reveal_strlit("1");
        reveal_strlit("2");
        reveal_strlit("3");
        reveal_strlit("4");
        reveal_strlit("5");
        reveal_strlit("6");
        reveal_strlit("7");
        reveal_strlit("8");
        reveal_strlit("9");
    }
    let s = match d {
        0 => "0",
        1 => "1",
        2 => "2",
        3 => "3",
        4 => "4",
        5 => "5",
        6 => "6",
        7 => "7",
        8 => "8",
        _ => "9",
    };
    assert(s@ =~= seq![(('0' as u32) + d) as char]);
    s
}

/// Writes a number in decimal.
pub fn number_text(n: u16) -> (s: String)
    ensures
        s@ == decimal(n as nat),
    decreases n,
{
    if n < 10 {
        let d = digit(n);
        d.to_owned()
    } else {
        let mut s = number_text(n / 10);
        s.append(digit(n % 10));
        assert(s@ =~= decimal(n as nat));
        s
    }
}

impl WorkspaceState {
    /// Handles are unique, and those that were given out are not given out again.
    pub open spec fn wf(self) -> bool {
        &&& self.groups.wf()
        &&& self.workspaces.wf()
        &&& self@.wf()
    }

    /// A state without groups and without workspaces.
    pub fn new() -> (s: WorkspaceState)
        ensures
            s.wf(),
            s@ == (StateView { groups: Map::empty(), workspaces: Map::empty(), next: 0 }),
    {
        let s = WorkspaceState { groups: Table::new(), workspaces: Table::new(), next: 0 };
        assert(s@ =~= StateView { groups: Map::empty(), workspaces: Map::empty(), next: 0 });
        s
    }

    /// Announces a new group without outputs.
    pub fn create_workspace_group(&mut self) -> (g: WorkspaceGroupHandle)
        requires
            old(self).wf(),
            old(self)@.next < u64::MAX,
        ensures
            final(self).wf(),
            g == old(self)@.next,
            final(self)@ == old(self)@.with_new_group(),
    {
        let g: u64 = self.next;
        let outputs: Vec<OutputId> = Vec::new();
        self.groups.insert(g, outputs);
        self.next = g + 1;
        proof {
            assert(outputs@.to_set() =~= Set::<OutputId>::empty());
            assert(self@ =~= old(self)@.with_new_group());
        }
        g
    }

    /// Announces a new workspace in a group. Without that group there is none.
    pub fn create_workspace(&mut self, group: WorkspaceGroupHandle) -> (r: Option<WorkspaceHandle>)
        requires
            old(self).wf(),
            old(self)@.next < u64::MAX,
        ensures
            final(self).wf(),
            r is Some <==> old(self)@.groups.dom().contains(group),
            r matches Some(h) ==> h == old(self)@.next && final(self)@
                == old(self)@.with_new_workspace(blank_entry(group)),
            r is None ==> final(self)@ == old(self)@,
    {
        if !self.groups.contains_key(group) {
            return None;
        }
        let h: u64 = self.next;
        let entry = WorkspaceEntry {
            group,
            name: String::new(),
            coordinates: (None, None, None),
            can_activate: false,
            active: false,
            hidden: false,
        };
        self.workspaces.insert(h, entry);
        self.next = h + 1;
        proof {
            assert(entry@ =~= blank_entry(group));
            assert(self@ =~= old(self)@.with_new_workspace(blank_entry(group)));
        }
        Some(h)
    }

    fn set_state(&mut self, handle: WorkspaceHandle, state: WState, on: bool)
        requires
            old(self).wf(),
        ensures
            final(self).wf(),
            final(self)@ == old(self)@.with_state(handle, state, on),
    {
        match self.workspaces.get_mut(handle) {
            Some(entry) => match state {
                WState::Active => {
                    entry.active = on;
                },
                WState::Hidden => {
                    entry.hidden = on;
                },
            },
            None => {},
        }
        assert(self@ =~= old(self)@.with_state(handle, state, on));
    }

    /// Announces a workspace in a state. One that is not known stays so.
    pub fn add_workspace_state(&mut self, handle: WorkspaceHandle, state: WState)
        requires
            old(self).wf(),
        ensures
            final(self).wf(),
            final(self)@ == old(self)@.with_state(handle, state, true),
    {
        self.set_state(handle, state, true);
    }

    /// Announces a workspace in a state no longer.
    pub fn remove_workspace_state(&mut self, handle: WorkspaceHandle, state: WState)
        requires
            old(self).wf(),
        ensures
            final(self).wf(),
            final(self)@ == old(self)@.with_state(handle, state, false),
    {
        self.set_state(handle, state, false);
    }

    /// Lets clients ask for the workspace to become active, or not.
    pub fn set_workspace_capabilities(&mut self, handle: WorkspaceHandle, activate: bool)
        requires
            old(self).wf(),
        ensures
            final(self).wf(),
            final(self)@ == old(self)@.replaced(
                handle,
                EntryView { can_activate: activate, ..old(self)@.workspaces[handle] },
            ),
    {
        match self.workspaces.get_mut(handle) {
            Some(entry) => {
                entry.can_activate = activate;
            },
            None => {},
        }
        assert(self@ =~= old(self)@.replaced(
            handle,
            EntryView { can_activate: activate, ..old(self)@.workspaces[handle] },
        ));
    }

    /// Names a workspace.
    pub fn set_workspace_name(&mut self, handle: WorkspaceHandle, name: String)
        requires
            old(self).wf(),
        ensures
            final(self).wf(),
            final(self)@ == old(self)@.replaced(
                handle,
                EntryView { name: name@, ..old(self)@.workspaces[handle] },
            ),
    {
        match self.workspaces.get_mut(handle) {
            Some(entry) => {
                entry.name = name;
            },
            None => {},
        }
        assert(self@ =~= old(self)@.replaced(
            handle,
            EntryView { name: name@, ..old(self)@.workspaces[handle] },
        ));
    }

    /// Places a workspace within its group.
    pub fn set_workspace_coordinates(&mut self, handle: WorkspaceHandle, coordinates: Coordinates)
        requires
            old(self).wf(),
        ensures
            final(self).wf(),
            final(self)@ == old(self)@.replaced(
                handle,
                EntryView { coordinates, ..old(self)@.workspaces[handle] },
            ),
    {
        match self.workspaces.get_mut(handle) {
            Some(entry) => {
                entry.coordinates = coordinates;
            },
            None => {},
        }
        assert(self@ =~= old(self)@.replaced(
            handle,
            EntryView { coordinates, ..old(self)@.workspaces[handle] },
        ));
    }

    /// Withdraws a workspace.
    pub fn remove_workspace(&mut self, handle: WorkspaceHandle)
        requires
            old(self).wf(),
        ensures
            final(self).wf(),
            final(self)@ == old(self)@.without_workspaces(set![handle]),
    {
        self.workspaces.remove(handle);
        assert(self@ =~= old(self)@.without_workspaces(set![handle]));
    }

    /// Withdraws a group.
    pub fn remove_workspace_group(&mut self, group: WorkspaceGroupHandle)
        requires
            old(self).wf(),
        ensures
            final(self).wf(),
            final(self)@ == old(self)@.without_groups(set![group]),
    {
        self.groups.remove(group);
        assert(self@ =~= old(self)@.without_groups(set![group]));
    }

    /// Adds an output to those of a group.
    pub fn add_group_output(&mut self, group: WorkspaceGroupHandle, output: OutputId)
        requires
            old(self).wf(),
        ensures
            final(self).wf(),
            final(self)@ == old(self)@.with_group_output(group, output),
    {
        match self.groups.get_mut(group) {
            Some(outputs) => {
                let ghost before = outputs@;
                outputs.push(output);
                assert(outputs@.to_set() =~= before.to_set().insert(output)) by {
                    lemma_push_to_set(before, output);
                }
            },
            None => {},
        }
        assert(self@ =~= old(self)@.with_group_output(group, output));
    }

    /// Takes an output out of those of a group.
    pub fn remove_group_output(&mut self, group: WorkspaceGroupHandle, output: OutputId)
        requires
            old(self).wf(),
        ensures
            final(self).wf(),
            final(self)@ == old(self)@.without_group_output(group, output),
    {
        match self.groups.get_mut(group) {
            Some(outputs) => {
                retain_others(outputs, output);
            },
            None => {},
        }
        assert(self@ =~= old(self)@.without_group_output(group, output));
    }
}

proof fn lemma_push_to_set(s: Seq<u64>, x: u64)
    ensures
        s.push(x).to_set() =~= s.to_set().insert(x),
{
    assert forall|y: u64| s.push(x).to_set().contains(y) == s.to_set().insert(x).contains(y) by {
        if s.contains(y) {
            let i = choose|i: int| 0 <= i < s.len() && s[i] == y;
            assert(s.push(x)[i] == y);
        }
        assert(s.push(x)[s.len() as int] == x);
    }
}

/// Drops every occurrence of `x` and keeps the rest in order.
fn retain_others(v: &mut Vec<u64>, x: u64)
    ensures
        final(v)@ == old(v)@.filter(|y: u64| y != x),
        final(v)@.to_set() == old(v)@.to_set().remove(x),
{
    let ghost p = |y: u64| y != x;
    let mut kept: Vec<u64> = Vec::new();
    let mut i: usize = 0;
    while i < v.len()
        invariant
            i <= v.len(),
            p == (|y: u64| y != x),
            kept@ == v@.take(i as int).filter(p),
            v@ == old(v)@,
        decreases v.len() - i,
    {
        reveal(Seq::filter);
        assert(v@.take(i + 1).drop_last() =~= v@.take(i as int));
        if v[i] != x {
            kept.push(v[i]);
        }
        i += 1;
    }
    assert(v@.take(i as int) =~= v@);
    *v = kept;
    proof {
        let s = old(v)@;
        assert forall|y: u64| s.filter(p).to_set().contains(y) == s.to_set().remove(x).contains(y) by {
            if s.filter(p).contains(y) {
                s.lemma_filter_contains_rev(p, y);
                let j = choose|j: int| 0 <= j < s.filter(p).len() && s.filter(p)[j] == y;
                s.lemma_filter_pred(p, j);
            }
            if s.contains(y) && y != x {
                let j = choose|j: int| 0 <= j < s.len() && s[j] == y;
                s.lemma_filter_contains(p, j);
            }
        }
        assert(s.filter(p).to_set() =~= s.to_set().remove(x));
    }
}

} // verus!
