//! The workspaces of the shell: one set for each output, or one set for all of them.
use crate::config::WorkspaceMode as ConfigMode;
use crate::output::Output;
use crate::protocol::{OutputId, WorkspaceState};
use crate::set::{new_workspaces, workspaces_view, SetView, WorkspaceAmount, WorkspaceSet};
use crate::table::{has_key, keys_distinct, lemma_slot, slot, Table};
use crate::workspace::{Workspace, WorkspaceView};
use vstd::prelude::*;

verus! {

/// The workspaces of the shell.
#[derive(Debug)]
pub enum WorkspaceMode {
    /// Each output has a set of its own. The sets are in the order in which they were added.
    OutputBound(Table<WorkspaceSet>),
    /// All outputs share a set.
    Global(WorkspaceSet),
}

/// The value of a [`WorkspaceMode`].
#[verifier::ext_equal]
pub enum ModeView {
    OutputBound(Seq<(OutputId, SetView)>),
    Global(SetView),
}

/// The values of some sets.
pub open spec fn sets_view(s: Seq<(u64, WorkspaceSet)>) -> Seq<(OutputId, SetView)> {
    s.map_values(|e: (u64, WorkspaceSet)| (e.0, e.1@))
}

impl View for WorkspaceMode {
    type V = ModeView;

    open spec fn view(&self) -> ModeView {
        match self {
            WorkspaceMode::OutputBound(sets) => ModeView::OutputBound(sets_view(sets.seq())),
            WorkspaceMode::Global(set) => ModeView::Global(set@),
        }
    }
}

/// The workspaces of all sets, set after set.
pub open spec fn all_spaces(sets: Seq<(OutputId, SetView)>) -> Seq<WorkspaceView>
    decreases sets.len(),
{
    if sets.len() == 0 {
        Seq::empty()
    } else {
        all_spaces(sets.drop_last()) + sets.last().1.workspaces
    }
}

/// The set, and the position in it, of the workspace at position `i` of all of them.
pub open spec fn locate(sets: Seq<(OutputId, SetView)>, i: int) -> (int, int)
    decreases sets.len(),
{
    if sets.len() == 0 {
        (0, i)
    } else {
        let n = all_spaces(sets.drop_last()).len();
        if i >= n {
            (sets.len() - 1, i - n)
        } else {
            locate(sets.drop_last(), i)
        }
    }
}

impl ModeView {
    /// The set that an output shows.
    pub open spec fn set_for(self, output: OutputId) -> Option<SetView> {
        match self {
            ModeView::Global(set) => Some(set),
            ModeView::OutputBound(sets) => if has_key(sets, output) {
                Some(sets[slot(sets, output)].1)
            } else {
                None
            },
        }
    }

    /// The same sets, but for the one that an output shows.
    pub open spec fn with_set(self, output: OutputId, set: SetView) -> ModeView {
        match self {
            ModeView::Global(_) => ModeView::Global(set),
            ModeView::OutputBound(sets) => ModeView::OutputBound(
                sets.update(slot(sets, output), (output, set)),
            ),
        }
    }

    /// The workspace at position `num` of the set that an output shows.
    pub open spec fn space(self, num: int, output: OutputId) -> Option<WorkspaceView> {
        match self.set_for(output) {
            Some(set) => if 0 <= num < set.workspaces.len() {
                Some(set.workspaces[num])
            } else {
                None
            },
            None => None,
        }
    }

    /// The same workspaces, but for the one at position `num` of the set that an output
    /// shows.
    pub open spec fn with_space(self, num: int, output: OutputId, w: WorkspaceView) -> ModeView {
        let set = self.set_for(output)->0;
        self.with_set(output, SetView { workspaces: set.workspaces.update(num, w), ..set })
    }

    /// Whether an output shows a set with an active workspace.
    pub open spec fn has_active(self, output: OutputId) -> bool {
        self.set_for(output) matches Some(set) && 0 <= set.active < set.workspaces.len()
    }

    /// The position of the active workspace of an output.
    pub open spec fn active_index(self, output: OutputId) -> int {
        (self.set_for(output)->0).active
    }

    /// The active workspace of an output.
    pub open spec fn active_space(self, output: OutputId) -> WorkspaceView {
        (self.set_for(output)->0).workspaces[self.active_index(output)]
    }

    /// The same workspaces, but for the one at position `i` of all of them.
    pub open spec fn with_nth(self, i: int, w: WorkspaceView) -> ModeView {
        match self {
            ModeView::Global(set) => ModeView::Global(
                SetView { workspaces: set.workspaces.update(i, w), ..set },
            ),
            ModeView::OutputBound(sets) => {
                let (s, k) = locate(sets, i);
                let set = sets[s].1;
                ModeView::OutputBound(
                    sets.update(
                        s,
                        (sets[s].0, SetView { workspaces: set.workspaces.update(k, w), ..set }),
                    ),
                )
            },
        }
    }

    /// All workspaces.
    pub open spec fn spaces(self) -> Seq<WorkspaceView> {
        match self {
            ModeView::Global(set) => set.workspaces,
            ModeView::OutputBound(sets) => all_spaces(sets),
        }
    }

    /// The workspaces of the set that an output shows.
    pub open spec fn spaces_for(self, output: OutputId) -> Seq<WorkspaceView> {
        match self.set_for(output) {
            Some(set) => set.workspaces,
            None => Seq::empty(),
        }
    }
}

/// A set is found under the same key by its value as by itself.
pub proof fn lemma_sets_view(s: Seq<(u64, WorkspaceSet)>, k: OutputId)
    ensures
        has_key(sets_view(s), k) == has_key(s, k),
        slot(sets_view(s), k) == slot(s, k),
        keys_distinct(sets_view(s)) == keys_distinct(s),
{
    let v = sets_view(s);
    lemma_slot(s, k);
    lemma_slot(v, k);
    assert(forall|i: int| 0 <= i < s.len() ==> (#[trigger] v[i]).0 == s[i].0);
    if slot(v, k) < slot(s, k) {
        assert(s[slot(v, k)].0 != k);
    }
    if slot(s, k) < slot(v, k) {
        assert(v[slot(s, k)].0 != k);
    }
    if keys_distinct(v) {
        assert forall|i: int, j: int| 0 <= i < j < s.len() implies (#[trigger] s[i]).0 != (#[trigger] s[j]).0 by {
            assert(v[i].0 != v[j].0);
        }
    }
}

/// To change a workspace is to change its value.
proof fn lemma_workspaces_update(s: Seq<Workspace>, i: int)
    requires
        0 <= i < s.len(),
    ensures
        workspaces_view(s).len() == s.len(),
        workspaces_view(s)[i] == s[i]@,
        forall|w: Workspace|
            workspaces_view(#[trigger] s.update(i, w)) == workspaces_view(s).update(i, w@),
{
    assert forall|w: Workspace| workspaces_view(#[trigger] s.update(i, w)) == workspaces_view(
        s,
    ).update(i, w@) by {
        assert(workspaces_view(s.update(i, w)) =~= workspaces_view(s).update(i, w@));
    }
}

/// To change a set is to change its value.
pub proof fn lemma_sets_update(s: Seq<(u64, WorkspaceSet)>)
    ensures
        sets_view(s).len() == s.len(),
        forall|i: int| 0 <= i < s.len() ==> #[trigger] sets_view(s)[i] == (s[i].0, s[i].1@),
        forall|i: int, k: u64, set: WorkspaceSet|
            0 <= i < s.len() ==> sets_view(#[trigger] s.update(i, (k, set))) == sets_view(s).update(
                i,
                (k, set@),
            ),
{
    assert forall|i: int, k: u64, set: WorkspaceSet| 0 <= i < s.len() implies sets_view(
        #[trigger] s.update(i, (k, set)),
    ) == sets_view(s).update(i, (k, set@)) by {
        assert(sets_view(s.update(i, (k, set))) =~= sets_view(s).update(i, (k, set@)));
    }
}

impl WorkspaceMode {
    /// No output has two sets, and each set is well formed.
    pub open spec fn wf(self) -> bool {
        match self {
            WorkspaceMode::Global(set) => set.wf(),
            WorkspaceMode::OutputBound(sets) => sets.wf() && forall|i: int|
                0 <= i < sets.seq().len() ==> (#[trigger] sets.seq()[i]).1.wf(),
        }
    }

    /// How many handles it takes to start in a mode.
    pub open spec fn new_handles(config: ConfigMode, amount: WorkspaceAmount) -> int {
        match config {
            ConfigMode::Global => 1 + amount.initial(),
            ConfigMode::OutputBound => 0,
        }
    }

    /// Starts in a mode. A set for all outputs is there from the beginning.
    pub fn new(config: ConfigMode, amount: WorkspaceAmount, state: &mut WorkspaceState) -> (mode:
        WorkspaceMode)
        requires
            old(state).wf(),
            old(state)@.next + WorkspaceMode::new_handles(config, amount) <= u64::MAX,
        ensures
            mode.wf(),
            final(state).wf(),
            match config {
                ConfigMode::Global => {
                    &&& mode@ == ModeView::Global(
                        (SetView {
                            active: 0,
                            group: old(state)@.next as u64,
                            workspaces: new_workspaces(old(state)@.next + 1, amount.initial()),
                        }),
                    )
                    &&& final(state)@ == old(state)@.with_new_group().with_started(
                        old(state)@.next as u64,
                        amount.initial(),
                        true,
                    )
                },
                ConfigMode::OutputBound => {
                    &&& mode@ == ModeView::OutputBound(Seq::empty())
                    &&& final(state)@ == old(state)@
                },
            },
    {
        match config {
            ConfigMode::Global => WorkspaceMode::Global(WorkspaceSet::new(state, amount)),
            ConfigMode::OutputBound => {
                let sets: Table<WorkspaceSet> = Table::new();
                assert(sets_view(sets.seq()) =~= Seq::<(OutputId, SetView)>::empty());
                WorkspaceMode::OutputBound(sets)
            },
        }
    }

    /// The set that an output shows.
    pub fn set_for(&self, output: OutputId) -> (r: Option<&WorkspaceSet>)
        requires
            self.wf(),
        ensures
            match r {
                Some(set) => self@.set_for(output) == Some(set@) && set.wf(),
                None => self@.set_for(output) is None,
            },
    {
        match self {
            WorkspaceMode::Global(set) => Some(set),
            WorkspaceMode::OutputBound(sets) => {
                proof {
                    lemma_sets_view(sets.seq(), output);
                    lemma_slot(sets.seq(), output);
                }
                sets.get(output)
            },
        }
    }

    /// The set that an output shows, to be changed.
    pub fn set_for_mut(&mut self, output: OutputId) -> (r: Option<&mut WorkspaceSet>)
        requires
            old(self).wf(),
        ensures
            match r {
                Some(set) => {
                    &&& old(self)@.set_for(output) == Some((*set)@)
                    &&& set.wf()
                    &&& final(set).wf() ==> final(self).wf()
                    &&& final(self)@ == old(self)@.with_set(output, (*final(set))@)
                },
                None => {
                    &&& old(self)@.set_for(output) is None
                    &&& final(self)@ == old(self)@
                    &&& final(self).wf()
                },
            },
    {
        match self {
            WorkspaceMode::Global(set) => Some(set),
            WorkspaceMode::OutputBound(sets) => {
                proof {
                    lemma_sets_view(sets.seq(), output);
                    lemma_slot(sets.seq(), output);
                    lemma_sets_update(sets.seq());
                }
                sets.get_mut(output)
            },
        }
    }

    /// The workspace at position `num` of the set that an output shows.
    pub fn get(&self, num: usize, output: &Output) -> (r: Option<&Workspace>)
        requires
            self.wf(),
        ensures
            match r {
                Some(w) => self@.space(num as int, output.id) == Some(w@) && w.wf(),
                None => self@.space(num as int, output.id) is None,
            },
    {
        match self.set_for(output.id) {
            Some(set) => {
                assert(set@.workspaces.len() == set.workspaces@.len());
                if num < set.workspaces.len() {
                    Some(&set.workspaces[num])
                } else {
                    None
                }
            },
            None => None,
        }
    }

    /// The workspace at position `num` of the set that an output shows, to be changed.
    pub fn get_mut(&mut self, num: usize, output: &Output) -> (r: Option<&mut Workspace>)
        requires
            old(self).wf(),
        ensures
            match r {
                Some(w) => {
                    &&& old(self)@.space(num as int, output.id) == Some((*w)@)
                    &&& w.wf()
                    &&& final(w).wf() ==> final(self).wf()
                    &&& final(self)@ == old(self)@.with_space(num as int, output.id, (*final(w))@)
                },
                None => {
                    &&& old(self)@.space(num as int, output.id) is None
                    &&& final(self)@ == old(self)@
                    &&& final(self).wf()
                },
            },
    {
        proof {
            lemma_same_set(self@, output.id);
        }
        match self.set_for_mut(output.id) {
            Some(set) => {
                assert(set@.workspaces.len() == set.workspaces@.len());
                if num < set.workspaces.len() {
                    proof {
                        lemma_workspaces_update(set.workspaces@, num as int);
                    }
                    Some(&mut set.workspaces[num])
                } else {
                    None
                }
            },
            None => None,
        }
    }

    /// The active workspace of an output.
    pub fn active(&self, output: &Output) -> (w: &Workspace)
        requires
            self.wf(),
            self@.has_active(output.id),
        ensures
            w.wf(),
            w@ == self@.active_space(output.id),
    {
        let set = self.set_for(output.id).unwrap();
        assert(set@.workspaces.len() == set.workspaces@.len());
        &set.workspaces[set.active]
    }

    /// The active workspace of an output, to be changed.
    pub fn active_mut(&mut self, output: &Output) -> (w: &mut Workspace)
        requires
            old(self).wf(),
            old(self)@.has_active(output.id),
        ensures
            w.wf(),
            (*w)@ == old(self)@.active_space(output.id),
            final(w).wf() ==> final(self).wf(),
            final(self)@ == old(self)@.with_space(
                old(self)@.active_index(output.id),
                output.id,
                (*final(w))@,
            ),
    {
        let set = self.set_for_mut(output.id).unwrap();
        assert(set@.workspaces.len() == set.workspaces@.len());
        let active: usize = set.active;
        proof {
            lemma_workspaces_update(set.workspaces@, active as int);
        }
        &mut set.workspaces[active]
    }

    /// The position of the active workspace of an output.
    pub fn active_num(&self, output: &Output) -> (n: usize)
        requires
            self.wf(),
            self@.set_for(output.id) is Some,
        ensures
            n == self@.active_index(output.id),
    {
        self.set_for(output.id).unwrap().active
    }

    /// All workspaces, set after set.
    pub fn spaces(&self) -> (r: Vec<&Workspace>)
        requires
            self.wf(),
        ensures
            r@.len() == self@.spaces().len(),
            forall|i: int|
                0 <= i < r@.len() ==> (#[trigger] r@[i])@ == self@.spaces()[i] && r@[i].wf(),
    {
        let mut r: Vec<&Workspace> = Vec::new();
        match self {
            WorkspaceMode::Global(set) => {
                push_spaces(&mut r, set);
            },
            WorkspaceMode::OutputBound(sets) => {
                let ghost v = sets_view(sets.seq());
                let mut s: usize = 0;
                while s < sets.entries.len()
                    invariant
                        s <= sets.entries.len(),
                        v == sets_view(sets.seq()),
                        forall|i: int|
                            0 <= i < sets.seq().len() ==> (#[trigger] sets.seq()[i]).1.wf(),
                        r@.len() == all_spaces(v.take(s as int)).len(),
                        forall|i: int|
                            0 <= i < r@.len() ==> (#[trigger] r@[i])@ == all_spaces(
                                v.take(s as int),
                            )[i] && r@[i].wf(),
                    decreases sets.entries.len() - s,
                {
                    proof {
                        assert(sets.seq()[s as int].1.wf());
                        assert(v.take(s + 1).drop_last() =~= v.take(s as int));
                        assert(v.take(s + 1).last() == v[s as int]);
                    }
                    let ghost before = r@;
                    push_spaces(&mut r, &sets.entries[s].1);
                    proof {
                        let now = all_spaces(v.take(s + 1));
                        assert forall|i: int| 0 <= i < r@.len() implies (#[trigger] r@[i])@ == now[i] by {
                            if i < before.len() {
                                assert(before[i]@ == all_spaces(v.take(s as int))[i]);
                            }
                        }
                    }
                    s += 1;
                }
                assert(v.take(s as int) =~= v);
            },
        }
        r
    }

    /// The workspaces of the set that an output shows.
    pub fn spaces_for_output(&self, output: &Output) -> (r: Vec<&Workspace>)
        requires
            self.wf(),
        ensures
            r@.len() == self@.spaces_for(output.id).len(),
            forall|i: int|
                0 <= i < r@.len() ==> (#[trigger] r@[i])@ == self@.spaces_for(output.id)[i] && r@[i].wf(),
    {
        let mut r: Vec<&Workspace> = Vec::new();
        match self.set_for(output.id) {
            Some(set) => {
                push_spaces(&mut r, set);
            },
            None => {},
        }
        r
    }

    /// The workspace at position `i` of all of them, to be changed.
    pub fn spaces_mut(&mut self, i: usize) -> (r: Option<&mut Workspace>)
        requires
            old(self).wf(),
        ensures
            r is Some <==> i < old(self)@.spaces().len(),
            match r {
                Some(w) => {
                    &&& (*w)@ == old(self)@.spaces()[i as int]
                    &&& w.wf()
                    &&& final(w).wf() ==> final(self).wf()
                    &&& final(self)@ == old(self)@.with_nth(i as int, (*final(w))@)
                },
                None => {
                    &&& final(self)@ == old(self)@
                    &&& final(self).wf()
                },
            },
    {
        match self {
            WorkspaceMode::Global(set) => {
                assert(set@.workspaces.len() == set.workspaces@.len());
                if i < set.workspaces.len() {
                    proof {
                        lemma_workspaces_update(set.workspaces@, i as int);
                    }
                    Some(&mut set.workspaces[i])
                } else {
                    None
                }
            },
            WorkspaceMode::OutputBound(sets) => {
                let ghost v = sets_view(sets.seq());
                let mut s: usize = 0;
                let mut rest: usize = i;
                while s < sets.entries.len() && rest >= sets.entries[s].1.workspaces.len()
                    invariant
                        s <= sets.entries.len(),
                        v == sets_view(sets.seq()),
                        all_spaces(v.take(s as int)).len() + rest == i,
                    decreases sets.entries.len() - s,
                {
                    proof {
                        assert(v.take(s + 1).drop_last() =~= v.take(s as int));
                        assert(v.take(s + 1).last() == v[s as int]);
                        assert(v[s as int].1.workspaces.len() == sets.seq()[s as int].1.workspaces@.len());
                    }
                    rest -= sets.entries[s].1.workspaces.len();
                    s += 1;
                }
                if s < sets.entries.len() {
                    proof {
                        lemma_sets_update(sets.seq());
                        lemma_locate(v, s as int, rest as int);
                        lemma_workspaces_update(sets.seq()[s as int].1.workspaces@, rest as int);
                        assert(v.take(s + 1).drop_last() =~= v.take(s as int));
                        lemma_keys_kept(sets.seq(), s as int);
                    }
                    Some(&mut sets.entries[s].1.workspaces[rest])
                } else {
                    assert(v.take(s as int) =~= v);
                    None
                }
            },
        }
    }
}

/// Changing a set in place changes no key.
proof fn lemma_keys_kept(s: Seq<(u64, WorkspaceSet)>, i: int)
    requires
        0 <= i < s.len(),
        keys_distinct(s),
    ensures
        forall|set: WorkspaceSet| keys_distinct(#[trigger] s.update(i, (s[i].0, set))),
{
    assert forall|set: WorkspaceSet| keys_distinct(#[trigger] s.update(i, (s[i].0, set))) by {
        let t = s.update(i, (s[i].0, set));
        assert forall|p: int, q: int| 0 <= p < q < t.len() implies (#[trigger] t[p]).0 != (#[trigger] t[q]).0 by {
            assert(t[p].0 == s[p].0 && t[q].0 == s[q].0);
        }
    }
}

/// Putting the set that an output shows back changes nothing.
proof fn lemma_same_set(mode: ModeView, output: OutputId)
    ensures
        mode.set_for(output) matches Some(set) ==> mode.with_set(output, set) == mode,
{
    if let ModeView::OutputBound(sets) = mode {
        lemma_slot(sets, output);
        if has_key(sets, output) {
            let i = slot(sets, output);
            assert(sets.update(i, (output, sets[i].1)) =~= sets);
        }
    }
}

/// Where the workspace at position `k` of set `s` stands among all of them.
pub proof fn lemma_locate(sets: Seq<(OutputId, SetView)>, s: int, k: int)
    requires
        0 <= s < sets.len(),
        0 <= k < sets[s].1.workspaces.len(),
    ensures
        all_spaces(sets.take(s)).len() + k < all_spaces(sets).len(),
        locate(sets, all_spaces(sets.take(s)).len() + k) == (s, k),
        all_spaces(sets)[all_spaces(sets.take(s)).len() + k] == sets[s].1.workspaces[k],
    decreases sets.len(),
{
    let before = sets.drop_last();
    if s == sets.len() - 1 {
        assert(sets.take(s) =~= before);
    } else {
        lemma_locate(before, s, k);
        assert(before.take(s) =~= sets.take(s));
        assert(before[s] == sets[s]);
    }
}

/// Every position among all workspaces belongs to a position of a set.
pub proof fn lemma_locate_inverse(sets: Seq<(OutputId, SetView)>, i: int)
    requires
        0 <= i < all_spaces(sets).len(),
    ensures
        ({
            let (s, k) = locate(sets, i);
            &&& 0 <= s < sets.len()
            &&& 0 <= k < sets[s].1.workspaces.len()
            &&& all_spaces(sets)[i] == sets[s].1.workspaces[k]
            &&& all_spaces(sets.take(s)).len() + k == i
        }),
    decreases sets.len(),
{
    let before = sets.drop_last();
    if i >= all_spaces(before).len() {
        assert(sets.take(sets.len() - 1) =~= before);
    } else {
        lemma_locate_inverse(before, i);
        let (s, k) = locate(before, i);
        assert(before.take(s) =~= sets.take(s));
    }
}

fn push_spaces<'a>(r: &mut Vec<&'a Workspace>, set: &'a WorkspaceSet)
    requires
        set.wf(),
        forall|i: int| 0 <= i < old(r)@.len() ==> (#[trigger] old(r)@[i]).wf(),
    ensures
        final(r)@.len() == old(r)@.len() + set@.workspaces.len(),
        forall|i: int| 0 <= i < old(r)@.len() ==> final(r)@[i] == #[trigger] old(r)@[i],
        forall|i: int|
            old(r)@.len() <= i < final(r)@.len() ==> (#[trigger] final(r)@[i])@
                == set@.workspaces[i - old(r)@.len()],
        forall|i: int| 0 <= i < final(r)@.len() ==> (#[trigger] final(r)@[i]).wf(),
{
    let ghost n = r@.len();
    let mut k: usize = 0;
    while k < set.workspaces.len()
        invariant
            k <= set.workspaces.len(),
            set.wf(),
            n == old(r)@.len(),
            r@.len() == n + k,
            forall|i: int| 0 <= i < n ==> r@[i] == #[trigger] old(r)@[i],
            forall|i: int| n <= i < n + k ==> (#[trigger] r@[i])@ == set@.workspaces[i - n],
            forall|i: int| 0 <= i < r@.len() ==> (#[trigger] r@[i]).wf(),
        decreases set.workspaces.len() - k,
    {
        r.push(&set.workspaces[k]);
        k += 1;
    }
}

} // verus!
