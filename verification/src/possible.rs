//! Tells whether an operation can be carried out, for those who have to ask first.
use crate::config::WorkspaceMode as ConfigMode;
use crate::gather::{actives_within, find_depth, find_lead, lemma_rows_fit};
use crate::hotplug::{lemma_other_outputs, place_of, places_numbered};
use crate::mode::{lemma_sets_update, sets_view, WorkspaceMode};
use crate::output::Output;
use crate::protocol::{OutputId, StateView};
use crate::scene::SetsScene;
use crate::set::{kept, padded, stays, SetScene, SetView, WorkspaceAmount, WorkspaceSet};
use crate::shell::{LayerId, Shell};
use crate::split::{can_split, can_split_all};
use crate::table::{has_key, Table};
use crate::toplevel::WindowId;
use crate::windows::{is_layer, is_window};
use crate::workspace::{lemma_first_where_is, SeatId, Workspace, WorkspaceView};
use vstd::prelude::*;

verus! {

/// How many of the first `n` workspaces of a dynamic set stay. The last one does if none is
/// added behind it.
spec fn staying(s: Seq<WorkspaceView>, active: int, pad: bool, n: int) -> int
    decreases n,
{
    if n <= 0 {
        0
    } else if s[n - 1].has_windows() || n - 1 == active || (!pad && n == s.len()) {
        staying(s, active, pad, n - 1) + 1
    } else {
        staying(s, active, pad, n - 1)
    }
}

proof fn lemma_staying(set: SetView, state: StateView, n: int)
    requires
        set.workspaces.len() > 0,
        0 <= n <= set.workspaces.len(),
    ensures
        kept(padded(set, state), set.active, n).len() == staying(
            set.workspaces,
            set.active,
            set.workspaces.last().has_windows(),
            n,
        ),
    decreases n,
{
    if n > 0 {
        lemma_staying(set, state, n - 1);
        assert(padded(set, state)[n - 1] == set.workspaces[n - 1]);
    }
}

/// A refresh gives out just the handles that it takes.
proof fn lemma_next_handle(scene: SetScene, amount: WorkspaceAmount)
    ensures
        scene.refreshed(amount).state.next == scene.state.next + scene.handles_needed(amount),
{
}

impl WorkspaceSet {
    /// Whether a dynamic set has an active workspace once it is brought in order.
    fn stays_active(&self, scene: Ghost<SetScene>) -> (r: bool)
        requires
            self.wf(),
            scene@.set == self@,
            self@.workspaces.len() > 0,
        ensures
            r == (0 <= scene@.last_empty().set.active < scene@.last_empty().set.workspaces.len()),
    {
        let ghost v = self@.workspaces;
        assert(v.len() == self.workspaces@.len());
        let len: usize = self.workspaces.len();
        assert(self.workspaces@[len - 1]@ == v.last());
        let pad: bool = self.workspaces[len - 1].has_windows();
        let mut n: usize = 0;
        let mut i: usize = 0;
        while i < len
            invariant
                n <= i <= len,
                len == v.len(),
                len == self.workspaces@.len(),
                v == self@.workspaces,
                pad == v.last().has_windows(),
                n == staying(v, self@.active, pad, i as int),
            decreases len - i,
        {
            assert(self.workspaces@[i as int]@ == v[i as int]);
            if self.workspaces[i].has_windows() || i == self.active || (!pad && i == len - 1) {
                n += 1;
            }
            i += 1;
        }
        proof {
            lemma_staying(self@, scene@.state, len as int);
            if pad {
                assert(stays(padded(self@, scene@.state), self@.active, len as int));
            }
        }
        self.active < n || (pad && self.active == n)
    }

    /// Whether the set can be refreshed where `next` is the next handle. Returns the next
    /// handle after that.
    fn next_after_refresh(&self, amount: WorkspaceAmount, next: u64, scene: Ghost<SetScene>) -> (r:
        Option<u64>)
        requires
            self.wf(),
            scene@.set == self@,
            scene@.state.next == next,
        ensures
            r is Some <==> scene@.can_refresh(amount),
            r matches Some(n) ==> n == scene@.refreshed(amount).state.next,
    {
        assert(self@.workspaces.len() == self.workspaces@.len());
        proof {
            lemma_next_handle(scene@, amount);
        }
        let len: usize = self.workspaces.len();
        let needed: u64 = match amount {
            WorkspaceAmount::Dynamic => {
                if len == 0 || !self.stays_active(scene) {
                    return None;
                }
                assert(self.workspaces@[len - 1]@ == self@.workspaces.last());
                if self.workspaces[len - 1].has_windows() {
                    1
                } else {
                    0
                }
            },
            WorkspaceAmount::Static(count) => {
                let count: usize = count as usize;
                if count == 0 || (count >= len && self.active >= count) {
                    return None;
                }
                if count > len {
                    (count - len) as u64
                } else {
                    0
                }
            },
        };
        next.checked_add(needed)
    }
}

/// Whether the sets of several outputs can be refreshed, one after the other.
fn sets_refresh_possible(
    sets: &Table<WorkspaceSet>,
    amount: WorkspaceAmount,
    next: u64,
    scene: Ghost<SetsScene>,
) -> (r: bool)
    requires
        forall|i: int| 0 <= i < sets.seq().len() ==> (#[trigger] sets.seq()[i]).1.wf(),
        scene@.sets == sets_view(sets.seq()),
        scene@.state.next == next,
    ensures
        r == scene@.can_refresh(amount),
{
    let mut n: u64 = next;
    let mut s: usize = 0;
    while s < sets.entries.len()
        invariant
            s <= sets.entries.len(),
            scene@.sets == sets_view(sets.seq()),
            forall|i: int| 0 <= i < sets.seq().len() ==> (#[trigger] sets.seq()[i]).1.wf(),
            n == scene@.refreshed(amount, s as int).state.next,
            forall|i: int| 0 <= i < s ==> (#[trigger] scene@.turn(amount, i)).can_refresh(amount),
        decreases sets.entries.len() - s,
    {
        let ghost turn = scene@.turn(amount, s as int);
        proof {
            lemma_sets_update(sets.seq());
            assert(sets.seq()[s as int].1.wf());
        }
        match sets.entries[s].1.next_after_refresh(amount, n, Ghost(turn)) {
            Some(after) => {
                n = after;
            },
            None => {
                return false;
            },
        }
        s += 1;
    }
    true
}

/// Whether a workspace knows where each output lies that it has floating elements on.
fn split_possible(workspace: &Workspace, outputs: &Vec<Output>) -> (r: bool)
    ensures
        r == can_split_all(workspace@, outputs@),
{
    let ghost w = workspace@;
    let mut j: usize = 0;
    while j < outputs.len()
        invariant
            j <= outputs.len(),
            w == workspace@,
            forall|q: int| 0 <= q < j ==> can_split(w, (#[trigger] outputs@[q]).id),
        decreases outputs.len() - j,
    {
        let output: OutputId = outputs[j].id;
        let known: bool = workspace.outputs.contains_key(output);
        let mut i: usize = 0;
        while i < workspace.floating_layer.elements.len()
            invariant
                i <= workspace.floating_layer.elements.len(),
                j < outputs.len(),
                output == outputs@[j as int].id,
                w == workspace@,
                known == w.outputs.dom().contains(output),
                known || forall|q: int|
                    0 <= q < i ==> (#[trigger] w.floating_layer[q]).main_output != Some(output),
            decreases workspace.floating_layer.elements.len() - i,
        {
            assert(w.floating_layer[i as int] == workspace.floating_layer.elements@[i as int]@);
            let here: bool = match workspace.floating_layer.elements[i].main_output {
                Some(o) => o == output,
                None => false,
            };
            if here && !known {
                assert(w.floating_layer[i as int].main_output == Some(output));
                assert(!can_split(w, outputs@[j as int].id));
                return false;
            }
            i += 1;
        }
        assert(can_split(w, output));
        j += 1;
    }
    true
}

/// Whether a whole set can be split.
fn splits_possible(set: &WorkspaceSet, outputs: &Vec<Output>) -> (r: bool)
    ensures
        r == forall|i: int|
            0 <= i < set@.workspaces.len() ==> can_split_all(
                #[trigger] set@.workspaces[i],
                outputs@,
            ),
{
    let ghost v = set@;
    let mut i: usize = 0;
    while i < set.workspaces.len()
        invariant
            i <= set.workspaces.len(),
            v == set@,
            forall|q: int|
                0 <= q < i ==> can_split_all(#[trigger] v.workspaces[q], outputs@),
        decreases set.workspaces.len() - i,
    {
        assert(v.workspaces[i as int] == set.workspaces@[i as int]@);
        if !split_possible(&set.workspaces[i], outputs) {
            return false;
        }
        i += 1;
    }
    true
}

/// Whether no set is active behind its last workspace.
fn actives_possible(sets: &Table<WorkspaceSet>) -> (r: bool)
    ensures
        r == actives_within(sets_view(sets.seq())),
{
    let ghost v = sets_view(sets.seq());
    let mut s: usize = 0;
    while s < sets.entries.len()
        invariant
            s <= sets.entries.len(),
            v == sets_view(sets.seq()),
            forall|i: int|
                0 <= i < s ==> 0 <= (#[trigger] v[i]).1.active <= v[i].1.workspaces.len(),
        decreases sets.entries.len() - s,
    {
        assert(v[s as int].1 == sets.seq()[s as int].1@);
        assert(v[s as int].1.workspaces.len() == sets.seq()[s as int].1.workspaces@.len());
        if sets.entries[s].1.active > sets.entries[s].1.workspaces.len() {
            return false;
        }
        s += 1;
    }
    true
}

impl Shell {
    /// Whether all sets can be refreshed.
    pub fn refresh_possible(&self) -> (r: bool)
        requires
            self.wf(),
        ensures
            r == self@.can_refresh(),
    {
        let next: u64 = self.workspace_state.next;
        match &self.workspaces {
            WorkspaceMode::Global(set) => {
                let ghost scene = self@.scene().shared();
                set.next_after_refresh(self.workspace_amount, next, Ghost(scene)).is_some()
            },
            WorkspaceMode::OutputBound(sets) => {
                let ghost scene = self@.scene().bound();
                sets_refresh_possible(sets, self.workspace_amount, next, Ghost(scene))
            },
        }
    }

    /// Whether an output can be added.
    pub fn add_possible(&self, output: &Output) -> (r: bool)
        requires
            self.wf(),
        ensures
            r == (output.wf() && self@.state.next + self@.handles_to_add(*output) <= u64::MAX),
    {
        let g = output.geometry.size;
        if g.w < 0 || g.h < 0 {
            return false;
        }
        match self.workspaces.set_for(output.id) {
            Some(_) => true,
            None => {
                let n: u64 = match self.workspace_amount {
                    WorkspaceAmount::Dynamic => 1,
                    WorkspaceAmount::Static(len) => len as u64,
                };
                self.workspace_state.next <= u64::MAX - 1 - n
            },
        }
    }

    /// Whether the workspaces of an output can be taken over, where that has to be.
    pub fn release_possible(&self, output: &Output) -> (r: bool)
        requires
            self.wf(),
        ensures
            r == self@.can_release(output.id),
    {
        let ghost others = self@.other_outputs(output.id);
        let ghost p = |o: Output| o.id != output.id;
        match &self.workspaces {
            WorkspaceMode::Global(_) => true,
            WorkspaceMode::OutputBound(sets) => {
                let mut k: usize = 0;
                reveal(Seq::filter);
                while k < self.outputs.len() && self.outputs[k].id == output.id
                    invariant
                        k <= self.outputs.len(),
                        forall|q: int| 0 <= q < k ==> (#[trigger] self.outputs@[q]).id == output.id,
                    decreases self.outputs.len() - k,
                {
                    k += 1;
                }
                proof {
                    lemma_first_other(self.outputs@, output.id, k as int);
                    lemma_other_outputs(self@, output.id);
                }
                if k == self.outputs.len() {
                    return true;
                }
                assert(has_key(sets_view(sets.seq()), self.outputs@[k as int].id));
                match (
                    self.workspaces.set_for(output.id),
                    self.workspaces.set_for(self.outputs[k].id),
                ) {
                    (Some(set), Some(target)) => {
                        let n: usize = set.workspaces.len();
                        let len: usize = target.workspaces.len();
                        assert(set@.workspaces.len() == n);
                        assert(target@.workspaces.len() == len);
                        if self.workspace_state.next > u64::MAX - n as u64 {
                            return false;
                        }
                        numbers_suffice(len, n)
                    },
                    _ => true,
                }
            },
        }
    }

    /// Whether another mode can be taken.
    pub fn convert_possible(&self, mode: ConfigMode) -> (r: bool)
        requires
            self.wf(),
        ensures
            r == self@.can_convert(mode),
    {
        let next: u64 = self.workspace_state.next;
        match (&self.workspaces, mode) {
            (WorkspaceMode::OutputBound(sets), ConfigMode::Global) => {
                let ghost v = sets_view(sets.seq());
                if !actives_possible(sets) {
                    return false;
                }
                proof {
                    lemma_rows_fit(v);
                }
                let l: usize = find_lead(sets);
                let d: usize = find_depth(sets);
                if l > 255 || d > 255 - l {
                    return false;
                }
                next < u64::MAX && (l + d) as u64 <= u64::MAX - 1 - next
            },
            (WorkspaceMode::Global(set), ConfigMode::OutputBound) => {
                let ghost v = set@;
                let n: usize = set.workspaces.len();
                let m: usize = self.outputs.len();
                assert(v.workspaces.len() == n);
                if !splits_possible(set, &self.outputs) {
                    return false;
                }
                if m == 0 {
                    assert(n * m == 0) by (nonlinear_arith)
                        requires
                            m == 0,
                    ;
                    return true;
                }
                if n > 255 {
                    return false;
                }
                assert(0 <= n * m <= 255 * m) by (nonlinear_arith)
                    requires
                        0 <= n <= 255,
                        0 <= m,
                ;
                next as u128 + m as u128 + n as u128 * m as u128 <= u64::MAX as u128
            },
            _ => true,
        }
    }

    /// Whether an output has an active workspace.
    pub fn has_active_space(&self, output: &Output) -> (r: bool)
        requires
            self.wf(),
        ensures
            r == self@.workspaces.has_active(output.id),
    {
        match self.workspaces.set_for(output.id) {
            Some(set) => {
                assert(set@.workspaces.len() == set.workspaces@.len());
                set.active < set.workspaces.len()
            },
            None => false,
        }
    }

    /// Whether a workspace of an output can be activated.
    pub fn activate_possible(&self, output: &Output, idx: usize) -> (r: bool)
        requires
            self.wf(),
        ensures
            r == (self@.workspaces.set_for(output.id) matches Some(set) ==> idx
                < set.workspaces.len() && set.active != idx ==> set.active < set.workspaces.len()),
    {
        match self.workspaces.set_for(output.id) {
            Some(set) => {
                assert(set@.workspaces.len() == set.workspaces@.len());
                let len: usize = set.workspaces.len();
                idx >= len || set.active == idx || set.active < len
            },
            None => true,
        }
    }

    /// Whether a window is pending.
    pub fn window_pending(&self, window: WindowId) -> (r: bool)
        ensures
            r == (self@.pending_index(window) < self@.pending_windows.len()),
    {
        let ghost p = is_window(window);
        let mut i: usize = 0;
        while i < self.pending_windows.len()
            invariant
                i <= self.pending_windows.len(),
                p == is_window(window),
                forall|j: int| 0 <= j < i ==> !p(#[trigger] self.pending_windows@[j]),
            decreases self.pending_windows.len() - i,
        {
            if self.pending_windows[i].0.id == window {
                proof {
                    lemma_first_where_is(self.pending_windows@, p, i as int);
                }
                return true;
            }
            i += 1;
        }
        proof {
            lemma_first_where_is(self.pending_windows@, p, i as int);
        }
        false
    }

    /// Whether a layer surface is pending.
    pub fn layer_pending(&self, layer: LayerId) -> (r: bool)
        ensures
            r == (self@.pending_layer_index(layer) < self@.pending_layers.len()),
    {
        let ghost p = is_layer(layer);
        let mut i: usize = 0;
        while i < self.pending_layers.len()
            invariant
                i <= self.pending_layers.len(),
                p == is_layer(layer),
                forall|j: int| 0 <= j < i ==> !p(#[trigger] self.pending_layers@[j]),
            decreases self.pending_layers.len() - i,
        {
            if self.pending_layers[i].0 == layer {
                proof {
                    lemma_first_where_is(self.pending_layers@, p, i as int);
                }
                return true;
            }
            i += 1;
        }
        proof {
            lemma_first_where_is(self.pending_layers@, p, i as int);
        }
        false
    }

    /// Whether the current window of a seat can be moved to workspace `idx`, if that moves
    /// anything.
    pub fn move_possible(&self, seat: SeatId, output: &Output, idx: usize) -> (r: bool)
        requires
            self.wf(),
        ensures
            r == self@.can_move(seat, output.id, idx as int),
    {
        match self.workspaces.set_for(output.id) {
            Some(set) => {
                assert(set@.workspaces.len() == set.workspaces@.len());
                if idx == set.active {
                    return true;
                }
                if set.active >= set.workspaces.len() {
                    return false;
                }
                let space: &Workspace = &set.workspaces[set.active];
                assert(space@ == self@.workspaces.active_space(output.id));
                match space.focused(seat) {
                    Some(id) => {
                        let floats: bool = space.floating_layer.position(id).is_some();
                        let tiled: bool = space.tiling_layer.position(id).is_some();
                        floats != tiled && idx < set.workspaces.len()
                    },
                    None => true,
                }
            },
            None => false,
        }
    }
}

/// The first of the outputs other than one.
pub proof fn lemma_first_other(outputs: Seq<Output>, output: OutputId, k: int)
    requires
        0 <= k <= outputs.len(),
        forall|q: int| 0 <= q < k ==> (#[trigger] outputs[q]).id == output,
        k < outputs.len() ==> outputs[k].id != output,
    ensures
        ({
            let others = outputs.filter(|o: Output| o.id != output);
            &&& others.len() > 0 <==> k < outputs.len()
            &&& k < outputs.len() ==> others[0] == outputs[k]
        }),
    decreases outputs.len(),
{
    let p = |o: Output| o.id != output;
    reveal(Seq::filter);
    let n = outputs.len() - 1;
    if outputs.len() > 0 {
        let before = outputs.drop_last();
        if k <= n {
            assert(k < n ==> before[k] == outputs[k]);
            lemma_first_other(before, output, k);
        } else {
            lemma_first_other(before, output, n);
            assert(outputs[n].id == output);
        }
    }
}

/// Whether `n` workspaces can be numbered from place `len` on.
fn numbers_suffice(len: usize, n: usize) -> (r: bool)
    ensures
        r == places_numbered(len as int, n as int),
{
    let first: usize = len % 256;
    // the places from `first` on, up to the one without a number
    let free: usize = 255 - first;
    proof {
        if n <= free {
            assert forall|k: int| 0 <= k < n implies #[trigger] place_of(len as int, k) != 255 by {
                assert((len + k) % 256 == (len % 256) + k) by {
                    vstd::arithmetic::div_mod::lemma_fundamental_div_mod(len as int, 256);
                    vstd::arithmetic::div_mod::lemma_fundamental_div_mod_converse(
                        len + k,
                        256,
                        len as int / 256,
                        len % 256 + k,
                    );
                }
            }
        } else {
            assert(place_of(len as int, free as int) == 255) by {
                vstd::arithmetic::div_mod::lemma_fundamental_div_mod(len as int, 256);
                vstd::arithmetic::div_mod::lemma_fundamental_div_mod_converse(
                    len + free,
                    256,
                    len as int / 256,
                    255,
                );
            }
        }
    }
    n <= free
}

} // verus!
