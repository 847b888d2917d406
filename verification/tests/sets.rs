use cosmic_shell::element::{Element, Window};
use cosmic_shell::geometry::Point;
use cosmic_shell::protocol::{number_text, WState, WorkspaceState};
use cosmic_shell::set::{create_workspace, init_workspace_handle, WorkspaceAmount, WorkspaceSet};
use cosmic_shell::toplevel::ToplevelInfoState;

fn element(id: u64) -> Element {
    Element::from_window(Window {
        id,
        surface: 100 + id,
        geometry_loc: Point { x: 0, y: 0 },
        should_be_floating: false,
    })
}

fn handles(set: &WorkspaceSet) -> Vec<u64> {
    set.workspaces.iter().map(|w| w.handle).collect()
}

fn active_flags(state: &WorkspaceState, set: &WorkspaceSet) -> Vec<bool> {
    set.workspaces
        .iter()
        .map(|w| state.workspaces.get(w.handle).unwrap().active)
        .collect()
}

#[test]
fn numbers_are_written_in_decimal() {
    assert_eq!(number_text(0), "0");
    assert_eq!(number_text(9), "9");
    assert_eq!(number_text(10), "10");
    assert_eq!(number_text(255), "255");
    assert_eq!(number_text(65535), "65535");
}

#[test]
fn a_workspace_starts_with_name_place_and_state() {
    let mut state = WorkspaceState::new();
    let group = state.create_workspace_group();
    let w = create_workspace(&mut state, group, false);
    let entry = state.workspaces.get(w.handle).unwrap();
    assert_eq!(entry.group, group);
    assert_eq!(entry.name, "1");
    assert_eq!(entry.coordinates, (Some(0), None, None));
    assert!(entry.can_activate);
    assert!(entry.hidden);
    assert!(!entry.active);
    assert!(w.tiling_enabled);
    assert!(!w.has_windows());
}

#[test]
fn a_place_gives_its_name() {
    let mut state = WorkspaceState::new();
    let group = state.create_workspace_group();
    let handle = state.create_workspace(group).unwrap();
    init_workspace_handle(&mut state, 41, handle);
    let entry = state.workspaces.get(handle).unwrap();
    assert_eq!(entry.name, "42");
    assert_eq!(entry.coordinates, (Some(41), None, None));
}

#[test]
fn without_its_group_no_workspace_is_created() {
    let mut state = WorkspaceState::new();
    assert_eq!(state.create_workspace(5), None);
    assert_eq!(state.next, 0);
}

#[test]
fn group_outputs_come_and_go() {
    let mut state = WorkspaceState::new();
    let group = state.create_workspace_group();
    state.add_group_output(group, 3);
    state.add_group_output(group, 4);
    state.add_group_output(group, 3);
    state.remove_group_output(group, 3);
    assert_eq!(*state.groups.get(group).unwrap(), vec![4]);
    state.remove_workspace_group(group);
    assert!(state.groups.get(group).is_none());
}

#[test]
fn a_dynamic_set_starts_with_one_active_workspace() {
    let mut state = WorkspaceState::new();
    let set = WorkspaceSet::new(&mut state, WorkspaceAmount::Dynamic);
    assert_eq!(set.active, 0);
    assert_eq!(set.group, 0);
    assert_eq!(handles(&set), vec![1]);
    assert_eq!(active_flags(&state, &set), vec![true]);
}

#[test]
fn a_static_set_starts_with_its_amount() {
    let mut state = WorkspaceState::new();
    let set = WorkspaceSet::new(&mut state, WorkspaceAmount::Static(3));
    assert_eq!(handles(&set), vec![1, 2, 3]);
    assert_eq!(active_flags(&state, &set), vec![true, false, false]);
    let empty = WorkspaceSet::new(&mut state, WorkspaceAmount::Static(0));
    assert!(empty.workspaces.is_empty());
    assert_eq!(empty.group, 4);
}

#[test]
fn activating_moves_the_active_state() {
    let mut state = WorkspaceState::new();
    let mut set = WorkspaceSet::new(&mut state, WorkspaceAmount::Static(3));
    set.activate(2, &mut state);
    assert_eq!(set.active, 2);
    assert_eq!(active_flags(&state, &set), vec![false, false, true]);
    set.activate(0, &mut state);
    assert_eq!(set.active, 0);
    assert_eq!(active_flags(&state, &set), vec![true, false, false]);
}

#[test]
fn activating_nothing_changes_nothing() {
    let mut state = WorkspaceState::new();
    let mut set = WorkspaceSet::new(&mut state, WorkspaceAmount::Static(2));
    set.activate(2, &mut state);
    set.activate(0, &mut state);
    assert_eq!(set.active, 0);
    assert_eq!(active_flags(&state, &set), vec![true, false]);
}

#[test]
fn a_dynamic_set_gets_an_empty_last_workspace() {
    let mut state = WorkspaceState::new();
    let mut set = WorkspaceSet::new(&mut state, WorkspaceAmount::Dynamic);
    set.workspaces[0].tiling_layer.map(element(7));
    set.ensure_last_empty(&mut state);
    assert_eq!(handles(&set), vec![1, 2]);
    assert!(set.workspaces[0].has_windows());
    assert!(!set.workspaces[1].has_windows());
    let entry = state.workspaces.get(2).unwrap();
    assert_eq!(entry.name, "1");
    assert!(!entry.active);
    // and that is enough
    set.ensure_last_empty(&mut state);
    assert_eq!(handles(&set), vec![1, 2]);
}

#[test]
fn a_dynamic_set_loses_empty_workspaces_in_between() {
    let mut state = WorkspaceState::new();
    let mut set = WorkspaceSet::new(&mut state, WorkspaceAmount::Static(6));
    set.active = 1;
    set.workspaces[3].floating_layer.map(element(7));
    set.ensure_last_empty(&mut state);
    // the active one, the one with a window and the last one stay
    assert_eq!(handles(&set), vec![2, 4, 6]);
    assert!(state.workspaces.get(1).is_none());
    assert!(state.workspaces.get(3).is_none());
    assert!(state.workspaces.get(5).is_none());
    assert!(state.workspaces.get(4).is_some());
    // the active position is left alone
    assert_eq!(set.active, 1);
}

#[test]
fn a_static_set_merges_what_is_too_much() {
    let mut state = WorkspaceState::new();
    let mut toplevels = ToplevelInfoState::new();
    let mut set = WorkspaceSet::new(&mut state, WorkspaceAmount::Static(4));
    set.activate(3, &mut state);
    for i in 0..4u64 {
        let handle = set.workspaces[i as usize].handle;
        set.workspaces[i as usize].tiling_layer.map(element(10 + i));
        toplevels.toplevel_enter_workspace(10 + i, handle);
    }
    set.workspaces[2].floating_layer.map(element(20));
    toplevels.toplevel_enter_workspace(20, 3);
    set.workspaces[1].fullscreen.insert(5, 11);
    set.workspaces[3].fullscreen.insert(5, 13);
    set.workspaces[2].fullscreen.insert(6, 12);
    set.ensure_static(2, &mut state, &mut toplevels);

    assert_eq!(handles(&set), vec![1, 2]);
    assert_eq!(set.active, 1);
    assert!(state.workspaces.get(2).unwrap().active);
    assert!(state.workspaces.get(3).is_none());
    assert!(state.workspaces.get(4).is_none());
    let last = &set.workspaces[1];
    let tiled: Vec<u64> = last.tiling_layer.elements.iter().map(|e| e.id).collect();
    assert_eq!(tiled, vec![11, 12, 13]);
    let floating: Vec<u64> = last.floating_layer.elements.iter().map(|e| e.id).collect();
    assert_eq!(floating, vec![20]);
    assert_eq!(last.fullscreen.get(5), Some(&13));
    assert_eq!(last.fullscreen.get(6), Some(&12));
    assert!(last.needs_refresh);
    assert!(!set.workspaces[0].needs_refresh);
    let mut told = toplevels.workspaces.clone();
    told.sort();
    assert_eq!(told, vec![(10, 1), (11, 2), (12, 2), (13, 2), (20, 2)]);
}

#[test]
fn a_static_set_adds_what_is_missing() {
    let mut state = WorkspaceState::new();
    let mut toplevels = ToplevelInfoState::new();
    let mut set = WorkspaceSet::new(&mut state, WorkspaceAmount::Static(1));
    set.ensure_static(3, &mut state, &mut toplevels);
    assert_eq!(handles(&set), vec![1, 2, 3]);
    assert_eq!(active_flags(&state, &set), vec![true, false, false]);
    set.ensure_static(3, &mut state, &mut toplevels);
    assert_eq!(handles(&set), vec![1, 2, 3]);
}

#[test]
fn a_refresh_lays_out_the_active_workspace() {
    let mut state = WorkspaceState::new();
    let mut toplevels = ToplevelInfoState::new();
    let mut set = WorkspaceSet::new(&mut state, WorkspaceAmount::Static(2));
    set.activate(1, &mut state);
    set.refresh(WorkspaceAmount::Static(3), &mut state, &mut toplevels);
    assert_eq!(handles(&set), vec![1, 2, 3]);
    let marks: Vec<bool> = set.workspaces.iter().map(|w| w.needs_refresh).collect();
    assert_eq!(marks, vec![false, true, false]);
    set.refresh(WorkspaceAmount::Dynamic, &mut state, &mut toplevels);
    // the first one is empty, but the active position is not counted anew
    assert_eq!(handles(&set), vec![2, 3]);
    assert_eq!(set.active, 1);
    assert!(set.workspaces[1].needs_refresh);
}

#[test]
fn hidden_is_set_and_cleared() {
    let mut state = WorkspaceState::new();
    let group = state.create_workspace_group();
    let handle = state.create_workspace(group).unwrap();
    state.add_workspace_state(handle, WState::Hidden);
    assert!(state.workspaces.get(handle).unwrap().hidden);
    state.remove_workspace_state(handle, WState::Hidden);
    assert!(!state.workspaces.get(handle).unwrap().hidden);
    // what is not there stays so
    state.add_workspace_state(99, WState::Active);
    assert!(state.workspaces.get(99).is_none());
}

#[test]
fn windows_leave_just_the_workspace_named() {
    let mut toplevels = ToplevelInfoState::new();
    toplevels.toplevel_enter_workspace(1, 10);
    toplevels.toplevel_enter_workspace(1, 11);
    toplevels.toplevel_enter_workspace(2, 10);
    toplevels.toplevel_enter_workspace(1, 10);
    toplevels.toplevel_leave_workspace(1, 10);
    assert_eq!(toplevels.workspaces, vec![(1, 11), (2, 10)]);
    toplevels.toplevel_enter_output(1, 7);
    assert_eq!(toplevels.outputs, vec![(1, 7)]);
}
