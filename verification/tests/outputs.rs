use cosmic_shell::config::{Config, StaticConfig, WorkspaceMode as ConfigMode};
use cosmic_shell::element::{Element, Window};
use cosmic_shell::geometry::{Point, Rectangle, Size};
use cosmic_shell::mode::WorkspaceMode;
use cosmic_shell::output::Output;
use cosmic_shell::set::{WorkspaceAmount, WorkspaceSet};
use cosmic_shell::shell::Shell;

fn output(id: u64, x: i32) -> Output {
    Output {
        id,
        geometry: Rectangle { loc: Point { x, y: 0 }, size: Size { w: 1000, h: 500 } },
    }
}

fn shell(mode: ConfigMode, amount: WorkspaceAmount) -> Shell {
    Shell::new(&Config {
        static_conf: StaticConfig {
            workspace_mode: mode,
            workspace_amount: amount,
            floating_default: false,
        },
    })
}

fn element(id: u64) -> Element {
    Element::from_window(Window {
        id,
        surface: 100 + id,
        geometry_loc: Point { x: 0, y: 0 },
        should_be_floating: false,
    })
}

fn shared(s: &Shell) -> &WorkspaceSet {
    match &s.workspaces {
        WorkspaceMode::Global(set) => set,
        _ => panic!("not shared"),
    }
}

fn own(s: &Shell, id: u64) -> &WorkspaceSet {
    match &s.workspaces {
        WorkspaceMode::OutputBound(sets) => sets.get(id).unwrap(),
        _ => panic!("shared"),
    }
}

fn own_count(s: &Shell) -> usize {
    match &s.workspaces {
        WorkspaceMode::OutputBound(sets) => sets.entries.len(),
        _ => panic!("shared"),
    }
}

#[test]
fn a_new_shell_starts_in_its_mode() {
    let s = shell(ConfigMode::Global, WorkspaceAmount::Static(2));
    assert_eq!(shared(&s).workspaces.len(), 2);
    assert!(s.outputs.is_empty());
    let s = shell(ConfigMode::OutputBound, WorkspaceAmount::Dynamic);
    assert_eq!(own_count(&s), 0);
    assert!(s.workspace_state.groups.entries.is_empty());
    assert!(s.pending_windows.is_empty());
    assert!(s.pending_layers.is_empty());
}

#[test]
fn an_output_gets_a_set_of_its_own() {
    let mut s = shell(ConfigMode::OutputBound, WorkspaceAmount::Static(2));
    let o = output(7, 50);
    assert!(s.add_possible(&o));
    s.add_output(&o);
    let set = own(&s, 7);
    assert_eq!(set.workspaces.len(), 2);
    for w in &set.workspaces {
        assert_eq!(w.outputs.get(7), Some(&Point { x: 0, y: 0 }));
    }
    // once more, it keeps that set
    s.add_output(&o);
    assert_eq!(own_count(&s), 1);
    assert_eq!(s.outputs.len(), 2);
    assert_eq!(own(&s, 7).workspaces[0].handle, 1);
}

#[test]
fn an_output_is_shown_on_shared_workspaces_where_it_lies() {
    let mut s = shell(ConfigMode::Global, WorkspaceAmount::Static(2));
    s.add_output(&output(7, 50));
    s.add_output(&output(8, 1050));
    let set = shared(&s);
    for w in &set.workspaces {
        assert_eq!(w.outputs.get(7), Some(&Point { x: 50, y: 0 }));
        assert_eq!(w.outputs.get(8), Some(&Point { x: 1050, y: 0 }));
    }
    assert_eq!(*s.workspace_state.groups.get(set.group).unwrap(), vec![7, 8]);
}

#[test]
fn a_shared_set_forgets_an_output_that_is_removed() {
    let mut s = shell(ConfigMode::Global, WorkspaceAmount::Static(2));
    s.add_output(&output(7, 0));
    s.add_output(&output(8, 1000));
    s.remove_output(&output(7, 0));
    assert_eq!(s.outputs.len(), 1);
    assert_eq!(s.outputs[0].id, 8);
    let set = shared(&s);
    for w in &set.workspaces {
        assert!(w.outputs.get(7).is_none());
        assert!(w.outputs.get(8).is_some());
        assert!(w.needs_refresh);
    }
    assert_eq!(*s.workspace_state.groups.get(set.group).unwrap(), vec![8]);
}

#[test]
fn adding_and_removing_an_output_leaves_a_shared_set_as_it_was() {
    let mut s = shell(ConfigMode::Global, WorkspaceAmount::Static(2));
    s.add_output(&output(7, 0));
    s.active_space_mut(&output(7, 0)).tiling_layer.map(element(3));
    s.add_output(&output(8, 1000));
    s.remove_output(&output(8, 1000));
    assert_eq!(s.outputs, vec![output(7, 0)]);
    let set = shared(&s);
    assert_eq!(set.active, 0);
    assert_eq!(*s.workspace_state.groups.get(set.group).unwrap(), vec![7]);
    for w in &set.workspaces {
        assert_eq!(w.outputs.entries, vec![(7, Point { x: 0, y: 0 })]);
    }
    assert_eq!(set.workspaces[0].tiling_layer.elements.len(), 1);
    assert_eq!(s.workspace_state.next, 3);
}

#[test]
fn the_first_output_takes_over() {
    let mut s = shell(ConfigMode::OutputBound, WorkspaceAmount::Static(2));
    let (a, b, c) = (output(7, 0), output(8, 1000), output(9, 2000));
    s.add_output(&a);
    s.add_output(&b);
    s.add_output(&c);
    // sets: 7 with group 0 and workspaces 1, 2; 8 with 3 and 4, 5; 9 with 6 and 7, 8
    s.active_space_mut(&b).tiling_layer.map(element(30));
    assert!(s.release_possible(&b));
    s.remove_output(&b);
    assert_eq!(own_count(&s), 2);
    let set = own(&s, 7);
    assert_eq!(set.workspaces.len(), 2);
    // handles 9 and 10 were given to what came over, and merged into the last that stays
    assert_eq!(set.workspaces[0].handle, 1);
    assert_eq!(set.workspaces[1].handle, 2);
    let tiled: Vec<u64> = set.workspaces[1].tiling_layer.elements.iter().map(|e| e.id).collect();
    assert_eq!(tiled, vec![30]);
    assert!(s.workspace_state.groups.get(3).is_none());
    assert!(s.workspace_state.workspaces.get(4).is_none());
    assert!(s.workspace_state.workspaces.get(9).is_none());
    assert_eq!(s.workspace_state.next, 11);
}

#[test]
fn what_is_taken_over_is_numbered_on() {
    let mut s = shell(ConfigMode::OutputBound, WorkspaceAmount::Static(2));
    let (a, b) = (output(7, 0), output(8, 1000));
    s.add_output(&a);
    s.add_output(&b);
    assert!(s.release_output(&a));
    let set = own(&s, 8);
    assert_eq!(set.workspaces.len(), 4);
    let w = &set.workspaces[2];
    assert_eq!(w.handle, 6);
    assert!(w.outputs.get(7).is_none());
    assert_eq!(w.outputs.get(8), Some(&Point { x: 0, y: 0 }));
    assert!(w.needs_refresh);
    let entry = s.workspace_state.workspaces.get(6).unwrap();
    assert_eq!(entry.group, set.group);
    assert_eq!(entry.name, "3");
    assert_eq!(entry.coordinates, (Some(2), None, None));
    assert_eq!(s.workspace_state.workspaces.get(7).unwrap().name, "4");
    assert!(s.workspace_state.workspaces.get(1).is_none());
    assert!(s.workspace_state.groups.get(0).is_none());
}

#[test]
fn windows_that_are_taken_over_stay_announced_where_they_were() {
    let mut s = shell(ConfigMode::OutputBound, WorkspaceAmount::Static(1));
    let (a, b) = (output(7, 0), output(8, 1000));
    s.add_output(&a);
    s.add_output(&b);
    s.active_space_mut(&b).tiling_layer.map(element(30));
    s.toplevel_info_state.toplevel_enter_workspace(30, 3);
    s.release_output(&b);
    assert_eq!(s.toplevel_info_state.workspaces, vec![(30, 3)]);
}

#[test]
fn without_another_output_the_set_is_dropped() {
    let mut s = shell(ConfigMode::OutputBound, WorkspaceAmount::Static(2));
    let a = output(7, 0);
    s.add_output(&a);
    s.remove_output(&a);
    assert!(s.outputs.is_empty());
    assert_eq!(own_count(&s), 0);
    assert!(s.workspace_state.groups.get(0).is_some());
}

#[test]
fn an_unknown_output_is_just_dropped() {
    let mut s = shell(ConfigMode::OutputBound, WorkspaceAmount::Static(2));
    let a = output(7, 0);
    s.add_output(&a);
    assert!(!s.release_output(&output(9, 0)));
    assert_eq!(s.outputs.len(), 1);
    assert_eq!(own_count(&s), 1);
}

#[test]
fn outputs_that_moved_are_shown_where_they_lie() {
    let mut s = shell(ConfigMode::Global, WorkspaceAmount::Static(1));
    s.add_output(&output(7, 0));
    s.add_output(&output(8, 1000));
    s.outputs[1].geometry.loc = Point { x: 0, y: 500 };
    s.refresh_outputs();
    let w = &shared(&s).workspaces[0];
    assert_eq!(w.outputs.get(7), Some(&Point { x: 0, y: 0 }));
    assert_eq!(w.outputs.get(8), Some(&Point { x: 0, y: 500 }));
    // with sets of their own nothing moves
    let mut s = shell(ConfigMode::OutputBound, WorkspaceAmount::Static(1));
    s.add_output(&output(7, 10));
    s.refresh_outputs();
    assert_eq!(own(&s, 7).workspaces[0].outputs.get(7), Some(&Point { x: 0, y: 0 }));
}

#[test]
fn places_without_a_number_stop_a_take_over() {
    let mut s = shell(ConfigMode::OutputBound, WorkspaceAmount::Static(255));
    let (a, b) = (output(7, 0), output(8, 1000));
    s.add_output(&a);
    s.add_output(&b);
    assert!(!s.release_possible(&b));
    let mut s = shell(ConfigMode::OutputBound, WorkspaceAmount::Static(127));
    s.add_output(&a);
    s.add_output(&b);
    assert!(s.release_possible(&b));
}

#[test]
fn a_refresh_brings_every_set_to_the_amount() {
    let mut s = shell(ConfigMode::OutputBound, WorkspaceAmount::Static(2));
    let (a, b) = (output(7, 0), output(8, 1000));
    s.add_output(&a);
    s.add_output(&b);
    s.workspace_amount = WorkspaceAmount::Static(3);
    s.refresh();
    for id in [7, 8] {
        let set = own(&s, id);
        assert_eq!(set.workspaces.len(), 3);
        assert!(set.workspaces[set.active].needs_refresh);
    }
    s.active_space_mut(&b).tiling_layer.map(element(3));
    s.workspace_amount = WorkspaceAmount::Dynamic;
    s.refresh();
    for id in [7, 8] {
        let set = own(&s, id);
        assert_eq!(set.workspaces.len(), 2);
        assert!(!set.workspaces[1].has_windows());
    }
    assert!(own(&s, 8).workspaces[0].has_windows());
}

#[test]
fn a_refresh_needs_an_active_workspace() {
    let mut s = shell(ConfigMode::OutputBound, WorkspaceAmount::Static(0));
    assert!(s.refresh_possible());
    s.add_output(&output(7, 0));
    assert!(!s.refresh_possible());
    let mut s = shell(ConfigMode::Global, WorkspaceAmount::Dynamic);
    assert!(s.refresh_possible());
    s.workspace_amount = WorkspaceAmount::Static(3);
    s.refresh();
    assert_eq!(shared(&s).workspaces.len(), 3);
    let o = output(7, 0);
    s.add_output(&o);
    s.activate(&o, 2);
    s.active_space_mut(&o).tiling_layer.map(element(4));
    s.workspace_amount = WorkspaceAmount::Dynamic;
    // two empty ones would go from in front of the active one
    assert!(!s.refresh_possible());
    s.activate(&o, 0);
    assert!(s.refresh_possible());
    s.refresh();
    let left: Vec<u64> = shared(&s).workspaces.iter().map(|w| w.handle).collect();
    assert_eq!(left, vec![1, 3, 4]);
}
