use cosmic_shell::config::{Config, StaticConfig, WorkspaceMode as ConfigMode};
use cosmic_shell::element::{Element, Window};
use cosmic_shell::geometry::{Point, Rectangle, Size};
use cosmic_shell::mode::WorkspaceMode;
use cosmic_shell::output::Output;
use cosmic_shell::set::{WorkspaceAmount, WorkspaceSet};
use cosmic_shell::shell::Shell;

fn output(id: u64, x: i32) -> Output {
    Output {
        id,
        geometry: Rectangle { loc: Point { x, y: 0 }, size: Size { w: 1000, h: 500 } },
    }
}

fn shell(mode: ConfigMode, amount: WorkspaceAmount) -> Shell {
    Shell::new(&Config {
        static_conf: StaticConfig {
            workspace_mode: mode,
            workspace_amount: amount,
            floating_default: false,
        },
    })
}

fn element(id: u64) -> Element {
    Element::from_window(Window {
        id,
        surface: 100 + id,
        geometry_loc: Point { x: 0, y: 0 },
        should_be_floating: false,
    })
}

fn placed(id: u64, main_output: u64, x: i32, y: i32) -> Element {
    let mut e = element(id);
    e.main_output = Some(main_output);
    e.location = Point { x, y };
    e
}

fn shared(s: &Shell) -> &WorkspaceSet {
    match &s.workspaces {
        WorkspaceMode::Global(set) => set,
        _ => panic!("not shared"),
    }
}

fn own(s: &Shell, id: u64) -> &WorkspaceSet {
    match &s.workspaces {
        WorkspaceMode::OutputBound(sets) => sets.get(id).unwrap(),
        _ => panic!("shared"),
    }
}

fn tiled(set: &WorkspaceSet) -> Vec<Vec<u64>> {
    set.workspaces
        .iter()
        .map(|w| w.tiling_layer.elements.iter().map(|e| e.id).collect())
        .collect()
}

#[test]
fn lookups_follow_the_mode() {
    let mut s = shell(ConfigMode::OutputBound, WorkspaceAmount::Static(2));
    let (a, b, c) = (output(7, 0), output(8, 1000), output(9, 2000));
    s.add_output(&a);
    s.add_output(&b);
    // sets: 7 with group 0 and workspaces 1, 2; 8 with 3 and 4, 5
    assert_eq!(s.workspaces.get(1, &a).unwrap().handle, 2);
    assert_eq!(s.workspaces.get(0, &b).unwrap().handle, 4);
    assert!(s.workspaces.get(2, &a).is_none());
    assert!(s.workspaces.get(0, &c).is_none());
    assert!(s.workspaces.get_mut(0, &c).is_none());
    s.workspaces.get_mut(1, &b).unwrap().tiling_enabled = false;
    assert!(!s.workspaces.get(1, &b).unwrap().tiling_enabled);
    assert!(s.workspaces.get(1, &a).unwrap().tiling_enabled);
    let all: Vec<u64> = s.workspaces.spaces().iter().map(|w| w.handle).collect();
    assert_eq!(all, vec![1, 2, 4, 5]);
    let some: Vec<u64> = s.workspaces.spaces_for_output(&b).iter().map(|w| w.handle).collect();
    assert_eq!(some, vec![4, 5]);
    assert!(s.workspaces.spaces_for_output(&c).is_empty());
    assert_eq!(s.workspaces.spaces_mut(2).unwrap().handle, 4);
    assert!(s.workspaces.spaces_mut(4).is_none());
    assert_eq!(s.workspaces.active_num(&b), 0);
    assert!(s.activate(&b, 1).is_none());
    assert_eq!(s.workspaces.active_num(&b), 1);
    assert_eq!(s.workspaces.active_num(&a), 0);
    assert_eq!(s.workspaces.active(&b).handle, 5);
    assert_eq!(s.active_space(&b).handle, 5);
    s.active_space_mut(&b).tiling_enabled = true;
    s.workspaces.active_mut(&b).focus_stack.push((1, 2));
    assert_eq!(s.active_space(&b).focused(1), Some(2));
    assert!(s.has_active_space(&a));
    assert!(!s.has_active_space(&c));
    // an output without a set activates nothing
    assert!(s.activate(&c, 1).is_none());
}

#[test]
fn shared_lookups_do_not_ask_for_the_output() {
    let s = shell(ConfigMode::Global, WorkspaceAmount::Static(2));
    let o = output(7, 0);
    assert_eq!(s.workspaces.get(1, &o).unwrap().handle, 2);
    assert_eq!(s.workspaces.active(&o).handle, 1);
    assert_eq!(s.workspaces.spaces().len(), 2);
    assert_eq!(s.workspaces.spaces_for_output(&o).len(), 2);
}

#[test]
fn sets_are_merged_around_their_active_workspaces() {
    let mut s = shell(ConfigMode::OutputBound, WorkspaceAmount::Static(3));
    let (a, b) = (output(7, 0), output(8, 1000));
    s.add_output(&a);
    s.add_output(&b);
    for i in 0..3u64 {
        s.workspaces.get_mut(i as usize, &a).unwrap().tiling_layer.map(element(10 + i));
        s.workspaces.get_mut(i as usize, &b).unwrap().tiling_layer.map(element(20 + i));
    }
    s.activate(&a, 2);
    s.activate(&b, 0);
    assert!(s.convert_possible(ConfigMode::Global));
    s.convert(ConfigMode::Global);
    let set = shared(&s);
    // the rows: two before the active ones, those, and two after
    assert_eq!(
        tiled(set),
        vec![vec![10], vec![11], vec![12, 20], vec![21], vec![22]]
    );
    assert_eq!(set.active, 2);
    assert_eq!(set.group, 8);
    let handles: Vec<u64> = set.workspaces.iter().map(|w| w.handle).collect();
    assert_eq!(handles, vec![9, 10, 11, 12, 13]);
    for (i, w) in set.workspaces.iter().enumerate() {
        assert_eq!(w.outputs.get(7), Some(&Point { x: 0, y: 0 }));
        assert_eq!(w.outputs.get(8), Some(&Point { x: 1000, y: 0 }));
        let entry = s.workspace_state.workspaces.get(w.handle).unwrap();
        assert_eq!(entry.coordinates, (Some(i as u32), None, None));
        assert!(!entry.active);
    }
    assert_eq!(s.workspace_state.workspaces.get(13).unwrap().name, "5");
    assert_eq!(s.workspace_state.groups.entries.len(), 1);
    assert_eq!(s.workspace_state.workspaces.entries.len(), 5);
}

#[test]
fn merging_brings_the_amount_in_order() {
    let mut s = shell(ConfigMode::OutputBound, WorkspaceAmount::Static(2));
    let (a, b) = (output(7, 0), output(8, 1000));
    s.add_output(&a);
    s.add_output(&b);
    s.workspaces.get_mut(0, &a).unwrap().floating_layer.map(element(10));
    s.workspaces.get_mut(1, &b).unwrap().tiling_layer.map(element(21));
    s.toplevel_info_state.toplevel_enter_workspace(10, 1);
    s.toplevel_info_state.toplevel_enter_workspace(21, 5);
    s.workspaces.get_mut(0, &a).unwrap().tiling_enabled = false;
    s.workspaces.get_mut(0, &b).unwrap().tiling_enabled = false;
    s.workspaces.get_mut(1, &b).unwrap().fullscreen.insert(8, 21);
    s.set_mode(ConfigMode::Global);
    let set = shared(&s);
    assert_eq!(set.workspaces.len(), 2);
    assert_eq!(set.workspaces[0].handle, 7);
    assert!(!set.workspaces[0].tiling_enabled);
    assert!(set.workspaces[1].tiling_enabled);
    assert_eq!(set.workspaces[0].floating_layer.elements[0].id, 10);
    assert_eq!(set.workspaces[1].tiling_layer.elements[0].id, 21);
    assert_eq!(set.workspaces[1].fullscreen.get(8), Some(&21));
    let mut told = s.toplevel_info_state.workspaces.clone();
    told.sort();
    assert_eq!(told, vec![(10, 7), (21, 8)]);
    assert!(set.workspaces[0].needs_refresh);
}

#[test]
fn no_sets_merge_into_an_empty_one() {
    let mut s = shell(ConfigMode::OutputBound, WorkspaceAmount::Static(2));
    s.set_mode(ConfigMode::Global);
    let set = shared(&s);
    assert_eq!(set.workspaces.len(), 2);
    assert_eq!(set.active, 0);
}

#[test]
fn a_set_is_split_by_outputs() {
    let mut s = shell(ConfigMode::Global, WorkspaceAmount::Static(2));
    let (a, b) = (output(7, 0), output(8, 1000));
    s.add_output(&a);
    s.add_output(&b);
    s.activate(&a, 1);
    {
        let w = s.workspaces.get_mut(0, &a).unwrap();
        w.floating_layer.map(placed(10, 8, 1300, 40));
        w.floating_layer.map(placed(11, 7, 30, 40));
        w.tiling_layer.map(placed(12, 8, 0, 0));
        w.tiling_layer.map(element(13));
        w.fullscreen.insert(7, 11);
        w.fullscreen.insert(8, 10);
        w.tiling_enabled = false;
        w.focus_stack.push((1, 10));
    }
    for id in 10..14 {
        s.toplevel_info_state.toplevel_enter_workspace(id, 1);
    }
    assert!(s.convert_possible(ConfigMode::OutputBound));
    s.convert(ConfigMode::OutputBound);
    // groups 3 and 4, then the parts of the first workspace, 5 and 6, and of the second
    let left = own(&s, 7);
    let right = own(&s, 8);
    assert_eq!((left.group, right.group), (3, 4));
    assert_eq!((left.active, right.active), (1, 1));
    let handles: Vec<u64> = left.workspaces.iter().map(|w| w.handle).collect();
    assert_eq!(handles, vec![5, 7]);
    let handles: Vec<u64> = right.workspaces.iter().map(|w| w.handle).collect();
    assert_eq!(handles, vec![6, 8]);
    let w = &right.workspaces[0];
    assert_eq!(w.floating_layer.elements.len(), 1);
    assert_eq!(w.floating_layer.elements[0].id, 10);
    assert_eq!(w.floating_layer.elements[0].location, Point { x: 300, y: 40 });
    assert_eq!(tiled(right), vec![vec![12], vec![]]);
    assert_eq!(w.fullscreen.get(8), Some(&10));
    assert!(w.fullscreen.get(7).is_none());
    assert!(!w.tiling_enabled);
    assert!(w.focus_stack.is_empty());
    assert!(w.needs_refresh);
    assert_eq!(w.outputs.get(8), Some(&Point { x: 0, y: 0 }));
    assert!(w.outputs.get(7).is_none());
    let w = &left.workspaces[0];
    assert_eq!(w.floating_layer.elements[0].location, Point { x: 30, y: 40 });
    assert_eq!(tiled(left), vec![vec![], vec![]] as Vec<Vec<u64>>);
    let mut told = s.toplevel_info_state.workspaces.clone();
    told.sort();
    assert_eq!(told, vec![(10, 6), (11, 5), (12, 6)]);
    assert_eq!(s.workspace_state.workspaces.get(8).unwrap().name, "2");
    assert!(s.workspace_state.workspaces.get(1).is_none());
    assert!(s.workspace_state.groups.get(0).is_none());
    assert_eq!(s.workspace_state.next, 9);
}

#[test]
fn splitting_without_outputs_leaves_nothing() {
    let mut s = shell(ConfigMode::Global, WorkspaceAmount::Static(2));
    s.toplevel_info_state.toplevel_enter_workspace(10, 1);
    s.set_mode(ConfigMode::OutputBound);
    assert!(s.workspaces.spaces().is_empty());
    assert!(s.workspace_state.groups.entries.is_empty());
    assert!(s.workspace_state.workspaces.entries.is_empty());
    // nothing is withdrawn from windows then
    assert_eq!(s.toplevel_info_state.workspaces, vec![(10, 1)]);
}

#[test]
fn splitting_needs_to_know_where_outputs_lie() {
    let mut s = shell(ConfigMode::Global, WorkspaceAmount::Static(1));
    let a = output(7, 0);
    s.add_output(&a);
    s.active_space_mut(&a).floating_layer.map(placed(10, 7, 5, 5));
    assert!(s.convert_possible(ConfigMode::OutputBound));
    s.active_space_mut(&a).outputs.remove(7);
    assert!(!s.convert_possible(ConfigMode::OutputBound));
}

#[test]
fn the_same_mode_is_a_refresh() {
    let mut s = shell(ConfigMode::Global, WorkspaceAmount::Static(2));
    s.set_mode(ConfigMode::Global);
    let set = shared(&s);
    assert_eq!(set.group, 0);
    assert_eq!(set.workspaces.len(), 2);
    assert!(set.workspaces[0].needs_refresh);
    assert!(!set.workspaces[1].needs_refresh);
}

#[test]
fn an_output_that_is_there_twice_gets_both_parts_in_one_set() {
    let mut s = shell(ConfigMode::Global, WorkspaceAmount::Static(1));
    let a = output(7, 0);
    s.add_output(&a);
    s.add_output(&a);
    s.convert(ConfigMode::OutputBound);
    let set = own(&s, 7);
    assert_eq!(set.group, 3);
    assert_eq!(set.workspaces.len(), 2);
    assert!(s.workspace_state.groups.get(2).is_some());
}

#[test]
fn rows_beyond_the_numbers_stop_a_merge() {
    let mut s = shell(ConfigMode::OutputBound, WorkspaceAmount::Static(200));
    let (a, b) = (output(7, 0), output(8, 1000));
    s.add_output(&a);
    s.add_output(&b);
    assert!(s.convert_possible(ConfigMode::Global));
    s.activate(&a, 100);
    assert!(!s.convert_possible(ConfigMode::Global));
}
