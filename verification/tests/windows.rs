use cosmic_shell::config::{Config, StaticConfig, WorkspaceMode as ConfigMode};
use cosmic_shell::element::{Element, ElementWindow, Window};
use cosmic_shell::geometry::{Point, Rectangle, Size};
use cosmic_shell::output::Output;
use cosmic_shell::set::WorkspaceAmount;
use cosmic_shell::shell::Shell;
use cosmic_shell::windows::{
    wants_focus, KeyboardInteractivity, LayerKind, MappedLayer, PopupUpdate,
};

fn output(id: u64, x: i32) -> Output {
    Output {
        id,
        geometry: Rectangle { loc: Point { x, y: 0 }, size: Size { w: 1000, h: 500 } },
    }
}

fn window(id: u64, should_be_floating: bool) -> Window {
    Window { id, surface: 100 + id, geometry_loc: Point { x: 2, y: 3 }, should_be_floating }
}

fn shell(floating_default: bool) -> Shell {
    Shell::new(&Config {
        static_conf: StaticConfig {
            workspace_mode: ConfigMode::OutputBound,
            workspace_amount: WorkspaceAmount::Static(2),
            floating_default,
        },
    })
}

fn ids(elements: &Vec<Element>) -> Vec<u64> {
    elements.iter().map(|e| e.id).collect()
}

#[test]
fn a_window_is_mapped_on_the_active_workspace() {
    let mut s = shell(false);
    let o = output(7, 0);
    s.add_output(&o);
    s.activate(&o, 1);
    s.pending_windows.push((window(3, false), 90));
    s.pending_windows.push((window(4, true), 91));
    s.pending_windows.push((window(5, false), 92));
    assert!(s.window_pending(4));
    let mapped = s.map_window(4, &o);
    assert!(!s.window_pending(4));
    assert_eq!((mapped.element, mapped.seat), (4, 91));
    assert_eq!(mapped.reactive, vec![4]);
    let mapped = s.map_window(3, &o);
    assert_eq!((mapped.element, mapped.seat), (3, 90));
    // those that float come first
    assert_eq!(mapped.reactive, vec![4, 3]);
    let w = s.active_space(&o);
    assert_eq!(w.handle, 2);
    assert_eq!(ids(&w.floating_layer.elements), vec![4]);
    assert_eq!(ids(&w.tiling_layer.elements), vec![3]);
    assert_eq!(s.toplevel_info_state.workspaces, vec![(4, 2), (3, 2)]);
    assert_eq!(s.toplevel_info_state.outputs, vec![(4, 7), (3, 7)]);
    assert_eq!(s.pending_windows.len(), 1);
    assert_eq!(s.pending_windows[0].0.id, 5);
}

#[test]
fn all_windows_float_where_that_is_the_default() {
    let mut s = shell(true);
    let o = output(7, 0);
    s.add_output(&o);
    s.pending_windows.push((window(3, false), 90));
    s.map_window(3, &o);
    assert_eq!(ids(&s.active_space(&o).floating_layer.elements), vec![3]);
}

#[test]
fn a_window_is_mapped_on_shared_workspaces_from_any_output() {
    let mut s = Shell::new(&Config {
        static_conf: StaticConfig {
            workspace_mode: ConfigMode::Global,
            workspace_amount: WorkspaceAmount::Static(2),
            floating_default: false,
        },
    });
    let (a, b) = (output(7, 0), output(8, 1000));
    s.add_output(&a);
    s.add_output(&b);
    s.activate(&a, 1);
    s.pending_windows.push((window(3, false), 90));
    s.map_window(3, &b);
    assert_eq!(s.active_space(&a).handle, 2);
    assert_eq!(ids(&s.active_space(&a).tiling_layer.elements), vec![3]);
    assert_eq!(s.toplevel_info_state.workspaces, vec![(3, 2)]);
    assert_eq!(s.toplevel_info_state.outputs, vec![(3, 8)]);
}

#[test]
fn layers_in_front_that_take_input_get_the_focus() {
    let kinds = [
        (LayerKind::Background, false),
        (LayerKind::Bottom, false),
        (LayerKind::Top, true),
        (LayerKind::Overlay, true),
    ];
    for (kind, front) in kinds {
        assert!(!wants_focus(kind, KeyboardInteractivity::Never));
        assert_eq!(wants_focus(kind, KeyboardInteractivity::Exclusive), front);
        assert_eq!(wants_focus(kind, KeyboardInteractivity::OnDemand), front);
    }
}

#[test]
fn a_layer_surface_is_taken_off_the_pending_ones() {
    let mut s = shell(false);
    s.pending_layers.push((1, 7, 90));
    s.pending_layers.push((2, 8, 91));
    assert!(s.layer_pending(2));
    let r = s.map_layer(2, LayerKind::Overlay, KeyboardInteractivity::Exclusive);
    assert_eq!(r, MappedLayer { output: 8, focus: Some(91) });
    assert!(!s.layer_pending(2));
    let r = s.map_layer(1, LayerKind::Bottom, KeyboardInteractivity::Exclusive);
    assert_eq!(r, MappedLayer { output: 7, focus: None });
    assert!(s.pending_layers.is_empty());
}

#[test]
fn the_current_window_is_moved() {
    let mut s = shell(false);
    let o = output(7, 0);
    s.add_output(&o);
    for id in 3..6 {
        s.pending_windows.push((window(id, id == 4), 90));
        s.map_window(id, &o);
    }
    {
        let w = s.active_space_mut(&o);
        w.focus_stack.push((90, 3));
        w.focus_stack.push((90, 4));
        w.focus_stack.push((91, 5));
    }
    assert!(s.move_possible(90, &o, 1));
    // the popups of what stays are to be placed anew
    assert_eq!(s.move_current_window(90, &o, 1), vec![3, 5]);
    let old_space = s.workspaces.get(0, &o).unwrap();
    assert!(old_space.floating_layer.elements.is_empty());
    assert_eq!(ids(&old_space.tiling_layer.elements), vec![3, 5]);
    let new_space = s.workspaces.get(1, &o).unwrap();
    assert_eq!(ids(&new_space.floating_layer.elements), vec![4]);
    let mut told = s.toplevel_info_state.workspaces.clone();
    told.sort();
    assert_eq!(told, vec![(3, 1), (4, 2), (5, 1)]);
    assert!(!s.workspace_state.workspaces.get(2).unwrap().hidden);
    assert!(s.workspace_state.workspaces.get(1).unwrap().hidden);
}

#[test]
fn nothing_moves_to_where_it_is() {
    let mut s = shell(false);
    let o = output(7, 0);
    s.add_output(&o);
    s.pending_windows.push((window(3, false), 90));
    s.map_window(3, &o);
    s.active_space_mut(&o).focus_stack.push((90, 3));
    assert!(s.move_current_window(90, &o, 0).is_empty());
    // nor for a seat without a focus
    assert!(s.move_possible(91, &o, 5));
    assert!(s.move_current_window(91, &o, 5).is_empty());
    assert_eq!(ids(&s.active_space(&o).tiling_layer.elements), vec![3]);
    assert!(!s.move_possible(90, &o, 5));
    assert!(!s.move_possible(90, &output(9, 0), 0));
    // what has the focus and is not there cannot be moved
    s.active_space_mut(&o).focus_stack.push((90, 77));
    assert!(!s.move_possible(90, &o, 1));
}

#[test]
fn popups_are_placed_by_the_layout_that_follows() {
    let mut s = shell(false);
    let o = output(7, 100);
    s.add_output(&o);
    s.pending_windows.push((window(3, true), 90));
    let mapped = s.map_window(3, &o);
    // the layout puts the window somewhere, and only then is its place known
    s.active_space_mut(&o).floating_layer.elements[0].location = Point { x: 400, y: 200 };
    assert_eq!(
        s.update_reactive_popups(mapped.reactive[0]),
        vec![PopupUpdate { window: 3, location: Point { x: 402, y: 203 } }]
    );
}

#[test]
fn popups_follow_the_windows_of_an_element() {
    let mut s = shell(false);
    let o = output(7, 0);
    s.add_output(&o);
    let mut e = Element::from_window(window(3, false));
    e.location = Point { x: 100, y: 200 };
    e.windows.push(ElementWindow {
        window: 9,
        offset: Point { x: 30, y: 40 },
        geometry_loc: Point { x: -1, y: -2 },
    });
    s.active_space_mut(&o).tiling_layer.map(e);
    assert_eq!(
        s.update_reactive_popups(3),
        vec![
            PopupUpdate { window: 3, location: Point { x: 102, y: 203 } },
            PopupUpdate { window: 9, location: Point { x: 129, y: 238 } },
        ]
    );
    assert!(s.update_reactive_popups(4).is_empty());
}

#[test]
fn elements_are_found_by_name_and_by_surface() {
    let mut s = shell(false);
    let (a, b) = (output(7, 0), output(8, 1000));
    s.add_output(&a);
    s.add_output(&b);
    let mut e = Element::from_window(window(3, false));
    e.outputs = vec![7, 8];
    s.active_space_mut(&a).tiling_layer.map(e);
    let mut e = Element::from_window(window(4, false));
    e.surfaces.push(103);
    e.outputs = vec![8];
    s.active_space_mut(&b).floating_layer.map(e);
    assert_eq!(s.element_for_surface(103).unwrap().id, 3);
    assert_eq!(s.element_for_surface(104).unwrap().id, 4);
    assert!(s.element_for_surface(105).is_none());
    assert_eq!(s.space_for(4).unwrap().handle, 4);
    assert!(s.space_for(5).is_none());
    s.space_for_mut(4).unwrap().tiling_enabled = false;
    assert!(!s.active_space(&b).tiling_enabled);
    assert!(s.space_for_mut(5).is_none());
    // without a layer surface, all elements that have it say where it is
    assert_eq!(s.outputs_for_surface(103, &vec![]), vec![7, 8, 8]);
    assert_eq!(s.outputs_for_surface(104, &vec![]), vec![8]);
    assert!(s.outputs_for_surface(105, &vec![]).is_empty());
    // with one, the first output that has it
    assert_eq!(s.outputs_for_surface(103, &vec![9, 8, 7]), vec![7]);
    assert_eq!(s.outputs_for_surface(103, &vec![9]), vec![7, 8, 8]);
}
