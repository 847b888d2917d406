use cosmic_shell::config::{Config, StaticConfig, WorkspaceMode as ConfigMode};
use cosmic_shell::geometry::{Point, Rectangle, Size};
use cosmic_shell::output::Output;
use cosmic_shell::set::WorkspaceAmount;
use cosmic_shell::shell::Shell;

fn rect(x: i32, y: i32, w: i32, h: i32) -> Rectangle {
    Rectangle { loc: Point { x, y }, size: Size { w, h } }
}

fn output(id: u64, x: i32, y: i32, w: i32, h: i32) -> Output {
    Output { id, geometry: rect(x, y, w, h) }
}

fn shell(mode: ConfigMode) -> Shell {
    Shell::new(&Config {
        static_conf: StaticConfig {
            workspace_mode: mode,
            workspace_amount: WorkspaceAmount::Static(1),
            floating_default: false,
        },
    })
}

#[test]
fn points_saturate() {
    let a = Point { x: i32::MAX, y: -5 };
    let b = Point { x: 1, y: 7 };
    assert_eq!(a.offset_by(b), Point { x: i32::MAX, y: 2 });
    let c = Point { x: i32::MIN, y: 3 };
    assert_eq!(c.relative_to(b), Point { x: i32::MIN, y: -4 });
}

#[test]
fn rectangles_merge_into_the_smallest_around() {
    let a = rect(0, 0, 100, 50);
    let b = rect(100, -20, 30, 40);
    assert_eq!(a.merge(b), rect(0, -20, 130, 70));
    assert_eq!(b.merge(a), rect(0, -20, 130, 70));
    assert_eq!(a.merge(rect(10, 10, 5, 5)), a);
}

#[test]
fn the_far_side_of_a_merged_rectangle_is_cut_off() {
    let a = rect(i32::MIN, 0, 10, 10);
    let b = rect(i32::MAX - 5, 0, 10, 10);
    let r = a.merge(b);
    assert_eq!(r.loc.x, i32::MIN);
    assert_eq!(r.size.w, i32::MAX);
}

#[test]
fn no_outputs_make_no_space() {
    assert_eq!(shell(ConfigMode::Global).global_space(), rect(0, 0, 0, 0));
}

#[test]
fn the_global_space_is_around_all_outputs() {
    let mut s = shell(ConfigMode::OutputBound);
    s.add_output(&output(1, 0, 0, 1920, 1080));
    assert_eq!(s.global_space(), rect(0, 0, 1920, 1080));
    s.add_output(&output(2, -1280, 200, 1280, 1024));
    s.add_output(&output(3, 1920, -100, 800, 600));
    assert_eq!(s.global_space(), rect(-1280, -100, 4000, 1324));
    assert_eq!(s.outputs().len(), 3);
    assert_eq!(s.outputs()[1].id, 2);
}

#[test]
fn places_are_relative_to_the_output_where_it_has_its_own_workspaces() {
    let s = shell(ConfigMode::OutputBound);
    let o = output(1, 1920, 100, 800, 600);
    let p = Point { x: 2000, y: 150 };
    let q = s.map_global_to_space(p, &o);
    assert_eq!(q, Point { x: 80, y: 50 });
    assert_eq!(s.map_space_to_global(q, &o), p);
    assert_eq!(s.map_global_to_space(o.current_location(), &o), Point { x: 0, y: 0 });
}

#[test]
fn places_are_global_where_outputs_share_workspaces() {
    let s = shell(ConfigMode::Global);
    let o = output(1, 1920, 100, 800, 600);
    let p = Point { x: 2000, y: 150 };
    assert_eq!(s.map_global_to_space(p, &o), p);
    assert_eq!(s.map_space_to_global(p, &o), p);
}

#[test]
fn places_out_of_range_do_not_map_back() {
    let s = shell(ConfigMode::OutputBound);
    let o = output(1, -10, 0, 800, 600);
    let p = Point { x: i32::MAX, y: 0 };
    let q = s.map_global_to_space(p, &o);
    assert_eq!(q, Point { x: i32::MAX, y: 0 });
    assert_eq!(s.map_space_to_global(q, &o), Point { x: i32::MAX - 10, y: 0 });
}
