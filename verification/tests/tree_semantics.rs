use tabctl::engine::{plan_create, plan_detach_current, plan_reparent_all, plan_stabilize, WinInfo, WinRef};
use tabctl::sim::SimTree;

fn plain(wid: u32) -> WinInfo {
    WinInfo { wid, tabbed: false, children: Vec::new() }
}

fn tabbed(wid: u32, children: Vec<u32>) -> WinInfo {
    WinInfo { wid, tabbed: true, children }
}

#[test]
fn create_appends_plain_window_to_tabbed_anchor() {
    // A plain, B tabbed with children [X, Y]: B's children become [X, Y, A]
    let (a, b, x, y) = (0xa, 0xb, 0x1, 0x2);
    let mut tree = SimTree::new();
    tree.add_window(b, vec![x, y]);
    let plan = plan_create(&vec![plain(a), tabbed(b, vec![x, y])]);
    assert_eq!(plan.target, WinRef::Id(b));
    tree.apply(&plan.cmds, 0xdead);
    assert_eq!(tree.children_of(b), vec![x, y, a]);
    // the stabilization step changes nothing
    let children = tree.children_of(b);
    tree.apply(&plan_stabilize(b, &children), 0xdead);
    assert_eq!(tree.children_of(b), vec![x, y, a]);
}

#[test]
fn create_spawns_container_around_lone_plain_window() {
    // A plain, alone: a fresh container T appears with A as its only child
    let a = 0xa;
    let t = 0x50;
    let mut tree = SimTree::new();
    let plan = plan_create(&vec![plain(a)]);
    assert_eq!(plan.target, WinRef::Spawned);
    tree.apply(&plan.cmds, t);
    assert!(tree.contains_window(t));
    assert_eq!(tree.children_of(t), vec![a]);
}

#[test]
fn create_flattens_tabbed_inputs_in_order() {
    // leading windows contribute, in order: a tabbed one its children,
    // a plain one itself; the anchor's children come first
    let plan = plan_create(&vec![
        tabbed(0x10, vec![0x1, 0x2]),
        plain(0x20),
        tabbed(0x30, vec![0x3]),
    ]);
    let mut tree = SimTree::new();
    tree.add_window(0x10, vec![0x1, 0x2]);
    tree.add_window(0x30, vec![0x3]);
    tree.apply(&plan.cmds, 0xdead);
    assert_eq!(plan.target, WinRef::Id(0x30));
    assert_eq!(tree.children_of(0x30), vec![0x3, 0x1, 0x2, 0x20]);
    // the flattened former container is left empty
    assert_eq!(tree.children_of(0x10), Vec::<u32>::new());
}

#[test]
fn detach_current_surfaces_active_and_rebuilds_the_rest() {
    // children [a, b, c]: c ends directly under the root, a and b inside
    // the fresh container, the original container empty
    let (a, b, c) = (0x1, 0x2, 0x3);
    let (w, root, fresh) = (0x10, 0x100, 0x50);
    let mut tree = SimTree::new();
    tree.add_window(w, vec![a, b, c]);
    tree.add_window(root, Vec::new());
    let plan = plan_detach_current(&tree.children_of(w), root);
    assert_eq!(plan.detached, Some(c));
    tree.apply(&plan.cmds, fresh);
    assert_eq!(tree.children_of(root), vec![c]);
    assert_eq!(tree.children_of(fresh), vec![a, b]);
    assert_eq!(tree.children_of(w), Vec::<u32>::new());
}

#[test]
fn detach_all_dissolves_the_grouping() {
    let (w, root) = (0x10, 0x100);
    let mut tree = SimTree::new();
    tree.add_window(w, vec![0x1, 0x2, 0x3]);
    tree.add_window(root, Vec::new());
    let cmds = plan_reparent_all(&tree.children_of(w), root);
    tree.apply(&cmds, 0xdead);
    assert_eq!(tree.children_of(w), Vec::<u32>::new());
    assert_eq!(tree.children_of(root), vec![0x1, 0x2, 0x3]);
}

#[test]
fn fix_leaves_the_child_list_where_it_was() {
    // fix reparents every child back onto the container; doing it twice
    // changes as little as doing it once: nothing
    let w = 0x10;
    let mut tree = SimTree::new();
    tree.add_window(w, vec![0x1, 0x2, 0x3]);
    let first = plan_reparent_all(&tree.children_of(w), w);
    tree.apply(&first, 0xdead);
    assert_eq!(tree.children_of(w), vec![0x1, 0x2, 0x3]);
    let second = plan_reparent_all(&tree.children_of(w), w);
    tree.apply(&second, 0xdead);
    assert_eq!(tree.children_of(w), vec![0x1, 0x2, 0x3]);
}

#[test]
fn detach_on_empty_container_touches_nothing() {
    let (w, root) = (0x10, 0x100);
    let mut tree = SimTree::new();
    tree.add_window(w, Vec::new());
    tree.add_window(root, vec![0x9]);
    let plan = plan_detach_current(&tree.children_of(w), root);
    assert_eq!(plan.detached, None);
    tree.apply(&plan.cmds, 0xdead);
    assert_eq!(tree.children_of(w), Vec::<u32>::new());
    assert_eq!(tree.children_of(root), vec![0x9]);
}
