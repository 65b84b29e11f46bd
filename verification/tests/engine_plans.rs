use tabctl::engine::{
    plan_create, plan_detach_current, plan_reparent_all, plan_stabilize, transfer_args, Cmd,
    WinInfo, WinRef,
};

fn plain(wid: u32) -> WinInfo {
    WinInfo { wid, tabbed: false, children: Vec::new() }
}

fn tabbed(wid: u32, children: Vec<u32>) -> WinInfo {
    WinInfo { wid, tabbed: true, children }
}

#[test]
fn create_plain_into_tabbed_anchor() {
    // A plain, B tabbed with children [X, Y]: A joins B's tabs
    let a = 0xa;
    let b = 0xb;
    let plan = plan_create(&vec![plain(a), tabbed(b, vec![0x1, 0x2])]);
    assert_eq!(plan.target, WinRef::Id(b));
    assert_eq!(
        plan.cmds,
        vec![
            Cmd::ClearBorder { wid: a, first_ancestor: false },
            Cmd::Focus { wid: b },
            Cmd::Reparent { child: a, parent: WinRef::Id(b) },
        ]
    );
}

#[test]
fn create_single_plain_spawns_container() {
    // a lone plain window gets a fresh container around it
    let a = 0xa;
    let plan = plan_create(&vec![plain(a)]);
    assert_eq!(plan.target, WinRef::Spawned);
    assert_eq!(
        plan.cmds,
        vec![
            Cmd::Focus { wid: a },
            Cmd::ClearBorder { wid: a, first_ancestor: false },
            Cmd::Spawn,
            Cmd::Reparent { child: a, parent: WinRef::Spawned },
        ]
    );
}

#[test]
fn create_single_tabbed_is_a_focus_only() {
    let w = 0x30;
    let plan = plan_create(&vec![tabbed(w, vec![0x1, 0x2, 0x3])]);
    assert_eq!(plan.target, WinRef::Id(w));
    assert_eq!(plan.cmds, vec![Cmd::Focus { wid: w }]);
}

#[test]
fn create_flattens_tabbed_leading_window() {
    // a tabbed leading window contributes its children, in order, not itself
    let plan = plan_create(&vec![tabbed(0x10, vec![0x1, 0x2]), plain(0x20), plain(0x30)]);
    assert_eq!(plan.target, WinRef::Spawned);
    assert_eq!(
        plan.cmds,
        vec![
            Cmd::ClearBorder { wid: 0x20, first_ancestor: false },
            Cmd::Focus { wid: 0x30 },
            Cmd::ClearBorder { wid: 0x30, first_ancestor: false },
            Cmd::Spawn,
            Cmd::Reparent { child: 0x30, parent: WinRef::Spawned },
            Cmd::Reparent { child: 0x1, parent: WinRef::Spawned },
            Cmd::Reparent { child: 0x2, parent: WinRef::Spawned },
            Cmd::Reparent { child: 0x20, parent: WinRef::Spawned },
        ]
    );
}

#[test]
fn detach_current_with_three_children() {
    // children [a, b, c], c most recently surfaced: c goes to the root,
    // a and b into a fresh container
    let (a, b, c) = (0x1, 0x2, 0x3);
    let root = 0x100;
    let plan = plan_detach_current(&vec![a, b, c], root);
    assert_eq!(plan.detached, Some(c));
    assert_eq!(
        plan.cmds,
        vec![
            Cmd::Reparent { child: a, parent: WinRef::Id(root) },
            Cmd::Reparent { child: b, parent: WinRef::Id(root) },
            Cmd::Reparent { child: c, parent: WinRef::Id(root) },
            Cmd::ClearBorder { wid: a, first_ancestor: true },
            Cmd::Spawn,
            Cmd::Reparent { child: a, parent: WinRef::Spawned },
            Cmd::Reparent { child: b, parent: WinRef::Spawned },
            Cmd::Reparent { child: c, parent: WinRef::Id(root) },
        ]
    );
}

#[test]
fn detach_current_with_no_children() {
    // nothing to detach: no reparent is issued at all
    let plan = plan_detach_current(&Vec::new(), 0x100);
    assert_eq!(plan.detached, None);
    assert!(plan.cmds.is_empty());
}

#[test]
fn detach_current_with_one_child() {
    // a single child is surfaced twice under the root, with no fresh container
    let plan = plan_detach_current(&vec![0x5], 0x100);
    assert_eq!(plan.detached, Some(0x5));
    assert_eq!(
        plan.cmds,
        vec![
            Cmd::Reparent { child: 0x5, parent: WinRef::Id(0x100) },
            Cmd::Reparent { child: 0x5, parent: WinRef::Id(0x100) },
        ]
    );
}

#[test]
fn reparent_all_hits_every_child_in_order() {
    let cmds = plan_reparent_all(&vec![0x1, 0x2, 0x3], 0x40);
    assert_eq!(
        cmds,
        vec![
            Cmd::Reparent { child: 0x1, parent: WinRef::Id(0x40) },
            Cmd::Reparent { child: 0x2, parent: WinRef::Id(0x40) },
            Cmd::Reparent { child: 0x3, parent: WinRef::Id(0x40) },
        ]
    );
}

#[test]
fn stabilize_only_with_more_than_one_child() {
    assert!(plan_stabilize(0x40, &Vec::new()).is_empty());
    assert!(plan_stabilize(0x40, &vec![0x1]).is_empty());
    let cmds = plan_stabilize(0x40, &vec![0x1, 0x2]);
    assert_eq!(
        cmds,
        vec![
            Cmd::Reparent { child: 0x1, parent: WinRef::Id(0x40) },
            Cmd::Reparent { child: 0x2, parent: WinRef::Id(0x40) },
        ]
    );
}

#[test]
fn transfer_uses_detached_child_when_there_is_one() {
    assert_eq!(transfer_args(0x10, Some(0x7), 0x20), (0x7, 0x20));
    assert_eq!(transfer_args(0x10, None, 0x20), (0x10, 0x20));
}
