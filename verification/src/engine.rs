//! The grouping engine. Each operation over the window tree is planned
//! here as an explicit command sequence, pinned by a spec-level builder;
//! the caller carries the commands out against the display server in
//! order, substituting the identifier of the one freshly spawned
//! container for `WinRef::Spawned`.

use vstd::prelude::*;

verus! {

/// A window identifier as the display server assigns it.
pub type Window = u32;

/// A window named by a command: either a known identifier, or the tabbed
/// container that the same plan's spawn step creates.
#[derive(Debug, PartialEq, Eq, Structural, Clone, Copy)]
pub enum WinRef {
    Id(Window),
    Spawned,
}

/// One step of a plan, in execution order: reparent a window, clear a
/// window's border decoration (optionally addressing its first ancestor),
/// focus a window, or spawn the plan's tabbed container.
#[derive(Debug, PartialEq, Eq, Structural, Clone, Copy)]
pub enum Cmd {
    Reparent { child: Window, parent: WinRef },
    ClearBorder { wid: Window, first_ancestor: bool },
    Focus { wid: Window },
    Spawn,
}

/// What is known of one input window before planning: its identifier,
/// whether it is already a tabbed container, and (if so) its children in
/// their current order.
pub struct WinInfo {
    pub wid: Window,
    pub tabbed: bool,
    pub children: Vec<Window>,
}

/// Border-clearing commands contributed by one leading window: none if it
/// is tabbed, else one for the window itself.
pub open spec fn clear_contrib(i: WinInfo) -> Seq<Cmd> {
    if i.tabbed {
        Seq::empty()
    } else {
        seq![Cmd::ClearBorder { wid: i.wid, first_ancestor: false }]
    }
}

/// Windows contributed by one leading window to the new grouping: its
/// children if it is tabbed (flattening it), else the window itself.
pub open spec fn pend_contrib(i: WinInfo) -> Seq<Window> {
    if i.tabbed {
        i.children@
    } else {
        seq![i.wid]
    }
}

/// Border-clearing commands of all leading windows, in order.
pub open spec fn clear_cmds(leading: Seq<WinInfo>) -> Seq<Cmd>
    decreases leading.len(),
{
    if leading.len() == 0 {
        Seq::empty()
    } else {
        clear_contrib(leading[0]) + clear_cmds(leading.skip(1))
    }
}

/// The flattened grouping: every leading window's contribution, in order.
pub open spec fn pending_of(leading: Seq<WinInfo>) -> Seq<Window>
    decreases leading.len(),
{
    if leading.len() == 0 {
        Seq::empty()
    } else {
        pend_contrib(leading[0]) + pending_of(leading.skip(1))
    }
}

/// One reparent command per window, in order, all into the same parent.
pub open spec fn reparent_cmds(ws: Seq<Window>, parent: WinRef) -> Seq<Cmd>
    decreases ws.len(),
{
    if ws.len() == 0 {
        Seq::empty()
    } else {
        seq![Cmd::Reparent { child: ws[0], parent }] + reparent_cmds(ws.skip(1), parent)
    }
}

/// The container that a create operation returns: the final input window
/// itself when it is already tabbed, else the spawned container.
pub open spec fn spec_create_target(infos: Seq<WinInfo>) -> WinRef
    recommends
        infos.len() >= 1,
{
    if infos.last().tabbed {
        WinRef::Id(infos.last().wid)
    } else {
        WinRef::Spawned
    }
}

/// Commands that make the final input window the target container: none
/// when it is already tabbed; otherwise clear its border, spawn a fresh
/// container, and reparent it there.
pub open spec fn anchor_cmds(last: WinInfo) -> Seq<Cmd> {
    if last.tabbed {
        Seq::empty()
    } else {
        seq![
            Cmd::ClearBorder { wid: last.wid, first_ancestor: false },
            Cmd::Spawn,
            Cmd::Reparent { child: last.wid, parent: WinRef::Spawned },
        ]
    }
}

/// The full command sequence of a create operation, before the
/// stabilization step: border clears for the leading windows, focus of
/// the final window, the anchor steps, then one reparent per pending
/// window into the target.
pub open spec fn spec_create_cmds(infos: Seq<WinInfo>) -> Seq<Cmd>
    recommends
        infos.len() >= 1,
{
    clear_cmds(infos.drop_last()) + seq![Cmd::Focus { wid: infos.last().wid }] + anchor_cmds(
        infos.last(),
    ) + reparent_cmds(pending_of(infos.drop_last()), spec_create_target(infos))
}

proof fn lemma_clear_cmds_snoc(s: Seq<WinInfo>, x: WinInfo)
    ensures
        clear_cmds(s.push(x)) == clear_cmds(s) + clear_contrib(x),
    decreases s.len(),
{
    if s.len() == 0 {
        assert(s.push(x)[0] == x);
        assert(s.push(x).skip(1) =~= Seq::<WinInfo>::empty());
        assert(clear_cmds(Seq::<WinInfo>::empty()) == Seq::<Cmd>::empty());
        assert(clear_cmds(s.push(x)) == clear_contrib(x) + Seq::<Cmd>::empty());
        assert(clear_cmds(s) + clear_contrib(x) =~= clear_contrib(x) + Seq::<Cmd>::empty());
    } else {
        assert(s.push(x)[0] == s[0]);
        assert(s.push(x).skip(1) =~= s.skip(1).push(x));
        assert(clear_cmds(s.push(x)) == clear_contrib(s[0]) + clear_cmds(s.skip(1).push(x)));
        lemma_clear_cmds_snoc(s.skip(1), x);
        assert(clear_contrib(s[0]) + (clear_cmds(s.skip(1)) + clear_contrib(x)) =~= (clear_contrib(
            s[0],
        ) + clear_cmds(s.skip(1))) + clear_contrib(x));
    }
}

proof fn lemma_pending_snoc(s: Seq<WinInfo>, x: WinInfo)
    ensures
        pending_of(s.push(x)) == pending_of(s) + pend_contrib(x),
    decreases s.len(),
{
    if s.len() == 0 {
        assert(s.push(x)[0] == x);
        assert(s.push(x).skip(1) =~= Seq::<WinInfo>::empty());
        assert(pending_of(Seq::<WinInfo>::empty()) == Seq::<Window>::empty());
        assert(pending_of(s.push(x)) == pend_contrib(x) + Seq::<Window>::empty());
        assert(pending_of(s) + pend_contrib(x) =~= pend_contrib(x) + Seq::<Window>::empty());
    } else {
        assert(s.push(x)[0] == s[0]);
        assert(s.push(x).skip(1) =~= s.skip(1).push(x));
        assert(pending_of(s.push(x)) == pend_contrib(s[0]) + pending_of(s.skip(1).push(x)));
        lemma_pending_snoc(s.skip(1), x);
        assert(pend_contrib(s[0]) + (pending_of(s.skip(1)) + pend_contrib(x)) =~= (pend_contrib(
            s[0],
        ) + pending_of(s.skip(1))) + pend_contrib(x));
    }
}

proof fn lemma_reparent_cmds_snoc(ws: Seq<Window>, x: Window, parent: WinRef)
    ensures
        reparent_cmds(ws.push(x), parent) == reparent_cmds(ws, parent).push(
            Cmd::Reparent { child: x, parent },
        ),
    decreases ws.len(),
{
    if ws.len() == 0 {
        assert(ws.push(x)[0] == x);
        assert(ws.push(x).skip(1) =~= Seq::<Window>::empty());
        assert(reparent_cmds(Seq::<Window>::empty(), parent) == Seq::<Cmd>::empty());
        assert(reparent_cmds(ws.push(x), parent) == seq![Cmd::Reparent { child: x, parent }]
            + Seq::<Cmd>::empty());
        assert(seq![Cmd::Reparent { child: x, parent }] + Seq::<Cmd>::empty() =~= reparent_cmds(
            ws,
            parent,
        ).push(Cmd::Reparent { child: x, parent }));
    } else {
        assert(ws.push(x)[0] == ws[0]);
        assert(ws.push(x).skip(1) =~= ws.skip(1).push(x));
        assert(reparent_cmds(ws.push(x), parent) == seq![Cmd::Reparent { child: ws[0], parent }]
            + reparent_cmds(ws.skip(1).push(x), parent));
        lemma_reparent_cmds_snoc(ws.skip(1), x, parent);
        assert(seq![Cmd::Reparent { child: ws[0], parent }] + reparent_cmds(
            ws.skip(1),
            parent,
        ).push(Cmd::Reparent { child: x, parent }) =~= reparent_cmds(ws, parent).push(
            Cmd::Reparent { child: x, parent },
        ));
    }
}

/// Appends one reparent command per window of `ws[lo..hi]`, in order.
fn push_reparents(cmds: &mut Vec<Cmd>, ws: &Vec<Window>, lo: usize, hi: usize, parent: WinRef)
    requires
        lo <= hi <= ws@.len(),
    ensures
        final(cmds)@ == old(cmds)@ + reparent_cmds(ws@.subrange(lo as int, hi as int), parent),
{
    let mut k: usize = lo;
    proof {
        assert(ws@.subrange(lo as int, lo as int) =~= Seq::<Window>::empty());
        assert(cmds@ =~= cmds@ + reparent_cmds(ws@.subrange(lo as int, lo as int), parent));
    }
    while k < hi
        invariant
            lo <= k <= hi <= ws@.len(),
            cmds@ == old(cmds)@ + reparent_cmds(ws@.subrange(lo as int, k as int), parent),
        decreases hi - k,
    {
        cmds.push(Cmd::Reparent { child: ws[k], parent });
        proof {
            assert(ws@.subrange(lo as int, k as int + 1) =~= ws@.subrange(
                lo as int,
                k as int,
            ).push(ws@[k as int]));
            lemma_reparent_cmds_snoc(ws@.subrange(lo as int, k as int), ws@[k as int], parent);
        }
        k = k + 1;
    }
}

/// A planned create operation: the commands to run, then the container
/// that the operation returns.
pub struct CreatePlan {
    pub cmds: Vec<Cmd>,
    pub target: WinRef,
}

/// Plans a create operation over the input windows, in order; the final
/// window is the anchor, every other window is flattened into the new
/// grouping. After running the commands the caller re-queries the target's
/// children and runs `plan_stabilize` over them.
pub fn plan_create(infos: &Vec<WinInfo>) -> (r: CreatePlan)
    requires
        infos@.len() >= 1,
    ensures
        r.cmds@ == spec_create_cmds(infos@),
        r.target == spec_create_target(infos@),
{
    let n = infos.len();
    let ghost leading = infos@.drop_last();
    let mut cmds: Vec<Cmd> = Vec::new();
    let mut pending: Vec<Window> = Vec::new();
    let mut i: usize = 0;
    proof {
        assert(leading.take(0) =~= Seq::<WinInfo>::empty());
    }
    while i < n - 1
        invariant
            0 <= i <= leading.len(),
            n == infos@.len() >= 1,
            leading == infos@.drop_last(),
            cmds@ == clear_cmds(leading.take(i as int)),
            pending@ == pending_of(leading.take(i as int)),
        decreases n - 1 - i,
    {
        proof {
            assert(leading.take(i as int + 1) =~= leading.take(i as int).push(leading[i as int]));
            assert(leading[i as int] == infos@[i as int]);
            lemma_clear_cmds_snoc(leading.take(i as int), leading[i as int]);
            lemma_pending_snoc(leading.take(i as int), leading[i as int]);
        }
        if infos[i].tabbed {
            let ghost pend0 = pending@;
            let mut j: usize = 0;
            while j < infos[i].children.len()
                invariant
                    0 <= i < infos@.len(),
                    0 <= j <= infos@[i as int].children@.len(),
                    pending@ == pend0 + infos@[i as int].children@.take(j as int),
                decreases infos@[i as int].children@.len() - j,
            {
                pending.push(infos[i].children[j]);
                proof {
                    assert(pend0 + infos@[i as int].children@.take(j as int + 1) =~= (pend0
                        + infos@[i as int].children@.take(j as int)).push(
                        infos@[i as int].children@[j as int],
                    ));
                }
                j = j + 1;
            }
            proof {
                assert(infos@[i as int].children@.take(infos@[i as int].children@.len() as int)
                    =~= infos@[i as int].children@);
                assert(cmds@ =~= clear_cmds(leading.take(i as int + 1)));
            }
        } else {
            cmds.push(Cmd::ClearBorder { wid: infos[i].wid, first_ancestor: false });
            pending.push(infos[i].wid);
            proof {
                assert(pending@ =~= pending_of(leading.take(i as int)) + pend_contrib(
                    leading[i as int],
                ));
            }
        }
        i = i + 1;
    }
    proof {
        assert(leading.take(n - 1) =~= leading);
        assert(infos@.last() == infos@[n - 1]);
    }
    let last_wid = infos[n - 1].wid;
    let last_tabbed = infos[n - 1].tabbed;
    cmds.push(Cmd::Focus { wid: last_wid });
    let target: WinRef;
    if last_tabbed {
        target = WinRef::Id(last_wid);
    } else {
        cmds.push(Cmd::ClearBorder { wid: last_wid, first_ancestor: false });
        cmds.push(Cmd::Spawn);
        cmds.push(Cmd::Reparent { child: last_wid, parent: WinRef::Spawned });
        target = WinRef::Spawned;
    }
    let ghost prefix = cmds@;
    proof {
        assert(prefix =~= clear_cmds(leading) + seq![Cmd::Focus { wid: infos@.last().wid }]
            + anchor_cmds(infos@.last()));
    }
    push_reparents(&mut cmds, &pending, 0, pending.len(), target);
    proof {
        assert(pending@.subrange(0, pending@.len() as int) =~= pending@);
        assert(cmds@ =~= spec_create_cmds(infos@));
    }
    CreatePlan { cmds, target }
}

/// The stabilization step after a create: when the target container holds
/// more than one child, every child is reparented back onto the target;
/// with one child or none, nothing is done.
pub open spec fn spec_stabilize_cmds(children: Seq<Window>, target: Window) -> Seq<Cmd> {
    if children.len() > 1 {
        reparent_cmds(children, WinRef::Id(target))
    } else {
        Seq::empty()
    }
}

/// Plans the stabilization step over the target's freshly queried
/// children.
pub fn plan_stabilize(target: Window, children: &Vec<Window>) -> (r: Vec<Cmd>)
    ensures
        r@ == spec_stabilize_cmds(children@, target),
{
    let mut cmds: Vec<Cmd> = Vec::new();
    if children.len() > 1 {
        push_reparents(&mut cmds, children, 0, children.len(), WinRef::Id(target));
        proof {
            assert(children@.subrange(0, children@.len() as int) =~= children@);
            assert(Seq::<Cmd>::empty() + reparent_cmds(children@, WinRef::Id(target))
                =~= reparent_cmds(children@, WinRef::Id(target)));
        }
    }
    cmds
}

/// Plans a full detach or a fix: every child of a container, in order, is
/// reparented to `dest` — the root to dissolve the grouping, or the
/// container itself to reset a stuck tab layout.
pub fn plan_reparent_all(children: &Vec<Window>, dest: Window) -> (r: Vec<Cmd>)
    ensures
        r@ == reparent_cmds(children@, WinRef::Id(dest)),
{
    let mut cmds: Vec<Cmd> = Vec::new();
    push_reparents(&mut cmds, children, 0, children.len(), WinRef::Id(dest));
    proof {
        assert(children@.subrange(0, children@.len() as int) =~= children@);
        assert(Seq::<Cmd>::empty() + reparent_cmds(children@, WinRef::Id(dest)) =~= reparent_cmds(
            children@,
            WinRef::Id(dest),
        ));
    }
    cmds
}

/// The full command sequence of a detach-current operation on a container
/// whose children (in current order) are given: detach every child to the
/// root, rebuild a fresh container around all but the most recently
/// surfaced child, then surface that child directly under the root.
pub open spec fn spec_detach_cmds(children: Seq<Window>, root: Window) -> Seq<Cmd> {
    if children.len() == 0 {
        Seq::empty()
    } else {
        let active = children.last();
        let rest = children.drop_last();
        reparent_cmds(children, WinRef::Id(root)) + (if rest.len() > 0 {
            seq![Cmd::ClearBorder { wid: rest[0], first_ancestor: true }, Cmd::Spawn]
                + reparent_cmds(rest, WinRef::Spawned)
        } else {
            Seq::empty()
        }) + seq![Cmd::Reparent { child: active, parent: WinRef::Id(root) }]
    }
}

/// A planned detach-current operation: the commands to run, and the
/// detached window, if any.
pub struct DetachPlan {
    pub cmds: Vec<Cmd>,
    pub detached: Option<Window>,
}

/// Plans a detach-current operation over a container's children. With no
/// children nothing is detached and no command is issued.
pub fn plan_detach_current(children: &Vec<Window>, root: Window) -> (r: DetachPlan)
    ensures
        r.cmds@ == spec_detach_cmds(children@, root),
        r.detached == (if children@.len() == 0 {
            None::<Window>
        } else {
            Some(children@.last())
        }),
        children@.len() == 0 ==> r.cmds@.len() == 0,
{
    if children.len() == 0 {
        return DetachPlan { cmds: Vec::new(), detached: None };
    }
    let n = children.len();
    let active = children[n - 1];
    let mut cmds: Vec<Cmd> = Vec::new();
    push_reparents(&mut cmds, children, 0, n, WinRef::Id(root));
    proof {
        assert(children@.subrange(0, n as int) =~= children@);
        assert(Seq::<Cmd>::empty() + reparent_cmds(children@, WinRef::Id(root)) =~= reparent_cmds(
            children@,
            WinRef::Id(root),
        ));
    }
    if n > 1 {
        cmds.push(Cmd::ClearBorder { wid: children[0], first_ancestor: true });
        cmds.push(Cmd::Spawn);
        push_reparents(&mut cmds, children, 0, n - 1, WinRef::Spawned);
        proof {
            assert(children@.subrange(0, n as int - 1) =~= children@.drop_last());
        }
    }
    cmds.push(Cmd::Reparent { child: active, parent: WinRef::Id(root) });
    proof {
        assert(cmds@ =~= spec_detach_cmds(children@, root));
    }
    DetachPlan { cmds, detached: Some(active) }
}

/// The pair of windows that a transfer merges: the child detached from
/// the first container — or that container itself when it had none — and
/// then the second window as the anchor.
pub fn transfer_args(wid0: Window, detached: Option<Window>, wid1: Window) -> (r: (Window, Window))
    ensures
        r.0 == (match detached {
            Some(d) => d,
            None => wid0,
        }),
        r.1 == wid1,
{
    match detached {
        Some(d) => (d, wid1),
        None => (wid0, wid1),
    }
}

} // verus!
