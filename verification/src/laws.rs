//! Laws of the grouping engine, proved over the tree semantics: what a
//! whole planned operation does to the window tree when its commands run
//! in order.

use vstd::prelude::*;
use crate::engine::{
    Cmd, WinInfo, WinRef, Window, anchor_cmds, clear_cmds, clear_contrib, pending_of,
    reparent_cmds, spec_create_cmds, spec_create_target, spec_detach_cmds, spec_stabilize_cmds,
};
use crate::model::{
    TreeView, absent, all_absent, apply_cmd, apply_cmds, distinct, lemma_apply_cmds_append,
    lemma_apply_one, lemma_fix_rotation, lemma_reparent_seq, lemma_without_absent,
    lemma_without_all_absent, lemma_without_all_append, lemma_without_all_prefix,
    lemma_without_append, ref_win, without, without_all,
};

verus! {

proof fn lemma_clear_cmds_noop(t: TreeView, leading: Seq<WinInfo>, spawned: Window)
    ensures
        apply_cmds(t, clear_cmds(leading), spawned) == t,
    decreases leading.len(),
{
    if leading.len() == 0 {
        assert(apply_cmds(t, clear_cmds(leading), spawned) == t);
    } else {
        lemma_apply_cmds_append(t, clear_contrib(leading[0]), clear_cmds(leading.skip(1)), spawned);
        if !leading[0].tabbed {
            let cb = Cmd::ClearBorder { wid: leading[0].wid, first_ancestor: false };
            assert(clear_contrib(leading[0]) == seq![cb]);
            lemma_apply_one(t, cb, spawned);
        } else {
            assert(apply_cmds(t, clear_contrib(leading[0]), spawned) == t);
        }
        lemma_clear_cmds_noop(t, leading.skip(1), spawned);
    }
}

/// Create groups exactly the flattened inputs. Running a create plan's
/// commands leaves the target container's children as: the anchor's own
/// children (when the anchor was already tabbed) or the anchor itself
/// (when a fresh container was spawned around it), followed by every
/// leading window's contribution in input order — a tabbed leading window
/// contributes its children, any other contributes itself. The
/// stabilization step over the re-queried children leaves that list
/// exactly as it was.
pub proof fn lemma_create_children(t: TreeView, infos: Seq<WinInfo>, spawned: Window)
    requires
        infos.len() >= 1,
        distinct(pending_of(infos.drop_last())),
        infos.last().tabbed ==> t.dom().contains(infos.last().wid) && all_absent(
            t[infos.last().wid],
            pending_of(infos.drop_last()),
        ) && distinct(t[infos.last().wid]),
        !infos.last().tabbed ==> absent(pending_of(infos.drop_last()), infos.last().wid) && absent(
            pending_of(infos.drop_last()),
            spawned,
        ) && spawned != infos.last().wid,
    ensures
        apply_cmds(t, spec_create_cmds(infos), spawned).dom().contains(
            ref_win(spec_create_target(infos), spawned),
        ),
        apply_cmds(t, spec_create_cmds(infos), spawned)[ref_win(
            spec_create_target(infos),
            spawned,
        )] == (if infos.last().tabbed {
            t[infos.last().wid]
        } else {
            seq![infos.last().wid]
        }) + pending_of(infos.drop_last()),
        apply_cmds(
            apply_cmds(t, spec_create_cmds(infos), spawned),
            spec_stabilize_cmds(
                apply_cmds(t, spec_create_cmds(infos), spawned)[ref_win(
                    spec_create_target(infos),
                    spawned,
                )],
                ref_win(spec_create_target(infos), spawned),
            ),
            spawned,
        )[ref_win(spec_create_target(infos), spawned)] == (if infos.last().tabbed {
            t[infos.last().wid]
        } else {
            seq![infos.last().wid]
        }) + pending_of(infos.drop_last()),
{
    let leading = infos.drop_last();
    let last = infos.last();
    let pending = pending_of(leading);
    let target = ref_win(spec_create_target(infos), spawned);
    let focus = Cmd::Focus { wid: last.wid };
    let cmds = spec_create_cmds(infos);
    let base: Seq<Window> = if last.tabbed {
        t[last.wid]
    } else {
        seq![last.wid]
    };

    // peel the command sequence apart
    lemma_apply_cmds_append(
        t,
        clear_cmds(leading) + seq![focus] + anchor_cmds(last),
        reparent_cmds(pending, spec_create_target(infos)),
        spawned,
    );
    lemma_apply_cmds_append(t, clear_cmds(leading) + seq![focus], anchor_cmds(last), spawned);
    lemma_apply_cmds_append(t, clear_cmds(leading), seq![focus], spawned);
    lemma_clear_cmds_noop(t, leading, spawned);
    lemma_apply_one(t, focus, spawned);
    assert(apply_cmds(t, clear_cmds(leading) + seq![focus], spawned) == t);

    // the anchor steps leave the target in the tree with `base` as its list
    let ta = apply_cmds(t, clear_cmds(leading) + seq![focus] + anchor_cmds(last), spawned);
    if last.tabbed {
        assert(anchor_cmds(last) == Seq::<Cmd>::empty());
        assert(ta == t);
        assert(target == last.wid);
    } else {
        let cb = Cmd::ClearBorder { wid: last.wid, first_ancestor: false };
        let rp = Cmd::Reparent { child: last.wid, parent: WinRef::Spawned };
        assert(anchor_cmds(last) == seq![cb, Cmd::Spawn, rp]);
        let s0 = seq![cb, Cmd::Spawn, rp];
        let s1 = seq![Cmd::Spawn, rp];
        assert(s0[0] == cb);
        assert(s0.skip(1) =~= s1);
        assert(apply_cmd(t, cb, spawned) == t);
        assert(apply_cmds(t, s0, spawned) == apply_cmds(t, s1, spawned));
        let ts = t.insert(spawned, Seq::empty());
        assert(s1[0] == Cmd::Spawn);
        assert(s1.skip(1) =~= seq![rp]);
        assert(apply_cmd(t, Cmd::Spawn, spawned) == ts);
        assert(apply_cmds(t, s1, spawned) == apply_cmds(ts, seq![rp], spawned));
        lemma_apply_one(ts, rp, spawned);
        assert(apply_cmds(t, anchor_cmds(last), spawned) == apply_cmd(ts, rp, spawned));
        let t1 = apply_cmd(ts, rp, spawned);
        assert(target == spawned);
        assert(ts[spawned] == Seq::<Window>::empty());
        assert(without(ts[spawned], last.wid) =~= Seq::<Window>::empty());
        assert(t1[spawned] =~= seq![last.wid]);
        assert(t1.dom().contains(spawned));
        assert(ta == t1);
    }
    assert(ta.dom().contains(target));
    assert(ta[target] == base);

    // reparenting the pending windows appends them in order
    assert(all_absent(ta[target], pending)) by {
        if last.tabbed {
        } else {
            assert forall|j: int| 0 <= j < pending.len() implies absent(base, pending[j]) by {
                assert(pending[j] != last.wid);
            }
        }
    }
    lemma_reparent_seq(ta, pending, spec_create_target(infos), spawned);
    let tf = apply_cmds(t, cmds, spawned);
    assert(tf == apply_cmds(ta, reparent_cmds(pending, spec_create_target(infos)), spawned));
    assert(tf[target] == base + pending);
    assert(tf.dom().contains(target));

    // the stabilization step rotates the list back to itself
    assert(distinct(base + pending)) by {
        if last.tabbed {
            assert(forall|i: int| 0 <= i < base.len() ==> (base + pending)[i] == base[i]);
            assert(forall|j: int|
                0 <= j < pending.len() ==> (base + pending)[base.len() + j] == pending[j]);
        } else {
            assert(forall|j: int| 0 <= j < pending.len() ==> pending[j] != last.wid);
        }
    }
    if (base + pending).len() > 1 {
        assert(spec_stabilize_cmds(tf[target], target) == reparent_cmds(
            base + pending,
            WinRef::Id(target),
        ));
        assert(tf[target] == (base + pending) + Seq::<Window>::empty()) by {
            assert((base + pending) + Seq::<Window>::empty() =~= base + pending);
        }
        assert(distinct((base + pending) + Seq::<Window>::empty())) by {
            assert((base + pending) + Seq::<Window>::empty() =~= base + pending);
        }
        lemma_fix_rotation(tf, target, base + pending, Seq::empty(), spawned);
        assert(Seq::<Window>::empty() + (base + pending) =~= base + pending);
    } else {
        assert(spec_stabilize_cmds(tf[target], target) == Seq::<Cmd>::empty());
    }
}

/// Create on a single, already tabbed window is idempotent: the window
/// itself stays the target and its child list is untouched, both by the
/// create commands (which reduce to one focus request) and by the
/// stabilization step over its re-queried children.
pub proof fn lemma_create_single_tabbed(t: TreeView, w: WinInfo, spawned: Window)
    requires
        w.tabbed,
        t.dom().contains(w.wid),
        distinct(t[w.wid]),
    ensures
        spec_create_target(seq![w]) == WinRef::Id(w.wid),
        apply_cmds(t, spec_create_cmds(seq![w]), spawned) == t,
        apply_cmds(
            t,
            spec_stabilize_cmds(t[w.wid], w.wid),
            spawned,
        )[w.wid] == t[w.wid],
{
    let infos = seq![w];
    assert(infos.last() == w);
    assert(infos.drop_last() =~= Seq::<WinInfo>::empty());
    assert(clear_cmds(infos.drop_last()) == Seq::<Cmd>::empty());
    assert(pending_of(infos.drop_last()) == Seq::<Window>::empty());
    assert(anchor_cmds(w) == Seq::<Cmd>::empty());
    assert(reparent_cmds(Seq::<Window>::empty(), spec_create_target(infos))
        == Seq::<Cmd>::empty());
    let focus = Cmd::Focus { wid: w.wid };
    assert(spec_create_cmds(infos) =~= seq![focus]);
    lemma_apply_one(t, focus, spawned);
    assert(apply_cmds(t, spec_create_cmds(infos), spawned) == t);
    if t[w.wid].len() > 1 {
        assert(t[w.wid] == t[w.wid] + Seq::<Window>::empty()) by {
            assert(t[w.wid] + Seq::<Window>::empty() =~= t[w.wid]);
        }
        assert(distinct(t[w.wid] + Seq::<Window>::empty())) by {
            assert(t[w.wid] + Seq::<Window>::empty() =~= t[w.wid]);
        }
        lemma_fix_rotation(t, w.wid, t[w.wid], Seq::empty(), spawned);
        assert(Seq::<Window>::empty() + t[w.wid] =~= t[w.wid]);
    } else {
        assert(spec_stabilize_cmds(t[w.wid], w.wid) == Seq::<Cmd>::empty());
    }
}

/// Fix is idempotent: reparenting a container's children back onto it
/// leaves the child list exactly as it was, so a second fix — planned
/// over the re-queried children — leaves the same list again.
pub proof fn lemma_fix_idempotent(t: TreeView, w: Window, s1: Window, s2: Window)
    requires
        t.dom().contains(w),
        distinct(t[w]),
    ensures
        apply_cmds(t, reparent_cmds(t[w], WinRef::Id(w)), s1)[w] == t[w],
        apply_cmds(
            apply_cmds(t, reparent_cmds(t[w], WinRef::Id(w)), s1),
            reparent_cmds(
                apply_cmds(t, reparent_cmds(t[w], WinRef::Id(w)), s1)[w],
                WinRef::Id(w),
            ),
            s2,
        )[w] == t[w],
{
    assert(t[w] == t[w] + Seq::<Window>::empty()) by {
        assert(t[w] + Seq::<Window>::empty() =~= t[w]);
    }
    assert(distinct(t[w] + Seq::<Window>::empty())) by {
        assert(t[w] + Seq::<Window>::empty() =~= t[w]);
    }
    lemma_fix_rotation(t, w, t[w], Seq::empty(), s1);
    let t1 = apply_cmds(t, reparent_cmds(t[w], WinRef::Id(w)), s1);
    assert(Seq::<Window>::empty() + t[w] =~= t[w]);
    assert(t1[w] == t[w]);
    assert(t1.dom().contains(w));
    assert(t1[w] == t1[w] + Seq::<Window>::empty()) by {
        assert(t1[w] + Seq::<Window>::empty() =~= t1[w]);
    }
    assert(distinct(t1[w] + Seq::<Window>::empty())) by {
        assert(t1[w] + Seq::<Window>::empty() =~= t1[w]);
    }
    lemma_fix_rotation(t1, w, t1[w], Seq::empty(), s2);
    assert(Seq::<Window>::empty() + t1[w] =~= t1[w]);
}

/// Detaching the current child of a container with at least two children
/// surfaces the most recently surfaced child directly under the root,
/// rebuilds the remaining children — in their old order — inside the
/// freshly spawned container, and leaves the original container empty.
pub proof fn lemma_detach_current(
    t: TreeView,
    w: Window,
    children: Seq<Window>,
    root: Window,
    spawned: Window,
)
    requires
        children.len() >= 2,
        t.dom().contains(w),
        t.dom().contains(root),
        t[w] == children,
        distinct(children),
        all_absent(t[root], children),
        w != root,
        spawned != root,
        spawned != w,
        absent(children, spawned),
    ensures
        apply_cmds(t, spec_detach_cmds(children, root), spawned)[root] == t[root].push(
            children.last(),
        ),
        apply_cmds(t, spec_detach_cmds(children, root), spawned)[spawned] == children.drop_last(),
        apply_cmds(t, spec_detach_cmds(children, root), spawned)[w] == Seq::<Window>::empty(),
{
    let active = children.last();
    let rest = children.drop_last();
    let cb = Cmd::ClearBorder { wid: rest[0], first_ancestor: true };
    let last_cmd = Cmd::Reparent { child: active, parent: WinRef::Id(root) };
    let part_a = reparent_cmds(children, WinRef::Id(root));
    let part_b = seq![cb, Cmd::Spawn] + reparent_cmds(rest, WinRef::Spawned);
    assert(spec_detach_cmds(children, root) == part_a + part_b + seq![last_cmd]);
    lemma_apply_cmds_append(t, part_a + part_b, seq![last_cmd], spawned);
    lemma_apply_cmds_append(t, part_a, part_b, spawned);

    // detach all children to the root
    assert(ref_win(WinRef::Id(root), spawned) == root);
    lemma_reparent_seq(t, children, WinRef::Id(root), spawned);
    let t1 = apply_cmds(t, part_a, spawned);
    assert(t1[root] == t[root] + children);
    assert(children.take(children.len() as int) =~= children);
    lemma_without_all_prefix(children, children.len() as int);
    assert(children.skip(children.len() as int) =~= Seq::<Window>::empty());
    assert(t1[w] == Seq::<Window>::empty());
    assert(t1.dom().contains(spawned) == t.dom().contains(spawned));

    // spawn the fresh container and move the rest into it
    lemma_apply_cmds_append(t1, seq![cb, Cmd::Spawn], reparent_cmds(rest, WinRef::Spawned), spawned);
    assert(seq![cb, Cmd::Spawn][0] == cb);
    assert(seq![cb, Cmd::Spawn].skip(1) =~= seq![Cmd::Spawn]);
    let t2 = t1.insert(spawned, Seq::empty());
    assert(apply_cmds(t1, seq![cb, Cmd::Spawn], spawned) == t2) by {
        lemma_apply_one(apply_cmd(t1, cb, spawned), Cmd::Spawn, spawned);
        assert(seq![Cmd::Spawn][0] == Cmd::Spawn);
        assert(seq![Cmd::Spawn].skip(1) =~= Seq::<Cmd>::empty());
    }
    assert(distinct(rest)) by {
        assert(forall|i: int| 0 <= i < rest.len() ==> rest[i] == children[i]);
    }
    assert(all_absent(t2[spawned], rest));
    assert(ref_win(WinRef::Spawned, spawned) == spawned);
    lemma_reparent_seq(t2, rest, WinRef::Spawned, spawned);
    let t3 = apply_cmds(t2, reparent_cmds(rest, WinRef::Spawned), spawned);
    assert(t3[spawned] == Seq::<Window>::empty() + rest);
    assert(Seq::<Window>::empty() + rest =~= rest);

    // the root keeps its own children plus the active one
    assert(t2.dom().contains(root));
    assert(t2.dom().contains(w));
    assert(t3[root] == without_all(t2[root], rest));
    assert(t3[w] == without_all(t2[w], rest));
    assert(t2[root] == t[root] + children);
    lemma_without_all_append(t[root], children, rest);
    assert(all_absent(t[root], rest)) by {
        assert forall|j: int| 0 <= j < rest.len() implies absent(t[root], rest[j]) by {
            assert(rest[j] == children[j]);
        }
    }
    lemma_without_all_absent(t[root], rest);
    assert(rest =~= children.take(children.len() - 1));
    lemma_without_all_prefix(children, children.len() - 1);
    assert(children.skip(children.len() - 1) =~= seq![active]);
    assert(t3[root] == t[root] + seq![active]);
    assert(t2[w] == Seq::<Window>::empty());
    lemma_without_all_absent(Seq::<Window>::empty(), rest);
    assert(t3[w] == Seq::<Window>::empty());

    // finally the active child is surfaced under the root
    let t4 = apply_cmds(t, spec_detach_cmds(children, root), spawned);
    lemma_apply_one(t3, last_cmd, spawned);
    assert(t4 == apply_cmd(t3, last_cmd, spawned));
    assert(absent(t[root], active));
    lemma_without_append(t[root], seq![active], active);
    lemma_without_absent(t[root], active);
    assert(without(seq![active], active) =~= Seq::<Window>::empty()) by {
        assert(seq![active][0] == active);
        assert(seq![active].skip(1) =~= Seq::<Window>::empty());
        assert(without(Seq::<Window>::empty(), active) == Seq::<Window>::empty());
    }
    assert(without(t3[root], active) =~= t[root]);
    assert(t4[root] =~= t[root].push(active));
    assert(absent(rest, active)) by {
        assert forall|i: int| 0 <= i < rest.len() implies rest[i] != active by {
            assert(rest[i] == children[i]);
            assert(active == children[children.len() - 1]);
        }
    }
    lemma_without_absent(rest, active);
    assert(t4[spawned] == rest);
    assert(t4[w] == without(Seq::<Window>::empty(), active));
    assert(t4[w] == Seq::<Window>::empty());
}

/// Detaching the current child of a container with exactly one child
/// surfaces that child directly under the root and leaves the container
/// empty; no fresh container is spawned.
pub proof fn lemma_detach_single(
    t: TreeView,
    w: Window,
    children: Seq<Window>,
    root: Window,
    spawned: Window,
)
    requires
        children.len() == 1,
        t.dom().contains(w),
        t.dom().contains(root),
        t[w] == children,
        all_absent(t[root], children),
        w != root,
    ensures
        apply_cmds(t, spec_detach_cmds(children, root), spawned)[root] == t[root].push(
            children.last(),
        ),
        apply_cmds(t, spec_detach_cmds(children, root), spawned)[w] == Seq::<Window>::empty(),
{
    let active = children.last();
    let last_cmd = Cmd::Reparent { child: active, parent: WinRef::Id(root) };
    let part_a = reparent_cmds(children, WinRef::Id(root));
    assert(children.drop_last().len() == 0);
    assert(spec_detach_cmds(children, root) == part_a + Seq::<Cmd>::empty() + seq![last_cmd]);
    assert(part_a + Seq::<Cmd>::empty() =~= part_a);
    lemma_apply_cmds_append(t, part_a, seq![last_cmd], spawned);

    assert(ref_win(WinRef::Id(root), spawned) == root);
    assert(distinct(children));
    lemma_reparent_seq(t, children, WinRef::Id(root), spawned);
    let t1 = apply_cmds(t, part_a, spawned);
    assert(t1[root] == t[root] + children);
    assert(children.take(children.len() as int) =~= children);
    lemma_without_all_prefix(children, children.len() as int);
    assert(children.skip(children.len() as int) =~= Seq::<Window>::empty());
    assert(t1[w] == Seq::<Window>::empty());

    let t2 = apply_cmds(t, spec_detach_cmds(children, root), spawned);
    lemma_apply_one(t1, last_cmd, spawned);
    assert(t2 == apply_cmd(t1, last_cmd, spawned));
    assert(children =~= seq![active]);
    assert(absent(t[root], active));
    lemma_without_append(t[root], seq![active], active);
    lemma_without_absent(t[root], active);
    assert(without(seq![active], active) =~= Seq::<Window>::empty()) by {
        assert(seq![active][0] == active);
        assert(seq![active].skip(1) =~= Seq::<Window>::empty());
        assert(without(Seq::<Window>::empty(), active) == Seq::<Window>::empty());
    }
    assert(without(t1[root], active) =~= t[root]);
    assert(t2[root] =~= t[root].push(active));
    assert(t2[w] == without(Seq::<Window>::empty(), active));
    assert(t2[w] == Seq::<Window>::empty());
}

} // verus!

