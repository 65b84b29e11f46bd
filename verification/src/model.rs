//! The window tree as contracts see it, and the effect of a command
//! sequence on it. Each window of interest maps to its ordered children;
//! a reparent removes the moved window from every child list and appends
//! it to the new parent's, as the display server does.

use vstd::prelude::*;
use crate::engine::{Cmd, WinRef, Window, reparent_cmds};

verus! {

/// A fragment of the window forest: each window of interest, with its
/// children in order.
pub type TreeView = Map<Window, Seq<Window>>;

/// The concrete window a command's parent reference names, given the
/// identifier of the container that the plan spawned.
pub open spec fn ref_win(r: WinRef, spawned: Window) -> Window {
    match r {
        WinRef::Id(w) => w,
        WinRef::Spawned => spawned,
    }
}

/// No window occurs twice.
pub open spec fn distinct(s: Seq<Window>) -> bool {
    forall|i: int, j: int| 0 <= i < j < s.len() ==> s[i] != s[j]
}

/// `c` occurs nowhere in `s`.
pub open spec fn absent(s: Seq<Window>, c: Window) -> bool {
    forall|i: int| 0 <= i < s.len() ==> s[i] != c
}

/// No window of `ws` occurs in `s`.
pub open spec fn all_absent(s: Seq<Window>, ws: Seq<Window>) -> bool {
    forall|j: int| 0 <= j < ws.len() ==> absent(s, ws[j])
}

/// `s` with every occurrence of `c` removed.
pub open spec fn without(s: Seq<Window>, c: Window) -> Seq<Window>
    decreases s.len(),
{
    if s.len() == 0 {
        Seq::empty()
    } else if s[0] == c {
        without(s.skip(1), c)
    } else {
        seq![s[0]] + without(s.skip(1), c)
    }
}

/// `s` with every occurrence of every window of `ws` removed.
pub open spec fn without_all(s: Seq<Window>, ws: Seq<Window>) -> Seq<Window>
    decreases ws.len(),
{
    if ws.len() == 0 {
        s
    } else {
        without_all(without(s, ws[0]), ws.skip(1))
    }
}

/// Effect of one command: a reparent removes the moved window from every
/// child list and appends it to its new parent's; a spawn brings in the
/// fresh container with no children; border and focus commands leave the
/// tree alone.
pub open spec fn apply_cmd(t: TreeView, cmd: Cmd, spawned: Window) -> TreeView {
    match cmd {
        Cmd::Reparent { child, parent } => {
            let p = ref_win(parent, spawned);
            let t1 = Map::new(|w: Window| t.dom().contains(w), |w: Window| without(t[w], child));
            t1.insert(p, t1[p].push(child))
        },
        Cmd::Spawn => t.insert(spawned, Seq::empty()),
        Cmd::ClearBorder { wid: _, first_ancestor: _ } => t,
        Cmd::Focus { wid: _ } => t,
    }
}

/// Effect of a command sequence, first command first.
pub open spec fn apply_cmds(t: TreeView, cmds: Seq<Cmd>, spawned: Window) -> TreeView
    decreases cmds.len(),
{
    if cmds.len() == 0 {
        t
    } else {
        apply_cmds(apply_cmd(t, cmds[0], spawned), cmds.skip(1), spawned)
    }
}

/// A command list is runnable on a tree when, at each step, the window a
/// reparent moves into is a window of interest.
pub open spec fn cmds_ok(t: TreeView, cmds: Seq<Cmd>, spawned: Window) -> bool
    decreases cmds.len(),
{
    if cmds.len() == 0 {
        true
    } else {
        (match cmds[0] {
            Cmd::Reparent { child: _, parent } => t.dom().contains(ref_win(parent, spawned)),
            _ => true,
        }) && cmds_ok(apply_cmd(t, cmds[0], spawned), cmds.skip(1), spawned)
    }
}

/// A one-command sequence applies as the command alone.
pub proof fn lemma_apply_one(t: TreeView, cmd: Cmd, spawned: Window)
    ensures
        apply_cmds(t, seq![cmd], spawned) == apply_cmd(t, cmd, spawned),
{
    assert(seq![cmd][0] == cmd);
    assert(seq![cmd].skip(1) =~= Seq::<Cmd>::empty());
    assert(apply_cmds(apply_cmd(t, cmd, spawned), Seq::<Cmd>::empty(), spawned) == apply_cmd(
        t,
        cmd,
        spawned,
    ));
}

/// Commands apply one after the other across an appended sequence.
pub proof fn lemma_apply_cmds_append(t: TreeView, a: Seq<Cmd>, b: Seq<Cmd>, spawned: Window)
    ensures
        apply_cmds(t, a + b, spawned) == apply_cmds(apply_cmds(t, a, spawned), b, spawned),
    decreases a.len(),
{
    if a.len() == 0 {
        assert(a + b =~= b);
        assert(apply_cmds(t, a, spawned) == t);
    } else {
        assert((a + b)[0] == a[0]);
        assert((a + b).skip(1) =~= a.skip(1) + b);
        lemma_apply_cmds_append(apply_cmd(t, a[0], spawned), a.skip(1), b, spawned);
    }
}

/// Removing a window that does not occur leaves the list unchanged.
pub proof fn lemma_without_absent(s: Seq<Window>, c: Window)
    requires
        absent(s, c),
    ensures
        without(s, c) == s,
    decreases s.len(),
{
    if s.len() == 0 {
        assert(without(s, c) =~= s);
    } else {
        assert(s[0] != c);
        assert(absent(s.skip(1), c));
        lemma_without_absent(s.skip(1), c);
        assert(seq![s[0]] + s.skip(1) =~= s);
    }
}

/// Removal walks an extended list element by element.
pub proof fn lemma_without_snoc(s: Seq<Window>, x: Window, c: Window)
    ensures
        without(s.push(x), c) == without(s, c) + (if x == c {
            Seq::<Window>::empty()
        } else {
            seq![x]
        }),
    decreases s.len(),
{
    if s.len() == 0 {
        assert(s.push(x)[0] == x);
        assert(s.push(x).skip(1) =~= Seq::<Window>::empty());
        assert(without(Seq::<Window>::empty(), c) == Seq::<Window>::empty());
        if x == c {
            assert(without(s, c) + Seq::<Window>::empty() =~= without(s.push(x), c));
        } else {
            assert(without(s.push(x), c) == seq![x] + Seq::<Window>::empty());
            assert(without(s, c) + seq![x] =~= seq![x] + Seq::<Window>::empty());
        }
    } else {
        assert(s.push(x)[0] == s[0]);
        assert(s.push(x).skip(1) =~= s.skip(1).push(x));
        lemma_without_snoc(s.skip(1), x, c);
        let tail = if x == c {
            Seq::<Window>::empty()
        } else {
            seq![x]
        };
        if s[0] == c {
            assert(without(s.push(x), c) == without(s.skip(1).push(x), c));
        } else {
            assert(without(s.push(x), c) == seq![s[0]] + without(s.skip(1).push(x), c));
            assert(seq![s[0]] + (without(s.skip(1), c) + tail) =~= (seq![s[0]] + without(
                s.skip(1),
                c,
            )) + tail);
        }
    }
}

/// Removal distributes over appending.
pub proof fn lemma_without_append(a: Seq<Window>, b: Seq<Window>, c: Window)
    ensures
        without(a + b, c) == without(a, c) + without(b, c),
    decreases a.len(),
{
    if a.len() == 0 {
        assert(a + b =~= b);
        assert(without(a, c) == Seq::<Window>::empty());
        assert(Seq::<Window>::empty() + without(b, c) =~= without(b, c));
    } else {
        assert((a + b)[0] == a[0]);
        assert((a + b).skip(1) =~= a.skip(1) + b);
        lemma_without_append(a.skip(1), b, c);
        if a[0] == c {
            assert(without(a, c) == without(a.skip(1), c));
        } else {
            assert(seq![a[0]] + (without(a.skip(1), c) + without(b, c)) =~= (seq![a[0]] + without(
                a.skip(1),
                c,
            )) + without(b, c));
        }
    }
}

/// Removing a run of windows distributes over appending.
pub proof fn lemma_without_all_append(a: Seq<Window>, b: Seq<Window>, ws: Seq<Window>)
    ensures
        without_all(a + b, ws) == without_all(a, ws) + without_all(b, ws),
    decreases ws.len(),
{
    if ws.len() == 0 {
        assert(without_all(a + b, ws) == a + b);
    } else {
        lemma_without_append(a, b, ws[0]);
        lemma_without_all_append(without(a, ws[0]), without(b, ws[0]), ws.skip(1));
    }
}

/// Removing windows none of which occur leaves the list unchanged.
pub proof fn lemma_without_all_absent(s: Seq<Window>, ws: Seq<Window>)
    requires
        all_absent(s, ws),
    ensures
        without_all(s, ws) == s,
    decreases ws.len(),
{
    if ws.len() > 0 {
        assert(absent(s, ws[0]));
        lemma_without_absent(s, ws[0]);
        assert(all_absent(s, ws.skip(1)));
        lemma_without_all_absent(s, ws.skip(1));
    }
}

/// Removing, in order, the first `k` windows of a duplicate-free list
/// from the list itself leaves exactly the remainder.
pub proof fn lemma_without_all_prefix(s: Seq<Window>, k: int)
    requires
        distinct(s),
        0 <= k <= s.len(),
    ensures
        without_all(s, s.take(k)) == s.skip(k),
    decreases k,
{
    if k == 0 {
        assert(s.take(0) =~= Seq::<Window>::empty());
        assert(s.skip(0) =~= s);
    } else {
        assert(s.take(k)[0] == s[0]);
        assert(s.len() > 0);
        // removing the head from the whole list leaves the tail
        assert(absent(s.skip(1), s[0]));
        assert(without(s, s[0]) == without(s.skip(1), s[0]));
        lemma_without_absent(s.skip(1), s[0]);
        assert(without(s, s[0]) == s.skip(1));
        assert(s.take(k).skip(1) =~= s.skip(1).take(k - 1));
        assert(distinct(s.skip(1)));
        lemma_without_all_prefix(s.skip(1), k - 1);
        assert(s.skip(1).skip(k - 1) =~= s.skip(k));
        assert(without_all(s, s.take(k)) == without_all(without(s, s[0]), s.take(k).skip(1)));
    }
}

/// Reparenting a duplicate-free run of windows, none already a child of
/// the destination, appends them to the destination's children in order;
/// every other window of interest merely loses those windows from its own
/// child list.
pub proof fn lemma_reparent_seq(t: TreeView, ws: Seq<Window>, r: WinRef, spawned: Window)
    requires
        distinct(ws),
        t.dom().contains(ref_win(r, spawned)),
        all_absent(t[ref_win(r, spawned)], ws),
    ensures
        apply_cmds(t, reparent_cmds(ws, r), spawned).dom() == t.dom(),
        apply_cmds(t, reparent_cmds(ws, r), spawned)[ref_win(r, spawned)] == t[ref_win(r, spawned)]
            + ws,
        forall|q: Window|
            t.dom().contains(q) && q != ref_win(r, spawned) ==> apply_cmds(
                t,
                reparent_cmds(ws, r),
                spawned,
            )[q] == without_all(t[q], ws),
    decreases ws.len(),
{
    let p = ref_win(r, spawned);
    if ws.len() == 0 {
        assert(reparent_cmds(ws, r) == Seq::<Cmd>::empty());
        assert(apply_cmds(t, reparent_cmds(ws, r), spawned) == t);
        assert(t[p] + ws =~= t[p]);
    } else {
        let c = ws[0];
        let cmd = Cmd::Reparent { child: c, parent: r };
        let cmds = reparent_cmds(ws, r);
        assert(cmds == seq![cmd] + reparent_cmds(ws.skip(1), r));
        assert(cmds[0] == cmd);
        assert(cmds.skip(1) =~= reparent_cmds(ws.skip(1), r));
        let t1 = apply_cmd(t, cmd, spawned);
        assert(t1.dom() =~= t.dom());
        assert(absent(t[p], c));
        lemma_without_absent(t[p], c);
        assert(t1[p] == t[p].push(c));
        assert(forall|q: Window|
            t.dom().contains(q) && q != p ==> t1[q] == without(t[q], c));
        // the tail of the run stays distinct and absent from the new list
        assert(distinct(ws.skip(1)));
        assert(all_absent(t1[p], ws.skip(1))) by {
            assert forall|j: int| 0 <= j < ws.skip(1).len() implies absent(
                t1[p],
                ws.skip(1)[j],
            ) by {
                assert(ws.skip(1)[j] == ws[j + 1]);
                assert(absent(t[p], ws[j + 1]));
                assert(ws[j + 1] != c);
                assert(forall|i: int|
                    0 <= i < t1[p].len() ==> t1[p][i] == (if i < t[p].len() {
                        t[p][i]
                    } else {
                        c
                    }));
            }
        }
        lemma_reparent_seq(t1, ws.skip(1), r, spawned);
        let t2 = apply_cmds(t1, reparent_cmds(ws.skip(1), r), spawned);
        assert(apply_cmds(t, cmds, spawned) == t2);
        assert(t2[p] == t1[p] + ws.skip(1));
        assert(t[p].push(c) + ws.skip(1) =~= t[p] + ws);
        assert forall|q: Window| t.dom().contains(q) && q != p implies apply_cmds(
            t,
            cmds,
            spawned,
        )[q] == without_all(t[q], ws) by {
            assert(t2[q] == without_all(t1[q], ws.skip(1)));
            assert(t1[q] == without(t[q], c));
            assert(without_all(t[q], ws) == without_all(without(t[q], c), ws.skip(1)));
        }
    }
}

/// Reparenting a container's own children back onto it, in order, rotates
/// its child list back to exactly where it started; every other window of
/// interest merely loses those children from its own list.
pub proof fn lemma_fix_rotation(
    t: TreeView,
    w: Window,
    cs: Seq<Window>,
    done: Seq<Window>,
    spawned: Window,
)
    requires
        t.dom().contains(w),
        t[w] == cs + done,
        distinct(cs + done),
    ensures
        apply_cmds(t, reparent_cmds(cs, WinRef::Id(w)), spawned).dom() == t.dom(),
        apply_cmds(t, reparent_cmds(cs, WinRef::Id(w)), spawned)[w] == done + cs,
        forall|q: Window|
            t.dom().contains(q) && q != w ==> apply_cmds(
                t,
                reparent_cmds(cs, WinRef::Id(w)),
                spawned,
            )[q] == without_all(t[q], cs),
    decreases cs.len(),
{
    if cs.len() == 0 {
        assert(reparent_cmds(cs, WinRef::Id(w)) == Seq::<Cmd>::empty());
        assert(cs + done =~= done);
        assert(done + cs =~= done);
    } else {
        let c = cs[0];
        let cmd = Cmd::Reparent { child: c, parent: WinRef::Id(w) };
        let cmds = reparent_cmds(cs, WinRef::Id(w));
        assert(cmds == seq![cmd] + reparent_cmds(cs.skip(1), WinRef::Id(w)));
        assert(cmds[0] == cmd);
        assert(cmds.skip(1) =~= reparent_cmds(cs.skip(1), WinRef::Id(w)));
        assert(ref_win(WinRef::Id(w), spawned) == w);
        let t1 = apply_cmd(t, cmd, spawned);
        assert(t1.dom() =~= t.dom());
        // removing the head of cs from cs + done leaves cs.skip(1) + done
        assert(c == (cs + done)[0]);
        lemma_without_append(cs, done, c);
        assert(absent(cs.skip(1), c)) by {
            assert(forall|i: int| 0 <= i < cs.skip(1).len() ==> cs.skip(1)[i] == (cs + done)[i + 1]);
        }
        assert(without(cs, c) == without(cs.skip(1), c));
        lemma_without_absent(cs.skip(1), c);
        assert(absent(done, c)) by {
            assert(forall|i: int|
                0 <= i < done.len() ==> done[i] == (cs + done)[cs.len() + i]);
        }
        lemma_without_absent(done, c);
        assert(without(t[w], c) == cs.skip(1) + done);
        assert(t1[w] == (cs.skip(1) + done).push(c));
        assert((cs.skip(1) + done).push(c) =~= cs.skip(1) + done.push(c));
        assert(forall|q: Window|
            t.dom().contains(q) && q != w ==> t1[q] == without(t[q], c));
        // the rotated list stays duplicate-free
        let rotated = cs.skip(1) + done.push(c);
        assert(distinct(rotated)) by {
            assert(forall|k: int|
                0 <= k < rotated.len() - 1 ==> rotated[k] == (cs + done)[k + 1]);
            assert(rotated[rotated.len() - 1] == (cs + done)[0]);
        }
        lemma_fix_rotation(t1, w, cs.skip(1), done.push(c), spawned);
        let t2 = apply_cmds(t1, reparent_cmds(cs.skip(1), WinRef::Id(w)), spawned);
        assert(apply_cmds(t, cmds, spawned) == t2);
        assert(t2[w] == done.push(c) + cs.skip(1));
        assert(done.push(c) + cs.skip(1) =~= done + cs);
        assert forall|q: Window| t.dom().contains(q) && q != w implies apply_cmds(
            t,
            cmds,
            spawned,
        )[q] == without_all(t[q], cs) by {
            assert(t2[q] == without_all(t1[q], cs.skip(1)));
            assert(t1[q] == without(t[q], c));
            assert(without_all(t[q], cs) == without_all(without(t[q], c), cs.skip(1)));
        }
    }
}

} // verus!
