//! An executable model of the window forest: the tree the contracts
//! speak of, held as a value, with an interpreter for planned command
//! sequences whose result is proved equal to the spec-level semantics.
//! It shows what a plan does to a tree without a display server.

use vstd::prelude::*;
use vstd::pervasive::VecAdditionalExecFns;
use crate::engine::{Cmd, WinRef, Window};
use crate::model::{
    TreeView, apply_cmd, apply_cmds, cmds_ok, distinct, lemma_apply_cmds_append, lemma_apply_one,
    ref_win, without,
};

verus! {

/// The forest the two lists stand for: each window in `keys`, mapped to
/// the matching child list, later entries shadowing earlier ones.
spec fn view_of(keys: Seq<Window>, childs: Seq<Vec<Window>>) -> TreeView
    decreases keys.len(),
{
    if keys.len() == 0 || childs.len() == 0 {
        Map::empty()
    } else {
        view_of(keys.drop_last(), childs.drop_last()).insert(keys.last(), childs.last()@)
    }
}

proof fn lemma_view_lookup(keys: Seq<Window>, childs: Seq<Vec<Window>>, i: int)
    requires
        keys.len() == childs.len(),
        distinct(keys),
        0 <= i < keys.len(),
    ensures
        view_of(keys, childs).dom().contains(keys[i]),
        view_of(keys, childs)[keys[i]] == childs[i]@,
    decreases keys.len(),
{
    if i == keys.len() - 1 {
    } else {
        assert(forall|k: int| 0 <= k < keys.len() - 1 ==> keys.drop_last()[k] == keys[k]);
        assert(distinct(keys.drop_last()));
        lemma_view_lookup(keys.drop_last(), childs.drop_last(), i);
        assert(keys.last() != keys[i]);
    }
}

proof fn lemma_view_dom(keys: Seq<Window>, childs: Seq<Vec<Window>>, w: Window)
    requires
        keys.len() == childs.len(),
        view_of(keys, childs).dom().contains(w),
    ensures
        exists|i: int| 0 <= i < keys.len() && keys[i] == w,
    decreases keys.len(),
{
    if keys.len() == 0 {
        assert(view_of(keys, childs).dom() =~= Set::<Window>::empty());
    } else if w == keys.last() {
        assert(keys[keys.len() - 1] == w);
    } else {
        lemma_view_dom(keys.drop_last(), childs.drop_last(), w);
        let j = choose|j: int|
            0 <= j < keys.drop_last().len() && keys.drop_last()[j] == w;
        assert(keys[j] == w);
    }
}

proof fn lemma_view_update(keys: Seq<Window>, childs: Seq<Vec<Window>>, i: int, v: Vec<Window>)
    requires
        keys.len() == childs.len(),
        distinct(keys),
        0 <= i < keys.len(),
    ensures
        view_of(keys, childs.update(i, v)) == view_of(keys, childs).insert(keys[i], v@),
    decreases keys.len(),
{
    let cu = childs.update(i, v);
    if i == keys.len() - 1 {
        assert(cu.drop_last() =~= childs.drop_last());
        assert(cu.last() == v);
        assert(view_of(keys, childs).insert(keys[i], v@) =~= view_of(
            keys.drop_last(),
            childs.drop_last(),
        ).insert(keys[i], v@));
    } else {
        assert(cu.drop_last() =~= childs.drop_last().update(i, v));
        assert(cu.last() == childs.last());
        assert(forall|k: int| 0 <= k < keys.len() - 1 ==> keys.drop_last()[k] == keys[k]);
        assert(distinct(keys.drop_last()));
        lemma_view_update(keys.drop_last(), childs.drop_last(), i, v);
        assert(keys.last() != keys[i]);
        assert(view_of(keys.drop_last(), childs.drop_last()).insert(keys[i], v@).insert(
            keys.last(),
            childs.last()@,
        ) =~= view_of(keys.drop_last(), childs.drop_last()).insert(keys.last(), childs.last()@)
            .insert(keys[i], v@));
    }
}

proof fn lemma_view_push(keys: Seq<Window>, childs: Seq<Vec<Window>>, w: Window, v: Vec<Window>)
    requires
        keys.len() == childs.len(),
    ensures
        view_of(keys.push(w), childs.push(v)) == view_of(keys, childs).insert(w, v@),
{
    assert(keys.push(w).drop_last() =~= keys);
    assert(childs.push(v).drop_last() =~= childs);
    assert(keys.push(w).last() == w);
    assert(childs.push(v).last() == v);
}

proof fn lemma_view_without(
    keys: Seq<Window>,
    childs: Seq<Vec<Window>>,
    childs2: Seq<Vec<Window>>,
    c: Window,
)
    requires
        keys.len() == childs.len(),
        childs2.len() == childs.len(),
        distinct(keys),
        forall|k: int| 0 <= k < childs.len() ==> childs2[k]@ == without(childs[k]@, c),
    ensures
        view_of(keys, childs2) == Map::new(
            |w: Window| view_of(keys, childs).dom().contains(w),
            |w: Window| without(view_of(keys, childs)[w], c),
        ),
    decreases keys.len(),
{
    let tree = view_of(keys, childs);
    let goal = Map::new(|w: Window| tree.dom().contains(w), |w: Window| without(tree[w], c));
    if keys.len() == 0 {
        assert(view_of(keys, childs2) =~= goal);
    } else {
        assert(forall|k: int| 0 <= k < keys.len() - 1 ==> keys.drop_last()[k] == keys[k]);
        assert(distinct(keys.drop_last()));
        assert(forall|k: int|
            0 <= k < childs.drop_last().len() ==> childs2.drop_last()[k]@ == without(
                childs.drop_last()[k]@,
                c,
            ));
        lemma_view_without(keys.drop_last(), childs.drop_last(), childs2.drop_last(), c);
        let inner = view_of(keys.drop_last(), childs.drop_last());
        let inner2 = view_of(keys.drop_last(), childs2.drop_last());
        assert(childs2.last()@ == without(childs.last()@, c));
        assert(view_of(keys, childs2) == inner2.insert(keys.last(), childs2.last()@));
        assert(tree == inner.insert(keys.last(), childs.last()@));
        assert(view_of(keys, childs2) =~= goal) by {
            assert forall|w: Window| tree.dom().contains(w) implies inner2.insert(
                keys.last(),
                childs2.last()@,
            )[w] == without(tree[w], c) by {
                if w == keys.last() {
                } else {
                    assert(inner.dom().contains(w));
                    assert(inner2[w] == without(inner[w], c));
                }
            }
        }
    }
}

fn copy_windows(v: &Vec<Window>) -> (r: Vec<Window>)
    ensures
        r@ == v@,
{
    let mut out: Vec<Window> = Vec::new();
    let mut i: usize = 0;
    while i < v.len()
        invariant
            0 <= i <= v@.len(),
            out@ == v@.take(i as int),
        decreases v@.len() - i,
    {
        out.push(v[i]);
        proof {
            assert(v@.take(i as int + 1) =~= v@.take(i as int).push(v@[i as int]));
        }
        i = i + 1;
    }
    proof {
        assert(v@.take(v@.len() as int) =~= v@);
    }
    out
}

fn remove_window(v: &Vec<Window>, c: Window) -> (r: Vec<Window>)
    ensures
        r@ == without(v@, c),
{
    let mut out: Vec<Window> = Vec::new();
    let mut i: usize = 0;
    proof {
        assert(without(v@.take(0), c) =~= Seq::<Window>::empty());
    }
    while i < v.len()
        invariant
            0 <= i <= v@.len(),
            out@ == without(v@.take(i as int), c),
        decreases v@.len() - i,
    {
        proof {
            assert(v@.take(i as int + 1) =~= v@.take(i as int).push(v@[i as int]));
            crate::model::lemma_without_snoc(v@.take(i as int), v@[i as int], c);
        }
        if v[i] != c {
            out.push(v[i]);
        }
        proof {
            if v@[i as int] == c {
                assert(out@ =~= without(v@.take(i as int + 1), c));
            } else {
                assert(out@ =~= without(v@.take(i as int + 1), c));
            }
        }
        i = i + 1;
    }
    proof {
        assert(v@.take(v@.len() as int) =~= v@);
    }
    out
}

/// A window forest held in memory. Windows of interest are added up
/// front; planned command sequences then run against it exactly as the
/// tree semantics says.
pub struct SimTree {
    keys: Vec<Window>,
    childs: Vec<Vec<Window>>,
}

impl SimTree {
    /// The forest this value stands for.
    pub closed spec fn tree(self) -> TreeView {
        view_of(self.keys@, self.childs@)
    }

    /// One child list per window of interest, no window listed twice.
    pub closed spec fn wf(self) -> bool {
        self.keys@.len() == self.childs@.len() && distinct(self.keys@)
    }

    /// An empty forest.
    pub fn new() -> (r: SimTree)
        ensures
            r.wf(),
            r.tree() == Map::<Window, Seq<Window>>::empty(),
    {
        SimTree { keys: Vec::new(), childs: Vec::new() }
    }

    /// Brings one window of interest in, with its current children.
    pub fn add_window(&mut self, w: Window, children: Vec<Window>)
        requires
            old(self).wf(),
            !old(self).tree().dom().contains(w),
        ensures
            final(self).wf(),
            final(self).tree() == old(self).tree().insert(w, children@),
    {
        proof {
            assert forall|i: int| 0 <= i < self.keys@.len() implies self.keys@[i] != w by {
                lemma_view_lookup(self.keys@, self.childs@, i);
            }
            lemma_view_push(self.keys@, self.childs@, w, children);
        }
        self.keys.push(w);
        self.childs.push(children);
    }

    fn find(&self, w: Window) -> (r: Option<usize>)
        requires
            self.wf(),
        ensures
            match r {
                Some(i) => i < self.keys@.len() && self.keys@[i as int] == w && self.tree().dom()
                    .contains(w) && self.tree()[w] == self.childs@[i as int]@,
                None => !self.tree().dom().contains(w),
            },
    {
        let mut i: usize = 0;
        while i < self.keys.len()
            invariant
                self.wf(),
                0 <= i <= self.keys@.len(),
                forall|k: int| 0 <= k < i ==> self.keys@[k] != w,
            decreases self.keys@.len() - i,
        {
            if self.keys[i] == w {
                proof {
                    lemma_view_lookup(self.keys@, self.childs@, i as int);
                }
                return Some(i);
            }
            i = i + 1;
        }
        proof {
            if self.tree().dom().contains(w) {
                lemma_view_dom(self.keys@, self.childs@, w);
                let j = choose|j: int| 0 <= j < self.keys@.len() && self.keys@[j] == w;
                assert(false);
            }
        }
        None
    }

    /// Whether the window is one of interest.
    pub fn contains_window(&self, w: Window) -> (r: bool)
        requires
            self.wf(),
        ensures
            r == self.tree().dom().contains(w),
    {
        match self.find(w) {
            Some(_) => true,
            None => false,
        }
    }

    /// The window's current children, in order.
    pub fn children_of(&self, w: Window) -> (r: Vec<Window>)
        requires
            self.wf(),
            self.tree().dom().contains(w),
        ensures
            r@ == self.tree()[w],
    {
        match self.find(w) {
            Some(i) => copy_windows(&self.childs[i]),
            None => {
                proof {
                    assert(false);
                }
                Vec::new()
            },
        }
    }

    fn remove_everywhere(&mut self, c: Window)
        requires
            old(self).wf(),
        ensures
            final(self).wf(),
            final(self).keys@ == old(self).keys@,
            final(self).tree() == Map::new(
                |w: Window| old(self).tree().dom().contains(w),
                |w: Window| without(old(self).tree()[w], c),
            ),
    {
        let ghost keys0 = self.keys@;
        let ghost childs0 = self.childs@;
        let mut k: usize = 0;
        while k < self.childs.len()
            invariant
                self.keys@ == keys0,
                keys0.len() == childs0.len(),
                self.childs@.len() == childs0.len(),
                distinct(keys0),
                0 <= k <= childs0.len(),
                forall|j: int| 0 <= j < k ==> self.childs@[j]@ == without(childs0[j]@, c),
                forall|j: int| k <= j < childs0.len() ==> self.childs@[j] == childs0[j],
            decreases childs0.len() - k,
        {
            let cleaned = remove_window(&self.childs[k], c);
            self.childs.set(k, cleaned);
            k = k + 1;
        }
        proof {
            lemma_view_without(keys0, childs0, self.childs@, c);
        }
    }

    /// Runs one command against the forest.
    fn apply_one(&mut self, cmd: Cmd, spawned: Window)
        requires
            old(self).wf(),
            (cmd matches Cmd::Reparent { child: _, parent } ==> old(self).tree().dom().contains(
                ref_win(parent, spawned),
            )),
        ensures
            final(self).wf(),
            final(self).tree() == apply_cmd(old(self).tree(), cmd, spawned),
    {
        match cmd {
            Cmd::Reparent { child, parent } => {
                let p = match parent {
                    WinRef::Id(w) => w,
                    WinRef::Spawned => spawned,
                };
                self.remove_everywhere(child);
                proof {
                    assert(self.tree().dom() =~= old(self).tree().dom());
                }
                match self.find(p) {
                    Some(i) => {
                        let mut v = copy_windows(&self.childs[i]);
                        v.push(child);
                        proof {
                            lemma_view_update(self.keys@, self.childs@, i as int, v);
                        }
                        self.childs.set(i, v);
                        proof {
                            assert(self.tree() =~= apply_cmd(old(self).tree(), cmd, spawned));
                        }
                    },
                    None => {
                        proof {
                            assert(false);
                        }
                    },
                }
            },
            Cmd::Spawn => {
                match self.find(spawned) {
                    Some(i) => {
                        let empty: Vec<Window> = Vec::new();
                        proof {
                            lemma_view_update(self.keys@, self.childs@, i as int, empty);
                        }
                        self.childs.set(i, empty);
                        proof {
                            assert(self.tree() =~= apply_cmd(old(self).tree(), cmd, spawned));
                        }
                    },
                    None => {
                        let empty: Vec<Window> = Vec::new();
                        proof {
                            assert forall|i: int|
                                0 <= i < self.keys@.len() implies self.keys@[i] != spawned by {
                                lemma_view_lookup(self.keys@, self.childs@, i);
                            }
                            lemma_view_push(self.keys@, self.childs@, spawned, empty);
                        }
                        self.keys.push(spawned);
                        self.childs.push(empty);
                    },
                }
            },
            Cmd::ClearBorder { wid: _, first_ancestor: _ } => {},
            Cmd::Focus { wid: _ } => {},
        }
    }

    /// Runs a planned command sequence, first command first, with
    /// `spawned` as the identifier the spawn step hands out.
    pub fn apply(&mut self, cmds: &Vec<Cmd>, spawned: Window)
        requires
            old(self).wf(),
            cmds_ok(old(self).tree(), cmds@, spawned),
        ensures
            final(self).wf(),
            final(self).tree() == apply_cmds(old(self).tree(), cmds@, spawned),
    {
        let ghost t0 = self.tree();
        let mut i: usize = 0;
        proof {
            assert(cmds@.take(0) =~= Seq::<Cmd>::empty());
            assert(cmds@.skip(0) =~= cmds@);
        }
        while i < cmds.len()
            invariant
                self.wf(),
                0 <= i <= cmds@.len(),
                self.tree() == apply_cmds(t0, cmds@.take(i as int), spawned),
                cmds_ok(self.tree(), cmds@.skip(i as int), spawned),
            decreases cmds@.len() - i,
        {
            proof {
                assert(cmds@.skip(i as int)[0] == cmds@[i as int]);
                assert(cmds@.skip(i as int).skip(1) =~= cmds@.skip(i as int + 1));
            }
            let cmd = cmds[i];
            self.apply_one(cmd, spawned);
            proof {
                assert(cmds@.take(i as int + 1) =~= cmds@.take(i as int) + seq![cmds@[i as int]]);
                lemma_apply_cmds_append(t0, cmds@.take(i as int), seq![cmds@[i as int]], spawned);
                lemma_apply_one(apply_cmds(t0, cmds@.take(i as int), spawned), cmds@[i as int], spawned);
            }
            i = i + 1;
        }
        proof {
            assert(cmds@.take(cmds@.len() as int) =~= cmds@);
        }
    }
}

} // verus!
