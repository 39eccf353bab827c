//! The widget tree: parent/child structure over opaque widget ids.
//!
//! Widgets live in a flat arena indexed by id; parent and child
//! relations are id references, so the structure can be mutated safely.
//! A child's id is always greater than its parent's — ids are handed
//! out in attachment order and a widget is attached under an existing
//! parent — which the traversals lean on for termination.

use vstd::prelude::*;

use crate::layout::Widget;
use crate::solver::{no_dups, vec_remove_val};

verus! {

/// Resolved bounds of one widget, each edge the bit pattern of the
/// resolved double.
#[derive(Clone, Copy, PartialEq, Eq, Structural, Debug)]
pub struct Bounds {
    pub left: u64,
    pub top: u64,
    pub right: u64,
    pub bottom: u64,
}

impl Bounds {
    /// All edges at zero.
    pub fn zero() -> (b: Bounds)
        ensures
            b == (Bounds { left: 0, top: 0, right: 0, bottom: 0 }),
    {
        Bounds { left: 0, top: 0, right: 0, bottom: 0 }
    }

    /// Whether the point lies inside these bounds, comparing encoded
    /// values.
    pub open spec fn spec_contains_point(self, x: u64, y: u64) -> bool {
        crate::scalar::spec_le_bits(self.left, x) && crate::scalar::spec_le_bits(x, self.right)
            && crate::scalar::spec_le_bits(self.top, y) && crate::scalar::spec_le_bits(
            y,
            self.bottom,
        )
    }

    /// Tests whether the point lies inside these bounds.
    pub fn contains_point(&self, x: u64, y: u64) -> (r: bool)
        ensures
            r == self.spec_contains_point(x, y),
    {
        crate::scalar::le_bits(self.left, x) && crate::scalar::le_bits(x, self.right)
            && crate::scalar::le_bits(self.top, y) && crate::scalar::le_bits(y, self.bottom)
    }
}

/// One attached widget: its core data, its place in the tree, and its
/// cached resolved bounds.
pub struct WidgetNode {
    pub widget: Widget,
    pub parent: Option<u64>,
    pub children: Vec<u64>,
    pub bounds: Bounds,
}

/// The tree of attached widgets.
pub struct WidgetTree {
    pub nodes: Vec<Option<WidgetNode>>,
    pub root: Option<u64>,
}

impl WidgetTree {
    /// Whether id `i` names an attached widget.
    pub open spec fn live(self, i: u64) -> bool {
        i < self.nodes@.len() && self.nodes@[i as int] is Some
    }

    /// The parent of widget `i`, if attached and not detached from its
    /// parent.
    pub open spec fn parent_of(self, i: u64) -> Option<u64> {
        if self.live(i) {
            self.nodes@[i as int]->0.parent
        } else {
            None
        }
    }

    /// The children of widget `i`, in attachment order.
    pub open spec fn children_of(self, i: u64) -> Seq<u64> {
        if self.live(i) {
            self.nodes@[i as int]->0.children@
        } else {
            Seq::empty()
        }
    }

    /// Well-formedness: the root is attached and parentless; every
    /// parent reference points at an attached widget with a smaller id
    /// whose child list holds the referrer; every child reference
    /// points at an attached widget with a greater id whose parent
    /// reference points back; and no child is listed twice.
    pub open spec fn wf(self) -> bool {
        &&& (self.root is Some ==> self.live(self.root->0) && self.parent_of(self.root->0)
            is None)
        &&& forall|i: u64|
            self.live(i) && (#[trigger] self.parent_of(i)) is Some ==> self.parent_of(i)->0 < i
                && self.live(self.parent_of(i)->0) && self.children_of(
                self.parent_of(i)->0,
            ).contains(i)
        &&& forall|i: u64, k: int|
            self.live(i) && 0 <= k < self.children_of(i).len() ==> (#[trigger] self.children_of(
                i,
            )[k]) > i && self.live(self.children_of(i)[k]) && self.parent_of(
                self.children_of(i)[k],
            ) == Some(i)
        &&& forall|i: u64| self.live(i) ==> no_dups(#[trigger] self.children_of(i))
    }

    /// An empty tree.
    pub fn new() -> (t: WidgetTree)
        ensures
            t.wf(),
            t.nodes@.len() == 0,
            t.root is None,
    {
        WidgetTree { nodes: Vec::new(), root: None }
    }

    /// Depth of a widget: the number of parent steps to its root.
    pub open spec fn depth(self, i: u64) -> nat
        decreases i,
    {
        match self.parent_of(i) {
            Some(p) => if p < i {
                self.depth(p) + 1
            } else {
                0
            },
            None => 0,
        }
    }

    /// The chain from a widget up to its root: the widget, its parent,
    /// and so on.
    pub open spec fn spec_ancestors(self, i: u64) -> Seq<u64>
        decreases i,
    {
        match self.parent_of(i) {
            Some(p) => if p < i {
                seq![i] + self.spec_ancestors(p)
            } else {
                seq![i]
            },
            None => seq![i],
        }
    }

    /// Collects the chain from `id` up to the root: `id` first, the
    /// root last, one entry per ancestor, `depth(id) + 1` entries in
    /// all.
    pub fn ancestors_from(&self, id: u64) -> (r: Vec<u64>)
        requires
            self.wf(),
            self.live(id),
        ensures
            r@ == self.spec_ancestors(id),
            r@.len() == self.depth(id) + 1,
            r@[0] == id,
    {
        proof {
            self.lemma_ancestors_len(id);
        }
        let n: usize = self.nodes.len();
        let mut r: Vec<u64> = Vec::new();
        r.push(id);
        let mut cur: u64 = id;
        let ghost whole = self.spec_ancestors(id);
        while self.nodes[cur as usize].as_ref().unwrap().parent.is_some()
            invariant
                self.wf(),
                self.live(cur),
                self.nodes@.len() == n as int,
                whole == self.spec_ancestors(id),
                r@.len() >= 1,
                r@[r@.len() - 1] == cur,
                whole =~= r@.subrange(0, r@.len() - 1) + self.spec_ancestors(cur),
            decreases cur,
        {
            let p: u64 = self.nodes[cur as usize].as_ref().unwrap().parent.unwrap();
            proof {
                assert(self.parent_of(cur) == Some(p));
                assert(p < cur);
                assert(self.spec_ancestors(cur) == seq![cur] + self.spec_ancestors(p));
                assert(whole =~= (r@.subrange(0, r@.len() as int - 1) + seq![cur])
                    + self.spec_ancestors(p));
                assert(r@.subrange(0, r@.len() as int - 1) + seq![cur] =~= r@);
                assert(p < self.nodes@.len());
            }
            r.push(p);
            cur = p;
            proof {
                assert(r@.subrange(0, r@.len() - 1) + seq![cur] =~= r@);
            }
        }
        proof {
            assert(self.parent_of(cur) is None);
            assert(self.spec_ancestors(cur) =~= seq![cur]);
            assert(whole =~= r@.subrange(0, r@.len() - 1) + seq![cur]);
            assert(whole =~= r@);
            assert(whole[0] == id);
        }
        r
    }

    /// Attaches a widget: under `parent` when given (appended at the
    /// end of the parent's child list, so attachment order is kept), as
    /// the root otherwise. Returns the new widget's id.
    pub fn add_widget(&mut self, widget: Widget, parent: Option<u64>) -> (id: u64)
        requires
            old(self).wf(),
            old(self).nodes@.len() < u64::MAX,
            parent is Some ==> old(self).live(parent->0),
            parent is None ==> old(self).root is None,
        ensures
            final (self).wf(),
            id == old(self).nodes@.len(),
            final (self).nodes@.len() == old(self).nodes@.len() + 1,
            final (self).live(id),
            final (self).parent_of(id) == parent,
            final (self).children_of(id) == Seq::<u64>::empty(),
            final (self).nodes@[id as int]->0.widget == widget,
            forall|i: u64|
                i != id ==> (#[trigger] final (self).live(i) == old(self).live(i)),
            forall|i: u64| i != id ==> final (self).parent_of(i) == old(self).parent_of(i),
            forall|i: u64|
                parent == Some(i) ==> final (self).children_of(i) == old(self).children_of(
                    i,
                ).push(id),
            forall|i: u64|
                i != id && parent != Some(i) ==> final (self).children_of(i) == old(
                    self,
                ).children_of(i),
            final (self).root == if parent is None {
                Some(id)
            } else {
                old(self).root
            },
            forall|i: u64|
                i != id && old(self).live(i) ==> (#[trigger] final (self).nodes@[
                    i as int
                ]->0.widget) == old(self).nodes@[i as int]->0.widget,
            forall|i: u64|
                i != id && old(self).live(i) ==> (#[trigger] final (self).nodes@[
                    i as int
                ]->0.bounds) == old(self).nodes@[i as int]->0.bounds,
    {
        let id: u64 = self.nodes.len() as u64;
        self.nodes.push(
            Some(
                WidgetNode { widget, parent, children: Vec::new(), bounds: Bounds::zero() },
            ),
        );
        match parent {
            Some(p) => {
                let n: usize = self.nodes.len();
                let pu: usize = p as usize;
                proof {
                    assert(self.nodes@.len() == n as int);
                    assert(pu as int == p as int);
                }
                let ghost pre = self.nodes@;
                match &mut self.nodes[pu] {
                    Some(node) => {
                        node.children.push(id);
                    },
                    None => {},
                }
                proof {
                    assert(self.nodes@ == pre.update(p as int, self.nodes@[p as int]));
                    assert(self.nodes@[p as int]->0.children@ == pre[
                        p as int
                    ]->0.children@.push(id));
                    assert(forall|i: int|
                        0 <= i < self.nodes@.len() && i != p as int
                            ==> #[trigger] self.nodes@[i] == pre[i]);
                }
            },
            None => {
                self.root = Some(id);
            },
        }
        proof {
            broadcast use vstd::seq_lib::lemma_seq_contains_after_push;

            assert forall|i: u64|
                self.live(i) && (#[trigger] self.parent_of(i)) is Some implies self.parent_of(
                i,
            )->0 < i && self.live(self.parent_of(i)->0) && self.children_of(
                self.parent_of(i)->0,
            ).contains(i) by {
                if i != id {
                    assert(old(self).live(i) && old(self).parent_of(i) is Some);
                    assert(old(self).children_of(old(self).parent_of(i)->0).contains(i));
                    let q = old(self).parent_of(i)->0;
                    if parent == Some(q) {
                        assert(self.children_of(q) == old(self).children_of(q).push(id));
                    } else {
                        assert(self.children_of(q) == old(self).children_of(q));
                    }
                }
            }
            assert forall|i: u64, k: int|
                self.live(i) && 0 <= k < self.children_of(i).len() implies (
            #[trigger] self.children_of(i)[k]) > i && self.live(self.children_of(i)[k])
                && self.parent_of(self.children_of(i)[k]) == Some(i) by {
                if i == id {
                } else if parent == Some(i) {
                    if k < self.children_of(i).len() - 1 {
                        assert(self.children_of(i)[k] == old(self).children_of(i)[k]);
                        assert(old(self).live(old(self).children_of(i)[k]));
                    } else {
                        assert(self.children_of(i)[k] == id);
                    }
                } else {
                    assert(self.children_of(i) == old(self).children_of(i));
                    assert(old(self).live(old(self).children_of(i)[k]));
                }
            }
            assert forall|i: u64| self.live(i) implies no_dups(
                #[trigger] self.children_of(i),
            ) by {
                if i == id {
                } else if parent == Some(i) {
                    assert(no_dups(old(self).children_of(i)));
                    let f = old(self).children_of(i).push(id);
                    assert forall|a: int, b: int| 0 <= a < b < f.len() implies f[a] != f[b] by {
                        if b == f.len() - 1 {
                            assert(old(self).children_of(i).contains(f[a]));
                            assert(old(self).live(f[a]));
                        }
                    }
                } else {
                    assert(self.children_of(i) == old(self).children_of(i));
                    assert(no_dups(old(self).children_of(i)));
                }
            }
        }
        id
    }

    /// Detaches a widget: it leaves its parent's child list and its own
    /// children become parentless. Its constraints are the constraint
    /// store's business; tree removal does not cascade to descendants,
    /// which stay attached as orphans.
    pub fn remove_widget(&mut self, id: u64)
        requires
            old(self).wf(),
            old(self).live(id),
        ensures
            final (self).wf(),
            !final (self).live(id),
            forall|i: u64| i != id ==> (#[trigger] final (self).live(i)) == old(self).live(i),
            forall|i: u64|
                i != id && old(self).parent_of(i) != Some(id) ==> final (self).parent_of(i)
                    == old(self).parent_of(i),
            forall|i: u64|
                i != id && old(self).parent_of(i) == Some(id) ==> final (self).parent_of(i)
                    is None,
            forall|i: u64, c: u64|
                i != id ==> ((#[trigger] final (self).children_of(i).contains(c)) <==> (old(
                    self,
                ).children_of(i).contains(c) && c != id)),
            final (self).root == if old(self).root == Some(id) {
                None::<u64>
            } else {
                old(self).root
            },
            forall|i: u64|
                i != id && old(self).live(i) ==> (#[trigger] final (self).nodes@[
                    i as int
                ]->0.widget) == old(self).nodes@[i as int]->0.widget,
            forall|i: u64|
                i != id && old(self).live(i) ==> (#[trigger] final (self).nodes@[
                    i as int
                ]->0.bounds) == old(self).nodes@[i as int]->0.bounds,
    {
        let n: usize = self.nodes.len();
        let idu: usize = id as usize;
        proof {
            assert(self.nodes@.len() == n as int);
            assert(idu as int == id as int);
        }
        let ghost s0 = *old(self);
        // detach from the parent's child list
        let parent = match &self.nodes[idu] {
            Some(node) => node.parent,
            None => None,
        };
        match parent {
            Some(p) => {
                let pu: usize = p as usize;
                proof {
                    assert(self.parent_of(id) == Some(p));
                    assert(p < id);
                    assert(pu as int == p as int);
                }
                let ghost pre = self.nodes@;
                let filtered = match &self.nodes[pu] {
                    Some(node) => vec_remove_val(&node.children, id),
                    None => Vec::new(),
                };
                match &mut self.nodes[pu] {
                    Some(node) => {
                        node.children = filtered;
                    },
                    None => {},
                }
                proof {
                    assert(self.nodes@ == pre.update(p as int, self.nodes@[p as int]));
                    assert(forall|i: int|
                        0 <= i < self.nodes@.len() && i != p as int
                            ==> #[trigger] self.nodes@[i] == pre[i]);
                    assert(!self.children_of(p).contains(id));
                    assert(forall|c: u64|
                        c != id ==> (self.children_of(p).contains(c) == s0.children_of(
                            p,
                        ).contains(c)));
                    assert(no_dups(self.children_of(p)));
                }
            },
            None => {},
        }
        let ghost s1 = *self;
        // orphan the children
        let kids: Vec<u64> = match &self.nodes[idu] {
            Some(node) => {
                let mut ks: Vec<u64> = Vec::new();
                let mut k: usize = 0;
                let cl: usize = node.children.len();
                while k < cl
                    invariant
                        0 <= k <= cl,
                        cl as int == node.children@.len(),
                        ks@ == node.children@.subrange(0, k as int),
                    decreases cl - k,
                {
                    ks.push(node.children[k]);
                    proof {
                        assert(ks@ =~= node.children@.subrange(0, k + 1 as int));
                    }
                    k += 1;
                }
                proof {
                    assert(ks@ =~= node.children@);
                }
                ks
            },
            None => Vec::new(),
        };
        proof {
            assert(kids@ == s1.children_of(id));
            assert(s1.children_of(id) == s0.children_of(id));
            assert forall|i: u64| (#[trigger] s1.live(i)) == s0.live(i) by {
                match parent {
                    Some(p) => {
                        if i != p && i < s1.nodes@.len() {
                            assert(s1.nodes@[i as int] == s0.nodes@[i as int]);
                        }
                    },
                    None => {},
                }
            }
        }
        let mut k: usize = 0;
        while k < kids.len()
            invariant
                0 <= k <= kids@.len(),
                s0.wf(),
                s0.live(id),
                n as int == self.nodes@.len(),
                n as int == s0.nodes@.len(),
                n as int == s1.nodes@.len(),
                idu as int == id as int,
                kids@ == s0.children_of(id),
                self.root == s1.root,
                forall|i: u64| (#[trigger] s1.live(i)) == s0.live(i),
                forall|i: u64| (#[trigger] self.live(i)) == s1.live(i),
                forall|i: u64|
                    !kids@.subrange(0, k as int).contains(i) ==> #[trigger] self.parent_of(i)
                        == s1.parent_of(i),
                forall|j: int| 0 <= j < k ==> self.parent_of(kids@[j]) is None,
                forall|i: u64| #[trigger] self.children_of(i) == s1.children_of(i),
                forall|i: u64|
                    s1.live(i) ==> (#[trigger] self.nodes@[i as int]->0.widget) == s1.nodes@[
                        i as int
                    ]->0.widget,
                forall|i: u64|
                    s1.live(i) ==> (#[trigger] self.nodes@[i as int]->0.bounds) == s1.nodes@[
                        i as int
                    ]->0.bounds,
            decreases kids@.len() - k,
        {
            let ghost hd = *self;
            let c: u64 = kids[k];
            proof {
                assert(s0.children_of(id).contains(s0.children_of(id)[k as int]));
                assert(s0.live(c));
                assert(c < self.nodes@.len());
            }
            let cu: usize = c as usize;
            let ghost pre = self.nodes@;
            match &mut self.nodes[cu] {
                Some(node) => {
                    node.parent = None;
                },
                None => {},
            }
            proof {
                broadcast use vstd::seq_lib::lemma_seq_contains_after_push;

                assert(self.nodes@ == pre.update(c as int, self.nodes@[c as int]));
                assert(forall|i: int|
                    0 <= i < self.nodes@.len() && i != c as int ==> #[trigger] self.nodes@[i]
                        == pre[i]);
                assert(hd.live(c));
                assert(self.nodes@[c as int]->0.children@ == pre[c as int]->0.children@);
                assert(kids@.subrange(0, k + 1 as int) =~= kids@.subrange(0, k as int).push(c));
                assert forall|i: u64| #[trigger] self.children_of(i) == s1.children_of(i) by {
                    assert(hd.children_of(i) == s1.children_of(i));
                    if i != c && i < self.nodes@.len() {
                        assert(self.nodes@[i as int] == pre[i as int]);
                    }
                    if i == c {
                        assert(self.children_of(c) == pre[c as int]->0.children@);
                        assert(hd.children_of(c) == pre[c as int]->0.children@);
                    }
                }
                assert forall|i: u64| (#[trigger] self.live(i)) == s1.live(i) by {
                    assert(hd.live(i) == s1.live(i));
                    if i != c && i < self.nodes@.len() {
                        assert(self.nodes@[i as int] == pre[i as int]);
                    }
                }
                assert forall|i: u64|
                    s1.live(i) implies (#[trigger] self.nodes@[i as int]->0.widget)
                    == s1.nodes@[i as int]->0.widget by {
                    assert(hd.nodes@[i as int]->0.widget == s1.nodes@[i as int]->0.widget);
                    if i != c && i < self.nodes@.len() {
                        assert(self.nodes@[i as int] == pre[i as int]);
                    }
                }
                assert forall|i: u64|
                    s1.live(i) implies (#[trigger] self.nodes@[i as int]->0.bounds)
                    == s1.nodes@[i as int]->0.bounds by {
                    assert(hd.nodes@[i as int]->0.bounds == s1.nodes@[i as int]->0.bounds);
                    if i != c && i < self.nodes@.len() {
                        assert(self.nodes@[i as int] == pre[i as int]);
                    }
                }
                assert forall|i: u64|
                    !kids@.subrange(0, k + 1 as int).contains(i) implies #[trigger] self.parent_of(
                    i,
                ) == s1.parent_of(i) by {
                    assert(i != c);
                    assert(!kids@.subrange(0, k as int).contains(i));
                    assert(hd.parent_of(i) == s1.parent_of(i));
                    if i < self.nodes@.len() {
                        assert(self.nodes@[i as int] == pre[i as int]);
                    }
                }
                assert forall|j: int| 0 <= j < k + 1 implies self.parent_of(
                    kids@[j],
                ) is None by {
                    if j < k {
                        assert(hd.parent_of(kids@[j]) is None);
                        if kids@[j] != c && kids@[j] < self.nodes@.len() {
                            assert(self.nodes@[kids@[j] as int] == pre[kids@[j] as int]);
                        }
                    }
                }
            }
            k += 1;
        }
        proof {
            assert(kids@.subrange(0, kids@.len() as int) == kids@);
        }
        // drop the node itself
        let ghost s2 = *self;
        self.nodes[idu] = None;
        if self.root.is_some() {
            let r = match self.root {
                Some(r) => r,
                None => 0,
            };
            if r == id {
                self.root = None;
            }
        }
        proof {
            assert(self.nodes@ == s2.nodes@.update(id as int, None));
            assert(forall|i: int|
                0 <= i < self.nodes@.len() && i != id as int ==> #[trigger] self.nodes@[i]
                    == s2.nodes@[i]);
            // liveness and structure framing back to the entry state
            assert forall|i: u64|
                i != id implies (#[trigger] self.live(i)) == s0.live(i) by {
                if i < self.nodes@.len() {
                    assert(self.nodes@[i as int] == s2.nodes@[i as int]);
                }
                assert(s2.live(i) == s1.live(i));
                assert(s1.live(i) == s0.live(i)) by {
                    if i < s1.nodes@.len() {
                        match parent {
                            Some(p) => {
                                if i != p {
                                    assert(s1.nodes@[i as int] == s0.nodes@[i as int]);
                                }
                            },
                            None => {},
                        }
                    }
                }
            }
            assert forall|i: u64| i != id implies #[trigger] self.children_of(i)
                == s2.children_of(i) by {
                if i < self.nodes@.len() {
                    assert(self.nodes@[i as int] == s2.nodes@[i as int]);
                }
            }
            assert forall|i: u64| i != id implies #[trigger] self.parent_of(i)
                == s2.parent_of(i) by {
                if i < self.nodes@.len() {
                    assert(self.nodes@[i as int] == s2.nodes@[i as int]);
                }
            }
            assert forall|i: u64|
                !kids@.contains(i) implies #[trigger] s1.parent_of(i) == s0.parent_of(i) by {
                match parent {
                    Some(p) => {
                        if i != p && i < s1.nodes@.len() {
                            assert(s1.nodes@[i as int] == s0.nodes@[i as int]);
                        }
                        if i == p {
                            assert(s1.nodes@[i as int]->0.parent == s0.nodes@[
                                i as int
                            ]->0.parent);
                        }
                    },
                    None => {},
                }
            }
            assert forall|i: u64|
                i != id && s0.parent_of(i) != Some(id) implies #[trigger] self.parent_of(i)
                    == s0.parent_of(i) by {
                assert(!kids@.contains(i)) by {
                    if kids@.contains(i) {
                        let j = choose|j: int| 0 <= j < kids@.len() && kids@[j] == i;
                        assert(s0.children_of(id)[j] == i);
                        assert(s0.parent_of(i) == Some(id));
                    }
                }
                assert(s2.parent_of(i) == s1.parent_of(i));
            }
            assert forall|i: u64|
                i != id && s0.parent_of(i) == Some(id) implies #[trigger] self.parent_of(i)
                    is None by {
                assert(s0.children_of(id).contains(i));
                let j = choose|j: int| 0 <= j < kids@.len() && kids@[j] == i;
                assert(s2.parent_of(kids@[j]) is None);
            }
            assert forall|i: u64, c: u64|
                i != id implies ((#[trigger] self.children_of(i).contains(c)) <==> (
            s0.children_of(i).contains(c) && c != id)) by {
                assert(self.children_of(i) == s2.children_of(i));
                assert(s2.children_of(i) == s1.children_of(i));
                match parent {
                    Some(p) => {
                        if i != p {
                            if i < s1.nodes@.len() {
                                assert(s1.nodes@[i as int] == s0.nodes@[i as int]);
                            }
                            assert(s1.children_of(i) == s0.children_of(i));
                            if s0.children_of(i).contains(c) && c == id {
                                let j = choose|j: int|
                                    0 <= j < s0.children_of(i).len() && s0.children_of(i)[j]
                                        == c;
                                assert(s0.parent_of(id) == Some(i));
                            }
                        }
                    },
                    None => {
                        if i < s1.nodes@.len() {
                            assert(s1.nodes@[i as int] == s0.nodes@[i as int]);
                        }
                        assert(s1.children_of(i) == s0.children_of(i));
                        if s0.children_of(i).contains(c) && c == id {
                            let j = choose|j: int|
                                0 <= j < s0.children_of(i).len() && s0.children_of(i)[j] == c;
                            assert(s0.parent_of(id) == Some(i));
                        }
                    },
                }
            }
            assert forall|i: u64|
                i != id && s0.live(i) implies (#[trigger] self.nodes@[i as int]->0.widget)
                == s0.nodes@[i as int]->0.widget by {
                assert(self.nodes@[i as int] == s2.nodes@[i as int]);
                assert(s1.live(i));
                assert(s2.nodes@[i as int]->0.widget == s1.nodes@[i as int]->0.widget);
                match parent {
                    Some(p) => {
                        if i != p && i < s1.nodes@.len() {
                            assert(s1.nodes@[i as int] == s0.nodes@[i as int]);
                        }
                        if i == p {
                            assert(s1.nodes@[i as int]->0.widget == s0.nodes@[
                                i as int
                            ]->0.widget);
                        }
                    },
                    None => {},
                }
            }
            assert forall|i: u64|
                i != id && s0.live(i) implies (#[trigger] self.nodes@[i as int]->0.bounds)
                == s0.nodes@[i as int]->0.bounds by {
                assert(self.nodes@[i as int] == s2.nodes@[i as int]);
                assert(s1.live(i));
                assert(s2.nodes@[i as int]->0.bounds == s1.nodes@[i as int]->0.bounds);
                match parent {
                    Some(p) => {
                        if i != p && i < s1.nodes@.len() {
                            assert(s1.nodes@[i as int] == s0.nodes@[i as int]);
                        }
                        if i == p {
                            assert(s1.nodes@[i as int]->0.bounds == s0.nodes@[
                                i as int
                            ]->0.bounds);
                        }
                    },
                    None => {},
                }
            }
            // well-formedness of the result
            assert forall|i: u64|
                self.live(i) && (#[trigger] self.parent_of(i)) is Some implies self.parent_of(
                i,
            )->0 < i && self.live(self.parent_of(i)->0) && self.children_of(
                self.parent_of(i)->0,
            ).contains(i) by {
                assert(i != id);
                let q = self.parent_of(i)->0;
                assert(s0.parent_of(i) == Some(q)) by {
                    if kids@.contains(i) {
                        let j = choose|j: int| 0 <= j < kids@.len() && kids@[j] == i;
                        assert(s2.parent_of(kids@[j]) is None);
                    }
                }
                assert(s0.live(q) && q < i);
                assert(q != id) by {
                    if q == id {
                        assert(s0.children_of(id).contains(i));
                        let j = choose|j: int| 0 <= j < kids@.len() && kids@[j] == i;
                        assert(s2.parent_of(kids@[j]) is None);
                    }
                }
                assert(s0.children_of(q).contains(i));
                assert(self.children_of(q).contains(i));
                assert(self.live(q) == s0.live(q));
            }
            assert forall|i: u64, k2: int|
                self.live(i) && 0 <= k2 < self.children_of(i).len() implies (
            #[trigger] self.children_of(i)[k2]) > i && self.live(self.children_of(i)[k2])
                && self.parent_of(self.children_of(i)[k2]) == Some(i) by {
                assert(i != id);
                let c = self.children_of(i)[k2];
                assert(self.children_of(i).contains(c));
                assert(s0.children_of(i).contains(c) && c != id);
                let j = choose|j: int|
                    0 <= j < s0.children_of(i).len() && s0.children_of(i)[j] == c;
                assert(c > i && s0.live(c) && s0.parent_of(c) == Some(i));
                assert(self.live(c) == s0.live(c));
                assert(!kids@.contains(c)) by {
                    if kids@.contains(c) {
                        let j2 = choose|j2: int| 0 <= j2 < kids@.len() && kids@[j2] == c;
                        assert(s0.children_of(id)[j2] == c);
                        assert(s0.parent_of(c) == Some(id));
                    }
                }
                assert(s2.parent_of(c) == s1.parent_of(c));
                assert(s1.parent_of(c) == s0.parent_of(c));
                assert(self.parent_of(c) == s2.parent_of(c));
            }
            assert forall|i: u64| self.live(i) implies no_dups(
                #[trigger] self.children_of(i),
            ) by {
                assert(i != id);
                assert(self.children_of(i) == s2.children_of(i));
                assert(s2.children_of(i) == s1.children_of(i));
                match parent {
                    Some(p) => {
                        if i != p {
                            if i < s1.nodes@.len() {
                                assert(s1.nodes@[i as int] == s0.nodes@[i as int]);
                            }
                            assert(s1.children_of(i) == s0.children_of(i));
                            assert(no_dups(s0.children_of(i)));
                        }
                    },
                    None => {
                        if i < s1.nodes@.len() {
                            assert(s1.nodes@[i as int] == s0.nodes@[i as int]);
                        }
                        assert(s1.children_of(i) == s0.children_of(i));
                        assert(no_dups(s0.children_of(i)));
                    },
                }
            }
        }
    }

    /// Whether `x` lies in the subtree rooted at `a`: reachable from
    /// `a` by child steps, equivalently `a` lies on `x`'s parent chain.
    pub open spec fn in_subtree(self, a: u64, x: u64) -> bool
        decreases x,
        when self.wf()
    {
        self.live(x) && (x == a || (self.parent_of(x) is Some && self.in_subtree(
            a,
            self.parent_of(x)->0,
        )))
    }

    /// The pre-order listing of the subtree rooted at `id`: the widget
    /// itself, then each child's subtree, children in attachment order.
    pub open spec fn spec_preorder(self, id: u64) -> Seq<u64>
        decreases self.nodes@.len() - id, 1int, 0int,
        when self.wf() && self.live(id)
    {
        seq![id] + self.spec_preorder_children(id, 0)
    }

    /// The concatenated pre-order listings of the children of `id`
    /// from position `k` on.
    pub open spec fn spec_preorder_children(self, id: u64, k: int) -> Seq<u64>
        decreases self.nodes@.len() - id, 0int, self.children_of(id).len() - k,
        when self.wf() && self.live(id) && 0 <= k <= self.children_of(id).len()
    {
        if k >= self.children_of(id).len() {
            Seq::empty()
        } else {
            self.spec_preorder(self.children_of(id)[k]) + self.spec_preorder_children(id, k + 1)
        }
    }

    /// Everything listed by the pre-order traversal lies in the
    /// subtree, at or below the root's id, and the listing starts with
    /// the root of the subtree.
    pub proof fn lemma_preorder_sound(self, id: u64)
        requires
            self.wf(),
            self.live(id),
        ensures
            self.spec_preorder(id).len() >= 1,
            self.spec_preorder(id)[0] == id,
            forall|x: u64|
                #[trigger] self.spec_preorder(id).contains(x) ==> self.in_subtree(id, x) && x
                    >= id,
        decreases self.nodes@.len() - id, 1int, 0int,
    {
        broadcast use vstd::seq_lib::lemma_seq_contains_after_push;

        self.lemma_preorder_children_sound(id, 0);
        assert forall|x: u64| #[trigger] self.spec_preorder(id).contains(x) implies self.in_subtree(
            id,
            x,
        ) && x >= id by {
            if x == id {
                assert(self.in_subtree(id, id));
            } else {
                let j = choose|j: int|
                    0 <= j < self.spec_preorder(id).len() && self.spec_preorder(id)[j] == x;
                assert(self.spec_preorder_children(id, 0)[j - 1] == x);
                assert(self.spec_preorder_children(id, 0).contains(x));
            }
        }
    }

    /// Companion of `lemma_preorder_sound` for the child listings.
    pub proof fn lemma_preorder_children_sound(self, id: u64, k: int)
        requires
            self.wf(),
            self.live(id),
            0 <= k <= self.children_of(id).len(),
        ensures
            forall|x: u64|
                #[trigger] self.spec_preorder_children(id, k).contains(x) ==> self.in_subtree(
                    id,
                    x,
                ) && x > id,
        decreases self.nodes@.len() - id, 0int, self.children_of(id).len() - k,
    {
        if k < self.children_of(id).len() {
            let c = self.children_of(id)[k];
            assert(c > id && self.live(c) && self.parent_of(c) == Some(id));
            self.lemma_preorder_sound(c);
            self.lemma_preorder_children_sound(id, k + 1);
            assert forall|x: u64|
                #[trigger] self.spec_preorder_children(id, k).contains(x) implies self.in_subtree(
                id,
                x,
            ) && x > id by {
                let whole = self.spec_preorder_children(id, k);
                let j = choose|j: int| 0 <= j < whole.len() && whole[j] == x;
                if j < self.spec_preorder(c).len() {
                    assert(self.spec_preorder(c)[j] == x);
                    assert(self.spec_preorder(c).contains(x));
                    assert(self.in_subtree(c, x) && x >= c);
                    self.lemma_subtree_up(id, c, x);
                } else {
                    assert(self.spec_preorder_children(id, k + 1)[j - self.spec_preorder(
                        c,
                    ).len()] == x);
                    assert(self.spec_preorder_children(id, k + 1).contains(x));
                }
            }
        }
    }

    /// Subtree membership steps up through a parent link.
    pub proof fn lemma_subtree_up(self, a: u64, c: u64, x: u64)
        requires
            self.wf(),
            self.live(c),
            self.parent_of(c) == Some(a),
            self.in_subtree(c, x),
        ensures
            self.in_subtree(a, x),
        decreases x,
    {
        if x == c {
            assert(self.in_subtree(a, a));
        } else {
            self.lemma_subtree_up(a, c, self.parent_of(x)->0);
        }
    }

    /// Subtree members sit at or above the subtree root's id.
    pub proof fn lemma_subtree_ge(self, a: u64, x: u64)
        requires
            self.wf(),
            self.in_subtree(a, x),
        ensures
            x >= a,
            self.live(a),
        decreases x,
    {
        if x != a {
            self.lemma_subtree_ge(a, self.parent_of(x)->0);
        }
    }

    /// Two children of `a` whose subtrees share a member are the same
    /// child.
    pub proof fn lemma_subtree_paths(self, a: u64, c: u64, c2: u64, x: u64)
        requires
            self.wf(),
            self.live(c),
            self.parent_of(c) == Some(a),
            self.live(c2),
            self.parent_of(c2) == Some(a),
            self.in_subtree(c, x),
            self.in_subtree(c2, x),
        ensures
            c == c2,
        decreases x,
    {
        self.lemma_subtree_ge(c, x);
        self.lemma_subtree_ge(c2, x);
        if x == c || x == c2 {
            if x == c && x != c2 {
                // x == c and c lies in c2's subtree strictly below it:
                // then c's parent a would lie in c2's subtree, above c2.
                self.lemma_subtree_ge(c2, self.parent_of(x)->0);
            }
            if x == c2 && x != c {
                self.lemma_subtree_ge(c, self.parent_of(x)->0);
            }
        } else {
            self.lemma_subtree_paths(a, c, c2, self.parent_of(x)->0);
        }
    }

    /// Every subtree member is listed by the pre-order traversal.
    pub proof fn lemma_preorder_complete(self, id: u64, x: u64)
        requires
            self.wf(),
            self.live(id),
            self.in_subtree(id, x),
        ensures
            self.spec_preorder(id).contains(x),
        decreases self.nodes@.len() - id, 1int, 0int,
    {
        broadcast use vstd::seq_lib::lemma_seq_contains_after_push;

        if x == id {
            assert(self.spec_preorder(id)[0] == x);
        } else {
            let c = self.subtree_hop(id, x);
            self.lemma_subtree_hop(id, x);
            let k = choose|k: int|
                0 <= k < self.children_of(id).len() && self.children_of(id)[k] == c;
            self.lemma_preorder_complete(c, x);
            self.lemma_preorder_children_covers(id, 0, k);
            let inner = self.spec_preorder(c);
            let j = choose|j: int| 0 <= j < inner.len() && inner[j] == x;
            assert(self.spec_preorder_children(id, 0).contains(x));
            let whole = self.spec_preorder(id);
            let t = choose|t: int|
                0 <= t < self.spec_preorder_children(id, 0).len() && self.spec_preorder_children(
                    id,
                    0,
                )[t] == x;
            assert(whole[t + 1] == x);
        }
    }

    /// The child of `a` through which the path from `x` reaches `a`.
    pub open spec fn subtree_hop(self, a: u64, x: u64) -> u64
        decreases x,
        when self.wf() && self.in_subtree(a, x) && x != a
    {
        if self.parent_of(x) == Some(a) {
            x
        } else {
            self.subtree_hop(a, self.parent_of(x)->0)
        }
    }

    /// The hop is a child of `a` and its subtree holds `x`.
    pub proof fn lemma_subtree_hop(self, a: u64, x: u64)
        requires
            self.wf(),
            self.in_subtree(a, x),
            x != a,
        ensures
            self.live(self.subtree_hop(a, x)),
            self.parent_of(self.subtree_hop(a, x)) == Some(a),
            self.children_of(a).contains(self.subtree_hop(a, x)),
            self.in_subtree(self.subtree_hop(a, x), x),
        decreases x,
    {
        if self.parent_of(x) == Some(a) {
            assert(self.in_subtree(x, x));
        } else {
            self.lemma_subtree_ge(a, x);
            self.lemma_subtree_hop(a, self.parent_of(x)->0);
            self.lemma_subtree_down(self.subtree_hop(a, x), self.parent_of(x)->0, x);
        }
    }

    /// Subtree membership extends down through a child link.
    pub proof fn lemma_subtree_down(self, a: u64, p: u64, x: u64)
        requires
            self.wf(),
            self.in_subtree(a, p),
            self.live(x),
            self.parent_of(x) == Some(p),
        ensures
            self.in_subtree(a, x),
    {
    }

    /// A child's listing is contained in the tail listings before it.
    pub proof fn lemma_preorder_children_covers(self, id: u64, k: int, t: int)
        requires
            self.wf(),
            self.live(id),
            0 <= k <= t < self.children_of(id).len(),
        ensures
            forall|x: u64|
                self.spec_preorder(self.children_of(id)[t]).contains(x)
                    ==> #[trigger] self.spec_preorder_children(id, k).contains(x),
        decreases t - k,
    {
        broadcast use vstd::seq_lib::lemma_seq_contains_after_push;

        let c = self.children_of(id)[k];
        assert(c > id && self.live(c));
        if k == t {
            assert forall|x: u64|
                self.spec_preorder(self.children_of(id)[t]).contains(x) implies #[trigger] self.spec_preorder_children(
                id,
                k,
            ).contains(x) by {
                let inner = self.spec_preorder(c);
                let j = choose|j: int| 0 <= j < inner.len() && inner[j] == x;
                assert(self.spec_preorder_children(id, k)[j] == x);
            }
        } else {
            self.lemma_preorder_children_covers(id, k + 1, t);
            assert forall|x: u64|
                self.spec_preorder(self.children_of(id)[t]).contains(x) implies #[trigger] self.spec_preorder_children(
                id,
                k,
            ).contains(x) by {
                assert(self.spec_preorder_children(id, k + 1).contains(x));
                let rest = self.spec_preorder_children(id, k + 1);
                let j = choose|j: int| 0 <= j < rest.len() && rest[j] == x;
                assert(self.spec_preorder_children(id, k)[self.spec_preorder(c).len() + j]
                    == x);
            }
        }
    }

    /// The pre-order listing holds no widget twice.
    pub proof fn lemma_preorder_no_dups(self, id: u64)
        requires
            self.wf(),
            self.live(id),
        ensures
            no_dups(self.spec_preorder(id)),
        decreases self.nodes@.len() - id, 1int, 0int,
    {
        self.lemma_preorder_children_no_dups(id, 0);
        self.lemma_preorder_children_sound(id, 0);
        let whole = self.spec_preorder(id);
        let rest = self.spec_preorder_children(id, 0);
        assert forall|a: int, b: int| 0 <= a < b < whole.len() implies whole[a] != whole[b] by {
            if a == 0 {
                assert(rest[b - 1] == whole[b]);
                assert(rest.contains(rest[b - 1]));
            } else {
                assert(rest[a - 1] == whole[a] && rest[b - 1] == whole[b]);
            }
        }
    }

    /// Child listings hold no widget twice, and different children's
    /// listings share no widget.
    pub proof fn lemma_preorder_children_no_dups(self, id: u64, k: int)
        requires
            self.wf(),
            self.live(id),
            0 <= k <= self.children_of(id).len(),
        ensures
            no_dups(self.spec_preorder_children(id, k)),
        decreases self.nodes@.len() - id, 0int, self.children_of(id).len() - k,
    {
        if k < self.children_of(id).len() {
            let c = self.children_of(id)[k];
            assert(c > id && self.live(c) && self.parent_of(c) == Some(id));
            self.lemma_preorder_no_dups(c);
            self.lemma_preorder_children_no_dups(id, k + 1);
            self.lemma_preorder_sound(c);
            self.lemma_preorder_children_sound(id, k + 1);
            let head = self.spec_preorder(c);
            let tail = self.spec_preorder_children(id, k + 1);
            let whole = self.spec_preorder_children(id, k);
            assert forall|a: int, b: int|
                0 <= a < b < whole.len() implies whole[a] != whole[b] by {
                if b < head.len() {
                } else if a >= head.len() {
                    assert(tail[a - head.len()] == whole[a] && tail[b - head.len()] == whole[b]);
                } else {
                    // one from the child's subtree, one from a later child's
                    let x = whole[a];
                    let y = whole[b];
                    assert(head[a] == x);
                    assert(tail[b - head.len()] == y);
                    if x == y {
                        assert(head.contains(x));
                        assert(tail.contains(y));
                        assert(self.in_subtree(c, x));
                        // y lies in the subtree of a later child c2
                        self.lemma_children_tail_child(id, k + 1, y);
                        let c2 = choose|c2: u64|
                            self.live(c2) && self.parent_of(c2) == Some(id)
                                && #[trigger] self.in_subtree(c2, y) && c2 != c;
                        self.lemma_subtree_ge(c2, y);
                        assert(y != id) by {
                            self.lemma_subtree_ge(c, x);
                        }
                        self.lemma_subtree_paths(id, c, c2, y);
                    }
                }
            }
        }
    }

    /// Every member of a tail listing lies in the subtree of one of the
    /// listed children, which is not an earlier child.
    pub proof fn lemma_children_tail_child(self, id: u64, k: int, y: u64)
        requires
            self.wf(),
            self.live(id),
            0 <= k <= self.children_of(id).len(),
            self.spec_preorder_children(id, k).contains(y),
        ensures
            exists|c2: u64|
                self.live(c2) && self.parent_of(c2) == Some(id) && #[trigger] self.in_subtree(
                    c2,
                    y,
                ) && (forall|k0: int|
                    0 <= k0 < k ==> self.children_of(id)[k0] != c2),
        decreases self.nodes@.len() - id, 0int, self.children_of(id).len() - k,
    {
        let c = self.children_of(id)[k];
        assert(c > id && self.live(c) && self.parent_of(c) == Some(id));
        let head = self.spec_preorder(c);
        let tail = self.spec_preorder_children(id, k + 1);
        let whole = self.spec_preorder_children(id, k);
        let j = choose|j: int| 0 <= j < whole.len() && whole[j] == y;
        if j < head.len() {
            assert(head[j] == y);
            assert(head.contains(y));
            self.lemma_preorder_sound(c);
            assert(self.in_subtree(c, y));
            assert forall|k0: int| 0 <= k0 < k implies self.children_of(id)[k0] != c by {
                assert(no_dups(self.children_of(id)));
            }
        } else {
            assert(tail[j - head.len()] == y);
            assert(tail.contains(y));
            self.lemma_children_tail_child(id, k + 1, y);
            let c2 = choose|c2: u64|
                self.live(c2) && self.parent_of(c2) == Some(id) && #[trigger] self.in_subtree(
                    c2,
                    y,
                ) && (forall|k0: int|
                    0 <= k0 < k + 1 ==> self.children_of(id)[k0] != c2);
            assert(self.in_subtree(c2, y));
        }
    }

    /// Collects the pre-order listing of the subtree rooted at `id`.
    pub fn preorder(&self, id: u64) -> (r: Vec<u64>)
        requires
            self.wf(),
            self.live(id),
        ensures
            r@ == self.spec_preorder(id),
    {
        let mut out: Vec<u64> = Vec::new();
        self.preorder_into(id, &mut out);
        proof {
            assert(out@ =~= self.spec_preorder(id));
        }
        out
    }

    /// Appends the pre-order listing of the subtree rooted at `id`.
    fn preorder_into(&self, id: u64, out: &mut Vec<u64>)
        requires
            self.wf(),
            self.live(id),
        ensures
            final (out)@ == old(out)@ + self.spec_preorder(id),
        decreases self.nodes@.len() - id,
    {
        out.push(id);
        let n: usize = self.nodes.len();
        let idu: usize = id as usize;
        proof {
            assert(self.nodes@.len() == n as int);
            assert(idu as int == id as int);
        }
        let cl: usize = match &self.nodes[idu] {
            Some(node) => node.children.len(),
            None => 0,
        };
        let mut k: usize = 0;
        while k < cl
            invariant
                self.wf(),
                self.live(id),
                idu as int == id as int,
                0 <= k <= cl,
                cl as int == self.children_of(id).len(),
                out@ == old(out)@ + seq![id] + self.spec_preorder_children_prefix(id, k as int),
            decreases cl - k,
        {
            let c: u64 = match &self.nodes[idu] {
                Some(node) => node.children[k],
                None => 0,
            };
            proof {
                assert(c == self.children_of(id)[k as int]);
                assert(c > id && self.live(c));
            }
            self.preorder_into(c, out);
            proof {
                assert(self.spec_preorder_children_prefix(id, k + 1 as int)
                    =~= self.spec_preorder_children_prefix(id, k as int) + self.spec_preorder(
                    c,
                ));
                assert(out@ =~= old(out)@ + seq![id] + self.spec_preorder_children_prefix(
                    id,
                    k + 1 as int,
                ));
            }
            k += 1;
        }
        proof {
            self.lemma_prefix_is_children(id, cl as int);
            assert(out@ =~= old(out)@ + self.spec_preorder(id));
        }
    }

    /// The concatenated pre-order listings of the first `k` children of
    /// `id`.
    pub open spec fn spec_preorder_children_prefix(self, id: u64, k: int) -> Seq<u64>
        decreases k,
        when self.wf() && self.live(id) && 0 <= k <= self.children_of(id).len()
    {
        if k <= 0 {
            Seq::empty()
        } else {
            self.spec_preorder_children_prefix(id, k - 1) + self.spec_preorder(
                self.children_of(id)[k - 1],
            )
        }
    }

    /// The full prefix equals the tail listing from the start.
    pub proof fn lemma_prefix_is_children(self, id: u64, k: int)
        requires
            self.wf(),
            self.live(id),
            0 <= k <= self.children_of(id).len(),
        ensures
            self.spec_preorder_children_prefix(id, k) + self.spec_preorder_children(id, k)
                =~= self.spec_preorder_children(id, 0),
        decreases k,
    {
        if k == 0 {
            assert(self.spec_preorder_children_prefix(id, 0)
                =~= Seq::<u64>::empty());
        } else {
            self.lemma_prefix_is_children(id, k - 1);
            assert(self.spec_preorder_children_prefix(id, k) + self.spec_preorder_children(
                id,
                k,
            ) =~= self.spec_preorder_children_prefix(id, k - 1) + (self.spec_preorder(
                self.children_of(id)[k - 1],
            ) + self.spec_preorder_children(id, k)));
            assert(self.spec_preorder(self.children_of(id)[k - 1]) + self.spec_preorder_children(
                id,
                k,
            ) == self.spec_preorder_children(id, k - 1));
        }
    }

    /// The chain is one longer than the widget's depth.
    pub proof fn lemma_ancestors_len(self, i: u64)
        ensures
            self.spec_ancestors(i).len() == self.depth(i) + 1,
            self.spec_ancestors(i)[0] == i,
        decreases i,
    {
        match self.parent_of(i) {
            Some(p) => {
                if p < i {
                    self.lemma_ancestors_len(p);
                }
            },
            None => {},
        }
    }
}

} // verus!
