//! The UI coordinator: one widget tree and one constraint store, the
//! routing of typed notifications through the tree, and the translation
//! of layout changes into updated widget bounds.

use vstd::prelude::*;

use crate::layout::{bound_by, ConTerm, ConstraintSpec, LayoutError, LayoutUpdate, LayoutVars, RelOp, Widget};
use crate::solver::{LayoutChanged, LimnSolver, SolverEdit};
use crate::tree::{WidgetNode, WidgetTree};

verus! {

/// Address of one event dispatch.
#[derive(Clone, Copy, PartialEq, Eq, Structural, Debug)]
pub enum Target {
    /// Deliver only to the widget.
    Widget(u64),
    /// Deliver to the widget's first child, if any.
    Child(u64),
    /// Deliver to every widget of the subtree, in pre-order.
    SubTree(u64),
    /// Deliver to the widget and then its ancestors until one reports
    /// the event handled.
    BubbleUp(u64),
    /// Deliver to the coordinator itself.
    Ui,
}

/// The engine-level notifications the coordinator emits.
pub enum UiEvent {
    WidgetAttached,
    WidgetDetached,
    ChildAttached(u64, LayoutVars),
    Redraw,
    Layout(LayoutChanged),
}

/// Whether a queued event is a layout-change notification.
pub open spec fn is_layout_event(e: (Target, UiEvent)) -> bool {
    e.1 is Layout
}

/// How many layout-change notifications a queue holds.
pub open spec fn layout_event_count(s: Seq<(Target, UiEvent)>) -> int
    decreases s.len(),
{
    if s.len() == 0 {
        0
    } else {
        layout_event_count(s.drop_last()) + if is_layout_event(s.last()) {
            1int
        } else {
            0int
        }
    }
}

/// Which widget of the chain reports the event handled: the delivery
/// list of a bubbled event is the chain up to and including the first
/// widget whose flag is set, or the whole chain when none is.
pub open spec fn spec_bubble(chain: Seq<u64>, handled: Seq<bool>) -> Seq<u64>
    decreases chain.len(),
{
    if chain.len() == 0 {
        Seq::empty()
    } else if chain[0] < handled.len() && handled[chain[0] as int] {
        seq![chain[0]]
    } else {
        seq![chain[0]] + spec_bubble(chain.drop_first(), handled)
    }
}

/// A bubbled dispatch attempts no more deliveries than the chain is
/// long, it delivers along the chain in order, and it stops exactly at
/// the first widget that reports the event handled.
pub proof fn lemma_bubble(chain: Seq<u64>, handled: Seq<bool>)
    ensures
        spec_bubble(chain, handled).len() <= chain.len(),
        forall|j: int|
            0 <= j < spec_bubble(chain, handled).len() ==> #[trigger] spec_bubble(
                chain,
                handled,
            )[j] == chain[j],
        forall|j: int|
            0 <= j < spec_bubble(chain, handled).len() - 1 ==> !((#[trigger] chain[j])
                < handled.len() && handled[chain[j] as int]),
        spec_bubble(chain, handled).len() < chain.len() ==> {
            let last = spec_bubble(chain, handled)[spec_bubble(chain, handled).len() - 1];
            last < handled.len() && handled[last as int]
        },
    decreases chain.len(),
{
    if chain.len() > 0 {
        if !(chain[0] < handled.len() && handled[chain[0] as int]) {
            lemma_bubble(chain.drop_first(), handled);
            let rest = spec_bubble(chain.drop_first(), handled);
            assert(forall|j: int| 0 <= j < rest.len() ==> #[trigger] rest[j] == chain[j + 1]);
            let whole = spec_bubble(chain, handled);
            assert forall|j: int|
                0 <= j < whole.len() - 1 implies !((#[trigger] chain[j]) < handled.len()
                && handled[chain[j] as int]) by {
                if j > 0 {
                    assert(chain.drop_first()[j - 1] == chain[j]);
                }
            }
        }
    }
}

/// Applies one layout-change entry to one widget's record: the entry's
/// value becomes the cached position of whichever edge of the widget's
/// box the variable stands for; entries for the derived width and
/// height variables, or for variables of no edge, change nothing.
pub open spec fn spec_apply_entry(n: WidgetNode, v: u64, val: u64) -> WidgetNode {
    if v == n.widget.layout.left {
        WidgetNode {
            bounds: crate::tree::Bounds { left: val, ..n.bounds },
            ..n
        }
    } else if v == n.widget.layout.top {
        WidgetNode { bounds: crate::tree::Bounds { top: val, ..n.bounds }, ..n }
    } else if v == n.widget.layout.right {
        WidgetNode {
            bounds: crate::tree::Bounds { right: val, ..n.bounds },
            ..n
        }
    } else if v == n.widget.layout.bottom {
        WidgetNode {
            bounds: crate::tree::Bounds { bottom: val, ..n.bounds },
            ..n
        }
    } else {
        n
    }
}

/// Applies a whole batch to the arena, entry by entry; entries naming a
/// widget no longer attached are dropped silently.
pub open spec fn spec_apply_batch(
    nodes: Seq<Option<WidgetNode>>,
    entries: Seq<(u64, u64, u64)>,
) -> Seq<Option<WidgetNode>>
    decreases entries.len(),
{
    if entries.len() == 0 {
        nodes
    } else {
        let pre = spec_apply_batch(nodes, entries.drop_last());
        let e = entries.last();
        if e.0 < pre.len() && pre[e.0 as int] is Some {
            pre.update(e.0 as int, Some(spec_apply_entry(pre[e.0 as int]->0, e.1, e.2)))
        } else {
            pre
        }
    }
}

/// Consumer of batched layout-change notifications: it writes each
/// entry's resolved value into the owning widget's cached bounds.
pub struct LayoutChangeHandler;

impl LayoutChangeHandler {
    /// Applies one batch to the tree. Entries for detached widgets are
    /// silent no-ops; the tree's structure is untouched.
    pub fn handle(&self, tree: &mut WidgetTree, event: &LayoutChanged)
        requires
            old(tree).wf(),
        ensures
            final (tree).wf(),
            final (tree).nodes@ == spec_apply_batch(old(tree).nodes@, event.0@),
            final (tree).root == old(tree).root,
            forall|i: u64| #[trigger] final (tree).live(i) == old(tree).live(i),
            forall|i: u64| #[trigger] final (tree).parent_of(i) == old(tree).parent_of(i),
            forall|i: u64| #[trigger] final (tree).children_of(i) == old(tree).children_of(i),
    {
        let ghost t0 = *old(tree);
        let n: usize = tree.nodes.len();
        let mut k: usize = 0;
        while k < event.0.len()
            invariant
                0 <= k <= event.0@.len(),
                n as int == tree.nodes@.len(),
                t0.wf(),
                tree.wf(),
                tree.root == t0.root,
                tree.nodes@ == spec_apply_batch(t0.nodes@, event.0@.subrange(0, k as int)),
                forall|i: u64| #[trigger] tree.live(i) == t0.live(i),
                forall|i: u64| #[trigger] tree.parent_of(i) == t0.parent_of(i),
                forall|i: u64| #[trigger] tree.children_of(i) == t0.children_of(i),
            decreases event.0@.len() - k,
        {
            let ghost hd = *tree;
            let (w, v, val) = event.0[k];
            if w < tree.nodes.len() as u64 {
                let wu: usize = w as usize;
                proof {
                    assert(wu as int == w as int);
                }
                let ghost pre = tree.nodes@;
                let lv: Option<LayoutVars> = match &tree.nodes[wu] {
                    Some(node) => Some(node.widget.layout),
                    None => None,
                };
                match lv {
                    Some(layout) => {
                        match &mut tree.nodes[wu] {
                            Some(node) => {
                                if v == layout.left {
                                    node.bounds.left = val;
                                } else if v == layout.top {
                                    node.bounds.top = val;
                                } else if v == layout.right {
                                    node.bounds.right = val;
                                } else if v == layout.bottom {
                                    node.bounds.bottom = val;
                                }
                            },
                            None => {},
                        }
                        proof {
                            assert(tree.nodes@ == pre.update(w as int, tree.nodes@[w as int]));
                            assert(tree.nodes@[w as int] == Some(
                                spec_apply_entry(pre[w as int]->0, v, val),
                            ));
                        }
                    },
                    None => {},
                }
            }
            proof {
                let cur = event.0@.subrange(0, k + 1 as int);
                assert(cur.drop_last() =~= event.0@.subrange(0, k as int));
                assert(cur.last() == event.0@[k as int]);
                assert(tree.nodes@ == spec_apply_batch(t0.nodes@, cur));
                assert forall|i: u64| #[trigger] tree.live(i) == t0.live(i) by {
                    assert(hd.live(i) == t0.live(i));
                    if i < tree.nodes@.len() && i != w {
                        assert(tree.nodes@[i as int] == hd.nodes@[i as int]);
                    }
                }
                assert forall|i: u64| #[trigger] tree.parent_of(i) == t0.parent_of(i) by {
                    assert(hd.parent_of(i) == t0.parent_of(i));
                    if i < tree.nodes@.len() && i != w {
                        assert(tree.nodes@[i as int] == hd.nodes@[i as int]);
                    }
                }
                assert forall|i: u64| #[trigger] tree.children_of(i) == t0.children_of(i) by {
                    assert(hd.children_of(i) == t0.children_of(i));
                    if i < tree.nodes@.len() && i != w {
                        assert(tree.nodes@[i as int] == hd.nodes@[i as int]);
                    }
                }
                assert forall|i: u64|
                    tree.live(i) && (#[trigger] tree.parent_of(i)) is Some implies tree.parent_of(
                    i,
                )->0 < i && tree.live(tree.parent_of(i)->0) && tree.children_of(
                    tree.parent_of(i)->0,
                ).contains(i) by {
                    assert(t0.live(i) && t0.parent_of(i) is Some);
                    assert(t0.children_of(t0.parent_of(i)->0).contains(i));
                }
                assert forall|i: u64, k2: int|
                    tree.live(i) && 0 <= k2 < tree.children_of(i).len() implies (
                #[trigger] tree.children_of(i)[k2]) > i && tree.live(tree.children_of(i)[k2])
                    && tree.parent_of(tree.children_of(i)[k2]) == Some(i) by {
                    assert(t0.live(i));
                    assert(t0.children_of(i)[k2] > i && t0.live(t0.children_of(i)[k2])
                        && t0.parent_of(t0.children_of(i)[k2]) == Some(i));
                }
                assert forall|i: u64| tree.live(i) implies crate::solver::no_dups(
                    #[trigger] tree.children_of(i),
                ) by {
                    assert(t0.live(i));
                    assert(crate::solver::no_dups(t0.children_of(i)));
                }
            }
            k += 1;
        }
        proof {
            assert(event.0@.subrange(0, event.0@.len() as int) == event.0@);
        }
    }
}

/// The delivery target of a hit test over a pre-order listing: the
/// widget at the greatest position whose cached bounds contain the
/// point — by z-order convention, the topmost, last-attached widget
/// wins ties.
pub open spec fn spec_hit_from(t: WidgetTree, po: Seq<u64>, k: int, x: u64, y: u64) -> Option<
    u64,
>
    decreases k,
{
    if k <= 0 {
        None
    } else {
        let i = po[k - 1];
        if t.live(i) && t.nodes@[i as int]->0.bounds.spec_contains_point(x, y) {
            Some(i)
        } else {
            spec_hit_from(t, po, k - 1, x, y)
        }
    }
}

/// A hit below position `k` means a hit result, and a widget listed
/// before another containing the point never wins against it.
pub proof fn lemma_hit_from(t: WidgetTree, po: Seq<u64>, k: int, x: u64, y: u64)
    requires
        0 <= k <= po.len(),
    ensures
        (exists|j: int|
            0 <= j < k && t.live(#[trigger] po[j]) && t.nodes@[
                po[j] as int
            ]->0.bounds.spec_contains_point(x, y)) ==> spec_hit_from(t, po, k, x, y) is Some,
        forall|j: int|
            0 <= j < k && t.live(#[trigger] po[j]) && t.nodes@[
                po[j] as int
            ]->0.bounds.spec_contains_point(x, y) ==> exists|m: int|
                #![trigger po[m]]
                j <= m < k && spec_hit_from(t, po, k, x, y) == Some(po[m]),
    decreases k,
{
    if k > 0 {
        lemma_hit_from(t, po, k - 1, x, y);
        let i = po[k - 1];
        if t.live(i) && t.nodes@[i as int]->0.bounds.spec_contains_point(x, y) {
            assert forall|j: int|
                0 <= j < k && t.live(#[trigger] po[j]) && t.nodes@[
                    po[j] as int
                ]->0.bounds.spec_contains_point(x, y) implies exists|m: int|
                #![trigger po[m]]
                j <= m < k && spec_hit_from(t, po, k, x, y) == Some(po[m]) by {
                assert(j <= k - 1 < k && spec_hit_from(t, po, k, x, y) == Some(po[k - 1]));
            }
        } else {
            assert forall|j: int|
                0 <= j < k && t.live(#[trigger] po[j]) && t.nodes@[
                    po[j] as int
                ]->0.bounds.spec_contains_point(x, y) implies exists|m: int|
                #![trigger po[m]]
                j <= m < k && spec_hit_from(t, po, k, x, y) == Some(po[m]) by {
                assert(j != k - 1);
                let m = choose|m: int|
                    #![trigger po[m]]
                    j <= m < k - 1 && spec_hit_from(t, po, k - 1, x, y) == Some(po[m]);
                assert(j <= m < k && spec_hit_from(t, po, k, x, y) == Some(po[m]));
            }
        }
    }
}

/// The attachment notifications queued for one new widget: its own
/// attachment, then - under a parent - the parent's child-attached
/// notice carrying the child's id and layout variables.
pub open spec fn spec_attach_tail(id: u64, parent: Option<u64>, layout: LayoutVars) -> Seq<
    (Target, UiEvent),
> {
    match parent {
        Some(p) => seq![
            (Target::Widget(id), UiEvent::WidgetAttached),
            (Target::Widget(p), UiEvent::ChildAttached(id, layout)),
        ],
        None => seq![(Target::Widget(id), UiEvent::WidgetAttached)],
    }
}

/// The queue grew by at most one batched layout notification addressed
/// to the coordinator, non-empty and with every entry attributed to the
/// widget the store records as its variable's owner.
pub open spec fn spec_layout_push(
    pre: Seq<(Target, UiEvent)>,
    post: Seq<(Target, UiEvent)>,
    s: LimnSolver,
) -> bool {
    post == pre || (post.len() == pre.len() + 1 && post.subrange(0, pre.len() as int) == pre
        && post.last().0 == Target::Ui && post.last().1 is Layout && (
    post.last().1->Layout_0).0@.len() > 0 && forall|t: int|
        0 <= t < (post.last().1->Layout_0).0@.len() ==> s.owner_of(
            (#[trigger] (post.last().1->Layout_0).0@[t]).1,
        ) == Some((post.last().1->Layout_0).0@[t].0))
}

/// What attaching under a bounding parent registers: the widget's own
/// batch first, then the four required contained-within constraints
/// binding the child's edges inside the parent's box.
pub open spec fn spec_containment_registered(
    pre: LimnSolver,
    post: LimnSolver,
    cons: Seq<ConstraintSpec>,
    child: LayoutVars,
    parent: LayoutVars,
) -> bool {
    let base = pre.num_cons() + cons.len();
    &&& post.cons@.len() == base + 4
    &&& post.cons@.subrange(0, pre.num_cons()) == pre.cons@
    &&& post.cons@.subrange(pre.num_cons(), base as int) == cons
    &&& forall|k: int| base <= k < base + 4 ==> (#[trigger] post.cons@[k]).strength
        == crate::strength::REQUIRED
    &&& forall|k: int| base <= k < base + 4 ==> (#[trigger] post.cons@[k]).constant == 0
    &&& post.cons@[base].terms@ == seq![
        ConTerm { var: child.left, coeff: 1i64 },
        ConTerm { var: parent.left, coeff: -1i64 },
    ]
    &&& post.cons@[base].op == RelOp::Ge
    &&& post.cons@[base + 1].terms@ == seq![
        ConTerm { var: child.top, coeff: 1i64 },
        ConTerm { var: parent.top, coeff: -1i64 },
    ]
    &&& post.cons@[base + 1].op == RelOp::Ge
    &&& post.cons@[base + 2].terms@ == seq![
        ConTerm { var: child.right, coeff: 1i64 },
        ConTerm { var: parent.right, coeff: -1i64 },
    ]
    &&& post.cons@[base + 2].op == RelOp::Le
    &&& post.cons@[base + 3].terms@ == seq![
        ConTerm { var: child.bottom, coeff: 1i64 },
        ConTerm { var: parent.bottom, coeff: -1i64 },
    ]
    &&& post.cons@[base + 3].op == RelOp::Le
}

/// Hit-test tie-break: when two listed widgets both contain the point,
/// the one at the later position — over a pre-order listing, the
/// later-attached, topmost widget — wins: the hit is some widget at a
/// position no earlier than the later of the two, so it is never the
/// earlier one.
pub proof fn lemma_hit_tie_break(t: WidgetTree, po: Seq<u64>, i: int, j: int, x: u64, y: u64)
    requires
        crate::solver::no_dups(po),
        0 <= i < j < po.len(),
        t.live(po[i]) && t.nodes@[po[i] as int]->0.bounds.spec_contains_point(x, y),
        t.live(po[j]) && t.nodes@[po[j] as int]->0.bounds.spec_contains_point(x, y),
    ensures
        spec_hit_from(t, po, po.len() as int, x, y) is Some,
        spec_hit_from(t, po, po.len() as int, x, y) != Some(po[i]),
        exists|m: int|
            #![trigger po[m]]
            j <= m < po.len() && spec_hit_from(t, po, po.len() as int, x, y) == Some(po[m]),
{
    lemma_hit_from(t, po, po.len() as int, x, y);
    let m = choose|m: int|
        #![trigger po[m]]
        j <= m < po.len() && spec_hit_from(t, po, po.len() as int, x, y) == Some(po[m]);
    assert(po[m] != po[i]);
}

/// The UI coordinator: owns the tree, the constraint store, and the
/// queue of engine notifications, and schedules repaints.
pub struct Ui {
    pub graph: WidgetTree,
    pub solver: LimnSolver,
    pub queue: Vec<(Target, UiEvent)>,
    pub redraw: u32,
    pub should_close: bool,
}

impl Ui {
    /// Coordinator well-formedness: both components are well-formed and
    /// every attached widget's layout variables are ids the store knows.
    pub open spec fn wf(self) -> bool {
        &&& self.graph.wf()
        &&& self.solver.wf()
        &&& forall|i: u64, v: u64|
            self.graph.live(i) && (#[trigger] self.graph.nodes@[i as int]->0.widget.layout.owns(
                v,
            )) ==> v < self.solver.num_vars()
    }

    /// A fresh coordinator with an empty tree and an empty store.
    pub fn new() -> (u: Ui)
        ensures
            u.wf(),
            u.graph.nodes@.len() == 0,
            u.graph.root is None,
            u.solver.num_vars() == 0,
            u.solver.num_cons() == 0,
            u.queue@.len() == 0,
            !u.should_close,
    {
        Ui {
            graph: WidgetTree::new(),
            solver: LimnSolver::new(),
            queue: Vec::new(),
            redraw: 2,
            should_close: false,
        }
    }

    /// Asks the event loop to wind down.
    pub fn close(&mut self)
        ensures
            final (self).should_close,
            final (self).graph == old(self).graph,
            final (self).solver == old(self).solver,
            final (self).queue == old(self).queue,
    {
        self.should_close = true;
    }

    /// Whether the event loop should wind down.
    pub fn should_close(&self) -> (r: bool)
        ensures
            r == self.should_close,
    {
        self.should_close
    }

    /// Schedules a full repaint.
    pub fn redraw(&mut self)
        ensures
            final (self).redraw == 2,
            final (self).graph == old(self).graph,
            final (self).solver == old(self).solver,
            final (self).queue == old(self).queue,
    {
        self.redraw = 2;
    }

    /// Concludes one dispatch pass: when any delivery marked its widget
    /// dirty, a full scene repaint is scheduled for the next frame —
    /// there is no partial invalidation. Reports whether a repaint was
    /// scheduled.
    pub fn finish_dispatch(&mut self, dirty: &Vec<bool>) -> (r: bool)
        ensures
            r == exists|i: int| 0 <= i < dirty@.len() && #[trigger] dirty@[i],
            r ==> final (self).redraw == 2,
            !r ==> final (self).redraw == old(self).redraw,
            final (self).graph == old(self).graph,
            final (self).solver == old(self).solver,
            final (self).queue == old(self).queue,
    {
        let mut any: bool = false;
        let mut i: usize = 0;
        while i < dirty.len()
            invariant
                0 <= i <= dirty@.len(),
                any == exists|j: int| 0 <= j < i && #[trigger] dirty@[j],
            decreases dirty@.len() - i,
        {
            if dirty[i] {
                any = true;
            }
            i += 1;
        }
        if any {
            self.redraw = 2;
        }
        any
    }

    /// Attaches one widget: under a parent whose `bound_children` flag
    /// is set, required contained-within constraints binding the new
    /// widget's box inside the parent's are registered with the batch.
    /// The constraint store is updated first — atomically, so a
    /// conflicting required constraint leaves everything unchanged —
    /// then the node enters the tree, the attachment notifications and
    /// at most one batched layout-change notification are queued, and a
    /// repaint is scheduled.
    pub fn add_widget(&mut self, widget: Widget, update: LayoutUpdate, parent: Option<u64>) -> (r:
        Result<u64, LayoutError>)
        requires
            old(self).wf(),
            forall|v: u64| widget.layout.owns(v) ==> v < old(self).solver.num_vars(),
            forall|j: int, i: int|
                0 <= j < update.constraints@.len() && 0 <= i
                    < update.constraints@[j].terms@.len() ==> (
                #[trigger] update.constraints@[j].terms@[i]).var < old(self).solver.num_vars(),
            forall|j: int|
                0 <= j < update.edit_vars@.len() ==> (#[trigger] update.edit_vars@[j]).var < old(
                    self,
                ).solver.num_vars(),
            forall|j: int|
                0 <= j < update.edit_vars@.len() ==> (#[trigger] update.edit_vars@[j]).strength
                    < crate::strength::REQUIRED,
            old(self).solver.num_cons() + update.constraints@.len() + 4 <= u64::MAX,
            old(self).graph.nodes@.len() < u64::MAX,
            parent is Some ==> old(self).graph.live(parent->0),
            parent is None ==> old(self).graph.root is None,
        ensures
            final (self).wf(),
            r is Ok ==> r->Ok_0 == old(self).graph.nodes@.len() as u64,
            r is Ok ==> final (self).graph.live(r->Ok_0),
            r is Ok ==> final (self).graph.parent_of(r->Ok_0) == parent,
            r is Ok ==> forall|v: u64|
                widget.layout.owns(v) ==> final (self).solver.owner_of(v) == Some(r->Ok_0),
            r is Ok && parent is None ==> final (self).graph.root == Some(r->Ok_0),
            r is Ok ==> final (self).redraw == 2,
            r is Ok ==> final (self).graph.nodes@[r->Ok_0 as int]->0.widget == widget,
            forall|p: u64|
                r is Ok && parent == Some(p) ==> final (self).graph.children_of(p) == old(
                    self,
                ).graph.children_of(p).push(r->Ok_0),
            r is Ok ==> forall|c: u64|
                #[trigger] final (self).solver.live(c) <==> (old(self).solver.live(c) || (old(
                    self,
                ).solver.num_cons() <= c as int && (c as int) < final (self).solver.num_cons())),
            r is Ok && !(parent is Some && old(self).graph.nodes@[
                parent->0 as int
            ]->0.widget.bound_children) ==> final (self).solver.cons@ == old(self).solver.cons@
                + update.constraints@,
            r is Ok && parent is Some && old(self).graph.nodes@[
                parent->0 as int
            ]->0.widget.bound_children ==> spec_containment_registered(
                old(self).solver,
                final (self).solver,
                update.constraints@,
                widget.layout,
                old(self).graph.nodes@[parent->0 as int]->0.widget.layout,
            ),
            r is Ok ==> exists|mid: Seq<(Target, UiEvent)>|
                #[trigger] spec_layout_push(old(self).queue@, mid, final (self).solver)
                    && final (self).queue@ == mid + spec_attach_tail(
                    r->Ok_0,
                    parent,
                    widget.layout,
                ),
            r is Ok && widget.debug_name is Some && widget.layout.distinct() ==> {
                &&& final (self).solver.name_of(widget.layout.left) is Some
                &&& final (self).solver.name_of(widget.layout.left)->0@ == widget.debug_name->0@
                    + ".left"@
                &&& final (self).solver.name_of(widget.layout.top) is Some
                &&& final (self).solver.name_of(widget.layout.top)->0@ == widget.debug_name->0@
                    + ".top"@
                &&& final (self).solver.name_of(widget.layout.right) is Some
                &&& final (self).solver.name_of(widget.layout.right)->0@
                    == widget.debug_name->0@ + ".right"@
                &&& final (self).solver.name_of(widget.layout.bottom) is Some
                &&& final (self).solver.name_of(widget.layout.bottom)->0@
                    == widget.debug_name->0@ + ".bottom"@
                &&& final (self).solver.name_of(widget.layout.width) is Some
                &&& final (self).solver.name_of(widget.layout.width)->0@
                    == widget.debug_name->0@ + ".width"@
                &&& final (self).solver.name_of(widget.layout.height) is Some
                &&& final (self).solver.name_of(widget.layout.height)->0@
                    == widget.debug_name->0@ + ".height"@
            },
            r is Ok ==> forall|v: u64|
                #[trigger] final (self).solver.is_edit(v) <==> (old(self).solver.is_edit(v)
                    || exists|j: int|
                    0 <= j < update.edit_vars@.len() && (#[trigger] update.edit_vars@[j]).var
                        == v),
            r is Err ==> final (self).graph == old(self).graph,
            r is Err ==> final (self).queue@ == old(self).queue@,
            r is Err ==> final (self).redraw == old(self).redraw,
            r is Err ==> forall|c: u64|
                #[trigger] final (self).solver.live(c) == old(self).solver.live(c),
            r is Err ==> forall|v: u64, c: u64|
                #[trigger] final (self).solver.indexed(v, c) == old(self).solver.indexed(v, c),
            r is Err ==> final (self).solver.debug_order() == old(self).solver.debug_order(),
            r is Err ==> crate::solver_backend::backend_edits(final (self).solver.backend)
                == crate::solver_backend::backend_edits(old(self).solver.backend),
            r is Err ==> forall|v: u64|
                final (self).solver.owner_of(v) == old(self).solver.owner_of(v),
            r is Err ==> forall|v: u64|
                final (self).solver.name_of(v) == old(self).solver.name_of(v),
            update.constraints@.len() == 0 && !(parent is Some && old(self).graph.nodes@[
                parent->0 as int
            ]->0.widget.bound_children) ==> r is Ok,
            old(self).queue@.is_prefix_of(final (self).queue@),
            layout_event_count(final (self).queue@) <= layout_event_count(old(self).queue@) + 1,
    {
        let wid: u64 = self.graph.nodes.len() as u64;
        let mut upd = update;
        match parent {
            Some(p) => {
                let pu: usize = p as usize;
                proof {
                    assert(self.graph.nodes@.len() <= u64::MAX);
                    assert(pu as int == p as int);
                }
                let pdata: Option<LayoutVars> = match &self.graph.nodes[pu] {
                    Some(node) => if node.widget.bound_children {
                        Some(node.widget.layout)
                    } else {
                        None
                    },
                    None => None,
                };
                match pdata {
                    Some(plv) => {
                        proof {
                            assert(self.graph.nodes@[p as int]->0.widget.layout == plv);
                            assert(forall|v: u64|
                                plv.owns(v) ==> v < self.solver.num_vars());
                        }
                        let mut bc = bound_by(&widget.layout, &plv);
                        upd.constraints.append(&mut bc);
                    },
                    None => {},
                }
            },
            None => {},
        }
        proof {
            assert forall|j: int, i: int|
                0 <= j < upd.constraints@.len() && 0 <= i < upd.constraints@[j].terms@.len()
                    implies (#[trigger] upd.constraints@[j].terms@[i]).var
                    < self.solver.num_vars() by {
                if j < update.constraints@.len() {
                    assert(upd.constraints@[j] == update.constraints@[j]);
                } else {
                    assert(upd.constraints@[j].references(upd.constraints@[j].terms@[i].var));
                }
            }
        }
        let ghost evs0 = upd.edit_vars@;
        proof {
            assert(evs0 == update.edit_vars@);
        }
        let batch = match self.solver.add_widget(wid, &widget, upd) {
            Err(e) => {
                return Err(e);
            },
            Ok(b) => b,
        };
        let ghost sol1 = self.solver;
        let layout = widget.layout;
        let id = self.graph.add_widget(widget, parent);
        let ghost qpre = self.queue@;
        match batch {
            Some(b) => {
                let ghost q0 = self.queue@;
                self.queue.push((Target::Ui, UiEvent::Layout(b)));
                proof {
                    Self::lemma_layout_count_push(q0, (Target::Ui, UiEvent::Layout(b)));
                    assert(self.queue@.subrange(0, qpre.len() as int) =~= qpre);
                    assert(spec_layout_push(qpre, self.queue@, self.solver));
                }
            },
            None => {
                proof {
                    assert(spec_layout_push(qpre, self.queue@, self.solver));
                }
            },
        }
        let ghost q1 = self.queue@;
        self.queue.push((Target::Widget(id), UiEvent::WidgetAttached));
        proof {
            Self::lemma_layout_count_push(q1, (Target::Widget(id), UiEvent::WidgetAttached));
        }
        match parent {
            Some(p) => {
                let ghost q2 = self.queue@;
                self.queue.push((Target::Widget(p), UiEvent::ChildAttached(id, layout)));
                proof {
                    Self::lemma_layout_count_push(
                        q2,
                        (Target::Widget(p), UiEvent::ChildAttached(id, layout)),
                    );
                }
            },
            None => {},
        }
        self.redraw = 2;
        proof {
            assert forall|i: u64, v: u64|
                self.graph.live(i) && (#[trigger] self.graph.nodes@[
                    i as int
                ]->0.widget.layout.owns(v)) implies v < self.solver.num_vars() by {
                if i != id {
                    assert(old(self).graph.live(i));
                    assert(self.graph.nodes@[i as int]->0.widget == old(self).graph.nodes@[
                        i as int
                    ]->0.widget);
                } else {
                    assert(self.graph.nodes@[i as int]->0.widget == widget);
                }
            }
            assert(old(self).queue@.is_prefix_of(self.queue@));
            assert(spec_layout_push(old(self).queue@, q1, self.solver));
            assert(self.queue@ =~= q1 + spec_attach_tail(id, parent, layout));
            assert forall|c: u64|
                #[trigger] self.solver.live(c) <==> (old(self).solver.live(c) || (old(
                    self,
                ).solver.num_cons() <= c as int && (c as int) < self.solver.num_cons())) by {}
            if parent is Some && old(self).graph.nodes@[
                parent->0 as int
            ]->0.widget.bound_children {
                assert(self.solver.cons@.subrange(0, old(self).solver.num_cons())
                    =~= old(self).solver.cons@);
                assert(self.solver.cons@.subrange(
                    old(self).solver.num_cons(),
                    old(self).solver.num_cons() + update.constraints@.len(),
                ) =~= update.constraints@);
            } else {
                assert(self.solver.cons@ =~= old(self).solver.cons@ + update.constraints@);
            }
            assert forall|v: u64|
                #[trigger] self.solver.is_edit(v) <==> (old(self).solver.is_edit(v) || exists|
                    j: int,
                |
                    0 <= j < update.edit_vars@.len() && (#[trigger] update.edit_vars@[j]).var
                        == v) by {
                assert(sol1.is_edit(v) <==> (old(self).solver.is_edit(v) || exists|j: int|
                    0 <= j < evs0.len() && (#[trigger] evs0[j]).var == v));
                assert(self.solver == sol1);
                if exists|j: int| 0 <= j < evs0.len() && (#[trigger] evs0[j]).var == v {
                    let j = choose|j: int| 0 <= j < evs0.len() && (#[trigger] evs0[j]).var == v;
                    assert(update.edit_vars@[j].var == v);
                }
                if exists|j: int|
                    0 <= j < update.edit_vars@.len() && (#[trigger] update.edit_vars@[j]).var
                        == v {
                    let j = choose|j: int|
                        0 <= j < update.edit_vars@.len() && (#[trigger] update.edit_vars@[
                            j
                        ]).var == v;
                    assert(evs0[j].var == v);
                }
            }
        }
        Ok(id)
    }

    /// Attaches the root widget, naming it for diagnostics.
    pub fn set_root(&mut self, widget: Widget, update: LayoutUpdate) -> (r: Result<
        u64,
        LayoutError,
    >)
        requires
            old(self).wf(),
            forall|v: u64| widget.layout.owns(v) ==> v < old(self).solver.num_vars(),
            forall|j: int, i: int|
                0 <= j < update.constraints@.len() && 0 <= i
                    < update.constraints@[j].terms@.len() ==> (
                #[trigger] update.constraints@[j].terms@[i]).var < old(self).solver.num_vars(),
            forall|j: int|
                0 <= j < update.edit_vars@.len() ==> (#[trigger] update.edit_vars@[j]).var < old(
                    self,
                ).solver.num_vars(),
            forall|j: int|
                0 <= j < update.edit_vars@.len() ==> (#[trigger] update.edit_vars@[j]).strength
                    < crate::strength::REQUIRED,
            old(self).solver.num_cons() + update.constraints@.len() + 4 <= u64::MAX,
            old(self).graph.nodes@.len() < u64::MAX,
            old(self).graph.root is None,
        ensures
            final (self).wf(),
            r is Ok ==> final (self).graph.root == Some(r->Ok_0),
            r is Ok ==> final (self).graph.live(r->Ok_0),
            r is Ok ==> final (self).graph.nodes@[r->Ok_0 as int]->0.widget.debug_name is Some,
            r is Ok ==> final (self).graph.nodes@[
                r->Ok_0 as int
            ]->0.widget.debug_name->0@ == "root"@,
            r is Ok ==> final (self).graph.nodes@[r->Ok_0 as int]->0.widget.layout
                == widget.layout,
            r is Ok && widget.layout.distinct() ==> {
                &&& final (self).solver.name_of(widget.layout.left) is Some
                &&& final (self).solver.name_of(widget.layout.left)->0@ == "root"@ + ".left"@
                &&& final (self).solver.name_of(widget.layout.top) is Some
                &&& final (self).solver.name_of(widget.layout.top)->0@ == "root"@ + ".top"@
                &&& final (self).solver.name_of(widget.layout.right) is Some
                &&& final (self).solver.name_of(widget.layout.right)->0@ == "root"@ + ".right"@
                &&& final (self).solver.name_of(widget.layout.bottom) is Some
                &&& final (self).solver.name_of(widget.layout.bottom)->0@ == "root"@
                    + ".bottom"@
                &&& final (self).solver.name_of(widget.layout.width) is Some
                &&& final (self).solver.name_of(widget.layout.width)->0@ == "root"@ + ".width"@
                &&& final (self).solver.name_of(widget.layout.height) is Some
                &&& final (self).solver.name_of(widget.layout.height)->0@ == "root"@
                    + ".height"@
            },
            r is Ok ==> final (self).solver.cons@ == old(self).solver.cons@
                + update.constraints@,
            r is Ok ==> forall|c: u64|
                #[trigger] final (self).solver.live(c) <==> (old(self).solver.live(c) || (old(
                    self,
                ).solver.num_cons() <= c as int && (c as int) < final (self).solver.num_cons())),
            r is Ok ==> forall|v: u64|
                #[trigger] final (self).solver.is_edit(v) <==> (old(self).solver.is_edit(v)
                    || exists|j: int|
                    0 <= j < update.edit_vars@.len() && (#[trigger] update.edit_vars@[j]).var
                        == v),
            r is Ok ==> final (self).redraw == 2,
            r is Err ==> final (self).graph == old(self).graph,
            r is Err ==> final (self).queue@ == old(self).queue@,
            r is Err ==> final (self).redraw == old(self).redraw,
            r is Err ==> forall|c: u64|
                #[trigger] final (self).solver.live(c) == old(self).solver.live(c),
            r is Err ==> forall|v: u64, c: u64|
                #[trigger] final (self).solver.indexed(v, c) == old(self).solver.indexed(v, c),
            r is Err ==> final (self).solver.debug_order() == old(self).solver.debug_order(),
            r is Err ==> crate::solver_backend::backend_edits(final (self).solver.backend)
                == crate::solver_backend::backend_edits(old(self).solver.backend),
            r is Err ==> forall|v: u64|
                final (self).solver.owner_of(v) == old(self).solver.owner_of(v),
            r is Err ==> forall|v: u64|
                final (self).solver.name_of(v) == old(self).solver.name_of(v),
            update.constraints@.len() == 0 ==> r is Ok,
    {
        let mut w = widget;
        w.debug_name = Some("root".to_owned());
        let r = self.add_widget(w, update, None);
        proof {
            if r is Err {
                assert forall|c: u64|
                    #[trigger] self.solver.live(c) == old(self).solver.live(c) by {}
                assert forall|v: u64, c: u64|
                    #[trigger] self.solver.indexed(v, c) == old(self).solver.indexed(v, c) by {}
            } else {
                assert forall|c: u64|
                    #[trigger] self.solver.live(c) <==> (old(self).solver.live(c) || (old(
                        self,
                    ).solver.num_cons() <= c as int && (c as int) < self.solver.num_cons()))
                    by {}
                assert forall|v: u64|
                    #[trigger] self.solver.is_edit(v) <==> (old(self).solver.is_edit(v)
                        || exists|j: int|
                        0 <= j < update.edit_vars@.len() && (#[trigger] update.edit_vars@[
                            j
                        ]).var == v) by {}
            }
        }
        r
    }

    /// Pushing one event raises the layout-notification count by one
    /// when it is a layout notification, and not at all otherwise.
    proof fn lemma_layout_count_push(s: Seq<(Target, UiEvent)>, e: (Target, UiEvent))
        ensures
            layout_event_count(s.push(e)) == layout_event_count(s) + if is_layout_event(e) {
                1int
            } else {
                0int
            },
    {
        assert(s.push(e).drop_last() =~= s);
        assert(s.push(e).last() == e);
    }

    /// Detaches one widget: a detachment notification is queued, and
    /// when the widget is attached, it leaves the tree and every
    /// constraint referencing any of its layout variables leaves the
    /// solver; at most one batched layout-change notification follows.
    /// A stale id queues the notification and is otherwise a silent
    /// no-op.
    pub fn remove_widget(&mut self, id: u64)
        requires
            old(self).wf(),
        ensures
            final (self).wf(),
            !final (self).graph.live(id),
            old(self).graph.live(id) ==> forall|c: u64|
                #[trigger] final (self).solver.live(c) <==> (old(self).solver.live(c) && !old(
                    self,
                ).solver.touches(c, old(self).graph.nodes@[id as int]->0.widget.layout)),
            !old(self).graph.live(id) ==> final (self).graph == old(self).graph,
            !old(self).graph.live(id) ==> final (self).solver == old(self).solver,
            forall|i: u64|
                i != id ==> (#[trigger] final (self).graph.live(i)) == old(self).graph.live(i),
            forall|i: u64|
                i != id && old(self).graph.parent_of(i) != Some(id) ==> final (
                self).graph.parent_of(i) == old(self).graph.parent_of(i),
            forall|i: u64|
                i != id && old(self).graph.parent_of(i) == Some(id) ==> final (
                self).graph.parent_of(i) is None,
            forall|i: u64, c: u64|
                i != id ==> ((#[trigger] final (self).graph.children_of(i).contains(c)) <==> (
                old(self).graph.children_of(i).contains(c) && c != id)),
            forall|i: u64|
                i != id && old(self).graph.live(i) ==> (#[trigger] final (self).graph.nodes@[
                    i as int
                ]->0.widget) == old(self).graph.nodes@[i as int]->0.widget,
            old(self).graph.live(id) ==> final (self).graph.root == (if old(self).graph.root
                == Some(id) {
                None::<u64>
            } else {
                old(self).graph.root
            }),
            old(self).graph.live(id) ==> final (self).redraw == 2,
            final (self).queue@[old(self).queue@.len() as int] == (
                Target::Widget(id),
                UiEvent::WidgetDetached,
            ),
            spec_layout_push(
                old(self).queue@.push((Target::Widget(id), UiEvent::WidgetDetached)),
                final (self).queue@,
                final (self).solver,
            ),
            old(self).queue@.is_prefix_of(final (self).queue@),
            layout_event_count(final (self).queue@) <= layout_event_count(old(self).queue@) + 1,
    {
        let ghost q0 = self.queue@;
        self.queue.push((Target::Widget(id), UiEvent::WidgetDetached));
        let ghost q1 = self.queue@;
        proof {
            Self::lemma_layout_count_push(q0, (Target::Widget(id), UiEvent::WidgetDetached));
            assert(q1 == q0.push((Target::Widget(id), UiEvent::WidgetDetached)));
        }
        let n: usize = self.graph.nodes.len();
        if id < self.graph.nodes.len() as u64 {
            let idu: usize = id as usize;
            proof {
                assert(idu as int == id as int);
            }
            let lv: Option<LayoutVars> = match &self.graph.nodes[idu] {
                Some(node) => Some(node.widget.layout),
                None => None,
            };
            match lv {
                Some(layout) => {
                    proof {
                        assert(self.graph.nodes@[id as int]->0.widget.layout.owns(layout.left));
                        assert(forall|v: u64|
                            layout.owns(v) ==> self.graph.nodes@[
                                id as int
                            ]->0.widget.layout.owns(v));
                    }
                    self.graph.remove_widget(id);
                    let batch = self.solver.remove_widget(&layout);
                    match batch {
                        Some(b) => {
                            let ghost q2 = self.queue@;
                            self.queue.push((Target::Ui, UiEvent::Layout(b)));
                            proof {
                                Self::lemma_layout_count_push(
                                    q2,
                                    (Target::Ui, UiEvent::Layout(b)),
                                );
                                assert(self.queue@.subrange(0, q1.len() as int) =~= q1);
                                assert(spec_layout_push(q1, self.queue@, self.solver));
                            }
                        },
                        None => {
                            proof {
                                assert(spec_layout_push(q1, self.queue@, self.solver));
                            }
                        },
                    }
                    self.redraw = 2;
                    proof {
                        assert forall|i: u64, v: u64|
                            self.graph.live(i) && (#[trigger] self.graph.nodes@[
                                i as int
                            ]->0.widget.layout.owns(v)) implies v < self.solver.num_vars() by {
                            assert(i != id);
                            assert(old(self).graph.live(i));
                            assert(self.graph.parent_of(i) == self.graph.parent_of(i));
                            assert(old(self).graph.nodes@[i as int]->0.widget.layout.owns(v))
                                by {
                                if old(self).graph.parent_of(i) == Some(id) {
                                    assert(self.graph.nodes@[i as int]->0.widget == old(
                                        self,
                                    ).graph.nodes@[i as int]->0.widget);
                                } else {
                                    assert(self.graph.nodes@[i as int]->0.widget == old(
                                        self,
                                    ).graph.nodes@[i as int]->0.widget);
                                }
                            }
                        }
                        assert(old(self).queue@.is_prefix_of(self.queue@));
                    }
                },
                None => {},
            }
        }
    }

    /// Suggests new root dimensions after a window resize: one batch of
    /// two solver edits, suggesting the given width for the root's
    /// right edge and the given height for its bottom edge, followed by
    /// one change-detection pass. Succeeds exactly when both edges are
    /// registered edit variables; then at most one batched layout
    /// notification is queued and a repaint is scheduled. On failure
    /// nothing is changed.
    pub fn window_resized(&mut self, width: i64, height: i64) -> (r: Result<(), LayoutError>)
        requires
            old(self).wf(),
            old(self).graph.root is Some,
            old(self).graph.live(old(self).graph.root->0),
        ensures
            final (self).wf(),
            final (self).graph == old(self).graph,
            final (self).solver.vars@ == old(self).solver.vars@,
            final (self).solver.cons@ == old(self).solver.cons@,
            final (self).solver.debug_order() == old(self).solver.debug_order(),
            crate::solver_backend::backend_edits(final (self).solver.backend)
                == crate::solver_backend::backend_edits(old(self).solver.backend),
            crate::solver_backend::backend_cons(final (self).solver.backend)
                == crate::solver_backend::backend_cons(old(self).solver.backend),
            r is Ok <==> crate::solver::edits_valid(
                crate::solver_backend::backend_edits(old(self).solver.backend),
                seq![
                    SolverEdit::Suggest {
                        var: old(self).graph.nodes@[
                            old(self).graph.root->0 as int
                        ]->0.widget.layout.right,
                        value: width,
                    },
                    SolverEdit::Suggest {
                        var: old(self).graph.nodes@[
                            old(self).graph.root->0 as int
                        ]->0.widget.layout.bottom,
                        value: height,
                    },
                ],
            ),
            r is Ok <==> (old(self).solver.is_edit(
                old(self).graph.nodes@[old(self).graph.root->0 as int]->0.widget.layout.right,
            ) && old(self).solver.is_edit(
                old(self).graph.nodes@[old(self).graph.root->0 as int]->0.widget.layout.bottom,
            )),
            r is Err ==> r == Result::<(), LayoutError>::Err(LayoutError::UnknownEditVariable),
            r is Err ==> final (self).queue@ == old(self).queue@,
            r is Err ==> final (self).redraw == old(self).redraw,
            r is Ok ==> final (self).redraw == 2,
            spec_layout_push(old(self).queue@, final (self).queue@, final (self).solver),
            old(self).queue@.is_prefix_of(final (self).queue@),
            layout_event_count(final (self).queue@) <= layout_event_count(old(self).queue@) + 1,
    {
        let n: usize = self.graph.nodes.len();
        let r: u64 = match self.graph.root {
            Some(r) => r,
            None => 0,
        };
        let ru: usize = r as usize;
        proof {
            assert(ru as int == r as int);
        }
        let layout: LayoutVars = match &self.graph.nodes[ru] {
            Some(node) => node.widget.layout,
            None => LayoutVars { left: 0, top: 0, right: 0, bottom: 0, width: 0, height: 0 },
        };
        let edits: Vec<SolverEdit> = vec![
            SolverEdit::Suggest { var: layout.right, value: width },
            SolverEdit::Suggest { var: layout.bottom, value: height },
        ];
        proof {
            let s0 = crate::solver_backend::backend_edits(self.solver.backend);
            assert(edits@[0] == (SolverEdit::Suggest { var: layout.right, value: width }));
            assert(edits@[1] == (SolverEdit::Suggest { var: layout.bottom, value: height }));
            assert(crate::solver::edit_step(s0, edits@[0]) == s0);
            assert(edits@.drop_first().drop_first() =~= Seq::<SolverEdit>::empty());
            assert(edits@.drop_first()[0] == edits@[1]);
            assert(crate::solver::edits_valid(s0, edits@.drop_first().drop_first()));
            assert(crate::solver::edits_valid(s0, edits@.drop_first()) <==> s0.contains(
                layout.bottom,
            ));
            assert(crate::solver::edits_valid(s0, edits@) <==> (s0.contains(layout.right)
                && s0.contains(layout.bottom)));
            assert(crate::solver::edit_step(s0, edits@.drop_first()[0]) == s0);
            assert(crate::solver::edits_apply(s0, edits@.drop_first().drop_first()) == s0);
            assert(crate::solver::edits_apply(s0, edits@.drop_first()) == s0);
            assert(crate::solver::edits_apply(s0, edits@) == s0);
        }
        match self.solver.update_solver(&edits) {
            Err(e) => Err(e),
            Ok(batch) => {
                match batch {
                    Some(b) => {
                        let ghost q1 = self.queue@;
                        self.queue.push((Target::Ui, UiEvent::Layout(b)));
                        proof {
                            Self::lemma_layout_count_push(q1, (Target::Ui, UiEvent::Layout(b)));
                            assert(self.queue@.subrange(0, q1.len() as int) =~= q1);
                            assert(spec_layout_push(q1, self.queue@, self.solver));
                        }
                    },
                    None => {},
                }
                self.redraw = 2;
                Ok(())
            },
        }
    }

    /// Finds the widget under the cursor: the last-attached widget, in
    /// pre-order over the whole tree, whose cached bounds contain the
    /// point — so a later-attached sibling wins a tie over an earlier
    /// one it overlaps.
    pub fn widget_under_cursor(&self, x: u64, y: u64) -> (r: Option<u64>)
        requires
            self.wf(),
        ensures
            self.graph.root is None ==> r is None,
            self.graph.root is Some ==> r == spec_hit_from(
                self.graph,
                self.graph.spec_preorder(self.graph.root->0),
                self.graph.spec_preorder(self.graph.root->0).len() as int,
                x,
                y,
            ),
    {
        let root: u64 = match self.graph.root {
            Some(root) => root,
            None => {
                return None;
            },
        };
        let po = self.graph.preorder(root);
        let n: usize = self.graph.nodes.len();
        let mut k: usize = po.len();
        while k > 0
            invariant
                self.wf(),
                0 <= k <= po@.len(),
                n as int == self.graph.nodes@.len(),
                self.graph.root == Some(root),
                self.graph.live(root),
                po@ == self.graph.spec_preorder(root),
                spec_hit_from(self.graph, po@, po@.len() as int, x, y) == spec_hit_from(
                    self.graph,
                    po@,
                    k as int,
                    x,
                    y,
                ),
            decreases k,
        {
            let i: u64 = po[k - 1];
            if i < self.graph.nodes.len() as u64 {
                let iu: usize = i as usize;
                proof {
                    assert(iu as int == i as int);
                }
                let hit: bool = match &self.graph.nodes[iu] {
                    Some(node) => node.bounds.contains_point(x, y),
                    None => false,
                };
                if hit {
                    return Some(i);
                }
            }
            k -= 1;
        }
        None
    }

    /// Routes one event dispatch and reports the widgets delivered to,
    /// in delivery order. Widget handler outcomes are given as a flag
    /// per widget id, meaningful only for bubbling: a bubbled event
    /// climbs from the widget toward the root and stops at the first
    /// widget whose flag is set. A stale id is a silent no-op.
    pub fn handle_event(&self, address: Target, handled: &Vec<bool>) -> (r: Vec<u64>)
        requires
            self.wf(),
        ensures
            match address {
                Target::Widget(i) => r@ == if self.graph.live(i) {
                    seq![i]
                } else {
                    Seq::<u64>::empty()
                },
                Target::Child(i) => r@ == if self.graph.live(i) && self.graph.children_of(
                    i,
                ).len() > 0 {
                    seq![self.graph.children_of(i)[0]]
                } else {
                    Seq::<u64>::empty()
                },
                Target::SubTree(i) => r@ == if self.graph.live(i) {
                    self.graph.spec_preorder(i)
                } else {
                    Seq::<u64>::empty()
                },
                Target::BubbleUp(i) => r@ == if self.graph.live(i) {
                    spec_bubble(self.graph.spec_ancestors(i), handled@)
                } else {
                    Seq::<u64>::empty()
                },
                Target::Ui => r@ == Seq::<u64>::empty(),
            },
    {
        let n: usize = self.graph.nodes.len();
        match address {
            Target::Widget(i) => {
                let mut out: Vec<u64> = Vec::new();
                if i < self.graph.nodes.len() as u64 {
                    let iu: usize = i as usize;
                    proof {
                        assert(iu as int == i as int);
                    }
                    if self.graph.nodes[iu].is_some() {
                        out.push(i);
                    }
                }
                proof {
                    if self.graph.live(i) {
                        assert(out@ =~= seq![i]);
                    } else {
                        assert(out@ =~= Seq::<u64>::empty());
                    }
                }
                out
            },
            Target::Child(i) => {
                let mut out: Vec<u64> = Vec::new();
                if i < self.graph.nodes.len() as u64 {
                    let iu: usize = i as usize;
                    proof {
                        assert(iu as int == i as int);
                    }
                    match &self.graph.nodes[iu] {
                        Some(node) => {
                            if node.children.len() > 0 {
                                out.push(node.children[0]);
                            }
                        },
                        None => {},
                    }
                }
                proof {
                    if self.graph.live(i) && self.graph.children_of(i).len() > 0 {
                        assert(out@ =~= seq![self.graph.children_of(i)[0]]);
                    } else {
                        assert(out@ =~= Seq::<u64>::empty());
                    }
                }
                out
            },
            Target::SubTree(i) => {
                if i < self.graph.nodes.len() as u64 {
                    let iu: usize = i as usize;
                    proof {
                        assert(iu as int == i as int);
                    }
                    if self.graph.nodes[iu].is_some() {
                        return self.graph.preorder(i);
                    }
                }
                Vec::new()
            },
            Target::BubbleUp(i) => {
                let mut out: Vec<u64> = Vec::new();
                if i < self.graph.nodes.len() as u64 {
                    let iu: usize = i as usize;
                    proof {
                        assert(iu as int == i as int);
                    }
                    if self.graph.nodes[iu].is_some() {
                        let chain = self.graph.ancestors_from(i);
                        proof {
                            assert(chain@.subrange(0, chain@.len() as int) == chain@);
                        }
                        let mut k: usize = 0;
                        let mut stopped: bool = false;
                        while k < chain.len() && !stopped
                            invariant
                                0 <= k <= chain@.len(),
                                spec_bubble(chain@, handled@) == if stopped {
                                    out@
                                } else {
                                    out@ + spec_bubble(
                                        chain@.subrange(k as int, chain@.len() as int),
                                        handled@,
                                    )
                                },
                                stopped ==> k <= chain@.len(),
                            decreases chain@.len() - k,
                        {
                            let node_id: u64 = chain[k];
                            out.push(node_id);
                            let flag: bool = if node_id < handled.len() as u64 {
                                let hu: usize = node_id as usize;
                                proof {
                                    assert(handled@.len() <= usize::MAX);
                                    assert(hu as int == node_id as int);
                                }
                                handled[hu]
                            } else {
                                false
                            };
                            proof {
                                let suffix = chain@.subrange(k as int, chain@.len() as int);
                                assert(suffix[0] == chain@[k as int]);
                                assert(suffix.drop_first() =~= chain@.subrange(
                                    k + 1 as int,
                                    chain@.len() as int,
                                ));
                                if flag {
                                    assert(spec_bubble(suffix, handled@) == seq![suffix[0]]);
                                    assert(out@ =~= out@.subrange(0, out@.len() - 1) + seq![
                                        node_id
                                    ]);
                                } else {
                                    assert(spec_bubble(suffix, handled@) == seq![suffix[0]]
                                        + spec_bubble(suffix.drop_first(), handled@));
                                }
                            }
                            if flag {
                                stopped = true;
                            }
                            k += 1;
                        }
                        proof {
                            if !stopped {
                                assert(chain@.subrange(k as int, chain@.len() as int)
                                    =~= Seq::<u64>::empty());
                            }
                            assert(out@ =~= spec_bubble(chain@, handled@));
                        }
                    }
                }
                out
            },
            Target::Ui => {
                Vec::new()
            },
        }
    }

    /// Applies a batched layout-change notification: each entry's value
    /// becomes the owning widget's cached edge position, and a full
    /// repaint is scheduled.
    pub fn handle_layout_change(&mut self, event: &LayoutChanged)
        requires
            old(self).wf(),
        ensures
            final (self).wf(),
            final (self).graph.nodes@ == spec_apply_batch(old(self).graph.nodes@, event.0@),
            final (self).solver == old(self).solver,
            final (self).redraw == 2,
    {
        let handler = LayoutChangeHandler;
        handler.handle(&mut self.graph, event);
        self.redraw = 2;
        proof {
            assert forall|i: u64, v: u64|
                self.graph.live(i) && (#[trigger] self.graph.nodes@[
                    i as int
                ]->0.widget.layout.owns(v)) implies v < self.solver.num_vars() by {
                assert(old(self).graph.live(i));
                Self::lemma_apply_batch_widget(old(self).graph.nodes@, event.0@, i);
            }
        }
    }

    /// Applying a batch never changes a widget's core data.
    proof fn lemma_apply_batch_widget(
        nodes: Seq<Option<WidgetNode>>,
        entries: Seq<(u64, u64, u64)>,
        i: u64,
    )
        requires
            i < nodes.len(),
        ensures
            spec_apply_batch(nodes, entries).len() == nodes.len(),
            spec_apply_batch(nodes, entries)[i as int] is Some <==> nodes[i as int] is Some,
            nodes[i as int] is Some ==> spec_apply_batch(nodes, entries)[i as int]->0.widget
                == nodes[i as int]->0.widget,
        decreases entries.len(),
    {
        if entries.len() > 0 {
            Self::lemma_apply_batch_widget(nodes, entries.drop_last(), i);
        }
    }

    /// Empties the notification queue and hands the drained events to
    /// the caller, oldest first.
    pub fn take_events(&mut self) -> (r: Vec<(Target, UiEvent)>)
        ensures
            r@ == old(self).queue@,
            final (self).queue@.len() == 0,
            final (self).graph == old(self).graph,
            final (self).solver == old(self).solver,
    {
        let mut out: Vec<(Target, UiEvent)> = Vec::new();
        core::mem::swap(&mut out, &mut self.queue);
        out
    }
}

} // verus!
