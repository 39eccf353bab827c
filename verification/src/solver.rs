//! The constraint store: incremental add/remove of widget constraints
//! with the indices that keep variables, constraints and owning widgets
//! in sync, and batched change notifications.
//!
//! The store wraps the solver backend and maintains, entirely verified:
//! a per-variable index of the live constraints referencing it, a
//! per-constraint record of the variables its terms reference, the
//! variable-to-widget ownership map used to route change notifications,
//! and an insertion-ordered listing of the live constraints for
//! diagnostics.

use vstd::prelude::*;

use linked_hash_map::LinkedHashMap;

use crate::layout::{ConstraintSpec, EditSpec, LayoutError, LayoutUpdate, LayoutVars, Widget};
use crate::ordered_map::{lh_insert, lh_keys, lh_new, lh_remove, ordered_keys};
use crate::solver_backend::{backend_cons, backend_edits, backend_vars, SolverBackend};

verus! {

/// Whether a sequence of ids holds no id twice.
pub open spec fn no_dups(s: Seq<u64>) -> bool {
    forall|i: int, j: int| 0 <= i < j < s.len() ==> s[i] != s[j]
}

/// Membership in a filtered sequence: exactly the members that pass the
/// predicate.
pub proof fn lemma_filter_mem(s: Seq<u64>, pred: spec_fn(u64) -> bool)
    ensures
        forall|x: u64| #[trigger] s.filter(pred).contains(x) <==> s.contains(x) && pred(x),
    decreases s.len(),
{
    broadcast use vstd::seq_lib::lemma_seq_contains_after_push;

    reveal(Seq::filter);
    if s.len() > 0 {
        lemma_filter_mem(s.drop_last(), pred);
        assert forall|x: u64|
            #![trigger s.filter(pred).contains(x)]
            (s.filter(pred).contains(x) <==> s.contains(x) && pred(x)) by {
            assert(s =~= s.drop_last().push(s.last()));
            assert(s.contains(x) == s.drop_last().push(s.last()).contains(x));
            assert(s.drop_last().filter(pred).contains(x) <==> s.drop_last().contains(x) && pred(
                x,
            ));
            if pred(s.last()) {
                assert(s.filter(pred) == s.drop_last().filter(pred).push(s.last()));
            } else {
                assert(s.filter(pred) == s.drop_last().filter(pred));
            }
        }
    } else {
        assert(s.filter(pred).len() == 0);
    }
}

/// Filtering keeps a duplicate-free sequence duplicate-free.
pub proof fn lemma_filter_no_dups(s: Seq<u64>, pred: spec_fn(u64) -> bool)
    requires
        no_dups(s),
    ensures
        no_dups(s.filter(pred)),
    decreases s.len(),
{
    reveal(Seq::filter);
    if s.len() > 0 {
        assert(forall|i: int|
            0 <= i < s.drop_last().len() ==> #[trigger] s.drop_last()[i] == s[i]);
        assert(no_dups(s.drop_last()));
        lemma_filter_no_dups(s.drop_last(), pred);
        lemma_filter_mem(s.drop_last(), pred);
        let fsub = s.drop_last().filter(pred);
        if pred(s.last()) {
            assert(!s.drop_last().contains(s.last())) by {
                if s.drop_last().contains(s.last()) {
                    let i = choose|i: int|
                        0 <= i < s.drop_last().len() && s.drop_last()[i] == s.last();
                    assert(s[i] == s[s.len() - 1]);
                }
            }
            assert(!fsub.contains(s.last()));
            let f = fsub.push(s.last());
            assert(s.filter(pred) == f);
            assert forall|i: int, j: int| 0 <= i < j < f.len() implies f[i] != f[j] by {
                if j == f.len() - 1 {
                    assert(f[i] == fsub[i]);
                    assert(fsub.contains(fsub[i]));
                }
            }
        } else {
            assert(s.filter(pred) == fsub);
        }
    }
}

/// Filtering with a predicate that holds everywhere changes nothing.
pub proof fn lemma_filter_id(s: Seq<u64>, pred: spec_fn(u64) -> bool)
    requires
        forall|i: int| 0 <= i < s.len() ==> pred(#[trigger] s[i]),
    ensures
        s.filter(pred) == s,
    decreases s.len(),
{
    reveal(Seq::filter);
    if s.len() > 0 {
        assert(forall|i: int|
            0 <= i < s.drop_last().len() ==> pred(#[trigger] s.drop_last()[i]));
        lemma_filter_id(s.drop_last(), pred);
        assert(s.filter(pred) == s.drop_last().push(s.last()));
        assert(s =~= s.drop_last().push(s.last()));
    }
}

/// Filtering twice is one filter: a predicate equal on the members to
/// the conjunction collapses the two passes.
pub proof fn lemma_filter_twice(
    s: Seq<u64>,
    p: spec_fn(u64) -> bool,
    q: spec_fn(u64) -> bool,
    r: spec_fn(u64) -> bool,
)
    requires
        forall|i: int| 0 <= i < s.len() ==> ((p(#[trigger] s[i]) && q(s[i])) == r(s[i])),
    ensures
        s.filter(p).filter(q) == s.filter(r),
    decreases s.len(),
{
    reveal(Seq::filter);
    if s.len() > 0 {
        assert(forall|i: int|
            0 <= i < s.drop_last().len() ==> #[trigger] s.drop_last()[i] == s[i]);
        lemma_filter_twice(s.drop_last(), p, q, r);
        let l = s.last();
        assert((p(l) && q(l)) == r(l)) by {
            assert(s[s.len() - 1] == l);
        }
        let fsub = s.drop_last().filter(p);
        if p(l) {
            assert(s.filter(p) == fsub.push(l));
            assert(fsub.push(l).drop_last() == fsub);
            if q(l) {
                assert(s.filter(p).filter(q) == fsub.filter(q).push(l));
                assert(s.filter(r) == s.drop_last().filter(r).push(l));
            } else {
                assert(s.filter(p).filter(q) == fsub.filter(q));
                assert(s.filter(r) == s.drop_last().filter(r));
            }
        } else {
            assert(s.filter(p) == fsub);
            assert(s.filter(r) == s.drop_last().filter(r));
        }
    }
}

/// Filters with predicates that agree on the sequence's members agree.
pub proof fn lemma_filter_congruence(s: Seq<u64>, p: spec_fn(u64) -> bool, q: spec_fn(u64) -> bool)
    requires
        forall|i: int| 0 <= i < s.len() ==> p(#[trigger] s[i]) == q(s[i]),
    ensures
        s.filter(p) == s.filter(q),
    decreases s.len(),
{
    reveal(Seq::filter);
    if s.len() > 0 {
        assert(forall|i: int|
            0 <= i < s.drop_last().len() ==> #[trigger] s.drop_last()[i] == s[i]);
        lemma_filter_congruence(s.drop_last(), p, q);
        assert(p(s.last()) == q(s.last())) by {
            assert(s[s.len() - 1] == s.last());
        }
    }
}

/// Whether a list of ids contains `x`.
pub(crate) fn vec_contains(l: &Vec<u64>, x: u64) -> (r: bool)
    ensures
        r == l@.contains(x),
{
    let mut i: usize = 0;
    while i < l.len()
        invariant
            0 <= i <= l@.len(),
            forall|j: int| 0 <= j < i ==> l@[j] != x,
        decreases l@.len() - i,
    {
        if l[i] == x {
            return true;
        }
        i += 1;
    }
    false
}

/// Removes every occurrence of `x` from a duplicate-free list, keeping
/// the order of the rest.
pub(crate) fn vec_remove_val(l: &Vec<u64>, x: u64) -> (r: Vec<u64>)
    requires
        no_dups(l@),
    ensures
        no_dups(r@),
        !r@.contains(x),
        forall|y: u64| y != x ==> (r@.contains(y) <==> l@.contains(y)),
        r@.len() <= l@.len(),
        l@.contains(x) ==> r@.len() < l@.len(),
{
    let mut r: Vec<u64> = Vec::new();
    let mut i: usize = 0;
    while i < l.len()
        invariant
            0 <= i <= l@.len(),
            no_dups(l@),
            no_dups(r@),
            !r@.contains(x),
            forall|y: u64| r@.contains(y) ==> l@.subrange(0, i as int).contains(y),
            forall|y: u64|
                y != x ==> (r@.contains(y) <==> l@.subrange(0, i as int).contains(y)),
            r@.len() <= i,
            l@.subrange(0, i as int).contains(x) ==> r@.len() < i,
        decreases l@.len() - i,
    {
        let v = l[i];
        if v != x {
            proof {
                if r@.contains(v) {
                    let j = choose|j: int| 0 <= j < i && l@.subrange(0, i as int)[j] == v;
                    assert(l@[j] == v && l@[i as int] == v);
                    assert(false);
                }
            }
            r.push(v);
        }
        proof {
            broadcast use vstd::seq_lib::lemma_seq_contains_after_push;

            assert(l@.subrange(0, i + 1 as int) =~= l@.subrange(0, i as int).push(l@[i as int]));
        }
        i += 1;
    }
    proof {
        assert(l@.subrange(0, l@.len() as int) == l@);
    }
    r
}

/// One direct solver edit: the escape hatch for cross-cutting
/// operations such as a window resize.
#[derive(Clone, Copy, PartialEq, Eq, Structural, Debug)]
pub enum SolverEdit {
    /// Registers a variable as an edit variable; one already registered
    /// is left as it is.
    AddEditVar { var: u64, strength: u64 },
    /// Drops an edit-variable registration.
    RemoveEditVar { var: u64 },
    /// Suggests an integer value for an edit variable.
    Suggest { var: u64, value: i64 },
}

/// Whether one edit is legal against the given set of registered edit
/// variables: removal and suggestion demand a registered variable.
pub open spec fn edit_ok(s: Set<u64>, e: SolverEdit) -> bool {
    match e {
        SolverEdit::AddEditVar { .. } => true,
        SolverEdit::RemoveEditVar { var } => s.contains(var),
        SolverEdit::Suggest { var, .. } => s.contains(var),
    }
}

/// The set of registered edit variables after one edit.
pub open spec fn edit_step(s: Set<u64>, e: SolverEdit) -> Set<u64> {
    match e {
        SolverEdit::AddEditVar { var, .. } => s.insert(var),
        SolverEdit::RemoveEditVar { var } => s.remove(var),
        SolverEdit::Suggest { .. } => s,
    }
}

/// Whether a whole batch of edits is legal, applied left to right.
pub open spec fn edits_valid(s: Set<u64>, l: Seq<SolverEdit>) -> bool
    decreases l.len(),
{
    l.len() == 0 || (edit_ok(s, l[0]) && edits_valid(edit_step(s, l[0]), l.drop_first()))
}

/// The set of registered edit variables after a whole batch.
pub open spec fn edits_apply(s: Set<u64>, l: Seq<SolverEdit>) -> Set<u64>
    decreases l.len(),
{
    if l.len() == 0 {
        s
    } else {
        edits_apply(edit_step(s, l[0]), l.drop_first())
    }
}

/// Validity and application of a batch split at any point: the whole
/// batch is legal exactly when the first part is and the second part is
/// against the state the first part leaves.
pub proof fn lemma_edits_split(s: Set<u64>, a: Seq<SolverEdit>, b: Seq<SolverEdit>)
    ensures
        edits_valid(s, a + b) <==> (edits_valid(s, a) && edits_valid(edits_apply(s, a), b)),
        edits_apply(s, a + b) == edits_apply(edits_apply(s, a), b),
    decreases a.len(),
{
    if a.len() == 0 {
        assert(a + b =~= b);
    } else {
        lemma_edits_split(edit_step(s, a[0]), a.drop_first(), b);
        assert((a + b).drop_first() =~= a.drop_first() + b);
        assert((a + b)[0] == a[0]);
    }
}

/// Per-variable bookkeeping: the live constraints referencing the
/// variable, the widget owning it, and its diagnostic name.
pub struct VarRecord {
    pub cons: Vec<u64>,
    pub owner: Option<u64>,
    pub name: Option<String>,
}

/// One batched layout-change notification: the `(widget, variable,
/// resolved value)` triples of one change-detection pass. Values are
/// the bit patterns of the resolved doubles.
#[derive(Debug)]
pub struct LayoutChanged(pub Vec<(u64, u64, u64)>);

/// The constraint store.
pub struct LimnSolver {
    pub backend: SolverBackend,
    pub vars: Vec<VarRecord>,
    pub cons: Vec<ConstraintSpec>,
    pub debug_list: LinkedHashMap<u64, ()>,
}

impl LimnSolver {
    /// Number of variables allocated so far; ids below this are valid.
    pub open spec fn num_vars(self) -> int {
        self.vars@.len() as int
    }

    /// Number of constraints ever registered; ids below this are known.
    pub open spec fn num_cons(self) -> int {
        self.cons@.len() as int
    }

    /// Whether constraint id `c` is currently held by the solver.
    pub open spec fn live(self, c: u64) -> bool {
        backend_cons(self.backend).contains(c)
    }

    /// Whether id `v` is registered as an edit variable.
    pub open spec fn is_edit(self, v: u64) -> bool {
        backend_edits(self.backend).contains(v)
    }

    /// Whether registered constraint `c` references variable `v`.
    pub open spec fn con_refs(self, c: u64, v: u64) -> bool {
        c < self.num_cons() && self.cons@[c as int].references(v)
    }

    /// Whether the per-variable index of `v` lists constraint `c`.
    pub open spec fn indexed(self, v: u64, c: u64) -> bool {
        v < self.num_vars() && self.vars@[v as int].cons@.contains(c)
    }

    /// Whether constraint `c` references any of the variables `lv`.
    pub open spec fn touches(self, c: u64, lv: LayoutVars) -> bool {
        exists|v: u64| lv.owns(v) && self.con_refs(c, v)
    }

    /// The widget owning variable `v`, if any.
    pub open spec fn owner_of(self, v: u64) -> Option<u64> {
        if v < self.num_vars() {
            self.vars@[v as int].owner
        } else {
            None
        }
    }

    /// The diagnostic name of variable `v`, if any.
    pub open spec fn name_of(self, v: u64) -> Option<String> {
        if v < self.num_vars() {
            self.vars@[v as int].name
        } else {
            None
        }
    }

    /// The live constraints in insertion order, for diagnostics.
    pub open spec fn debug_order(self) -> Seq<u64> {
        ordered_keys(self.debug_list)
    }

    /// Well-formedness: ids below `num_vars` are exactly the registered
    /// variables; every live or edit registration is a known id; every
    /// registered constraint references only allocated variables; the
    /// per-variable indices list exactly the live constraints that
    /// reference the variable, each once; and the diagnostic listing
    /// holds exactly the live constraints, each once.
    pub open spec fn wf(self) -> bool {
        &&& forall|v: u64| #[trigger] backend_vars(self.backend).contains(v) <==> v < self.num_vars()
        &&& forall|v: u64| #[trigger] self.is_edit(v) ==> v < self.num_vars()
        &&& forall|c: u64| #[trigger] self.live(c) ==> c < self.num_cons()
        &&& forall|c: int, i: int|
            0 <= c < self.num_cons() && 0 <= i < self.cons@[c].terms@.len() ==> (
            #[trigger] self.cons@[c].terms@[i]).var < self.num_vars()
        &&& forall|v: u64, c: u64| #[trigger] self.indexed(v, c) ==> self.live(c) && self.con_refs(c, v)
        &&& forall|v: u64, c: u64|
            self.live(c) && #[trigger] self.con_refs(c, v) ==> self.indexed(v, c)
        &&& forall|v: int| 0 <= v < self.num_vars() ==> no_dups((#[trigger] self.vars@[v]).cons@)
        &&& forall|c: u64| #[trigger] self.debug_order().contains(c) <==> self.live(c)
        &&& no_dups(self.debug_order())
    }

    /// Well-formedness depends only on the backend's three sets, the
    /// records, and the diagnostic ordering: a step that moves none of
    /// them keeps it.
    proof fn lemma_wf_frame(pre: LimnSolver, post: LimnSolver)
        requires
            pre.wf(),
            backend_vars(post.backend) == backend_vars(pre.backend),
            backend_edits(post.backend) == backend_edits(pre.backend),
            backend_cons(post.backend) == backend_cons(pre.backend),
            post.vars@ == pre.vars@,
            post.cons@ == pre.cons@,
            post.debug_order() == pre.debug_order(),
        ensures
            post.wf(),
    {
        assert forall|v: u64| #[trigger] backend_vars(post.backend).contains(v) <==> v
            < post.num_vars() by {
            assert(backend_vars(pre.backend).contains(v) <==> v < pre.num_vars());
        }
        assert forall|v: u64| #[trigger] post.is_edit(v) implies v < post.num_vars() by {
            assert(pre.is_edit(v));
        }
        assert forall|c: u64| #[trigger] post.live(c) implies c < post.num_cons() by {
            assert(pre.live(c));
        }
        assert forall|v: u64, c: u64| #[trigger] post.indexed(v, c) implies post.live(c)
            && post.con_refs(c, v) by {
            assert(pre.indexed(v, c));
        }
        assert forall|v: u64, c: u64|
            post.live(c) && #[trigger] post.con_refs(c, v) implies post.indexed(v, c) by {
            assert(pre.live(c) && pre.con_refs(c, v));
            assert(pre.indexed(v, c));
        }
        assert forall|c: u64| #[trigger] post.debug_order().contains(c) <==> post.live(c) by {
            assert(pre.debug_order().contains(c) <==> pre.live(c));
        }
    }

    /// Like `lemma_wf_frame`, for a step that may move the edit set as
    /// long as every edit variable stays a known id.
    proof fn lemma_wf_frame_edits(pre: LimnSolver, post: LimnSolver)
        requires
            pre.wf(),
            backend_vars(post.backend) == backend_vars(pre.backend),
            backend_cons(post.backend) == backend_cons(pre.backend),
            post.vars@ == pre.vars@,
            post.cons@ == pre.cons@,
            post.debug_order() == pre.debug_order(),
            forall|v: u64| #[trigger] post.is_edit(v) ==> v < post.num_vars(),
        ensures
            post.wf(),
    {
        assert forall|v: u64| #[trigger] backend_vars(post.backend).contains(v) <==> v
            < post.num_vars() by {
            assert(backend_vars(pre.backend).contains(v) <==> v < pre.num_vars());
        }
        assert forall|c: u64| #[trigger] post.live(c) implies c < post.num_cons() by {
            assert(pre.live(c));
        }
        assert forall|v: u64, c: u64| #[trigger] post.indexed(v, c) implies post.live(c)
            && post.con_refs(c, v) by {
            assert(pre.indexed(v, c));
        }
        assert forall|v: u64, c: u64|
            post.live(c) && #[trigger] post.con_refs(c, v) implies post.indexed(v, c) by {
            assert(pre.live(c) && pre.con_refs(c, v));
            assert(pre.indexed(v, c));
        }
        assert forall|c: u64| #[trigger] post.debug_order().contains(c) <==> post.live(c) by {
            assert(pre.debug_order().contains(c) <==> pre.live(c));
        }
    }

    /// A fresh store: no variables, no constraints, no edit variables.
    pub fn new() -> (s: LimnSolver)
        ensures
            s.wf(),
            s.num_vars() == 0,
            s.num_cons() == 0,
            backend_cons(s.backend) == Set::<u64>::empty(),
            backend_edits(s.backend) == Set::<u64>::empty(),
            s.debug_order() == Seq::<u64>::empty(),
    {
        LimnSolver {
            backend: SolverBackend::new(),
            vars: Vec::new(),
            cons: Vec::new(),
            debug_list: lh_new(),
        }
    }

    /// Allocates a fresh variable, registering it with the solver. The
    /// new variable has no owner, no name and no constraints yet.
    pub fn alloc_var(&mut self) -> (v: u64)
        requires
            old(self).wf(),
            old(self).num_vars() < u64::MAX,
        ensures
            final (self).wf(),
            v == old(self).num_vars(),
            final (self).num_vars() == old(self).num_vars() + 1,
            final (self).cons@ == old(self).cons@,
            backend_cons(final (self).backend) == backend_cons(old(self).backend),
            backend_edits(final (self).backend) == backend_edits(old(self).backend),
            final (self).debug_order() == old(self).debug_order(),
            forall|w: int| 0 <= w < old(self).num_vars() ==> final (self).vars@[w] == old(
                self,
            ).vars@[w],
            final (self).owner_of(v) is None,
            final (self).name_of(v) is None,
            final (self).vars@[v as int].cons@ == Seq::<u64>::empty(),
    {
        let v: u64 = self.vars.len() as u64;
        self.backend.register_var(v);
        self.vars.push(VarRecord { cons: Vec::new(), owner: None, name: None });
        proof {
            assert(backend_vars(self.backend) == backend_vars(old(self).backend).insert(v));
            assert forall|w: u64| #[trigger] backend_vars(self.backend).contains(w) <==> w
                < self.num_vars() by {
                if w != v {
                    assert(backend_vars(self.backend).contains(w) == backend_vars(
                        old(self).backend,
                    ).contains(w));
                }
            }
            assert forall|w: u64, c: u64| #[trigger] self.indexed(w, c) implies self.live(c)
                && self.con_refs(c, w) by {
                if w < old(self).num_vars() {
                    assert(old(self).indexed(w, c));
                } else {
                    assert(self.vars@[w as int].cons@.len() == 0);
                }
            }
            assert forall|w: u64, c: u64|
                self.live(c) && #[trigger] self.con_refs(c, w) implies self.indexed(w, c) by {
                assert(old(self).live(c) && old(self).con_refs(c, w));
                assert(old(self).indexed(w, c));
            }
            assert forall|w: u64| #[trigger] self.is_edit(w) implies w < self.num_vars() by {
                assert(old(self).is_edit(w));
            }
            assert forall|c: u64| #[trigger] self.live(c) implies c < self.num_cons() by {
                assert(old(self).live(c));
            }
            assert forall|c: u64| #[trigger] self.debug_order().contains(c) <==> self.live(
                c,
            ) by {
                assert(old(self).debug_order().contains(c) <==> old(self).live(c));
            }
        }
        v
    }

    /// Allocates the six variables of one widget's layout box.
    pub fn alloc_layout_vars(&mut self) -> (lv: LayoutVars)
        requires
            old(self).wf(),
            old(self).num_vars() + 6 <= u64::MAX,
        ensures
            final (self).wf(),
            final (self).num_vars() == old(self).num_vars() + 6,
            final (self).cons@ == old(self).cons@,
            backend_cons(final (self).backend) == backend_cons(old(self).backend),
            backend_edits(final (self).backend) == backend_edits(old(self).backend),
            final (self).debug_order() == old(self).debug_order(),
            lv.left == old(self).num_vars(),
            lv.top == old(self).num_vars() + 1,
            lv.right == old(self).num_vars() + 2,
            lv.bottom == old(self).num_vars() + 3,
            lv.width == old(self).num_vars() + 4,
            lv.height == old(self).num_vars() + 5,
            forall|v: u64| lv.owns(v) ==> old(self).num_vars() <= v < final (self).num_vars(),
            forall|v: u64| lv.owns(v) ==> final (self).owner_of(v) is None,
    {
        let left = self.alloc_var();
        let top = self.alloc_var();
        let right = self.alloc_var();
        let bottom = self.alloc_var();
        let width = self.alloc_var();
        let height = self.alloc_var();
        LayoutVars { left, top, right, bottom, width, height }
    }

    /// The routed form of one change list: entries whose variable is
    /// owned by a widget become `(widget, variable, value)` triples, in
    /// order; entries for unowned variables are dropped silently.
    pub open spec fn spec_route(self, ch: Seq<(u64, u64)>) -> Seq<(u64, u64, u64)>
        decreases ch.len(),
    {
        if ch.len() == 0 {
            Seq::empty()
        } else {
            let rest = self.spec_route(ch.drop_last());
            let last = ch.last();
            match self.owner_of(last.0) {
                Some(w) => rest.push((w, last.0, last.1)),
                None => rest,
            }
        }
    }

    /// Maps a raw change list to owning widgets, dropping variables no
    /// live widget owns.
    pub fn route_changes(&self, changes: &Vec<(u64, u64)>) -> (out: Vec<(u64, u64, u64)>)
        ensures
            out@ == self.spec_route(changes@),
    {
        let mut out: Vec<(u64, u64, u64)> = Vec::new();
        let mut i: usize = 0;
        while i < changes.len()
            invariant
                0 <= i <= changes@.len(),
                out@ == self.spec_route(changes@.subrange(0, i as int)),
            decreases changes@.len() - i,
        {
            let (v, val) = changes[i];
            let vu: usize = v as usize;
            if v < self.vars.len() as u64 {
                match self.vars[vu].owner {
                    Some(w) => {
                        out.push((w, v, val));
                    },
                    None => {},
                }
            }
            proof {
                let pre = changes@.subrange(0, i as int);
                let cur = changes@.subrange(0, i + 1 as int);
                assert(cur.drop_last() == pre);
                assert(cur.last() == changes@[i as int]);
            }
            i += 1;
        }
        proof {
            assert(changes@.subrange(0, changes@.len() as int) == changes@);
        }
        out
    }

    /// Runs change detection: fetches the variables whose resolved
    /// values changed, routes them to their owning widgets, and wraps a
    /// non-empty result — and only a non-empty result — in a single
    /// batched notification.
    fn check_changes(&mut self) -> (r: Option<LayoutChanged>)
        requires
            old(self).wf(),
        ensures
            final (self).wf(),
            final (self).vars@ == old(self).vars@,
            final (self).cons@ == old(self).cons@,
            backend_cons(final (self).backend) == backend_cons(old(self).backend),
            backend_edits(final (self).backend) == backend_edits(old(self).backend),
            final (self).debug_order() == old(self).debug_order(),
            r is Some ==> (r->0).0@.len() > 0,
            r is Some ==> forall|k: int|
                0 <= k < (r->0).0@.len() ==> final (self).owner_of((#[trigger] (r->0).0@[k]).1)
                    == Some((r->0).0@[k].0),
            r is Some ==> no_dups(Seq::new((r->0).0@.len(), |k: int| (r->0).0@[k].1)),
    {
        let changes = self.backend.fetch_changes();
        let routed = self.route_changes(&changes);
        proof {
            Self::lemma_wf_frame(*old(self), *self);
            self.lemma_route_entries(changes@);
        }
        if routed.len() > 0 {
            Some(LayoutChanged(routed))
        } else {
            None
        }
    }

    /// Every routed entry records the owner of its variable, and no
    /// variable appears twice when the raw list mentions each variable
    /// at most once.
    proof fn lemma_route_entries(self, ch: Seq<(u64, u64)>)
        requires
            forall|i: int, j: int| 0 <= i < j < ch.len() ==> ch[i].0 != ch[j].0,
        ensures
            forall|k: int|
                0 <= k < self.spec_route(ch).len() ==> self.owner_of(
                    (#[trigger] self.spec_route(ch)[k]).1,
                ) == Some(self.spec_route(ch)[k].0),
            forall|k: int, l: int|
                0 <= k < l < self.spec_route(ch).len() ==> self.spec_route(ch)[k].1
                    != self.spec_route(ch)[l].1,
            forall|k: int|
                0 <= k < self.spec_route(ch).len() ==> exists|i: int|
                    0 <= i < ch.len() && (#[trigger] self.spec_route(ch)[k]).1 == ch[i].0,
        decreases ch.len(),
    {
        if ch.len() > 0 {
            assert(forall|i: int, j: int|
                0 <= i < j < ch.drop_last().len() ==> ch.drop_last()[i].0 != ch.drop_last()[j].0);
            self.lemma_route_entries(ch.drop_last());
            let rest = self.spec_route(ch.drop_last());
            let last = ch.last();
            assert(forall|i: int| 0 <= i < ch.drop_last().len() ==> ch.drop_last()[i] == ch[i]);
            match self.owner_of(last.0) {
                Some(w) => {
                    let full = rest.push((w, last.0, last.1));
                    assert forall|k: int, l: int| 0 <= k < l < full.len() implies full[k].1
                        != full[l].1 by {
                        if l == full.len() - 1 {
                            let i = choose|i: int|
                                0 <= i < ch.drop_last().len() && rest[k].1 == ch.drop_last()[i].0;
                            assert(ch[i].0 != last.0);
                        }
                    }
                    assert forall|k: int|
                        0 <= k < full.len() implies exists|i: int|
                        0 <= i < ch.len() && (#[trigger] full[k]).1 == ch[i].0 by {
                        if k < full.len() - 1 {
                            let i = choose|i: int|
                                0 <= i < ch.drop_last().len() && (rest[k]).1 == ch.drop_last()[i].0;
                            assert(full[k].1 == ch[i].0);
                        } else {
                            assert(full[k].1 == ch[ch.len() - 1].0);
                        }
                    }
                },
                None => {},
            }
        }
    }

    /// Removes one live constraint completely: out of the solver, out
    /// of the diagnostic listing, and out of the constraint index of
    /// every variable its terms reference — the step that prevents
    /// dangling references once the owning widget's own index entry is
    /// gone.
    fn purge_constraint(&mut self, c: u64)
        requires
            old(self).wf(),
            old(self).live(c),
        ensures
            final (self).wf(),
            backend_cons(final (self).backend) == backend_cons(old(self).backend).remove(c),
            backend_edits(final (self).backend) == backend_edits(old(self).backend),
            backend_vars(final (self).backend) == backend_vars(old(self).backend),
            final (self).cons@ == old(self).cons@,
            final (self).num_vars() == old(self).num_vars(),
            forall|v: u64| final (self).owner_of(v) == old(self).owner_of(v),
            forall|v: u64| final (self).name_of(v) == old(self).name_of(v),
            forall|v: u64, c2: u64|
                c2 != c ==> (final (self).indexed(v, c2) <==> old(self).indexed(v, c2)),
            forall|v: u64| !final (self).indexed(v, c),
            final (self).debug_order() == old(self).debug_order().filter(|x: u64| x != c),
            forall|v: int|
                0 <= v < old(self).num_vars() ==> (#[trigger] final (self).vars@[v]).cons@.len()
                    <= old(self).vars@[v].cons@.len(),
            forall|v: u64|
                old(self).indexed(v, c) ==> final (self).vars@[v as int].cons@.len() < old(
                    self,
                ).vars@[v as int].cons@.len(),
    {
        let ghost s0 = *old(self);
        let nc: usize = self.cons.len();
        let nv: usize = self.vars.len();
        let cu: usize = c as usize;
        proof {
            assert(s0.cons@.len() == nc as int);
            assert(s0.vars@.len() == nv as int);
            assert(cu as int == c as int);
        }
        let ghost terms = self.cons@[c as int].terms@;
        let mut processed: Ghost<Set<u64>> = Ghost(Set::empty());
        let tlen: usize = self.cons[cu].terms.len();
        let mut i: usize = 0;
        while i < tlen
            invariant
                0 <= i <= tlen,
                tlen as int == terms.len(),
                cu as int == c as int,
                nv as int == self.vars@.len(),
                s0.wf(),
                s0.live(c),
                terms == s0.cons@[c as int].terms@,
                self.cons@ == s0.cons@,
                self.backend == s0.backend,
                self.debug_list == s0.debug_list,
                self.vars@.len() == s0.vars@.len(),
                forall|v: u64| self.owner_of(v) == s0.owner_of(v),
                forall|v: u64| self.name_of(v) == s0.name_of(v),
                forall|v: int|
                    0 <= v < self.vars@.len() ==> no_dups((#[trigger] self.vars@[v]).cons@),
                forall|v: u64, c2: u64|
                    c2 != c ==> (self.indexed(v, c2) <==> s0.indexed(v, c2)),
                forall|v: u64| #![trigger s0.indexed(v, c)] #![trigger processed@.contains(v)]
                    (self.indexed(v, c) <==> (s0.indexed(v, c) && !processed@.contains(v))),
                forall|j: int| 0 <= j < i ==> processed@.contains((#[trigger] terms[j]).var),
                forall|v: int|
                    0 <= v < self.vars@.len() ==> (#[trigger] self.vars@[v]).cons@.len() <= s0.vars@[v].cons@.len(),
                forall|v: u64|
                    processed@.contains(v) && s0.indexed(v, c) ==> self.vars@[
                        v as int
                    ].cons@.len() < s0.vars@[v as int].cons@.len(),
            decreases tlen - i,
        {
            let w: u64 = self.cons[cu].terms[i].var;
            proof {
                assert(s0.cons@[c as int].terms@[i as int].var == w);
                assert(w < s0.num_vars());
            }
            let wu: usize = w as usize;
            let stripped = vec_remove_val(&self.vars[wu].cons, c);
            proof {
                assert(wu as int == w as int);
            }
            let ghost pre_vars = self.vars@;
            let pre_processed: Ghost<Set<u64>> = Ghost(processed@);
            proof {
                assert forall|v: u64|
                    v < pre_vars.len() implies ((#[trigger] pre_vars[v as int]).cons@.contains(c)
                    <==> (s0.indexed(v, c) && !pre_processed@.contains(v))) by {
                    assert(self.indexed(v, c) == pre_vars[v as int].cons@.contains(c));
                    assert(pre_processed@.contains(v) == processed@.contains(v));
                }
                assert forall|v: u64, c2: u64|
                    v < pre_vars.len() && c2 != c implies ((#[trigger] pre_vars[
                        v as int
                    ].cons@.contains(c2)) <==> s0.indexed(v, c2)) by {
                    assert(self.indexed(v, c2) == pre_vars[v as int].cons@.contains(c2));
                }
            }
            self.vars[wu].cons = stripped;
            processed = Ghost(pre_processed@.insert(w));
            proof {
                assert(self.vars@ == pre_vars.update(w as int, self.vars@[w as int]));
                assert(self.vars@[w as int].cons@ == stripped@);
                assert(forall|v: int|
                    0 <= v < self.vars@.len() && v != w as int ==> #[trigger] self.vars@[v]
                        == pre_vars[v]);
                if pre_vars[w as int].cons@.contains(c) {
                    assert(stripped@.len() < pre_vars[w as int].cons@.len());
                }

                assert forall|v: u64|
                    self.indexed(v, c) <==> (s0.indexed(v, c) && !processed@.contains(
                        v,
                    )) by {
                    if v == w {
                        assert(!stripped@.contains(c));
                        assert(!self.indexed(v, c));
                    } else if v < self.vars@.len() {
                        assert(self.vars@[v as int] == pre_vars[v as int]);
                        assert(self.indexed(v, c) == pre_vars[v as int].cons@.contains(c));
                    } else {
                        assert(!self.indexed(v, c));
                        assert(!s0.indexed(v, c));
                    }
                }
                assert forall|v: u64, c2: u64|
                    c2 != c implies (self.indexed(v, c2) <==> s0.indexed(v, c2)) by {
                    if v == w {
                        assert(stripped@.contains(c2) <==> pre_vars[w as int].cons@.contains(
                            c2,
                        ));
                        assert(self.indexed(v, c2) == stripped@.contains(c2));
                    } else if v < self.vars@.len() {
                        assert(self.vars@[v as int] == pre_vars[v as int]);
                        assert(self.indexed(v, c2) == pre_vars[v as int].cons@.contains(c2));
                    } else {
                        assert(!self.indexed(v, c2));
                        assert(!s0.indexed(v, c2));
                    }
                }
            }
            i += 1;
        }
        proof {
            assert forall|v: u64| !self.indexed(v, c) by {
                if self.indexed(v, c) {
                    assert(processed@.contains(v) || !processed@.contains(v));
                    assert(s0.indexed(v, c) || !s0.indexed(v, c));
                    assert(s0.indexed(v, c));
                    assert(s0.con_refs(c, v));
                    let j = choose|j: int| 0 <= j < terms.len() && terms[j].var == v;
                    assert(processed@.contains(terms[j].var));
                }
            }
        }
        let ghost pre = *self;
        self.backend.remove_constraint(c);
        lh_remove(&mut self.debug_list, c);
        proof {
            lemma_filter_mem(pre.debug_order(), |x: u64| x != c);
            lemma_filter_no_dups(pre.debug_order(), |x: u64| x != c);
            assert forall|v: u64| #[trigger] backend_vars(self.backend).contains(v) <==> v
                < self.num_vars() by {
                assert(backend_vars(s0.backend).contains(v) <==> v < s0.num_vars());
            }
            assert forall|v: u64| #[trigger] self.is_edit(v) implies v < self.num_vars() by {
                assert(s0.is_edit(v));
            }
            assert forall|c2: u64| #[trigger] self.live(c2) implies c2 < self.num_cons() by {
                assert(s0.live(c2));
            }
            assert forall|v: u64, c2: u64| #[trigger] self.indexed(v, c2) implies self.live(c2)
                && self.con_refs(c2, v) by {
                assert(!pre.indexed(v, c));
                assert(c2 != c);
                assert(s0.indexed(v, c2));
            }
            assert forall|v: u64, c2: u64|
                self.live(c2) && #[trigger] self.con_refs(c2, v) implies self.indexed(v, c2) by {
                assert(c2 != c);
                assert(s0.live(c2) && s0.con_refs(c2, v));
                assert(s0.indexed(v, c2));
            }
            assert forall|c2: u64| #[trigger] self.debug_order().contains(c2) <==> self.live(
                c2,
            ) by {
                assert(pre.debug_order().contains(c2) <==> s0.live(c2));
                assert(self.debug_order().contains(c2) <==> (pre.debug_order().contains(c2) && c2
                    != c));
            }
        }
    }

    /// Sets or clears the widget owning a variable.
    fn set_owner(&mut self, v: u64, o: Option<u64>)
        requires
            old(self).wf(),
            v < old(self).num_vars(),
        ensures
            final (self).wf(),
            final (self).owner_of(v) == o,
            forall|w: u64| w != v ==> final (self).owner_of(w) == old(self).owner_of(w),
            forall|w: u64| final (self).name_of(w) == old(self).name_of(w),
            forall|w: u64, c: u64| final (self).indexed(w, c) == old(self).indexed(w, c),
            forall|w: int|
                0 <= w < old(self).num_vars() ==> (#[trigger] final (self).vars@[w]).cons@ == old(
                    self,
                ).vars@[w].cons@,
            final (self).cons@ == old(self).cons@,
            final (self).num_vars() == old(self).num_vars(),
            final (self).backend == old(self).backend,
            final (self).debug_order() == old(self).debug_order(),
    {
        let n: usize = self.vars.len();
        let vu: usize = v as usize;
        self.vars[vu].owner = o;
        proof {
            assert(old(self).vars@.len() == n as int);
            assert(vu as int == v as int);
            assert(self.vars@ == old(self).vars@.update(v as int, self.vars@[v as int]));
            assert(forall|w: int|
                0 <= w < self.vars@.len() && w != v as int ==> #[trigger] self.vars@[w] == old(
                    self,
                ).vars@[w]);
            assert(self.vars@[v as int].cons@ == old(self).vars@[v as int].cons@);
            assert forall|w: u64, c: u64| #[trigger] self.indexed(w, c) == old(self).indexed(
                w,
                c,
            ) by {
                if w < self.num_vars() && w != v {
                    assert(self.vars@[w as int] == old(self).vars@[w as int]);
                }
            }
            assert forall|w: u64| #[trigger] backend_vars(self.backend).contains(w) <==> w
                < self.num_vars() by {
                assert(backend_vars(old(self).backend).contains(w) <==> w < old(
                    self,
                ).num_vars());
            }
            assert forall|w: u64| #[trigger] self.is_edit(w) implies w < self.num_vars() by {
                assert(old(self).is_edit(w));
            }
            assert forall|c: u64| #[trigger] self.live(c) implies c < self.num_cons() by {
                assert(old(self).live(c));
            }
            assert forall|w: u64, c: u64| #[trigger] self.indexed(w, c) implies self.live(c)
                && self.con_refs(c, w) by {
                assert(old(self).indexed(w, c));
            }
            assert forall|w: u64, c: u64|
                self.live(c) && #[trigger] self.con_refs(c, w) implies self.indexed(w, c) by {
                assert(old(self).live(c) && old(self).con_refs(c, w));
                assert(old(self).indexed(w, c));
            }
            assert forall|w: int| 0 <= w < self.num_vars() implies no_dups(
                (#[trigger] self.vars@[w]).cons@,
            ) by {
                if w != v {
                    assert(self.vars@[w] == old(self).vars@[w]);
                }
                assert(no_dups(old(self).vars@[w].cons@));
            }
            assert forall|c: u64| #[trigger] self.debug_order().contains(c) <==> self.live(
                c,
            ) by {
                assert(old(self).debug_order().contains(c) <==> old(self).live(c));
            }
        }
    }

    /// Detaches one widget from the constraint system: every constraint
    /// referencing any of the widget's variables leaves the solver —
    /// including constraints shared with other, still-live widgets —
    /// and the ownership of the widget's variables is dropped. A
    /// constraint already gone is simply not there to remove, so
    /// removal is idempotent. Concludes by running change detection.
    pub fn remove_widget(&mut self, vars: &LayoutVars) -> (r: Option<LayoutChanged>)
        requires
            old(self).wf(),
            forall|v: u64| vars.owns(v) ==> v < old(self).num_vars(),
        ensures
            final (self).wf(),
            forall|c: u64|
                #[trigger] final (self).live(c) <==> (old(self).live(c) && !old(self).touches(
                    c,
                    *vars,
                )),
            forall|v: u64| vars.owns(v) ==> final (self).owner_of(v) is None,
            forall|v: u64| !vars.owns(v) ==> final (self).owner_of(v) == old(self).owner_of(v),
            forall|v: u64| final (self).name_of(v) == old(self).name_of(v),
            final (self).cons@ == old(self).cons@,
            final (self).num_vars() == old(self).num_vars(),
            backend_edits(final (self).backend) == backend_edits(old(self).backend),
            backend_vars(final (self).backend) == backend_vars(old(self).backend),
            final (self).debug_order() == old(self).debug_order().filter(
                |x: u64| !old(self).touches(x, *vars),
            ),
            r is Some ==> (r->0).0@.len() > 0,
            r is Some ==> forall|k: int|
                0 <= k < (r->0).0@.len() ==> final (self).owner_of((#[trigger] (r->0).0@[k]).1)
                    == Some((r->0).0@[k].0),
    {
        let ghost s0 = *old(self);
        proof {
            assert forall|i: int|
                0 <= i < s0.debug_order().len() implies (|x: u64| s0.live(x))(
                #[trigger] s0.debug_order()[i]) by {
                assert(s0.debug_order().contains(s0.debug_order()[i]));
            }
            lemma_filter_id(s0.debug_order(), |x: u64| s0.live(x));
            assert(s0.debug_order().filter(|x: u64| s0.live(x)) == s0.debug_order());
        }
        let vl = vars.var_list();
        let mut vi: usize = 0;
        while vi < vl.len()
            invariant
                0 <= vi <= vl@.len(),
                vl@ == seq![vars.left, vars.top, vars.right, vars.bottom, vars.width, vars.height],
                forall|v: u64| vars.owns(v) <==> vl@.contains(v),
                forall|v: u64| vars.owns(v) ==> v < s0.num_vars(),
                s0.wf(),
                self.wf(),
                self.cons@ == s0.cons@,
                self.num_vars() == s0.num_vars(),
                backend_edits(self.backend) == backend_edits(s0.backend),
                backend_vars(self.backend) == backend_vars(s0.backend),
                forall|v: u64| self.owner_of(v) == s0.owner_of(v),
                forall|v: u64| self.name_of(v) == s0.name_of(v),
                forall|c: u64| #[trigger] self.live(c) ==> s0.live(c),
                forall|c: u64|
                    s0.live(c) && !s0.touches(c, *vars) ==> #[trigger] self.live(c),
                forall|j: int|
                    0 <= j < vi ==> self.vars@[vl@[j] as int].cons@.len() == 0,
                self.debug_order() == s0.debug_order().filter(|x: u64| self.live(x)),
            decreases vl@.len() - vi,
        {
            let v: u64 = vl[vi];
            let n: usize = self.vars.len();
            let vu: usize = v as usize;
            proof {
                assert(self.vars@.len() == n as int);
                assert(vl@.contains(v));
                assert(vars.owns(v));
                assert(v < self.num_vars());
                assert(vu as int == v as int);
            }
            while self.vars[vu].cons.len() > 0
                invariant
                    vu as int == v as int,
                    vars.owns(v),
                    v < self.num_vars(),
                    0 <= vi < vl@.len(),
                    vl@ == seq![vars.left, vars.top, vars.right, vars.bottom, vars.width, vars.height],
                    forall|w: u64| vars.owns(w) <==> vl@.contains(w),
                    forall|w: u64| vars.owns(w) ==> w < s0.num_vars(),
                    s0.wf(),
                    self.wf(),
                    self.cons@ == s0.cons@,
                    self.num_vars() == s0.num_vars(),
                    backend_edits(self.backend) == backend_edits(s0.backend),
                    backend_vars(self.backend) == backend_vars(s0.backend),
                    forall|w: u64| self.owner_of(w) == s0.owner_of(w),
                    forall|w: u64| self.name_of(w) == s0.name_of(w),
                    forall|c: u64| #[trigger] self.live(c) ==> s0.live(c),
                    forall|c: u64|
                        s0.live(c) && !s0.touches(c, *vars) ==> #[trigger] self.live(c),
                    forall|j: int|
                        0 <= j < vi ==> self.vars@[vl@[j] as int].cons@.len() == 0,
                    self.debug_order() == s0.debug_order().filter(|x: u64| self.live(x)),
                decreases self.vars@[v as int].cons@.len(),
            {
                let len: usize = self.vars[vu].cons.len();
                let c: u64 = self.vars[vu].cons[len - 1];
                proof {
                    assert(self.vars@[v as int].cons@.contains(self.vars@[v as int].cons@[
                        len - 1
                    ]));
                    assert(self.indexed(v, c));
                    assert(self.live(c));
                    assert(self.con_refs(c, v));
                }
                let ghost pre = *self;
                self.purge_constraint(c);
                proof {
                    assert(pre.debug_order() == s0.debug_order().filter(
                        |x: u64| pre.live(x),
                    ));
                    assert(self.debug_order() == pre.debug_order().filter(|x: u64| x != c));
                    lemma_filter_twice(
                        s0.debug_order(),
                        |x: u64| pre.live(x),
                        |x: u64| x != c,
                        |x: u64| self.live(x),
                    );
                    assert(!self.indexed(v, c));
                    assert(self.vars@[v as int].cons@.len() < pre.vars@[v as int].cons@.len());
                    assert forall|c2: u64| #[trigger] self.live(c2) implies s0.live(c2) by {
                        assert(pre.live(c2));
                    }
                    assert forall|c2: u64|
                        s0.live(c2) && !s0.touches(c2, *vars) implies #[trigger] self.live(
                        c2,
                    ) by {
                        assert(pre.live(c2));
                        if c2 == c {
                            assert(s0.con_refs(c, v));
                            assert(s0.touches(c, *vars));
                        }
                    }
                    assert forall|j: int|
                        0 <= j < vi implies self.vars@[vl@[j] as int].cons@.len() == 0 by {
                        assert(pre.vars@[vl@[j] as int].cons@.len() == 0);
                        assert(vl@.contains(vl@[j]));
                        assert(vars.owns(vl@[j]));
                        assert(vl@[j] < s0.num_vars());
                        assert(self.vars@[vl@[j] as int].cons@.len() <= pre.vars@[
                            vl@[j] as int
                        ].cons@.len());
                    }
                }
            }
            proof {
                assert(self.vars@[vl@[vi as int] as int].cons@.len() == 0);
            }
            vi += 1;
        }
        proof {
            assert forall|c: u64|
                #[trigger] self.live(c) <==> (s0.live(c) && !s0.touches(c, *vars)) by {
                if self.live(c) {
                    if s0.touches(c, *vars) {
                        let v = choose|v: u64| vars.owns(v) && s0.con_refs(c, v);
                        assert(self.con_refs(c, v));
                        assert(self.indexed(v, c));
                        let j = choose|j: int| 0 <= j < vl@.len() && vl@[j] == v;
                        assert(self.vars@[vl@[j] as int].cons@.len() == 0);
                        assert(false);
                    }
                }
            }
        }
        let ghost mid = *self;
        let mut oi: usize = 0;
        while oi < vl.len()
            invariant
                0 <= oi <= vl@.len(),
                vl@ == seq![vars.left, vars.top, vars.right, vars.bottom, vars.width, vars.height],
                forall|v: u64| vars.owns(v) <==> vl@.contains(v),
                forall|v: u64| vars.owns(v) ==> v < mid.num_vars(),
                mid.wf(),
                self.wf(),
                self.cons@ == mid.cons@,
                self.num_vars() == mid.num_vars(),
                self.backend == mid.backend,
                self.debug_order() == mid.debug_order(),
                forall|c: u64| self.live(c) == mid.live(c),
                forall|j: int| 0 <= j < oi ==> self.owner_of(vl@[j]) is None,
                forall|w: u64| !vl@.subrange(0, oi as int).contains(w) ==> self.owner_of(w)
                    == mid.owner_of(w),
                forall|w: u64| self.name_of(w) == mid.name_of(w),
            decreases vl@.len() - oi,
        {
            let v: u64 = vl[oi];
            proof {
                assert(vl@.contains(v));
                assert(vars.owns(v));
                assert(v < mid.num_vars());
                assert(v < self.num_vars());
            }
            let ghost pre = *self;
            self.set_owner(v, None);
            proof {
                broadcast use vstd::seq_lib::lemma_seq_contains_after_push;

                assert(vl@.subrange(0, oi + 1 as int) =~= vl@.subrange(0, oi as int).push(v));
                assert forall|j: int| 0 <= j < oi + 1 implies self.owner_of(vl@[j]) is None by {
                    if j < oi {
                        if vl@[j] != v {
                            assert(pre.owner_of(vl@[j]) is None);
                        }
                    }
                }
            }
            oi += 1;
        }
        proof {
            assert(vl@.subrange(0, vl@.len() as int) == vl@);
            assert forall|v: u64| vars.owns(v) implies self.owner_of(v) is None by {
                let j = choose|j: int| 0 <= j < vl@.len() && vl@[j] == v;
                assert(self.owner_of(vl@[j]) is None);
            }
        }
        let r = self.check_changes();
        proof {
            assert forall|c: u64|
                #[trigger] self.live(c) <==> (s0.live(c) && !s0.touches(c, *vars)) by {
                assert(mid.live(c) <==> (s0.live(c) && !s0.touches(c, *vars)));
            }
            assert forall|i: int|
                0 <= i < s0.debug_order().len() implies ((|x: u64| mid.live(x))(
                #[trigger] s0.debug_order()[i]) == (|x: u64| !s0.touches(x, *vars))(
                s0.debug_order()[i])) by {
                let x = s0.debug_order()[i];
                assert(s0.debug_order().contains(x));
                assert(s0.live(x));
                assert(mid.live(x) <==> (s0.live(x) && !s0.touches(x, *vars)));
            }
            lemma_filter_congruence(
                s0.debug_order(),
                |x: u64| mid.live(x),
                |x: u64| !s0.touches(x, *vars),
            );
            assert(mid.debug_order() == s0.debug_order().filter(|x: u64| mid.live(x)));
            assert(self.debug_order() == mid.debug_order());
            assert(self.debug_order() == s0.debug_order().filter(
                |x: u64| !s0.touches(x, *vars),
            ));
        }
        r
    }

    /// Registers a batch of constraints, atomically: either every
    /// constraint of the batch enters the solver, the diagnostic
    /// listing (at the back, in batch order) and the per-variable
    /// indices, or — when one of them conflicts with the existing
    /// required constraints — the ones already added are taken out
    /// again and nothing observable has changed. Ids are handed out in
    /// batch order starting at the current registration count.
    #[verifier::rlimit(80)]
    fn add_constraints_atomic(&mut self, list: Vec<ConstraintSpec>) -> (r: Result<
        (),
        LayoutError,
    >)
        requires
            old(self).wf(),
            forall|j: int, i: int|
                0 <= j < list@.len() && 0 <= i < list@[j].terms@.len() ==> (
                #[trigger] list@[j].terms@[i]).var < old(self).num_vars(),
            old(self).num_cons() + list@.len() <= u64::MAX,
        ensures
            final (self).wf(),
            final (self).num_vars() == old(self).num_vars(),
            backend_vars(final (self).backend) == backend_vars(old(self).backend),
            backend_edits(final (self).backend) == backend_edits(old(self).backend),
            forall|v: u64| final (self).owner_of(v) == old(self).owner_of(v),
            forall|v: u64| final (self).name_of(v) == old(self).name_of(v),
            final (self).cons@ == old(self).cons@ + list@,
            r is Ok ==> forall|c: u64|
                #[trigger] final (self).live(c) <==> (old(self).live(c) || (old(self).num_cons()
                    <= c as int && (c as int) < old(self).num_cons() + list@.len())),
            r is Ok ==> final (self).debug_order() == old(self).debug_order() + Seq::new(
                list@.len(),
                |j: int| (old(self).num_cons() + j) as u64,
            ),
            r is Ok ==> forall|v: u64, c: u64|
                (c as int) < old(self).num_cons() ==> (#[trigger] final (self).indexed(v, c) == old(
                    self,
                ).indexed(v, c)),
            r is Err ==> forall|c: u64| #[trigger] final (self).live(c) == old(self).live(c),
            r is Err ==> forall|v: u64, c: u64|
                #[trigger] final (self).indexed(v, c) == old(self).indexed(v, c),
            r is Err ==> final (self).debug_order() == old(self).debug_order(),
            r is Err ==> (r == Result::<(), LayoutError>::Err(LayoutError::Unsatisfiable) || r
                == Result::<(), LayoutError>::Err(LayoutError::Internal)),
            list@.len() == 0 ==> r is Ok,
    {
        let ghost s0 = *old(self);
        let n: usize = list.len();
        let ncons0: usize = self.cons.len();
        let base: u64 = ncons0 as u64;
        let mut l = list;
        self.cons.append(&mut l);
        proof {
            assert(s0.cons@.len() == ncons0 as int);
            assert(base as int == s0.num_cons());
            assert(self.cons@ == s0.cons@ + list@);
            assert forall|c: u64| #[trigger] self.live(c) implies c < self.num_cons() by {
                assert(s0.live(c));
            }
            assert forall|v: u64, c: u64| #[trigger] self.indexed(v, c) implies self.live(c)
                && self.con_refs(c, v) by {
                assert(s0.indexed(v, c));
                assert(s0.con_refs(c, v));
                assert(self.cons@[c as int] == s0.cons@[c as int]);
            }
            assert forall|v: u64, c: u64|
                self.live(c) && #[trigger] self.con_refs(c, v) implies self.indexed(v, c) by {
                assert(s0.live(c));
                assert(c < s0.num_cons());
                assert(self.cons@[c as int] == s0.cons@[c as int]);
                assert(s0.con_refs(c, v));
                assert(s0.indexed(v, c));
            }
            assert forall|v: u64| #[trigger] backend_vars(self.backend).contains(v) <==> v
                < self.num_vars() by {
                assert(backend_vars(s0.backend).contains(v) <==> v < s0.num_vars());
            }
            assert forall|v: u64| #[trigger] self.is_edit(v) implies v < self.num_vars() by {
                assert(s0.is_edit(v));
            }
            assert forall|c: int, i: int|
                0 <= c < self.num_cons() && 0 <= i < self.cons@[c].terms@.len() implies (
            #[trigger] self.cons@[c].terms@[i]).var < self.num_vars() by {
                if c < s0.num_cons() {
                    assert(self.cons@[c] == s0.cons@[c]);
                    assert(s0.cons@[c].terms@[i].var < s0.num_vars());
                } else {
                    assert(self.cons@[c] == list@[c - s0.num_cons()]);
                    assert(list@[c - s0.num_cons()].terms@[i].var < s0.num_vars());
                }
            }
            assert forall|c: u64| #[trigger] self.debug_order().contains(c) <==> self.live(
                c,
            ) by {
                assert(s0.debug_order().contains(c) <==> s0.live(c));
            }
            assert forall|v: u64, c: u64|
                (c as int) >= base as int implies !self.indexed(v, c) by {
                if self.indexed(v, c) {
                    assert(s0.indexed(v, c));
                    assert(s0.live(c));
                }
            }
            assert(self.debug_order() =~= s0.debug_order() + Seq::new(
                0nat,
                |j: int| (base as int + j) as u64,
            ));
        }
        let mut k: usize = 0;
        while k < n
            invariant
                s0 == *old(self),
                0 <= k <= n,
                n as int == list@.len(),
                base as int == s0.num_cons(),
                ncons0 as int == s0.cons@.len(),
                base as int + n as int <= u64::MAX as int,
                s0.wf(),
                forall|j: int, i: int|
                    0 <= j < list@.len() && 0 <= i < list@[j].terms@.len() ==> (
                    #[trigger] list@[j].terms@[i]).var < s0.num_vars(),
                self.wf(),
                self.cons@ == s0.cons@ + list@,
                self.num_vars() == s0.num_vars(),
                backend_vars(self.backend) == backend_vars(s0.backend),
                backend_edits(self.backend) == backend_edits(s0.backend),
                forall|v: u64| self.owner_of(v) == s0.owner_of(v),
                forall|v: u64| self.name_of(v) == s0.name_of(v),
                forall|c: u64|
                    #[trigger] self.live(c) <==> (s0.live(c) || (base <= c && (c as int) < base
                        as int + k as int)),
                self.debug_order() == s0.debug_order() + Seq::new(
                    k as nat,
                    |j: int| (base as int + j) as u64,
                ),
                forall|v: u64, c: u64|
                    c < base ==> (#[trigger] self.indexed(v, c) == s0.indexed(v, c)),
                forall|v: u64, c: u64|
                    (c as int) >= base as int + k as int ==> !self.indexed(v, c),
            decreases n - k,
        {
            let ghost hd = *self;
            let cid: u64 = base + k as u64;
            let cidu: usize = cid as usize;
            let ncons: usize = self.cons.len();
            proof {
                assert(self.cons@.len() == ncons as int);
                assert(cidu as int == cid as int);
                assert(self.cons@[cid as int] == list@[k as int]);
                assert(!self.live(cid));
                assert forall|i: int|
                    0 <= i < self.cons@[cid as int].terms@.len() implies backend_vars(
                    self.backend,
                ).contains((#[trigger] self.cons@[cid as int].terms@[i]).var) by {
                    let w = self.cons@[cid as int].terms@[i].var;
                    assert(list@[k as int].terms@[i].var == w);
                    assert(w < s0.num_vars());
                    assert(backend_vars(self.backend).contains(w) <==> w < self.num_vars());
                }
            }
            let res = self.backend.add_constraint(cid, &self.cons[cidu]);
            match res {
                Ok(()) => {
                    let ghost h = *self;
                    proof {
                        assert forall|i: int|
                            0 <= i < self.debug_order().len() implies (#[trigger] self.debug_order()[
                            i
                        ]) != cid by {
                            assert(self.debug_order().contains(self.debug_order()[i]));
                        }
                        lemma_filter_id(self.debug_order(), |x: u64| x != cid);
                    }
                    lh_insert(&mut self.debug_list, cid);
                    proof {
                        assert(self.debug_order() == h.debug_order().push(cid));
                    }
                    let ghost m0 = *self;
                    proof {
                        assert forall|v: u64| #![trigger m0.indexed(v, cid)]
                            !m0.indexed(v, cid) by {
                            assert(!hd.indexed(v, cid));
                        }
                    }
                    let tl: usize = self.cons[cidu].terms.len();
                    let ghost terms = self.cons@[cid as int].terms@;
                    let mut i: usize = 0;
                    while i < tl
                        invariant
                            0 <= i <= tl,
                            tl as int == terms.len(),
                            cid as int == cidu as int,
                            (cid as int) < m0.cons@.len(),
                            terms == m0.cons@[cid as int].terms@,
                            m0.num_vars() == s0.num_vars(),
                            forall|t: int|
                                0 <= t < terms.len() ==> (#[trigger] terms[t]).var
                                    < m0.num_vars(),
                            self.cons@ == m0.cons@,
                            self.backend == m0.backend,
                            self.debug_list == m0.debug_list,
                            self.num_vars() == m0.num_vars(),
                            self.vars@.len() == m0.vars@.len(),
                            forall|v: u64| self.owner_of(v) == m0.owner_of(v),
                            forall|v: u64| self.name_of(v) == m0.name_of(v),
                            forall|v: int|
                                0 <= v < self.vars@.len() ==> no_dups(
                                    (#[trigger] self.vars@[v]).cons@,
                                ),
                            forall|v: u64, c2: u64|
                                c2 != cid ==> (#[trigger] self.indexed(v, c2) == m0.indexed(
                                    v,
                                    c2,
                                )),
                            forall|v: u64| #![trigger self.indexed(v, cid)]
                                (self.indexed(v, cid) ==> m0.cons@[cid as int].references(v)),
                            forall|t: int|
                                0 <= t < i ==> self.indexed((#[trigger] terms[t]).var, cid),
                        decreases tl - i,
                    {
                        let w: u64 = self.cons[cidu].terms[i].var;
                        let nv: usize = self.vars.len();
                        let wu: usize = w as usize;
                        proof {
                            assert(terms[i as int].var == w);
                            assert(w < m0.num_vars());
                            assert(self.vars@.len() == nv as int);
                            assert(wu as int == w as int);
                        }
                        if !vec_contains(&self.vars[wu].cons, cid) {
                            let ghost pre_vars = self.vars@;
                            proof {
                                assert forall|v: u64, c2: u64|
                                    v < pre_vars.len() implies ((#[trigger] pre_vars[
                                        v as int
                                    ].cons@.contains(c2)) == self.indexed(v, c2)) by {
                                    assert(self.indexed(v, c2) == pre_vars[
                                        v as int
                                    ].cons@.contains(c2));
                                }
                            }
                            self.vars[wu].cons.push(cid);
                            proof {
                                broadcast use vstd::seq_lib::lemma_seq_contains_after_push;

                                assert(self.vars@ == pre_vars.update(
                                    w as int,
                                    self.vars@[w as int],
                                ));
                                assert(self.vars@[w as int].cons@ == pre_vars[
                                    w as int
                                ].cons@.push(cid));
                                assert(forall|v: int|
                                    0 <= v < self.vars@.len() && v != w as int
                                        ==> #[trigger] self.vars@[v] == pre_vars[v]);
                                assert(no_dups(self.vars@[w as int].cons@)) by {
                                    assert(!pre_vars[w as int].cons@.contains(cid));
                                    let f = pre_vars[w as int].cons@.push(cid);
                                    assert forall|a: int, b: int|
                                        0 <= a < b < f.len() implies f[a] != f[b] by {
                                        if b == f.len() - 1 {
                                            assert(pre_vars[w as int].cons@.contains(f[a]));
                                        }
                                    }
                                }
                                assert forall|v: u64, c2: u64|
                                    c2 != cid implies (#[trigger] self.indexed(v, c2)
                                    == m0.indexed(v, c2)) by {
                                    if v == w {
                                        assert(self.indexed(v, c2) == self.vars@[
                                            w as int
                                        ].cons@.contains(c2));
                                        assert(pre_vars[w as int].cons@.contains(c2)
                                            == m0.indexed(v, c2));
                                    } else if v < self.vars@.len() {
                                        assert(self.vars@[v as int] == pre_vars[v as int]);
                                        assert(pre_vars[v as int].cons@.contains(c2)
                                            == m0.indexed(v, c2));
                                    } else {
                                        assert(!self.indexed(v, c2));
                                        assert(!m0.indexed(v, c2));
                                    }
                                }
                                assert forall|v: u64| #![trigger self.indexed(v, cid)]
                                    (self.indexed(v, cid) ==> m0.cons@[cid as int].references(
                                        v,
                                    )) by {
                                    if self.indexed(v, cid) {
                                        if v == w {
                                            assert(terms[i as int].var == w);
                                            assert(m0.cons@[cid as int].references(w));
                                        } else if v < self.vars@.len() {
                                            assert(self.vars@[v as int] == pre_vars[v as int]);
                                            assert(pre_vars[v as int].cons@.contains(cid));
                                        }
                                    }
                                }
                            }
                        } else {
                            proof {
                                assert(self.indexed(w, cid));
                            }
                        }
                        proof {
                            assert(self.indexed(terms[i as int].var, cid));
                        }
                        i += 1;
                    }
                    proof {
                        assert(hd.wf());
                        assert forall|v: u64| #[trigger] backend_vars(self.backend).contains(v)
                            <==> v < self.num_vars() by {
                            assert(backend_vars(hd.backend).contains(v) <==> v < hd.num_vars());
                        }
                        assert forall|v: u64| #[trigger] self.is_edit(v) implies v
                            < self.num_vars() by {
                            assert(hd.is_edit(v));
                        }
                        assert forall|c2: u64| #[trigger] self.live(c2) implies c2
                            < self.num_cons() by {
                            if c2 != cid {
                                assert(hd.live(c2));
                            }
                        }
                        assert forall|v: u64, c2: u64| #[trigger] self.indexed(v, c2) implies self.live(
                            c2,
                        ) && self.con_refs(c2, v) by {
                            if c2 == cid {
                                assert(m0.cons@[cid as int].references(v));
                            } else {
                                assert(m0.indexed(v, c2));
                                assert(hd.indexed(v, c2));
                                assert(hd.live(c2));
                                assert(hd.con_refs(c2, v));
                            }
                        }
                        assert forall|v: u64, c2: u64|
                            self.live(c2) && #[trigger] self.con_refs(c2, v) implies self.indexed(
                            v,
                            c2,
                        ) by {
                            if c2 == cid {
                                let t = choose|t: int|
                                    0 <= t < terms.len() && terms[t].var == v;
                                assert(self.indexed(terms[t].var, cid));
                            } else {
                                assert(hd.live(c2));
                                assert(hd.con_refs(c2, v));
                                assert(hd.indexed(v, c2));
                                assert(m0.indexed(v, c2));
                            }
                        }
                        assert forall|c2: u64| #[trigger] self.debug_order().contains(c2) <==> self.live(
                            c2,
                        ) by {
                            broadcast use vstd::seq_lib::lemma_seq_contains_after_push;

                            assert(self.debug_order() == h.debug_order().push(cid));
                            assert(hd.debug_order().contains(c2) <==> hd.live(c2));
                            assert(h.debug_order() == hd.debug_order());
                        }
                        assert(no_dups(self.debug_order())) by {
                            assert(self.debug_order() == h.debug_order().push(cid));
                            assert(!h.debug_order().contains(cid)) by {
                                assert(hd.debug_order().contains(cid) <==> hd.live(cid));
                                assert(!hd.live(cid));
                            }
                            let f = h.debug_order().push(cid);
                            assert forall|a: int, b: int|
                                0 <= a < b < f.len() implies f[a] != f[b] by {
                                if b == f.len() - 1 {
                                    assert(h.debug_order().contains(f[a]));
                                }
                            }
                        }
                        assert forall|c2: u64|
                            #[trigger] self.live(c2) <==> (s0.live(c2) || (base <= c2 && (
                            c2 as int) < base as int + (k + 1) as int)) by {
                            assert(hd.live(c2) <==> (s0.live(c2) || (base <= c2 && (c2 as int)
                                < base as int + k as int)));
                            assert(self.live(c2) <==> (hd.live(c2) || c2 == cid));
                        }
                        assert(self.debug_order() == s0.debug_order() + Seq::new(
                            (k + 1) as nat,
                            |j: int| (base as int + j) as u64,
                        )) by {
                            assert(self.debug_order() == h.debug_order().push(cid));
                            assert(h.debug_order() == s0.debug_order() + Seq::new(
                                k as nat,
                                |j: int| (base as int + j) as u64,
                            ));
                            assert(self.debug_order() =~= s0.debug_order() + Seq::new(
                                (k + 1) as nat,
                                |j: int| (base as int + j) as u64,
                            ));
                        }
                        assert forall|v: u64, c2: u64|
                            c2 < base implies (#[trigger] self.indexed(v, c2) == s0.indexed(
                            v,
                            c2,
                        )) by {
                            assert(hd.indexed(v, c2) == s0.indexed(v, c2));
                            assert(m0.indexed(v, c2) == hd.indexed(v, c2));
                        }
                        assert forall|v: u64| self.owner_of(v) == s0.owner_of(v) by {
                            assert(self.owner_of(v) == m0.owner_of(v));
                            assert(hd.owner_of(v) == s0.owner_of(v));
                        }
                        assert forall|v: u64| self.name_of(v) == s0.name_of(v) by {
                            assert(self.name_of(v) == m0.name_of(v));
                            assert(hd.name_of(v) == s0.name_of(v));
                        }
                        assert forall|v: u64, c2: u64|
                            (c2 as int) >= base as int + (k + 1) as int implies !self.indexed(
                            v,
                            c2,
                        ) by {
                            assert(m0.indexed(v, c2) == self.indexed(v, c2));
                            assert(!hd.indexed(v, c2));
                        }
                    }
                },
                Err(e) => {
                    proof {
                        Self::lemma_wf_frame(hd, *self);
                        assert forall|c2: u64|
                            #[trigger] self.live(c2) <==> (s0.live(c2) || (base as int <= c2
                                as int && (c2 as int) < base as int + k as int)) by {
                            assert(hd.live(c2) <==> (s0.live(c2) || (base <= c2 && (c2 as int)
                                < base as int + k as int)));
                        }
                        assert forall|v: u64, c2: u64|
                            c2 < base implies (#[trigger] self.indexed(v, c2) == s0.indexed(
                            v,
                            c2,
                        )) by {
                            assert(hd.indexed(v, c2) == s0.indexed(v, c2));
                        }
                        assert forall|v: u64, c2: u64|
                            (c2 as int) >= base as int + k as int implies !self.indexed(
                            v,
                            c2,
                        ) by {
                            assert(!hd.indexed(v, c2));
                        }
                        assert(self.debug_order() == s0.debug_order() + Seq::new(
                            k as nat,
                            |j: int| (base as int + j) as u64,
                        )) by {
                            assert(hd.debug_order() == s0.debug_order() + Seq::new(
                                k as nat,
                                |j: int| (base as int + j) as u64,
                            ));
                        }
                        assert(self.debug_order().subrange(0, s0.debug_order().len() as int)
                            =~= s0.debug_order());
                        assert forall|t: int|
                            s0.debug_order().len() <= t < self.debug_order().len() implies (
                        #[trigger] self.debug_order()[t]) >= base by {
                            assert(self.debug_order()[t] == Seq::new(
                                k as nat,
                                |j: int| (base as int + j) as u64,
                            )[t - s0.debug_order().len()]);
                        }
                    }
                    let mut j: usize = 0;
                    while j < k
                        invariant
                            0 <= j <= k <= n,
                            n as int == list@.len(),
                            base as int == s0.num_cons(),
                            base as int + n as int <= u64::MAX as int,
                            s0.wf(),
                            self.wf(),
                            self.cons@ == s0.cons@ + list@,
                            self.num_vars() == s0.num_vars(),
                            backend_vars(self.backend) == backend_vars(s0.backend),
                            backend_edits(self.backend) == backend_edits(s0.backend),
                            forall|v: u64| self.owner_of(v) == s0.owner_of(v),
                            forall|v: u64| self.name_of(v) == s0.name_of(v),
                            forall|c: u64|
                                #[trigger] self.live(c) <==> (s0.live(c) || (base as int + j
                                    as int <= c as int && (c as int) < base as int + k as int)),
                            forall|v: u64, c: u64|
                                c < base ==> (#[trigger] self.indexed(v, c) == s0.indexed(
                                    v,
                                    c,
                                )),
                            forall|v: u64, c: u64|
                                base as int <= c as int && (c as int) < base as int + j as int
                                    ==> !self.indexed(v, c),
                            forall|v: u64, c: u64|
                                (c as int) >= base as int + k as int ==> !self.indexed(v, c),
                            self.debug_order().len() >= s0.debug_order().len(),
                            self.debug_order().subrange(0, s0.debug_order().len() as int)
                                == s0.debug_order(),
                            forall|t: int|
                                s0.debug_order().len() <= t < self.debug_order().len()
                                    ==> (#[trigger] self.debug_order()[t]) >= base,
                        decreases k - j,
                    {
                        let cj: u64 = base + j as u64;
                        proof {
                            assert(self.live(cj));
                        }
                        let ghost pre = *self;
                        self.purge_constraint(cj);
                        proof {
                            let plen = s0.debug_order().len() as int;
                            let pred = |x: u64| x != cj;
                            assert(pre.debug_order() == pre.debug_order().subrange(0, plen)
                                + pre.debug_order().subrange(
                                plen,
                                pre.debug_order().len() as int,
                            ));
                            Seq::filter_distributes_over_add(
                                pre.debug_order().subrange(0, plen),
                                pre.debug_order().subrange(
                                    plen,
                                    pre.debug_order().len() as int,
                                ),
                                pred,
                            );
                            assert(self.debug_order() == (pre.debug_order().subrange(0, plen)
                                + pre.debug_order().subrange(
                                plen,
                                pre.debug_order().len() as int,
                            )).filter(pred));
                            assert forall|t: int|
                                0 <= t < plen implies pred(
                                #[trigger] pre.debug_order().subrange(0, plen)[t]) by {
                                assert(s0.debug_order()[t] == pre.debug_order().subrange(
                                    0,
                                    plen,
                                )[t]);
                                assert(s0.debug_order().contains(s0.debug_order()[t]));
                                assert(s0.live(s0.debug_order()[t]));
                            }
                            lemma_filter_id(pre.debug_order().subrange(0, plen), pred);
                            let tail = pre.debug_order().subrange(
                                plen,
                                pre.debug_order().len() as int,
                            );
                            lemma_filter_mem(tail, pred);
                            assert(self.debug_order() == s0.debug_order() + tail.filter(pred));
                            assert(self.debug_order().subrange(0, plen) =~= s0.debug_order());
                            assert forall|t: int|
                                plen <= t < self.debug_order().len() implies (
                            #[trigger] self.debug_order()[t]) >= base by {
                                let ft = tail.filter(pred);
                                assert(self.debug_order()[t] == ft[t - plen]);
                                assert(ft.contains(ft[t - plen]));
                                assert(tail.contains(ft[t - plen]));
                                let u = choose|u: int|
                                    0 <= u < tail.len() && tail[u] == ft[t - plen];
                                assert(pre.debug_order()[plen + u] == tail[u]);
                            }
                            assert forall|c: u64|
                                #[trigger] self.live(c) <==> (s0.live(c) || (base as int + (j
                                    + 1) as int <= c as int && (c as int) < base as int + k
                                    as int)) by {
                                assert(pre.live(c) <==> (s0.live(c) || (base as int + j as int
                                    <= c as int && (c as int) < base as int + k as int)));
                            }
                        }
                        j += 1;
                    }
                    proof {
                        assert forall|c: u64| #[trigger] self.live(c) == s0.live(c) by {
                            if s0.live(c) {
                                assert(c < base);
                            }
                        }
                        assert forall|v: u64, c: u64| #[trigger] self.indexed(v, c) == s0.indexed(
                            v,
                            c,
                        ) by {
                            if c < base {
                            } else {
                                assert(!self.indexed(v, c));
                                if s0.indexed(v, c) {
                                    assert(s0.live(c));
                                    assert(c < base);
                                }
                            }
                        }
                        assert(self.debug_order() == s0.debug_order()) by {
                            let plen = s0.debug_order().len() as int;
                            assert forall|t: int| #![trigger self.debug_order()[t]]
                                plen <= t < self.debug_order().len() implies false by {
                                let x = self.debug_order()[t];
                                assert(x >= base);
                                assert(self.debug_order().contains(x));
                                assert(self.live(x));
                                assert(s0.live(x));
                                assert(x < base);
                            }
                            assert(self.debug_order().len() == plen) by {
                                if self.debug_order().len() > plen {
                                    let x = self.debug_order()[plen];
                                    assert(false);
                                }
                            }
                            assert(self.debug_order() =~= self.debug_order().subrange(
                                0,
                                plen,
                            ));
                        }
                    }
                    return Err(e);
                },
            }
            k += 1;
        }
        proof {
            assert(list@.subrange(0, n as int) == list@);
        }
        Ok(())
    }

    /// Registers a batch of edit variables and suggests their values:
    /// a variable already registered is only re-suggested, never
    /// registered twice.
    fn register_edits(&mut self, edits: &Vec<EditSpec>)
        requires
            old(self).wf(),
            forall|j: int| 0 <= j < edits@.len() ==> (#[trigger] edits@[j]).var < old(self).num_vars(),
            forall|j: int|
                0 <= j < edits@.len() ==> (#[trigger] edits@[j]).strength
                    < crate::strength::REQUIRED,
        ensures
            final (self).wf(),
            final (self).vars@ == old(self).vars@,
            final (self).cons@ == old(self).cons@,
            final (self).debug_order() == old(self).debug_order(),
            backend_vars(final (self).backend) == backend_vars(old(self).backend),
            backend_cons(final (self).backend) == backend_cons(old(self).backend),
            forall|v: u64|
                #[trigger] final (self).is_edit(v) <==> (old(self).is_edit(v) || exists|j: int|
                    0 <= j < edits@.len() && (#[trigger] edits@[j]).var == v),
    {
        let ghost s0 = *old(self);
        let mut k: usize = 0;
        while k < edits.len()
            invariant
                0 <= k <= edits@.len(),
                s0.wf(),
                forall|j: int|
                    0 <= j < edits@.len() ==> (#[trigger] edits@[j]).var < s0.num_vars(),
                forall|j: int|
                    0 <= j < edits@.len() ==> (#[trigger] edits@[j]).strength
                        < crate::strength::REQUIRED,
                self.wf(),
                self.vars@ == s0.vars@,
                self.cons@ == s0.cons@,
                self.debug_order() == s0.debug_order(),
                backend_vars(self.backend) == backend_vars(s0.backend),
                backend_cons(self.backend) == backend_cons(s0.backend),
                forall|v: u64|
                    #[trigger] self.is_edit(v) <==> (s0.is_edit(v) || exists|j: int|
                        0 <= j < k && (#[trigger] edits@[j]).var == v),
            decreases edits@.len() - k,
        {
            let e = edits[k];
            let ghost pre = *self;
            if !self.backend.has_edit_variable(e.var) {
                proof {
                    assert(e.var < s0.num_vars());
                    assert(backend_vars(self.backend).contains(e.var) <==> e.var
                        < self.num_vars());
                }
                self.backend.add_edit_variable(e.var, e.strength);
                proof {
                    assert forall|v: u64| #[trigger] self.is_edit(v) implies v
                        < self.num_vars() by {
                        if v != e.var {
                            assert(pre.is_edit(v));
                        }
                    }
                    Self::lemma_wf_frame_edits(pre, *self);
                }
            }
            let ghost pre2 = *self;
            self.backend.suggest_value(e.var, e.value);
            proof {
                Self::lemma_wf_frame(pre2, *self);
                assert forall|v: u64|
                    #[trigger] self.is_edit(v) <==> (s0.is_edit(v) || exists|j: int|
                        0 <= j < k + 1 && (#[trigger] edits@[j]).var == v) by {
                    if self.is_edit(v) {
                        if pre.is_edit(v) {
                            if !s0.is_edit(v) {
                                let j = choose|j: int| 0 <= j < k && edits@[j].var == v;
                                assert(edits@[j].var == v);
                            }
                        } else {
                            assert(v == e.var);
                            assert(edits@[k as int].var == v);
                        }
                    } else {
                        assert(!pre.is_edit(v));
                        assert(v != e.var);
                        if exists|j: int| 0 <= j < k + 1 && edits@[j].var == v {
                            let j = choose|j: int| 0 <= j < k + 1 && edits@[j].var == v;
                            assert(j < k);
                            assert(pre.is_edit(v));
                        }
                    }
                }
            }
            k += 1;
        }
    }

    /// Applies one widget's batch of edit variables and constraints:
    /// the constraints are validated and registered first, atomically,
    /// then the edit variables are registered and their values
    /// suggested, and change detection runs once over the whole batch.
    pub fn update_from_builder(&mut self, update: LayoutUpdate) -> (r: Result<
        Option<LayoutChanged>,
        LayoutError,
    >)
        requires
            old(self).wf(),
            forall|j: int, i: int|
                0 <= j < update.constraints@.len() && 0 <= i
                    < update.constraints@[j].terms@.len() ==> (
                #[trigger] update.constraints@[j].terms@[i]).var < old(self).num_vars(),
            forall|j: int|
                0 <= j < update.edit_vars@.len() ==> (#[trigger] update.edit_vars@[j]).var < old(
                    self,
                ).num_vars(),
            forall|j: int|
                0 <= j < update.edit_vars@.len() ==> (#[trigger] update.edit_vars@[j]).strength
                    < crate::strength::REQUIRED,
            old(self).num_cons() + update.constraints@.len() <= u64::MAX,
        ensures
            final (self).wf(),
            final (self).num_vars() == old(self).num_vars(),
            forall|v: u64| final (self).owner_of(v) == old(self).owner_of(v),
            forall|v: u64| final (self).name_of(v) == old(self).name_of(v),
            r is Ok ==> final (self).cons@ == old(self).cons@ + update.constraints@,
            r is Ok ==> forall|c: u64|
                #[trigger] final (self).live(c) <==> (old(self).live(c) || (old(self).num_cons()
                    <= c as int && (c as int) < old(self).num_cons()
                    + update.constraints@.len())),
            r is Ok ==> final (self).debug_order() == old(self).debug_order() + Seq::new(
                update.constraints@.len(),
                |j: int| (old(self).num_cons() + j) as u64,
            ),
            r is Ok ==> forall|v: u64|
                #[trigger] final (self).is_edit(v) <==> (old(self).is_edit(v) || exists|j: int|
                    0 <= j < update.edit_vars@.len() && (#[trigger] update.edit_vars@[j]).var
                        == v),
            r is Err ==> forall|c: u64| #[trigger] final (self).live(c) == old(self).live(c),
            r is Err ==> forall|v: u64, c: u64|
                #[trigger] final (self).indexed(v, c) == old(self).indexed(v, c),
            r is Err ==> final (self).debug_order() == old(self).debug_order(),
            r is Err ==> backend_edits(final (self).backend) == backend_edits(old(self).backend),
            r is Err ==> (r == Result::<Option<LayoutChanged>, LayoutError>::Err(
                LayoutError::Unsatisfiable,
            ) || r == Result::<Option<LayoutChanged>, LayoutError>::Err(LayoutError::Internal)),
            update.constraints@.len() == 0 ==> r is Ok,
            r is Ok && r->Ok_0 is Some ==> (r->Ok_0->0).0@.len() > 0,
            r is Ok && r->Ok_0 is Some ==> forall|t: int|
                0 <= t < (r->Ok_0->0).0@.len() ==> final (self).owner_of((#[trigger] (
                r->Ok_0->0).0@[t]).1) == Some((r->Ok_0->0).0@[t].0),
    {
        let ghost cons0 = update.constraints@;
        let ghost evs = update.edit_vars@;
        let LayoutUpdate { edit_vars, constraints } = update;
        match self.add_constraints_atomic(constraints) {
            Err(e) => Err(e),
            Ok(()) => {
                let ghost m1 = *self;
                self.register_edits(&edit_vars);
                let ghost m2 = *self;
                let rr = self.check_changes();
                proof {
                    assert forall|c: u64|
                        #[trigger] self.live(c) <==> (old(self).live(c) || (old(
                            self,
                        ).num_cons() <= c as int && (c as int) < old(self).num_cons()
                            + cons0.len())) by {
                        assert(m1.live(c) <==> (old(self).live(c) || (old(self).num_cons()
                            <= c as int && (c as int) < old(self).num_cons() + cons0.len())));
                    }
                    assert forall|v: u64|
                        #[trigger] self.is_edit(v) <==> (old(self).is_edit(v) || exists|j: int|
                            0 <= j < evs.len() && (#[trigger] evs[j]).var == v) by {
                        assert(m2.is_edit(v) <==> (m1.is_edit(v) || exists|j: int|
                            0 <= j < evs.len() && (#[trigger] evs[j]).var == v));
                        assert(m1.is_edit(v) == old(self).is_edit(v));
                    }
                    assert forall|v: u64| self.owner_of(v) == old(self).owner_of(v) by {
                        assert(m1.owner_of(v) == old(self).owner_of(v));
                    }
                    assert forall|v: u64| self.name_of(v) == old(self).name_of(v) by {
                        assert(m1.name_of(v) == old(self).name_of(v));
                    }
                }
                Ok(rr)
            },
        }
    }

    /// Records diagnostic names for one widget's six layout variables,
    /// suffixing the widget's debug name.
    fn set_layout_names(&mut self, lv: &LayoutVars, name: &String)
        requires
            old(self).wf(),
            forall|v: u64| lv.owns(v) ==> v < old(self).num_vars(),
        ensures
            final (self).wf(),
            final (self).cons@ == old(self).cons@,
            final (self).num_vars() == old(self).num_vars(),
            backend_cons(final (self).backend) == backend_cons(old(self).backend),
            backend_edits(final (self).backend) == backend_edits(old(self).backend),
            final (self).debug_order() == old(self).debug_order(),
            forall|w: u64| final (self).owner_of(w) == old(self).owner_of(w),
            forall|w: u64, c: u64| final (self).indexed(w, c) == old(self).indexed(w, c),
            forall|w: u64| !lv.owns(w) ==> final (self).name_of(w) == old(self).name_of(w),
            lv.distinct() ==> {
                &&& final (self).name_of(lv.left) is Some
                &&& final (self).name_of(lv.left)->0@ == name@ + ".left"@
                &&& final (self).name_of(lv.top) is Some
                &&& final (self).name_of(lv.top)->0@ == name@ + ".top"@
                &&& final (self).name_of(lv.right) is Some
                &&& final (self).name_of(lv.right)->0@ == name@ + ".right"@
                &&& final (self).name_of(lv.bottom) is Some
                &&& final (self).name_of(lv.bottom)->0@ == name@ + ".bottom"@
                &&& final (self).name_of(lv.width) is Some
                &&& final (self).name_of(lv.width)->0@ == name@ + ".width"@
                &&& final (self).name_of(lv.height) is Some
                &&& final (self).name_of(lv.height)->0@ == name@ + ".height"@
            },
    {
        proof {
            assert(lv.owns(lv.left) && lv.owns(lv.top) && lv.owns(lv.right) && lv.owns(lv.bottom)
                && lv.owns(lv.width) && lv.owns(lv.height));
        }
        let ghost g0 = *self;
        self.add_debug_var_name(lv.left, crate::text::strcat(name.clone(), ".left"));
        let ghost g1 = *self;
        self.add_debug_var_name(lv.top, crate::text::strcat(name.clone(), ".top"));
        let ghost g2 = *self;
        self.add_debug_var_name(lv.right, crate::text::strcat(name.clone(), ".right"));
        let ghost g3 = *self;
        self.add_debug_var_name(lv.bottom, crate::text::strcat(name.clone(), ".bottom"));
        let ghost g4 = *self;
        self.add_debug_var_name(lv.width, crate::text::strcat(name.clone(), ".width"));
        let ghost g5 = *self;
        self.add_debug_var_name(lv.height, crate::text::strcat(name.clone(), ".height"));
        proof {
            assert forall|w: u64| self.owner_of(w) == old(self).owner_of(w) by {
                assert(g1.owner_of(w) == g0.owner_of(w));
                assert(g2.owner_of(w) == g1.owner_of(w));
                assert(g3.owner_of(w) == g2.owner_of(w));
                assert(g4.owner_of(w) == g3.owner_of(w));
                assert(g5.owner_of(w) == g4.owner_of(w));
                assert(self.owner_of(w) == g5.owner_of(w));
            }
            assert forall|w: u64, c: u64| #[trigger] self.indexed(w, c) == old(self).indexed(
                w,
                c,
            ) by {
                assert(g1.indexed(w, c) == g0.indexed(w, c));
                assert(g2.indexed(w, c) == g1.indexed(w, c));
                assert(g3.indexed(w, c) == g2.indexed(w, c));
                assert(g4.indexed(w, c) == g3.indexed(w, c));
                assert(g5.indexed(w, c) == g4.indexed(w, c));
                assert(self.indexed(w, c) == g5.indexed(w, c));
            }
            assert forall|w: u64| !lv.owns(w) implies self.name_of(w) == old(self).name_of(
                w,
            ) by {
                assert(g1.name_of(w) == g0.name_of(w));
                assert(g2.name_of(w) == g1.name_of(w));
                assert(g3.name_of(w) == g2.name_of(w));
                assert(g4.name_of(w) == g3.name_of(w));
                assert(g5.name_of(w) == g4.name_of(w));
                assert(self.name_of(w) == g5.name_of(w));
            }
            if lv.distinct() {
                assert(g2.name_of(lv.left) == g1.name_of(lv.left));
                assert(g3.name_of(lv.left) == g2.name_of(lv.left));
                assert(g4.name_of(lv.left) == g3.name_of(lv.left));
                assert(g5.name_of(lv.left) == g4.name_of(lv.left));
                assert(self.name_of(lv.left) == g5.name_of(lv.left));
                assert(g3.name_of(lv.top) == g2.name_of(lv.top));
                assert(g4.name_of(lv.top) == g3.name_of(lv.top));
                assert(g5.name_of(lv.top) == g4.name_of(lv.top));
                assert(self.name_of(lv.top) == g5.name_of(lv.top));
                assert(g4.name_of(lv.right) == g3.name_of(lv.right));
                assert(g5.name_of(lv.right) == g4.name_of(lv.right));
                assert(self.name_of(lv.right) == g5.name_of(lv.right));
                assert(g5.name_of(lv.bottom) == g4.name_of(lv.bottom));
                assert(self.name_of(lv.bottom) == g5.name_of(lv.bottom));
                assert(self.name_of(lv.width) == g5.name_of(lv.width));
            }
        }
    }

    /// Registers one widget with the store: records the widget as the
    /// owner of its layout variables, records diagnostic names for them
    /// when the widget carries a debug name, and applies the widget's
    /// batch of edit variables and constraints. On failure the store is
    /// left as it was.
    pub fn add_widget(&mut self, widget_id: u64, widget: &Widget, update: LayoutUpdate) -> (r:
        Result<Option<LayoutChanged>, LayoutError>)
        requires
            old(self).wf(),
            forall|v: u64| widget.layout.owns(v) ==> v < old(self).num_vars(),
            forall|j: int, i: int|
                0 <= j < update.constraints@.len() && 0 <= i
                    < update.constraints@[j].terms@.len() ==> (
                #[trigger] update.constraints@[j].terms@[i]).var < old(self).num_vars(),
            forall|j: int|
                0 <= j < update.edit_vars@.len() ==> (#[trigger] update.edit_vars@[j]).var < old(
                    self,
                ).num_vars(),
            forall|j: int|
                0 <= j < update.edit_vars@.len() ==> (#[trigger] update.edit_vars@[j]).strength
                    < crate::strength::REQUIRED,
            old(self).num_cons() + update.constraints@.len() <= u64::MAX,
        ensures
            final (self).wf(),
            final (self).num_vars() == old(self).num_vars(),
            r is Ok ==> forall|v: u64|
                widget.layout.owns(v) ==> final (self).owner_of(v) == Some(widget_id),
            r is Ok ==> forall|v: u64|
                !widget.layout.owns(v) ==> final (self).owner_of(v) == old(self).owner_of(v),
            r is Ok ==> final (self).cons@ == old(self).cons@ + update.constraints@,
            r is Ok ==> forall|c: u64|
                #[trigger] final (self).live(c) <==> (old(self).live(c) || (old(self).num_cons()
                    <= c as int && (c as int) < old(self).num_cons()
                    + update.constraints@.len())),
            r is Ok ==> forall|v: u64|
                #[trigger] final (self).is_edit(v) <==> (old(self).is_edit(v) || exists|j: int|
                    0 <= j < update.edit_vars@.len() && (#[trigger] update.edit_vars@[j]).var
                        == v),
            r is Err ==> forall|c: u64| #[trigger] final (self).live(c) == old(self).live(c),
            r is Err ==> forall|v: u64, c: u64|
                #[trigger] final (self).indexed(v, c) == old(self).indexed(v, c),
            r is Err ==> final (self).debug_order() == old(self).debug_order(),
            r is Err ==> backend_edits(final (self).backend) == backend_edits(old(self).backend),
            r is Err ==> forall|v: u64| final (self).owner_of(v) == old(self).owner_of(v),
            r is Err ==> forall|v: u64| final (self).name_of(v) == old(self).name_of(v),
            r is Err ==> (r == Result::<Option<LayoutChanged>, LayoutError>::Err(
                LayoutError::Unsatisfiable,
            ) || r == Result::<Option<LayoutChanged>, LayoutError>::Err(LayoutError::Internal)),
            update.constraints@.len() == 0 ==> r is Ok,
            r is Ok && widget.debug_name is Some && widget.layout.distinct() ==> {
                &&& final (self).name_of(widget.layout.left) is Some
                &&& final (self).name_of(widget.layout.left)->0@ == widget.debug_name->0@
                    + ".left"@
                &&& final (self).name_of(widget.layout.top) is Some
                &&& final (self).name_of(widget.layout.top)->0@ == widget.debug_name->0@
                    + ".top"@
                &&& final (self).name_of(widget.layout.right) is Some
                &&& final (self).name_of(widget.layout.right)->0@ == widget.debug_name->0@
                    + ".right"@
                &&& final (self).name_of(widget.layout.bottom) is Some
                &&& final (self).name_of(widget.layout.bottom)->0@ == widget.debug_name->0@
                    + ".bottom"@
                &&& final (self).name_of(widget.layout.width) is Some
                &&& final (self).name_of(widget.layout.width)->0@ == widget.debug_name->0@
                    + ".width"@
                &&& final (self).name_of(widget.layout.height) is Some
                &&& final (self).name_of(widget.layout.height)->0@ == widget.debug_name->0@
                    + ".height"@
            },
            r is Ok && widget.debug_name is None ==> forall|v: u64|
                final (self).name_of(v) == old(self).name_of(v),
            r is Ok && r->Ok_0 is Some ==> (r->Ok_0->0).0@.len() > 0,
            r is Ok && r->Ok_0 is Some ==> forall|t: int|
                0 <= t < (r->Ok_0->0).0@.len() ==> final (self).owner_of((#[trigger] (
                r->Ok_0->0).0@[t]).1) == Some((r->Ok_0->0).0@[t].0),
    {
        let ghost cons0 = update.constraints@;
        let ghost evs = update.edit_vars@;
        let LayoutUpdate { edit_vars, constraints } = update;
        match self.add_constraints_atomic(constraints) {
            Err(e) => Err(e),
            Ok(()) => {
                let ghost m1 = *self;
                let ghost mid = *self;
                let vl = widget.layout.var_list();
                let mut oi: usize = 0;
                while oi < vl.len()
                    invariant
                        0 <= oi <= vl@.len(),
                        vl@ == seq![
                            widget.layout.left,
                            widget.layout.top,
                            widget.layout.right,
                            widget.layout.bottom,
                            widget.layout.width,
                            widget.layout.height,
                        ],
                        forall|v: u64| widget.layout.owns(v) <==> vl@.contains(v),
                        forall|v: u64| widget.layout.owns(v) ==> v < mid.num_vars(),
                        mid.wf(),
                        self.wf(),
                        self.cons@ == mid.cons@,
                        self.num_vars() == mid.num_vars(),
                        self.backend == mid.backend,
                        self.debug_order() == mid.debug_order(),
                        forall|j: int| 0 <= j < oi ==> self.owner_of(vl@[j]) == Some(widget_id),
                        forall|w: u64|
                            !vl@.subrange(0, oi as int).contains(w) ==> self.owner_of(w)
                                == mid.owner_of(w),
                        forall|w: u64| self.name_of(w) == mid.name_of(w),
                    decreases vl@.len() - oi,
                {
                    let v: u64 = vl[oi];
                    proof {
                        assert(vl@.contains(v));
                        assert(widget.layout.owns(v));
                        assert(v < self.num_vars());
                    }
                    let ghost pre = *self;
                    self.set_owner(v, Some(widget_id));
                    proof {
                        broadcast use vstd::seq_lib::lemma_seq_contains_after_push;

                        assert(vl@.subrange(0, oi + 1 as int) =~= vl@.subrange(
                            0,
                            oi as int,
                        ).push(v));
                        assert forall|j: int|
                            0 <= j < oi + 1 implies self.owner_of(vl@[j]) == Some(
                            widget_id,
                        ) by {
                            if j < oi {
                                if vl@[j] != v {
                                    assert(pre.owner_of(vl@[j]) == Some(widget_id));
                                }
                            }
                        }
                    }
                    oi += 1;
                }
                proof {
                    assert(vl@.subrange(0, vl@.len() as int) == vl@);
                    assert forall|v: u64|
                        widget.layout.owns(v) implies self.owner_of(v) == Some(widget_id) by {
                        let j = choose|j: int| 0 <= j < vl@.len() && vl@[j] == v;
                        assert(self.owner_of(vl@[j]) == Some(widget_id));
                    }
                }
                let ghost m2 = *self;
                match &widget.debug_name {
                    Some(name) => {
                        self.set_layout_names(&widget.layout, name);
                    },
                    None => {},
                }
                let ghost m3 = *self;
                self.register_edits(&edit_vars);
                let ghost m4 = *self;
                let rr = self.check_changes();
                proof {
                    assert forall|c: u64|
                        #[trigger] self.live(c) <==> (old(self).live(c) || (old(
                            self,
                        ).num_cons() <= c as int && (c as int) < old(self).num_cons()
                            + cons0.len())) by {
                        assert(m1.live(c) <==> (old(self).live(c) || (old(self).num_cons()
                            <= c as int && (c as int) < old(self).num_cons() + cons0.len())));
                        assert(m2.live(c) == m1.live(c));
                        assert(m4.live(c) == m3.live(c));
                    }
                    assert forall|v: u64|
                        #[trigger] self.is_edit(v) <==> (old(self).is_edit(v) || exists|j: int|
                            0 <= j < evs.len() && (#[trigger] evs[j]).var == v) by {
                        assert(m4.is_edit(v) <==> (m3.is_edit(v) || exists|j: int|
                            0 <= j < evs.len() && (#[trigger] evs[j]).var == v));
                        assert(m3.is_edit(v) == m2.is_edit(v));
                        assert(m2.is_edit(v) == m1.is_edit(v));
                        assert(m1.is_edit(v) == old(self).is_edit(v));
                    }
                    assert forall|v: u64|
                        widget.layout.owns(v) implies self.owner_of(v) == Some(widget_id) by {
                        assert(m2.owner_of(v) == Some(widget_id));
                        assert(m3.owner_of(v) == m2.owner_of(v));
                    }
                    assert forall|v: u64|
                        !widget.layout.owns(v) implies self.owner_of(v) == old(self).owner_of(
                        v,
                    ) by {
                        assert(!vl@.subrange(0, vl@.len() as int).contains(v));
                        assert(m2.owner_of(v) == m1.owner_of(v));
                        assert(m1.owner_of(v) == old(self).owner_of(v));
                        assert(m3.owner_of(v) == m2.owner_of(v));
                    }
                    if widget.debug_name is Some && widget.layout.distinct() {
                        assert(self.name_of(widget.layout.left) == m3.name_of(
                            widget.layout.left,
                        ));
                        assert(self.name_of(widget.layout.top) == m3.name_of(
                            widget.layout.top,
                        ));
                        assert(self.name_of(widget.layout.right) == m3.name_of(
                            widget.layout.right,
                        ));
                        assert(self.name_of(widget.layout.bottom) == m3.name_of(
                            widget.layout.bottom,
                        ));
                        assert(self.name_of(widget.layout.width) == m3.name_of(
                            widget.layout.width,
                        ));
                        assert(self.name_of(widget.layout.height) == m3.name_of(
                            widget.layout.height,
                        ));
                    }
                    if widget.debug_name is None {
                        assert forall|v: u64| self.name_of(v) == old(self).name_of(v) by {
                            assert(self.name_of(v) == m3.name_of(v));
                            assert(m3.name_of(v) == m2.name_of(v));
                            assert(m2.name_of(v) == m1.name_of(v));
                            assert(m1.name_of(v) == old(self).name_of(v));
                        }
                    }
                }
                Ok(rr)
            },
        }
    }

    /// Applies a batch of direct solver edits, then runs change
    /// detection. The batch is validated first and applied only when
    /// every edit is legal, so the store is never left half-mutated: an
    /// edit referencing an unregistered edit variable rejects the whole
    /// batch with `UnknownEditVariable`.
    pub fn update_solver(&mut self, edits: &Vec<SolverEdit>) -> (r: Result<
        Option<LayoutChanged>,
        LayoutError,
    >)
        requires
            old(self).wf(),
            forall|j: int|
                0 <= j < edits@.len() ==> match #[trigger] edits@[j] {
                    SolverEdit::AddEditVar { var, strength } => var < old(self).num_vars()
                        && strength < crate::strength::REQUIRED,
                    _ => true,
                },
        ensures
            final (self).wf(),
            final (self).vars@ == old(self).vars@,
            final (self).cons@ == old(self).cons@,
            final (self).debug_order() == old(self).debug_order(),
            backend_vars(final (self).backend) == backend_vars(old(self).backend),
            backend_cons(final (self).backend) == backend_cons(old(self).backend),
            r is Ok <==> edits_valid(backend_edits(old(self).backend), edits@),
            r is Ok ==> backend_edits(final (self).backend) == edits_apply(
                backend_edits(old(self).backend),
                edits@,
            ),
            r is Err ==> backend_edits(final (self).backend) == backend_edits(old(self).backend),
            r is Err ==> r == Result::<Option<LayoutChanged>, LayoutError>::Err(
                LayoutError::UnknownEditVariable,
            ),
            r is Ok && r->Ok_0 is Some ==> (r->Ok_0->0).0@.len() > 0,
            r is Ok && r->Ok_0 is Some ==> forall|t: int|
                0 <= t < (r->Ok_0->0).0@.len() ==> final (self).owner_of((#[trigger] (
                r->Ok_0->0).0@[t]).1) == Some((r->Ok_0->0).0@[t].0),
    {
        let ghost s0 = backend_edits(old(self).backend);
        // validation pass over a mirror of the evolving edit set
        let mut now_in: Vec<u64> = Vec::new();
        let mut now_out: Vec<u64> = Vec::new();
        let mut k: usize = 0;
        while k < edits.len()
            invariant
                0 <= k <= edits@.len(),
                s0 == backend_edits(self.backend),
                self == old(self),
                old(self).wf(),
                no_dups(now_in@),
                no_dups(now_out@),
                forall|v: u64| !(now_in@.contains(v) && now_out@.contains(v)),
                edits_valid(s0, edits@.subrange(0, k as int)),
                forall|v: u64|
                    #[trigger] edits_apply(s0, edits@.subrange(0, k as int)).contains(v) <==> (
                    now_in@.contains(v) || (s0.contains(v) && !now_out@.contains(v))),
            decreases edits@.len() - k,
        {
            let ghost prefix = edits@.subrange(0, k as int);
            let ghost cur = edits_apply(s0, prefix);
            let e = edits[k];
            let member: bool = match e {
                SolverEdit::AddEditVar { var, .. } | SolverEdit::RemoveEditVar { var }
                | SolverEdit::Suggest { var, .. } => {
                    if vec_contains(&now_in, var) {
                        true
                    } else if vec_contains(&now_out, var) {
                        false
                    } else {
                        self.backend.has_edit_variable(var)
                    }
                },
            };
            proof {
                let v = match edits@[k as int] {
                    SolverEdit::AddEditVar { var, .. } => var,
                    SolverEdit::RemoveEditVar { var } => var,
                    SolverEdit::Suggest { var, .. } => var,
                };
                assert(cur.contains(v) <==> (now_in@.contains(v) || (s0.contains(v)
                    && !now_out@.contains(v))));
                assert(member == cur.contains(v));
            }
            let ghost in0 = now_in@;
            let ghost out0 = now_out@;
            match e {
                SolverEdit::AddEditVar { var, .. } => {
                    if !member {
                        proof {
                            broadcast use vstd::seq_lib::lemma_seq_contains_after_push;

                            assert(!in0.contains(var));
                            assert forall|a2: int, b2: int|
                                0 <= a2 < b2 < in0.push(var).len() implies in0.push(var)[a2]
                                != in0.push(var)[b2] by {
                                if b2 == in0.push(var).len() - 1 {
                                    assert(in0.contains(in0[a2]));
                                }
                            }
                        }
                        now_in.push(var);
                        let cleaned = vec_remove_val(&now_out, var);
                        now_out = cleaned;
                    }
                },
                SolverEdit::RemoveEditVar { var } => {
                    if !member {
                        proof {
                            let suffix = edits@.subrange(k as int, edits@.len() as int);
                            assert(edits@ =~= prefix + suffix);
                            lemma_edits_split(s0, prefix, suffix);
                            assert(suffix[0] == edits@[k as int]);
                        }
                        return Err(LayoutError::UnknownEditVariable);
                    }
                    proof {
                        broadcast use vstd::seq_lib::lemma_seq_contains_after_push;

                        assert(!out0.contains(var));
                        assert forall|a2: int, b2: int|
                            0 <= a2 < b2 < out0.push(var).len() implies out0.push(var)[a2]
                            != out0.push(var)[b2] by {
                            if b2 == out0.push(var).len() - 1 {
                                assert(out0.contains(out0[a2]));
                            }
                        }
                    }
                    now_out.push(var);
                    let cleaned = vec_remove_val(&now_in, var);
                    now_in = cleaned;
                },
                SolverEdit::Suggest { var, .. } => {
                    if !member {
                        proof {
                            let suffix = edits@.subrange(k as int, edits@.len() as int);
                            assert(edits@ =~= prefix + suffix);
                            lemma_edits_split(s0, prefix, suffix);
                            assert(suffix[0] == edits@[k as int]);
                        }
                        return Err(LayoutError::UnknownEditVariable);
                    }
                },
            }
            proof {
                broadcast use vstd::seq_lib::lemma_seq_contains_after_push;

                let next = edits@.subrange(0, k + 1 as int);
                let single = seq![edits@[k as int]];
                assert(next =~= prefix + single);
                lemma_edits_split(s0, prefix, single);
                assert(single[0] == edits@[k as int]);
                assert(single.drop_first() =~= Seq::<SolverEdit>::empty());
                assert(edits_valid(edit_step(cur, edits@[k as int]), Seq::<SolverEdit>::empty()));
                assert(edits_apply(edit_step(cur, edits@[k as int]), Seq::<SolverEdit>::empty())
                    == edit_step(cur, edits@[k as int]));
                assert(edits_valid(cur, single));
                assert(edits_apply(cur, single) == edit_step(cur, edits@[k as int]));
                assert(edits_apply(s0, next) == edit_step(cur, edits@[k as int]));
            }
            k += 1;
        }
        proof {
            assert(edits@.subrange(0, edits@.len() as int) == edits@);
        }
        // apply pass: every edit is now known to be legal
        let mut a: usize = 0;
        while a < edits.len()
            invariant
                0 <= a <= edits@.len(),
                s0 == backend_edits(old(self).backend),
                edits_valid(s0, edits@),
                forall|j: int|
                    0 <= j < edits@.len() ==> match #[trigger] edits@[j] {
                        SolverEdit::AddEditVar { var, strength } => var < old(self).num_vars()
                            && strength < crate::strength::REQUIRED,
                        _ => true,
                    },
                old(self).wf(),
                self.wf(),
                self.vars@ == old(self).vars@,
                self.cons@ == old(self).cons@,
                self.num_vars() == old(self).num_vars(),
                self.debug_order() == old(self).debug_order(),
                backend_vars(self.backend) == backend_vars(old(self).backend),
                backend_cons(self.backend) == backend_cons(old(self).backend),
                backend_edits(self.backend) == edits_apply(s0, edits@.subrange(0, a as int)),
                edits_valid(backend_edits(self.backend), edits@.subrange(a as int, edits@.len() as int)),
            decreases edits@.len() - a,
        {
            let ghost cur = backend_edits(self.backend);
            let ghost suffix = edits@.subrange(a as int, edits@.len() as int);
            proof {
                assert(suffix[0] == edits@[a as int]);
                assert(edit_ok(cur, edits@[a as int]));
            }
            let e = edits[a];
            let ghost pre = *self;
            match e {
                SolverEdit::AddEditVar { var, strength } => {
                    if !self.backend.has_edit_variable(var) {
                        proof {
                            assert(backend_vars(self.backend).contains(var) <==> var
                                < self.num_vars());
                        }
                        self.backend.add_edit_variable(var, strength);
                        proof {
                            assert forall|v: u64| #[trigger] self.is_edit(v) implies v
                                < self.num_vars() by {
                                if v != var {
                                    assert(pre.is_edit(v));
                                }
                            }
                            Self::lemma_wf_frame_edits(pre, *self);
                        }
                    } else {
                        proof {
                            assert(backend_edits(self.backend) =~= backend_edits(
                                self.backend,
                            ).insert(var));
                        }
                    }
                },
                SolverEdit::RemoveEditVar { var } => {
                    self.backend.remove_edit_variable(var);
                    proof {
                        assert forall|v: u64| #[trigger] self.is_edit(v) implies v
                            < self.num_vars() by {
                            assert(pre.is_edit(v));
                        }
                        Self::lemma_wf_frame_edits(pre, *self);
                    }
                },
                SolverEdit::Suggest { var, .. } => {
                    self.backend.suggest_value(var, match e {
                        SolverEdit::Suggest { value, .. } => value,
                        _ => 0,
                    });
                    proof {
                        Self::lemma_wf_frame(pre, *self);
                    }
                },
            }
            proof {
                let next = edits@.subrange(0, a + 1 as int);
                let prefix = edits@.subrange(0, a as int);
                let single = seq![edits@[a as int]];
                assert(next =~= prefix + single);
                lemma_edits_split(s0, prefix, single);
                assert(single[0] == edits@[a as int]);
                assert(single.drop_first() =~= Seq::<SolverEdit>::empty());
                assert(backend_edits(self.backend) == edit_step(cur, edits@[a as int]));
                assert(edits_apply(edit_step(cur, edits@[a as int]), Seq::<SolverEdit>::empty())
                    == edit_step(cur, edits@[a as int]));
                assert(edits_apply(cur, single) == edit_step(cur, edits@[a as int]));
                assert(edits_apply(s0, next) == edit_step(cur, edits@[a as int]));
                let nsuffix = edits@.subrange(a + 1 as int, edits@.len() as int);
                assert(suffix.drop_first() =~= nsuffix);
                assert(edits_valid(backend_edits(self.backend), nsuffix));
            }
            a += 1;
        }
        proof {
            assert(edits@.subrange(0, edits@.len() as int) == edits@);
        }
        Ok(self.check_changes())
    }

    /// Whether `v` is registered as an edit variable.
    pub fn has_edit_variable(&self, v: u64) -> (r: bool)
        ensures
            r == self.is_edit(v),
    {
        self.backend.has_edit_variable(v)
    }

    /// Whether constraint `c` is currently held by the solver.
    pub fn has_constraint(&self, c: u64) -> (r: bool)
        ensures
            r == self.live(c),
    {
        self.backend.has_constraint(c)
    }

    /// The rendering of a variable: its registered name, or the opaque
    /// fallback built from its id.
    pub open spec fn spec_var_name(self, v: u64) -> Seq<char> {
        match self.name_of(v) {
            Some(n) => n@,
            None => "var("@ + crate::text::spec_decimal_nat(v as nat) + ")"@,
        }
    }

    /// The rendering of one term's sign and coefficient: a unit
    /// coefficient prints nothing (a sign only when not first), minus
    /// one prints a bare sign, and any other coefficient prints its
    /// magnitude and a multiplication sign.
    pub open spec fn spec_coef_frag(coeff: int, first: bool) -> Seq<char> {
        if coeff == 1 {
            if first {
                Seq::empty()
            } else {
                "+ "@
            }
        } else if coeff == -1 {
            "- "@
        } else if coeff > 0 {
            (if first {
                Seq::<char>::empty()
            } else {
                "+ "@
            }) + crate::text::spec_decimal_nat(coeff as nat) + " * "@
        } else {
            "- "@ + crate::text::spec_decimal_nat((-coeff) as nat) + " * "@
        }
    }

    /// The rendered fragments of the first `k` terms of constraint
    /// `c`: each term is a space, its coefficient fragment, and its
    /// variable; the first fragment is unsigned only when the constant
    /// was omitted.
    pub open spec fn spec_expr_prefix(self, c: u64, k: int) -> Seq<char>
        decreases k,
    {
        if k <= 0 {
            Seq::empty()
        } else {
            let t = self.cons@[c as int].terms@[k - 1];
            self.spec_expr_prefix(c, k - 1) + " "@ + Self::spec_coef_frag(
                t.coeff as int,
                self.cons@[c as int].constant == 0 && k - 1 == 0,
            ) + self.spec_var_name(t.var)
        }
    }

    /// The rendering of a constraint's expression: the constant first,
    /// omitted exactly when zero, then one fragment per term in term
    /// order.
    pub open spec fn spec_expression(self, c: u64) -> Seq<char> {
        (if self.cons@[c as int].constant != 0 {
            crate::text::spec_decimal_int(self.cons@[c as int].constant as int)
        } else {
            Seq::<char>::empty()
        }) + self.spec_expr_prefix(c, self.cons@[c as int].terms@.len() as int)
    }

    /// The rendering of a comparator.
    pub open spec fn spec_op_str(op: crate::layout::RelOp) -> Seq<char> {
        match op {
            crate::layout::RelOp::Le => "<="@,
            crate::layout::RelOp::Eq => "=="@,
            crate::layout::RelOp::Ge => ">="@,
        }
    }

    /// The full diagnostic line of one constraint: the strength-tier
    /// label, the expression, and the comparator against zero.
    pub open spec fn spec_constraint_line(self, c: u64) -> Seq<char> {
        crate::strength::spec_tier_label(
            crate::strength::spec_tier(self.cons@[c as int].strength),
        ) + " "@ + self.spec_expression(c) + " "@ + Self::spec_op_str(self.cons@[c as int].op)
            + " 0"@
    }

    /// Renders a variable for diagnostics: its registered name, or a
    /// placeholder built from its id.
    fn fmt_variable(&self, v: u64) -> (r: String)
        requires
            self.wf(),
            v < self.num_vars(),
        ensures
            r@ == self.spec_var_name(v),
    {
        let n: usize = self.vars.len();
        let vu: usize = v as usize;
        proof {
            assert(vu as int == v as int);
        }
        match &self.vars[vu].name {
            Some(name) => name.clone(),
            None => {
                let s = crate::text::strcat("var(".to_owned(), crate::text::fmt_u64(v).as_str());
                let r = crate::text::strcat(s, ")");
                proof {
                    assert(r@ =~= self.spec_var_name(v));
                }
                r
            },
        }
    }

    /// Renders a constraint's linear expression for diagnostics:
    /// constant first when non-zero, then each term with its sign and
    /// coefficient, unit coefficients left bare.
    fn fmt_expression(&self, c: u64) -> (r: String)
        requires
            self.wf(),
            c < self.num_cons(),
        ensures
            r@ == self.spec_expression(c),
    {
        let nc: usize = self.cons.len();
        let cu: usize = c as usize;
        proof {
            assert(cu as int == c as int);
        }
        let ghost head = if self.cons@[c as int].constant != 0 {
            crate::text::spec_decimal_int(self.cons@[c as int].constant as int)
        } else {
            Seq::<char>::empty()
        };
        let mut out: String = String::new();
        let mut first: bool = true;
        if self.cons[cu].constant != 0 {
            out = crate::text::strcat(out, crate::text::fmt_i64(self.cons[cu].constant).as_str());
            first = false;
        }
        proof {
            assert(out@ =~= head + self.spec_expr_prefix(c, 0));
        }
        let tl: usize = self.cons[cu].terms.len();
        let mut i: usize = 0;
        while i < tl
            invariant
                self.wf(),
                c < self.num_cons(),
                cu as int == c as int,
                tl as int == self.cons@[c as int].terms@.len(),
                0 <= i <= tl,
                head == (if self.cons@[c as int].constant != 0 {
                    crate::text::spec_decimal_int(self.cons@[c as int].constant as int)
                } else {
                    Seq::<char>::empty()
                }),
                first == (self.cons@[c as int].constant == 0 && i == 0),
                out@ == head + self.spec_expr_prefix(c, i as int),
            decreases tl - i,
        {
            let t = self.cons[cu].terms[i];
            proof {
                assert(self.cons@[c as int].terms@[i as int].var < self.num_vars());
            }
            let coef: String = if t.coeff == 1 {
                if first {
                    String::new()
                } else {
                    "+ ".to_owned()
                }
            } else if t.coeff == -1 {
                "- ".to_owned()
            } else if t.coeff > 0 {
                let base = if first {
                    String::new()
                } else {
                    "+ ".to_owned()
                };
                let with_num = crate::text::strcat(base, crate::text::fmt_u64(t.coeff as u64).as_str());
                crate::text::strcat(with_num, " * ")
            } else {
                let mag: u64 = if t.coeff == i64::MIN {
                    9223372036854775808u64
                } else {
                    (-t.coeff) as u64
                };
                proof {
                    assert(mag as int == -(t.coeff as int));
                }
                let with_num = crate::text::strcat("- ".to_owned(), crate::text::fmt_u64(
                    mag,
                ).as_str());
                crate::text::strcat(with_num, " * ")
            };
            proof {
                assert(coef@ == Self::spec_coef_frag(t.coeff as int, first));
            }
            out = crate::text::strcat(out, " ");
            out = crate::text::strcat(out, coef.as_str());
            let var_str = self.fmt_variable(t.var);
            out = crate::text::strcat(out, var_str.as_str());
            proof {
                assert(out@ =~= head + self.spec_expr_prefix(c, i + 1 as int));
            }
            first = false;
            i += 1;
        }
        proof {
            assert(out@ =~= self.spec_expression(c));
        }
        out
    }

    /// Renders one registered constraint: a coarse strength-tier label,
    /// the expression, and the comparator against zero.
    pub fn fmt_constraint(&self, c: u64) -> (r: String)
        requires
            self.wf(),
            c < self.num_cons(),
        ensures
            r@ == self.spec_constraint_line(c),
    {
        let nc: usize = self.cons.len();
        let cu: usize = c as usize;
        proof {
            assert(cu as int == c as int);
        }
        let label = crate::strength::tier_label(crate::strength::tier(self.cons[cu].strength));
        let expr = self.fmt_expression(c);
        let op: &'static str = match self.cons[cu].op {
            crate::layout::RelOp::Le => "<=",
            crate::layout::RelOp::Eq => "==",
            crate::layout::RelOp::Ge => ">=",
        };
        let mut out: String = label.to_owned();
        out = crate::text::strcat(out, " ");
        out = crate::text::strcat(out, expr.as_str());
        out = crate::text::strcat(out, " ");
        out = crate::text::strcat(out, op);
        out = crate::text::strcat(out, " 0");
        proof {
            assert(out@ =~= self.spec_constraint_line(c));
        }
        out
    }

    /// Renders every live constraint, in insertion order, one line per
    /// constraint.
    pub fn debug_constraints(&self) -> (r: Vec<String>)
        requires
            self.wf(),
        ensures
            r@.len() == self.debug_order().len(),
            forall|i: int|
                0 <= i < r@.len() ==> (#[trigger] r@[i])@ == self.spec_constraint_line(
                    self.debug_order()[i],
                ),
    {
        let keys = lh_keys(&self.debug_list);
        let mut out: Vec<String> = Vec::new();
        let mut i: usize = 0;
        while i < keys.len()
            invariant
                self.wf(),
                keys@ == self.debug_order(),
                0 <= i <= keys@.len(),
                out@.len() == i,
                forall|j: int|
                    0 <= j < i ==> (#[trigger] out@[j])@ == self.spec_constraint_line(
                        self.debug_order()[j],
                    ),
            decreases keys@.len() - i,
        {
            let c: u64 = keys[i];
            proof {
                assert(self.debug_order().contains(self.debug_order()[i as int]));
                assert(self.live(c));
            }
            out.push(self.fmt_constraint(c));
            i += 1;
        }
        out
    }

    /// No dangling references: in a well-formed store, every constraint
    /// a variable's index lists is still held by the solver, and
    /// references that variable.
    pub proof fn lemma_no_dangling_references(s: LimnSolver)
        requires
            s.wf(),
        ensures
            forall|v: u64, c: u64| #[trigger] s.indexed(v, c) ==> s.live(c) && s.con_refs(c, v),
    {
    }

    /// Idempotent re-add, at the bookkeeping level: registering a
    /// widget's batch, removing the widget, and registering an
    /// equivalent batch again restores an equivalent store — the same
    /// edit registrations, survivors untouched, and fresh live
    /// constraints carrying exactly the same descriptions. The solver
    /// then derives the resolved bounds from this state. The four
    /// states are one store as the three operations' contracts describe
    /// it, for a widget whose constraints all reference its own box and
    /// share no prior constraint.
    pub proof fn lemma_idempotent_readd(
        s0: LimnSolver,
        s1: LimnSolver,
        s2: LimnSolver,
        s3: LimnSolver,
        lv: LayoutVars,
        cons: Seq<ConstraintSpec>,
        evs: Seq<EditSpec>,
    )
        requires
            s1.cons@ == s0.cons@ + cons,
            forall|c: u64|
                #[trigger] s1.live(c) <==> (s0.live(c) || (s0.num_cons() <= c as int && (
                c as int) < s0.num_cons() + cons.len())),
            forall|v: u64|
                #[trigger] s1.is_edit(v) <==> (s0.is_edit(v) || exists|j: int|
                    0 <= j < evs.len() && (#[trigger] evs[j]).var == v),
            forall|c: u64| #[trigger] s2.live(c) <==> (s1.live(c) && !s1.touches(c, lv)),
            s2.cons@ == s1.cons@,
            backend_edits(s2.backend) == backend_edits(s1.backend),
            s3.cons@ == s2.cons@ + cons,
            forall|c: u64|
                #[trigger] s3.live(c) <==> (s2.live(c) || (s2.num_cons() <= c as int && (
                c as int) < s2.num_cons() + cons.len())),
            forall|v: u64|
                #[trigger] s3.is_edit(v) <==> (s2.is_edit(v) || exists|j: int|
                    0 <= j < evs.len() && (#[trigger] evs[j]).var == v),
            forall|c: u64| #[trigger] s0.live(c) ==> c < s0.num_cons(),
            forall|c: u64| #[trigger] s0.live(c) ==> !s0.touches(c, lv),
            s0.num_cons() + cons.len() <= u64::MAX,
            s2.num_cons() + cons.len() <= u64::MAX,
        ensures
            forall|v: u64| #[trigger] s3.is_edit(v) <==> s1.is_edit(v),
            forall|c: u64| c < s0.num_cons() ==> (#[trigger] s3.live(c) <==> s0.live(c)),
            forall|k: int|
                0 <= k < cons.len() ==> #[trigger] s1.live((s0.num_cons() + k) as u64)
                    && s3.live((s2.num_cons() + k) as u64) && s1.cons@[s0.num_cons() + k]
                    == s3.cons@[s2.num_cons() + k],
    {
        assert forall|v: u64| #[trigger] s3.is_edit(v) <==> s1.is_edit(v) by {
            assert(s2.is_edit(v) == s1.is_edit(v));
        }
        assert forall|c: u64|
            c < s0.num_cons() implies (#[trigger] s3.live(c) <==> s0.live(c)) by {
            assert(s2.live(c) <==> (s1.live(c) && !s1.touches(c, lv)));
            assert(s1.live(c) <==> s0.live(c));
            if s0.live(c) {
                assert(!s0.touches(c, lv));
                assert(s0.cons@[c as int] == s1.cons@[c as int]);
                assert(!s1.touches(c, lv)) by {
                    if s1.touches(c, lv) {
                        let v = choose|v: u64| lv.owns(v) && s1.con_refs(c, v);
                        assert(s0.con_refs(c, v));
                        assert(s0.touches(c, lv));
                    }
                }
            }
        }
        assert forall|k: int|
            0 <= k < cons.len() implies #[trigger] s1.live((s0.num_cons() + k) as u64)
            && s3.live((s2.num_cons() + k) as u64) && s1.cons@[s0.num_cons() + k] == s3.cons@[
            s2.num_cons() + k
        ] by {
            assert(((s0.num_cons() + k) as u64) as int == s0.num_cons() + k);
            assert(((s2.num_cons() + k) as u64) as int == s2.num_cons() + k);
            assert(s1.cons@[s0.num_cons() + k] == cons[k]);
            assert(s3.cons@[s2.num_cons() + k] == cons[k]);
        }
    }

    /// Removes one constraint by id, then runs change detection.
    /// Referencing a constraint the store does not currently hold is a
    /// bookkeeping bug in the caller, reported as `UnknownConstraint`.
    pub fn remove_constraint(&mut self, c: u64) -> (r: Result<Option<LayoutChanged>, LayoutError>)
        requires
            old(self).wf(),
        ensures
            final (self).wf(),
            r is Ok <==> old(self).live(c),
            r is Err ==> r == Result::<Option<LayoutChanged>, LayoutError>::Err(
                LayoutError::UnknownConstraint,
            ),
            r is Err ==> *final (self) == *old(self),
            r is Ok ==> final (self).debug_order() == old(self).debug_order().filter(
                |x: u64| x != c,
            ),
            forall|c2: u64|
                #[trigger] final (self).live(c2) <==> (old(self).live(c2) && !(r is Ok && c2
                    == c)),
            final (self).cons@ == old(self).cons@,
            final (self).num_vars() == old(self).num_vars(),
            forall|v: u64| final (self).owner_of(v) == old(self).owner_of(v),
            forall|v: u64| final (self).name_of(v) == old(self).name_of(v),
            backend_edits(final (self).backend) == backend_edits(old(self).backend),
    {
        if !self.backend.has_constraint(c) {
            proof {
                assert forall|c2: u64|
                    #[trigger] self.live(c2) <==> (old(self).live(c2) && !(false && c2
                        == c)) by {}
            }
            return Err(LayoutError::UnknownConstraint);
        }
        self.purge_constraint(c);
        Ok(self.check_changes())
    }

    /// Records a diagnostic name for a variable, used when rendering
    /// constraints.
    pub fn add_debug_var_name(&mut self, v: u64, name: String)
        requires
            old(self).wf(),
            v < old(self).num_vars(),
        ensures
            final (self).wf(),
            final (self).name_of(v) == Some(name),
            final (self).cons@ == old(self).cons@,
            final (self).num_vars() == old(self).num_vars(),
            backend_cons(final (self).backend) == backend_cons(old(self).backend),
            backend_edits(final (self).backend) == backend_edits(old(self).backend),
            final (self).debug_order() == old(self).debug_order(),
            forall|w: u64| w != v ==> final (self).name_of(w) == old(self).name_of(w),
            forall|w: u64| final (self).owner_of(w) == old(self).owner_of(w),
            forall|w: u64, c: u64| final (self).indexed(w, c) == old(self).indexed(w, c),
    {
        let n: usize = self.vars.len();
        let vu: usize = v as usize;
        self.vars[vu].name = Some(name);
        proof {
            assert(old(self).vars@.len() == n as int);
            assert(vu as int == v as int);
            assert(self.vars@ == old(self).vars@.update(v as int, self.vars@[v as int]));
            assert(forall|w: int|
                0 <= w < self.vars@.len() && w != v as int ==> #[trigger] self.vars@[w] == old(
                    self,
                ).vars@[w]);
            assert(self.vars@[v as int].cons@ == old(self).vars@[v as int].cons@);
            assert forall|w: u64, c: u64| #[trigger] self.indexed(w, c) == old(self).indexed(
                w,
                c,
            ) by {
                if w < self.num_vars() && w != v {
                    assert(self.vars@[w as int] == old(self).vars@[w as int]);
                }
            }
            assert forall|w: u64| #[trigger] backend_vars(self.backend).contains(w) <==> w
                < self.num_vars() by {
                assert(backend_vars(old(self).backend).contains(w) <==> w < old(
                    self,
                ).num_vars());
            }
            assert forall|w: u64| #[trigger] self.is_edit(w) implies w < self.num_vars() by {
                assert(old(self).is_edit(w));
            }
            assert forall|c: u64| #[trigger] self.live(c) implies c < self.num_cons() by {
                assert(old(self).live(c));
            }
            assert forall|w: u64, c: u64| #[trigger] self.indexed(w, c) implies self.live(c)
                && self.con_refs(c, w) by {
                assert(old(self).indexed(w, c));
            }
            assert forall|w: u64, c: u64|
                self.live(c) && #[trigger] self.con_refs(c, w) implies self.indexed(w, c) by {
                assert(old(self).live(c) && old(self).con_refs(c, w));
                assert(old(self).indexed(w, c));
            }
            assert forall|w: int| 0 <= w < self.num_vars() implies no_dups(
                (#[trigger] self.vars@[w]).cons@,
            ) by {
                if w != v {
                    assert(self.vars@[w] == old(self).vars@[w]);
                }
                assert(no_dups(old(self).vars@[w].cons@));
            }
            assert forall|c: u64| #[trigger] self.debug_order().contains(c) <==> self.live(
                c,
            ) by {
                assert(old(self).debug_order().contains(c) <==> old(self).live(c));
            }
        }
    }
}

} // verus!
