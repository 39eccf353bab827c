//! Plain data describing the constraint system.
//!
//! Variables and constraints are addressed by opaque `u64` ids that this
//! crate hands out. A constraint is described structurally: a linear
//! expression (terms plus constant) compared against zero, with a
//! strength. Scalar values suggested to, or resolved by, the solver are
//! carried as the bit patterns of the underlying double-precision
//! numbers, so they round-trip without loss.

use vstd::prelude::*;

verus! {

/// Comparator of a constraint: the expression relates to zero by one of
/// `<=`, `==`, `>=`.
#[derive(Clone, Copy, PartialEq, Eq, Structural, Debug)]
pub enum RelOp {
    Le,
    Eq,
    Ge,
}

/// One term of a linear expression: a variable id and an integer
/// coefficient.
#[derive(Clone, Copy, PartialEq, Eq, Structural, Debug)]
pub struct ConTerm {
    pub var: u64,
    pub coeff: i64,
}

/// Structural description of a linear constraint `terms + constant op 0`
/// with a strength. Registering the same description twice yields two
/// distinct registrations.
#[derive(Clone, Debug)]
pub struct ConstraintSpec {
    pub terms: Vec<ConTerm>,
    pub op: RelOp,
    pub constant: i64,
    pub strength: u64,
}

impl ConstraintSpec {
    /// Whether the constraint's expression mentions variable `v`.
    pub open spec fn references(self, v: u64) -> bool {
        exists|i: int| 0 <= i < self.terms@.len() && self.terms@[i].var == v
    }
}

/// An edit-variable registration: a variable open to external value
/// suggestion, its strength, and the initial suggested integer value.
#[derive(Clone, Copy, PartialEq, Eq, Structural, Debug)]
pub struct EditSpec {
    pub var: u64,
    pub strength: u64,
    pub value: i64,
}

/// Errors of the constraint store.
#[derive(Clone, Copy, PartialEq, Eq, Structural, Debug)]
pub enum LayoutError {
    /// A newly added constraint conflicts with the existing required
    /// constraints. Fatal to the operation that caused it.
    Unsatisfiable,
    /// An operation referenced a variable never registered as an edit
    /// variable: a bookkeeping bug in the caller.
    UnknownEditVariable,
    /// An operation referenced a constraint the store never registered:
    /// a bookkeeping bug in the caller.
    UnknownConstraint,
    /// The solver reported an internal inconsistency.
    Internal,
}

/// The boundary variables of one widget, with the derived width and
/// height variables.
#[derive(Clone, Copy, PartialEq, Eq, Structural, Debug)]
pub struct LayoutVars {
    pub left: u64,
    pub top: u64,
    pub right: u64,
    pub bottom: u64,
    pub width: u64,
    pub height: u64,
}

impl LayoutVars {
    /// Whether `v` is one of this widget's variables.
    pub open spec fn owns(self, v: u64) -> bool {
        v == self.left || v == self.top || v == self.right || v == self.bottom || v == self.width
            || v == self.height
    }

    /// Whether the six variables are pairwise distinct, as allocation
    /// always makes them.
    pub open spec fn distinct(self) -> bool {
        &&& self.left != self.top
        &&& self.left != self.right
        &&& self.left != self.bottom
        &&& self.left != self.width
        &&& self.left != self.height
        &&& self.top != self.right
        &&& self.top != self.bottom
        &&& self.top != self.width
        &&& self.top != self.height
        &&& self.right != self.bottom
        &&& self.right != self.width
        &&& self.right != self.height
        &&& self.bottom != self.width
        &&& self.bottom != self.height
        &&& self.width != self.height
    }

    /// The widget's variables as a list.
    pub fn var_list(&self) -> (r: Vec<u64>)
        ensures
            r@ == seq![self.left, self.top, self.right, self.bottom, self.width, self.height],
            forall|v: u64| self.owns(v) <==> r@.contains(v),
    {
        let r: Vec<u64> = vec![self.left, self.top, self.right, self.bottom, self.width, self.height];
        proof {
            assert(forall|v: u64| self.owns(v) ==> r@.contains(v)) by {
                assert(r@[0] == self.left);
                assert(r@[1] == self.top);
                assert(r@[2] == self.right);
                assert(r@[3] == self.bottom);
                assert(r@[4] == self.width);
                assert(r@[5] == self.height);
            }
        }
        r
    }
}

/// A batch of edit-variable registrations and constraints to register
/// for one widget.
#[derive(Clone, Debug)]
pub struct LayoutUpdate {
    pub edit_vars: Vec<EditSpec>,
    pub constraints: Vec<ConstraintSpec>,
}

/// Core data of one widget: an optional debug name, its layout
/// variables, and whether each child's box is constrained inside this
/// widget's box.
#[derive(Clone, Debug)]
pub struct Widget {
    pub debug_name: Option<String>,
    pub layout: LayoutVars,
    pub bound_children: bool,
}

impl Widget {
    /// A widget over the given variables, unnamed, not binding its
    /// children.
    pub fn new(layout: LayoutVars) -> (w: Widget)
        ensures
            w.layout == layout,
            w.debug_name is None,
            !w.bound_children,
    {
        Widget { debug_name: None, layout, bound_children: false }
    }
}

/// The two required constraints every widget carries from construction:
/// `width == right - left` and `height == bottom - top`, written as
/// `width - right + left == 0` and `height - bottom + top == 0`.
pub fn base_constraints(vars: &LayoutVars) -> (r: Vec<ConstraintSpec>)
    ensures
        r@.len() == 2,
        r@[0].terms@ == seq![
            ConTerm { var: vars.width, coeff: 1i64 },
            ConTerm { var: vars.right, coeff: -1i64 },
            ConTerm { var: vars.left, coeff: 1i64 },
        ],
        r@[0].op == RelOp::Eq,
        r@[0].constant == 0,
        r@[0].strength == crate::strength::REQUIRED,
        r@[1].terms@ == seq![
            ConTerm { var: vars.height, coeff: 1i64 },
            ConTerm { var: vars.bottom, coeff: -1i64 },
            ConTerm { var: vars.top, coeff: 1i64 },
        ],
        r@[1].op == RelOp::Eq,
        r@[1].constant == 0,
        r@[1].strength == crate::strength::REQUIRED,
        forall|i: int, v: u64|
            0 <= i < r@.len() && #[trigger] r@[i].references(v) ==> vars.owns(v),
{
    let w = ConstraintSpec {
        terms: vec![
            ConTerm { var: vars.width, coeff: 1i64 },
            ConTerm { var: vars.right, coeff: -1i64 },
            ConTerm { var: vars.left, coeff: 1i64 },
        ],
        op: RelOp::Eq,
        constant: 0,
        strength: crate::strength::REQUIRED,
    };
    let h = ConstraintSpec {
        terms: vec![
            ConTerm { var: vars.height, coeff: 1i64 },
            ConTerm { var: vars.bottom, coeff: -1i64 },
            ConTerm { var: vars.top, coeff: 1i64 },
        ],
        op: RelOp::Eq,
        constant: 0,
        strength: crate::strength::REQUIRED,
    };
    vec![w, h]
}

/// The required contained-within constraints binding `child`'s box
/// inside `parent`'s box: `child.left >= parent.left`,
/// `child.top >= parent.top`, `child.right <= parent.right`,
/// `child.bottom <= parent.bottom`.
pub fn bound_by(child: &LayoutVars, parent: &LayoutVars) -> (r: Vec<ConstraintSpec>)
    ensures
        r@.len() == 4,
        forall|i: int| 0 <= i < r@.len() ==> (#[trigger] r@[i]).strength == crate::strength::REQUIRED,
        forall|i: int| 0 <= i < r@.len() ==> (#[trigger] r@[i]).constant == 0,
        forall|i: int, v: u64|
            0 <= i < r@.len() && #[trigger] r@[i].references(v) ==> child.owns(v) || parent.owns(v),
        r@[0].terms@ == seq![
            ConTerm { var: child.left, coeff: 1i64 },
            ConTerm { var: parent.left, coeff: -1i64 },
        ],
        r@[0].op == RelOp::Ge,
        r@[1].terms@ == seq![
            ConTerm { var: child.top, coeff: 1i64 },
            ConTerm { var: parent.top, coeff: -1i64 },
        ],
        r@[1].op == RelOp::Ge,
        r@[2].terms@ == seq![
            ConTerm { var: child.right, coeff: 1i64 },
            ConTerm { var: parent.right, coeff: -1i64 },
        ],
        r@[2].op == RelOp::Le,
        r@[3].terms@ == seq![
            ConTerm { var: child.bottom, coeff: 1i64 },
            ConTerm { var: parent.bottom, coeff: -1i64 },
        ],
        r@[3].op == RelOp::Le,
{
    let c0 = ConstraintSpec {
        terms: vec![
            ConTerm { var: child.left, coeff: 1i64 },
            ConTerm { var: parent.left, coeff: -1i64 },
        ],
        op: RelOp::Ge,
        constant: 0,
        strength: crate::strength::REQUIRED,
    };
    let c1 = ConstraintSpec {
        terms: vec![
            ConTerm { var: child.top, coeff: 1i64 },
            ConTerm { var: parent.top, coeff: -1i64 },
        ],
        op: RelOp::Ge,
        constant: 0,
        strength: crate::strength::REQUIRED,
    };
    let c2 = ConstraintSpec {
        terms: vec![
            ConTerm { var: child.right, coeff: 1i64 },
            ConTerm { var: parent.right, coeff: -1i64 },
        ],
        op: RelOp::Le,
        constant: 0,
        strength: crate::strength::REQUIRED,
    };
    let c3 = ConstraintSpec {
        terms: vec![
            ConTerm { var: child.bottom, coeff: 1i64 },
            ConTerm { var: parent.bottom, coeff: -1i64 },
        ],
        op: RelOp::Le,
        constant: 0,
        strength: crate::strength::REQUIRED,
    };
    vec![c0, c1, c2, c3]
}

/// The root widget's anchoring batch: required zero left and top
/// edges, and the right and bottom edges as strong edit variables with
/// the given initial dimensions, ready for value suggestion on every
/// window resize.
pub fn root_anchor_update(vars: &LayoutVars, width: i64, height: i64) -> (r: LayoutUpdate)
    ensures
        r.edit_vars@ == seq![
            EditSpec { var: vars.right, strength: crate::strength::STRONG, value: width },
            EditSpec { var: vars.bottom, strength: crate::strength::STRONG, value: height },
        ],
        r.constraints@.len() == 4,
        r.constraints@[0].terms@ == seq![
            ConTerm { var: vars.width, coeff: 1i64 },
            ConTerm { var: vars.right, coeff: -1i64 },
            ConTerm { var: vars.left, coeff: 1i64 },
        ],
        r.constraints@[0].op == RelOp::Eq,
        r.constraints@[0].constant == 0,
        r.constraints@[0].strength == crate::strength::REQUIRED,
        r.constraints@[1].terms@ == seq![
            ConTerm { var: vars.height, coeff: 1i64 },
            ConTerm { var: vars.bottom, coeff: -1i64 },
            ConTerm { var: vars.top, coeff: 1i64 },
        ],
        r.constraints@[1].op == RelOp::Eq,
        r.constraints@[1].constant == 0,
        r.constraints@[1].strength == crate::strength::REQUIRED,
        forall|i: int, v: u64|
            0 <= i < r.constraints@.len() && #[trigger] r.constraints@[i].references(v)
                ==> vars.owns(v),
        r.constraints@[2].terms@ == seq![ConTerm { var: vars.left, coeff: 1i64 }],
        r.constraints@[2].op == RelOp::Eq,
        r.constraints@[2].constant == 0,
        r.constraints@[2].strength == crate::strength::REQUIRED,
        r.constraints@[3].terms@ == seq![ConTerm { var: vars.top, coeff: 1i64 }],
        r.constraints@[3].op == RelOp::Eq,
        r.constraints@[3].constant == 0,
        r.constraints@[3].strength == crate::strength::REQUIRED,
{
    let mut constraints = base_constraints(vars);
    constraints.push(ConstraintSpec {
        terms: vec![ConTerm { var: vars.left, coeff: 1i64 }],
        op: RelOp::Eq,
        constant: 0,
        strength: crate::strength::REQUIRED,
    });
    constraints.push(ConstraintSpec {
        terms: vec![ConTerm { var: vars.top, coeff: 1i64 }],
        op: RelOp::Eq,
        constant: 0,
        strength: crate::strength::REQUIRED,
    });
    let edit_vars = vec![
        EditSpec { var: vars.right, strength: crate::strength::STRONG, value: width },
        EditSpec { var: vars.bottom, strength: crate::strength::STRONG, value: height },
    ];
    LayoutUpdate { edit_vars, constraints }
}

} // verus!
