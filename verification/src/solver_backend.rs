//! The trusted boundary around the incremental constraint solver.
//!
//! The `cassowary` crate owns the simplex tableau; this module translates
//! between the crate's opaque `Variable` / `Constraint` handles and the
//! plain `u64` ids the rest of the library reasons about. The backend's
//! contents are described by three uninterpreted sets of ids; every
//! wrapper states how its call moves those sets, exactly as the solver's
//! source shows.
//!
//! Scalar values leave this boundary as the bit patterns of the
//! underlying doubles, so nothing is lost in translation and no
//! floating-point arithmetic happens on the verified side.

use vstd::prelude::*;

use std::collections::HashMap;

use crate::layout::{ConstraintSpec, LayoutError, RelOp};

use cassowary::{AddConstraintError, Constraint, Expression, RelationalOperator};

verus! {

/// Owns the solver and the id translation maps. Opaque to verification;
/// its contents are spoken of only through `backend_vars`,
/// `backend_edits` and `backend_cons`.
#[verifier::external_body]
pub struct SolverBackend {
    solver: cassowary::Solver,
    vars: HashMap<u64, cassowary::Variable>,
    rvars: HashMap<cassowary::Variable, u64>,
    cons: HashMap<u64, cassowary::Constraint>,
}

/// The ids that have a solver variable registered for them.
pub uninterp spec fn backend_vars(b: SolverBackend) -> Set<u64>;

/// The ids registered as edit variables, open to value suggestion.
pub uninterp spec fn backend_edits(b: SolverBackend) -> Set<u64>;

/// The ids of the constraints currently held by the solver.
pub uninterp spec fn backend_cons(b: SolverBackend) -> Set<u64>;

impl SolverBackend {
    /// Relies on `cassowary::Solver::new`: a fresh solver holds no
    /// constraints and no edit variables.
    #[verifier::external_body]
    pub(crate) fn new() -> (b: SolverBackend)
        ensures
            backend_vars(b) == Set::<u64>::empty(),
            backend_edits(b) == Set::<u64>::empty(),
            backend_cons(b) == Set::<u64>::empty(),
    {
        SolverBackend {
            solver: cassowary::Solver::new(),
            vars: HashMap::new(),
            rvars: HashMap::new(),
            cons: HashMap::new(),
        }
    }

    /// Relies on `cassowary::Variable::new`: each call yields a variable
    /// distinct from every other, so distinct ids stay distinct inside
    /// the solver. Registering an id again is a no-op.
    #[verifier::external_body]
    pub(crate) fn register_var(&mut self, v: u64)
        ensures
            backend_vars(*final(self)) == backend_vars(*old(self)).insert(v),
            backend_edits(*final(self)) == backend_edits(*old(self)),
            backend_cons(*final(self)) == backend_cons(*old(self)),
    {
        if !self.vars.contains_key(&v) {
            let var = cassowary::Variable::new();
            self.vars.insert(v, var);
            self.rvars.insert(var, v);
        }
    }

    /// Relies on `cassowary::Solver::add_edit_variable`: with a strength
    /// strictly below the required band and a variable not yet an edit
    /// variable, the call registers it and returns `Ok`.
    #[verifier::external_body]
    pub(crate) fn add_edit_variable(&mut self, v: u64, strength: u64)
        requires
            backend_vars(*old(self)).contains(v),
            !backend_edits(*old(self)).contains(v),
            strength < crate::strength::REQUIRED,
        ensures
            backend_vars(*final(self)) == backend_vars(*old(self)),
            backend_edits(*final(self)) == backend_edits(*old(self)).insert(v),
            backend_cons(*final(self)) == backend_cons(*old(self)),
    {
        let var = *self.vars.get(&v).unwrap();
        let _ = self.solver.add_edit_variable(var, strength as _);
    }

    /// Relies on `cassowary::Solver::remove_edit_variable`: the edit
    /// registration is dropped first, whatever else the call reports.
    #[verifier::external_body]
    pub(crate) fn remove_edit_variable(&mut self, v: u64)
        requires
            backend_edits(*old(self)).contains(v),
        ensures
            backend_vars(*final(self)) == backend_vars(*old(self)),
            backend_edits(*final(self)) == backend_edits(*old(self)).remove(v),
            backend_cons(*final(self)) == backend_cons(*old(self)),
    {
        let var = *self.vars.get(&v).unwrap();
        let _ = self.solver.remove_edit_variable(var);
    }

    /// Relies on `cassowary::Solver::suggest_value`: suggesting a value
    /// for a registered edit variable re-solves but registers nothing
    /// and removes nothing. The suggested value is an integer, delivered
    /// to the solver exactly whenever it fits the double's integer
    /// range.
    #[verifier::external_body]
    pub(crate) fn suggest_value(&mut self, v: u64, value: i64)
        requires
            backend_edits(*old(self)).contains(v),
        ensures
            backend_vars(*final(self)) == backend_vars(*old(self)),
            backend_edits(*final(self)) == backend_edits(*old(self)),
            backend_cons(*final(self)) == backend_cons(*old(self)),
    {
        let var = *self.vars.get(&v).unwrap();
        let _ = self.solver.suggest_value(var, value as _);
    }

    /// Relies on `cassowary::Solver::has_edit_variable`.
    #[verifier::external_body]
    pub(crate) fn has_edit_variable(&self, v: u64) -> (r: bool)
        ensures
            r == backend_edits(*self).contains(v),
    {
        match self.vars.get(&v) {
            Some(var) => self.solver.has_edit_variable(var),
            None => false,
        }
    }

    /// Relies on `cassowary::Solver::add_constraint`: a fresh constraint
    /// either enters the solver (`Ok`) or — when it conflicts with the
    /// existing required constraints — is refused and the solver's
    /// constraint set is left as it was. The body un-registers the
    /// constraint again on the solver's internal-error path, so the
    /// stated contents hold on every return.
    #[verifier::external_body]
    pub(crate) fn add_constraint(&mut self, c: u64, con: &ConstraintSpec) -> (r: Result<(), LayoutError>)
        requires
            !backend_cons(*old(self)).contains(c),
            forall|i: int|
                0 <= i < con.terms@.len() ==> backend_vars(*old(self)).contains(
                    (#[trigger] con.terms@[i]).var,
                ),
        ensures
            backend_vars(*final(self)) == backend_vars(*old(self)),
            backend_edits(*final(self)) == backend_edits(*old(self)),
            r is Ok ==> backend_cons(*final(self)) == backend_cons(*old(self)).insert(c),
            r is Err ==> backend_cons(*final(self)) == backend_cons(*old(self)),
            r is Err ==> (r == Result::<(), LayoutError>::Err(LayoutError::Unsatisfiable) || r
                == Result::<(), LayoutError>::Err(LayoutError::Internal)),
    {
        let terms: Vec<cassowary::Term> = con.terms.iter().map(
            |t| cassowary::Term { variable: self.vars[&t.var], coefficient: t.coeff as _ },
        ).collect();
        let op = match con.op {
            RelOp::Le => RelationalOperator::LessOrEqual,
            RelOp::Eq => RelationalOperator::Equal,
            RelOp::Ge => RelationalOperator::GreaterOrEqual,
        };
        let cn = Constraint::new(Expression::new(terms, con.constant as _), op, con.strength as _);
        match self.solver.add_constraint(cn.clone()) {
            Ok(()) => { self.cons.insert(c, cn); Ok(()) },
            Err(AddConstraintError::UnsatisfiableConstraint) => Err(LayoutError::Unsatisfiable),
            Err(_) => { let _ = self.solver.remove_constraint(&cn); Err(LayoutError::Internal) },
        }
    }

    /// Relies on `cassowary::Solver::remove_constraint`: the constraint
    /// leaves the solver's constraint set first, whatever else the call
    /// reports.
    #[verifier::external_body]
    pub(crate) fn remove_constraint(&mut self, c: u64)
        requires
            backend_cons(*old(self)).contains(c),
        ensures
            backend_vars(*final(self)) == backend_vars(*old(self)),
            backend_edits(*final(self)) == backend_edits(*old(self)),
            backend_cons(*final(self)) == backend_cons(*old(self)).remove(c),
    {
        let con = self.cons.remove(&c).unwrap();
        let _ = self.solver.remove_constraint(&con);
    }

    /// Relies on `cassowary::Solver::has_constraint`.
    #[verifier::external_body]
    pub(crate) fn has_constraint(&self, c: u64) -> (r: bool)
        ensures
            r == backend_cons(*self).contains(c),
    {
        match self.cons.get(&c) {
            Some(con) => self.solver.has_constraint(con),
            None => false,
        }
    }

    /// Relies on `cassowary::Solver::fetch_changes`: the variables whose
    /// resolved values changed since the previous fetch, each reported
    /// once, in no specific order, with the new value. Fetching moves no
    /// registration.
    #[verifier::external_body]
    pub(crate) fn fetch_changes(&mut self) -> (r: Vec<(u64, u64)>)
        ensures
            backend_vars(*final(self)) == backend_vars(*old(self)),
            backend_edits(*final(self)) == backend_edits(*old(self)),
            backend_cons(*final(self)) == backend_cons(*old(self)),
            forall|i: int, j: int| 0 <= i < j < r@.len() ==> r@[i].0 != r@[j].0,
            forall|i: int| 0 <= i < r@.len() ==> backend_vars(*final(self)).contains((#[trigger] r@[i]).0),
    {
        let mut out: Vec<(u64, u64)> = Vec::new();
        for &(var, val) in self.solver.fetch_changes() {
            if let Some(&id) = self.rvars.get(&var) {
                out.push((id, val.to_bits()));
            }
        }
        out
    }
}

} // verus!
