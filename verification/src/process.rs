//! The process model: one record per equation, bundling the compiled
//! coefficients with their instantiated incrementors, position by
//! position.  Pair 0 is by convention the drift: the compiler puts the dt
//! term first whenever the equation has one.

use crate::compile::{
    lemma_drift_terms_first, spec_compile, Binding, EquationResolved, FaultKind, IncSpec,
    ParsedSystem, SystemResolved, TokResolved,
};
use crate::increment::{Incrementor, JumpIncrementor, TimeIncrementor, WienerIncrementor};
use vstd::prelude::*;

verus! {

/// A compiled coefficient: the expression text and the bindings that
/// resolve each of its identifiers to the time variable or a process
/// index, so that evaluation needs no name lookup.
#[derive(Clone, Debug)]
pub struct Coefficient {
    pub expr: String,
    pub bindings: Vec<Binding>,
}

/// One process: its name and the paired coefficient / incrementor lists.
#[derive(Clone)]
pub struct Process {
    pub name: String,
    pub coefficients: Vec<Coefficient>,
    pub incrementors: Vec<Incrementor>,
}

impl Process {
    /// The structural invariant of a process: the two lists pair up, they
    /// are not empty, and every time incrementor precedes every
    /// stochastic one, so the drift sits at position 0.
    pub open spec fn wf(self) -> bool {
        &&& self.coefficients@.len() == self.incrementors@.len()
        &&& self.coefficients@.len() >= 1
        &&& forall|i: int, j: int|
            0 <= i < j < self.incrementors@.len() && self.incrementors@[j] is Time
                ==> self.incrementors@[i] is Time
    }
}

/// How one built incrementor realises a compiled descriptor over the
/// given step-width grids (dt and sqrt(dt), as double bits).
pub open spec fn incrementor_matches(
    inc: Incrementor,
    tok: TokResolved,
    dts: Seq<u64>,
    sqrt_dts: Seq<u64>,
) -> bool {
    match tok {
        TokResolved::Dt => inc matches Incrementor::Time(ti) && ti.spec_dts() == dts,
        TokResolved::Wiener(_, source) => inc matches Incrementor::Wiener(w) && w.spec_idx()
            == source && w.spec_sqrt_dts() == sqrt_dts && w.spec_last() is None,
        TokResolved::Jump(_, lambda, source) => inc matches Incrementor::Jump(j) && j.spec_idx()
            == source && j.spec_lambda() == lambda && j.spec_dts() == dts
            && j.spec_last() is None,
    }
}

/// How one built process realises a compiled equation.
pub open spec fn process_matches(
    p: Process,
    eq: EquationResolved,
    dts: Seq<u64>,
    sqrt_dts: Seq<u64>,
) -> bool {
    &&& p.name@ == eq.name
    &&& p.coefficients@.len() == eq.terms.len()
    &&& p.incrementors@.len() == eq.terms.len()
    &&& forall|j: int|
        0 <= j < eq.terms.len() ==> (#[trigger] p.coefficients@[j]).expr@ == eq.terms[j].expr
            && p.coefficients@[j].bindings@.map_values(|b: Binding| b@) == eq.terms[j].bindings
    &&& forall|j: int|
        0 <= j < eq.terms.len() ==> incrementor_matches(
            #[trigger] p.incrementors@[j],
            eq.terms[j].tok,
            dts,
            sqrt_dts,
        )
}

/// A copy of a binding list that keeps every name and kind.
fn clone_bindings(v: &Vec<Binding>) -> (r: Vec<Binding>)
    ensures
        r@.map_values(|b: Binding| b@) == v@.map_values(|b: Binding| b@),
{
    let mut out: Vec<Binding> = Vec::new();
    let mut i: usize = 0;
    while i < v.len()
        invariant
            i <= v@.len(),
            out@.len() == i,
            forall|k: int| 0 <= k < i ==> (#[trigger] out@[k])@ == v@[k]@,
        decreases v@.len() - i,
    {
        let b = &v[i];
        out.push(Binding { name: b.name.clone(), kind: b.kind });
        i = i + 1;
    }
    proof {
        assert(out@.map_values(|b: Binding| b@) =~= v@.map_values(|b: Binding| b@));
    }
    out
}

/// Instantiates the process records of a compiled system over the time
/// grid's step widths: each dt term gets the time incrementor over `dts`,
/// each Wiener term a fresh-registered Wiener incrementor over
/// `sqrt_dts`, each jump term a fresh jump incrementor over `dts`, all
/// caches empty.
pub fn build_processes(sys: &ParsedSystem, dts: &Vec<u64>, sqrt_dts: &Vec<u64>) -> (r: Vec<
    Process,
>)
    ensures
        r@.len() == sys@.equations.len(),
        forall|i: int|
            0 <= i < r@.len() ==> process_matches(
                #[trigger] r@[i],
                sys@.equations[i],
                dts@,
                sqrt_dts@,
            ),
{
    let mut out: Vec<Process> = Vec::new();
    let eq_count = sys.equations.len();
    let mut i: usize = 0;
    while i < eq_count
        invariant
            i <= eq_count,
            eq_count == sys.equations@.len(),
            sys@.equations.len() == eq_count,
            out@.len() == i,
            forall|k: int|
                0 <= k < i ==> process_matches(
                    #[trigger] out@[k],
                    sys@.equations[k],
                    dts@,
                    sqrt_dts@,
                ),
        decreases eq_count - i,
    {
        let eq = &sys.equations[i];
        let term_count = eq.terms.len();
        let mut coefficients: Vec<Coefficient> = Vec::new();
        let mut incrementors: Vec<Incrementor> = Vec::new();
        let mut j: usize = 0;
        proof {
            assert(sys@.equations[i as int] == sys.equations@[i as int]@);
        }
        while j < term_count
            invariant
                j <= term_count,
                i < eq_count,
                eq_count == sys.equations@.len(),
                term_count == eq.terms@.len(),
                eq == &sys.equations@[i as int],
                sys@.equations[i as int] == sys.equations@[i as int]@,
                coefficients@.len() == j,
                incrementors@.len() == j,
                forall|k: int|
                    0 <= k < j ==> (#[trigger] coefficients@[k]).expr@
                        == sys@.equations[i as int].terms[k].expr && coefficients@[k].bindings@
                        .map_values(|b: Binding| b@) == sys@.equations[i as int].terms[k].bindings,
                forall|k: int|
                    0 <= k < j ==> incrementor_matches(
                        #[trigger] incrementors@[k],
                        sys@.equations[i as int].terms[k].tok,
                        dts@,
                        sqrt_dts@,
                    ),
            decreases term_count - j,
        {
            let term = &eq.terms[j];
            proof {
                assert(sys@.equations[i as int].terms[j as int] == eq.terms@[j as int]@);
            }
            coefficients.push(
                Coefficient { expr: term.expr.clone(), bindings: clone_bindings(&term.bindings) },
            );
            let inc = match &term.inc {
                IncSpec::Dt => Incrementor::Time(TimeIncrementor::new(dts.clone())),
                IncSpec::Wiener { token: _, source } => Incrementor::Wiener(
                    WienerIncrementor::new(*source, sqrt_dts.clone()),
                ),
                IncSpec::Jump { token: _, lambda, source } => Incrementor::Jump(
                    JumpIncrementor::new(*source, lambda.clone(), dts.clone()),
                ),
            };
            incrementors.push(inc);
            j = j + 1;
        }
        let p = Process { name: eq.name.clone(), coefficients, incrementors };
        out.push(p);
        i = i + 1;
    }
    out
}

/// Processes built from a compiled system are well-formed: the paired
/// lists have the same positive length, and the drift convention holds —
/// every time incrementor stands before every stochastic one.
pub proof fn lemma_built_processes_wf(
    eqs: Seq<Seq<char>>,
    sys: SystemResolved,
    procs: Seq<Process>,
    dts: Seq<u64>,
    sqrt_dts: Seq<u64>,
)
    requires
        spec_compile(eqs) == Ok::<SystemResolved, (int, FaultKind)>(sys),
        procs.len() == sys.equations.len(),
        forall|i: int|
            0 <= i < procs.len() ==> process_matches(#[trigger] procs[i], sys.equations[i], dts, sqrt_dts),
    ensures
        forall|i: int| 0 <= i < procs.len() ==> (#[trigger] procs[i]).wf(),
{
    assert forall|i: int| 0 <= i < procs.len() implies (#[trigger] procs[i]).wf() by {
        lemma_drift_terms_first(eqs, sys, i);
        let p = procs[i];
        let eq = sys.equations[i];
        assert forall|a: int, b: int|
            0 <= a < b < p.incrementors@.len() && p.incrementors@[b] is Time implies
        p.incrementors@[a] is Time by {
            assert(incrementor_matches(p.incrementors@[b], eq.terms[b].tok, dts, sqrt_dts));
            assert(incrementor_matches(p.incrementors@[a], eq.terms[a].tok, dts, sqrt_dts));
            assert(eq.terms[b].tok is Dt);
            assert(eq.terms[a].tok is Dt);
        }
    }
}

} // verus!
