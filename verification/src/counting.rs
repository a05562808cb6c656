//! An expression that counts its evaluations, modulus by modulus.
use vstd::prelude::*;
use vstd::string::StringSliceAdditionalSpecFns;
use crate::expression::{residues, tells, Expression, ExpressionModel};
use crate::field::FieldElement;
use crate::machine::{outcome, Defect, Outcome};
use crate::parser::{construct, ParseError};

verus! {

/// The number of evaluations made under one modulus.
#[derive(Clone, Copy, Debug, PartialEq, Eq, Structural, Hash)]
pub struct Probes {
    pub modulus: u64,
    pub count: usize,
}

/// The state of the count: the modulus of the last evaluation, and the
/// number of evaluations since that modulus came or the count was last
/// reset.
pub struct Tally {
    pub last_mod: u64,
    pub count: nat,
}

impl Tally {
    /// The state before any evaluation.
    pub open spec fn start() -> Tally {
        Tally { last_mod: 0, count: 0 }
    }

    /// What there is to report when the count is reset: the count, unless
    /// it is 0.
    pub open spec fn report(self) -> Option<Probes> {
        if self.count != 0 {
            Some(Probes { modulus: self.last_mod, count: self.count as usize })
        } else {
            None
        }
    }

    /// The state after the count is reset.
    pub open spec fn reset(self) -> Tally {
        Tally { last_mod: self.last_mod, count: 0 }
    }

    /// What an evaluation under `modulus` reports: the count of the
    /// modulus before, where the modulus changes.
    pub open spec fn probe_report(self, modulus: u64) -> Option<Probes> {
        if modulus != self.last_mod {
            self.report()
        } else {
            None
        }
    }

    /// The state after an evaluation under `modulus`: a new modulus starts
    /// a new count, and the evaluation is counted.
    pub open spec fn probe(self, modulus: u64) -> Tally {
        if modulus != self.last_mod {
            Tally { last_mod: modulus, count: 1 }
        } else {
            Tally { last_mod: modulus, count: self.count + 1 }
        }
    }

    /// The state after `n` evaluations under `modulus`.
    pub open spec fn probes(self, modulus: u64, n: nat) -> Tally
        decreases n,
    {
        if n == 0 {
            self
        } else {
            self.probes(modulus, (n - 1) as nat).probe(modulus)
        }
    }
}

/// After `n` evaluations under a modulus that was not the last one before
/// them, the count is `n`; and an evaluation under another modulus then
/// reports `n` for the first modulus and leaves the count 1.
pub proof fn law_count_by_modulus(start: Tally, modulus: u64, n: nat, next: u64)
    requires
        start.last_mod != modulus,
        next != modulus,
        0 < n <= usize::MAX,
    ensures
        start.probes(modulus, n) == (Tally { last_mod: modulus, count: n }),
        start.probes(modulus, n).probe_report(next) == Some(
            Probes { modulus, count: n as usize },
        ),
        start.probes(modulus, n).probe(next) == (Tally { last_mod: next, count: 1 }),
    decreases n,
{
    if n > 1 {
        law_count_by_modulus(start, modulus, (n - 1) as nat, next);
    } else {
        assert(start.probes(modulus, 0) == start);
    }
}

/// An expression with the count of its evaluations.
#[derive(Debug, PartialEq, Eq)]
pub struct EvalCountingExpression<const N: usize> {
    last_mod: u64,
    count: usize,
    expression: Expression<N>,
}

impl<const N: usize> Clone for EvalCountingExpression<N> {
    fn clone(&self) -> (copy: Self)
        ensures
            copy.tally() == self.tally(),
            copy.model() == self.model(),
    {
        EvalCountingExpression {
            last_mod: self.last_mod,
            count: self.count,
            expression: self.expression.clone(),
        }
    }
}

impl<const N: usize> EvalCountingExpression<N> {
    /// The state of the count.
    pub closed spec fn tally(&self) -> Tally {
        Tally { last_mod: self.last_mod, count: self.count as nat }
    }

    /// What the expression stands for.
    pub closed spec fn model(&self) -> ExpressionModel {
        self.expression@
    }

    /// The expression that the text `source` stands for, with no evaluation
    /// counted.
    pub fn try_from(source: &str) -> (result: Result<Self, ParseError>)
        ensures
            match result {
                Ok(counting) => construct(source.spec_bytes(), N) == Ok::<
                    ExpressionModel,
                    ParseError,
                >(counting.model()) && counting.tally() == Tally::start(),
                Err(error) => construct(source.spec_bytes(), N) == Err::<
                    ExpressionModel,
                    ParseError,
                >(error),
            },
    {
        match Expression::try_from(source) {
            Ok(expression) => Ok(EvalCountingExpression { last_mod: 0, count: 0, expression }),
            Err(error) => Err(error),
        }
    }

    /// Resets the count, and gives the count before for the caller to
    /// print, unless it was 0.
    pub fn print_and_reset_count(&mut self) -> (report: Option<Probes>)
        ensures
            report == old(self).tally().report(),
            final(self).tally() == old(self).tally().reset(),
            final(self).model() == old(self).model(),
    {
        let report = if self.count != 0 {
            Some(Probes { modulus: self.last_mod, count: self.count })
        } else {
            None
        };
        self.count = 0;
        report
    }

    /// Counts an evaluation under the modulus `P`: where the modulus
    /// changes, the count starts anew, and the count of the modulus before
    /// is given for the caller to print.
    fn count_probe<const P: u64>(&mut self) -> (report: Option<Probes>)
        requires
            old(self).tally().probe(P).count <= usize::MAX,
        ensures
            report == old(self).tally().probe_report(P),
            final(self).tally() == old(self).tally().probe(P),
            final(self).model() == old(self).model(),
    {
        let mut report = None;
        if P != self.last_mod {
            report = self.print_and_reset_count();
            self.last_mod = P;
        }
        self.count += 1;
        report
    }

    /// Counts the evaluation and runs the program at `point`. Gives what
    /// there is to print, and then the value; `None` where the program
    /// divides by an element without inverse; or the defect that stops the
    /// machine.
    pub fn evaluate<const P: u64>(&mut self, point: &[FieldElement<P>; N]) -> (result: (
        Option<Probes>,
        Result<Option<FieldElement<P>>, Defect>,
    ))
        requires
            P > 0,
            old(self).tally().probe(P).count <= usize::MAX,
        ensures
            result.0 == old(self).tally().probe_report(P),
            final(self).tally() == old(self).tally().probe(P),
            final(self).model() == old(self).model(),
            tells(
                result.1,
                outcome(
                    old(self).model().atoms,
                    old(self).model().symbols,
                    residues(point@),
                    P as nat,
                ),
            ),
    {
        let report = self.count_probe::<P>();
        (report, self.expression.evaluate(point))
    }

    /// Counts the evaluation and runs the program at `point`, where the
    /// program has no defect there. Gives what there is to print, and then
    /// the value, or `None` where the program divides by an element without
    /// inverse.
    pub fn try_eval<const P: u64>(&mut self, point: &[FieldElement<P>; N]) -> (result: (
        Option<Probes>,
        Option<FieldElement<P>>,
    ))
        requires
            P > 0,
            old(self).tally().probe(P).count <= usize::MAX,
            !(outcome(
                old(self).model().atoms,
                old(self).model().symbols,
                residues(point@),
                P as nat,
            ) is Defect),
        ensures
            result.0 == old(self).tally().probe_report(P),
            final(self).tally() == old(self).tally().probe(P),
            final(self).model() == old(self).model(),
            match result.1 {
                Some(value) => outcome(
                    old(self).model().atoms,
                    old(self).model().symbols,
                    residues(point@),
                    P as nat,
                ) == Outcome::Value(value@),
                None => outcome(
                    old(self).model().atoms,
                    old(self).model().symbols,
                    residues(point@),
                    P as nat,
                ) == Outcome::Undefined,
            },
    {
        let report = self.count_probe::<P>();
        (report, self.expression.try_eval(point))
    }

    /// The modulus of the last evaluation; 0 before the first.
    pub fn last_mod(&self) -> (modulus: u64)
        ensures
            modulus == self.tally().last_mod,
    {
        self.last_mod
    }

    /// The number of evaluations since the modulus last changed or the
    /// count was last reset.
    pub fn count(&self) -> (count: usize)
        ensures
            count == self.tally().count,
    {
        self.count
    }

    /// The expression.
    pub fn expression(&self) -> (expression: &Expression<N>)
        ensures
            expression@ == self.model(),
    {
        &self.expression
    }
}

} // verus!
