//! The in-tree backend: [`FstBackend`] and [`FstBuilder`] over the
//! verified vector machine of [`super::machine`].
//!
//! Each operation states the construction it performs; the language laws
//! of those constructions are in [`super::laws`].

use vstd::prelude::*;

use super::backend::{FstBackend, FstBuilder, FstResult, Label, Path, StateId};
use super::laws::repeats;
use super::minimize::minimizes;
use super::machine::{
    self, accepts, arcs_over, composes, concats, determinizes, eps_removes, inverts, is_acceptor, optionals, pluses, stars,
    unites, word_over, Arc, Fst, VectorFstBuilder,
};
use super::serial::fst_bytes;

verus! {

/// The backend whose machines are [`Fst`].
pub struct InTreeBackend;

/// The active backend.
pub type Backend = InTreeBackend;

impl FstBackend for InTreeBackend {
    type Fst = Fst;

    type Builder = VectorFstBuilder;

    open spec fn fst_ok(f: &Fst) -> bool {
        f.wf()
    }

    fn builder() -> (b: VectorFstBuilder) {
        machine::builder()
    }

    fn concat(a: &Fst, b: &Fst) -> (r: FstResult<Fst>)
        ensures
            r matches Ok(f) && concats(f, *a, *b),
    {
        Ok(machine::concat(a, b))
    }

    fn union(a: &Fst, b: &Fst) -> (r: FstResult<Fst>)
        ensures
            r matches Ok(f) && unites(f, *a, *b),
    {
        Ok(machine::union(a, b))
    }

    fn closure_star(a: &Fst) -> (r: FstResult<Fst>)
        ensures
            r matches Ok(f) && stars(f, *a),
    {
        Ok(machine::closure_star(a))
    }

    fn closure_plus(a: &Fst) -> (r: FstResult<Fst>)
        ensures
            r matches Ok(f) && pluses(f, *a),
    {
        Ok(machine::closure_plus(a))
    }

    fn closure_optional(a: &Fst) -> (r: FstResult<Fst>)
        ensures
            r matches Ok(f) && optionals(f, *a),
    {
        Ok(machine::closure_optional(a))
    }

    fn closure_bounded(a: &Fst, n: u32, m: u32) -> (r: FstResult<Fst>)
        ensures
            r is Ok <==> n <= m,
            r matches Ok(f) ==> repeats(f, *a, n as int, m as int),
    {
        machine::closure_bounded(a, n, m)
    }

    fn complement(a: &Fst, alphabet: &[Label]) -> (r: FstResult<Fst>)
        ensures
            r matches Ok(f) ==> f.start is Some,
            r matches Ok(f) ==> (is_acceptor(*a) && arcs_over(*a, alphabet@) && !alphabet@.contains(super::backend::EPS_LABEL)) ==> {
                &&& forall|w: Seq<Label>| word_over(w, alphabet@) ==> (#[trigger] accepts(f, w, w) <==> !accepts(*a, w, w))
                &&& forall|x: Seq<Label>, y: Seq<Label>| #[trigger] accepts(f, x, y) ==> x == y && word_over(x, alphabet@)
            },
            r is Ok,
    {
        machine::complement(a, alphabet)
    }

    fn intersect(a: &Fst, b: &Fst) -> (r: FstResult<Fst>)
        ensures
            r matches Ok(f) && composes(*a, *b, f),
    {
        Ok(machine::intersect(a, b))
    }

    fn compose(a: &Fst, b: &Fst) -> (r: FstResult<Fst>)
        ensures
            r matches Ok(f) && composes(*a, *b, f),
    {
        Ok(machine::compose(a, b))
    }

    fn determinize(a: &Fst) -> (r: FstResult<Fst>)
        ensures
            r matches Ok(f) ==> determinizes(f, *a),
            r is Ok,
    {
        machine::determinize(a)
    }

    fn minimize(a: &Fst) -> (r: FstResult<Fst>)
        ensures
            r matches Ok(f) && minimizes(f, *a),
    {
        Ok(super::minimize::minimize(a))
    }

    fn eps_remove(a: &Fst) -> (r: FstResult<Fst>)
        ensures
            r matches Ok(f) && eps_removes(f, *a),
    {
        Ok(machine::eps_remove(a))
    }

    fn arc_sort_input(a: &Fst) -> (r: FstResult<Fst>)
        ensures
            r matches Ok(f) && f.start == a.start && f.finals@ == a.finals@ && f.rows() == a.rows(),
    {
        Ok(machine::arc_sort_input(a))
    }

    fn arc_sort_output(a: &Fst) -> (r: FstResult<Fst>)
        ensures
            r matches Ok(f) && f.start == a.start && f.finals@ == a.finals@ && f.rows() == a.rows(),
    {
        Ok(machine::arc_sort_output(a))
    }

    fn invert(a: &Fst) -> (r: FstResult<Fst>)
        ensures
            r matches Ok(f) && inverts(f, *a),
    {
        Ok(machine::invert(a))
    }

    fn paths(fst: &Fst, max_paths: usize) -> (r: FstResult<Vec<Path>>)
        ensures
            r matches Ok(out) && out@.len() <= max_paths && forall|i: int| 0 <= i < out@.len() ==> accepts(
                *fst,
                (#[trigger] out@[i]).input@,
                out@[i].output@,
            ),
    {
        Ok(machine::paths(fst, max_paths))
    }

    fn serialize(fst: &Fst) -> (r: FstResult<Vec<u8>>)
        ensures
            r matches Ok(bytes) && bytes@ == fst_bytes(*fst),
    {
        Ok(super::serial::serialize(fst))
    }

    fn deserialize(bytes: &[u8]) -> (r: FstResult<Fst>)
        ensures
            r matches Ok(g) ==> fst_bytes(g) == bytes@,
            forall|f: Fst| f.wf() && #[trigger] fst_bytes(f) == bytes@ ==> (r matches Ok(g) && super::serial::same_fst(g, f)),
    {
        super::serial::deserialize(bytes)
    }

    fn num_states(fst: &Fst) -> (n: usize)
        ensures
            n == fst.n(),
    {
        machine::num_states(fst)
    }
}

impl FstBuilder for VectorFstBuilder {
    type Fst = Fst;

    open spec fn builder_ok(&self) -> bool {
        self.fst.wf()
    }

    fn add_state(&mut self) -> (s: StateId)
        ensures
            s == old(self).fst.n(),
            final(self).fst.start == old(self).fst.start,
            final(self).fst.finals@ == old(self).fst.finals@.push(false),
            final(self).fst.rows() == old(self).fst.rows().push(Seq::<Arc>::empty()),
    {
        VectorFstBuilder::add_state(self)
    }

    fn set_start(&mut self, s: StateId) -> (r: FstResult<()>)
        ensures
            r is Ok <==> (s as int) < old(self).fst.n(),
            r is Ok ==> final(self).fst == (Fst { start: Some(s), ..old(self).fst }),
            r is Err ==> final(self).fst == old(self).fst,
    {
        VectorFstBuilder::set_start(self, s)
    }

    fn set_final(&mut self, s: StateId) -> (r: FstResult<()>)
        ensures
            r is Ok <==> (s as int) < old(self).fst.n(),
            r is Ok ==> final(self).fst.finals@ == old(self).fst.finals@.update(s as int, true),
            r is Err ==> final(self).fst.finals@ == old(self).fst.finals@,
            final(self).fst.start == old(self).fst.start,
            final(self).fst.arcs@ == old(self).fst.arcs@,
    {
        VectorFstBuilder::set_final(self, s)
    }

    fn add_arc(&mut self, from: StateId, input_label: Label, output_label: Label, to: StateId) -> (r: FstResult<()>)
        ensures
            r is Ok <==> (from as int) < old(self).fst.n() && (to as int) < old(self).fst.n(),
            r is Ok ==> final(self).fst.rows() == old(self).fst.rows().update(
                from as int,
                old(self).fst.rows()[from as int].push(Arc { ilabel: input_label, olabel: output_label, nextstate: to }),
            ),
            r is Err ==> final(self).fst.arcs@ == old(self).fst.arcs@,
            final(self).fst.start == old(self).fst.start,
            final(self).fst.finals@ == old(self).fst.finals@,
    {
        VectorFstBuilder::add_arc(self, from, input_label, output_label, to)
    }

    fn finish(self) -> (r: FstResult<Fst>)
        ensures
            r is Ok <==> self.fst.start is Some,
            r matches Ok(f) ==> f == self.fst,
    {
        VectorFstBuilder::finish(self)
    }
}

} // verus!
