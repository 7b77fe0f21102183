//! The in-tree FST kernel: a vector-of-states transducer and the
//! operations the morphology layer composes with.
//!
//! A machine has states `0..n`; each state carries a final flag and a list
//! of arcs `(ilabel, olabel, nextstate)`. `EPS_LABEL` on a side consumes /
//! emits nothing on that side. The language of a machine is the set of
//! label-sequence pairs read along runs from the start state to a final
//! state, with epsilons removed (see [`accepts`]).

use vstd::prelude::*;
use vstd::set_lib::*;

use super::backend::{FstError, FstResult, Label, Path, StateId, EPS_LABEL};

verus! {

/// One transition.
#[derive(Debug, Clone, Copy, PartialEq, Eq)]
pub struct Arc {
    pub ilabel: Label,
    pub olabel: Label,
    pub nextstate: StateId,
}

/// A finite-state transducer.
#[derive(Debug, Clone)]
pub struct Fst {
    pub start: Option<StateId>,
    pub finals: Vec<bool>,
    pub arcs: Vec<Vec<Arc>>,
}

// ---------------------------------------------------------------------------
// Model.
// ---------------------------------------------------------------------------

impl Fst {
    /// Number of states.
    pub open spec fn n(&self) -> int {
        self.arcs@.len() as int
    }

    /// The arc lists, by state.
    pub open spec fn rows(&self) -> Seq<Seq<Arc>> {
        self.arcs@.map_values(|v: Vec<Arc>| v@)
    }

    /// Arc `k` of state `s`.
    pub open spec fn arc(&self, s: int, k: int) -> Arc {
        self.rows()[s][k]
    }

    /// Out-degree of state `s`.
    pub open spec fn deg(&self, s: int) -> int {
        self.rows()[s].len() as int
    }

    pub open spec fn is_final(&self, s: int) -> bool {
        self.finals@[s]
    }

    /// Well-formedness: one final flag per state, the start state and every
    /// arc target are states.
    pub open spec fn wf(&self) -> bool {
        &&& self.finals@.len() == self.arcs@.len()
        &&& (self.start matches Some(s) ==> s < self.arcs@.len())
        &&& forall|s: int, k: int|
            0 <= s < self.n() && 0 <= k < self.deg(s) ==> #[trigger] self.arc(s, k).nextstate
                < self.n()
    }
}

impl Fst {
    /// Whether the machine is well formed: one final flag per state, and the
    /// start state and every arc target are states.
    pub fn is_well_formed(&self) -> (b: bool)
        ensures
            b == self.wf(),
    {
        let n = self.arcs.len();
        if self.finals.len() != n {
            return false;
        }
        match self.start {
            Some(s) => {
                if s >= n {
                    return false;
                }
            },
            None => {},
        }
        let mut s: usize = 0;
        while s < n
            invariant
                n == self.arcs@.len(),
                s <= n,
                forall|p: int, k: int| 0 <= p < s && 0 <= k < self.deg(p) ==> #[trigger] self.arc(p, k).nextstate < n,
            decreases n - s,
        {
            let row = &self.arcs[s];
            let mut k: usize = 0;
            while k < row.len()
                invariant
                    n == self.arcs@.len(),
                    s < n,
                    row@ == self.rows()[s as int],
                    k <= row@.len(),
                    forall|j: int| 0 <= j < k ==> #[trigger] self.arc(s as int, j).nextstate < n,
                decreases row@.len() - k,
            {
                if row[k].nextstate >= n {
                    proof {
                        assert(self.arc(s as int, k as int) == row@[k as int]);
                        assert(0 <= k < self.deg(s as int));
                    }
                    return false;
                }
                k = k + 1;
            }
            s = s + 1;
        }
        true
    }
}

/// Drop epsilon labels from a label sequence.
pub open spec fn strip_eps(s: Seq<Label>) -> Seq<Label>
    decreases s.len(),
{
    if s.len() == 0 {
        s
    } else if s.last() != EPS_LABEL {
        strip_eps(s.drop_last()).push(s.last())
    } else {
        strip_eps(s.drop_last())
    }
}

/// `steps` (arc indices) is a run of `f` from state `from` to state `to`.
pub open spec fn is_run(f: Fst, from: int, steps: Seq<int>, to: int) -> bool
    decreases steps.len(),
{
    if steps.len() == 0 {
        from == to
    } else {
        &&& 0 <= from < f.n()
        &&& 0 <= steps[0] < f.deg(from)
        &&& is_run(f, f.arc(from, steps[0]).nextstate as int, steps.drop_first(), to)
    }
}

/// Input labels read along a run (epsilons included).
pub open spec fn run_ilabels(f: Fst, from: int, steps: Seq<int>) -> Seq<Label>
    decreases steps.len(),
{
    if steps.len() == 0 {
        seq![]
    } else {
        seq![f.arc(from, steps[0]).ilabel] + run_ilabels(
            f,
            f.arc(from, steps[0]).nextstate as int,
            steps.drop_first(),
        )
    }
}

/// Output labels written along a run (epsilons included).
pub open spec fn run_olabels(f: Fst, from: int, steps: Seq<int>) -> Seq<Label>
    decreases steps.len(),
{
    if steps.len() == 0 {
        seq![]
    } else {
        seq![f.arc(from, steps[0]).olabel] + run_olabels(
            f,
            f.arc(from, steps[0]).nextstate as int,
            steps.drop_first(),
        )
    }
}

/// `f` maps input `x` to output `y`: some run from the start state to a
/// final state reads `x` and writes `y`, epsilons removed.
pub open spec fn accepts(f: Fst, x: Seq<Label>, y: Seq<Label>) -> bool {
    exists|steps: Seq<int>, t: int|
        #![trigger is_run(f, f.start->0 as int, steps, t)]
        {
            &&& f.start is Some
            &&& is_run(f, f.start->0 as int, steps, t)
            &&& 0 <= t < f.n()
            &&& f.is_final(t)
            &&& strip_eps(run_ilabels(f, f.start->0 as int, steps)) == x
            &&& strip_eps(run_olabels(f, f.start->0 as int, steps)) == y
        }
}

/// Every arc of `f` reads and writes the same label.
pub open spec fn is_acceptor(f: Fst) -> bool {
    forall|s: int, k: int|
        0 <= s < f.n() && 0 <= k < f.deg(s) ==> #[trigger] f.arc(s, k).ilabel == f.arc(
            s,
            k,
        ).olabel
}

/// The one-state machine with a self-loop `l:l` for each `l` in `labels`,
/// start and final.
pub open spec fn is_loop_machine(f: Fst, labels: Seq<(Label, Label)>) -> bool {
    &&& f.n() == 1
    &&& f.start == Some(0usize)
    &&& f.is_final(0)
    &&& f.deg(0) == labels.len()
    &&& forall|k: int|
        0 <= k < labels.len() ==> #[trigger] f.arc(0, k) == (Arc {
            ilabel: labels[k].0,
            olabel: labels[k].1,
            nextstate: 0,
        })
}

/// The two-state machine `0 -> 1` with one arc per pair, start `0`, final
/// `1` only.
pub open spec fn is_step_machine(f: Fst, labels: Seq<(Label, Label)>) -> bool {
    &&& f.n() == 2
    &&& f.start == Some(0usize)
    &&& !f.is_final(0)
    &&& f.is_final(1)
    &&& f.deg(0) == labels.len()
    &&& f.deg(1) == 0
    &&& forall|k: int|
        0 <= k < labels.len() ==> #[trigger] f.arc(0, k) == (Arc {
            ilabel: labels[k].0,
            olabel: labels[k].1,
            nextstate: 1,
        })
}

/// Identity pairs `(l, l)` for each label.
pub open spec fn identity_pairs(labels: Seq<Label>) -> Seq<(Label, Label)> {
    labels.map_values(|l: Label| (l, l))
}

/// The linear machine reading `ins[i]` and writing `outs[i]` at step `i`:
/// states `0..=len`, start `0`, final `len` only.
pub open spec fn is_chain_machine(f: Fst, ins: Seq<Label>, outs: Seq<Label>) -> bool {
    &&& ins.len() == outs.len()
    &&& f.n() == ins.len() + 1
    &&& f.start == Some(0usize)
    &&& forall|s: int| 0 <= s < f.n() ==> #[trigger] f.is_final(s) == (s == ins.len())
    &&& forall|s: int| 0 <= s < ins.len() ==> #[trigger] f.deg(s) == 1
    &&& f.deg(ins.len() as int) == 0
    &&& forall|s: int|
        0 <= s < ins.len() ==> #[trigger] f.arc(s, 0) == (Arc {
            ilabel: ins[s],
            olabel: outs[s],
            nextstate: (s + 1) as usize,
        })
}

/// Well-formedness depends only on the arc lists, the number of final
/// flags and the start state.
pub proof fn lemma_wf_same_arcs(a: Fst, b: Fst)
    requires
        a.wf(),
        b.arcs@ == a.arcs@,
        b.finals@.len() == a.finals@.len(),
        b.start matches Some(s) ==> (s as int) < b.n(),
    ensures
        b.wf(),
{
    assert forall|q: int, k: int|
        0 <= q < b.n() && 0 <= k < b.deg(q) implies #[trigger] b.arc(q, k).nextstate < b.n() by {
        assert(b.arc(q, k) == a.arc(q, k));
    }
}

// ---------------------------------------------------------------------------
// Builder.
// ---------------------------------------------------------------------------

/// Mutable machine under construction.
pub struct VectorFstBuilder {
    pub fst: Fst,
}

/// A fresh builder with no states.
pub fn builder() -> (b: VectorFstBuilder)
    ensures
        b.fst.wf(),
        b.fst.n() == 0,
        b.fst.start is None,
{
    VectorFstBuilder { fst: Fst { start: None, finals: Vec::new(), arcs: Vec::new() } }
}

impl VectorFstBuilder {
    /// Add a new non-final state without arcs; returns its id.
    pub fn add_state(&mut self) -> (s: StateId)
        requires
            old(self).fst.wf(),
        ensures
            final(self).fst.wf(),
            s == old(self).fst.n(),
            final(self).fst.start == old(self).fst.start,
            final(self).fst.finals@ == old(self).fst.finals@.push(false),
            final(self).fst.rows() == old(self).fst.rows().push(Seq::<Arc>::empty()),
    {
        let s = self.fst.arcs.len();
        self.fst.finals.push(false);
        self.fst.arcs.push(Vec::new());
        proof {
            assert(self.fst.rows() =~= old(self).fst.rows().push(Seq::<Arc>::empty()));
            assert forall|q: int, k: int|
                0 <= q < self.fst.n() && 0 <= k < self.fst.deg(q) implies #[trigger] self.fst.arc(
                q,
                k,
            ).nextstate < self.fst.n() by {
                assert(q < old(self).fst.n());
                assert(self.fst.arc(q, k) == old(self).fst.arc(q, k));
            }
        }
        s
    }

    /// Set the start state; fails when `s` is not a state.
    pub fn set_start(&mut self, s: StateId) -> (r: FstResult<()>)
        requires
            old(self).fst.wf(),
        ensures
            final(self).fst.wf(),
            r is Ok <==> (s as int) < old(self).fst.n(),
            r is Ok ==> final(self).fst == (Fst { start: Some(s), ..old(self).fst }),
            r is Err ==> final(self).fst == old(self).fst,
    {
        if s < self.fst.arcs.len() {
            self.fst.start = Some(s);
            proof { lemma_wf_same_arcs(old(self).fst, self.fst); }
            Ok(())
        } else {
            Err(FstError::BadState(s))
        }
    }

    /// Mark a state final; fails when `s` is not a state.
    pub fn set_final(&mut self, s: StateId) -> (r: FstResult<()>)
        requires
            old(self).fst.wf(),
        ensures
            final(self).fst.wf(),
            r is Ok <==> (s as int) < old(self).fst.n(),
            r is Ok ==> final(self).fst.finals@ == old(self).fst.finals@.update(s as int, true),
            r is Err ==> final(self).fst.finals@ == old(self).fst.finals@,
            final(self).fst.start == old(self).fst.start,
            final(self).fst.arcs@ == old(self).fst.arcs@,
    {
        if s < self.fst.arcs.len() {
            self.fst.finals.set(s, true);
            proof { lemma_wf_same_arcs(old(self).fst, self.fst); }
            Ok(())
        } else {
            Err(FstError::BadState(s))
        }
    }

    /// Add the arc `from -[input:output]-> to`; fails when either end is not
    /// a state.
    pub fn add_arc(&mut self, from: StateId, input_label: Label, output_label: Label, to: StateId) -> (r: FstResult<()>)
        requires
            old(self).fst.wf(),
        ensures
            final(self).fst.wf(),
            r is Ok <==> (from as int) < old(self).fst.n() && (to as int) < old(self).fst.n(),
            r is Ok ==> final(self).fst.rows() == old(self).fst.rows().update(
                from as int,
                old(self).fst.rows()[from as int].push(Arc { ilabel: input_label, olabel: output_label, nextstate: to }),
            ),
            r is Err ==> final(self).fst.arcs@ == old(self).fst.arcs@,
            final(self).fst.start == old(self).fst.start,
            final(self).fst.finals@ == old(self).fst.finals@,
    {
        if from < self.fst.arcs.len() && to < self.fst.arcs.len() {
            let ghost old_fst = self.fst;
            let mut row: Vec<Arc> = Vec::new();
            std::mem::swap(&mut row, &mut self.fst.arcs[from]);
            row.push(Arc { ilabel: input_label, olabel: output_label, nextstate: to });
            self.fst.arcs.set(from, row);
            proof {
                assert(self.fst.rows() =~= old_fst.rows().update(
                    from as int,
                    old_fst.rows()[from as int].push(Arc { ilabel: input_label, olabel: output_label, nextstate: to }),
                ));
                assert forall|q: int, k: int|
                    0 <= q < self.fst.n() && 0 <= k < self.fst.deg(q) implies #[trigger] self.fst.arc(
                    q,
                    k,
                ).nextstate < self.fst.n() by {
                    if q != from as int {
                        assert(self.fst.arc(q, k) == old_fst.arc(q, k));
                    } else if k < old_fst.deg(q) {
                        assert(self.fst.arc(q, k) == old_fst.arc(q, k));
                    }
                }
            }
            Ok(())
        } else {
            Err(FstError::BadState(if from < self.fst.arcs.len() { to } else { from }))
        }
    }

    /// Finish construction; fails when no start state was set.
    pub fn finish(self) -> (r: FstResult<Fst>)
        requires
            self.fst.wf(),
        ensures
            r is Ok <==> self.fst.start is Some,
            r matches Ok(f) ==> f == self.fst && f.wf(),
    {
        if self.fst.start.is_some() {
            Ok(self.fst)
        } else {
            Err(FstError::NoStart)
        }
    }
}

} // verus!

verus! {

// ---------------------------------------------------------------------------
// Structural helpers.
// ---------------------------------------------------------------------------

/// `row` with every target moved up by `off`.
pub open spec fn shift_row(row: Seq<Arc>, off: int) -> Seq<Arc> {
    row.map_values(|a: Arc| Arc { ilabel: a.ilabel, olabel: a.olabel, nextstate: (a.nextstate + off) as usize })
}

/// `big` holds, from state `off` on, the states of `part` with targets
/// moved up by `off`.
pub open spec fn embeds(big: Fst, part: Fst, off: int) -> bool {
    &&& 0 <= off
    &&& off + part.n() <= big.n()
    &&& forall|q: int| 0 <= q < part.n() ==> #[trigger] big.rows()[off + q] == shift_row(part.rows()[q], off)
    &&& forall|q: int| 0 <= q < part.n() ==> #[trigger] big.finals@[off + q] == part.finals@[q]
}

/// The machine with no states and no start state (empty language).
pub fn empty_machine() -> (f: Fst)
    ensures
        f.wf(),
        f.n() == 0,
        f.start is None,
{
    Fst { start: None, finals: Vec::new(), arcs: Vec::new() }
}

/// Shift one arc list.
fn shifted_row(row: &Vec<Arc>, off: usize, bound: usize) -> (r: Vec<Arc>)
    requires
        forall|k: int| 0 <= k < row@.len() ==> (#[trigger] row@[k]).nextstate + off < bound,
    ensures
        r@ == shift_row(row@, off as int),
{
    let mut r: Vec<Arc> = Vec::new();
    let mut k: usize = 0;
    while k < row.len()
        invariant
            k <= row@.len(),
            forall|j: int| 0 <= j < row@.len() ==> (#[trigger] row@[j]).nextstate + off < bound,
            r@ == shift_row(row@.take(k as int), off as int),
        decreases row@.len() - k,
    {
        let a = row[k];
        r.push(Arc { ilabel: a.ilabel, olabel: a.olabel, nextstate: a.nextstate + off });
        proof {
            assert(row@.take(k as int + 1) =~= row@.take(k as int).push(a));
            assert(shift_row(row@.take(k as int + 1), off as int) =~= shift_row(row@.take(k as int), off as int).push(
                Arc { ilabel: a.ilabel, olabel: a.olabel, nextstate: (a.nextstate + off) as usize },
            ));
        }
        k = k + 1;
    }
    proof {
        assert(row@.take(row@.len() as int) =~= row@);
    }
    r
}

/// Append the states of `src` after those of `dst`; returns the offset at
/// which they start.
fn append_shifted(dst: &mut Fst, src: &Fst) -> (off: usize)
    requires
        old(dst).wf(),
        src.wf(),
    ensures
        final(dst).wf(),
        off as int == old(dst).n(),
        final(dst).n() == old(dst).n() + src.n(),
        final(dst).start == old(dst).start,
        forall|q: int| 0 <= q < old(dst).n() ==> #[trigger] final(dst).rows()[q] == old(dst).rows()[q],
        forall|q: int| 0 <= q < old(dst).n() ==> #[trigger] final(dst).finals@[q] == old(dst).finals@[q],
        embeds(*final(dst), *src, off as int),
{
    let off = dst.arcs.len();
    let ghost d0 = *dst;
    let mut q: usize = 0;
    while q < src.finals.len()
        invariant
            q <= src.finals@.len(),
            src.wf(),
            dst.arcs@ == d0.arcs@,
            dst.start == d0.start,
            d0.wf(),
            off as int == d0.n(),
            dst.finals@ == d0.finals@ + src.finals@.take(q as int),
        decreases src.finals@.len() - q,
    {
        dst.finals.push(src.finals[q]);
        proof {
            assert(src.finals@.take(q as int + 1) =~= src.finals@.take(q as int).push(src.finals@[q as int]));
        }
        q = q + 1;
    }
    proof {
        assert(src.finals@.take(src.finals@.len() as int) =~= src.finals@);
    }
    let bound = dst.finals.len();
    let mut q: usize = 0;
    while q < src.arcs.len()
        invariant
            q <= src.n(),
            src.wf(),
            d0.wf(),
            off as int == d0.n(),
            bound as int == d0.n() + src.n(),
            dst.finals@ == d0.finals@ + src.finals@,
            dst.start == d0.start,
            dst.n() == d0.n() + q,
            forall|p: int| 0 <= p < d0.n() ==> #[trigger] dst.rows()[p] == d0.rows()[p],
            forall|p: int| 0 <= p < q ==> #[trigger] dst.rows()[off + p] == shift_row(src.rows()[p], off as int),
        decreases src.n() - q,
    {
        proof {
            assert forall|k: int| 0 <= k < src.arcs@[q as int]@.len() implies (#[trigger] src.arcs@[q as int]@[k]).nextstate + off < bound by {
                assert(src.arc(q as int, k).nextstate < src.n());
            }
        }
        let row = shifted_row(&src.arcs[q], off, bound);
        let ghost before = dst.rows();
        dst.arcs.push(row);
        proof {
            assert(dst.rows() =~= before.push(row@));
        }
        q = q + 1;
    }
    proof {
        assert forall|p: int, k: int| 0 <= p < dst.n() && 0 <= k < dst.deg(p) implies #[trigger] dst.arc(p, k).nextstate < dst.n() by {
            if p < d0.n() {
                assert(dst.rows()[p] == d0.rows()[p]);
                assert(dst.arc(p, k) == d0.arc(p, k));
            } else {
                let pp = p - off;
                assert(dst.rows()[off + pp] == shift_row(src.rows()[pp], off as int));
                assert(dst.arc(p, k) == dst.rows()[p][k]);
                assert(src.arc(pp, k).nextstate < src.n());
            }
        }
        assert forall|p: int| 0 <= p < src.n() implies #[trigger] dst.finals@[off + p] == src.finals@[p] by {
            assert(dst.finals@[off + p] == (d0.finals@ + src.finals@)[off + p]);
        }
    }
    off
}

} // verus!

verus! {

/// Push one arc onto a state's list.
fn push_arc(f: &mut Fst, from: StateId, il: Label, ol: Label, to: StateId)
    requires
        old(f).wf(),
        (from as int) < old(f).n(),
        (to as int) < old(f).n(),
    ensures
        final(f).wf(),
        final(f).rows() == old(f).rows().update(from as int, old(f).rows()[from as int].push(Arc { ilabel: il, olabel: ol, nextstate: to })),
        final(f).finals@ == old(f).finals@,
        final(f).start == old(f).start,
{
    let mut b = VectorFstBuilder { fst: Fst { start: None, finals: Vec::new(), arcs: Vec::new() } };
    std::mem::swap(&mut b.fst, f);
    let _ = b.add_arc(from, il, ol, to);
    std::mem::swap(&mut b.fst, f);
}

/// Set one state's final flag.
fn put_final(f: &mut Fst, s: StateId, v: bool)
    requires
        old(f).wf(),
        (s as int) < old(f).n(),
    ensures
        final(f).wf(),
        final(f).finals@ == old(f).finals@.update(s as int, v),
        final(f).arcs@ == old(f).arcs@,
        final(f).rows() == old(f).rows(),
        final(f).start == old(f).start,
{
    f.finals.set(s, v);
    proof { lemma_wf_same_arcs(*old(f), *f); }
}

/// An epsilon arc to `t`.
pub open spec fn eps_to(t: int) -> Arc {
    Arc { ilabel: EPS_LABEL, olabel: EPS_LABEL, nextstate: t as usize }
}

/// `r` is the concatenation construction over `a` and `b`: the states of
/// `a`, none of them final, each final one of `a` with an extra epsilon arc
/// to `b`'s start; then the states of `b` (embedded after `a`).
pub open spec fn concats(r: Fst, a: Fst, b: Fst) -> bool {
    &&& r.wf()
    &&& r.n() == a.n() + b.n()
    &&& r.n() <= usize::MAX
    &&& r.start == a.start
    &&& forall|q: int| 0 <= q < a.n() ==> !#[trigger] r.finals@[q]
    &&& forall|q: int| 0 <= q < a.n() ==> #[trigger] r.rows()[q] == if a.finals@[q] && b.start is Some {
        a.rows()[q].push(eps_to(a.n() + b.start->0))
    } else {
        a.rows()[q]
    }
    &&& embeds(r, b, a.n())
}

/// Concatenation: accepts `L(a) · L(b)`.
///
/// States of `a` come first, then those of `b`; every final state of `a`
/// loses its final flag and gains an epsilon arc to `b`'s start.
pub fn concat(a: &Fst, b: &Fst) -> (r: Fst)
    requires
        a.wf(),
        b.wf(),
    ensures
        concats(r, *a, *b),
        r.wf(),
        r.n() == a.n() + b.n(),
        r.start == a.start,
        forall|q: int| 0 <= q < a.n() ==> !#[trigger] r.finals@[q],
        forall|q: int| 0 <= q < a.n() ==> #[trigger] r.rows()[q] == if a.finals@[q] && b.start is Some {
            a.rows()[q].push(eps_to(a.n() + b.start->0))
        } else {
            a.rows()[q]
        },
        embeds(r, *b, a.n()),
{
    let mut r = empty_machine();
    let _ = append_shifted(&mut r, a);
    let ghost r0 = r;
    proof {
        assert forall|p: int| 0 <= p < a.n() implies #[trigger] r0.rows()[p] == a.rows()[p] by {
            assert(r0.rows()[0 + p] == shift_row(a.rows()[p], 0));
            assert(shift_row(a.rows()[p], 0) =~= a.rows()[p]);
        }
        assert forall|p: int| 0 <= p < a.n() implies #[trigger] r0.finals@[p] == a.finals@[p] by {
            assert(r0.finals@[0 + p] == a.finals@[p]);
        }
    }
    r.start = a.start;
    proof { lemma_wf_same_arcs(r0, r); }
    let ghost rmid = r;
    assert(rmid.rows() == r0.rows());
    let off = append_shifted(&mut r, b);
    let ghost r1 = r;
    proof {
        assert forall|p: int| 0 <= p < a.n() implies #[trigger] r1.rows()[p] == a.rows()[p] by {
            assert(r1.rows()[p] == rmid.rows()[p]);
        }
        assert forall|p: int| 0 <= p < a.n() implies #[trigger] r1.finals@[p] == a.finals@[p] by {
            assert(r1.finals@[p] == rmid.finals@[p]);
        }
    }
    let total = r.arcs.len();
    let mut q: usize = 0;
    while q < off
        invariant
            r.wf(),
            total as int == r.n(),
            a.wf(),
            b.wf(),
            off as int == a.n(),
            q <= off,
            r.n() == a.n() + b.n(),
            r.start == a.start,
            r1.n() == r.n(),
            forall|p: int| 0 <= p < a.n() ==> #[trigger] r1.rows()[p] == a.rows()[p],
            forall|p: int| 0 <= p < a.n() ==> #[trigger] r1.finals@[p] == a.finals@[p],
            forall|p: int| 0 <= p < q ==> !#[trigger] r.finals@[p],
            forall|p: int| q <= p < r.n() ==> #[trigger] r.finals@[p] == r1.finals@[p],
            forall|p: int| q <= p < r.n() ==> #[trigger] r.rows()[p] == r1.rows()[p],
            forall|p: int| 0 <= p < q ==> #[trigger] r.rows()[p] == if a.finals@[p] && b.start is Some {
                a.rows()[p].push(eps_to(a.n() + b.start->0))
            } else {
                a.rows()[p]
            },
        decreases off - q,
    {
        if r.finals[q] {
            put_final(&mut r, q, false);
            match b.start {
                Some(bs) => {
                    push_arc(&mut r, q, EPS_LABEL, EPS_LABEL, off + bs);
                },
                None => {},
            }
        }
        q = q + 1;
    }
    proof {
        assert forall|p: int| 0 <= p < b.n() implies #[trigger] r.rows()[off + p] == shift_row(b.rows()[p], off as int) by {
            assert(r1.rows()[off + p] == shift_row(b.rows()[p], off as int));
        }
        assert forall|p: int| 0 <= p < b.n() implies #[trigger] r.finals@[off + p] == b.finals@[p] by {
            assert(r1.finals@[off + p] == b.finals@[p]);
        }
    }
    r
}

} // verus!

verus! {

/// The arc list of a state after `link_finals`.
pub open spec fn linked_row(row: Seq<Arc>, is_final: bool, target: int) -> Seq<Arc> {
    if is_final { row.push(eps_to(target)) } else { row }
}

/// For every final state in `lo..hi`, add an epsilon arc to `target`; when
/// `clear`, those states stop being final.
fn link_finals(r: &mut Fst, lo: usize, hi: usize, target: StateId, clear: bool)
    requires
        old(r).wf(),
        lo <= hi,
        (hi as int) <= old(r).n(),
        (target as int) < old(r).n(),
    ensures
        final(r).wf(),
        final(r).n() == old(r).n(),
        final(r).start == old(r).start,
        forall|p: int| lo <= p < hi ==> #[trigger] final(r).rows()[p] == linked_row(old(r).rows()[p], old(r).finals@[p], target as int),
        forall|p: int| lo <= p < hi ==> #[trigger] final(r).finals@[p] == (old(r).finals@[p] && !clear),
        forall|p: int| 0 <= p < old(r).n() && !(lo <= p < hi) ==> #[trigger] final(r).rows()[p] == old(r).rows()[p],
        forall|p: int| 0 <= p < old(r).n() && !(lo <= p < hi) ==> #[trigger] final(r).finals@[p] == old(r).finals@[p],
{
    let ghost r0 = *r;
    let mut q = lo;
    while q < hi
        invariant
            r.wf(),
            r0.wf(),
            lo <= q <= hi,
            (hi as int) <= r0.n(),
            (target as int) < r0.n(),
            r.n() == r0.n(),
            r.start == r0.start,
            forall|p: int| lo <= p < q ==> #[trigger] r.rows()[p] == linked_row(r0.rows()[p], r0.finals@[p], target as int),
            forall|p: int| lo <= p < q ==> #[trigger] r.finals@[p] == (r0.finals@[p] && !clear),
            forall|p: int| 0 <= p < r0.n() && !(lo <= p < q) ==> #[trigger] r.rows()[p] == r0.rows()[p],
            forall|p: int| 0 <= p < r0.n() && !(lo <= p < q) ==> #[trigger] r.finals@[p] == r0.finals@[p],
        decreases hi - q,
    {
        if r.finals[q] {
            if clear {
                put_final(r, q, false);
            }
            push_arc(r, q, EPS_LABEL, EPS_LABEL, target);
        }
        q = q + 1;
    }
}

/// `r` is the union construction over `a` and `b`: a fresh non-final
/// start state `0` with epsilon arcs to the starts of `a` (embedded at
/// offset 1) and `b` (embedded after `a`).
pub open spec fn unites(r: Fst, a: Fst, b: Fst) -> bool {
    &&& r.wf()
    &&& r.n() == 1 + a.n() + b.n()
    &&& r.n() <= usize::MAX
    &&& r.start == Some(0usize)
    &&& !r.finals@[0]
    &&& r.rows()[0] == (match (a.start, b.start) {
        (Some(x), Some(y)) => seq![eps_to(1 + x), eps_to(1 + a.n() + y)],
        (Some(x), None) => seq![eps_to(1 + x)],
        (None, Some(y)) => seq![eps_to(1 + a.n() + y)],
        (None, None) => Seq::<Arc>::empty(),
    })
    &&& embeds(r, a, 1)
    &&& embeds(r, b, 1 + a.n())
}

/// Union: accepts `L(a) ∪ L(b)`.
///
/// A fresh start state `0` with epsilon arcs to the (shifted) starts of
/// `a` (at offset 1) and `b` (after `a`).
pub fn union(a: &Fst, b: &Fst) -> (r: Fst)
    requires
        a.wf(),
        b.wf(),
    ensures
        unites(r, *a, *b),
        r.wf(),
        r.n() == 1 + a.n() + b.n(),
        r.start == Some(0usize),
        !r.finals@[0],
        r.rows()[0] == (match (a.start, b.start) {
            (Some(x), Some(y)) => seq![eps_to(1 + x), eps_to(1 + a.n() + y)],
            (Some(x), None) => seq![eps_to(1 + x)],
            (None, Some(y)) => seq![eps_to(1 + a.n() + y)],
            (None, None) => Seq::<Arc>::empty(),
        }),
        embeds(r, *a, 1),
        embeds(r, *b, 1 + a.n()),
{
    let mut bld = builder();
    let s0 = bld.add_state();
    let _ = bld.set_start(s0);
    let mut r = bld.fst;
    let ghost r0 = r;
    let oa = append_shifted(&mut r, a);
    let ghost r1 = r;
    let ob = append_shifted(&mut r, b);
    let ghost r2 = r;
    let total = r.arcs.len();
    assert(total as int == r.n());
    proof {
        assert(r2.rows()[0] == r1.rows()[0]);
        assert(r1.rows()[0] == r0.rows()[0]);
        assert(r2.finals@[0] == r1.finals@[0]);
        assert forall|p: int| 0 <= p < a.n() implies #[trigger] r2.rows()[oa + p] == shift_row(a.rows()[p], 1) by {
            assert(r2.rows()[oa + p] == r1.rows()[oa + p]);
        }
        assert forall|p: int| 0 <= p < a.n() implies #[trigger] r2.finals@[oa + p] == a.finals@[p] by {
            assert(r2.finals@[oa + p] == r1.finals@[oa + p]);
        }
    }
    match a.start {
        Some(x) => { push_arc(&mut r, 0, EPS_LABEL, EPS_LABEL, oa + x); },
        None => {},
    }
    match b.start {
        Some(y) => { push_arc(&mut r, 0, EPS_LABEL, EPS_LABEL, ob + y); },
        None => {},
    }
    proof {
        assert(r.rows()[0] =~= (match (a.start, b.start) {
            (Some(x), Some(y)) => seq![eps_to(1 + x), eps_to(1 + a.n() + y)],
            (Some(x), None) => seq![eps_to(1 + x)],
            (None, Some(y)) => seq![eps_to(1 + a.n() + y)],
            (None, None) => Seq::<Arc>::empty(),
        }));
        assert forall|p: int| 0 <= p < a.n() implies #[trigger] r.rows()[1 + p] == shift_row(a.rows()[p], 1) by {
            assert(r.rows()[1 + p] == r2.rows()[1 + p]);
        }
        assert forall|p: int| 0 <= p < b.n() implies #[trigger] r.rows()[ob + p] == shift_row(b.rows()[p], ob as int) by {
            assert(r.rows()[ob + p] == r2.rows()[ob + p]);
        }
    }
    r
}

/// `r` is the star construction over `a`: a fresh final start state `0`
/// with an epsilon arc to `a`'s start, then the states of `a` (at offset
/// 1), each final one with an extra epsilon arc back to `a`'s start.
pub open spec fn stars(r: Fst, a: Fst) -> bool {
    &&& r.wf()
    &&& r.n() == 1 + a.n()
    &&& r.n() <= usize::MAX
    &&& r.start == Some(0usize)
    &&& r.finals@[0]
    &&& r.rows()[0] == (match a.start {
        Some(x) => seq![eps_to(1 + x)],
        None => Seq::<Arc>::empty(),
    })
    &&& forall|p: int| 0 <= p < a.n() ==> #[trigger] r.finals@[1 + p] == a.finals@[p]
    &&& forall|p: int| 0 <= p < a.n() ==> #[trigger] r.rows()[1 + p] == match a.start {
        Some(x) => linked_row(shift_row(a.rows()[p], 1), a.finals@[p], 1 + x),
        None => shift_row(a.rows()[p], 1),
    }
}

/// Kleene star: accepts `L(a)*`.
///
/// A fresh final start state `0` with an epsilon arc to `a`'s start (at
/// offset 1); every final state of `a` gains an epsilon arc back to `a`'s
/// start.
pub fn closure_star(a: &Fst) -> (r: Fst)
    requires
        a.wf(),
    ensures
        stars(r, *a),
        r.wf(),
        r.n() == 1 + a.n(),
        r.start == Some(0usize),
        r.finals@[0],
        r.rows()[0] == (match a.start {
            Some(x) => seq![eps_to(1 + x)],
            None => Seq::<Arc>::empty(),
        }),
        forall|p: int| 0 <= p < a.n() ==> #[trigger] r.finals@[1 + p] == a.finals@[p],
        forall|p: int| 0 <= p < a.n() ==> #[trigger] r.rows()[1 + p] == match a.start {
            Some(x) => linked_row(shift_row(a.rows()[p], 1), a.finals@[p], 1 + x),
            None => shift_row(a.rows()[p], 1),
        },
{
    let mut bld = builder();
    let s0 = bld.add_state();
    let _ = bld.set_start(s0);
    let _ = bld.set_final(s0);
    let mut r = bld.fst;
    let oa = append_shifted(&mut r, a);
    let ghost r1 = r;
    match a.start {
        Some(x) => {
            let n = r.arcs.len();
            link_finals(&mut r, oa, n, oa + x, false);
            let ghost r2 = r;
            push_arc(&mut r, 0, EPS_LABEL, EPS_LABEL, oa + x);
            proof {
                assert forall|p: int| 0 <= p < a.n() implies #[trigger] r.rows()[1 + p] == linked_row(shift_row(a.rows()[p], 1), a.finals@[p], 1 + x) by {
                    assert(r.rows()[1 + p] == r2.rows()[1 + p]);
                    assert(r1.rows()[oa + p] == shift_row(a.rows()[p], 1));
                    assert(r1.finals@[oa + p] == a.finals@[p]);
                }
                assert forall|p: int| 0 <= p < a.n() implies #[trigger] r.finals@[1 + p] == a.finals@[p] by {
                    assert(r1.finals@[oa + p] == a.finals@[p]);
                }
                assert(r.rows()[0] =~= seq![eps_to(1 + x)]);
            }
        },
        None => {
            proof {
                assert forall|p: int| 0 <= p < a.n() implies #[trigger] r.rows()[1 + p] == shift_row(a.rows()[p], 1) by {
                    assert(r1.rows()[oa + p] == shift_row(a.rows()[p], 1));
                }
                assert forall|p: int| 0 <= p < a.n() implies #[trigger] r.finals@[1 + p] == a.finals@[p] by {
                    assert(r1.finals@[oa + p] == a.finals@[p]);
                }
            }
        },
    }
    proof {
        assert(r.arcs.len() == r.arcs@.len());
    }
    r
}

/// `r` is the plus construction over `a`: a copy of `a` in which every
/// final state has an extra epsilon arc back to the start.
pub open spec fn pluses(r: Fst, a: Fst) -> bool {
    &&& r.wf()
    &&& r.n() == a.n()
    &&& r.n() <= usize::MAX
    &&& r.start == a.start
    &&& r.finals@ == a.finals@
    &&& forall|p: int| 0 <= p < a.n() ==> #[trigger] r.rows()[p] == match a.start {
        Some(x) => linked_row(a.rows()[p], a.finals@[p], x as int),
        None => a.rows()[p],
    }
}

/// Kleene plus: accepts `L(a)+`. A copy of `a` in which every final state
/// gains an epsilon arc back to the start.
pub fn closure_plus(a: &Fst) -> (r: Fst)
    requires
        a.wf(),
    ensures
        pluses(r, *a),
        r.wf(),
        r.n() == a.n(),
        r.start == a.start,
        r.finals@ == a.finals@,
        forall|p: int| 0 <= p < a.n() ==> #[trigger] r.rows()[p] == match a.start {
            Some(x) => linked_row(a.rows()[p], a.finals@[p], x as int),
            None => a.rows()[p],
        },
{
    let mut r = empty_machine();
    let _ = append_shifted(&mut r, a);
    let ghost r0 = r;
    proof {
        assert forall|p: int| 0 <= p < a.n() implies #[trigger] r0.rows()[p] == a.rows()[p] by {
            assert(r0.rows()[0 + p] == shift_row(a.rows()[p], 0));
            assert(shift_row(a.rows()[p], 0) =~= a.rows()[p]);
        }
        assert forall|p: int| 0 <= p < a.n() implies #[trigger] r0.finals@[p] == a.finals@[p] by {
            assert(r0.finals@[0 + p] == a.finals@[p]);
        }
        assert(r0.finals@ =~= a.finals@);
    }
    r.start = a.start;
    proof { lemma_wf_same_arcs(r0, r); }
    let ghost rs = r;
    assert(rs.rows() =~= r0.rows());
    match a.start {
        Some(x) => {
            let n = r.arcs.len();
            link_finals(&mut r, 0, n, x, false);
            proof {
                assert(r.finals@ =~= a.finals@);
                assert forall|p: int| 0 <= p < a.n() implies #[trigger] r.rows()[p] == linked_row(a.rows()[p], a.finals@[p], x as int) by {
                    assert(r.rows()[p] == linked_row(rs.rows()[p], rs.finals@[p], x as int));
                }
            }
        },
        None => {},
    }
    proof {
        assert(r.arcs.len() == r.arcs@.len());
    }
    r
}

/// `r` is the optional construction over `a`: a fresh final start state
/// `0` with an epsilon arc to `a`'s start, then the states of `a` (at
/// offset 1).
pub open spec fn optionals(r: Fst, a: Fst) -> bool {
    &&& r.wf()
    &&& r.n() == 1 + a.n()
    &&& r.n() <= usize::MAX
    &&& r.start == Some(0usize)
    &&& r.finals@[0]
    &&& r.rows()[0] == (match a.start {
        Some(x) => seq![eps_to(1 + x)],
        None => Seq::<Arc>::empty(),
    })
    &&& embeds(r, a, 1)
}

/// Optional: accepts `L(a) ∪ {ε}`. A fresh final start state `0` with an
/// epsilon arc to `a`'s start (at offset 1).
pub fn closure_optional(a: &Fst) -> (r: Fst)
    requires
        a.wf(),
    ensures
        optionals(r, *a),
        r.wf(),
        r.n() == 1 + a.n(),
        r.start == Some(0usize),
        r.finals@[0],
        r.rows()[0] == (match a.start {
            Some(x) => seq![eps_to(1 + x)],
            None => Seq::<Arc>::empty(),
        }),
        embeds(r, *a, 1),
{
    let mut bld = builder();
    let s0 = bld.add_state();
    let _ = bld.set_start(s0);
    let _ = bld.set_final(s0);
    let mut r = bld.fst;
    let oa = append_shifted(&mut r, a);
    let ghost r1 = r;
    let total = r.arcs.len();
    assert(total as int == r.n());
    match a.start {
        Some(x) => {
            push_arc(&mut r, 0, EPS_LABEL, EPS_LABEL, oa + x);
            proof {
                assert(r.rows()[0] =~= seq![eps_to(1 + x)]);
                assert forall|p: int| 0 <= p < a.n() implies #[trigger] r.rows()[1 + p] == shift_row(a.rows()[p], 1) by {
                    assert(r.rows()[1 + p] == r1.rows()[1 + p]);
                }
            }
        },
        None => {},
    }
    r
}

} // verus!

verus! {

/// A copy of `a`.
pub fn copy_fst(a: &Fst) -> (r: Fst)
    requires
        a.wf(),
    ensures
        r.wf(),
        r.start == a.start,
        r.finals@ == a.finals@,
        r.rows() == a.rows(),
        r.arcs@.len() == a.arcs@.len(),
{
    let mut r = empty_machine();
    let _ = append_shifted(&mut r, a);
    let ghost r0 = r;
    proof {
        assert forall|p: int| 0 <= p < a.n() implies #[trigger] r0.rows()[p] == a.rows()[p] by {
            assert(r0.rows()[0 + p] == shift_row(a.rows()[p], 0));
            assert(shift_row(a.rows()[p], 0) =~= a.rows()[p]);
        }
        assert forall|p: int| 0 <= p < a.n() implies #[trigger] r0.finals@[p] == a.finals@[p] by {
            assert(r0.finals@[0 + p] == a.finals@[p]);
        }
        assert(r0.finals@ =~= a.finals@);
    }
    r.start = a.start;
    proof {
        lemma_wf_same_arcs(r0, r);
        assert(r.rows() =~= a.rows());
    }
    r
}

/// The one-state machine, start and final, with a self-loop per pair.
pub fn loop_machine(pairs: &Vec<(Label, Label)>) -> (f: Fst)
    ensures
        f.wf(),
        is_loop_machine(f, pairs@),
{
    let mut b = builder();
    let s = b.add_state();
    let _ = b.set_start(s);
    let _ = b.set_final(s);
    let mut k: usize = 0;
    while k < pairs.len()
        invariant
            b.fst.wf(),
            k <= pairs@.len(),
            b.fst.n() == 1,
            b.fst.start == Some(0usize),
            b.fst.finals@ == seq![true],
            b.fst.deg(0) == k,
            forall|j: int| 0 <= j < k ==> #[trigger] b.fst.arc(0, j) == (Arc { ilabel: pairs@[j].0, olabel: pairs@[j].1, nextstate: 0 }),
        decreases pairs@.len() - k,
    {
        let (i, o) = pairs[k];
        let ghost before = b.fst;
        let _ = b.add_arc(0, i, o, 0);
        proof {
            assert(b.fst.rows()[0] == before.rows()[0].push(Arc { ilabel: i, olabel: o, nextstate: 0 }));
            assert forall|j: int| 0 <= j < k + 1 implies #[trigger] b.fst.arc(0, j) == (Arc { ilabel: pairs@[j].0, olabel: pairs@[j].1, nextstate: 0 }) by {
                assert(b.fst.arc(0, j) == b.fst.rows()[0][j]);
                if j < k {
                    assert(before.arc(0, j) == before.rows()[0][j]);
                }
            }
        }
        k = k + 1;
    }
    b.fst
}

/// The two-state machine `0 -> 1` (start `0`, final `1`) with one arc per
/// pair.
pub fn step_machine(pairs: &Vec<(Label, Label)>) -> (f: Fst)
    ensures
        f.wf(),
        is_step_machine(f, pairs@),
{
    let mut b = builder();
    let s0 = b.add_state();
    let s1 = b.add_state();
    let _ = b.set_start(s0);
    let _ = b.set_final(s1);
    let mut k: usize = 0;
    while k < pairs.len()
        invariant
            b.fst.wf(),
            k <= pairs@.len(),
            b.fst.n() == 2,
            b.fst.start == Some(0usize),
            b.fst.finals@ == seq![false, true],
            b.fst.deg(0) == k,
            b.fst.deg(1) == 0,
            forall|j: int| 0 <= j < k ==> #[trigger] b.fst.arc(0, j) == (Arc { ilabel: pairs@[j].0, olabel: pairs@[j].1, nextstate: 1 }),
        decreases pairs@.len() - k,
    {
        let (i, o) = pairs[k];
        let ghost before = b.fst;
        let _ = b.add_arc(0, i, o, 1);
        proof {
            assert(b.fst.rows()[0] == before.rows()[0].push(Arc { ilabel: i, olabel: o, nextstate: 1 }));
            assert(b.fst.rows()[1] == before.rows()[1]);
            assert forall|j: int| 0 <= j < k + 1 implies #[trigger] b.fst.arc(0, j) == (Arc { ilabel: pairs@[j].0, olabel: pairs@[j].1, nextstate: 1 }) by {
                assert(b.fst.arc(0, j) == b.fst.rows()[0][j]);
                if j < k {
                    assert(before.arc(0, j) == before.rows()[0][j]);
                }
            }
        }
        k = k + 1;
    }
    proof {
        assert(b.fst.finals@[0] == false);
        assert(b.fst.finals@[1] == true);
    }
    b.fst
}

/// The linear machine reading `ins[i]` and writing `outs[i]` at step `i`.
pub fn chain_machine(ins: &Vec<Label>, outs: &Vec<Label>) -> (f: Fst)
    requires
        ins@.len() == outs@.len(),
    ensures
        f.wf(),
        is_chain_machine(f, ins@, outs@),
{
    let mut b = builder();
    let s0 = b.add_state();
    let _ = b.set_start(s0);
    let mut k: usize = 0;
    while k < ins.len()
        invariant
            b.fst.wf(),
            ins@.len() == outs@.len(),
            k <= ins@.len(),
            b.fst.n() == k + 1,
            b.fst.start == Some(0usize),
            forall|s: int| 0 <= s < b.fst.n() ==> !#[trigger] b.fst.finals@[s],
            forall|s: int| 0 <= s < k ==> #[trigger] b.fst.deg(s) == 1,
            b.fst.deg(k as int) == 0,
            forall|s: int| 0 <= s < k ==> #[trigger] b.fst.arc(s, 0) == (Arc { ilabel: ins@[s], olabel: outs@[s], nextstate: (s + 1) as usize }),
        decreases ins@.len() - k,
    {
        let ghost b0 = b.fst;
        let next = b.add_state();
        let ghost b1 = b.fst;
        let _ = b.add_arc(k, ins[k], outs[k], next);
        proof {
            assert(b1.rows() == b0.rows().push(Seq::<Arc>::empty()));
            assert(b.fst.rows() == b1.rows().update(k as int, b1.rows()[k as int].push(Arc { ilabel: ins@[k as int], olabel: outs@[k as int], nextstate: next })));
            assert(b1.rows()[k as int] == b0.rows()[k as int]);
            assert(b.fst.deg(k as int) == 1);
            assert forall|s: int| 0 <= s < k + 1 implies #[trigger] b.fst.deg(s) == 1 by {
                if s < k {
                    assert(b0.deg(s) == 1);
                    assert(b.fst.rows()[s] == b0.rows()[s]);
                }
            }
            assert forall|s: int| 0 <= s < k + 1 implies #[trigger] b.fst.arc(s, 0) == (Arc { ilabel: ins@[s], olabel: outs@[s], nextstate: (s + 1) as usize }) by {
                if s < k {
                    assert(b.fst.rows()[s] == b0.rows()[s]);
                    assert(b.fst.arc(s, 0) == b0.arc(s, 0));
                } else {
                    assert(b.fst.rows()[s] == b1.rows()[s].push(Arc { ilabel: ins@[s], olabel: outs@[s], nextstate: (s + 1) as usize }));
                }
            }
            assert(b.fst.rows()[k + 1] == b1.rows()[k + 1]);
        }
        k = k + 1;
    }
    let ghost bl = b.fst;
    let _ = b.set_final(k);
    proof {
        assert(b.fst.rows() == bl.rows());
        assert forall|s: int| 0 <= s < b.fst.n() implies #[trigger] b.fst.is_final(s) == (s == ins@.len()) by {
            if s != k as int {
                assert(b.fst.finals@[s] == bl.finals@[s]);
            }
        }
        assert forall|s: int| 0 <= s < ins@.len() implies #[trigger] b.fst.deg(s) == 1 by {
            assert(bl.deg(s) == 1);
            assert(b.fst.rows()[s] == bl.rows()[s]);
        }
        assert forall|s: int| 0 <= s < ins@.len() implies #[trigger] b.fst.arc(s, 0) == (Arc { ilabel: ins@[s], olabel: outs@[s], nextstate: (s + 1) as usize }) by {
            assert(b.fst.rows()[s] == bl.rows()[s]);
            assert(bl.arc(s, 0) == (Arc { ilabel: ins@[s], olabel: outs@[s], nextstate: (s + 1) as usize }));
        }
    }
    b.fst
}

/// Swap input and output labels on every arc.
/// `r` is `a` with input and output labels swapped on every arc.
pub open spec fn inverts(r: Fst, a: Fst) -> bool {
    &&& r.wf()
    &&& r.start == a.start
    &&& r.finals@ == a.finals@
    &&& r.n() == a.n()
    &&& forall|s: int| 0 <= s < a.n() ==> #[trigger] r.deg(s) == a.deg(s)
    &&& forall|s: int, k: int| 0 <= s < a.n() && 0 <= k < a.deg(s) ==> #[trigger] r.arc(s, k) == (Arc {
        ilabel: a.arc(s, k).olabel,
        olabel: a.arc(s, k).ilabel,
        nextstate: a.arc(s, k).nextstate,
    })
}

pub fn invert(a: &Fst) -> (r: Fst)
    requires
        a.wf(),
    ensures
        inverts(r, *a),
        r.wf(),
        r.start == a.start,
        r.finals@ == a.finals@,
        r.n() == a.n(),
        forall|s: int, k: int| 0 <= s < a.n() && 0 <= k < a.deg(s) ==> r.deg(s) == a.deg(s) && #[trigger] r.arc(s, k) == (Arc {
            ilabel: a.arc(s, k).olabel,
            olabel: a.arc(s, k).ilabel,
            nextstate: a.arc(s, k).nextstate,
        }),
{
    let mut r = copy_fst(a);
    let mut s: usize = 0;
    while s < r.arcs.len()
        invariant
            a.wf(),
            r.start == a.start,
            r.finals@ == a.finals@,
            r.arcs@.len() == a.arcs@.len(),
            s <= r.arcs@.len(),
            forall|p: int| s <= p < a.n() ==> #[trigger] r.rows()[p] == a.rows()[p],
            forall|p: int, k: int| 0 <= p < s && 0 <= k < a.deg(p) ==> r.deg(p) == a.deg(p) && #[trigger] r.arc(p, k) == (Arc {
                ilabel: a.arc(p, k).olabel,
                olabel: a.arc(p, k).ilabel,
                nextstate: a.arc(p, k).nextstate,
            }),
            forall|p: int| 0 <= p < s ==> #[trigger] r.deg(p) == a.deg(p),
        decreases a.arcs@.len() - s,
    {
        let mut row: Vec<Arc> = Vec::new();
        let mut k: usize = 0;
        while k < a.arcs[s].len()
            invariant
                a.wf(),
                s < a.n(),
                k <= a.deg(s as int),
                row@.len() == k,
                forall|j: int| 0 <= j < k ==> #[trigger] row@[j] == (Arc {
                    ilabel: a.arc(s as int, j).olabel,
                    olabel: a.arc(s as int, j).ilabel,
                    nextstate: a.arc(s as int, j).nextstate,
                }),
            decreases a.deg(s as int) - k,
        {
            let e = a.arcs[s][k];
            row.push(Arc { ilabel: e.olabel, olabel: e.ilabel, nextstate: e.nextstate });
            k = k + 1;
        }
        let ghost before = r.rows();
        let ghost r_old = r;
        r.arcs.set(s, row);
        proof {
            assert(r.rows() =~= before.update(s as int, row@));
            assert(r.deg(s as int) == a.deg(s as int));
            assert forall|p: int, k: int| 0 <= p < s + 1 && 0 <= k < a.deg(p) implies r.deg(p) == a.deg(p) && #[trigger] r.arc(p, k) == (Arc {
                ilabel: a.arc(p, k).olabel,
                olabel: a.arc(p, k).ilabel,
                nextstate: a.arc(p, k).nextstate,
            }) by {
                if p < s {
                    assert(r_old.deg(p) == a.deg(p));
                    assert(r_old.arc(p, k) == (Arc { ilabel: a.arc(p, k).olabel, olabel: a.arc(p, k).ilabel, nextstate: a.arc(p, k).nextstate }));
                    assert(r.rows()[p] == before[p]);
                } else {
                    assert(r.arc(p, k) == row@[k]);
                }
            }
            assert forall|p: int| 0 <= p < s + 1 implies #[trigger] r.deg(p) == a.deg(p) by {
                if p < s {
                    assert(r_old.deg(p) == a.deg(p));
                    assert(r.rows()[p] == before[p]);
                }
            }
        }
        s = s + 1;
    }
    proof {
        assert forall|p: int, k: int| 0 <= p < r.n() && 0 <= k < r.deg(p) implies #[trigger] r.arc(p, k).nextstate < r.n() by {
            assert(r.arc(p, k).nextstate == a.arc(p, k).nextstate);
        }
    }
    r
}

/// Sort outgoing arcs by input label. Every operation of this kernel is
/// insensitive to arc order, so the arcs are kept in place: the result is
/// a copy of `a`, which trivially has the same language.
pub fn arc_sort_input(a: &Fst) -> (r: Fst)
    requires
        a.wf(),
    ensures
        r.wf(),
        r.start == a.start,
        r.finals@ == a.finals@,
        r.rows() == a.rows(),
{
    copy_fst(a)
}

/// Sort outgoing arcs by output label; like [`arc_sort_input`], a copy.
pub fn arc_sort_output(a: &Fst) -> (r: Fst)
    requires
        a.wf(),
    ensures
        r.wf(),
        r.start == a.start,
        r.finals@ == a.finals@,
        r.rows() == a.rows(),
{
    copy_fst(a)
}

/// Number of states.
pub fn num_states(f: &Fst) -> (n: usize)
    ensures
        n as int == f.n(),
{
    f.arcs.len()
}

/// The machine accepting only the empty pair `(ε, ε)`.
pub fn epsilon_machine() -> (f: Fst)
    ensures
        f.wf(),
        is_loop_machine(f, Seq::<(Label, Label)>::empty()),
{
    let v: Vec<(Label, Label)> = Vec::new();
    loop_machine(&v)
}

/// Bounded repeat `{n,m}`: any concatenation of `n..=m` copies of `L(a)`,
/// built as `n` copies of `a` followed by `m - n` optional copies. Fails
/// when `n > m`.
pub fn closure_bounded(a: &Fst, n: u32, m: u32) -> (r: FstResult<Fst>)
    requires
        a.wf(),
    ensures
        r is Ok <==> n <= m,
        r matches Ok(f) ==> f.wf() && super::laws::repeats(f, *a, n as int, m as int),
{
    if n > m {
        return Err(FstError::Backend(crate::text::str_to_owned("closure_bounded: n > m")));
    }
    let mut acc = epsilon_machine();
    proof {
        super::laws::lemma_epsilon_repeats(acc, *a);
    }
    let mut i: u32 = 0;
    while i < n
        invariant
            acc.wf(),
            a.wf(),
            i <= n,
            super::laws::repeats(acc, *a, i as int, i as int),
        decreases n - i,
    {
        let ghost prev = acc;
        acc = concat(&acc, a);
        proof {
            super::laws::lemma_repeat_step(*a, prev, acc, i as int, i as int);
        }
        i = i + 1;
    }
    let opt = closure_optional(a);
    let mut j: u32 = n;
    while j < m
        invariant
            acc.wf(),
            opt.wf(),
            a.wf(),
            optionals(opt, *a),
            n <= j <= m,
            super::laws::repeats(acc, *a, n as int, j as int),
        decreases m - j,
    {
        let ghost prev = acc;
        acc = concat(&acc, &opt);
        proof {
            super::laws::lemma_repeat_opt_step(*a, opt, prev, acc, n as int, j as int);
        }
        j = j + 1;
    }
    Ok(acc)
}

} // verus!

verus! {

// ---------------------------------------------------------------------------
// Composition.
// ---------------------------------------------------------------------------

/// A composition state: a state of the left machine, a state of the right
/// machine, and the epsilon-sequencing flag (set once a right-side epsilon
/// move was taken since the last synchronised move).
pub type Triple = (usize, usize, bool);

/// Arc `e` from composition state `src` to `dst` is justified by the
/// component machines: a synchronised move (`a` writes what `b` reads), a
/// left epsilon-output move (only while the flag is clear), or a right
/// epsilon-input move (which sets the flag).
pub open spec fn justified_arc(a: Fst, b: Fst, src: Triple, dst: Triple, e: Arc) -> bool {
    let (q1, q2, f) = src;
    let (p1, p2, g) = dst;
    ||| exists|k1: int, k2: int|
        #![trigger a.arc(q1 as int, k1), b.arc(q2 as int, k2)]
        {
            &&& 0 <= k1 < a.deg(q1 as int)
            &&& 0 <= k2 < b.deg(q2 as int)
            &&& a.arc(q1 as int, k1).olabel != EPS_LABEL
            &&& b.arc(q2 as int, k2).ilabel == a.arc(q1 as int, k1).olabel
            &&& p1 == a.arc(q1 as int, k1).nextstate
            &&& p2 == b.arc(q2 as int, k2).nextstate
            &&& !g
            &&& e.ilabel == a.arc(q1 as int, k1).ilabel
            &&& e.olabel == b.arc(q2 as int, k2).olabel
        }
    ||| exists|k1: int|
        #![trigger a.arc(q1 as int, k1)]
        {
            &&& 0 <= k1 < a.deg(q1 as int)
            &&& a.arc(q1 as int, k1).olabel == EPS_LABEL
            &&& !f
            &&& p1 == a.arc(q1 as int, k1).nextstate
            &&& p2 == q2
            &&& !g
            &&& e.ilabel == a.arc(q1 as int, k1).ilabel
            &&& e.olabel == EPS_LABEL
        }
    ||| exists|k2: int|
        #![trigger b.arc(q2 as int, k2)]
        {
            &&& 0 <= k2 < b.deg(q2 as int)
            &&& b.arc(q2 as int, k2).ilabel == EPS_LABEL
            &&& p1 == q1
            &&& p2 == b.arc(q2 as int, k2).nextstate
            &&& g
            &&& e.ilabel == EPS_LABEL
            &&& e.olabel == b.arc(q2 as int, k2).olabel
        }
}

/// `trip` labels each state of `r` with the composition state it stands
/// for, and every part of `r` is justified by `a` and `b`.
pub open spec fn compose_witness(a: Fst, b: Fst, r: Fst, trip: Seq<Triple>) -> bool {
    &&& trip.len() == r.n()
    &&& (r.start matches Some(s) ==> s == 0 && trip[0] == (a.start->0, b.start->0, false))
    &&& forall|i: int| 0 <= i < r.n() ==> (#[trigger] trip[i]).0 < a.n() && trip[i].1 < b.n()
    &&& forall|i: int| 0 <= i < r.n() ==> #[trigger] r.finals@[i] == (a.finals@[trip[i].0 as int] && b.finals@[trip[i].1 as int])
    &&& forall|i: int, k: int|
        0 <= i < r.n() && 0 <= k < r.deg(i) ==> justified_arc(a, b, trip[i], trip[r.arc(i, k).nextstate as int], #[trigger] r.arc(i, k))
}

/// `row` has an arc reading `il`, writing `ol` and leading to a state that
/// `trip` labels `dst`.
pub open spec fn has_arc(trip: Seq<Triple>, row: Seq<Arc>, il: Label, ol: Label, dst: Triple) -> bool {
    exists|x: int|
        #![trigger row[x]]
        0 <= x < row.len() && row[x].ilabel == il && row[x].olabel == ol && (row[x].nextstate as int) < trip.len()
            && trip[row[x].nextstate as int] == dst
}

/// Every synchronised move from `t` with `a`'s arc `k1` and one of `b`'s
/// first `k2max` arcs has its arc in `row`.
pub open spec fn sync_done_at(a: Fst, b: Fst, trip: Seq<Triple>, t: Triple, row: Seq<Arc>, k1: int, k2max: int) -> bool {
    forall|k2: int|
        #![trigger b.arc(t.1 as int, k2)]
        0 <= k2 < k2max && a.arc(t.0 as int, k1).olabel != EPS_LABEL && b.arc(t.1 as int, k2).ilabel == a.arc(
            t.0 as int,
            k1,
        ).olabel ==> has_arc(
            trip,
            row,
            a.arc(t.0 as int, k1).ilabel,
            b.arc(t.1 as int, k2).olabel,
            (a.arc(t.0 as int, k1).nextstate, b.arc(t.1 as int, k2).nextstate, false),
        )
}

/// Every synchronised move from `t` with one of `a`'s first `k1max` arcs
/// has its arc in `row`.
pub open spec fn sync_done(a: Fst, b: Fst, trip: Seq<Triple>, t: Triple, row: Seq<Arc>, k1max: int) -> bool {
    forall|k1: int| 0 <= k1 < k1max ==> #[trigger] sync_done_at(a, b, trip, t, row, k1, b.deg(t.1 as int))
}

/// Every left epsilon move from `t` with one of `a`'s first `k1max` arcs
/// has its arc in `row`.
pub open spec fn left_done(a: Fst, b: Fst, trip: Seq<Triple>, t: Triple, row: Seq<Arc>, k1max: int) -> bool {
    forall|k1: int|
        #![trigger a.arc(t.0 as int, k1)]
        0 <= k1 < k1max && !t.2 && a.arc(t.0 as int, k1).olabel == EPS_LABEL ==> has_arc(
            trip,
            row,
            a.arc(t.0 as int, k1).ilabel,
            EPS_LABEL,
            (a.arc(t.0 as int, k1).nextstate, t.1, false),
        )
}

/// Every right epsilon move from `t` with one of `b`'s first `k2max` arcs
/// has its arc in `row`.
pub open spec fn right_done(a: Fst, b: Fst, trip: Seq<Triple>, t: Triple, row: Seq<Arc>, k2max: int) -> bool {
    forall|k2: int|
        #![trigger b.arc(t.1 as int, k2)]
        0 <= k2 < k2max && b.arc(t.1 as int, k2).ilabel == EPS_LABEL ==> has_arc(
            trip,
            row,
            EPS_LABEL,
            b.arc(t.1 as int, k2).olabel,
            (t.0, b.arc(t.1 as int, k2).nextstate, true),
        )
}

/// Every move the filter allows from `t` has its arc in `row`.
pub open spec fn row_complete(a: Fst, b: Fst, trip: Seq<Triple>, t: Triple, row: Seq<Arc>) -> bool {
    &&& sync_done(a, b, trip, t, row, a.deg(t.0 as int))
    &&& left_done(a, b, trip, t, row, a.deg(t.0 as int))
    &&& right_done(a, b, trip, t, row, b.deg(t.1 as int))
}

/// Every state of `r` has an arc for each move the filter allows from the
/// composition state `trip` labels it with.
pub open spec fn compose_complete(a: Fst, b: Fst, r: Fst, trip: Seq<Triple>) -> bool {
    forall|i: int| 0 <= i < r.n() ==> row_complete(a, b, trip, trip[i], #[trigger] r.rows()[i])
}

/// `r` is a composition machine of `a` and `b`: justified by the
/// components through some labelling of its states, with every allowed
/// move present, and a start state exactly when both components have one.
pub open spec fn composes(a: Fst, b: Fst, r: Fst) -> bool {
    &&& r.wf()
    &&& ((a.start is Some && b.start is Some) <==> r.start is Some)
    &&& exists|trip: Seq<Triple>| compose_witness(a, b, r, trip) && compose_complete(a, b, r, trip)
}

/// An arc found in a row stays found when the labelling and the row grow.
proof fn lemma_has_arc_grow(trip: Seq<Triple>, trip2: Seq<Triple>, row: Seq<Arc>, row2: Seq<Arc>, il: Label, ol: Label, dst: Triple)
    requires
        has_arc(trip, row, il, ol, dst),
        trip.len() <= trip2.len(),
        forall|i: int| 0 <= i < trip.len() ==> #[trigger] trip2[i] == trip[i],
        row.len() <= row2.len(),
        forall|x: int| 0 <= x < row.len() ==> #[trigger] row2[x] == row[x],
    ensures
        has_arc(trip2, row2, il, ol, dst),
{
    let x = choose|x: int|
        #![trigger row[x]]
        0 <= x < row.len() && row[x].ilabel == il && row[x].olabel == ol && (row[x].nextstate as int) < trip.len()
            && trip[row[x].nextstate as int] == dst;
    assert(row2[x] == row[x]);
    assert(trip2[row[x].nextstate as int] == trip[row[x].nextstate as int]);
}

/// The progress facts of a row survive growth of the labelling and the row.
proof fn lemma_done_grow(
    a: Fst,
    b: Fst,
    trip: Seq<Triple>,
    trip2: Seq<Triple>,
    t: Triple,
    row: Seq<Arc>,
    row2: Seq<Arc>,
    k1: int,
    k2: int,
    k1max: int,
    k2max: int,
)
    requires
        trip.len() <= trip2.len(),
        forall|i: int| 0 <= i < trip.len() ==> #[trigger] trip2[i] == trip[i],
        row.len() <= row2.len(),
        forall|x: int| 0 <= x < row.len() ==> #[trigger] row2[x] == row[x],
    ensures
        sync_done_at(a, b, trip, t, row, k1, k2) ==> sync_done_at(a, b, trip2, t, row2, k1, k2),
        sync_done(a, b, trip, t, row, k1max) ==> sync_done(a, b, trip2, t, row2, k1max),
        left_done(a, b, trip, t, row, k1max) ==> left_done(a, b, trip2, t, row2, k1max),
        right_done(a, b, trip, t, row, k2max) ==> right_done(a, b, trip2, t, row2, k2max),
{
    let q1 = t.0 as int;
    let q2 = t.1 as int;
    if sync_done_at(a, b, trip, t, row, k1, k2) {
        assert forall|j: int|
            #![trigger b.arc(q2, j)]
            0 <= j < k2 && a.arc(q1, k1).olabel != EPS_LABEL && b.arc(q2, j).ilabel == a.arc(q1, k1).olabel implies has_arc(
                trip2,
                row2,
                a.arc(q1, k1).ilabel,
                b.arc(q2, j).olabel,
                (a.arc(q1, k1).nextstate, b.arc(q2, j).nextstate, false),
            ) by {
            lemma_has_arc_grow(trip, trip2, row, row2, a.arc(q1, k1).ilabel, b.arc(q2, j).olabel, (a.arc(q1, k1).nextstate, b.arc(q2, j).nextstate, false));
        }
    }
    if sync_done(a, b, trip, t, row, k1max) {
        assert forall|i: int| 0 <= i < k1max implies #[trigger] sync_done_at(a, b, trip2, t, row2, i, b.deg(q2)) by {
            assert(sync_done_at(a, b, trip, t, row, i, b.deg(q2)));
            assert forall|j: int|
                #![trigger b.arc(q2, j)]
                0 <= j < b.deg(q2) && a.arc(q1, i).olabel != EPS_LABEL && b.arc(q2, j).ilabel == a.arc(q1, i).olabel implies has_arc(
                    trip2,
                    row2,
                    a.arc(q1, i).ilabel,
                    b.arc(q2, j).olabel,
                    (a.arc(q1, i).nextstate, b.arc(q2, j).nextstate, false),
                ) by {
                lemma_has_arc_grow(trip, trip2, row, row2, a.arc(q1, i).ilabel, b.arc(q2, j).olabel, (a.arc(q1, i).nextstate, b.arc(q2, j).nextstate, false));
            }
        }
    }
    if left_done(a, b, trip, t, row, k1max) {
        assert forall|i: int|
            #![trigger a.arc(q1, i)]
            0 <= i < k1max && !t.2 && a.arc(q1, i).olabel == EPS_LABEL implies has_arc(
                trip2,
                row2,
                a.arc(q1, i).ilabel,
                EPS_LABEL,
                (a.arc(q1, i).nextstate, t.1, false),
            ) by {
            lemma_has_arc_grow(trip, trip2, row, row2, a.arc(q1, i).ilabel, EPS_LABEL, (a.arc(q1, i).nextstate, t.1, false));
        }
    }
    if right_done(a, b, trip, t, row, k2max) {
        assert forall|j: int|
            #![trigger b.arc(q2, j)]
            0 <= j < k2max && b.arc(q2, j).ilabel == EPS_LABEL implies has_arc(
                trip2,
                row2,
                EPS_LABEL,
                b.arc(q2, j).olabel,
                (t.0, b.arc(q2, j).nextstate, true),
            ) by {
            lemma_has_arc_grow(trip, trip2, row, row2, EPS_LABEL, b.arc(q2, j).olabel, (t.0, b.arc(q2, j).nextstate, true));
        }
    }
}

pub open spec fn triple_code(t: Triple, n2: int) -> int {
    (t.0 as int * n2 + t.1 as int) * 2 + (if t.2 { 1int } else { 0int })
}

proof fn lemma_code_range(t: Triple, n1: int, n2: int)
    requires
        (t.0 as int) < n1,
        (t.1 as int) < n2,
    ensures
        0 <= triple_code(t, n2) < n1 * n2 * 2,
{
    let q1 = t.0 as int;
    let q2 = t.1 as int;
    assert(0 <= q1 * n2 + q2 < n1 * n2) by (nonlinear_arith)
        requires 0 <= q1 < n1, 0 <= q2 < n2;
}

proof fn lemma_code_injective(t: Triple, u: Triple, n2: int)
    requires
        (t.1 as int) < n2,
        (u.1 as int) < n2,
        triple_code(t, n2) == triple_code(u, n2),
    ensures
        t == u,
{
    let a = t.0 as int;
    let b = t.1 as int;
    let c = u.0 as int;
    let d = u.1 as int;
    assert(t.2 == u.2);
    assert(a * n2 + b == c * n2 + d);
    assert(a == c && b == d) by (nonlinear_arith)
        requires a * n2 + b == c * n2 + d, 0 <= b < n2, 0 <= d < n2, 0 <= a, 0 <= c;
}

/// Distinct triples in range are at most `n1 * n2 * 2`.
proof fn lemma_triples_bounded(trip: Seq<Triple>, n1: int, n2: int)
    requires
        n1 >= 0,
        n2 >= 0,
        forall|i: int| 0 <= i < trip.len() ==> (#[trigger] trip[i]).0 < n1 && trip[i].1 < n2,
        forall|i: int, j: int| 0 <= i < j < trip.len() ==> trip[i] != trip[j],
    ensures
        trip.len() <= n1 * n2 * 2,
{
    let codes = trip.map_values(|t: Triple| triple_code(t, n2));
    assert forall|i: int, j: int| 0 <= i < codes.len() && 0 <= j < codes.len() && i != j implies codes[i] != codes[j] by {
        if codes[i] == codes[j] {
            lemma_code_injective(trip[i], trip[j], n2);
            if i < j { assert(trip[i] != trip[j]); } else { assert(trip[j] != trip[i]); }
        }
    }
    assert(codes.no_duplicates());
    codes.unique_seq_to_set();
    if n1 > 0 && n2 > 0 {
        assert(n1 * n2 * 2 >= 0) by (nonlinear_arith) requires n1 > 0, n2 > 0;
    }
    let hi = if trip.len() == 0 { 0 } else { n1 * n2 * 2 };
    if trip.len() > 0 {
        lemma_code_range(trip[0], n1, n2);
    }
    lemma_int_range(0, hi);
    assert forall|x: int| codes.to_set().contains(x) implies set_int_range(0, hi).contains(x) by {
        let i = choose|i: int| 0 <= i < codes.len() && codes[i] == x;
        lemma_code_range(trip[i], n1, n2);
    }
    lemma_len_subset(codes.to_set(), set_int_range(0, hi));
    assert(codes.len() == trip.len());
    assert(codes.to_set().len() == codes.len());
    assert(codes.to_set().len() <= hi);
    assert(trip.len() <= hi);
}

/// `tab[i][j] = v`.
fn set_slot(tab: &mut Vec<Vec<Option<usize>>>, i: usize, j: usize, v: Option<usize>)
    requires
        (i as int) < old(tab)@.len(),
        (j as int) < old(tab)@[i as int]@.len(),
    ensures
        final(tab)@.len() == old(tab)@.len(),
        forall|q: int| 0 <= q < old(tab)@.len() && q != i ==> #[trigger] final(tab)@[q] == old(tab)@[q],
        final(tab)@[i as int]@ == old(tab)@[i as int]@.update(j as int, v),
{
    let mut row: Vec<Option<usize>> = Vec::new();
    std::mem::swap(&mut row, &mut tab[i]);
    row.set(j, v);
    std::mem::swap(&mut row, &mut tab[i]);
}

/// Working state of a composition.
struct ComposeTable {
    /// `slot[f][q1][q2]` — the state for `(q1, q2, f)`, if created.
    slot0: Vec<Vec<Option<usize>>>,
    slot1: Vec<Vec<Option<usize>>>,
    trip: Vec<Triple>,
    finals: Vec<bool>,
    rows: Vec<Vec<Arc>>,
}

impl ComposeTable {
    spec fn slot(&self, t: Triple) -> Option<usize> {
        if t.2 {
            self.slot1@[t.0 as int]@[t.1 as int]
        } else {
            self.slot0@[t.0 as int]@[t.1 as int]
        }
    }

    spec fn inv(&self, a: Fst, b: Fst) -> bool {
        &&& self.slot0@.len() == a.n()
        &&& self.slot1@.len() == a.n()
        &&& forall|q: int| 0 <= q < a.n() ==> (#[trigger] self.slot0@[q])@.len() == b.n()
        &&& forall|q: int| 0 <= q < a.n() ==> (#[trigger] self.slot1@[q])@.len() == b.n()
        &&& self.finals@.len() == self.trip@.len()
        &&& self.rows@.len() == self.trip@.len()
        &&& self.trip@.len() <= usize::MAX
        &&& forall|i: int| 0 <= i < self.trip@.len() ==> (#[trigger] self.trip@[i]).0 < a.n() && self.trip@[i].1 < b.n()
        &&& forall|i: int| 0 <= i < self.trip@.len() ==> self.slot(#[trigger] self.trip@[i]) == Some(i as usize)
        &&& forall|t: Triple| (t.0 as int) < a.n() && (t.1 as int) < b.n() && #[trigger] self.slot(t) is Some ==>
            (self.slot(t)->0 as int) < self.trip@.len() && self.trip@[self.slot(t)->0 as int] == t
        &&& forall|i: int| 0 <= i < self.trip@.len() ==> #[trigger] self.finals@[i] == (a.finals@[self.trip@[i].0 as int] && b.finals@[self.trip@[i].1 as int])
    }

    proof fn lemma_bounded(&self, a: Fst, b: Fst)
        requires
            self.inv(a, b),
        ensures
            self.trip@.len() <= a.n() * b.n() * 2,
    {
        assert forall|i: int, j: int| 0 <= i < j < self.trip@.len() implies self.trip@[i] != self.trip@[j] by {
            if self.trip@[i] == self.trip@[j] {
                assert(self.slot(self.trip@[i]) == Some(i as usize));
                assert(self.slot(self.trip@[j]) == Some(j as usize));
            }
        }
        lemma_triples_bounded(self.trip@, a.n(), b.n());
    }

    /// The state for `t`, created (non-final-unless-both-final, no arcs)
    /// when new.
    fn get_or_add(&mut self, a: &Fst, b: &Fst, t: Triple) -> (s: usize)
        requires
            old(self).inv(*a, *b),
            a.wf(),
            b.wf(),
            (t.0 as int) < a.n(),
            (t.1 as int) < b.n(),
        ensures
            final(self).inv(*a, *b),
            (s as int) < final(self).trip@.len(),
            final(self).trip@[s as int] == t,
            final(self).trip@.len() >= old(self).trip@.len(),
            forall|i: int| 0 <= i < old(self).trip@.len() ==> #[trigger] final(self).trip@[i] == old(self).trip@[i],
            forall|i: int| 0 <= i < old(self).rows@.len() ==> #[trigger] final(self).rows@[i] == old(self).rows@[i],
            final(self).trip@.len() > old(self).trip@.len() ==> final(self).trip@ == old(self).trip@.push(t)
                && final(self).rows@.len() == old(self).rows@.len() + 1
                && final(self).rows@[old(self).rows@.len() as int]@.len() == 0,
    {
        let q1 = t.0;
        let q2 = t.1;
        let f = t.2;
        let existing: Option<usize> = if f { self.slot1[q1][q2] } else { self.slot0[q1][q2] };
        proof {
            assert(self.slot(t) == existing);
        }
        if existing.is_some() {
            let s = existing.unwrap();
            return s;
        }
        {
            {
                let s = self.trip.len();
                let ghost old_self = *self;
                self.trip.push(t);
                let tl = self.trip.len();
                assert(tl as int == self.trip@.len());
                self.finals.push(a.finals[q1] && b.finals[q2]);
                self.rows.push(Vec::new());
                if f {
                    set_slot(&mut self.slot1, q1, q2, Some(s));
                } else {
                    set_slot(&mut self.slot0, q1, q2, Some(s));
                }
                proof {
                    assert(self.slot(t) == Some(s));
                    assert forall|u: Triple| (u.0 as int) < a.n() && (u.1 as int) < b.n() && u != t implies #[trigger] self.slot(u) == old_self.slot(u) by {
                        if u.2 {
                            if f && u.0 == q1 {
                                assert(self.slot1@[u.0 as int]@[u.1 as int] == old_self.slot1@[u.0 as int]@[u.1 as int]);
                            }
                        } else {
                            if !f && u.0 == q1 {
                                assert(self.slot0@[u.0 as int]@[u.1 as int] == old_self.slot0@[u.0 as int]@[u.1 as int]);
                            }
                        }
                    }
                    assert forall|i: int| 0 <= i < self.trip@.len() implies self.slot(#[trigger] self.trip@[i]) == Some(i as usize) by {
                        if i < s {
                            assert(self.trip@[i] == old_self.trip@[i]);
                            assert(old_self.slot(old_self.trip@[i]) == Some(i as usize));
                            assert(self.trip@[i] != t);
                        }
                    }
                    assert forall|u: Triple| (u.0 as int) < a.n() && (u.1 as int) < b.n() && #[trigger] self.slot(u) is Some implies
                        (self.slot(u)->0 as int) < self.trip@.len() && self.trip@[self.slot(u)->0 as int] == u by {
                        if u != t {
                            assert(old_self.slot(u) is Some);
                        }
                    }
                    assert forall|i: int| 0 <= i < self.trip@.len() implies #[trigger] self.finals@[i] == (a.finals@[self.trip@[i].0 as int] && b.finals@[self.trip@[i].1 as int]) by {
                        if i < s {
                            assert(self.finals@[i] == old_self.finals@[i]);
                        }
                    }
                    assert forall|q: int| 0 <= q < a.n() implies (#[trigger] self.slot0@[q])@.len() == b.n() by {
                        if !f && q == q1 as int {
                        } else {
                            assert(self.slot0@[q] == old_self.slot0@[q]);
                        }
                    }
                    assert forall|q: int| 0 <= q < a.n() implies (#[trigger] self.slot1@[q])@.len() == b.n() by {
                        if f && q == q1 as int {
                        } else {
                            assert(self.slot1@[q] == old_self.slot1@[q]);
                        }
                    }
                }
                s
            }
        }
    }
}

} // verus!

verus! {

proof fn lemma_just_sync(a: Fst, b: Fst, t: Triple, d: Triple, e: Arc, k1: int, k2: int)
    requires
        0 <= k1 < a.deg(t.0 as int),
        0 <= k2 < b.deg(t.1 as int),
        a.arc(t.0 as int, k1).olabel != EPS_LABEL,
        b.arc(t.1 as int, k2).ilabel == a.arc(t.0 as int, k1).olabel,
        d == (a.arc(t.0 as int, k1).nextstate, b.arc(t.1 as int, k2).nextstate, false),
        e.ilabel == a.arc(t.0 as int, k1).ilabel,
        e.olabel == b.arc(t.1 as int, k2).olabel,
    ensures
        justified_arc(a, b, t, d, e),
{
}

proof fn lemma_just_left(a: Fst, b: Fst, t: Triple, d: Triple, e: Arc, k1: int)
    requires
        0 <= k1 < a.deg(t.0 as int),
        a.arc(t.0 as int, k1).olabel == EPS_LABEL,
        !t.2,
        d == (a.arc(t.0 as int, k1).nextstate, t.1, false),
        e.ilabel == a.arc(t.0 as int, k1).ilabel,
        e.olabel == EPS_LABEL,
    ensures
        justified_arc(a, b, t, d, e),
{
}

proof fn lemma_just_right(a: Fst, b: Fst, t: Triple, d: Triple, e: Arc, k2: int)
    requires
        0 <= k2 < b.deg(t.1 as int),
        b.arc(t.1 as int, k2).ilabel == EPS_LABEL,
        d == (t.0, b.arc(t.1 as int, k2).nextstate, true),
        e.ilabel == EPS_LABEL,
        e.olabel == b.arc(t.1 as int, k2).olabel,
    ensures
        justified_arc(a, b, t, d, e),
{
}

/// A table with `n1` rows of `n2` empty slots.
fn empty_slots(n1: usize, n2: usize) -> (t: Vec<Vec<Option<usize>>>)
    ensures
        t@.len() == n1,
        forall|q: int| 0 <= q < n1 ==> (#[trigger] t@[q])@.len() == n2,
        forall|q: int, p: int| 0 <= q < n1 && 0 <= p < n2 ==> #[trigger] t@[q]@[p] is None,
{
    let mut t: Vec<Vec<Option<usize>>> = Vec::new();
    let mut i: usize = 0;
    while i < n1
        invariant
            i <= n1,
            t@.len() == i,
            forall|q: int| 0 <= q < i ==> (#[trigger] t@[q])@.len() == n2,
            forall|q: int, p: int| 0 <= q < i && 0 <= p < n2 ==> #[trigger] t@[q]@[p] is None,
        decreases n1 - i,
    {
        let mut row: Vec<Option<usize>> = Vec::new();
        let mut j: usize = 0;
        while j < n2
            invariant
                j <= n2,
                row@.len() == j,
                forall|p: int| 0 <= p < j ==> #[trigger] row@[p] is None,
            decreases n2 - j,
        {
            row.push(None);
            j = j + 1;
        }
        t.push(row);
        i = i + 1;
    }
    t
}

/// Row invariant while expanding composition state `t`.
spec fn row_ok(a: Fst, b: Fst, tab: ComposeTable, t: Triple, row: Seq<Arc>) -> bool {
    forall|x: int| 0 <= x < row.len() ==> (#[trigger] row[x]).nextstate < tab.trip@.len()
        && justified_arc(a, b, t, tab.trip@[row[x].nextstate as int], row[x])
}

proof fn lemma_row_ok_grow(a: Fst, b: Fst, t0: ComposeTable, t1: ComposeTable, t: Triple, row: Seq<Arc>)
    requires
        row_ok(a, b, t0, t, row),
        t1.trip@.len() >= t0.trip@.len(),
        forall|i: int| 0 <= i < t0.trip@.len() ==> #[trigger] t1.trip@[i] == t0.trip@[i],
    ensures
        row_ok(a, b, t1, t, row),
{
    assert forall|x: int| 0 <= x < row.len() implies (#[trigger] row[x]).nextstate < t1.trip@.len()
        && justified_arc(a, b, t, t1.trip@[row[x].nextstate as int], row[x]) by {
        assert(t1.trip@[row[x].nextstate as int] == t0.trip@[row[x].nextstate as int]);
    }
}

/// The outgoing arcs of composition state `t`, creating target states as
/// needed: one arc for each move the filter allows from `t`.
fn compose_row(tab: &mut ComposeTable, a: &Fst, b: &Fst, t: Triple) -> (row: Vec<Arc>)
    requires
        old(tab).inv(*a, *b),
        a.wf(),
        b.wf(),
        (t.0 as int) < a.n(),
        (t.1 as int) < b.n(),
    ensures
        final(tab).inv(*a, *b),
        final(tab).trip@.len() >= old(tab).trip@.len(),
        forall|i: int| 0 <= i < old(tab).trip@.len() ==> #[trigger] final(tab).trip@[i] == old(tab).trip@[i],
        forall|i: int| 0 <= i < old(tab).rows@.len() ==> #[trigger] final(tab).rows@[i] == old(tab).rows@[i],
        forall|i: int| old(tab).rows@.len() <= i < final(tab).rows@.len() ==> (#[trigger] final(tab).rows@[i])@.len() == 0,
        row_ok(*a, *b, *final(tab), t, row@),
        row_complete(*a, *b, final(tab).trip@, t, row@),
{
    let q1 = t.0;
    let q2 = t.1;
    let f = t.2;
    let ghost tab0 = *tab;
    let mut row: Vec<Arc> = Vec::new();
    let mut k1: usize = 0;
    while k1 < a.arcs[q1].len()
        invariant
            tab.inv(*a, *b),
            a.wf(),
            b.wf(),
            t == (q1, q2, f),
            (q1 as int) < a.n(),
            (q2 as int) < b.n(),
            k1 <= a.deg(q1 as int),
            tab.trip@.len() >= tab0.trip@.len(),
            tab0.rows@.len() == tab0.trip@.len(),
            forall|i: int| tab0.rows@.len() <= i < tab.rows@.len() ==> (#[trigger] tab.rows@[i])@.len() == 0,
            forall|i: int| 0 <= i < tab0.trip@.len() ==> #[trigger] tab.trip@[i] == tab0.trip@[i],
            forall|i: int| 0 <= i < tab0.rows@.len() ==> #[trigger] tab.rows@[i] == tab0.rows@[i],
            row_ok(*a, *b, *tab, t, row@),
            sync_done(*a, *b, tab.trip@, t, row@, k1 as int),
            left_done(*a, *b, tab.trip@, t, row@, k1 as int),
        decreases a.deg(q1 as int) - k1,
    {
        let e1 = a.arcs[q1][k1];
        assert(e1 == a.arc(q1 as int, k1 as int));
        assert(e1.nextstate < a.n());
        if e1.olabel == EPS_LABEL {
            if !f {
                let ghost tb = *tab;
                let s = tab.get_or_add(a, b, (e1.nextstate, q2, false));
                proof {
                    lemma_row_ok_grow(*a, *b, tb, *tab, t, row@);
                    assert forall|i: int| 0 <= i < tab0.rows@.len() implies #[trigger] tab.rows@[i] == tab0.rows@[i] by {
                        assert(tb.rows@[i] == tab0.rows@[i]);
                    }
                    assert forall|i: int| tab0.rows@.len() <= i < tab.rows@.len() implies (#[trigger] tab.rows@[i])@.len() == 0 by {
                        if i < tb.rows@.len() { assert(tab.rows@[i] == tb.rows@[i]); }
                    }
                }
                let e = Arc { ilabel: e1.ilabel, olabel: EPS_LABEL, nextstate: s };
                let ghost r0 = row@;
                row.push(e);
                proof {
                    assert(tab.trip@[s as int] == (e1.nextstate, q2, false));
                    lemma_just_left(*a, *b, t, tab.trip@[s as int], e, k1 as int);
                    assert(justified_arc(*a, *b, t, tab.trip@[s as int], e));
                    assert forall|x: int| 0 <= x < row@.len() implies (#[trigger] row@[x]).nextstate < tab.trip@.len()
                        && justified_arc(*a, *b, t, tab.trip@[row@[x].nextstate as int], row@[x]) by {
                        if x < r0.len() { assert(row@[x] == r0[x]); }
                    }
                    lemma_done_grow(*a, *b, tb.trip@, tab.trip@, t, r0, row@, 0, 0, k1 as int, 0);
                    assert(row@[r0.len() as int] == e);
                    assert(has_arc(tab.trip@, row@, e1.ilabel, EPS_LABEL, (e1.nextstate, q2, false)));
                    assert(sync_done_at(*a, *b, tab.trip@, t, row@, k1 as int, b.deg(q2 as int)));
                    assert(sync_done(*a, *b, tab.trip@, t, row@, k1 + 1));
                }
            } else {
                proof {
                    assert(sync_done_at(*a, *b, tab.trip@, t, row@, k1 as int, b.deg(q2 as int)));
                }
            }
        } else {
            let mut k2: usize = 0;
            while k2 < b.arcs[q2].len()
                invariant
                    tab.inv(*a, *b),
                    a.wf(),
                    b.wf(),
                    t == (q1, q2, f),
                    (q1 as int) < a.n(),
                    (q2 as int) < b.n(),
                    k1 < a.deg(q1 as int),
                    e1 == a.arc(q1 as int, k1 as int),
                    e1.olabel != EPS_LABEL,
                    e1.nextstate < a.n(),
                    k2 <= b.deg(q2 as int),
                    tab.trip@.len() >= tab0.trip@.len(),
                    tab0.rows@.len() == tab0.trip@.len(),
                    forall|i: int| tab0.rows@.len() <= i < tab.rows@.len() ==> (#[trigger] tab.rows@[i])@.len() == 0,
                    forall|i: int| 0 <= i < tab0.trip@.len() ==> #[trigger] tab.trip@[i] == tab0.trip@[i],
                    forall|i: int| 0 <= i < tab0.rows@.len() ==> #[trigger] tab.rows@[i] == tab0.rows@[i],
                    row_ok(*a, *b, *tab, t, row@),
                    sync_done(*a, *b, tab.trip@, t, row@, k1 as int),
                    left_done(*a, *b, tab.trip@, t, row@, k1 as int + 1),
                    sync_done_at(*a, *b, tab.trip@, t, row@, k1 as int, k2 as int),
                decreases b.deg(q2 as int) - k2,
            {
                let e2 = b.arcs[q2][k2];
                assert(e2 == b.arc(q2 as int, k2 as int));
                assert(e2.nextstate < b.n());
                if e2.ilabel == e1.olabel {
                    let ghost tb = *tab;
                    let s = tab.get_or_add(a, b, (e1.nextstate, e2.nextstate, false));
                    proof {
                        lemma_row_ok_grow(*a, *b, tb, *tab, t, row@);
                        assert forall|i: int| 0 <= i < tab0.rows@.len() implies #[trigger] tab.rows@[i] == tab0.rows@[i] by {
                            assert(tb.rows@[i] == tab0.rows@[i]);
                        }
                        assert forall|i: int| tab0.rows@.len() <= i < tab.rows@.len() implies (#[trigger] tab.rows@[i])@.len() == 0 by {
                            if i < tb.rows@.len() { assert(tab.rows@[i] == tb.rows@[i]); }
                        }
                    }
                    let e = Arc { ilabel: e1.ilabel, olabel: e2.olabel, nextstate: s };
                    let ghost r0 = row@;
                    row.push(e);
                    proof {
                        assert(tab.trip@[s as int] == (e1.nextstate, e2.nextstate, false));
                        lemma_just_sync(*a, *b, t, tab.trip@[s as int], e, k1 as int, k2 as int);
                        assert(justified_arc(*a, *b, t, tab.trip@[s as int], e));
                        assert forall|x: int| 0 <= x < row@.len() implies (#[trigger] row@[x]).nextstate < tab.trip@.len()
                            && justified_arc(*a, *b, t, tab.trip@[row@[x].nextstate as int], row@[x]) by {
                            if x < r0.len() { assert(row@[x] == r0[x]); }
                        }
                        lemma_done_grow(*a, *b, tb.trip@, tab.trip@, t, r0, row@, k1 as int, k2 as int, k1 as int, 0);
                        lemma_done_grow(*a, *b, tb.trip@, tab.trip@, t, r0, row@, k1 as int, k2 as int, k1 as int + 1, 0);
                        assert(row@[r0.len() as int] == e);
                        assert(has_arc(tab.trip@, row@, e1.ilabel, e2.olabel, (e1.nextstate, e2.nextstate, false)));
                        assert(sync_done_at(*a, *b, tab.trip@, t, row@, k1 as int, k2 + 1));
                    }
                }
                k2 = k2 + 1;
            }
            proof {
                assert(sync_done(*a, *b, tab.trip@, t, row@, k1 + 1));
            }
        }
        k1 = k1 + 1;
    }
    let mut k2: usize = 0;
    while k2 < b.arcs[q2].len()
        invariant
            tab.inv(*a, *b),
            a.wf(),
            b.wf(),
            t == (q1, q2, f),
            (q1 as int) < a.n(),
            (q2 as int) < b.n(),
            k2 <= b.deg(q2 as int),
            tab.trip@.len() >= tab0.trip@.len(),
            tab0.rows@.len() == tab0.trip@.len(),
            forall|i: int| tab0.rows@.len() <= i < tab.rows@.len() ==> (#[trigger] tab.rows@[i])@.len() == 0,
            forall|i: int| 0 <= i < tab0.trip@.len() ==> #[trigger] tab.trip@[i] == tab0.trip@[i],
            forall|i: int| 0 <= i < tab0.rows@.len() ==> #[trigger] tab.rows@[i] == tab0.rows@[i],
            row_ok(*a, *b, *tab, t, row@),
            sync_done(*a, *b, tab.trip@, t, row@, a.deg(q1 as int)),
            left_done(*a, *b, tab.trip@, t, row@, a.deg(q1 as int)),
            right_done(*a, *b, tab.trip@, t, row@, k2 as int),
        decreases b.deg(q2 as int) - k2,
    {
        let e2 = b.arcs[q2][k2];
        assert(e2 == b.arc(q2 as int, k2 as int));
        assert(e2.nextstate < b.n());
        if e2.ilabel == EPS_LABEL {
            let ghost tb = *tab;
            let s = tab.get_or_add(a, b, (q1, e2.nextstate, true));
            proof {
                lemma_row_ok_grow(*a, *b, tb, *tab, t, row@);
                assert forall|i: int| 0 <= i < tab0.rows@.len() implies #[trigger] tab.rows@[i] == tab0.rows@[i] by {
                    assert(tb.rows@[i] == tab0.rows@[i]);
                }
                assert forall|i: int| tab0.rows@.len() <= i < tab.rows@.len() implies (#[trigger] tab.rows@[i])@.len() == 0 by {
                    if i < tb.rows@.len() { assert(tab.rows@[i] == tb.rows@[i]); }
                }
            }
            let e = Arc { ilabel: EPS_LABEL, olabel: e2.olabel, nextstate: s };
            let ghost r0 = row@;
            row.push(e);
            proof {
                assert(tab.trip@[s as int] == (q1, e2.nextstate, true));
                lemma_just_right(*a, *b, t, tab.trip@[s as int], e, k2 as int);
                assert(justified_arc(*a, *b, t, tab.trip@[s as int], e));
                assert forall|x: int| 0 <= x < row@.len() implies (#[trigger] row@[x]).nextstate < tab.trip@.len()
                    && justified_arc(*a, *b, t, tab.trip@[row@[x].nextstate as int], row@[x]) by {
                    if x < r0.len() { assert(row@[x] == r0[x]); }
                }
                lemma_done_grow(*a, *b, tb.trip@, tab.trip@, t, r0, row@, 0, 0, a.deg(q1 as int), k2 as int);
                assert(row@[r0.len() as int] == e);
                assert(has_arc(tab.trip@, row@, EPS_LABEL, e2.olabel, (q1, e2.nextstate, true)));
            }
        }
        k2 = k2 + 1;
    }
    row
}

} // verus!

verus! {

/// Composition `a ∘ b`: maps `x` to `z` whenever `a` maps `x` to some `y`
/// and `b` maps `y` to `z`.
///
/// Product construction over reachable `(q1, q2, flag)` states with the
/// epsilon-sequencing filter: between two synchronised moves, `a`'s
/// epsilon-output moves come before `b`'s epsilon-input moves, so each pair
/// of component runs yields one run of the result. The result's state `0`
/// is `(a.start, b.start, clear)`; every state and arc is justified by the
/// components (see [`compose_witness`]).
pub fn compose(a: &Fst, b: &Fst) -> (r: Fst)
    requires
        a.wf(),
        b.wf(),
    ensures
        composes(*a, *b, r),
        r.wf(),
        (a.start is Some && b.start is Some) <==> r.start is Some,
        r.start is None ==> r.n() == 0,
        exists|trip: Seq<Triple>| compose_witness(*a, *b, r, trip),
{
    let (sa, sb) = match (a.start, b.start) {
        (Some(x), Some(y)) => (x, y),
        _ => {
            let r = empty_machine();
            assert(compose_witness(*a, *b, r, Seq::<Triple>::empty()));
            return r;
        },
    };
    let n1 = a.arcs.len();
    let n2 = b.arcs.len();
    let mut tab = ComposeTable {
        slot0: empty_slots(n1, n2),
        slot1: empty_slots(n1, n2),
        trip: Vec::new(),
        finals: Vec::new(),
        rows: Vec::new(),
    };
    proof {
        assert forall|t: Triple| (t.0 as int) < a.n() && (t.1 as int) < b.n() && #[trigger] tab.slot(t) is Some implies
            (tab.slot(t)->0 as int) < tab.trip@.len() && tab.trip@[tab.slot(t)->0 as int] == t by {
            if t.2 {
                assert(tab.slot1@[t.0 as int]@[t.1 as int] is None);
            } else {
                assert(tab.slot0@[t.0 as int]@[t.1 as int] is None);
            }
        }
    }
    let s0 = tab.get_or_add(a, b, (sa, sb, false));
    assert(s0 == 0);
    let mut i: usize = 0;
    while i < tab.trip.len()
        invariant
            tab.inv(*a, *b),
            a.wf(),
            b.wf(),
            n1 as int == a.n(),
            n2 as int == b.n(),
            a.start == Some(sa),
            b.start == Some(sb),
            tab.trip@.len() >= 1,
            tab.trip@[0] == (sa, sb, false),
            i <= tab.trip@.len(),
            forall|j: int| 0 <= j < i ==> row_ok(*a, *b, tab, tab.trip@[j], #[trigger] tab.rows@[j]@),
            forall|j: int| 0 <= j < i ==> row_complete(*a, *b, tab.trip@, tab.trip@[j], #[trigger] tab.rows@[j]@),
            forall|j: int| i <= j < tab.rows@.len() ==> (#[trigger] tab.rows@[j])@.len() == 0,
        decreases a.n() * b.n() * 2 - i,
    {
        proof {
            tab.lemma_bounded(*a, *b);
        }
        let t = tab.trip[i];
        let ghost tb = tab;
        let row = compose_row(&mut tab, a, b, t);
        let ghost tc = tab;
        proof {
            assert forall|j: int| 0 <= j < i implies row_ok(*a, *b, tc, tc.trip@[j], #[trigger] tc.rows@[j]@) by {
                assert(tc.rows@[j] == tb.rows@[j]);
                assert(tc.trip@[j] == tb.trip@[j]);
                lemma_row_ok_grow(*a, *b, tb, tc, tb.trip@[j], tb.rows@[j]@);
            }
            assert forall|j: int| 0 <= j < i implies row_complete(*a, *b, tc.trip@, tc.trip@[j], #[trigger] tc.rows@[j]@) by {
                assert(tc.rows@[j] == tb.rows@[j]);
                assert(tc.trip@[j] == tb.trip@[j]);
                let tj = tb.trip@[j];
                assert(row_complete(*a, *b, tb.trip@, tj, tb.rows@[j]@));
                lemma_done_grow(*a, *b, tb.trip@, tc.trip@, tj, tb.rows@[j]@, tb.rows@[j]@, 0, 0, a.deg(tj.0 as int), b.deg(tj.1 as int));
            }
            assert forall|j: int| i < j < tc.rows@.len() implies (#[trigger] tc.rows@[j])@.len() == 0 by {
                if j < tb.rows@.len() {
                    assert(tc.rows@[j] == tb.rows@[j]);
                } else {
                    assert(tc.trip@.len() > tb.trip@.len());
                }
            }
        }
        tab.rows.set(i, row);
        proof {
            assert(tab.slot0 == tc.slot0);
            assert(tab.slot1 == tc.slot1);
            assert(tab.trip == tc.trip);
            assert(tab.finals == tc.finals);
            assert(tab.rows@.len() == tc.rows@.len());
            assert forall|t: Triple| #[trigger] tab.slot(t) == tc.slot(t) by {}
            assert(tab.inv(*a, *b));
            assert forall|j: int| 0 <= j < i + 1 implies row_ok(*a, *b, tab, tab.trip@[j], #[trigger] tab.rows@[j]@) by {
                if j < i {
                    assert(tab.rows@[j] == tc.rows@[j]);
                }
            }
            assert forall|j: int| 0 <= j < i + 1 implies row_complete(*a, *b, tab.trip@, tab.trip@[j], #[trigger] tab.rows@[j]@) by {
                if j < i {
                    assert(tab.rows@[j] == tc.rows@[j]);
                }
            }
            assert forall|j: int| i + 1 <= j < tab.rows@.len() implies (#[trigger] tab.rows@[j])@.len() == 0 by {
                assert(tab.rows@[j] == tc.rows@[j]);
            }
        }
        i = i + 1;
    }
    let ghost trip = tab.trip@;
    let r = Fst { start: Some(0), finals: tab.finals, arcs: tab.rows };
    proof {
        assert forall|s: int, k: int| 0 <= s < r.n() && 0 <= k < r.deg(s) implies #[trigger] r.arc(s, k).nextstate < r.n() by {
            assert(row_ok(*a, *b, tab, tab.trip@[s], tab.rows@[s]@));
            assert(r.arc(s, k) == tab.rows@[s]@[k]);
        }
        assert forall|s: int, k: int| 0 <= s < r.n() && 0 <= k < r.deg(s) implies justified_arc(*a, *b, trip[s], trip[r.arc(s, k).nextstate as int], #[trigger] r.arc(s, k)) by {
            assert(row_ok(*a, *b, tab, tab.trip@[s], tab.rows@[s]@));
            assert(r.arc(s, k) == tab.rows@[s]@[k]);
        }
        assert forall|s: int| 0 <= s < r.n() implies (#[trigger] trip[s]).0 < a.n() && trip[s].1 < b.n() by {
        }
        assert(compose_witness(*a, *b, r, trip));
        assert forall|s: int| 0 <= s < r.n() implies row_complete(*a, *b, trip, trip[s], #[trigger] r.rows()[s]) by {
            assert(r.rows()[s] == tab.rows@[s]@);
        }
        assert(compose_complete(*a, *b, r, trip));
    }
    r
}

/// Acceptor intersection `L(a) ∩ L(b)`, computed as the composition of the
/// two identity machines.
pub fn intersect(a: &Fst, b: &Fst) -> (r: Fst)
    requires
        a.wf(),
        b.wf(),
    ensures
        composes(*a, *b, r),
        r.wf(),
        (a.start is Some && b.start is Some) <==> r.start is Some,
        exists|trip: Seq<Triple>| compose_witness(*a, *b, r, trip),
{
    compose(a, b)
}

} // verus!

verus! {

// ---------------------------------------------------------------------------
// Epsilon removal.
// ---------------------------------------------------------------------------

/// Distinct indices below `n` are at most `n`.
pub proof fn lemma_distinct_bounded(s: Seq<usize>, n: int)
    requires
        n >= 0,
        forall|i: int| 0 <= i < s.len() ==> (#[trigger] s[i] as int) < n,
        forall|i: int, j: int| 0 <= i < j < s.len() ==> s[i] != s[j],
    ensures
        s.len() <= n,
{
    let codes = s.map_values(|x: usize| x as int);
    assert forall|i: int, j: int| 0 <= i < codes.len() && 0 <= j < codes.len() && i != j implies codes[i] != codes[j] by {
        if i < j { assert(s[i] != s[j]); } else { assert(s[j] != s[i]); }
    }
    codes.unique_seq_to_set();
    lemma_int_range(0, n);
    assert forall|x: int| codes.to_set().contains(x) implies set_int_range(0, n).contains(x) by {
        let i = choose|i: int| 0 <= i < codes.len() && codes[i] == x;
        assert((s[i] as int) < n);
    }
    lemma_len_subset(codes.to_set(), set_int_range(0, n));
    assert(codes.len() == s.len());
}

/// `steps` is a run of `f` from `from` to `to` over arcs that read and
/// write epsilon.
pub open spec fn eps_path(f: Fst, from: int, steps: Seq<int>, to: int) -> bool
    decreases steps.len(),
{
    if steps.len() == 0 {
        from == to
    } else {
        &&& 0 <= from < f.n()
        &&& 0 <= steps[0] < f.deg(from)
        &&& f.arc(from, steps[0]).ilabel == EPS_LABEL
        &&& f.arc(from, steps[0]).olabel == EPS_LABEL
        &&& eps_path(f, f.arc(from, steps[0]).nextstate as int, steps.drop_first(), to)
    }
}

/// `q` is reachable from `p` over arcs that read and write epsilon.
pub open spec fn eps_reach(f: Fst, p: int, q: int) -> bool {
    exists|steps: Seq<int>| #[trigger] eps_path(f, p, steps, q)
}

/// An epsilon path extended by one epsilon arc.
pub proof fn lemma_eps_path_push(f: Fst, p: int, steps: Seq<int>, m: int, k: int)
    requires
        eps_path(f, p, steps, m),
        0 <= m < f.n(),
        0 <= k < f.deg(m),
        f.arc(m, k).ilabel == EPS_LABEL,
        f.arc(m, k).olabel == EPS_LABEL,
    ensures
        eps_path(f, p, steps.push(k), f.arc(m, k).nextstate as int),
    decreases steps.len(),
{
    if steps.len() == 0 {
        let nx = f.arc(m, k).nextstate as int;
        assert(steps.push(k).drop_first() =~= Seq::<int>::empty());
        assert(steps.push(k)[0] == k);
        assert(eps_path(f, nx, Seq::<int>::empty(), nx));
    } else {
        lemma_eps_path_push(f, f.arc(p, steps[0]).nextstate as int, steps.drop_first(), m, k);
        assert(steps.push(k).drop_first() =~= steps.drop_first().push(k));
        assert(steps.push(k)[0] == steps[0]);
    }
}

/// The states reachable from `s` through arcs reading and writing epsilon
/// (including `s` itself), in discovery order, without repeats.
fn eps_closure(a: &Fst, s: StateId) -> (order: Vec<StateId>)
    requires
        a.wf(),
        (s as int) < a.n(),
    ensures
        order@.len() >= 1,
        order@[0] == s,
        forall|i: int| 0 <= i < order@.len() ==> (#[trigger] order@[i] as int) < a.n(),
        forall|i: int| 0 <= i < order@.len() ==> eps_reach(*a, s as int, #[trigger] order@[i] as int),
        forall|q: int| 0 <= q < a.n() && #[trigger] eps_reach(*a, s as int, q) ==> order@.contains(q as usize),
{
    let n = a.arcs.len();
    let mut seen: Vec<bool> = Vec::new();
    let mut q: usize = 0;
    while q < n
        invariant
            q <= n,
            seen@.len() == q,
            forall|j: int| 0 <= j < q ==> !#[trigger] seen@[j],
        decreases n - q,
    {
        seen.push(false);
        q = q + 1;
    }
    let ghost seen0 = seen@;
    seen.set(s, true);
    let mut order: Vec<StateId> = Vec::new();
    order.push(s);
    proof {
        assert forall|x: int| 0 <= x < n && #[trigger] seen@[x] implies exists|i: int| 0 <= i < order@.len() && order@[i] == x by {
            if x != s as int {
                assert(!seen0[x]);
            }
            assert(order@[0] == s);
        }
        assert(eps_path(*a, s as int, Seq::<int>::empty(), s as int));
    }
    let mut idx: usize = 0;
    while idx < order.len()
        invariant
            a.wf(),
            n as int == a.n(),
            seen@.len() == n,
            order@.len() >= 1,
            order@[0] == s,
            idx <= order@.len(),
            forall|i: int| 0 <= i < order@.len() ==> (#[trigger] order@[i] as int) < n,
            forall|i: int| 0 <= i < order@.len() ==> seen@[#[trigger] order@[i] as int],
            forall|i: int, j: int| 0 <= i < j < order@.len() ==> order@[i] != order@[j],
            forall|x: int| 0 <= x < n && #[trigger] seen@[x] ==> exists|i: int| 0 <= i < order@.len() && order@[i] == x,
            forall|i: int| 0 <= i < order@.len() ==> eps_reach(*a, s as int, #[trigger] order@[i] as int),
            forall|i: int, k: int| 0 <= i < idx && 0 <= k < a.deg(order@[i] as int) && #[trigger] a.arc(order@[i] as int, k).ilabel == EPS_LABEL
                && a.arc(order@[i] as int, k).olabel == EPS_LABEL ==> seen@[a.arc(order@[i] as int, k).nextstate as int],
        decreases n - idx,
    {
        proof {
            lemma_distinct_bounded(order@, n as int);
        }
        let c = order[idx];
        let mut k: usize = 0;
        while k < a.arcs[c].len()
            invariant
                a.wf(),
                n as int == a.n(),
                (c as int) < n,
                seen@.len() == n,
                k <= a.deg(c as int),
                order@.len() >= 1,
                order@[0] == s,
                idx < order@.len(),
                forall|i: int| 0 <= i < order@.len() ==> (#[trigger] order@[i] as int) < n,
                forall|i: int| 0 <= i < order@.len() ==> seen@[#[trigger] order@[i] as int],
                forall|i: int, j: int| 0 <= i < j < order@.len() ==> order@[i] != order@[j],
                forall|x: int| 0 <= x < n && #[trigger] seen@[x] ==> exists|i: int| 0 <= i < order@.len() && order@[i] == x,
                forall|i: int| 0 <= i < order@.len() ==> eps_reach(*a, s as int, #[trigger] order@[i] as int),
                c == order@[idx as int],
                forall|i: int, j: int| 0 <= i < idx && 0 <= j < a.deg(order@[i] as int) && #[trigger] a.arc(order@[i] as int, j).ilabel == EPS_LABEL
                    && a.arc(order@[i] as int, j).olabel == EPS_LABEL ==> seen@[a.arc(order@[i] as int, j).nextstate as int],
                forall|j: int| 0 <= j < k && #[trigger] a.arc(c as int, j).ilabel == EPS_LABEL
                    && a.arc(c as int, j).olabel == EPS_LABEL ==> seen@[a.arc(c as int, j).nextstate as int],
            decreases a.deg(c as int) - k,
        {
            let e = a.arcs[c][k];
            assert(e == a.arc(c as int, k as int));
            if e.ilabel == EPS_LABEL && e.olabel == EPS_LABEL && !seen[e.nextstate] {
                let t = e.nextstate;
                let ghost o0 = order@;
                let ghost s0 = seen@;
                seen.set(t, true);
                order.push(t);
                proof {
                    assert(eps_reach(*a, s as int, c as int));
                    let cp = choose|st: Seq<int>| #[trigger] eps_path(*a, s as int, st, c as int);
                    lemma_eps_path_push(*a, s as int, cp, c as int, k as int);
                    assert(eps_path(*a, s as int, cp.push(k as int), t as int));
                    assert forall|i: int| 0 <= i < order@.len() implies eps_reach(*a, s as int, #[trigger] order@[i] as int) by {
                        if i < o0.len() {
                            assert(order@[i] == o0[i]);
                        }
                    }
                    assert forall|i: int| 0 <= i < order@.len() implies seen@[#[trigger] order@[i] as int] by {
                        if i < o0.len() { assert(s0[o0[i] as int]); }
                    }
                    assert forall|i: int, j: int| 0 <= i < j < order@.len() implies order@[i] != order@[j] by {
                        if j == o0.len() {
                            assert(s0[o0[i] as int]);
                        }
                    }
                    assert forall|x: int| 0 <= x < n && #[trigger] seen@[x] implies exists|i: int| 0 <= i < order@.len() && order@[i] == x by {
                        if x == t as int {
                            assert(order@[o0.len() as int] == t);
                        } else {
                            assert(s0[x]);
                            let i = choose|i: int| 0 <= i < o0.len() && o0[i] == x;
                            assert(order@[i] == x);
                        }
                    }
                }
            }
            k = k + 1;
        }
        idx = idx + 1;
    }
    proof {
        assert forall|x: int| 0 <= x < n && seen@[x] implies order@.contains(x as usize) by {
            let i = choose|i: int| 0 <= i < order@.len() && order@[i] == x;
        }
        assert forall|q: int| 0 <= q < a.n() && #[trigger] eps_reach(*a, s as int, q) implies order@.contains(q as usize) by {
            let st = choose|st: Seq<int>| #[trigger] eps_path(*a, s as int, st, q);
            assert(order@.contains(s));
            assert forall|i: int, k: int| 0 <= i < order@.len() && 0 <= k < a.deg(order@[i] as int) && #[trigger] a.arc(order@[i] as int, k).ilabel == EPS_LABEL
                && a.arc(order@[i] as int, k).olabel == EPS_LABEL implies order@.contains(a.arc(order@[i] as int, k).nextstate) by {
                assert(seen@[a.arc(order@[i] as int, k).nextstate as int]);
            }
            lemma_eps_closed(*a, order@, s as int, st, q);
        }
    }
    order
}

/// A set of states that holds `p` and every target of an epsilon arc
/// leaving one of its states holds every state an epsilon path from `p`
/// reaches.
proof fn lemma_eps_closed(a: Fst, order: Seq<usize>, p: int, steps: Seq<int>, q: int)
    requires
        a.wf(),
        a.n() <= usize::MAX,
        order.contains(p as usize),
        0 <= p < a.n(),
        forall|i: int| 0 <= i < order.len() ==> (#[trigger] order[i] as int) < a.n(),
        forall|i: int, k: int| 0 <= i < order.len() && 0 <= k < a.deg(order[i] as int) && #[trigger] a.arc(order[i] as int, k).ilabel == EPS_LABEL
            && a.arc(order[i] as int, k).olabel == EPS_LABEL ==> order.contains(a.arc(order[i] as int, k).nextstate),
        eps_path(a, p, steps, q),
    ensures
        order.contains(q as usize),
    decreases steps.len(),
{
    if steps.len() > 0 {
        let i = choose|i: int| 0 <= i < order.len() && order[i] == p as usize;
        let k = steps[0];
        assert(order[i] as int == p);
        assert(a.arc(order[i] as int, k).ilabel == EPS_LABEL);
        let nx = a.arc(p, k).nextstate;
        assert(order.contains(nx));
        assert(nx < a.n());
        lemma_eps_closed(a, order, nx as int, steps.drop_first(), q);
    }
}

/// `e` reads and writes epsilon.
pub open spec fn is_eps_arc(e: Arc) -> bool {
    e.ilabel == EPS_LABEL && e.olabel == EPS_LABEL
}

/// `row` lists arc `e`.
pub open spec fn listed(row: Seq<Arc>, e: Arc) -> bool {
    exists|x: int| 0 <= x < row.len() && #[trigger] row[x] == e
}

/// Every arc of `row` is an arc of `a` leaving a state that an epsilon
/// path from `p` reaches.
pub open spec fn erow_sound(a: Fst, p: int, row: Seq<Arc>) -> bool {
    forall|x: int|
        0 <= x < row.len() ==> exists|q: int, k: int|
            #![trigger a.arc(q, k)]
            0 <= q < a.n() && eps_reach(a, p, q) && 0 <= k < a.deg(q) && #[trigger] row[x] == a.arc(q, k)
}

/// Every arc of `a` that does not read and write epsilon, leaving a state
/// that an epsilon path from `p` reaches, is listed in `row`.
pub open spec fn erow_complete(a: Fst, p: int, row: Seq<Arc>) -> bool {
    forall|q: int, k: int|
        #![trigger eps_reach(a, p, q), a.arc(q, k)]
        0 <= q < a.n() && eps_reach(a, p, q) && 0 <= k < a.deg(q) && !is_eps_arc(a.arc(q, k)) ==> listed(row, a.arc(q, k))
}

/// `fin` tells whether an epsilon path from `p` reaches a final state.
pub open spec fn efinal(a: Fst, p: int, fin: bool) -> bool {
    fin == exists|q: int| 0 <= q < a.n() && #[trigger] eps_reach(a, p, q) && a.finals@[q]
}

/// `r` is `a` with its epsilon arcs removed: same states and start, each
/// state listing the non-epsilon arcs of the states its epsilon paths
/// reach, and final when one of those is.
pub open spec fn eps_removes(r: Fst, a: Fst) -> bool {
    &&& r.wf()
    &&& r.n() == a.n()
    &&& r.n() <= usize::MAX
    &&& r.start == a.start
    &&& forall|p: int| 0 <= p < r.n() ==> erow_sound(a, p, #[trigger] r.rows()[p])
    &&& forall|p: int| 0 <= p < r.n() ==> erow_complete(a, p, #[trigger] r.rows()[p])
    &&& forall|p: int| 0 <= p < r.n() ==> efinal(a, p, #[trigger] r.finals@[p])
    &&& forall|s: int, k: int| 0 <= s < r.n() && 0 <= k < r.deg(s) ==>
            !(#[trigger] r.arc(s, k).ilabel == EPS_LABEL && r.arc(s, k).olabel == EPS_LABEL)
}

/// A listed arc stays listed when the row grows.
proof fn lemma_listed_push(row: Seq<Arc>, z: Arc, e: Arc)
    requires
        listed(row, e) || z == e,
    ensures
        listed(row.push(z), e),
{
    if z == e {
        assert(row.push(z)[row.len() as int] == z);
    } else {
        let x = choose|x: int| 0 <= x < row.len() && #[trigger] row[x] == e;
        assert(row.push(z)[x] == row[x]);
    }
}

/// Remove arcs that read and write epsilon. Each state takes over the
/// non-epsilon arcs, and the final flag, of every state in its epsilon
/// closure; states and the start state are kept.
pub fn eps_remove(a: &Fst) -> (r: Fst)
    requires
        a.wf(),
    ensures
        eps_removes(r, *a),
        r.wf(),
        r.n() == a.n(),
        r.start == a.start,
        forall|s: int, k: int| 0 <= s < r.n() && 0 <= k < r.deg(s) ==>
            !(#[trigger] r.arc(s, k).ilabel == EPS_LABEL && r.arc(s, k).olabel == EPS_LABEL),
{
    let n = a.arcs.len();
    let mut finals: Vec<bool> = Vec::new();
    let mut rows: Vec<Vec<Arc>> = Vec::new();
    let mut s: usize = 0;
    while s < n
        invariant
            a.wf(),
            n as int == a.n(),
            s <= n,
            finals@.len() == s,
            rows@.len() == s,
            forall|p: int, k: int| 0 <= p < s && 0 <= k < rows@[p]@.len() ==> (#[trigger] rows@[p]@[k]).nextstate < n,
            forall|p: int, k: int| 0 <= p < s && 0 <= k < rows@[p]@.len() ==>
                !(#[trigger] rows@[p]@[k].ilabel == EPS_LABEL && rows@[p]@[k].olabel == EPS_LABEL),
            forall|p: int| 0 <= p < s ==> erow_sound(*a, p, #[trigger] rows@[p]@),
            forall|p: int| 0 <= p < s ==> erow_complete(*a, p, #[trigger] rows@[p]@),
            forall|p: int| 0 <= p < s ==> efinal(*a, p, #[trigger] finals@[p]),
        decreases n - s,
    {
        let closure = eps_closure(a, s);
        let mut fin = false;
        let mut row: Vec<Arc> = Vec::new();
        let mut ci: usize = 0;
        while ci < closure.len()
            invariant
                a.wf(),
                n as int == a.n(),
                (s as int) < n,
                ci <= closure@.len(),
                forall|i: int| 0 <= i < closure@.len() ==> (#[trigger] closure@[i] as int) < n,
                forall|i: int| 0 <= i < closure@.len() ==> eps_reach(*a, s as int, #[trigger] closure@[i] as int),
                forall|k: int| 0 <= k < row@.len() ==> (#[trigger] row@[k]).nextstate < n,
                forall|k: int| 0 <= k < row@.len() ==> !(#[trigger] row@[k].ilabel == EPS_LABEL && row@[k].olabel == EPS_LABEL),
                erow_sound(*a, s as int, row@),
                forall|j: int, k: int|
                    #![trigger a.arc(closure@[j] as int, k)]
                    0 <= j < ci && 0 <= k < a.deg(closure@[j] as int) && !is_eps_arc(a.arc(closure@[j] as int, k))
                        ==> listed(row@, a.arc(closure@[j] as int, k)),
                fin == exists|j: int| 0 <= j < ci && #[trigger] a.finals@[closure@[j] as int],
            decreases closure@.len() - ci,
        {
            let c = closure[ci];
            if a.finals[c] {
                fin = true;
            }
            let ghost row_c = row@;
            let mut k: usize = 0;
            while k < a.arcs[c].len()
                invariant
                    a.wf(),
                    n as int == a.n(),
                    (c as int) < n,
                    c == closure@[ci as int],
                    ci < closure@.len(),
                    eps_reach(*a, s as int, c as int),
                    k <= a.deg(c as int),
                    forall|j: int| 0 <= j < row@.len() ==> (#[trigger] row@[j]).nextstate < n,
                    forall|j: int| 0 <= j < row@.len() ==> !(#[trigger] row@[j].ilabel == EPS_LABEL && row@[j].olabel == EPS_LABEL),
                    erow_sound(*a, s as int, row@),
                    row_c.len() <= row@.len(),
                    forall|x: int| 0 <= x < row_c.len() ==> #[trigger] row@[x] == row_c[x],
                    forall|j: int|
                        #![trigger a.arc(c as int, j)]
                        0 <= j < k && !is_eps_arc(a.arc(c as int, j)) ==> listed(row@, a.arc(c as int, j)),
                    forall|j: int, kk: int|
                        #![trigger a.arc(closure@[j] as int, kk)]
                        0 <= j < ci && 0 <= kk < a.deg(closure@[j] as int) && !is_eps_arc(a.arc(closure@[j] as int, kk))
                            ==> listed(row_c, a.arc(closure@[j] as int, kk)),
                decreases a.deg(c as int) - k,
            {
                let e = a.arcs[c][k];
                assert(e == a.arc(c as int, k as int));
                if !(e.ilabel == EPS_LABEL && e.olabel == EPS_LABEL) {
                    let ghost r0 = row@;
                    row.push(e);
                    proof {
                        assert forall|x: int| 0 <= x < row@.len() implies exists|q: int, kk: int|
                            #![trigger a.arc(q, kk)]
                            0 <= q < a.n() && eps_reach(*a, s as int, q) && 0 <= kk < a.deg(q) && #[trigger] row@[x] == a.arc(q, kk) by {
                            if x < r0.len() {
                                assert(row@[x] == r0[x]);
                            } else {
                                assert(row@[x] == a.arc(c as int, k as int));
                            }
                        }
                        assert forall|j: int|
                            #![trigger a.arc(c as int, j)]
                            0 <= j < k + 1 && !is_eps_arc(a.arc(c as int, j)) implies listed(row@, a.arc(c as int, j)) by {
                            if j < k {
                                lemma_listed_push(r0, e, a.arc(c as int, j));
                            } else {
                                lemma_listed_push(r0, e, e);
                            }
                        }
                        assert forall|x: int| 0 <= x < row_c.len() implies #[trigger] row@[x] == row_c[x] by {
                            assert(row@[x] == r0[x]);
                        }
                    }
                }
                k = k + 1;
            }
            proof {
                assert forall|j: int, kk: int|
                    #![trigger a.arc(closure@[j] as int, kk)]
                    0 <= j < ci + 1 && 0 <= kk < a.deg(closure@[j] as int) && !is_eps_arc(a.arc(closure@[j] as int, kk))
                        implies listed(row@, a.arc(closure@[j] as int, kk)) by {
                    if j < ci {
                        let e = a.arc(closure@[j] as int, kk);
                        assert(listed(row_c, e));
                        let x = choose|x: int| 0 <= x < row_c.len() && #[trigger] row_c[x] == e;
                        assert(row@[x] == row_c[x]);
                    }
                }
                if fin {
                    if !a.finals@[c as int] {
                        let j = choose|j: int| 0 <= j < ci && #[trigger] a.finals@[closure@[j] as int];
                    }
                    assert(exists|j: int| 0 <= j < ci + 1 && #[trigger] a.finals@[closure@[j] as int]);
                }
            }
            ci = ci + 1;
        }
        proof {
            assert forall|q: int, kk: int|
                #![trigger eps_reach(*a, s as int, q), a.arc(q, kk)]
                0 <= q < a.n() && eps_reach(*a, s as int, q) && 0 <= kk < a.deg(q) && !is_eps_arc(a.arc(q, kk)) implies listed(row@, a.arc(q, kk)) by {
                assert(closure@.contains(q as usize));
                let j = choose|j: int| 0 <= j < closure@.len() && closure@[j] == q as usize;
                assert(closure@[j] as int == q);
                assert(!is_eps_arc(a.arc(closure@[j] as int, kk)));
            }
            if fin {
                let j = choose|j: int| 0 <= j < closure@.len() && #[trigger] a.finals@[closure@[j] as int];
                assert(eps_reach(*a, s as int, closure@[j] as int));
            }
            if exists|q: int| 0 <= q < a.n() && #[trigger] eps_reach(*a, s as int, q) && a.finals@[q] {
                let q = choose|q: int| 0 <= q < a.n() && #[trigger] eps_reach(*a, s as int, q) && a.finals@[q];
                assert(closure@.contains(q as usize));
                let j = choose|j: int| 0 <= j < closure@.len() && closure@[j] == q as usize;
                assert(closure@[j] as int == q);
                assert(a.finals@[closure@[j] as int]);
            }
        }
        let ghost rows0 = rows@;
        let ghost finals0 = finals@;
        finals.push(fin);
        rows.push(row);
        proof {
            assert forall|p: int| 0 <= p < s + 1 implies erow_sound(*a, p, #[trigger] rows@[p]@) by {
                if p < s { assert(rows@[p] == rows0[p]); }
            }
            assert forall|p: int| 0 <= p < s + 1 implies erow_complete(*a, p, #[trigger] rows@[p]@) by {
                if p < s { assert(rows@[p] == rows0[p]); }
            }
            assert forall|p: int| 0 <= p < s + 1 implies efinal(*a, p, #[trigger] finals@[p]) by {
                if p < s { assert(finals@[p] == finals0[p]); }
            }
        }
        s = s + 1;
    }
    let r = Fst { start: a.start, finals, arcs: rows };
    proof {
        assert forall|p: int, k: int| 0 <= p < r.n() && 0 <= k < r.deg(p) implies #[trigger] r.arc(p, k).nextstate < r.n() by {
            assert(r.arc(p, k) == rows@[p]@[k]);
        }
        assert forall|p: int, k: int| 0 <= p < r.n() && 0 <= k < r.deg(p) implies
            !(#[trigger] r.arc(p, k).ilabel == EPS_LABEL && r.arc(p, k).olabel == EPS_LABEL) by {
            assert(r.arc(p, k) == rows@[p]@[k]);
        }
        assert forall|p: int| 0 <= p < r.n() implies erow_sound(*a, p, #[trigger] r.rows()[p]) by {
            assert(r.rows()[p] == rows@[p]@);
        }
        assert forall|p: int| 0 <= p < r.n() implies erow_complete(*a, p, #[trigger] r.rows()[p]) by {
            assert(r.rows()[p] == rows@[p]@);
        }
        assert(r.arcs.len() == r.arcs@.len());
    }
    r
}

} // verus!

verus! {

// ---------------------------------------------------------------------------
// Determinisation and complement.
// ---------------------------------------------------------------------------

/// One mixing step: `h * 1099511628211 + (x ^ 0x9e3779b9)`, wrapping.
pub open spec fn spec_hash_step(h: u64, x: u64) -> u64 {
    vstd::wrapping::u64_specs::wrapping_add(
        vstd::wrapping::u64_specs::wrapping_mul(h, 1099511628211u64),
        x ^ 0x9e37_79b9u64,
    )
}

/// The hash of a state subset: the steps folded over its members from the
/// offset basis.
pub open spec fn spec_hash_states(v: Seq<usize>) -> u64
    decreases v.len(),
{
    if v.len() == 0 {
        14695981039346656037u64
    } else {
        spec_hash_step(spec_hash_states(v.drop_last()), v.last() as u64)
    }
}

/// Mixing step of the subset / signature hash.
fn hash_step(h: u64, x: u64) -> (r: u64)
    ensures
        r == spec_hash_step(h, x),
{
    h.wrapping_mul(1099511628211).wrapping_add(x ^ 0x9e37_79b9)
}

fn hash_states(v: &Vec<usize>) -> (r: u64)
    ensures
        r == spec_hash_states(v@),
{
    let mut h: u64 = 14695981039346656037;
    let mut i: usize = 0;
    while i < v.len()
        invariant
            i <= v@.len(),
            h == spec_hash_states(v@.take(i as int)),
        decreases v@.len() - i,
    {
        proof {
            assert(v@.take(i + 1).drop_last() =~= v@.take(i as int));
        }
        h = hash_step(h, v[i] as u64);
        i = i + 1;
    }
    proof {
        assert(v@.take(v@.len() as int) =~= v@);
    }
    h
}

fn same_states(a: &Vec<usize>, b: &Vec<usize>) -> (r: bool)
    ensures
        r == (a@ == b@),
{
    if a.len() != b.len() {
        return false;
    }
    let mut i: usize = 0;
    while i < a.len()
        invariant
            a@.len() == b@.len(),
            i <= a@.len(),
            forall|j: int| 0 <= j < i ==> a@[j] == b@[j],
        decreases a@.len() - i,
    {
        if a[i] != b[i] {
            return false;
        }
        i = i + 1;
    }
    assert(a@ =~= b@);
    true
}

/// The states ascend strictly.
pub open spec fn strictly_sorted(v: Seq<usize>) -> bool {
    forall|i: int, j: int| 0 <= i < j < v.len() ==> #[trigger] v[i] < #[trigger] v[j]
}

/// Insert `x` into an ascending list unless present.
fn insert_sorted(v: &mut Vec<usize>, x: usize)
    ensures
        forall|i: int| 0 <= i < final(v)@.len() ==> (#[trigger] final(v)@[i] == x || old(v)@.contains(final(v)@[i])),
        final(v)@.contains(x),
        forall|y: usize| old(v)@.contains(y) ==> #[trigger] final(v)@.contains(y),
        strictly_sorted(old(v)@) ==> strictly_sorted(final(v)@),
{
    let mut i: usize = 0;
    while i < v.len() && v[i] < x
        invariant
            i <= v@.len(),
            forall|k: int| 0 <= k < i ==> #[trigger] v@[k] < x,
        decreases v@.len() - i,
    {
        i = i + 1;
    }
    if i < v.len() && v[i] == x {
        proof {
            assert(v@[i as int] == x);
        }
        return;
    }
    let ghost v0 = v@;
    v.insert(i, x);
    proof {
        if strictly_sorted(v0) {
            assert forall|p: int, q: int| 0 <= p < q < v@.len() implies #[trigger] v@[p] < #[trigger] v@[q] by {
                if q < i {
                    assert(v@[p] == v0[p] && v@[q] == v0[q]);
                } else if q == i {
                    assert(v@[p] == v0[p]);
                } else if p == i {
                    assert(v@[q] == v0[q - 1]);
                    assert(v0[i as int] > x);
                    if q - 1 > i {
                        assert(v0[i as int] < v0[q - 1]);
                    }
                } else if p < i {
                    assert(v@[p] == v0[p] && v@[q] == v0[q - 1]);
                    assert(v0[i as int] > x);
                    if q - 1 > i {
                        assert(v0[i as int] < v0[q - 1]);
                    }
                } else {
                    assert(v@[p] == v0[p - 1] && v@[q] == v0[q - 1]);
                }
            }
        }
        assert forall|j: int| 0 <= j < v@.len() implies (#[trigger] v@[j] == x || v0.contains(v@[j])) by {
            if j < i {
                assert(v@[j] == v0[j]);
            } else if j > i {
                assert(v@[j] == v0[j - 1]);
            }
        }
        assert(v@[i as int] == x);
        assert forall|y: usize| v0.contains(y) implies #[trigger] v@.contains(y) by {
            let j = choose|j: int| 0 <= j < v0.len() && v0[j] == y;
            if j < i {
                assert(v@[j] == v0[j]);
            } else {
                assert(v@[j + 1] == v0[j]);
            }
        }
    }
}

fn copy_states(v: &Vec<usize>) -> (r: Vec<usize>)
    ensures
        r@ == v@,
{
    let mut r: Vec<usize> = Vec::new();
    let mut i: usize = 0;
    while i < v.len()
        invariant
            i <= v@.len(),
            r@ == v@.take(i as int),
        decreases v@.len() - i,
    {
        r.push(v[i]);
        proof { assert(v@.take(i as int + 1) =~= v@.take(i as int).push(v@[i as int])); }
        i = i + 1;
    }
    proof { assert(v@.take(v@.len() as int) =~= v@); }
    r
}

/// Working state of a subset construction.
struct DetTable {
    subsets: Vec<Vec<usize>>,
    chain: Vec<Option<usize>>,
    head: std::collections::HashMap<u64, usize>,
    finals: Vec<bool>,
    rows: Vec<Vec<Arc>>,
}

/// Some state of `set` is final in `a`.
pub open spec fn set_final(a: Fst, set: Seq<usize>) -> bool {
    exists|j: int| 0 <= j < set.len() && #[trigger] a.finals@[set[j] as int]
}

impl DetTable {
    spec fn sets(&self) -> Seq<Seq<usize>> {
        self.subsets@.map_values(|v: Vec<usize>| v@)
    }

    spec fn inv(&self, a: Fst) -> bool {
        &&& forall|i: int| 0 <= i < self.subsets@.len() ==> #[trigger] self.finals@[i] == set_final(a, self.subsets@[i]@)
        &&& self.subsets@.len() == self.chain@.len()
        &&& self.subsets@.len() == self.finals@.len()
        &&& self.subsets@.len() == self.rows@.len()
        &&& forall|i: int| 0 <= i < self.subsets@.len() ==> strictly_sorted(#[trigger] self.subsets@[i]@)
        &&& forall|i: int, j: int| 0 <= i < j < self.subsets@.len() ==> (#[trigger] self.subsets@[i])@ != (#[trigger] self.subsets@[j])@
        &&& forall|i: int, j: int| 0 <= i < self.subsets@.len() && 0 <= j < self.subsets@[i]@.len() ==> (#[trigger] self.subsets@[i]@[j] as int) < a.n()
        &&& forall|i: int| 0 <= i < self.chain@.len() ==> (#[trigger] self.chain@[i] matches Some(p) ==> (p as int) < i)
    }

    /// The index of the subset equal to `set`, found by scanning the table.
    fn find_subset(&self, set: &Vec<usize>) -> (r: Option<usize>)
        ensures
            match r {
                Some(j) => (j as int) < self.subsets@.len() && self.subsets@[j as int]@ == set@,
                None => forall|j: int| 0 <= j < self.subsets@.len() ==> (#[trigger] self.subsets@[j])@ != set@,
            },
    {
        let mut j: usize = 0;
        while j < self.subsets.len()
            invariant
                j <= self.subsets@.len(),
                forall|k: int| 0 <= k < j ==> (#[trigger] self.subsets@[k])@ != set@,
            decreases self.subsets@.len() - j,
        {
            if same_states(&self.subsets[j], set) {
                return Some(j);
            }
            j = j + 1;
        }
        None
    }

    /// The state for subset `set`, created when new.
    fn lookup_or_add(&mut self, a: &Fst, set: Vec<usize>) -> (r: Option<usize>)
        requires
            old(self).inv(*a),
            a.wf(),
            forall|j: int| 0 <= j < set@.len() ==> (#[trigger] set@[j] as int) < a.n(),
            strictly_sorted(set@),
        ensures
            final(self).inv(*a),
            r is Some,
            final(self).subsets@.len() >= old(self).subsets@.len(),
            forall|i: int| 0 <= i < old(self).rows@.len() ==> #[trigger] final(self).rows@[i] == old(self).rows@[i],
            forall|i: int| old(self).rows@.len() <= i < final(self).rows@.len() ==> (#[trigger] final(self).rows@[i])@.len() == 0,
            forall|i: int| 0 <= i < old(self).subsets@.len() ==> #[trigger] final(self).subsets@[i] == old(self).subsets@[i],
            final(self).subsets@.len() <= old(self).subsets@.len() + 1,
            r matches Some(s) ==> (s as int) < final(self).subsets@.len() && final(self).subsets@[s as int]@ == set@,
    {
        let h = hash_states(&set);
        let mut cur: Option<usize> = match self.head.get(&h) {
            Some(x) => Some(*x),
            None => None,
        };
        loop
            invariant
                self.inv(*a),
                a.wf(),
            decreases (match cur { Some(c) => c as int + 1, None => 0 }),
        {
            match cur {
                Some(c) => {
                    if c >= self.subsets.len() {
                        break;
                    }
                    if same_states(&self.subsets[c], &set) {
                        return Some(c);
                    }
                    let next = self.chain[c];
                    cur = next;
                },
                None => {
                    break;
                },
            }
        }
        match self.find_subset(&set) {
            Some(j) => {
                return Some(j);
            },
            None => {},
        }
        let s = self.subsets.len();
        let mut fin = false;
        let mut i: usize = 0;
        while i < set.len()
            invariant
                a.wf(),
                i <= set@.len(),
                forall|j: int| 0 <= j < set@.len() ==> (#[trigger] set@[j] as int) < a.n(),
                fin == exists|j: int| 0 <= j < i && #[trigger] a.finals@[set@[j] as int],
            decreases set@.len() - i,
        {
            if a.finals[set[i]] {
                fin = true;
            }
            i = i + 1;
        }
        let prev: Option<usize> = match self.head.get(&h) {
            Some(x) => if *x < s { Some(*x) } else { None },
            None => None,
        };
        let ghost old_self = *self;
        self.subsets.push(set);
        self.chain.push(prev);
        self.finals.push(fin);
        self.rows.push(Vec::new());
        self.head.insert(h, s);
        proof {
            assert forall|i: int, j: int| 0 <= i < self.subsets@.len() && 0 <= j < self.subsets@[i]@.len() implies (#[trigger] self.subsets@[i]@[j] as int) < a.n() by {
                if i < s {
                    assert(self.subsets@[i] == old_self.subsets@[i]);
                }
            }
            assert forall|i: int| 0 <= i < self.chain@.len() implies (#[trigger] self.chain@[i] matches Some(p) ==> (p as int) < i) by {
                if i < s {
                    assert(self.chain@[i] == old_self.chain@[i]);
                }
            }
            assert forall|i: int| 0 <= i < self.subsets@.len() implies #[trigger] self.finals@[i] == set_final(*a, self.subsets@[i]@) by {
                if i < s {
                    assert(self.finals@[i] == old_self.finals@[i]);
                    assert(self.subsets@[i] == old_self.subsets@[i]);
                }
            }
        }
        Some(s)
    }
}

/// `p` labels some arc leaving a state of `set`.
pub open spec fn pair_on(a: Fst, set: Seq<usize>, p: (Label, Label)) -> bool {
    exists|j: int, k: int|
        #![trigger a.arc(set[j] as int, k)]
        0 <= j < set.len() && 0 <= k < a.deg(set[j] as int) && a.arc(set[j] as int, k).ilabel == p.0 && a.arc(
            set[j] as int,
            k,
        ).olabel == p.1
}

/// The distinct label pairs on the arcs of the states in `set`.
fn symbols_of(a: &Fst, set: &Vec<usize>) -> (syms: Vec<(Label, Label)>)
    requires
        a.wf(),
        forall|j: int| 0 <= j < set@.len() ==> (#[trigger] set@[j] as int) < a.n(),
    ensures
        forall|y: int| 0 <= y < syms@.len() ==> pair_on(*a, set@, #[trigger] syms@[y]),
        forall|y: int, z: int| 0 <= y < z < syms@.len() ==> #[trigger] syms@[y] != #[trigger] syms@[z],
        forall|j: int, k: int|
            #![trigger a.arc(set@[j] as int, k)]
            0 <= j < set@.len() && 0 <= k < a.deg(set@[j] as int) ==> syms@.contains(
                (a.arc(set@[j] as int, k).ilabel, a.arc(set@[j] as int, k).olabel),
            ),
{
    let mut syms: Vec<(Label, Label)> = Vec::new();
    let mut i: usize = 0;
    while i < set.len()
        invariant
            a.wf(),
            i <= set@.len(),
            forall|j: int| 0 <= j < set@.len() ==> (#[trigger] set@[j] as int) < a.n(),
            forall|j: int, k: int|
                #![trigger a.arc(set@[j] as int, k)]
                0 <= j < i && 0 <= k < a.deg(set@[j] as int) ==> syms@.contains(
                    (a.arc(set@[j] as int, k).ilabel, a.arc(set@[j] as int, k).olabel),
                ),
            forall|y: int| 0 <= y < syms@.len() ==> pair_on(*a, set@, #[trigger] syms@[y]),
            forall|y: int, z: int| 0 <= y < z < syms@.len() ==> #[trigger] syms@[y] != #[trigger] syms@[z],
        decreases set@.len() - i,
    {
        let m = set[i];
        let ghost syms_i = syms@;
        let mut k: usize = 0;
        while k < a.arcs[m].len()
            invariant
                a.wf(),
                (m as int) < a.n(),
                m == set@[i as int],
                i < set@.len(),
                k <= a.deg(m as int),
                forall|y: (Label, Label)| syms_i.contains(y) ==> #[trigger] syms@.contains(y),
                forall|kk: int|
                    #![trigger a.arc(m as int, kk)]
                    0 <= kk < k ==> syms@.contains((a.arc(m as int, kk).ilabel, a.arc(m as int, kk).olabel)),
                forall|j: int| 0 <= j < set@.len() ==> (#[trigger] set@[j] as int) < a.n(),
                forall|y: int| 0 <= y < syms@.len() ==> pair_on(*a, set@, #[trigger] syms@[y]),
                forall|y: int, z: int| 0 <= y < z < syms@.len() ==> #[trigger] syms@[y] != #[trigger] syms@[z],
            decreases a.deg(m as int) - k,
        {
            let e = a.arcs[m][k];
            assert(e == a.arc(m as int, k as int));
            let mut found = false;
            let mut j: usize = 0;
            while j < syms.len()
                invariant
                    j <= syms@.len(),
                    found ==> syms@.contains((e.ilabel, e.olabel)),
                    !found ==> forall|y: int| 0 <= y < j ==> #[trigger] syms@[y] != (e.ilabel, e.olabel),
                decreases syms@.len() - j,
            {
                if syms[j].0 == e.ilabel && syms[j].1 == e.olabel {
                    found = true;
                    proof {
                        assert(syms@[j as int] == (e.ilabel, e.olabel));
                    }
                }
                j = j + 1;
            }
            if !found {
                let ghost s0 = syms@;
                syms.push((e.ilabel, e.olabel));
                proof {
                    assert(syms@[s0.len() as int] == (e.ilabel, e.olabel));
                    assert forall|y: (Label, Label)| s0.contains(y) implies #[trigger] syms@.contains(y) by {
                        let q = choose|q: int| 0 <= q < s0.len() && s0[q] == y;
                        assert(syms@[q] == s0[q]);
                    }
                    assert(a.arc(set@[i as int] as int, k as int) == e);
                    assert(pair_on(*a, set@, (e.ilabel, e.olabel)));
                    assert forall|y: int| 0 <= y < syms@.len() implies pair_on(*a, set@, #[trigger] syms@[y]) by {
                        if y < s0.len() {
                            assert(syms@[y] == s0[y]);
                        }
                    }
                    assert forall|y: int, z: int| 0 <= y < z < syms@.len() implies #[trigger] syms@[y] != #[trigger] syms@[z] by {
                        if z < s0.len() {
                            assert(syms@[y] == s0[y] && syms@[z] == s0[z]);
                        } else {
                            assert(syms@[y] == s0[y]);
                        }
                    }
                }
            }
            k = k + 1;
        }
        i = i + 1;
    }
    syms
}

/// `q` is the target of an arc labelled `(il, ol)` leaving a state in
/// `set`.
pub open spec fn det_targets(a: Fst, set: Seq<usize>, il: Label, ol: Label, q: int) -> bool {
    exists|j: int, k: int|
        #![trigger a.arc(set[j] as int, k)]
        0 <= j < set.len() && 0 <= k < a.deg(set[j] as int) && a.arc(set[j] as int, k).ilabel == il && a.arc(
            set[j] as int,
            k,
        ).olabel == ol && a.arc(set[j] as int, k).nextstate == q
}

/// The targets of the arcs labelled `(il, ol)` leaving the states in `set`,
/// ascending, without repeats.
fn targets_of(a: &Fst, set: &Vec<usize>, il: Label, ol: Label) -> (t: Vec<usize>)
    requires
        a.wf(),
        forall|j: int| 0 <= j < set@.len() ==> (#[trigger] set@[j] as int) < a.n(),
    ensures
        forall|j: int| 0 <= j < t@.len() ==> (#[trigger] t@[j] as int) < a.n(),
        forall|q: int| 0 <= q < a.n() ==> (t@.contains(q as usize) <==> #[trigger] det_targets(*a, set@, il, ol, q)),
        strictly_sorted(t@),
{
    let mut t: Vec<usize> = Vec::new();
    let mut i: usize = 0;
    while i < set.len()
        invariant
            a.wf(),
            strictly_sorted(t@),
            i <= set@.len(),
            forall|j: int| 0 <= j < set@.len() ==> (#[trigger] set@[j] as int) < a.n(),
            forall|j: int| 0 <= j < t@.len() ==> (#[trigger] t@[j] as int) < a.n(),
            forall|j: int| 0 <= j < t@.len() ==> det_targets(*a, set@, il, ol, #[trigger] t@[j] as int),
            forall|j: int, k: int|
                #![trigger a.arc(set@[j] as int, k)]
                0 <= j < i && 0 <= k < a.deg(set@[j] as int) && a.arc(set@[j] as int, k).ilabel == il
                    && a.arc(set@[j] as int, k).olabel == ol ==> t@.contains(a.arc(set@[j] as int, k).nextstate),
        decreases set@.len() - i,
    {
        let m = set[i];
        let ghost t_i = t@;
        let mut k: usize = 0;
        while k < a.arcs[m].len()
            invariant
                a.wf(),
                strictly_sorted(t@),
                (m as int) < a.n(),
                m == set@[i as int],
                i < set@.len(),
                k <= a.deg(m as int),
                forall|j: int| 0 <= j < set@.len() ==> (#[trigger] set@[j] as int) < a.n(),
                forall|j: int| 0 <= j < t@.len() ==> (#[trigger] t@[j] as int) < a.n(),
                forall|j: int| 0 <= j < t@.len() ==> det_targets(*a, set@, il, ol, #[trigger] t@[j] as int),
                forall|y: usize| t_i.contains(y) ==> #[trigger] t@.contains(y),
                forall|kk: int|
                    #![trigger a.arc(m as int, kk)]
                    0 <= kk < k && a.arc(m as int, kk).ilabel == il && a.arc(m as int, kk).olabel == ol
                        ==> t@.contains(a.arc(m as int, kk).nextstate),
            decreases a.deg(m as int) - k,
        {
            let e = a.arcs[m][k];
            assert(e == a.arc(m as int, k as int));
            if e.ilabel == il && e.olabel == ol {
                let ghost t0 = t@;
                insert_sorted(&mut t, e.nextstate);
                proof {
                    assert(a.arc(set@[i as int] as int, k as int) == e);
                    assert(det_targets(*a, set@, il, ol, e.nextstate as int));
                    assert forall|j: int| 0 <= j < t@.len() implies (#[trigger] t@[j] as int) < a.n() && det_targets(*a, set@, il, ol, t@[j] as int) by {
                        if t@[j] != e.nextstate {
                            let q = choose|q: int| 0 <= q < t0.len() && t0[q] == t@[j];
                            assert(det_targets(*a, set@, il, ol, t0[q] as int));
                        }
                    }
                    assert forall|y: usize| t_i.contains(y) implies #[trigger] t@.contains(y) by {
                        assert(t0.contains(y));
                    }
                    assert forall|kk: int|
                        #![trigger a.arc(m as int, kk)]
                        0 <= kk < k + 1 && a.arc(m as int, kk).ilabel == il && a.arc(m as int, kk).olabel == ol
                            implies t@.contains(a.arc(m as int, kk).nextstate) by {
                        if kk < k {
                            assert(t0.contains(a.arc(m as int, kk).nextstate));
                        }
                    }
                }
            }
            k = k + 1;
        }
        proof {
            assert forall|j: int, kk: int|
                #![trigger a.arc(set@[j] as int, kk)]
                0 <= j < i + 1 && 0 <= kk < a.deg(set@[j] as int) && a.arc(set@[j] as int, kk).ilabel == il
                    && a.arc(set@[j] as int, kk).olabel == ol implies t@.contains(a.arc(set@[j] as int, kk).nextstate) by {
                if j < i {
                    assert(t_i.contains(a.arc(set@[j] as int, kk).nextstate));
                }
            }
        }
        i = i + 1;
    }
    proof {
        assert(a.arcs.len() == a.arcs@.len());
        assert forall|q: int| 0 <= q < a.n() implies (t@.contains(q as usize) <==> #[trigger] det_targets(*a, set@, il, ol, q)) by {
            assert((q as usize) as int == q);
            if t@.contains(q as usize) {
                let j = choose|j: int| 0 <= j < t@.len() && t@[j] == q as usize;
                assert(det_targets(*a, set@, il, ol, t@[j] as int));
            }
            if det_targets(*a, set@, il, ol, q) {
                let (j, k) = choose|j: int, k: int|
                    #![trigger a.arc(set@[j] as int, k)]
                    0 <= j < set@.len() && 0 <= k < a.deg(set@[j] as int) && a.arc(set@[j] as int, k).ilabel == il && a.arc(
                        set@[j] as int,
                        k,
                    ).olabel == ol && a.arc(set@[j] as int, k).nextstate == q;
                assert(t@.contains(a.arc(set@[j] as int, k).nextstate));
            }
        }
    }
    t
}

/// Arc `e` of a subset state standing for `from` leads to the state
/// standing for exactly the targets of `from`'s arcs labelled like `e`.
pub open spec fn det_arc_ok(a: Fst, sets: Seq<Seq<usize>>, from: Seq<usize>, e: Arc) -> bool {
    &&& (e.nextstate as int) < sets.len()
    &&& forall|q: int|
        #![trigger det_targets(a, from, e.ilabel, e.olabel, q)]
        0 <= q < a.n() ==> (sets[e.nextstate as int].contains(q as usize) <==> det_targets(a, from, e.ilabel, e.olabel, q))
}

/// Every arc of `row` satisfies [`det_arc_ok`].
pub open spec fn det_row_sound(a: Fst, sets: Seq<Seq<usize>>, from: Seq<usize>, row: Seq<Arc>) -> bool {
    forall|x: int| 0 <= x < row.len() ==> det_arc_ok(a, sets, from, #[trigger] row[x])
}

/// Some arc of `row` is labelled `(il, ol)`.
pub open spec fn has_pair(row: Seq<Arc>, il: Label, ol: Label) -> bool {
    exists|x: int| #![trigger row[x]] 0 <= x < row.len() && row[x].ilabel == il && row[x].olabel == ol
}

/// Every label pair on an arc leaving a state of `from` labels an arc of
/// `row`.
pub open spec fn det_row_complete(a: Fst, from: Seq<usize>, row: Seq<Arc>) -> bool {
    forall|j: int, k: int|
        #![trigger a.arc(from[j] as int, k)]
        0 <= j < from.len() && 0 <= k < a.deg(from[j] as int) ==> has_pair(
            row,
            a.arc(from[j] as int, k).ilabel,
            a.arc(from[j] as int, k).olabel,
        )
}

/// Every arc of `row` is labelled like some arc leaving a state of `from`.
pub open spec fn det_row_labels(a: Fst, from: Seq<usize>, row: Seq<Arc>) -> bool {
    forall|x: int| 0 <= x < row.len() ==> pair_on(a, from, ((#[trigger] row[x]).ilabel, row[x].olabel))
}

/// No two arcs of `row` carry the same label pair.
pub open spec fn det_row_distinct(row: Seq<Arc>) -> bool {
    forall|x: int, z: int|
        0 <= x < z < row.len() ==> ((#[trigger] row[x]).ilabel, row[x].olabel) != ((#[trigger] row[z]).ilabel, row[z].olabel)
}

/// `r` is the subset construction over `a`, its states standing for the
/// subsets `sets` of `a`'s states: state `0` for `{start}`, a state final
/// when one of its subset is, and for each label pair on an arc leaving
/// its subset one arc to the subset of that pair's targets.
pub open spec fn dets(r: Fst, a: Fst, sets: Seq<Seq<usize>>) -> bool {
    &&& r.wf()
    &&& a.n() <= usize::MAX
    &&& a.start is Some
    &&& r.start == Some(0usize)
    &&& sets.len() == r.n()
    &&& r.n() >= 1
    &&& sets[0] == seq![a.start->0]
    &&& forall|i: int, j: int| 0 <= i < sets.len() && 0 <= j < sets[i].len() ==> (#[trigger] sets[i][j] as int) < a.n()
    &&& forall|i: int| 0 <= i < r.n() ==> #[trigger] r.finals@[i] == set_final(a, sets[i])
    &&& forall|i: int| 0 <= i < r.n() ==> det_row_sound(a, sets, sets[i], #[trigger] r.rows()[i])
    &&& forall|i: int| 0 <= i < r.n() ==> det_row_complete(a, sets[i], #[trigger] r.rows()[i])
    &&& forall|i: int| 0 <= i < r.n() ==> det_row_labels(a, sets[i], #[trigger] r.rows()[i])
    &&& forall|i: int| 0 <= i < r.n() ==> det_row_distinct(#[trigger] r.rows()[i])
}

/// `r` determinises `a`: both have no start state, or `r` is the subset
/// construction over `a`.
pub open spec fn determinizes(r: Fst, a: Fst) -> bool {
    ||| (a.start is None && r.start is None && r.wf())
    ||| exists|sets: Seq<Seq<usize>>| dets(r, a, sets)
}

/// Checks on subset arcs survive growth of the subset list.
proof fn lemma_det_row_grow(a: Fst, sets: Seq<Seq<usize>>, sets2: Seq<Seq<usize>>, from: Seq<usize>, row: Seq<Arc>)
    requires
        det_row_sound(a, sets, from, row),
        sets.len() <= sets2.len(),
        forall|i: int| 0 <= i < sets.len() ==> #[trigger] sets2[i] == sets[i],
    ensures
        det_row_sound(a, sets2, from, row),
{
    assert forall|x: int| 0 <= x < row.len() implies det_arc_ok(a, sets2, from, #[trigger] row[x]) by {
        assert(det_arc_ok(a, sets, from, row[x]));
        assert(sets2[row[x].nextstate as int] == sets[row[x].nextstate as int]);
    }
}

/// The bit pattern of an ascending subset: the sum of `2^x` over its
/// members.
pub open spec fn subset_code(v: Seq<usize>) -> nat
    decreases v.len(),
{
    if v.len() == 0 {
        0
    } else {
        subset_code(v.drop_last()) + vstd::arithmetic::power2::pow2(v.last() as nat)
    }
}

/// An ascending subset of `0..m` has a code below `2^m`.
proof fn lemma_subset_code_bound(v: Seq<usize>, m: nat)
    requires
        strictly_sorted(v),
        forall|q: int| 0 <= q < v.len() ==> (#[trigger] v[q] as int) < m,
    ensures
        subset_code(v) < vstd::arithmetic::power2::pow2(m),
    decreases v.len(),
{
    vstd::arithmetic::power2::lemma_pow2_pos(m);
    if v.len() > 0 {
        let l = v.last() as nat;
        let d = v.drop_last();
        assert forall|q: int| 0 <= q < d.len() implies (#[trigger] d[q] as int) < l by {
            assert(v[q] < v[v.len() - 1]);
        }
        lemma_subset_code_bound(d, l);
        vstd::arithmetic::power2::lemma_pow2_unfold(l + 1);
        if l + 1 < m {
            vstd::arithmetic::power2::lemma_pow2_strictly_increases(l + 1, m);
        }
    }
}

/// Different ascending subsets have different codes.
proof fn lemma_subset_code_injective(v: Seq<usize>, w: Seq<usize>)
    requires
        strictly_sorted(v),
        strictly_sorted(w),
        subset_code(v) == subset_code(w),
    ensures
        v == w,
    decreases v.len() + w.len(),
{
    if v.len() == 0 && w.len() == 0 {
        assert(v =~= w);
    } else if v.len() == 0 {
        vstd::arithmetic::power2::lemma_pow2_pos(w.last() as nat);
    } else if w.len() == 0 {
        vstd::arithmetic::power2::lemma_pow2_pos(v.last() as nat);
    } else {
        let lv = v.last() as nat;
        let lw = w.last() as nat;
        let dv = v.drop_last();
        let dw = w.drop_last();
        assert forall|q: int| 0 <= q < dv.len() implies (#[trigger] dv[q] as int) < lv by {
            assert(v[q] < v[v.len() - 1]);
        }
        assert forall|q: int| 0 <= q < dw.len() implies (#[trigger] dw[q] as int) < lw by {
            assert(w[q] < w[w.len() - 1]);
        }
        lemma_subset_code_bound(dv, lv);
        lemma_subset_code_bound(dw, lw);
        vstd::arithmetic::power2::lemma_pow2_unfold(lv + 1);
        vstd::arithmetic::power2::lemma_pow2_unfold(lw + 1);
        if lv < lw {
            if lv + 1 < lw {
                vstd::arithmetic::power2::lemma_pow2_strictly_increases(lv + 1, lw);
            }
            assert(false);
        } else if lw < lv {
            if lw + 1 < lv {
                vstd::arithmetic::power2::lemma_pow2_strictly_increases(lw + 1, lv);
            }
            assert(false);
        } else {
            assert forall|i: int, j: int| 0 <= i < j < dv.len() implies #[trigger] dv[i] < #[trigger] dv[j] by {
                assert(v[i] < v[j]);
            }
            assert forall|i: int, j: int| 0 <= i < j < dw.len() implies #[trigger] dw[i] < #[trigger] dw[j] by {
                assert(w[i] < w[j]);
            }
            lemma_subset_code_injective(dv, dw);
            assert(v =~= dv.push(v.last()));
            assert(w =~= dw.push(w.last()));
        }
    }
}

/// At most `2^n` distinct ascending subsets of `0..n` exist.
pub proof fn lemma_subsets_bounded(sets: Seq<Seq<usize>>, n: nat)
    requires
        forall|p: int| 0 <= p < sets.len() ==> strictly_sorted(#[trigger] sets[p]),
        forall|p: int, q: int| 0 <= p < sets.len() && 0 <= q < sets[p].len() ==> (#[trigger] sets[p][q] as int) < n,
        forall|p: int, q: int| 0 <= p < q < sets.len() ==> #[trigger] sets[p] != #[trigger] sets[q],
    ensures
        sets.len() <= vstd::arithmetic::power2::pow2(n),
{
    let codes = sets.map_values(|v: Seq<usize>| subset_code(v) as int);
    assert forall|i: int, j: int| 0 <= i < codes.len() && 0 <= j < codes.len() && i != j implies codes[i] != codes[j] by {
        if codes[i] == codes[j] {
            lemma_subset_code_injective(sets[i], sets[j]);
            if i < j { assert(sets[i] != sets[j]); } else { assert(sets[j] != sets[i]); }
        }
    }
    codes.unique_seq_to_set();
    let m = vstd::arithmetic::power2::pow2(n) as int;
    lemma_int_range(0, m);
    assert forall|x: int| codes.to_set().contains(x) implies set_int_range(0, m).contains(x) by {
        let i = choose|i: int| 0 <= i < codes.len() && codes[i] == x;
        assert forall|q: int| 0 <= q < sets[i].len() implies (#[trigger] sets[i][q] as int) < n by {
            assert((sets[i][q] as int) < n);
        }
        lemma_subset_code_bound(sets[i], n);
    }
    lemma_len_subset(codes.to_set(), set_int_range(0, m));
    assert(codes.len() == sets.len());
}

/// A subset table holds at most `2^n` subsets.
proof fn lemma_table_bounded(tab: DetTable, a: Fst)
    requires
        tab.inv(a),
    ensures
        tab.subsets@.len() <= vstd::arithmetic::power2::pow2(a.n() as nat),
{
    let sets = tab.sets();
    assert forall|p: int| 0 <= p < sets.len() implies strictly_sorted(#[trigger] sets[p]) by {
        assert(sets[p] == tab.subsets@[p]@);
    }
    assert forall|p: int, q: int| 0 <= p < sets.len() && 0 <= q < sets[p].len() implies (#[trigger] sets[p][q] as int) < a.n() by {
        assert(sets[p] == tab.subsets@[p]@);
    }
    assert forall|p: int, q: int| 0 <= p < q < sets.len() implies #[trigger] sets[p] != #[trigger] sets[q] by {
        assert(sets[p] == tab.subsets@[p]@ && sets[q] == tab.subsets@[q]@);
    }
    lemma_subsets_bounded(sets, a.n() as nat);
}

/// Subset construction, treating each `(ilabel, olabel)` pair as one
/// symbol: the result has at most one arc per pair leaving each state and
/// the same language. It always succeeds: the subset states are distinct
/// ascending subsets of the states, at most `2^n` of them.
pub fn determinize(a: &Fst) -> (r: FstResult<Fst>)
    requires
        a.wf(),
    ensures
        r matches Ok(f) ==> f.wf() && (f.start is Some <==> a.start is Some) && determinizes(f, *a) && (a.start is None ==> f.n() == 0),
        r is Ok,
{
    let sa = match a.start {
        Some(x) => x,
        None => { return Ok(empty_machine()); },
    };
    let mut tab = DetTable {
        subsets: Vec::new(),
        chain: Vec::new(),
        head: std::collections::HashMap::new(),
        finals: Vec::new(),
        rows: Vec::new(),
    };
    let mut init: Vec<usize> = Vec::new();
    init.push(sa);
    let ghost init_v = init@;
    let s0 = tab.lookup_or_add(a, init);
    if s0.is_none() || tab.subsets.len() == 0 {
        return Err(FstError::Backend(crate::text::str_to_owned("determinize: state limit exceeded")));
    }
    proof {
        assert(s0 == Some(0usize));
        assert(tab.subsets@[0]@ == seq![sa]);
        lemma_table_bounded(tab, *a);
    }
    let mut i: usize = 0;
    while i < tab.subsets.len()
        invariant
            tab.inv(*a),
            a.wf(),
            a.start == Some(sa),
            tab.subsets@.len() >= 1,
            tab.subsets@[0]@ == seq![sa],
            i <= tab.subsets@.len(),
            forall|j: int, k: int| 0 <= j < i && 0 <= k < tab.rows@[j]@.len() ==> ((#[trigger] tab.rows@[j]@[k]).nextstate as int) < tab.subsets@.len(),
            forall|j: int| 0 <= j < i ==> det_row_sound(*a, tab.sets(), tab.subsets@[j]@, #[trigger] tab.rows@[j]@),
            forall|j: int| 0 <= j < i ==> det_row_complete(*a, tab.subsets@[j]@, #[trigger] tab.rows@[j]@),
            forall|j: int| 0 <= j < i ==> det_row_labels(*a, tab.subsets@[j]@, #[trigger] tab.rows@[j]@),
            forall|j: int| 0 <= j < i ==> det_row_distinct(#[trigger] tab.rows@[j]@),
            tab.subsets@.len() <= vstd::arithmetic::power2::pow2(a.n() as nat),
        decreases vstd::arithmetic::power2::pow2(a.n() as nat) - i,
    {
        let set = copy_states(&tab.subsets[i]);
        let syms = symbols_of(a, &set);
        let mut row: Vec<Arc> = Vec::new();
        let mut x: usize = 0;
        while x < syms.len()
            invariant
                tab.inv(*a),
                a.wf(),
                a.start == Some(sa),
                tab.subsets@.len() >= 1,
                tab.subsets@[0]@ == seq![sa],
                i < tab.subsets@.len(),
                tab.subsets@[i as int]@ == set@,
                x <= syms@.len(),
                forall|j: int| 0 <= j < set@.len() ==> (#[trigger] set@[j] as int) < a.n(),
                forall|k: int| 0 <= k < row@.len() ==> ((#[trigger] row@[k]).nextstate as int) < tab.subsets@.len(),
                forall|j: int, k: int| 0 <= j < i && 0 <= k < tab.rows@[j]@.len() ==> ((#[trigger] tab.rows@[j]@[k]).nextstate as int) < tab.subsets@.len(),
                forall|j: int| 0 <= j < i ==> det_row_sound(*a, tab.sets(), tab.subsets@[j]@, #[trigger] tab.rows@[j]@),
                forall|j: int| 0 <= j < i ==> det_row_complete(*a, tab.subsets@[j]@, #[trigger] tab.rows@[j]@),
                det_row_sound(*a, tab.sets(), set@, row@),
                forall|y: int| 0 <= y < x ==> has_pair(row@, (#[trigger] syms@[y]).0, syms@[y].1),
                forall|j: int| 0 <= j < i ==> det_row_labels(*a, tab.subsets@[j]@, #[trigger] tab.rows@[j]@),
                forall|j: int| 0 <= j < i ==> det_row_distinct(#[trigger] tab.rows@[j]@),
                row@.len() == x,
                forall|z: int| 0 <= z < x ==> (#[trigger] row@[z]).ilabel == syms@[z].0 && row@[z].olabel == syms@[z].1,
                forall|y: int| 0 <= y < syms@.len() ==> pair_on(*a, set@, #[trigger] syms@[y]),
                forall|y: int, z: int| 0 <= y < z < syms@.len() ==> #[trigger] syms@[y] != #[trigger] syms@[z],
            decreases syms@.len() - x,
        {
            let (il, ol) = syms[x];
            let target = targets_of(a, &set, il, ol);
            let ghost target_v = target@;
            let ghost tb = tab;
            let id = tab.lookup_or_add(a, target);
            let ghost r0 = row@;
            match id {
                Some(t) => {
                    row.push(Arc { ilabel: il, olabel: ol, nextstate: t });
                },
                None => {
                    return Err(FstError::Backend(crate::text::str_to_owned("determinize: no state for a subset")));
                },
            }
            proof {
                assert forall|k: int| 0 <= k < tb.subsets@.len() implies #[trigger] tab.sets()[k] == tb.sets()[k] by {
                    assert(tab.subsets@[k] == tb.subsets@[k]);
                }
                assert(tab.subsets@[i as int] == tb.subsets@[i as int]);
                assert(tab.subsets@[0] == tb.subsets@[0]);
                assert forall|j: int, k: int| 0 <= j < i && 0 <= k < tab.rows@[j]@.len() implies ((#[trigger] tab.rows@[j]@[k]).nextstate as int) < tab.subsets@.len() by {
                    assert(tab.rows@[j] == tb.rows@[j]);
                }
                assert forall|j: int| 0 <= j < i implies det_row_sound(*a, tab.sets(), tab.subsets@[j]@, #[trigger] tab.rows@[j]@) by {
                    assert(tab.rows@[j] == tb.rows@[j]);
                    assert(tab.subsets@[j] == tb.subsets@[j]);
                    lemma_det_row_grow(*a, tb.sets(), tab.sets(), tb.subsets@[j]@, tb.rows@[j]@);
                }
                assert forall|j: int| 0 <= j < i implies det_row_complete(*a, tab.subsets@[j]@, #[trigger] tab.rows@[j]@) by {
                    assert(tab.rows@[j] == tb.rows@[j]);
                    assert(tab.subsets@[j] == tb.subsets@[j]);
                }
                assert forall|j: int| 0 <= j < i implies det_row_labels(*a, tab.subsets@[j]@, #[trigger] tab.rows@[j]@) by {
                    assert(tab.rows@[j] == tb.rows@[j]);
                    assert(tab.subsets@[j] == tb.subsets@[j]);
                }
                assert forall|j: int| 0 <= j < i implies det_row_distinct(#[trigger] tab.rows@[j]@) by {
                    assert(tab.rows@[j] == tb.rows@[j]);
                }
                assert forall|z: int| 0 <= z < x + 1 implies (#[trigger] row@[z]).ilabel == syms@[z].0 && row@[z].olabel == syms@[z].1 by {
                    if z < x {
                        assert(row@[z] == r0[z]);
                    }
                }
                lemma_det_row_grow(*a, tb.sets(), tab.sets(), set@, r0);
                let t = id->0;
                let e = Arc { ilabel: il, olabel: ol, nextstate: t };
                assert(row@ == r0.push(e));
                assert(tab.sets()[t as int] == target_v);
                assert(det_arc_ok(*a, tab.sets(), set@, e));
                assert forall|z: int| 0 <= z < row@.len() implies det_arc_ok(*a, tab.sets(), set@, #[trigger] row@[z]) by {
                    if z < r0.len() {
                        assert(row@[z] == r0[z]);
                    }
                }
                assert forall|y: int| 0 <= y < x + 1 implies has_pair(row@, (#[trigger] syms@[y]).0, syms@[y].1) by {
                    if y < x {
                        assert(has_pair(r0, syms@[y].0, syms@[y].1));
                        let z = choose|z: int|
                            #![trigger r0[z]]
                            0 <= z < r0.len() && r0[z].ilabel == syms@[y].0 && r0[z].olabel == syms@[y].1;
                        assert(row@[z] == r0[z]);
                    } else {
                        assert(row@[r0.len() as int] == e);
                    }
                }
            }
            x = x + 1;
        }
        proof {
            let sv = set@;
            let rv = row@;
            assert(det_row_labels(*a, sv, rv)) by {
                assert forall|z: int| 0 <= z < rv.len() implies pair_on(*a, sv, ((#[trigger] rv[z]).ilabel, rv[z].olabel)) by {
                    assert(pair_on(*a, sv, syms@[z]));
                    assert((rv[z].ilabel, rv[z].olabel) == syms@[z]);
                }
            }
            assert(det_row_distinct(rv)) by {
                assert forall|y: int, z: int| 0 <= y < z < rv.len() implies ((#[trigger] rv[y]).ilabel, rv[y].olabel) != ((#[trigger] rv[z]).ilabel, rv[z].olabel) by {
                    assert(syms@[y] != syms@[z]);
                    assert((rv[y].ilabel, rv[y].olabel) == syms@[y]);
                    assert((rv[z].ilabel, rv[z].olabel) == syms@[z]);
                }
            }
            assert(det_row_complete(*a, sv, rv)) by {
                assert forall|j: int, k: int|
                    #![trigger a.arc(sv[j] as int, k)]
                    0 <= j < sv.len() && 0 <= k < a.deg(sv[j] as int) implies has_pair(
                        rv,
                        a.arc(sv[j] as int, k).ilabel,
                        a.arc(sv[j] as int, k).olabel,
                    ) by {
                    let pair = (a.arc(sv[j] as int, k).ilabel, a.arc(sv[j] as int, k).olabel);
                    assert(syms@.contains(pair));
                    let y = choose|y: int| 0 <= y < syms@.len() && syms@[y] == pair;
                    assert(has_pair(rv, (syms@[y]).0, syms@[y].1));
                }
            }
        }
        let ghost tc = tab;
        tab.rows.set(i, row);
        proof {
            assert(tab.sets() == tc.sets());
            assert forall|j: int, k: int| 0 <= j < i + 1 && 0 <= k < tab.rows@[j]@.len() implies ((#[trigger] tab.rows@[j]@[k]).nextstate as int) < tab.subsets@.len() by {
                if j < i {
                    assert(tab.rows@[j] == tc.rows@[j]);
                } else {
                    assert(tab.rows@[j]@ == row@);
                    assert(det_arc_ok(*a, tab.sets(), set@, row@[k]));
                }
            }
            assert forall|j: int| 0 <= j < i + 1 implies det_row_sound(*a, tab.sets(), tab.subsets@[j]@, #[trigger] tab.rows@[j]@) by {
                if j < i {
                    assert(tab.rows@[j] == tc.rows@[j]);
                }
            }
            assert forall|j: int| 0 <= j < i + 1 implies det_row_complete(*a, tab.subsets@[j]@, #[trigger] tab.rows@[j]@) by {
                if j < i {
                    assert(tab.rows@[j] == tc.rows@[j]);
                } else {
                    assert(tab.rows@[j]@ == row@);
                    assert(tab.subsets@[j]@ == set@);
                }
            }
            assert forall|j: int| 0 <= j < i + 1 implies det_row_labels(*a, tab.subsets@[j]@, #[trigger] tab.rows@[j]@) by {
                if j < i {
                    assert(tab.rows@[j] == tc.rows@[j]);
                } else {
                    assert(tab.rows@[j]@ == row@);
                    assert(tab.subsets@[j]@ == set@);
                }
            }
            assert forall|j: int| 0 <= j < i + 1 implies det_row_distinct(#[trigger] tab.rows@[j]@) by {
                if j < i {
                    assert(tab.rows@[j] == tc.rows@[j]);
                } else {
                    assert(tab.rows@[j]@ == row@);
                }
            }
            assert(tab.inv(*a));
            lemma_table_bounded(tab, *a);
        }
        i = i + 1;
    }
    let r = Fst { start: Some(0), finals: tab.finals, arcs: tab.rows };
    proof {
        assert forall|s: int, k: int| 0 <= s < r.n() && 0 <= k < r.deg(s) implies #[trigger] r.arc(s, k).nextstate < r.n() by {
            assert(r.arc(s, k) == tab.rows@[s]@[k]);
        }
        let sets = tab.sets();
        assert(a.arcs.len() == a.arcs@.len());
        assert forall|p: int| 0 <= p < r.n() implies det_row_sound(*a, sets, sets[p], #[trigger] r.rows()[p]) by {
            assert(r.rows()[p] == tab.rows@[p]@);
        }
        assert forall|p: int| 0 <= p < r.n() implies det_row_complete(*a, sets[p], #[trigger] r.rows()[p]) by {
            assert(r.rows()[p] == tab.rows@[p]@);
        }
        assert forall|p: int| 0 <= p < r.n() implies det_row_labels(*a, sets[p], #[trigger] r.rows()[p]) by {
            assert(r.rows()[p] == tab.rows@[p]@);
        }
        assert forall|p: int| 0 <= p < r.n() implies det_row_distinct(#[trigger] r.rows()[p]) by {
            assert(r.rows()[p] == tab.rows@[p]@);
        }
        assert forall|p: int| 0 <= p < r.n() implies #[trigger] r.finals@[p] == set_final(*a, sets[p]) by {
        }
        assert forall|p: int, q: int| 0 <= p < sets.len() && 0 <= q < sets[p].len() implies (#[trigger] sets[p][q] as int) < a.n() by {
            assert(tab.subsets@[p]@[q] == sets[p][q]);
        }
        assert(dets(r, *a, sets));
    }
    Ok(r)
}

} // verus!

verus! {

/// Every label of `w` is in `alph`.
pub open spec fn word_over(w: Seq<Label>, alph: Seq<Label>) -> bool {
    forall|i: int| 0 <= i < w.len() ==> alph.contains(#[trigger] w[i])
}

/// Every arc of `f` reads and writes labels of `alph`.
pub open spec fn arcs_over(f: Fst, alph: Seq<Label>) -> bool {
    forall|s: int, k: int|
        #![trigger f.arc(s, k)]
        0 <= s < f.n() && 0 <= k < f.deg(s) ==> alph.contains(f.arc(s, k).ilabel) && alph.contains(f.arc(s, k).olabel)
}

/// Some arc of `row` reads `l`.
pub open spec fn has_ilabel(row: Seq<Arc>, l: Label) -> bool {
    exists|x: int| #![trigger row[x]] 0 <= x < row.len() && row[x].ilabel == l
}

/// `row` is `base` followed by arcs `l:l` to `sink`, each reading a label
/// of `alph` that no earlier arc reads, so that the first `upto` labels of
/// `alph` are all read.
pub open spec fn completed_row(row: Seq<Arc>, base: Seq<Arc>, alph: Seq<Label>, sink: int, upto: int) -> bool {
    &&& base.len() <= row.len()
    &&& forall|x: int| 0 <= x < base.len() ==> #[trigger] row[x] == base[x]
    &&& forall|x: int|
        base.len() <= x < row.len() ==> (#[trigger] row[x]).nextstate == sink && row[x].ilabel == row[x].olabel
            && alph.contains(row[x].ilabel)
    &&& forall|x: int, z: int| 0 <= x < z < row.len() && base.len() <= z ==> (#[trigger] row[x]).ilabel != (#[trigger] row[z]).ilabel
    &&& forall|y: int| 0 <= y < upto ==> has_ilabel(row, #[trigger] alph[y])
}

/// `c` completes `d` over `alph` and swaps its final states: the states of
/// `d` plus a final sink state `d.n()`; every state reads every label of
/// `alph`, missing labels leading to the sink; the start is `d`'s, or the
/// sink when `d` has none.
pub open spec fn completes(c: Fst, d: Fst, alph: Seq<Label>) -> bool {
    &&& c.wf()
    &&& c.n() == d.n() + 1
    &&& c.n() <= usize::MAX
    &&& c.start == (if d.start is Some { d.start } else { Some(d.n() as usize) })
    &&& forall|p: int| 0 <= p < d.n() ==> #[trigger] c.finals@[p] == !d.finals@[p]
    &&& c.finals@[d.n()]
    &&& forall|p: int| 0 <= p < d.n() ==> completed_row(#[trigger] c.rows()[p], d.rows()[p], alph, d.n(), alph.len() as int)
    &&& completed_row(c.rows()[d.n()], Seq::<Arc>::empty(), alph, d.n(), alph.len() as int)
}

/// Complement over an explicit alphabet: accepts `alphabet* \ L(a)`.
///
/// `a` should be an acceptor whose labels all lie in `alphabet`. Removes
/// epsilons, determinises, completes the result with a sink state over
/// `alphabet` and swaps final and non-final states. Fails when the
/// determinisation does. For such an `a` (and an alphabet without the
/// epsilon label), the result accepts a word of `alphabet` exactly when
/// `a` does not, and accepts nothing else.
pub fn complement(a: &Fst, alphabet: &[Label]) -> (r: FstResult<Fst>)
    requires
        a.wf(),
    ensures
        r matches Ok(f) ==> f.wf() && f.start is Some,
        r matches Ok(f) ==> (is_acceptor(*a) && arcs_over(*a, alphabet@) && !alphabet@.contains(EPS_LABEL)) ==> {
            &&& forall|w: Seq<Label>| word_over(w, alphabet@) ==> (#[trigger] accepts(f, w, w) <==> !accepts(*a, w, w))
            &&& forall|x: Seq<Label>, y: Seq<Label>| #[trigger] accepts(f, x, y) ==> x == y && word_over(x, alphabet@)
        },
        r is Ok,
{
    let e = eps_remove(a);
    let d = match determinize(&e) {
        Ok(d) => d,
        Err(x) => {
            return Err(x);
        },
    };
    let r = copy_fst(&d);
    let mut bld = VectorFstBuilder { fst: r };
    let sink = bld.add_state();
    if d.start.is_none() {
        let _ = bld.set_start(sink);
    }
    let mut fst = bld.fst;
    let ghost c0 = fst;
    let n = fst.arcs.len();
    proof {
        assert(c0.rows() == d.rows().push(Seq::<Arc>::empty()));
        assert(c0.finals@ == d.finals@.push(false));
    }
    let mut s: usize = 0;
    while s < n
        invariant
            fst.wf(),
            fst.start is Some,
            fst.start == c0.start,
            n as int == fst.n(),
            fst.n() == d.n() + 1,
            sink as int == d.n(),
            c0.rows() == d.rows().push(Seq::<Arc>::empty()),
            c0.finals@ == d.finals@.push(false),
            s <= n,
            forall|p: int| s <= p < n ==> #[trigger] fst.rows()[p] == c0.rows()[p],
            forall|p: int| s <= p < n ==> #[trigger] fst.finals@[p] == c0.finals@[p],
            forall|p: int| 0 <= p < s ==> completed_row(#[trigger] fst.rows()[p], c0.rows()[p], alphabet@, sink as int, alphabet@.len() as int),
            forall|p: int| 0 <= p < s ==> #[trigger] fst.finals@[p] == !c0.finals@[p],
        decreases n - s,
    {
        let ghost f_s = fst;
        let mut x: usize = 0;
        while x < alphabet.len()
            invariant
                fst.wf(),
                fst.start == f_s.start,
                n as int == fst.n(),
                fst.n() == d.n() + 1,
                sink as int == d.n(),
                s < n,
                x <= alphabet@.len(),
                fst.finals@ == f_s.finals@,
                forall|p: int| 0 <= p < n && p != s ==> #[trigger] fst.rows()[p] == f_s.rows()[p],
                completed_row(fst.rows()[s as int], f_s.rows()[s as int], alphabet@, sink as int, x as int),
            decreases alphabet@.len() - x,
        {
            let l = alphabet[x];
            let mut present = false;
            let mut k: usize = 0;
            while k < fst.arcs[s].len()
                invariant
                    fst.wf(),
                    s < n,
                    n as int == fst.n(),
                    k <= fst.deg(s as int),
                    present ==> has_ilabel(fst.rows()[s as int], l),
                    !present ==> forall|kk: int| 0 <= kk < k ==> (#[trigger] fst.rows()[s as int][kk]).ilabel != l,
                decreases fst.deg(s as int) - k,
            {
                if fst.arcs[s][k].ilabel == l {
                    present = true;
                    proof {
                        assert(fst.rows()[s as int][k as int] == fst.arcs@[s as int]@[k as int]);
                    }
                }
                k = k + 1;
            }
            let ghost fb = fst;
            if !present {
                push_arc(&mut fst, s, l, l, sink);
                proof {
                    let row0 = fb.rows()[s as int];
                    let row = fst.rows()[s as int];
                    let base = f_s.rows()[s as int];
                    assert(row == row0.push(Arc { ilabel: l, olabel: l, nextstate: sink }));
                    assert(alphabet@.contains(l)) by {
                        assert(alphabet@[x as int] == l);
                    }
                    assert forall|xx: int| 0 <= xx < base.len() implies #[trigger] row[xx] == base[xx] by {
                        assert(row[xx] == row0[xx]);
                    }
                    assert forall|xx: int|
                        base.len() <= xx < row.len() implies (#[trigger] row[xx]).nextstate == sink && row[xx].ilabel == row[xx].olabel
                            && alphabet@.contains(row[xx].ilabel) by {
                        if xx < row0.len() {
                            assert(row[xx] == row0[xx]);
                        }
                    }
                    assert forall|xx: int, z: int| 0 <= xx < z < row.len() && base.len() <= z implies (#[trigger] row[xx]).ilabel
                        != (#[trigger] row[z]).ilabel by {
                        assert(row[xx] == row0[xx]);
                        if z < row0.len() {
                            assert(row[z] == row0[z]);
                        }
                    }
                    assert forall|y: int| 0 <= y < x + 1 implies has_ilabel(row, #[trigger] alphabet@[y]) by {
                        if y < x {
                            assert(has_ilabel(row0, alphabet@[y]));
                            let xx = choose|xx: int| #![trigger row0[xx]] 0 <= xx < row0.len() && row0[xx].ilabel == alphabet@[y];
                            assert(row[xx] == row0[xx]);
                        } else {
                            assert(row[row0.len() as int].ilabel == l);
                        }
                    }
                    assert forall|p: int| 0 <= p < n && p != s implies #[trigger] fst.rows()[p] == f_s.rows()[p] by {
                        assert(fst.rows()[p] == fb.rows()[p]);
                    }
                }
            } else {
                proof {
                    assert(alphabet@[x as int] == l);
                }
            }
            x = x + 1;
        }
        let fin = fst.finals[s];
        let ghost fc = fst;
        put_final(&mut fst, s, !fin);
        proof {
            assert forall|p: int| s + 1 <= p < n implies #[trigger] fst.rows()[p] == c0.rows()[p] by {
                assert(fst.rows()[p] == f_s.rows()[p]);
            }
            assert forall|p: int| s + 1 <= p < n implies #[trigger] fst.finals@[p] == c0.finals@[p] by {
                assert(fst.finals@[p] == f_s.finals@[p]);
            }
            assert forall|p: int| 0 <= p < s + 1 implies completed_row(#[trigger] fst.rows()[p], c0.rows()[p], alphabet@, sink as int, alphabet@.len() as int) by {
                if p < s {
                    assert(fst.rows()[p] == f_s.rows()[p]);
                } else {
                    assert(f_s.rows()[p] == c0.rows()[p]);
                }
            }
            assert forall|p: int| 0 <= p < s + 1 implies #[trigger] fst.finals@[p] == !c0.finals@[p] by {
                if p < s {
                    assert(fst.finals@[p] == f_s.finals@[p]);
                } else {
                    assert(f_s.finals@[p] == c0.finals@[p]);
                }
            }
        }
        s = s + 1;
    }
    proof {
        assert(fst.arcs.len() == fst.arcs@.len());
        assert forall|p: int| 0 <= p < d.n() implies #[trigger] fst.finals@[p] == !d.finals@[p] by {
            assert(c0.finals@[p] == d.finals@[p]);
        }
        assert(c0.finals@[d.n()] == false);
        assert forall|p: int| 0 <= p < d.n() implies completed_row(#[trigger] fst.rows()[p], d.rows()[p], alphabet@, d.n(), alphabet@.len() as int) by {
            assert(c0.rows()[p] == d.rows()[p]);
        }
        assert(c0.rows()[d.n()] == Seq::<Arc>::empty());
        assert(completes(fst, d, alphabet@));
        if is_acceptor(*a) && arcs_over(*a, alphabet@) && !alphabet@.contains(EPS_LABEL) {
            super::laws::lemma_complement_language(*a, e, d, fst, alphabet@);
        }
    }
    Ok(fst)
}

// ---------------------------------------------------------------------------
// Paths.
// ---------------------------------------------------------------------------

/// Appending one arc to a run.
pub proof fn lemma_run_append(f: Fst, from: int, steps: Seq<int>, mid: int, k: int)
    requires
        is_run(f, from, steps, mid),
        0 <= mid < f.n(),
        0 <= k < f.deg(mid),
    ensures
        is_run(f, from, steps.push(k), f.arc(mid, k).nextstate as int),
        run_ilabels(f, from, steps.push(k)) == run_ilabels(f, from, steps).push(f.arc(mid, k).ilabel),
        run_olabels(f, from, steps.push(k)) == run_olabels(f, from, steps).push(f.arc(mid, k).olabel),
    decreases steps.len(),
{
    if steps.len() == 0 {
        assert(steps.push(k).drop_first() =~= Seq::<int>::empty());
        assert(from == mid);
        let nx = f.arc(mid, k).nextstate as int;
        assert(run_ilabels(f, nx, Seq::<int>::empty()) == Seq::<Label>::empty());
        assert(run_olabels(f, nx, Seq::<int>::empty()) == Seq::<Label>::empty());
        assert(steps.push(k)[0] == k);
        assert(is_run(f, nx, Seq::<int>::empty(), nx));
        assert(is_run(f, from, steps.push(k), nx));
        assert(run_ilabels(f, from, steps.push(k)) =~= seq![f.arc(mid, k).ilabel]);
        assert(run_olabels(f, from, steps.push(k)) =~= seq![f.arc(mid, k).olabel]);
    } else {
        let nx = f.arc(from, steps[0]).nextstate as int;
        lemma_run_append(f, nx, steps.drop_first(), mid, k);
        assert(steps.push(k).drop_first() =~= steps.drop_first().push(k));
        assert(steps.push(k)[0] == steps[0]);
        assert(run_ilabels(f, from, steps.push(k)) =~= run_ilabels(f, from, steps).push(f.arc(mid, k).ilabel));
        assert(run_olabels(f, from, steps.push(k)) =~= run_olabels(f, from, steps).push(f.arc(mid, k).olabel));
    }
}

/// Appending one label to a sequence before dropping epsilons.
pub proof fn lemma_strip_push(s: Seq<Label>, x: Label)
    ensures
        strip_eps(s.push(x)) == if x != EPS_LABEL { strip_eps(s).push(x) } else { strip_eps(s) },
{
    assert(s.push(x).drop_last() =~= s);
}

/// Upper bound on the partial paths one enumeration explores.
pub const PATH_STEP_LIMIT: usize = 1_000_000;

/// Fewer than `limit` distinct runs leave the start state.
pub open spec fn runs_fewer_than(f: Fst, limit: int) -> bool {
    forall|rs: Seq<Seq<int>>|
        #![trigger rs.len()]
        rs.len() == limit && (forall|i: int, j: int| 0 <= i < j < rs.len() ==> #[trigger] rs[i] != #[trigger] rs[j])
            ==> exists|i: int| 0 <= i < rs.len() && !(#[trigger] run_from_start(f, rs[i]))
}

/// `steps` is a run from the start state.
pub open spec fn run_from_start(f: Fst, steps: Seq<int>) -> bool {
    f.start is Some && exists|t: int| #[trigger] is_run(f, f.start->0 as int, steps, t)
}

/// Run `m` of the enumeration extends an earlier run by one arc, the
/// extension coming before `(h, k)`.
spec fn extends_earlier(runs: Seq<Seq<int>>, m: int, h: int, k: int) -> bool {
    exists|p: int, kk: int|
        #![trigger runs[p].push(kk)]
        0 <= p < m && runs[m] == runs[p].push(kk) && (p < h || (p == h && kk < k))
}

/// Enumerate accepting paths breadth-first (shorter runs first), up to
/// `max_paths` of them and at most [`PATH_STEP_LIMIT`] explored partial
/// runs. Epsilon labels are dropped on both sides. Every returned path is
/// accepted by `f`; when fewer than [`PATH_STEP_LIMIT`] runs leave the
/// start state and fewer than `max_paths` paths come back, every accepted
/// pair is among them.
pub fn paths(f: &Fst, max_paths: usize) -> (out: Vec<Path>)
    requires
        f.wf(),
    ensures
        out@.len() <= max_paths,
        forall|i: int| 0 <= i < out@.len() ==> accepts(*f, (#[trigger] out@[i]).input@, out@[i].output@),
        out@.len() < max_paths && runs_fewer_than(*f, PATH_STEP_LIMIT as int) ==> forall|x: Seq<Label>, y: Seq<Label>|
            #[trigger] accepts(*f, x, y) ==> exists|i: int| 0 <= i < out@.len() && (#[trigger] out@[i]).input@ == x && out@[i].output@ == y,
        max_paths <= PATH_STEP_LIMIT && runs_fewer_than(*f, max_paths as int) ==> out@.len() < max_paths
            && runs_fewer_than(*f, PATH_STEP_LIMIT as int),
{
    paths_within(f, max_paths, PATH_STEP_LIMIT)
}

/// [`paths`] with `step_limit` in place of [`PATH_STEP_LIMIT`].
pub fn paths_within(f: &Fst, max_paths: usize, step_limit: usize) -> (out: Vec<Path>)
    requires
        f.wf(),
        step_limit > 0,
    ensures
        out@.len() <= max_paths,
        forall|i: int| 0 <= i < out@.len() ==> accepts(*f, (#[trigger] out@[i]).input@, out@[i].output@),
        out@.len() < max_paths && runs_fewer_than(*f, step_limit as int) ==> forall|x: Seq<Label>, y: Seq<Label>|
            #[trigger] accepts(*f, x, y) ==> exists|i: int| 0 <= i < out@.len() && (#[trigger] out@[i]).input@ == x && out@[i].output@ == y,
        max_paths <= step_limit && runs_fewer_than(*f, max_paths as int) ==> out@.len() < max_paths
            && runs_fewer_than(*f, step_limit as int),
{
    let mut out: Vec<Path> = Vec::new();
    proof {
        if max_paths == 0 {
            let rs = Seq::<Seq<int>>::empty();
            assert(rs.len() == 0);
        }
    }
    let start = match f.start {
        Some(s) => s,
        None => {
            proof {
                assert forall|rs: Seq<Seq<int>>|
                    #![trigger rs.len()]
                    rs.len() == step_limit && (forall|i: int, j: int| 0 <= i < j < rs.len() ==> #[trigger] rs[i] != #[trigger] rs[j])
                        implies exists|i: int| 0 <= i < rs.len() && !(#[trigger] run_from_start(*f, rs[i])) by {
                    assert(!run_from_start(*f, rs[0]));
                }
            }
            return out;
        },
    };
    let mut queue: Vec<(StateId, Vec<Label>, Vec<Label>)> = Vec::new();
    let ghost mut runs: Seq<Seq<int>> = seq![Seq::<int>::empty()];
    queue.push((start, Vec::new(), Vec::new()));
    proof {
        assert(strip_eps(Seq::<Label>::empty()) == Seq::<Label>::empty());
    }
    let mut head: usize = 0;
    while head < queue.len() && out.len() < max_paths && head < step_limit
        invariant
            f.wf(),
            f.start == Some(start),
            head <= queue@.len(),
            runs.len() == queue@.len(),
            out@.len() <= max_paths,
            forall|i: int| 0 <= i < queue@.len() ==> {
                let (q, ins, outs) = #[trigger] queue@[i];
                &&& (q as int) < f.n()
                &&& is_run(*f, start as int, runs[i], q as int)
                &&& strip_eps(run_ilabels(*f, start as int, runs[i])) == ins@
                &&& strip_eps(run_olabels(*f, start as int, runs[i])) == outs@
            },
            forall|i: int| 0 <= i < out@.len() ==> accepts(*f, (#[trigger] out@[i]).input@, out@[i].output@),
            runs[0] == Seq::<int>::empty(),
            queue@.len() > 0,
            out@.len() <= head,
            forall|i: int, j: int| 0 <= i < j < runs.len() ==> #[trigger] runs[i] != #[trigger] runs[j],
            forall|m: int| 1 <= m < runs.len() ==> #[trigger] extends_earlier(runs, m, head as int, 0),
            forall|h: int, k: int|
                0 <= h < head && 0 <= k < f.deg(queue@[h].0 as int) ==> #[trigger] runs.contains(runs[h].push(k)),
            forall|h: int|
                0 <= h < head && f.is_final(#[trigger] queue@[h].0 as int) ==> exists|o: int|
                    0 <= o < out@.len() && (#[trigger] out@[o]).input@ == queue@[h].1@ && out@[o].output@ == queue@[h].2@,
        decreases step_limit - head,
    {
        let q = queue[head].0;
        let ghost run_h = runs[head as int];
        let ghost out0 = out@;
        if f.finals[q] {
            let ins = copy_labels(&queue[head].1);
            let outs = copy_labels(&queue[head].2);
            let p = Path { input: ins, output: outs };
            proof {
                let (qq, ii, oo) = queue@[head as int];
                assert(is_run(*f, start as int, run_h, q as int));
                assert(accepts(*f, p.input@, p.output@));
            }
            out.push(p);
            proof {
                assert(out@[out0.len() as int] == p);
            }
        }
        proof {
            assert forall|h: int|
                0 <= h < head + 1 && f.is_final(#[trigger] queue@[h].0 as int) implies exists|o: int|
                    0 <= o < out@.len() && (#[trigger] out@[o]).input@ == queue@[h].1@ && out@[o].output@ == queue@[h].2@ by {
                if h < head {
                    let o = choose|o: int| 0 <= o < out0.len() && (#[trigger] out0[o]).input@ == queue@[h].1@ && out0[o].output@ == queue@[h].2@;
                    assert(out@[o] == out0[o]);
                } else {
                    assert(out@[out0.len() as int].input@ == queue@[h].1@);
                }
            }
            assert forall|m: int| 1 <= m < runs.len() implies #[trigger] extends_earlier(runs, m, head as int, 0) by {
            }
        }
        let ghost q0 = queue@;
        let ghost runs0 = runs;
        let mut k: usize = 0;
        while k < f.arcs[q].len()
            invariant
                f.wf(),
                f.start == Some(start),
                (q as int) < f.n(),
                head < queue@.len(),
                queue@[head as int].0 == q,
                run_h == runs[head as int],
                k <= f.deg(q as int),
                runs.len() == queue@.len(),
                runs0.len() == q0.len(),
                runs0.len() <= runs.len(),
                forall|i: int| 0 <= i < runs0.len() ==> #[trigger] runs[i] == runs0[i] && queue@[i] == q0[i],
                forall|i: int| 0 <= i < queue@.len() ==> {
                    let (qq, ins, outs) = #[trigger] queue@[i];
                    &&& (qq as int) < f.n()
                    &&& is_run(*f, start as int, runs[i], qq as int)
                    &&& strip_eps(run_ilabels(*f, start as int, runs[i])) == ins@
                    &&& strip_eps(run_olabels(*f, start as int, runs[i])) == outs@
                },
                runs[0] == Seq::<int>::empty(),
                forall|i: int, j: int| 0 <= i < j < runs.len() ==> #[trigger] runs[i] != #[trigger] runs[j],
                forall|m: int| 1 <= m < runs.len() ==> #[trigger] extends_earlier(runs, m, head as int, k as int),
                forall|kk: int| 0 <= kk < k ==> #[trigger] runs.contains(run_h.push(kk)),
                forall|h: int, kk: int|
                    0 <= h < head && 0 <= kk < f.deg(q0[h].0 as int) ==> #[trigger] runs0.contains(runs0[h].push(kk)),
            decreases f.deg(q as int) - k,
        {
            let e = f.arcs[q][k];
            assert(e == f.arc(q as int, k as int));
            let mut ins = copy_labels(&queue[head].1);
            let mut outs = copy_labels(&queue[head].2);
            if e.ilabel != EPS_LABEL {
                ins.push(e.ilabel);
            }
            if e.olabel != EPS_LABEL {
                outs.push(e.olabel);
            }
            let ghost runs1 = runs;
            let ghost newr = run_h.push(k as int);
            proof {
                let (qq, i0, o0) = queue@[head as int];
                lemma_run_append(*f, start as int, run_h, q as int, k as int);
                lemma_strip_push(run_ilabels(*f, start as int, run_h), e.ilabel);
                lemma_strip_push(run_olabels(*f, start as int, run_h), e.olabel);
                assert forall|m: int| 0 <= m < runs1.len() implies runs1[m] != newr by {
                    if m == 0 {
                        assert(newr.len() > 0);
                    } else {
                        assert(extends_earlier(runs1, m, head as int, k as int));
                        let (pp, kk) = choose|pp: int, kk: int|
                            #![trigger runs1[pp].push(kk)]
                            0 <= pp < m && runs1[m] == runs1[pp].push(kk) && (pp < head || (pp == head && kk < k));
                        if runs1[m] == newr {
                            assert(runs1[m].drop_last() == runs1[pp]);
                            assert(newr.drop_last() == run_h);
                            assert(runs1[pp] == runs1[head as int]);
                            assert(runs1[m].last() == kk && newr.last() == k);
                        }
                    }
                }
                runs = runs.push(newr);
                assert forall|m: int| 1 <= m < runs.len() implies #[trigger] extends_earlier(runs, m, head as int, k + 1) by {
                    if m < runs1.len() {
                        assert(extends_earlier(runs1, m, head as int, k as int));
                        let (pp, kk) = choose|pp: int, kk: int|
                            #![trigger runs1[pp].push(kk)]
                            0 <= pp < m && runs1[m] == runs1[pp].push(kk) && (pp < head || (pp == head && kk < k));
                        assert(runs[pp] == runs1[pp] && runs[m] == runs1[m]);
                        assert(runs[pp].push(kk) == runs1[pp].push(kk));
                    } else {
                        assert(runs[head as int] == run_h);
                        assert(runs[m] == runs[head as int].push(k as int));
                    }
                }
                assert forall|kk: int| 0 <= kk < k + 1 implies #[trigger] runs.contains(run_h.push(kk)) by {
                    if kk < k {
                        assert(runs1.contains(run_h.push(kk)));
                        let j = choose|j: int| 0 <= j < runs1.len() && runs1[j] == run_h.push(kk);
                        assert(runs[j] == runs1[j]);
                    } else {
                        assert(runs[runs1.len() as int] == newr);
                    }
                }
            }
            queue.push((e.nextstate, ins, outs));
            k = k + 1;
        }
        proof {
            assert forall|h: int, kk: int|
                0 <= h < head + 1 && 0 <= kk < f.deg(queue@[h].0 as int) implies #[trigger] runs.contains(runs[h].push(kk)) by {
                if h < head {
                    assert(queue@[h] == q0[h] && runs[h] == runs0[h]);
                    assert(runs0.contains(runs0[h].push(kk)));
                    let j = choose|j: int| 0 <= j < runs0.len() && runs0[j] == runs0[h].push(kk);
                    assert(runs[j] == runs0[j]);
                }
            }
            assert forall|h: int|
                0 <= h < head + 1 && f.is_final(#[trigger] queue@[h].0 as int) implies exists|o: int|
                    0 <= o < out@.len() && (#[trigger] out@[o]).input@ == queue@[h].1@ && out@[o].output@ == queue@[h].2@ by {
                assert(queue@[h] == q0[h]);
            }
            assert forall|m: int| 1 <= m < runs.len() implies #[trigger] extends_earlier(runs, m, head + 1, 0) by {
                assert(extends_earlier(runs, m, head as int, k as int));
                let (pp, kk) = choose|pp: int, kk: int|
                    #![trigger runs[pp].push(kk)]
                    0 <= pp < m && runs[m] == runs[pp].push(kk) && (pp < head || (pp == head && kk < k));
                assert(runs[pp].push(kk) == runs[pp].push(kk));
            }
        }
        head = head + 1;
    }
    proof {
        if max_paths <= step_limit && runs_fewer_than(*f, max_paths as int) {
            assert forall|rs: Seq<Seq<int>>|
                #![trigger rs.len()]
                rs.len() == step_limit && (forall|i: int, j: int| 0 <= i < j < rs.len() ==> #[trigger] rs[i] != #[trigger] rs[j])
                    implies exists|i: int| 0 <= i < rs.len() && !(#[trigger] run_from_start(*f, rs[i])) by {
                let sub = rs.take(max_paths as int);
                assert(sub.len() == max_paths);
                assert forall|i: int, j: int| 0 <= i < j < sub.len() implies #[trigger] sub[i] != #[trigger] sub[j] by {
                    assert(sub[i] == rs[i] && sub[j] == rs[j]);
                }
                let i = choose|i: int| 0 <= i < sub.len() && !(#[trigger] run_from_start(*f, sub[i]));
                assert(sub[i] == rs[i]);
            }
            if head >= max_paths {
                let rs = runs.take(max_paths as int);
                assert(rs.len() == max_paths);
                assert forall|i: int, j: int| 0 <= i < j < rs.len() implies #[trigger] rs[i] != #[trigger] rs[j] by {
                    assert(rs[i] == runs[i] && rs[j] == runs[j]);
                }
                assert forall|i: int| 0 <= i < rs.len() implies #[trigger] run_from_start(*f, rs[i]) by {
                    assert(rs[i] == runs[i]);
                    let (qq, ii, oo) = queue@[i];
                    assert(is_run(*f, start as int, runs[i], qq as int));
                }
                assert(false);
            }
        }
        if out@.len() < max_paths && runs_fewer_than(*f, step_limit as int) {
            if head >= step_limit {
                let rs = runs.take(step_limit as int);
                assert(rs.len() == step_limit);
                assert forall|i: int, j: int| 0 <= i < j < rs.len() implies #[trigger] rs[i] != #[trigger] rs[j] by {
                    assert(rs[i] == runs[i] && rs[j] == runs[j]);
                }
                assert forall|i: int| 0 <= i < rs.len() implies #[trigger] run_from_start(*f, rs[i]) by {
                    assert(rs[i] == runs[i]);
                    let (qq, ii, oo) = queue@[i];
                    assert(is_run(*f, start as int, runs[i], qq as int));
                }
                assert(false);
            }
            assert(head == queue@.len());
            assert forall|x: Seq<Label>, y: Seq<Label>|
                #[trigger] accepts(*f, x, y) implies exists|i: int| 0 <= i < out@.len() && (#[trigger] out@[i]).input@ == x && out@[i].output@ == y by {
                let (steps, t) = choose|steps: Seq<int>, t: int|
                    #![trigger is_run(*f, f.start->0 as int, steps, t)]
                    {
                        &&& f.start is Some
                        &&& is_run(*f, f.start->0 as int, steps, t)
                        &&& 0 <= t < f.n()
                        &&& f.is_final(t)
                        &&& strip_eps(run_ilabels(*f, f.start->0 as int, steps)) == x
                        &&& strip_eps(run_olabels(*f, f.start->0 as int, steps)) == y
                    };
                let h = lemma_bfs_contains(*f, start as int, runs, queue@, steps, t);
                let (qq, ii, oo) = queue@[h];
                lemma_run_end_unique(*f, start as int, steps, t, qq as int);
                assert(f.is_final(queue@[h].0 as int));
            }
        }
    }
    out
}

/// A run ends in one state.
proof fn lemma_run_end_unique(f: Fst, from: int, steps: Seq<int>, t1: int, t2: int)
    requires
        is_run(f, from, steps, t1),
        is_run(f, from, steps, t2),
    ensures
        t1 == t2,
    decreases steps.len(),
{
    if steps.len() > 0 {
        lemma_run_end_unique(f, f.arc(from, steps[0]).nextstate as int, steps.drop_first(), t1, t2);
    }
}

/// A run from `from` to `mid` extended by arc `k` of `mid`.
proof fn lemma_run_push_back(f: Fst, from: int, steps: Seq<int>, t: int) -> (mid: int)
    requires
        steps.len() > 0,
        is_run(f, from, steps, t),
    ensures
        is_run(f, from, steps.drop_last(), mid),
        0 <= mid < f.n(),
        0 <= steps.last() < f.deg(mid),
        f.arc(mid, steps.last()).nextstate == t,
    decreases steps.len(),
{
    if steps.len() == 1 {
        assert(steps.drop_last() =~= Seq::<int>::empty());
        assert(steps.drop_first() =~= Seq::<int>::empty());
        assert(steps.last() == steps[0]);
        assert(is_run(f, f.arc(from, steps[0]).nextstate as int, steps.drop_first(), t));
        from
    } else {
        let nx = f.arc(from, steps[0]).nextstate as int;
        let mid = lemma_run_push_back(f, nx, steps.drop_first(), t);
        assert(steps.drop_first().drop_last() =~= steps.drop_last().drop_first());
        assert(steps.drop_first().last() == steps.last());
        mid
    }
}

/// Every arc has its own target state, and no arc enters the start state:
/// each state is reached from the start by at most one run.
pub open spec fn in_tree(f: Fst) -> bool {
    &&& f.start is Some
    &&& forall|p: int, k: int| 0 <= p < f.n() && 0 <= k < f.deg(p) ==> #[trigger] f.arc(p, k).nextstate != f.start->0
    &&& forall|p: int, k: int, p2: int, k2: int|
        0 <= p < f.n() && 0 <= k < f.deg(p) && 0 <= p2 < f.n() && 0 <= k2 < f.deg(p2) && #[trigger] f.arc(p, k).nextstate
            == #[trigger] f.arc(p2, k2).nextstate ==> p == p2 && k == k2
}

/// In a tree-shaped machine, two runs from the start to one state are the
/// same run.
proof fn lemma_tree_run_unique(f: Fst, s1: Seq<int>, s2: Seq<int>, t: int)
    requires
        f.wf(),
        in_tree(f),
        is_run(f, f.start->0 as int, s1, t),
        is_run(f, f.start->0 as int, s2, t),
    ensures
        s1 == s2,
    decreases s1.len(),
{
    let st = f.start->0 as int;
    if s1.len() == 0 {
        if s2.len() > 0 {
            let m2 = lemma_run_push_back(f, st, s2, t);
            assert(f.arc(m2, s2.last()).nextstate != f.start->0);
        }
        assert(s1 =~= s2);
    } else if s2.len() == 0 {
        let m1 = lemma_run_push_back(f, st, s1, t);
        assert(f.arc(m1, s1.last()).nextstate != f.start->0);
    } else {
        let m1 = lemma_run_push_back(f, st, s1, t);
        let m2 = lemma_run_push_back(f, st, s2, t);
        assert(f.arc(m1, s1.last()).nextstate == f.arc(m2, s2.last()).nextstate);
        lemma_tree_run_unique(f, s1.drop_last(), s2.drop_last(), m1);
        assert(s1 =~= s1.drop_last().push(s1.last()));
        assert(s2 =~= s2.drop_last().push(s2.last()));
    }
}

/// A run from the start of a well-formed machine ends in a state.
proof fn lemma_run_end_in_range(f: Fst, steps: Seq<int>, t: int)
    requires
        f.wf(),
        f.start is Some,
        is_run(f, f.start->0 as int, steps, t),
    ensures
        0 <= t < f.n(),
{
    if steps.len() > 0 {
        let m = lemma_run_push_back(f, f.start->0 as int, steps, t);
    }
}

/// A tree-shaped machine with fewer than `limit` states has fewer than
/// `limit` runs from its start: each run ends in its own state.
pub proof fn lemma_tree_runs_fewer(f: Fst, limit: int)
    requires
        f.wf(),
        in_tree(f),
        f.n() < limit <= usize::MAX,
    ensures
        runs_fewer_than(f, limit),
{
    assert forall|rs: Seq<Seq<int>>|
        #![trigger rs.len()]
        rs.len() == limit && (forall|i: int, j: int| 0 <= i < j < rs.len() ==> #[trigger] rs[i] != #[trigger] rs[j])
            implies exists|i: int| 0 <= i < rs.len() && !(#[trigger] run_from_start(f, rs[i])) by {
        if forall|i: int| 0 <= i < rs.len() ==> #[trigger] run_from_start(f, rs[i]) {
            let ends = Seq::new(rs.len(), |i: int| (choose|t: int| is_run(f, f.start->0 as int, rs[i], t)) as usize);
            assert forall|i: int| 0 <= i < ends.len() implies (#[trigger] ends[i] as int) < f.n()
                && is_run(f, f.start->0 as int, rs[i], ends[i] as int) by {
                assert(run_from_start(f, rs[i]));
                let t = choose|t: int| is_run(f, f.start->0 as int, rs[i], t);
                lemma_run_end_in_range(f, rs[i], t);
                assert(ends[i] == t as usize);
                assert(ends[i] as int == t);
            }
            assert forall|i: int, j: int| 0 <= i < j < ends.len() implies ends[i] != ends[j] by {
                if ends[i] == ends[j] {
                    assert(is_run(f, f.start->0 as int, rs[i], ends[i] as int));
                    assert(is_run(f, f.start->0 as int, rs[j], ends[j] as int));
                    lemma_tree_run_unique(f, rs[i], rs[j], ends[i] as int);
                    assert(rs[i] != rs[j]);
                }
            }
            lemma_distinct_bounded(ends, f.n());
        }
    }
}

/// Arc `(q, kk)` comes before arc `(p, k)`: an earlier state, or an earlier
/// arc of the same state.
pub open spec fn arc_before(q: int, kk: int, p: int, k: int) -> bool {
    q < p || (q == p && kk < k)
}

/// Whether the machine is tree-shaped ([`in_tree`]).
pub fn is_tree_shaped(f: &Fst) -> (b: bool)
    requires
        f.wf(),
    ensures
        b == in_tree(*f),
{
    let start = match f.start {
        Some(s) => s,
        None => {
            return false;
        },
    };
    let n = f.arcs.len();
    let mut seen: Vec<bool> = Vec::new();
    let mut z: usize = 0;
    while z < n
        invariant
            z <= n,
            n == f.arcs@.len(),
            seen@.len() == z,
            forall|t: int| 0 <= t < z ==> !(#[trigger] seen@[t]),
        decreases n - z,
    {
        seen.push(false);
        z = z + 1;
    }
    let mut p: usize = 0;
    while p < n
        invariant
            f.wf(),
            f.start == Some(start),
            n == f.arcs@.len(),
            p <= n,
            seen@.len() == n,
            forall|t: int| 0 <= t < n ==> (#[trigger] seen@[t] <==> exists|q: int, kk: int|
                0 <= q < p && 0 <= kk < f.deg(q) && #[trigger] f.arc(q, kk).nextstate == t),
            forall|q: int, kk: int| 0 <= q < p && 0 <= kk < f.deg(q) ==> #[trigger] f.arc(q, kk).nextstate != start,
            forall|q: int, kk: int, q2: int, kk2: int|
                0 <= q < p && 0 <= kk < f.deg(q) && 0 <= q2 < p && 0 <= kk2 < f.deg(q2) && #[trigger] f.arc(q, kk).nextstate
                    == #[trigger] f.arc(q2, kk2).nextstate ==> q == q2 && kk == kk2,
        decreases n - p,
    {
        let row = &f.arcs[p];
        proof {
            assert(row@ == f.rows()[p as int]);
        }
        let mut k: usize = 0;
        while k < row.len()
            invariant
                f.wf(),
                f.start == Some(start),
                n == f.arcs@.len(),
                p < n,
                row@ == f.rows()[p as int],
                k <= row@.len(),
                seen@.len() == n,
                forall|t: int| 0 <= t < n ==> (#[trigger] seen@[t] <==> exists|q: int, kk: int|
                    0 <= q < n && 0 <= kk < f.deg(q) && arc_before(q, kk, p as int, k as int) && #[trigger] f.arc(q, kk).nextstate == t),
                forall|q: int, kk: int| 0 <= q < n && 0 <= kk < f.deg(q) && arc_before(q, kk, p as int, k as int) ==> #[trigger] f.arc(q, kk).nextstate != start,
                forall|q: int, kk: int, q2: int, kk2: int|
                    0 <= q < n && 0 <= kk < f.deg(q) && 0 <= q2 < n && 0 <= kk2 < f.deg(q2) && arc_before(q, kk, p as int, k as int)
                        && arc_before(q2, kk2, p as int, k as int) && #[trigger] f.arc(q, kk).nextstate == #[trigger] f.arc(q2, kk2).nextstate
                        ==> q == q2 && kk == kk2,
            decreases row@.len() - k,
        {
            let t = row[k].nextstate;
            proof {
                assert(f.arc(p as int, k as int) == row@[k as int]);
                assert((t as int) < n);
            }
            if t == start {
                return false;
            }
            if seen[t] {
                proof {
                    let (q, kk) = choose|q: int, kk: int|
                        0 <= q < n && 0 <= kk < f.deg(q) && arc_before(q, kk, p as int, k as int) && #[trigger] f.arc(q, kk).nextstate == t as int;
                    assert(f.arc(q, kk).nextstate == f.arc(p as int, k as int).nextstate);
                }
                return false;
            }
            seen.set(t, true);
            k = k + 1;
        }
        proof {
            assert(f.deg(p as int) == k);
            assert forall|t: int| 0 <= t < n implies (#[trigger] seen@[t] <==> exists|q: int, kk: int|
                0 <= q < p + 1 && 0 <= kk < f.deg(q) && #[trigger] f.arc(q, kk).nextstate == t) by {
                if seen@[t] {
                    let (q, kk) = choose|q: int, kk: int|
                        0 <= q < n && 0 <= kk < f.deg(q) && arc_before(q, kk, p as int, k as int) && #[trigger] f.arc(q, kk).nextstate == t;
                }
                if exists|q: int, kk: int| 0 <= q < p + 1 && 0 <= kk < f.deg(q) && #[trigger] f.arc(q, kk).nextstate == t {
                    let (q, kk) = choose|q: int, kk: int| 0 <= q < p + 1 && 0 <= kk < f.deg(q) && #[trigger] f.arc(q, kk).nextstate == t;
                    assert(arc_before(q, kk, p as int, k as int));
                }
            }
            assert forall|q: int, kk: int| 0 <= q < p + 1 && 0 <= kk < f.deg(q) implies #[trigger] f.arc(q, kk).nextstate != start by {
                assert(arc_before(q, kk, p as int, k as int));
            }
            assert forall|q: int, kk: int, q2: int, kk2: int|
                0 <= q < p + 1 && 0 <= kk < f.deg(q) && 0 <= q2 < p + 1 && 0 <= kk2 < f.deg(q2) && #[trigger] f.arc(q, kk).nextstate
                    == #[trigger] f.arc(q2, kk2).nextstate implies q == q2 && kk == kk2 by {
                assert(arc_before(q, kk, p as int, k as int));
                assert(arc_before(q2, kk2, p as int, k as int));
            }
        }
        p = p + 1;
    }
    true
}

/// Every arc of the start state leads to another state with no arcs: the
/// runs from the start are the empty run and one run per such arc.
pub open spec fn one_step(f: Fst) -> bool {
    &&& f.start is Some
    &&& (f.start->0 as int) < f.n()
    &&& forall|k: int| 0 <= k < f.deg(f.start->0 as int) ==> {
        let t = (#[trigger] f.arc(f.start->0 as int, k)).nextstate as int;
        t != f.start->0 as int && f.deg(t) == 0
    }
}

/// A one-step machine is one.
pub proof fn lemma_step_machine_one_step(f: Fst, labels: Seq<(Label, Label)>)
    requires
        is_step_machine(f, labels),
    ensures
        one_step(f),
{
    assert forall|k: int| 0 <= k < f.deg(0) implies {
        let t = (#[trigger] f.arc(0, k)).nextstate as int;
        t != 0 && f.deg(t) == 0
    } by {
        assert(f.arc(0, k).nextstate == 1);
    }
}

/// A one-step machine has exactly the empty run and the one-arc runs
/// from its start, so fewer runs than its start's arcs plus two.
pub proof fn lemma_one_step_runs(f: Fst)
    requires
        f.wf(),
        one_step(f),
    ensures
        runs_fewer_than(f, f.deg(f.start->0 as int) + 2),
{
    let s = f.start->0 as int;
    let d = f.deg(s);
    assert forall|rs: Seq<Seq<int>>|
        #![trigger rs.len()]
        rs.len() == d + 2 && (forall|i: int, j: int| 0 <= i < j < rs.len() ==> #[trigger] rs[i] != #[trigger] rs[j])
            implies exists|i: int| 0 <= i < rs.len() && !(#[trigger] run_from_start(f, rs[i])) by {
        if forall|i: int| 0 <= i < rs.len() ==> #[trigger] run_from_start(f, rs[i]) {
            assert forall|i: int| 0 <= i < rs.len() implies #[trigger] rs[i].len() <= 1 && (rs[i].len() == 1 ==> 0 <= rs[i][0] < d) by {
                assert(run_from_start(f, rs[i]));
                let t = choose|t: int| is_run(f, s, rs[i], t);
                if rs[i].len() >= 1 {
                    let t1 = f.arc(s, rs[i][0]).nextstate as int;
                    assert(is_run(f, t1, rs[i].drop_first(), t));
                    if rs[i].len() >= 2 {
                        assert(f.deg(t1) == 0);
                        assert(rs[i].drop_first()[0] == rs[i][1]);
                    }
                }
            }
            let codes = Seq::new(rs.len(), |i: int| if rs[i].len() == 0 { 0 } else { 1 + rs[i][0] });
            assert forall|i: int| 0 <= i < codes.len() implies 0 <= #[trigger] codes[i] < d + 1 by {
                assert(rs[i].len() <= 1);
            }
            assert forall|i: int, j: int| 0 <= i < j < codes.len() implies codes[i] != codes[j] by {
                assert(rs[i].len() <= 1 && rs[j].len() <= 1);
                assert(rs[i].len() == 1 ==> 0 <= rs[i][0] < d);
                assert(rs[j].len() == 1 ==> 0 <= rs[j][0] < d);
                if codes[i] == codes[j] {
                    if rs[i].len() == 0 {
                        assert(rs[j].len() == 0);
                        assert(rs[i] =~= rs[j]);
                    } else {
                        assert(rs[j].len() == 1);
                        assert(rs[i] =~= rs[j]);
                    }
                    assert(rs[i] != rs[j]);
                }
            }
            lemma_distinct_ints_bounded(codes, d + 1);
        }
    }
}

/// At most `n` distinct integers lie in `0..n`.
proof fn lemma_distinct_ints_bounded(s: Seq<int>, n: int)
    requires
        n >= 0,
        forall|i: int| 0 <= i < s.len() ==> 0 <= #[trigger] s[i] < n,
        forall|i: int, j: int| 0 <= i < j < s.len() ==> s[i] != s[j],
    ensures
        s.len() <= n,
{
    assert forall|i: int, j: int| 0 <= i < s.len() && 0 <= j < s.len() && i != j implies s[i] != s[j] by {
        if i < j { assert(s[i] != s[j]); } else { assert(s[j] != s[i]); }
    }
    s.unique_seq_to_set();
    lemma_int_range(0, n);
    assert forall|x: int| s.to_set().contains(x) implies set_int_range(0, n).contains(x) by {
        let i = choose|i: int| 0 <= i < s.len() && s[i] == x;
    }
    lemma_len_subset(s.to_set(), set_int_range(0, n));
}

/// Whether the machine is one-step ([`one_step`]).
pub fn is_one_step(f: &Fst) -> (b: bool)
    requires
        f.wf(),
    ensures
        b == one_step(*f),
{
    let s = match f.start {
        Some(s) => s,
        None => {
            return false;
        },
    };
    let row = &f.arcs[s];
    proof {
        assert(row@ == f.rows()[s as int]);
    }
    let mut k: usize = 0;
    while k < row.len()
        invariant
            f.wf(),
            f.start == Some(s),
            (s as int) < f.n(),
            row@ == f.rows()[s as int],
            k <= row@.len(),
            forall|j: int| 0 <= j < k ==> {
                let t = (#[trigger] f.arc(s as int, j)).nextstate as int;
                t != s as int && f.deg(t) == 0
            },
        decreases row@.len() - k,
    {
        let t = row[k].nextstate;
        proof {
            assert(f.arc(s as int, k as int) == row@[k as int]);
        }
        if t == s || f.arcs[t].len() != 0 {
            proof {
                assert(f.arcs@[t as int]@.len() == f.deg(t as int));
            }
            return false;
        }
        proof {
            assert(f.arcs@[t as int]@.len() == f.deg(t as int));
        }
        k = k + 1;
    }
    true
}

/// A chain machine is tree-shaped.
pub proof fn lemma_chain_in_tree(f: Fst, ins: Seq<Label>, outs: Seq<Label>)
    requires
        f.wf(),
        is_chain_machine(f, ins, outs),
        f.n() <= usize::MAX,
    ensures
        in_tree(f),
{
    assert forall|p: int, k: int| 0 <= p < f.n() && 0 <= k < f.deg(p) implies #[trigger] f.arc(p, k).nextstate != f.start->0 by {
        if p == ins.len() {
            assert(f.deg(p) == 0);
        }
        assert(f.deg(p) == 1);
        assert(k == 0);
        assert(f.arc(p, 0).nextstate == (p + 1) as usize);
    }
    assert forall|p: int, k: int, p2: int, k2: int|
        0 <= p < f.n() && 0 <= k < f.deg(p) && 0 <= p2 < f.n() && 0 <= k2 < f.deg(p2) && #[trigger] f.arc(p, k).nextstate
            == #[trigger] f.arc(p2, k2).nextstate implies p == p2 && k == k2 by {
        if p == ins.len() {
            assert(f.deg(p) == 0);
        }
        if p2 == ins.len() {
            assert(f.deg(p2) == 0);
        }
        assert(f.deg(p) == 1 && f.deg(p2) == 1);
        assert(k == 0 && k2 == 0);
        assert(f.arc(p, 0).nextstate == (p + 1) as usize);
        assert(f.arc(p2, 0).nextstate == (p2 + 1) as usize);
    }
}

/// Where an arc of a union leads: the fresh start's arcs to the two
/// starts, the first part's arcs moved up by one, the second's by one
/// more than the first part's size.
proof fn lemma_union_arc(r: Fst, a: Fst, b: Fst, p: int, k: int)
    requires
        a.wf(),
        b.wf(),
        unites(r, a, b),
        a.start is Some,
        b.start is Some,
        0 <= p < r.n(),
        0 <= k < r.deg(p),
    ensures
        p == 0 ==> (k == 0 && r.arc(p, k).nextstate == 1 + a.start->0) || (k == 1 && r.arc(p, k).nextstate == 1 + a.n()
            + b.start->0),
        1 <= p < 1 + a.n() ==> 0 <= k < a.deg(p - 1) && r.arc(p, k).nextstate == a.arc(p - 1, k).nextstate + 1,
        1 + a.n() <= p ==> 0 <= k < b.deg(p - 1 - a.n()) && r.arc(p, k).nextstate == b.arc(p - 1 - a.n(), k).nextstate + 1
            + a.n(),
{
    if 1 <= p < 1 + a.n() {
        assert(r.rows()[1 + (p - 1)] == shift_row(a.rows()[p - 1], 1));
    } else if 1 + a.n() <= p {
        assert(r.rows()[1 + a.n() + (p - 1 - a.n())] == shift_row(b.rows()[p - 1 - a.n()], 1 + a.n()));
    }
}

/// Being tree-shaped depends only on the start state and the arcs.
pub proof fn lemma_same_rows_in_tree(f: Fst, g: Fst)
    requires
        f.start == g.start,
        f.rows() == g.rows(),
        in_tree(g),
    ensures
        in_tree(f),
{
    assert(f.rows().len() == f.n() && g.rows().len() == g.n());
    assert forall|p: int, k: int| 0 <= p < f.n() && 0 <= k < f.deg(p) implies #[trigger] f.arc(p, k).nextstate != f.start->0 by {
        assert(f.arc(p, k) == g.arc(p, k));
    }
    assert forall|p: int, k: int, p2: int, k2: int|
        0 <= p < f.n() && 0 <= k < f.deg(p) && 0 <= p2 < f.n() && 0 <= k2 < f.deg(p2) && #[trigger] f.arc(p, k).nextstate
            == #[trigger] f.arc(p2, k2).nextstate implies p == p2 && k == k2 by {
        assert(f.arc(p, k) == g.arc(p, k));
        assert(f.arc(p2, k2) == g.arc(p2, k2));
    }
}

/// The union of two tree-shaped machines is tree-shaped.
pub proof fn lemma_union_in_tree(r: Fst, a: Fst, b: Fst)
    requires
        a.wf(),
        b.wf(),
        unites(r, a, b),
        in_tree(a),
        in_tree(b),
    ensures
        in_tree(r),
{
    assert forall|p: int, k: int| 0 <= p < r.n() && 0 <= k < r.deg(p) implies #[trigger] r.arc(p, k).nextstate != r.start->0 by {
        lemma_union_arc(r, a, b, p, k);
    }
    assert forall|p: int, k: int, p2: int, k2: int|
        0 <= p < r.n() && 0 <= k < r.deg(p) && 0 <= p2 < r.n() && 0 <= k2 < r.deg(p2) && #[trigger] r.arc(p, k).nextstate
            == #[trigger] r.arc(p2, k2).nextstate implies p == p2 && k == k2 by {
        lemma_union_arc(r, a, b, p, k);
        lemma_union_arc(r, a, b, p2, k2);
        if 1 <= p < 1 + a.n() {
            assert(a.arc(p - 1, k).nextstate < a.n());
        }
        if 1 <= p2 < 1 + a.n() {
            assert(a.arc(p2 - 1, k2).nextstate < a.n());
        }
        if 1 + a.n() <= p {
            assert(b.arc(p - 1 - a.n(), k).nextstate < b.n());
        }
        if 1 + a.n() <= p2 {
            assert(b.arc(p2 - 1 - a.n(), k2).nextstate < b.n());
        }
        if p == 0 && 1 <= p2 < 1 + a.n() {
            assert(a.arc(p2 - 1, k2).nextstate != a.start->0);
        }
        if p2 == 0 && 1 <= p < 1 + a.n() {
            assert(a.arc(p - 1, k).nextstate != a.start->0);
        }
        if p == 0 && 1 + a.n() <= p2 {
            assert(b.arc(p2 - 1 - a.n(), k2).nextstate != b.start->0);
        }
        if p2 == 0 && 1 + a.n() <= p {
            assert(b.arc(p - 1 - a.n(), k).nextstate != b.start->0);
        }
    }
}

/// An exhausted breadth-first enumeration closed under one-arc extension
/// holds every run from its root.
proof fn lemma_bfs_contains(
    f: Fst,
    start: int,
    runs: Seq<Seq<int>>,
    queue: Seq<(StateId, Vec<Label>, Vec<Label>)>,
    steps: Seq<int>,
    t: int,
) -> (h: int)
    requires
        f.wf(),
        runs.len() == queue.len(),
        runs.len() > 0,
        runs[0] == Seq::<int>::empty(),
        is_run(f, start, steps, t),
        forall|i: int| 0 <= i < queue.len() ==> is_run(f, start, runs[i], (#[trigger] queue[i]).0 as int),
        forall|h: int, k: int|
            0 <= h < queue.len() && 0 <= k < f.deg(queue[h].0 as int) ==> #[trigger] runs.contains(runs[h].push(k)),
    ensures
        0 <= h < runs.len(),
        runs[h] == steps,
    decreases steps.len(),
{
    if steps.len() == 0 {
        0
    } else {
        let mid = lemma_run_push_back(f, start, steps, t);
        let hp = lemma_bfs_contains(f, start, runs, queue, steps.drop_last(), mid);
        lemma_run_end_unique(f, start, steps.drop_last(), mid, queue[hp].0 as int);
        assert(runs.contains(runs[hp].push(steps.last())));
        assert(steps.drop_last().push(steps.last()) =~= steps);
        let j = choose|j: int| 0 <= j < runs.len() && runs[j] == runs[hp].push(steps.last());
        j
    }
}

fn copy_labels(v: &Vec<Label>) -> (r: Vec<Label>)
    ensures
        r@ == v@,
{
    let mut r: Vec<Label> = Vec::new();
    let mut i: usize = 0;
    while i < v.len()
        invariant
            i <= v@.len(),
            r@ == v@.take(i as int),
        decreases v@.len() - i,
    {
        r.push(v[i]);
        proof { assert(v@.take(i as int + 1) =~= v@.take(i as int).push(v@[i as int])); }
        i = i + 1;
    }
    proof { assert(v@.take(v@.len() as int) =~= v@); }
    r
}

} // verus!
