//! Minimisation: merge states that no run can tell apart.
//!
//! Two states are merged when they agree on finality and each arc of one
//! is matched by an arc of the other with the same labels into a merged
//! state (a bisimulation). The table of merged pairs is refined from
//! "same finality" until it is stable; the quotient keeps one state per
//! class. On a deterministic machine this is the minimal machine.

use vstd::prelude::*;

use super::backend::StateId;
use super::backend::Label;
use super::machine::{accepts, is_run, run_ilabels, run_olabels, strip_eps, Arc, Fst};

verus! {

/// Number of `true` entries of a row.
pub open spec fn row_count(row: Seq<bool>) -> nat
    decreases row.len(),
{
    if row.len() == 0 {
        0
    } else {
        row_count(row.drop_last()) + if row.last() { 1nat } else { 0nat }
    }
}

/// Number of `true` entries of a table.
pub open spec fn table_count(t: Seq<Seq<bool>>) -> nat
    decreases t.len(),
{
    if t.len() == 0 {
        0
    } else {
        table_count(t.drop_last()) + row_count(t.last())
    }
}

/// A row whose entries each imply those of another counts no more, and
/// strictly less when one entry is lost.
proof fn lemma_row_count_sub(a: Seq<bool>, b: Seq<bool>)
    requires
        a.len() == b.len(),
        forall|i: int| 0 <= i < a.len() && #[trigger] b[i] ==> a[i],
    ensures
        row_count(b) <= row_count(a),
        (exists|i: int| 0 <= i < a.len() && #[trigger] a[i] && !b[i]) ==> row_count(b) < row_count(a),
    decreases a.len(),
{
    if a.len() > 0 {
        lemma_row_count_sub(a.drop_last(), b.drop_last());
        if exists|i: int| 0 <= i < a.len() && #[trigger] a[i] && !b[i] {
            let i = choose|i: int| 0 <= i < a.len() && #[trigger] a[i] && !b[i];
            if i < a.len() - 1 {
                assert(a.drop_last()[i] && !b.drop_last()[i]);
            }
        }
    }
}

/// The table version of [`lemma_row_count_sub`].
proof fn lemma_table_count_sub(a: Seq<Seq<bool>>, b: Seq<Seq<bool>>)
    requires
        a.len() == b.len(),
        forall|i: int| 0 <= i < a.len() ==> (#[trigger] a[i]).len() == b[i].len(),
        forall|i: int, j: int| 0 <= i < a.len() && 0 <= j < a[i].len() && #[trigger] b[i][j] ==> a[i][j],
    ensures
        table_count(b) <= table_count(a),
        (exists|i: int, j: int| 0 <= i < a.len() && 0 <= j < a[i].len() && #[trigger] a[i][j] && !b[i][j]) ==> table_count(b) < table_count(a),
    decreases a.len(),
{
    if a.len() > 0 {
        let k = a.len() - 1;
        assert forall|i: int, j: int| 0 <= i < a.drop_last().len() && 0 <= j < a.drop_last()[i].len() && #[trigger] b.drop_last()[i][j] implies a.drop_last()[i][j] by {
            assert(b[i][j] ==> a[i][j]);
        }
        lemma_table_count_sub(a.drop_last(), b.drop_last());
        assert forall|j: int| 0 <= j < a[k].len() && #[trigger] b[k][j] implies a[k][j] by {}
        lemma_row_count_sub(a[k], b[k]);
        if exists|i: int, j: int| 0 <= i < a.len() && 0 <= j < a[i].len() && #[trigger] a[i][j] && !b[i][j] {
            let (i, j) = choose|i: int, j: int| 0 <= i < a.len() && 0 <= j < a[i].len() && #[trigger] a[i][j] && !b[i][j];
            if i < k {
                assert(a.drop_last()[i][j] && !b.drop_last()[i][j]);
            } else {
                assert(a[k][j] && !b[k][j]);
            }
        }
    }
}

/// `eq` is an `n` by `n` table.
pub open spec fn square(eq: Seq<Seq<bool>>, n: int) -> bool {
    &&& eq.len() == n
    &&& forall|s: int| 0 <= s < n ==> (#[trigger] eq[s]).len() == n
}

/// `eq` is an equivalence on `0..n` that keeps final and non-final states
/// apart.
pub open spec fn equivalence(f: Fst, eq: Seq<Seq<bool>>) -> bool {
    &&& square(eq, f.n())
    &&& forall|s: int| 0 <= s < f.n() ==> #[trigger] eq[s][s]
    &&& forall|s: int, t: int| 0 <= s < f.n() && 0 <= t < f.n() && #[trigger] eq[s][t] ==> eq[t][s]
    &&& forall|s: int, t: int, u: int| 0 <= s < f.n() && 0 <= t < f.n() && 0 <= u < f.n() && #[trigger] eq[s][t] && #[trigger] eq[t][u] ==> eq[s][u]
    &&& forall|s: int, t: int| 0 <= s < f.n() && 0 <= t < f.n() && #[trigger] eq[s][t] ==> f.finals@[s] == f.finals@[t]
}

/// Arc `x` of `s` is matched by an arc of `t` with the same labels into a
/// state `eq` relates to its target.
pub open spec fn arc_matched(f: Fst, eq: Seq<Seq<bool>>, s: int, x: int, t: int) -> bool {
    exists|y: int|
        #![trigger f.arc(t, y)]
        0 <= y < f.deg(t) && f.arc(t, y).ilabel == f.arc(s, x).ilabel && f.arc(t, y).olabel == f.arc(s, x).olabel
            && eq[f.arc(s, x).nextstate as int][f.arc(t, y).nextstate as int]
}

/// Every arc of `s` is matched by an arc of `t`.
pub open spec fn row_matched(f: Fst, eq: Seq<Seq<bool>>, s: int, t: int) -> bool {
    forall|x: int| 0 <= x < f.deg(s) ==> #[trigger] arc_matched(f, eq, s, x, t)
}

/// One refinement step: keep the pairs whose arcs match both ways.
pub open spec fn refined(f: Fst, eq: Seq<Seq<bool>>, r: Seq<Seq<bool>>) -> bool {
    &&& square(r, f.n())
    &&& forall|s: int, t: int|
        0 <= s < f.n() && 0 <= t < f.n() ==> #[trigger] r[s][t] == (eq[s][t] && row_matched(f, eq, s, t) && row_matched(f, eq, t, s))
}

/// Whether every arc of `s` is matched by an arc of `t`.
fn rows_match(f: &Fst, eq: &Vec<Vec<bool>>, s: StateId, t: StateId) -> (b: bool)
    requires
        f.wf(),
        square(eq@.map_values(|v: Vec<bool>| v@), f.n()),
        (s as int) < f.n(),
        (t as int) < f.n(),
    ensures
        b == row_matched(*f, eq@.map_values(|v: Vec<bool>| v@), s as int, t as int),
{
    let ghost e = eq@.map_values(|v: Vec<bool>| v@);
    let mut x: usize = 0;
    while x < f.arcs[s].len()
        invariant
            f.wf(),
            square(e, f.n()),
            e == eq@.map_values(|v: Vec<bool>| v@),
            (s as int) < f.n(),
            (t as int) < f.n(),
            x <= f.deg(s as int),
            forall|xx: int| 0 <= xx < x ==> #[trigger] arc_matched(*f, e, s as int, xx, t as int),
        decreases f.deg(s as int) - x,
    {
        let a = f.arcs[s][x];
        assert(a == f.arc(s as int, x as int));
        assert(a.nextstate < f.n());
        let mut found = false;
        let mut y: usize = 0;
        while y < f.arcs[t].len()
            invariant
                f.wf(),
                square(e, f.n()),
                e == eq@.map_values(|v: Vec<bool>| v@),
                (s as int) < f.n(),
                (t as int) < f.n(),
                x < f.deg(s as int),
                a == f.arc(s as int, x as int),
                a.nextstate < f.n(),
                y <= f.deg(t as int),
                found == exists|yy: int|
                    #![trigger f.arc(t as int, yy)]
                    0 <= yy < y && f.arc(t as int, yy).ilabel == a.ilabel && f.arc(t as int, yy).olabel == a.olabel
                        && e[a.nextstate as int][f.arc(t as int, yy).nextstate as int],
            decreases f.deg(t as int) - y,
        {
            let b = f.arcs[t][y];
            assert(b == f.arc(t as int, y as int));
            assert(b.nextstate < f.n());
            assert(eq@[a.nextstate as int]@ == e[a.nextstate as int]);
            if b.ilabel == a.ilabel && b.olabel == a.olabel && eq[a.nextstate][b.nextstate] {
                found = true;
            }
            y = y + 1;
        }
        if !found {
            proof {
                assert(!arc_matched(*f, e, s as int, x as int, t as int));
            }
            return false;
        }
        x = x + 1;
    }
    true
}

/// The table after one refinement step.
fn refine(f: &Fst, eq: &Vec<Vec<bool>>) -> (r: Vec<Vec<bool>>)
    requires
        f.wf(),
        square(eq@.map_values(|v: Vec<bool>| v@), f.n()),
    ensures
        refined(*f, eq@.map_values(|v: Vec<bool>| v@), r@.map_values(|v: Vec<bool>| v@)),
{
    let ghost e = eq@.map_values(|v: Vec<bool>| v@);
    let n = f.arcs.len();
    let mut r: Vec<Vec<bool>> = Vec::new();
    let mut s: usize = 0;
    while s < n
        invariant
            f.wf(),
            n as int == f.n(),
            square(e, f.n()),
            e == eq@.map_values(|v: Vec<bool>| v@),
            s <= n,
            r@.len() == s,
            forall|p: int| 0 <= p < s ==> (#[trigger] r@[p])@.len() == n,
            forall|p: int, t: int| 0 <= p < s && 0 <= t < n ==> #[trigger] r@[p]@[t] == (e[p][t] && row_matched(*f, e, p, t) && row_matched(*f, e, t, p)),
        decreases n - s,
    {
        let mut row: Vec<bool> = Vec::new();
        let mut t: usize = 0;
        while t < n
            invariant
                f.wf(),
                n as int == f.n(),
                square(e, f.n()),
                e == eq@.map_values(|v: Vec<bool>| v@),
                s < n,
                t <= n,
                row@.len() == t,
                forall|u: int| 0 <= u < t ==> #[trigger] row@[u] == (e[s as int][u] && row_matched(*f, e, s as int, u) && row_matched(*f, e, u, s as int)),
            decreases n - t,
        {
            assert(eq@[s as int]@ == e[s as int]);
            let v = eq[s][t] && rows_match(f, eq, s, t) && rows_match(f, eq, t, s);
            row.push(v);
            t = t + 1;
        }
        r.push(row);
        s = s + 1;
    }
    proof {
        let rv = r@.map_values(|v: Vec<bool>| v@);
        assert forall|p: int| 0 <= p < f.n() implies (#[trigger] rv[p]).len() == f.n() by {}
        assert forall|p: int, t: int| 0 <= p < f.n() && 0 <= t < f.n() implies #[trigger] rv[p][t] == (e[p][t] && row_matched(*f, e, p, t) && row_matched(*f, e, t, p)) by {
            assert(rv[p] == r@[p]@);
        }
    }
    r
}

/// A refinement step keeps an equivalence an equivalence, and only drops
/// pairs.
proof fn lemma_refine_equivalence(f: Fst, e: Seq<Seq<bool>>, r: Seq<Seq<bool>>)
    requires
        f.wf(),
        equivalence(f, e),
        refined(f, e, r),
    ensures
        equivalence(f, r),
        forall|s: int, t: int| 0 <= s < f.n() && 0 <= t < f.n() && #[trigger] r[s][t] ==> e[s][t],
{
    let n = f.n();
    assert forall|s: int| 0 <= s < n implies #[trigger] r[s][s] by {
        assert forall|x: int| 0 <= x < f.deg(s) implies #[trigger] arc_matched(f, e, s, x, s) by {
            let ns = f.arc(s, x).nextstate as int;
            assert(ns < n);
            assert(e[ns][ns]);
            assert(f.arc(s, x) == f.arc(s, x));
        }
    }
    assert forall|s: int, t: int, u: int| 0 <= s < n && 0 <= t < n && 0 <= u < n && #[trigger] r[s][t] && #[trigger] r[t][u] implies r[s][u] by {
        assert(e[s][t] && e[t][u]);
        assert(e[s][u]);
        assert forall|x: int| 0 <= x < f.deg(s) implies #[trigger] arc_matched(f, e, s, x, u) by {
            assert(arc_matched(f, e, s, x, t));
            let y = choose|y: int|
                #![trigger f.arc(t, y)]
                0 <= y < f.deg(t) && f.arc(t, y).ilabel == f.arc(s, x).ilabel && f.arc(t, y).olabel == f.arc(s, x).olabel
                    && e[f.arc(s, x).nextstate as int][f.arc(t, y).nextstate as int];
            assert(arc_matched(f, e, t, y, u));
            let z = choose|z: int|
                #![trigger f.arc(u, z)]
                0 <= z < f.deg(u) && f.arc(u, z).ilabel == f.arc(t, y).ilabel && f.arc(u, z).olabel == f.arc(t, y).olabel
                    && e[f.arc(t, y).nextstate as int][f.arc(u, z).nextstate as int];
            assert(f.arc(s, x).nextstate < n && f.arc(t, y).nextstate < n && f.arc(u, z).nextstate < n);
            assert(e[f.arc(s, x).nextstate as int][f.arc(u, z).nextstate as int]);
        }
        assert forall|z: int| 0 <= z < f.deg(u) implies #[trigger] arc_matched(f, e, u, z, s) by {
            assert(arc_matched(f, e, u, z, t));
            let y = choose|y: int|
                #![trigger f.arc(t, y)]
                0 <= y < f.deg(t) && f.arc(t, y).ilabel == f.arc(u, z).ilabel && f.arc(t, y).olabel == f.arc(u, z).olabel
                    && e[f.arc(u, z).nextstate as int][f.arc(t, y).nextstate as int];
            assert(arc_matched(f, e, t, y, s));
            let x = choose|x: int|
                #![trigger f.arc(s, x)]
                0 <= x < f.deg(s) && f.arc(s, x).ilabel == f.arc(t, y).ilabel && f.arc(s, x).olabel == f.arc(t, y).olabel
                    && e[f.arc(t, y).nextstate as int][f.arc(s, x).nextstate as int];
            assert(f.arc(s, x).nextstate < n && f.arc(t, y).nextstate < n && f.arc(u, z).nextstate < n);
            assert(e[f.arc(u, z).nextstate as int][f.arc(s, x).nextstate as int]);
        }
    }
}

/// The starting table: states with the same finality.
fn finality_table(f: &Fst) -> (eq: Vec<Vec<bool>>)
    requires
        f.wf(),
    ensures
        equivalence(*f, eq@.map_values(|v: Vec<bool>| v@)),
{
    let n = f.arcs.len();
    let mut eq: Vec<Vec<bool>> = Vec::new();
    let mut s: usize = 0;
    while s < n
        invariant
            f.wf(),
            n as int == f.n(),
            s <= n,
            eq@.len() == s,
            forall|p: int| 0 <= p < s ==> (#[trigger] eq@[p])@.len() == n,
            forall|p: int, t: int| 0 <= p < s && 0 <= t < n ==> #[trigger] eq@[p]@[t] == (f.finals@[p] == f.finals@[t]),
        decreases n - s,
    {
        let mut row: Vec<bool> = Vec::new();
        let mut t: usize = 0;
        while t < n
            invariant
                f.wf(),
                n as int == f.n(),
                s < n,
                t <= n,
                row@.len() == t,
                forall|u: int| 0 <= u < t ==> #[trigger] row@[u] == (f.finals@[s as int] == f.finals@[u]),
            decreases n - t,
        {
            row.push(f.finals[s] == f.finals[t]);
            t = t + 1;
        }
        eq.push(row);
        s = s + 1;
    }
    proof {
        let e = eq@.map_values(|v: Vec<bool>| v@);
        assert forall|p: int| 0 <= p < f.n() implies (#[trigger] e[p]).len() == f.n() by {}
        assert forall|p: int, t: int| 0 <= p < f.n() && 0 <= t < f.n() implies #[trigger] e[p][t] == (f.finals@[p] == f.finals@[t]) by {
            assert(e[p] == eq@[p]@);
        }
    }
    eq
}

/// Whether two square tables are equal.
fn same_table(a: &Vec<Vec<bool>>, b: &Vec<Vec<bool>>, n: usize) -> (r: bool)
    requires
        square(a@.map_values(|v: Vec<bool>| v@), n as int),
        square(b@.map_values(|v: Vec<bool>| v@), n as int),
    ensures
        r == (a@.map_values(|v: Vec<bool>| v@) == b@.map_values(|v: Vec<bool>| v@)),
{
    let ghost av = a@.map_values(|v: Vec<bool>| v@);
    let ghost bv = b@.map_values(|v: Vec<bool>| v@);
    let mut s: usize = 0;
    while s < n
        invariant
            square(av, n as int),
            square(bv, n as int),
            av == a@.map_values(|v: Vec<bool>| v@),
            bv == b@.map_values(|v: Vec<bool>| v@),
            s <= n,
            forall|p: int| 0 <= p < s ==> #[trigger] av[p] == bv[p],
        decreases n - s,
    {
        let mut t: usize = 0;
        while t < n
            invariant
                square(av, n as int),
                square(bv, n as int),
                av == a@.map_values(|v: Vec<bool>| v@),
                bv == b@.map_values(|v: Vec<bool>| v@),
                s < n,
                t <= n,
                forall|u: int| 0 <= u < t ==> #[trigger] av[s as int][u] == bv[s as int][u],
            decreases n - t,
        {
            assert(a@[s as int]@ == av[s as int]);
            assert(b@[s as int]@ == bv[s as int]);
            if a[s][t] != b[s][t] {
                proof {
                    assert(av[s as int][t as int] != bv[s as int][t as int]);
                }
                return false;
            }
            t = t + 1;
        }
        proof {
            assert(av[s as int] =~= bv[s as int]);
        }
        s = s + 1;
    }
    proof {
        assert(av =~= bv);
    }
    true
}

/// `eq` relates only states that no run tells apart: it is an
/// equivalence, and each arc of one related state is matched by an arc of
/// the other with the same labels into a related state.
pub open spec fn bisimulation(f: Fst, eq: Seq<Seq<bool>>) -> bool {
    &&& equivalence(f, eq)
    &&& forall|s: int, t: int| 0 <= s < f.n() && 0 <= t < f.n() && #[trigger] eq[s][t] ==> row_matched(f, eq, s, t)
}

/// Refine the finality table until it is stable.
fn bisimilar_states(f: &Fst) -> (eq: Vec<Vec<bool>>)
    requires
        f.wf(),
    ensures
        bisimulation(*f, eq@.map_values(|v: Vec<bool>| v@)),
{
    let n = f.arcs.len();
    let mut eq = finality_table(f);
    loop
        invariant
            f.wf(),
            n as int == f.n(),
            equivalence(*f, eq@.map_values(|v: Vec<bool>| v@)),
        decreases table_count(eq@.map_values(|v: Vec<bool>| v@)),
    {
        let ghost e = eq@.map_values(|v: Vec<bool>| v@);
        let r = refine(f, &eq);
        let ghost rv = r@.map_values(|v: Vec<bool>| v@);
        proof {
            lemma_refine_equivalence(*f, e, rv);
        }
        if same_table(&eq, &r, n) {
            proof {
                assert forall|s: int, t: int| 0 <= s < f.n() && 0 <= t < f.n() && #[trigger] e[s][t] implies row_matched(*f, e, s, t) by {
                    assert(rv[s][t] == e[s][t]);
                }
            }
            return eq;
        }
        proof {
            assert forall|i: int| 0 <= i < e.len() implies (#[trigger] e[i]).len() == rv[i].len() by {}
            assert forall|i: int, j: int| 0 <= i < e.len() && 0 <= j < e[i].len() && #[trigger] rv[i][j] implies e[i][j] by {}
            assert(exists|i: int, j: int| 0 <= i < e.len() && 0 <= j < e[i].len() && #[trigger] e[i][j] && !rv[i][j]) by {
                if !(exists|i: int, j: int| 0 <= i < e.len() && 0 <= j < e[i].len() && #[trigger] e[i][j] && !rv[i][j]) {
                    assert forall|i: int| 0 <= i < e.len() implies #[trigger] e[i] =~= rv[i] by {
                        assert forall|j: int| 0 <= j < e[i].len() implies #[trigger] e[i][j] == rv[i][j] by {
                            if e[i][j] {
                                assert(rv[i][j]);
                            }
                        }
                    }
                    assert(e =~= rv);
                }
            }
            lemma_table_count_sub(e, rv);
        }
        eq = r;
    }
}

/// Arc `x` of `s` is matched by an arc of `t` with the same labels into a
/// state with the same number.
pub open spec fn arc_matched_by(f: Fst, newid: Seq<usize>, s: int, x: int, t: int) -> bool {
    exists|y: int|
        #![trigger f.arc(t, y)]
        0 <= y < f.deg(t) && f.arc(t, y).ilabel == f.arc(s, x).ilabel && f.arc(t, y).olabel == f.arc(s, x).olabel
            && newid[f.arc(s, x).nextstate as int] == newid[f.arc(t, y).nextstate as int]
}

/// `s` and `t` agree on finality and every arc of `s` is matched by one
/// of `t`.
pub open spec fn state_matched(f: Fst, newid: Seq<usize>, s: int, t: int) -> bool {
    &&& f.finals@[s] == f.finals@[t]
    &&& forall|x: int| 0 <= x < f.deg(s) ==> #[trigger] arc_matched_by(f, newid, s, x, t)
}

/// `m` is the quotient of `f` by the numbering `newid` of its states, the
/// states numbered `q` being represented by `reprs[q]`; states with the
/// same number match each other.
pub open spec fn quotient_of(m: Fst, f: Fst, newid: Seq<usize>, reprs: Seq<usize>) -> bool {
    &&& m.wf()
    &&& f.wf()
    &&& newid.len() == f.n()
    &&& reprs.len() == m.n()
    &&& m.n() <= f.n()
    &&& forall|s: int| 0 <= s < f.n() ==> (#[trigger] newid[s] as int) < m.n()
    &&& forall|q: int| 0 <= q < m.n() ==> (#[trigger] reprs[q] as int) < f.n() && newid[reprs[q] as int] as int == q
    &&& m.start == (match f.start {
        Some(s) => Some(newid[s as int]),
        None => None,
    })
    &&& forall|q: int| 0 <= q < m.n() ==> #[trigger] m.finals@[q] == f.finals@[reprs[q] as int]
    &&& forall|q: int| 0 <= q < m.n() ==> #[trigger] m.deg(q) == f.deg(reprs[q] as int)
    &&& forall|q: int, x: int|
        0 <= q < m.n() && 0 <= x < m.deg(q) ==> #[trigger] m.arc(q, x) == (Arc {
            ilabel: f.arc(reprs[q] as int, x).ilabel,
            olabel: f.arc(reprs[q] as int, x).olabel,
            nextstate: newid[f.arc(reprs[q] as int, x).nextstate as int],
        })
    &&& forall|s: int, t: int| 0 <= s < f.n() && 0 <= t < f.n() && #[trigger] newid[s] == #[trigger] newid[t] ==> state_matched(f, newid, s, t)
}

/// `m` minimises `f`: it is the quotient of `f` by some numbering.
pub open spec fn minimizes(m: Fst, f: Fst) -> bool {
    exists|newid: Seq<usize>, reprs: Seq<usize>| quotient_of(m, f, newid, reprs)
}

/// Merge the states of `f` that no run tells apart, keeping one state per
/// class (the lowest-numbered), numbered in order.
pub fn minimize(f: &Fst) -> (m: Fst)
    requires
        f.wf(),
    ensures
        m.wf(),
        minimizes(m, *f),
        m.n() <= f.n(),
{
    let n = f.arcs.len();
    let eq = bisimilar_states(f);
    let ghost e = eq@.map_values(|v: Vec<bool>| v@);
    // The lowest state of each state's class.
    let mut rep: Vec<usize> = Vec::new();
    let mut s: usize = 0;
    while s < n
        invariant
            f.wf(),
            n as int == f.n(),
            bisimulation(*f, e),
            e == eq@.map_values(|v: Vec<bool>| v@),
            s <= n,
            rep@.len() == s,
            forall|p: int| 0 <= p < s ==> (#[trigger] rep@[p] as int) <= p && e[p][rep@[p] as int],
            forall|p: int, t: int| 0 <= p < s && 0 <= t < rep@[p] ==> !#[trigger] e[p][t],
        decreases n - s,
    {
        assert(eq@[s as int]@ == e[s as int]);
        let mut t: usize = 0;
        while !eq[s][t]
            invariant
                f.wf(),
                n as int == f.n(),
                bisimulation(*f, e),
                e == eq@.map_values(|v: Vec<bool>| v@),
                eq@[s as int]@ == e[s as int],
                s < n,
                t <= s,
                forall|u: int| 0 <= u < t ==> !#[trigger] e[s as int][u],
            decreases s - t,
        {
            if t == s {
                proof {
                    assert(e[s as int][s as int]);
                }
            }
            t = t + 1;
        }
        rep.push(t);
        s = s + 1;
    }
    proof {
        assert forall|p: int, q: int| 0 <= p < n && 0 <= q < n && #[trigger] e[p][q] implies rep@[p] == rep@[q] by {
            let rp = rep@[p] as int;
            let rq = rep@[q] as int;
            assert(e[q][p]);
            assert(e[q][rp]);
            assert(e[p][rq]);
            if rp < rq {
                assert(!e[q][rp]);
            }
            if rq < rp {
                assert(!e[p][rq]);
            }
        }
    }
    // Number the classes in order of their lowest state.
    let mut newid: Vec<usize> = Vec::new();
    let mut reprs: Vec<usize> = Vec::new();
    let mut s: usize = 0;
    while s < n
        invariant
            f.wf(),
            n as int == f.n(),
            bisimulation(*f, e),
            rep@.len() == n,
            forall|p: int| 0 <= p < n ==> (#[trigger] rep@[p] as int) <= p && e[p][rep@[p] as int],
            forall|p: int, q: int| 0 <= p < n && 0 <= q < n && #[trigger] e[p][q] ==> rep@[p] == rep@[q],
            s <= n,
            newid@.len() == s,
            reprs@.len() <= s,
            forall|p: int| 0 <= p < s ==> (#[trigger] newid@[p] as int) < reprs@.len(),
            forall|p: int| 0 <= p < s ==> #[trigger] newid@[p] == newid@[rep@[p] as int],
            forall|q: int| 0 <= q < reprs@.len() ==> (#[trigger] reprs@[q] as int) < s && rep@[reprs@[q] as int] == reprs@[q]
                && newid@[reprs@[q] as int] as int == q,
            forall|p: int| 0 <= p < s && rep@[p] as int == p ==> reprs@[#[trigger] newid@[p] as int] as int == p,
        decreases n - s,
    {
        let r = rep[s];
        if r == s {
            let k = reprs.len();
            newid.push(k);
            reprs.push(s);
            proof {
                assert forall|q: int| 0 <= q < reprs@.len() implies (#[trigger] reprs@[q] as int) < s + 1 && rep@[reprs@[q] as int] == reprs@[q]
                    && newid@[reprs@[q] as int] as int == q by {
                    if q < k {
                        assert(newid@[reprs@[q] as int] == newid@[reprs@[q] as int]);
                    }
                }
                assert forall|p: int| 0 <= p < s + 1 && rep@[p] as int == p implies reprs@[#[trigger] newid@[p] as int] as int == p by {
                    if p < s {
                        assert(newid@[p] < k);
                    }
                }
            }
        } else {
            assert((r as int) < s);
            let id = newid[r];
            newid.push(id);
            proof {
                assert(rep@[r as int] == r) by {
                    assert(e[s as int][r as int]);
                    assert(e[r as int][r as int]);
                    assert(e[s as int][r as int] ==> rep@[s as int] == rep@[r as int]);
                }
            }
        }
        s = s + 1;
    }
    let ghost nid = newid@;
    let ghost rps = reprs@;
    proof {
        assert forall|p: int, q: int| 0 <= p < n && 0 <= q < n && #[trigger] nid[p] == #[trigger] nid[q] implies e[p][q] by {
            let rp = rep@[p] as int;
            let rq = rep@[q] as int;
            assert(rep@[rp] == rep@[p]) by {
                assert(e[p][rp]);
            }
            assert(rep@[rq] == rep@[q]) by {
                assert(e[q][rq]);
            }
            let k = nid[p] as int;
            assert(nid[rp] as int == k);
            assert(nid[rq] as int == k);
            assert(rps[k] as int == rp) by {
                let j = rps[k] as int;
                assert(nid[j] as int == k);
                assert(rep@[j] == rps[k]);
                assert(rep@[rp] as int == rp) by {
                    assert(e[rp][rep@[rp] as int]);
                }
            }
            assert(rps[k] as int == rq) by {
                assert(rep@[rq] as int == rq) by {
                    assert(e[rq][rep@[rq] as int]);
                }
            }
            assert(e[rp][q]) by {
                assert(e[q][rq]);
                assert(e[rq][q]);
            }
            assert(e[p][rp]);
        }
    }
    // The quotient.
    let k = reprs.len();
    let mut finals: Vec<bool> = Vec::new();
    let mut rows: Vec<Vec<Arc>> = Vec::new();
    let mut q: usize = 0;
    while q < k
        invariant
            f.wf(),
            n as int == f.n(),
            k as int == rps.len(),
            nid == newid@,
            rps == reprs@,
            nid.len() == n,
            forall|p: int| 0 <= p < n ==> (#[trigger] nid[p] as int) < k,
            forall|j: int| 0 <= j < k ==> (#[trigger] rps[j] as int) < n && nid[rps[j] as int] as int == j,
            q <= k,
            finals@.len() == q,
            rows@.len() == q,
            forall|j: int| 0 <= j < q ==> #[trigger] finals@[j] == f.finals@[rps[j] as int],
            forall|j: int| 0 <= j < q ==> (#[trigger] rows@[j])@.len() == f.deg(rps[j] as int),
            forall|j: int, x: int| 0 <= j < q && 0 <= x < rows@[j]@.len() ==> #[trigger] rows@[j]@[x] == (Arc {
                ilabel: f.arc(rps[j] as int, x).ilabel,
                olabel: f.arc(rps[j] as int, x).olabel,
                nextstate: nid[f.arc(rps[j] as int, x).nextstate as int],
            }),
        decreases k - q,
    {
        let r = reprs[q];
        finals.push(f.finals[r]);
        let mut row: Vec<Arc> = Vec::new();
        let mut x: usize = 0;
        while x < f.arcs[r].len()
            invariant
                f.wf(),
                n as int == f.n(),
                (r as int) < n,
                nid == newid@,
                nid.len() == n,
                x <= f.deg(r as int),
                row@.len() == x,
                forall|y: int| 0 <= y < x ==> #[trigger] row@[y] == (Arc {
                    ilabel: f.arc(r as int, y).ilabel,
                    olabel: f.arc(r as int, y).olabel,
                    nextstate: nid[f.arc(r as int, y).nextstate as int],
                }),
            decreases f.deg(r as int) - x,
        {
            let a = f.arcs[r][x];
            assert(a == f.arc(r as int, x as int));
            assert(a.nextstate < n);
            row.push(Arc { ilabel: a.ilabel, olabel: a.olabel, nextstate: newid[a.nextstate] });
            x = x + 1;
        }
        rows.push(row);
        q = q + 1;
    }
    let start = match f.start {
        Some(st) => Some(newid[st]),
        None => None,
    };
    let m = Fst { start, finals, arcs: rows };
    proof {
        assert forall|j: int, x: int| 0 <= j < m.n() && 0 <= x < m.deg(j) implies #[trigger] m.arc(j, x) == (Arc {
            ilabel: f.arc(rps[j] as int, x).ilabel,
            olabel: f.arc(rps[j] as int, x).olabel,
            nextstate: nid[f.arc(rps[j] as int, x).nextstate as int],
        }) by {
            assert(m.arc(j, x) == rows@[j]@[x]);
        }
        assert forall|j: int| 0 <= j < m.n() implies #[trigger] m.deg(j) == f.deg(rps[j] as int) by {
            assert(m.rows()[j] == rows@[j]@);
        }
        assert forall|j: int, x: int| 0 <= j < m.n() && 0 <= x < m.deg(j) implies #[trigger] m.arc(j, x).nextstate < m.n() by {
            assert(m.arc(j, x) == rows@[j]@[x]);
            assert(f.arc(rps[j] as int, x).nextstate < n);
        }
        assert(m.n() <= f.n()) by {
            assert forall|j: int, i: int| 0 <= j < i < rps.len() implies rps[j] != rps[i] by {
                if rps[j] == rps[i] {
                    assert(nid[rps[j] as int] as int == j);
                    assert(nid[rps[i] as int] as int == i);
                }
            }
            super::machine::lemma_distinct_bounded(rps, n as int);
        }
        assert forall|p: int, t: int| 0 <= p < f.n() && 0 <= t < f.n() && #[trigger] nid[p] == #[trigger] nid[t] implies state_matched(*f, nid, p, t) by {
            assert(e[p][t]);
            assert(row_matched(*f, e, p, t));
            assert forall|x: int| 0 <= x < f.deg(p) implies #[trigger] arc_matched_by(*f, nid, p, x, t) by {
                assert(arc_matched(*f, e, p, x, t));
                let y = choose|y: int|
                    #![trigger f.arc(t, y)]
                    0 <= y < f.deg(t) && f.arc(t, y).ilabel == f.arc(p, x).ilabel && f.arc(t, y).olabel == f.arc(p, x).olabel
                        && e[f.arc(p, x).nextstate as int][f.arc(t, y).nextstate as int];
                assert(f.arc(p, x).nextstate < n && f.arc(t, y).nextstate < n);
                assert(rep@[f.arc(p, x).nextstate as int] == rep@[f.arc(t, y).nextstate as int]);
            }
        }
        assert(quotient_of(m, *f, nid, rps));
    }
    m
}

/// A run of `f` is matched by a run of its quotient between the numbers
/// of its ends, with the same labels.
proof fn lemma_quotient_fwd(m: Fst, f: Fst, newid: Seq<usize>, reprs: Seq<usize>, s: int, steps: Seq<int>, t: int) -> (res: Seq<int>)
    requires
        quotient_of(m, f, newid, reprs),
        0 <= s < f.n(),
        is_run(f, s, steps, t),
    ensures
        is_run(m, newid[s] as int, res, newid[t] as int),
        run_ilabels(m, newid[s] as int, res) == run_ilabels(f, s, steps),
        run_olabels(m, newid[s] as int, res) == run_olabels(f, s, steps),
    decreases steps.len(),
{
    if steps.len() == 0 {
        let e = Seq::<int>::empty();
        assert(run_ilabels(m, newid[s] as int, e) =~= run_ilabels(f, s, steps));
        assert(run_olabels(m, newid[s] as int, e) =~= run_olabels(f, s, steps));
        e
    } else {
        let x = steps[0];
        let q = newid[s] as int;
        let r = reprs[q] as int;
        assert(newid[r] == newid[s]);
        assert(state_matched(f, newid, s, r));
        assert(arc_matched_by(f, newid, s, x, r));
        let y = choose|y: int|
            #![trigger f.arc(r, y)]
            0 <= y < f.deg(r) && f.arc(r, y).ilabel == f.arc(s, x).ilabel && f.arc(r, y).olabel == f.arc(s, x).olabel
                && newid[f.arc(s, x).nextstate as int] == newid[f.arc(r, y).nextstate as int];
        let ns = f.arc(s, x).nextstate as int;
        assert(ns < f.n());
        assert(m.arc(q, y).nextstate == newid[ns]);
        let rest = lemma_quotient_fwd(m, f, newid, reprs, ns, steps.drop_first(), t);
        let res = seq![y] + rest;
        assert(res.drop_first() =~= rest);
        assert(res[0] == y);
        res
    }
}

/// A run of the quotient from the number of `s` is matched by a run of `f`
/// from `s` to a state with the number of its end, with the same labels.
proof fn lemma_quotient_back(m: Fst, f: Fst, newid: Seq<usize>, reprs: Seq<usize>, s: int, steps: Seq<int>, u: int) -> (res: (Seq<int>, int))
    requires
        quotient_of(m, f, newid, reprs),
        0 <= s < f.n(),
        is_run(m, newid[s] as int, steps, u),
    ensures
        is_run(f, s, res.0, res.1),
        0 <= res.1 < f.n(),
        newid[res.1] as int == u,
        run_ilabels(f, s, res.0) == run_ilabels(m, newid[s] as int, steps),
        run_olabels(f, s, res.0) == run_olabels(m, newid[s] as int, steps),
    decreases steps.len(),
{
    let q = newid[s] as int;
    if steps.len() == 0 {
        let e = Seq::<int>::empty();
        assert(run_ilabels(f, s, e) =~= run_ilabels(m, q, steps));
        assert(run_olabels(f, s, e) =~= run_olabels(m, q, steps));
        (e, s)
    } else {
        let y = steps[0];
        let r = reprs[q] as int;
        assert(newid[r] == newid[s]);
        assert(state_matched(f, newid, r, s));
        assert(m.deg(q) == f.deg(r));
        assert(arc_matched_by(f, newid, r, y, s));
        let x = choose|x: int|
            #![trigger f.arc(s, x)]
            0 <= x < f.deg(s) && f.arc(s, x).ilabel == f.arc(r, y).ilabel && f.arc(s, x).olabel == f.arc(r, y).olabel
                && newid[f.arc(r, y).nextstate as int] == newid[f.arc(s, x).nextstate as int];
        let ns = f.arc(s, x).nextstate as int;
        assert(ns < f.n());
        assert(m.arc(q, y).nextstate == newid[ns]);
        let (rest, t) = lemma_quotient_back(m, f, newid, reprs, ns, steps.drop_first(), u);
        let res = seq![x] + rest;
        assert(res.drop_first() =~= rest);
        assert(res[0] == x);
        (res, t)
    }
}

/// Minimising keeps the language: the quotient maps exactly what `f`
/// maps.
pub proof fn lemma_minimize_language(m: Fst, f: Fst, x: Seq<Label>, y: Seq<Label>)
    requires
        minimizes(m, f),
    ensures
        accepts(m, x, y) == accepts(f, x, y),
{
    let (newid, reprs) = choose|newid: Seq<usize>, reprs: Seq<usize>| quotient_of(m, f, newid, reprs);
    if accepts(f, x, y) {
        let (steps, t) = choose|steps: Seq<int>, t: int|
            #![trigger is_run(f, f.start->0 as int, steps, t)]
            {
                &&& f.start is Some
                &&& is_run(f, f.start->0 as int, steps, t)
                &&& 0 <= t < f.n()
                &&& f.is_final(t)
                &&& strip_eps(run_ilabels(f, f.start->0 as int, steps)) == x
                &&& strip_eps(run_olabels(f, f.start->0 as int, steps)) == y
            };
        let sf = f.start->0 as int;
        let ms = lemma_quotient_fwd(m, f, newid, reprs, sf, steps, t);
        let u = newid[t] as int;
        let r = reprs[u] as int;
        assert(newid[r] == newid[t]);
        assert(state_matched(f, newid, t, r));
        assert(m.finals@[u] == f.finals@[r]);
        assert(is_run(m, m.start->0 as int, ms, u));
    }
    if accepts(m, x, y) {
        let (steps, u) = choose|steps: Seq<int>, t: int|
            #![trigger is_run(m, m.start->0 as int, steps, t)]
            {
                &&& m.start is Some
                &&& is_run(m, m.start->0 as int, steps, t)
                &&& 0 <= t < m.n()
                &&& m.is_final(t)
                &&& strip_eps(run_ilabels(m, m.start->0 as int, steps)) == x
                &&& strip_eps(run_olabels(m, m.start->0 as int, steps)) == y
            };
        let sf = f.start->0 as int;
        let (fs, t) = lemma_quotient_back(m, f, newid, reprs, sf, steps, u);
        let r = reprs[u] as int;
        assert(newid[r] == newid[t]);
        assert(state_matched(f, newid, t, r));
        assert(m.finals@[u] == f.finals@[r]);
        assert(is_run(f, f.start->0 as int, fs, t));
    }
}

} // verus!
