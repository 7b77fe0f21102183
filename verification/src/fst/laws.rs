//! Language laws of the kernel's constructions, stated over [`accepts`].

use vstd::prelude::*;

use crate::ast::Quantifier;
use super::backend::{Label, EPS_LABEL};
use super::machine::{
    accepts, pair_on, det_row_distinct, det_row_labels, arcs_over, completed_row, completes, has_ilabel, word_over, det_arc_ok, det_row_complete, det_row_sound, det_targets, determinizes, dets, has_pair, set_final, eps_path, eps_reach, eps_removes, erow_complete, erow_sound, efinal, is_eps_arc, listed, is_acceptor, compose_complete, compose_witness, composes, concats, has_arc, row_complete, sync_done_at, embeds, is_chain_machine, is_loop_machine, is_step_machine, eps_to, inverts, is_run, justified_arc, lemma_run_append, lemma_strip_push, linked_row, optionals, pluses, stars,
    run_ilabels, run_olabels, shift_row, strip_eps, unites, Arc, Fst, Triple, identity_pairs,
};

verus! {

/// Runs of an inverted machine are the runs of the original, with the two
/// label sides exchanged.
proof fn lemma_invert_run(a: Fst, r: Fst, from: int, steps: Seq<int>, to: int)
    requires
        a.wf(),
        inverts(r, a),
    ensures
        is_run(r, from, steps, to) == is_run(a, from, steps, to),
        is_run(a, from, steps, to) ==> run_ilabels(r, from, steps) == run_olabels(a, from, steps) && run_olabels(
            r,
            from,
            steps,
        ) == run_ilabels(a, from, steps),
    decreases steps.len(),
{
    if steps.len() > 0 {
        if 0 <= from < a.n() {
            assert(r.deg(from) == a.deg(from));
            if 0 <= steps[0] < a.deg(from) {
                let e = a.arc(from, steps[0]);
                assert(r.arc(from, steps[0]) == (Arc { ilabel: e.olabel, olabel: e.ilabel, nextstate: e.nextstate }));
                lemma_invert_run(a, r, e.nextstate as int, steps.drop_first(), to);
            }
        }
    }
}

/// Inverting swaps the two sides of the relation: `r` maps `x` to `y`
/// exactly when `a` maps `y` to `x`.
pub proof fn lemma_invert_language(a: Fst, r: Fst, x: Seq<Label>, y: Seq<Label>)
    requires
        a.wf(),
        inverts(r, a),
    ensures
        accepts(r, x, y) == accepts(a, y, x),
{
    if accepts(r, x, y) {
        let (steps, t) = choose|steps: Seq<int>, t: int|
            #![trigger is_run(r, r.start->0 as int, steps, t)]
            {
                &&& r.start is Some
                &&& is_run(r, r.start->0 as int, steps, t)
                &&& 0 <= t < r.n()
                &&& r.is_final(t)
                &&& strip_eps(run_ilabels(r, r.start->0 as int, steps)) == x
                &&& strip_eps(run_olabels(r, r.start->0 as int, steps)) == y
            };
        lemma_invert_run(a, r, r.start->0 as int, steps, t);
        assert(is_run(a, a.start->0 as int, steps, t));
    }
    if accepts(a, y, x) {
        let (steps, t) = choose|steps: Seq<int>, t: int|
            #![trigger is_run(a, a.start->0 as int, steps, t)]
            {
                &&& a.start is Some
                &&& is_run(a, a.start->0 as int, steps, t)
                &&& 0 <= t < a.n()
                &&& a.is_final(t)
                &&& strip_eps(run_ilabels(a, a.start->0 as int, steps)) == y
                &&& strip_eps(run_olabels(a, a.start->0 as int, steps)) == x
            };
        lemma_invert_run(a, r, a.start->0 as int, steps, t);
        assert(is_run(r, r.start->0 as int, steps, t));
    }
}

/// A run of an embedded machine is a run of the embedding machine,
/// shifted, with the same labels.
proof fn lemma_embed_run(big: Fst, part: Fst, off: int, p: int, steps: Seq<int>, q: int)
    requires
        part.wf(),
        embeds(big, part, off),
        big.n() <= usize::MAX,
        0 <= p < part.n(),
        is_run(part, p, steps, q),
    ensures
        is_run(big, p + off, steps, q + off),
        run_ilabels(big, p + off, steps) == run_ilabels(part, p, steps),
        run_olabels(big, p + off, steps) == run_olabels(part, p, steps),
    decreases steps.len(),
{
    if steps.len() > 0 {
        let k = steps[0];
        let e = part.arc(p, k);
        assert(big.rows()[off + p] == shift_row(part.rows()[p], off));
        assert(big.arc(p + off, k) == (Arc { ilabel: e.ilabel, olabel: e.olabel, nextstate: (e.nextstate + off) as usize }));
        assert(e.nextstate < part.n());
        assert((e.nextstate + off) as usize as int == e.nextstate + off);
        lemma_embed_run(big, part, off, e.nextstate as int, steps.drop_first(), q);
    }
}

/// A run of the embedding machine that starts inside an embedded machine
/// stays inside it and is a run of the embedded machine, with the same
/// labels.
proof fn lemma_embed_run_back(big: Fst, part: Fst, off: int, p: int, steps: Seq<int>, q: int)
    requires
        part.wf(),
        embeds(big, part, off),
        big.n() <= usize::MAX,
        0 <= p < part.n(),
        is_run(big, p + off, steps, q),
    ensures
        off <= q < off + part.n(),
        is_run(part, p, steps, q - off),
        run_ilabels(big, p + off, steps) == run_ilabels(part, p, steps),
        run_olabels(big, p + off, steps) == run_olabels(part, p, steps),
    decreases steps.len(),
{
    if steps.len() > 0 {
        let k = steps[0];
        assert(big.rows()[off + p] == shift_row(part.rows()[p], off));
        assert(big.deg(p + off) == part.deg(p));
        let e = part.arc(p, k);
        assert(big.arc(p + off, k) == (Arc { ilabel: e.ilabel, olabel: e.olabel, nextstate: (e.nextstate + off) as usize }));
        assert(e.nextstate < part.n());
        assert((e.nextstate + off) as usize as int == e.nextstate + off);
        lemma_embed_run_back(big, part, off, e.nextstate as int, steps.drop_first(), q);
    }
}

/// A leading epsilon is dropped.
proof fn lemma_strip_eps_prepend(s: Seq<Label>)
    ensures
        strip_eps(seq![EPS_LABEL] + s) == strip_eps(s),
    decreases s.len(),
{
    let t = seq![EPS_LABEL] + s;
    if s.len() > 0 {
        lemma_strip_eps_prepend(s.drop_last());
        assert(t.drop_last() =~= seq![EPS_LABEL] + s.drop_last());
        assert(t.last() == s.last());
        assert(strip_eps(t) == if t.last() != EPS_LABEL {
            strip_eps(t.drop_last()).push(t.last())
        } else {
            strip_eps(t.drop_last())
        });
        assert(strip_eps(s) == if s.last() != EPS_LABEL {
            strip_eps(s.drop_last()).push(s.last())
        } else {
            strip_eps(s.drop_last())
        });
    } else {
        assert(t =~= seq![EPS_LABEL]);
        assert(t.drop_last() =~= Seq::<Label>::empty());
        assert(strip_eps(t) == strip_eps(t.drop_last()));
        assert(s =~= Seq::<Label>::empty());
    }
}

/// A run that starts with the epsilon arc `k` of the start state of a
/// union continues from that arc's target with the same labels, epsilons
/// removed.
proof fn lemma_union_first_step(r: Fst, steps: Seq<int>, t: int)
    requires
        r.wf(),
        r.start == Some(0usize),
        steps.len() > 0,
        is_run(r, 0, steps, t),
        forall|k: int| 0 <= k < r.deg(0) ==> (#[trigger] r.arc(0, k)).ilabel == EPS_LABEL && r.arc(0, k).olabel == EPS_LABEL,
    ensures
        is_run(r, r.arc(0, steps[0]).nextstate as int, steps.drop_first(), t),
        strip_eps(run_ilabels(r, 0, steps)) == strip_eps(
            run_ilabels(r, r.arc(0, steps[0]).nextstate as int, steps.drop_first()),
        ),
        strip_eps(run_olabels(r, 0, steps)) == strip_eps(
            run_olabels(r, r.arc(0, steps[0]).nextstate as int, steps.drop_first()),
        ),
{
    let nx = r.arc(0, steps[0]).nextstate as int;
    lemma_strip_eps_prepend(run_ilabels(r, nx, steps.drop_first()));
    lemma_strip_eps_prepend(run_olabels(r, nx, steps.drop_first()));
}

/// The union construction accepts exactly what either operand accepts.
pub proof fn lemma_union_language(a: Fst, b: Fst, r: Fst, x: Seq<Label>, y: Seq<Label>)
    requires
        a.wf(),
        b.wf(),
        unites(r, a, b),
    ensures
        accepts(r, x, y) == (accepts(a, x, y) || accepts(b, x, y)),
{
    let ob = 1 + a.n();
    assert forall|k: int| 0 <= k < r.deg(0) implies (#[trigger] r.arc(0, k)).ilabel == EPS_LABEL && r.arc(0, k).olabel
        == EPS_LABEL by {
        assert(r.arc(0, k) == r.rows()[0][k]);
    }
    if accepts(r, x, y) {
        let (steps, t) = choose|steps: Seq<int>, t: int|
            #![trigger is_run(r, r.start->0 as int, steps, t)]
            {
                &&& r.start is Some
                &&& is_run(r, r.start->0 as int, steps, t)
                &&& 0 <= t < r.n()
                &&& r.is_final(t)
                &&& strip_eps(run_ilabels(r, r.start->0 as int, steps)) == x
                &&& strip_eps(run_olabels(r, r.start->0 as int, steps)) == y
            };
        assert(steps.len() > 0);
        lemma_union_first_step(r, steps, t);
        let rest = steps.drop_first();
        let nx = r.arc(0, steps[0]).nextstate as int;
        let to_a = match (a.start, b.start) {
            (Some(_), Some(_)) => steps[0] == 0,
            (Some(_), None) => true,
            _ => false,
        };
        if to_a {
            let sa = a.start->0 as int;
            assert(nx == 1 + sa);
            lemma_embed_run_back(r, a, 1, sa, rest, t);
            assert(r.finals@[1 + (t - 1)] == a.finals@[t - 1]);
            assert(is_run(a, a.start->0 as int, rest, t - 1));
            assert(accepts(a, x, y));
        } else {
            let sb = b.start->0 as int;
            assert(nx == ob + sb);
            lemma_embed_run_back(r, b, ob, sb, rest, t);
            assert(r.finals@[ob + (t - ob)] == b.finals@[t - ob]);
            assert(is_run(b, b.start->0 as int, rest, t - ob));
            assert(accepts(b, x, y));
        }
    }
    if accepts(a, x, y) {
        let (steps, t) = choose|steps: Seq<int>, t: int|
            #![trigger is_run(a, a.start->0 as int, steps, t)]
            {
                &&& a.start is Some
                &&& is_run(a, a.start->0 as int, steps, t)
                &&& 0 <= t < a.n()
                &&& a.is_final(t)
                &&& strip_eps(run_ilabels(a, a.start->0 as int, steps)) == x
                &&& strip_eps(run_olabels(a, a.start->0 as int, steps)) == y
            };
        let sa = a.start->0 as int;
        lemma_embed_run(r, a, 1, sa, steps, t);
        let all = seq![0int] + steps;
        assert(all.drop_first() =~= steps);
        assert(r.arc(0, 0) == eps_to(1 + sa));
        assert(is_run(r, 0, all, t + 1));
        lemma_union_first_step(r, all, t + 1);
        assert(r.finals@[1 + t] == a.finals@[t]);
        assert(is_run(r, r.start->0 as int, all, t + 1));
    }
    if accepts(b, x, y) {
        let (steps, t) = choose|steps: Seq<int>, t: int|
            #![trigger is_run(b, b.start->0 as int, steps, t)]
            {
                &&& b.start is Some
                &&& is_run(b, b.start->0 as int, steps, t)
                &&& 0 <= t < b.n()
                &&& b.is_final(t)
                &&& strip_eps(run_ilabels(b, b.start->0 as int, steps)) == x
                &&& strip_eps(run_olabels(b, b.start->0 as int, steps)) == y
            };
        let sb = b.start->0 as int;
        lemma_embed_run(r, b, ob, sb, steps, t);
        let k0: int = if a.start is Some { 1 } else { 0 };
        let all = seq![k0] + steps;
        assert(all.drop_first() =~= steps);
        assert(r.arc(0, k0) == eps_to(ob + sb));
        assert(is_run(r, 0, all, t + ob));
        lemma_union_first_step(r, all, t + ob);
        assert(r.finals@[ob + t] == b.finals@[t]);
        assert(is_run(r, r.start->0 as int, all, t + ob));
    }
}

/// Dropping epsilons distributes over concatenation.
pub proof fn lemma_strip_eps_concat(s: Seq<Label>, t: Seq<Label>)
    ensures
        strip_eps(s + t) == strip_eps(s) + strip_eps(t),
    decreases t.len(),
{
    if t.len() == 0 {
        assert(s + t =~= s);
        assert(strip_eps(t) =~= Seq::<Label>::empty());
        assert(strip_eps(s) + strip_eps(t) =~= strip_eps(s));
    } else {
        lemma_strip_eps_concat(s, t.drop_last());
        assert((s + t).drop_last() =~= s + t.drop_last());
        assert((s + t).last() == t.last());
        if t.last() != EPS_LABEL {
            assert(strip_eps(s) + strip_eps(t.drop_last()).push(t.last()) =~= (strip_eps(s) + strip_eps(
                t.drop_last(),
            )).push(t.last()));
        }
    }
}

/// Two runs joined end to end make a run whose labels are joined too.
pub proof fn lemma_run_concat(f: Fst, p: int, s1: Seq<int>, m: int, s2: Seq<int>, q: int)
    requires
        is_run(f, p, s1, m),
        is_run(f, m, s2, q),
    ensures
        is_run(f, p, s1 + s2, q),
        run_ilabels(f, p, s1 + s2) == run_ilabels(f, p, s1) + run_ilabels(f, m, s2),
        run_olabels(f, p, s1 + s2) == run_olabels(f, p, s1) + run_olabels(f, m, s2),
    decreases s1.len(),
{
    if s1.len() == 0 {
        assert(s1 + s2 =~= s2);
        assert(run_ilabels(f, p, s1) =~= Seq::<Label>::empty());
        assert(run_olabels(f, p, s1) =~= Seq::<Label>::empty());
        assert(run_ilabels(f, p, s1) + run_ilabels(f, m, s2) =~= run_ilabels(f, m, s2));
        assert(run_olabels(f, p, s1) + run_olabels(f, m, s2) =~= run_olabels(f, m, s2));
    } else {
        let nx = f.arc(p, s1[0]).nextstate as int;
        lemma_run_concat(f, nx, s1.drop_first(), m, s2, q);
        assert((s1 + s2).drop_first() =~= s1.drop_first() + s2);
        assert((s1 + s2)[0] == s1[0]);
        assert(run_ilabels(f, p, s1 + s2) =~= run_ilabels(f, p, s1) + run_ilabels(f, m, s2));
        assert(run_olabels(f, p, s1 + s2) =~= run_olabels(f, p, s1) + run_olabels(f, m, s2));
    }
}

/// Every arc list of `a` is a prefix of the same state's list in `r`.
pub open spec fn rows_extend(r: Fst, a: Fst) -> bool {
    &&& a.n() <= r.n()
    &&& forall|s: int, k: int| 0 <= s < a.n() && 0 <= k < a.deg(s) ==> k < r.deg(s) && #[trigger] r.arc(s, k) == a.arc(s, k)
}

/// A run of `a` is a run of any machine whose arc lists extend those of
/// `a`, with the same labels.
proof fn lemma_prefix_run(a: Fst, r: Fst, p: int, steps: Seq<int>, q: int)
    requires
        a.wf(),
        rows_extend(r, a),
        0 <= p < a.n(),
        is_run(a, p, steps, q),
    ensures
        is_run(r, p, steps, q),
        run_ilabels(r, p, steps) == run_ilabels(a, p, steps),
        run_olabels(r, p, steps) == run_olabels(a, p, steps),
    decreases steps.len(),
{
    if steps.len() > 0 {
        let e = a.arc(p, steps[0]);
        assert(r.arc(p, steps[0]) == e);
        assert(e.nextstate < a.n());
        lemma_prefix_run(a, r, e.nextstate as int, steps.drop_first(), q);
    }
}

/// A run of a concatenation that starts among the states of `a` is a run
/// of `a`, possibly followed by the epsilon step into `b` (taken at a
/// final state of `a`) and a run from `b`'s start. Returns the length of
/// the part in `a` and the state where it ends.
proof fn lemma_concat_split(a: Fst, b: Fst, r: Fst, p: int, steps: Seq<int>, t: int) -> (res: (int, int))
    requires
        a.wf(),
        b.wf(),
        concats(r, a, b),
        0 <= p < a.n(),
        is_run(r, p, steps, t),
    ensures
        0 <= res.0 <= steps.len(),
        0 <= res.1 < a.n(),
        is_run(a, p, steps.take(res.0), res.1),
        res.0 == steps.len() ==> res.1 == t,
        res.0 < steps.len() ==> {
            &&& a.finals@[res.1]
            &&& b.start is Some
            &&& is_run(r, a.n() + b.start->0, steps.skip(res.0 + 1), t)
        },
        run_ilabels(r, p, steps) == run_ilabels(a, p, steps.take(res.0)) + if res.0 < steps.len() {
            seq![EPS_LABEL] + run_ilabels(r, a.n() + b.start->0, steps.skip(res.0 + 1))
        } else {
            Seq::<Label>::empty()
        },
        run_olabels(r, p, steps) == run_olabels(a, p, steps.take(res.0)) + if res.0 < steps.len() {
            seq![EPS_LABEL] + run_olabels(r, a.n() + b.start->0, steps.skip(res.0 + 1))
        } else {
            Seq::<Label>::empty()
        },
    decreases steps.len(),
{
    if steps.len() == 0 {
        assert(steps.take(0) =~= Seq::<int>::empty());
        assert(run_ilabels(r, p, steps) =~= Seq::<Label>::empty());
        assert(run_olabels(r, p, steps) =~= Seq::<Label>::empty());
        assert(run_ilabels(a, p, steps.take(0)) + Seq::<Label>::empty() =~= Seq::<Label>::empty());
        assert(run_olabels(a, p, steps.take(0)) + Seq::<Label>::empty() =~= Seq::<Label>::empty());
        (0, p)
    } else {
        let k = steps[0];
        let row = r.rows()[p];
        assert(row == if a.finals@[p] && b.start is Some {
            a.rows()[p].push(eps_to(a.n() + b.start->0))
        } else {
            a.rows()[p]
        });
        if k < a.deg(p) {
            let e = a.arc(p, k);
            assert(r.arc(p, k) == row[k]);
            assert(r.arc(p, k) == e);
            assert(e.nextstate < a.n());
            let nx = e.nextstate as int;
            let rest = steps.drop_first();
            let (i, q) = lemma_concat_split(a, b, r, nx, rest, t);
            assert(steps.take(i + 1).drop_first() =~= rest.take(i));
            assert(steps.take(i + 1)[0] == k);
            assert(steps.take(i + 1).len() > 0);
            assert(is_run(a, p, steps.take(i + 1), q));
            assert(run_ilabels(a, p, steps.take(i + 1)) == seq![e.ilabel] + run_ilabels(a, nx, rest.take(i)));
            assert(run_olabels(a, p, steps.take(i + 1)) == seq![e.olabel] + run_olabels(a, nx, rest.take(i)));
            if i < rest.len() {
                assert(steps.skip(i + 2) =~= rest.skip(i + 1));
            }
            assert(run_ilabels(r, p, steps) == seq![e.ilabel] + run_ilabels(r, nx, rest));
            assert(run_olabels(r, p, steps) == seq![e.olabel] + run_olabels(r, nx, rest));
            assert(run_ilabels(r, p, steps) =~= run_ilabels(a, p, steps.take(i + 1)) + if i + 1 < steps.len() {
                seq![EPS_LABEL] + run_ilabels(r, a.n() + b.start->0, steps.skip(i + 2))
            } else {
                Seq::<Label>::empty()
            });
            assert(run_olabels(r, p, steps) =~= run_olabels(a, p, steps.take(i + 1)) + if i + 1 < steps.len() {
                seq![EPS_LABEL] + run_olabels(r, a.n() + b.start->0, steps.skip(i + 2))
            } else {
                Seq::<Label>::empty()
            });
            (i + 1, q)
        } else {
            assert(a.finals@[p] && b.start is Some);
            assert(k == a.deg(p));
            assert(r.arc(p, k) == row[k]);
            assert(r.arc(p, k) == eps_to(a.n() + b.start->0));
            assert(steps.take(0) =~= Seq::<int>::empty());
            assert(steps.skip(1) =~= steps.drop_first());
            assert(run_ilabels(a, p, steps.take(0)) =~= Seq::<Label>::empty());
            assert(run_olabels(a, p, steps.take(0)) =~= Seq::<Label>::empty());
            let nx = a.n() + b.start->0;
            assert((nx as usize) as int == nx);
            assert(run_ilabels(r, p, steps) =~= run_ilabels(a, p, steps.take(0)) + (seq![EPS_LABEL] + run_ilabels(r, nx, steps.skip(1))));
            assert(run_olabels(r, p, steps) =~= run_olabels(a, p, steps.take(0)) + (seq![EPS_LABEL] + run_olabels(r, nx, steps.skip(1))));
            (0, p)
        }
    }
}

/// What a concatenation maps splits into a pair of `a` and a pair of `b`.
proof fn lemma_concat_forward(a: Fst, b: Fst, r: Fst, x: Seq<Label>, y: Seq<Label>) -> (res: (Seq<Label>, Seq<Label>, Seq<Label>, Seq<Label>))
    requires
        a.wf(),
        b.wf(),
        concats(r, a, b),
        accepts(r, x, y),
    ensures
        x == res.0 + res.1,
        y == res.2 + res.3,
        accepts(a, res.0, res.2),
        accepts(b, res.1, res.3),
{
    let on = a.n();
    let (steps, t) = choose|steps: Seq<int>, t: int|
        #![trigger is_run(r, r.start->0 as int, steps, t)]
        {
            &&& r.start is Some
            &&& is_run(r, r.start->0 as int, steps, t)
            &&& 0 <= t < r.n()
            &&& r.is_final(t)
            &&& strip_eps(run_ilabels(r, r.start->0 as int, steps)) == x
            &&& strip_eps(run_olabels(r, r.start->0 as int, steps)) == y
        };
    let sa = a.start->0 as int;
    let (i, q) = lemma_concat_split(a, b, r, sa, steps, t);
    if i == steps.len() {
        assert(!r.finals@[t]);
    }
    let sb = b.start->0 as int;
    let rest = steps.skip(i + 1);
    lemma_embed_run_back(r, b, on, sb, rest, t);
    assert(r.finals@[on + (t - on)] == b.finals@[t - on]);
    let ai = run_ilabels(a, sa, steps.take(i));
    let ao = run_olabels(a, sa, steps.take(i));
    let bi = run_ilabels(b, sb, rest);
    let bo = run_olabels(b, sb, rest);
    lemma_strip_eps_concat(ai, seq![EPS_LABEL] + bi);
    lemma_strip_eps_concat(ao, seq![EPS_LABEL] + bo);
    lemma_strip_eps_prepend(bi);
    lemma_strip_eps_prepend(bo);
    assert(is_run(a, a.start->0 as int, steps.take(i), q));
    assert(is_run(b, b.start->0 as int, rest, t - on));
    (strip_eps(ai), strip_eps(bi), strip_eps(ao), strip_eps(bo))
}

/// A pair of `a` followed by a pair of `b` is mapped by the concatenation.
proof fn lemma_concat_backward(a: Fst, b: Fst, r: Fst, x1: Seq<Label>, x2: Seq<Label>, y1: Seq<Label>, y2: Seq<Label>)
    requires
        a.wf(),
        b.wf(),
        concats(r, a, b),
        accepts(a, x1, y1),
        accepts(b, x2, y2),
    ensures
        accepts(r, x1 + x2, y1 + y2),
{
    let on = a.n();
    let (s1, ta) = choose|steps: Seq<int>, t: int|
        #![trigger is_run(a, a.start->0 as int, steps, t)]
        {
            &&& a.start is Some
            &&& is_run(a, a.start->0 as int, steps, t)
            &&& 0 <= t < a.n()
            &&& a.is_final(t)
            &&& strip_eps(run_ilabels(a, a.start->0 as int, steps)) == x1
            &&& strip_eps(run_olabels(a, a.start->0 as int, steps)) == y1
        };
    let (s2, tb) = choose|steps: Seq<int>, t: int|
        #![trigger is_run(b, b.start->0 as int, steps, t)]
        {
            &&& b.start is Some
            &&& is_run(b, b.start->0 as int, steps, t)
            &&& 0 <= t < b.n()
            &&& b.is_final(t)
            &&& strip_eps(run_ilabels(b, b.start->0 as int, steps)) == x2
            &&& strip_eps(run_olabels(b, b.start->0 as int, steps)) == y2
        };
    let sa = a.start->0 as int;
    let sb = b.start->0 as int;
    assert(rows_extend(r, a)) by {
        assert forall|s: int, k: int| 0 <= s < a.n() && 0 <= k < a.deg(s) implies k < r.deg(s) && #[trigger] r.arc(s, k)
            == a.arc(s, k) by {
            assert(r.arc(s, k) == r.rows()[s][k]);
        }
    }
    lemma_prefix_run(a, r, sa, s1, ta);
    lemma_embed_run(r, b, on, sb, s2, tb);
    let k = a.deg(ta);
    assert(r.rows()[ta] == a.rows()[ta].push(eps_to(on + sb)));
    assert(r.arc(ta, k) == eps_to(on + sb));
    let tail = seq![k] + s2;
    assert(tail.drop_first() =~= s2);
    assert(tail[0] == k);
    assert(is_run(r, ta, tail, tb + on));
    assert(run_ilabels(r, ta, tail) == seq![EPS_LABEL] + run_ilabels(r, sb + on, s2));
    assert(run_olabels(r, ta, tail) == seq![EPS_LABEL] + run_olabels(r, sb + on, s2));
    lemma_run_concat(r, sa, s1, ta, tail, tb + on);
    let ai = run_ilabels(a, sa, s1);
    let ao = run_olabels(a, sa, s1);
    let bi = run_ilabels(b, sb, s2);
    let bo = run_olabels(b, sb, s2);
    lemma_strip_eps_concat(ai, seq![EPS_LABEL] + bi);
    lemma_strip_eps_concat(ao, seq![EPS_LABEL] + bo);
    lemma_strip_eps_prepend(bi);
    lemma_strip_eps_prepend(bo);
    assert(r.finals@[on + tb] == b.finals@[tb]);
    assert(is_run(r, r.start->0 as int, s1 + tail, tb + on));
}

/// The concatenation construction maps `x` to `y` exactly when `x` and `y`
/// split into a pair that `a` maps and a pair that `b` maps.
pub proof fn lemma_concat_language(a: Fst, b: Fst, r: Fst, x: Seq<Label>, y: Seq<Label>)
    requires
        a.wf(),
        b.wf(),
        concats(r, a, b),
    ensures
        accepts(r, x, y) == exists|x1: Seq<Label>, x2: Seq<Label>, y1: Seq<Label>, y2: Seq<Label>|
            #![trigger accepts(a, x1, y1), accepts(b, x2, y2)]
            x == x1 + x2 && y == y1 + y2 && accepts(a, x1, y1) && accepts(b, x2, y2),
{
    if accepts(r, x, y) {
        let (x1, x2, y1, y2) = lemma_concat_forward(a, b, r, x, y);
        assert(accepts(a, x1, y1) && accepts(b, x2, y2));
    }
    if exists|x1: Seq<Label>, x2: Seq<Label>, y1: Seq<Label>, y2: Seq<Label>|
        #![trigger accepts(a, x1, y1), accepts(b, x2, y2)]
        x == x1 + x2 && y == y1 + y2 && accepts(a, x1, y1) && accepts(b, x2, y2) {
        let (x1, x2, y1, y2) = choose|x1: Seq<Label>, x2: Seq<Label>, y1: Seq<Label>, y2: Seq<Label>|
            #![trigger accepts(a, x1, y1), accepts(b, x2, y2)]
            x == x1 + x2 && y == y1 + y2 && accepts(a, x1, y1) && accepts(b, x2, y2);
        lemma_concat_backward(a, b, r, x1, x2, y1, y2);
    }
}

/// The optional construction maps what `a` maps, and the empty pair.
pub proof fn lemma_optional_language(a: Fst, r: Fst, x: Seq<Label>, y: Seq<Label>)
    requires
        a.wf(),
        optionals(r, a),
    ensures
        accepts(r, x, y) == (accepts(a, x, y) || (x.len() == 0 && y.len() == 0)),
{
    assert forall|k: int| 0 <= k < r.deg(0) implies (#[trigger] r.arc(0, k)).ilabel == EPS_LABEL && r.arc(0, k).olabel
        == EPS_LABEL by {
        assert(r.arc(0, k) == r.rows()[0][k]);
    }
    if accepts(r, x, y) {
        let (steps, t) = choose|steps: Seq<int>, t: int|
            #![trigger is_run(r, r.start->0 as int, steps, t)]
            {
                &&& r.start is Some
                &&& is_run(r, r.start->0 as int, steps, t)
                &&& 0 <= t < r.n()
                &&& r.is_final(t)
                &&& strip_eps(run_ilabels(r, r.start->0 as int, steps)) == x
                &&& strip_eps(run_olabels(r, r.start->0 as int, steps)) == y
            };
        if steps.len() == 0 {
            assert(run_ilabels(r, 0, steps) =~= Seq::<Label>::empty());
            assert(run_olabels(r, 0, steps) =~= Seq::<Label>::empty());
            assert(strip_eps(Seq::<Label>::empty()) =~= Seq::<Label>::empty());
        } else {
            lemma_union_first_step(r, steps, t);
            let rest = steps.drop_first();
            let sa = a.start->0 as int;
            assert(r.arc(0, steps[0]).nextstate as int == 1 + sa);
            lemma_embed_run_back(r, a, 1, sa, rest, t);
            assert(r.finals@[1 + (t - 1)] == a.finals@[t - 1]);
            assert(is_run(a, a.start->0 as int, rest, t - 1));
        }
    }
    if accepts(a, x, y) {
        let (steps, t) = choose|steps: Seq<int>, t: int|
            #![trigger is_run(a, a.start->0 as int, steps, t)]
            {
                &&& a.start is Some
                &&& is_run(a, a.start->0 as int, steps, t)
                &&& 0 <= t < a.n()
                &&& a.is_final(t)
                &&& strip_eps(run_ilabels(a, a.start->0 as int, steps)) == x
                &&& strip_eps(run_olabels(a, a.start->0 as int, steps)) == y
            };
        let sa = a.start->0 as int;
        lemma_embed_run(r, a, 1, sa, steps, t);
        let all = seq![0int] + steps;
        assert(all.drop_first() =~= steps);
        assert(r.arc(0, 0) == eps_to(1 + sa));
        assert(is_run(r, 0, all, t + 1));
        lemma_union_first_step(r, all, t + 1);
        assert(r.finals@[1 + t] == a.finals@[t]);
        assert(is_run(r, r.start->0 as int, all, t + 1));
    }
    if x.len() == 0 && y.len() == 0 {
        let e = Seq::<int>::empty();
        assert(run_ilabels(r, 0, e) =~= Seq::<Label>::empty());
        assert(run_olabels(r, 0, e) =~= Seq::<Label>::empty());
        assert(strip_eps(Seq::<Label>::empty()) =~= Seq::<Label>::empty());
        assert(x =~= Seq::<Label>::empty());
        assert(y =~= Seq::<Label>::empty());
        assert(is_run(r, r.start->0 as int, e, 0));
    }
}

/// The input sides of `parts`, joined.
pub open spec fn flat_in(parts: Seq<(Seq<Label>, Seq<Label>)>) -> Seq<Label>
    decreases parts.len(),
{
    if parts.len() == 0 {
        Seq::<Label>::empty()
    } else {
        parts[0].0 + flat_in(parts.drop_first())
    }
}

/// The output sides of `parts`, joined.
pub open spec fn flat_out(parts: Seq<(Seq<Label>, Seq<Label>)>) -> Seq<Label>
    decreases parts.len(),
{
    if parts.len() == 0 {
        Seq::<Label>::empty()
    } else {
        parts[0].1 + flat_out(parts.drop_first())
    }
}

/// `a` maps each of `parts`.
pub open spec fn all_accepted(a: Fst, parts: Seq<(Seq<Label>, Seq<Label>)>) -> bool {
    forall|i: int| 0 <= i < parts.len() ==> accepts(a, #[trigger] parts[i].0, parts[i].1)
}

/// `(x, y)` is the join of consecutive pairs, each mapped by `a`.
pub open spec fn joins(a: Fst, parts: Seq<(Seq<Label>, Seq<Label>)>, x: Seq<Label>, y: Seq<Label>) -> bool {
    all_accepted(a, parts) && flat_in(parts) == x && flat_out(parts) == y
}

/// `r` holds, from state `o` on, the states of `a` (targets moved up by
/// `o`), each final one with an extra epsilon arc back to `a`'s start.
pub open spec fn loops_back(r: Fst, a: Fst, o: int) -> bool {
    &&& a.start is Some
    &&& 0 <= o
    &&& o + a.n() <= r.n()
    &&& r.n() <= usize::MAX
    &&& forall|p: int| 0 <= p < a.n() ==> #[trigger] r.rows()[o + p] == shift_row(
        linked_row(a.rows()[p], a.finals@[p], a.start->0 as int),
        o,
    )
    &&& forall|p: int| 0 <= p < a.n() ==> #[trigger] r.finals@[o + p] == a.finals@[p]
}

/// Arc `k` of state `o + p` in a looped-back copy: a shifted arc of `a`,
/// or (past `a`'s arcs, at a final state) the epsilon arc back to the start.
proof fn lemma_loop_arc(a: Fst, r: Fst, o: int, p: int, k: int)
    requires
        a.wf(),
        loops_back(r, a, o),
        0 <= p < a.n(),
    ensures
        r.deg(o + p) == a.deg(p) + if a.finals@[p] { 1int } else { 0int },
        0 <= k < a.deg(p) ==> r.arc(o + p, k) == (Arc {
            ilabel: a.arc(p, k).ilabel,
            olabel: a.arc(p, k).olabel,
            nextstate: (a.arc(p, k).nextstate + o) as usize,
        }) && a.arc(p, k).nextstate + o < r.n(),
        a.finals@[p] && k == a.deg(p) ==> r.arc(o + p, k) == eps_to(o + a.start->0),
{
    let row = linked_row(a.rows()[p], a.finals@[p], a.start->0 as int);
    assert(r.rows()[o + p] == shift_row(row, o));
    assert(r.arc(o + p, k) == shift_row(row, o)[k]);
    if 0 <= k < a.deg(p) {
        assert(row[k] == a.arc(p, k));
        assert(a.arc(p, k).nextstate < a.n());
    }
    if a.finals@[p] && k == a.deg(p) {
        assert(row[k] == eps_to(a.start->0 as int));
        assert(a.start->0 < a.n());
    }
}

/// A run of `a` is a run of a looped-back copy of it, with the same labels.
proof fn lemma_loop_embed_run(a: Fst, r: Fst, o: int, p: int, steps: Seq<int>, q: int)
    requires
        a.wf(),
        loops_back(r, a, o),
        0 <= p < a.n(),
        is_run(a, p, steps, q),
    ensures
        is_run(r, o + p, steps, o + q),
        run_ilabels(r, o + p, steps) == run_ilabels(a, p, steps),
        run_olabels(r, o + p, steps) == run_olabels(a, p, steps),
    decreases steps.len(),
{
    if steps.len() > 0 {
        let k = steps[0];
        lemma_loop_arc(a, r, o, p, k);
        let nx = a.arc(p, k).nextstate as int;
        assert((a.arc(p, k).nextstate + o) as usize as int == o + nx);
        lemma_loop_embed_run(a, r, o, nx, steps.drop_first(), q);
    }
}

/// A run of a looped-back copy that starts at `o + p` is a run of `a`,
/// possibly followed by the epsilon step back (taken at a final state of
/// `a`) and a run from the copy's start. Returns the length of the part in
/// `a` and the state where it ends.
proof fn lemma_loop_split(a: Fst, r: Fst, o: int, p: int, steps: Seq<int>, t: int) -> (res: (int, int))
    requires
        a.wf(),
        loops_back(r, a, o),
        0 <= p < a.n(),
        is_run(r, o + p, steps, t),
    ensures
        0 <= res.0 <= steps.len(),
        0 <= res.1 < a.n(),
        is_run(a, p, steps.take(res.0), res.1),
        res.0 == steps.len() ==> t == o + res.1,
        res.0 < steps.len() ==> a.finals@[res.1] && is_run(r, o + a.start->0, steps.skip(res.0 + 1), t),
        run_ilabels(r, o + p, steps) == run_ilabels(a, p, steps.take(res.0)) + if res.0 < steps.len() {
            seq![EPS_LABEL] + run_ilabels(r, o + a.start->0, steps.skip(res.0 + 1))
        } else {
            Seq::<Label>::empty()
        },
        run_olabels(r, o + p, steps) == run_olabels(a, p, steps.take(res.0)) + if res.0 < steps.len() {
            seq![EPS_LABEL] + run_olabels(r, o + a.start->0, steps.skip(res.0 + 1))
        } else {
            Seq::<Label>::empty()
        },
    decreases steps.len(),
{
    let sa = a.start->0 as int;
    if steps.len() == 0 {
        assert(steps.take(0) =~= Seq::<int>::empty());
        assert(run_ilabels(r, o + p, steps) =~= Seq::<Label>::empty());
        assert(run_olabels(r, o + p, steps) =~= Seq::<Label>::empty());
        assert(run_ilabels(a, p, steps.take(0)) + Seq::<Label>::empty() =~= Seq::<Label>::empty());
        assert(run_olabels(a, p, steps.take(0)) + Seq::<Label>::empty() =~= Seq::<Label>::empty());
        (0, p)
    } else {
        let k = steps[0];
        lemma_loop_arc(a, r, o, p, k);
        if k < a.deg(p) {
            let e = a.arc(p, k);
            let nx = e.nextstate as int;
            assert((e.nextstate + o) as usize as int == o + nx);
            let rest = steps.drop_first();
            let (i, q) = lemma_loop_split(a, r, o, nx, rest, t);
            assert(steps.take(i + 1).drop_first() =~= rest.take(i));
            assert(steps.take(i + 1)[0] == k);
            assert(is_run(a, p, steps.take(i + 1), q));
            assert(run_ilabels(a, p, steps.take(i + 1)) == seq![e.ilabel] + run_ilabels(a, nx, rest.take(i)));
            assert(run_olabels(a, p, steps.take(i + 1)) == seq![e.olabel] + run_olabels(a, nx, rest.take(i)));
            if i < rest.len() {
                assert(steps.skip(i + 2) =~= rest.skip(i + 1));
            }
            assert(run_ilabels(r, o + p, steps) == seq![e.ilabel] + run_ilabels(r, o + nx, rest));
            assert(run_olabels(r, o + p, steps) == seq![e.olabel] + run_olabels(r, o + nx, rest));
            assert(run_ilabels(r, o + p, steps) =~= run_ilabels(a, p, steps.take(i + 1)) + if i + 1 < steps.len() {
                seq![EPS_LABEL] + run_ilabels(r, o + sa, steps.skip(i + 2))
            } else {
                Seq::<Label>::empty()
            });
            assert(run_olabels(r, o + p, steps) =~= run_olabels(a, p, steps.take(i + 1)) + if i + 1 < steps.len() {
                seq![EPS_LABEL] + run_olabels(r, o + sa, steps.skip(i + 2))
            } else {
                Seq::<Label>::empty()
            });
            (i + 1, q)
        } else {
            assert(a.finals@[p] && k == a.deg(p));
            assert(steps.take(0) =~= Seq::<int>::empty());
            assert(steps.skip(1) =~= steps.drop_first());
            assert(run_ilabels(a, p, steps.take(0)) =~= Seq::<Label>::empty());
            assert(run_olabels(a, p, steps.take(0)) =~= Seq::<Label>::empty());
            assert(((o + sa) as usize) as int == o + sa);
            assert(run_ilabels(r, o + p, steps) =~= run_ilabels(a, p, steps.take(0)) + (seq![EPS_LABEL] + run_ilabels(r, o + sa, steps.skip(1))));
            assert(run_olabels(r, o + p, steps) =~= run_olabels(a, p, steps.take(0)) + (seq![EPS_LABEL] + run_olabels(r, o + sa, steps.skip(1))));
            (0, p)
        }
    }
}

/// What a looped-back copy maps from its start to a final state is one or
/// more consecutive pairs of `a`.
proof fn lemma_loop_forward(a: Fst, r: Fst, o: int, steps: Seq<int>, t: int) -> (parts: Seq<(Seq<Label>, Seq<Label>)>)
    requires
        a.wf(),
        loops_back(r, a, o),
        is_run(r, o + a.start->0, steps, t),
        0 <= t < r.n(),
        r.finals@[t],
    ensures
        parts.len() >= 1,
        joins(a, parts, strip_eps(run_ilabels(r, o + a.start->0, steps)), strip_eps(run_olabels(r, o + a.start->0, steps))),
    decreases steps.len(),
{
    let sa = a.start->0 as int;
    let (i, q) = lemma_loop_split(a, r, o, sa, steps, t);
    let ai = run_ilabels(a, sa, steps.take(i));
    let ao = run_olabels(a, sa, steps.take(i));
    if i == steps.len() {
        assert(r.finals@[o + q] == a.finals@[q]);
    }
    assert(a.finals@[q]);
    assert(is_run(a, a.start->0 as int, steps.take(i), q));
    let first = (strip_eps(ai), strip_eps(ao));
    assert(accepts(a, first.0, first.1));
    let e = Seq::<Label>::empty();
    if i == steps.len() {
        let parts = seq![first];
        assert(parts.drop_first() =~= Seq::<(Seq<Label>, Seq<Label>)>::empty());
        assert(ai + e =~= ai);
        assert(ao + e =~= ao);
        assert(flat_in(parts.drop_first()) =~= e);
        assert(flat_out(parts.drop_first()) =~= e);
        assert(flat_in(parts) =~= first.0 + e);
        assert(flat_out(parts) =~= first.1 + e);
        assert(first.0 + e =~= first.0);
        assert(first.1 + e =~= first.1);
        parts
    } else {
        let rest = steps.skip(i + 1);
        let more = lemma_loop_forward(a, r, o, rest, t);
        let ri = run_ilabels(r, o + sa, rest);
        let ro = run_olabels(r, o + sa, rest);
        lemma_strip_eps_concat(ai, seq![EPS_LABEL] + ri);
        lemma_strip_eps_concat(ao, seq![EPS_LABEL] + ro);
        lemma_strip_eps_prepend(ri);
        lemma_strip_eps_prepend(ro);
        let parts = seq![first] + more;
        assert(parts.drop_first() =~= more);
        assert(parts[0] == first);
        assert forall|k: int| 0 <= k < parts.len() implies accepts(a, #[trigger] parts[k].0, parts[k].1) by {
            if k > 0 {
                assert(parts[k] == more[k - 1]);
            }
        }
        parts
    }
}

/// One or more consecutive pairs of `a` are mapped by a looped-back copy,
/// from its start to a final state.
proof fn lemma_loop_backward(a: Fst, r: Fst, o: int, parts: Seq<(Seq<Label>, Seq<Label>)>) -> (res: (Seq<int>, int))
    requires
        a.wf(),
        loops_back(r, a, o),
        parts.len() >= 1,
        all_accepted(a, parts),
    ensures
        is_run(r, o + a.start->0, res.0, res.1),
        o <= res.1 < o + a.n(),
        r.finals@[res.1],
        strip_eps(run_ilabels(r, o + a.start->0, res.0)) == flat_in(parts),
        strip_eps(run_olabels(r, o + a.start->0, res.0)) == flat_out(parts),
    decreases parts.len(),
{
    let sa = a.start->0 as int;
    let x1 = parts[0].0;
    let y1 = parts[0].1;
    assert(accepts(a, x1, y1));
    let (s1, ta) = choose|steps: Seq<int>, t: int|
        #![trigger is_run(a, a.start->0 as int, steps, t)]
        {
            &&& a.start is Some
            &&& is_run(a, a.start->0 as int, steps, t)
            &&& 0 <= t < a.n()
            &&& a.is_final(t)
            &&& strip_eps(run_ilabels(a, a.start->0 as int, steps)) == x1
            &&& strip_eps(run_olabels(a, a.start->0 as int, steps)) == y1
        };
    lemma_loop_embed_run(a, r, o, sa, s1, ta);
    assert(r.finals@[o + ta] == a.finals@[ta]);
    let more = parts.drop_first();
    if parts.len() == 1 {
        assert(more =~= Seq::<(Seq<Label>, Seq<Label>)>::empty());
        assert(flat_in(more) =~= Seq::<Label>::empty());
        assert(flat_out(more) =~= Seq::<Label>::empty());
        assert(flat_in(parts) =~= x1 + Seq::<Label>::empty());
        assert(flat_out(parts) =~= y1 + Seq::<Label>::empty());
        assert(x1 + Seq::<Label>::empty() =~= x1);
        assert(y1 + Seq::<Label>::empty() =~= y1);
        (s1, o + ta)
    } else {
        assert forall|k: int| 0 <= k < more.len() implies accepts(a, #[trigger] more[k].0, more[k].1) by {
            assert(more[k] == parts[k + 1]);
        }
        let (s2, t2) = lemma_loop_backward(a, r, o, more);
        let k = a.deg(ta);
        lemma_loop_arc(a, r, o, ta, k);
        assert(((o + sa) as usize) as int == o + sa);
        let tail = seq![k] + s2;
        assert(tail.drop_first() =~= s2);
        assert(tail[0] == k);
        assert(is_run(r, o + ta, tail, t2));
        assert(run_ilabels(r, o + ta, tail) == seq![EPS_LABEL] + run_ilabels(r, o + sa, s2));
        assert(run_olabels(r, o + ta, tail) == seq![EPS_LABEL] + run_olabels(r, o + sa, s2));
        lemma_run_concat(r, o + sa, s1, o + ta, tail, t2);
        let ai = run_ilabels(a, sa, s1);
        let ao = run_olabels(a, sa, s1);
        let ri = run_ilabels(r, o + sa, s2);
        let ro = run_olabels(r, o + sa, s2);
        lemma_strip_eps_concat(ai, seq![EPS_LABEL] + ri);
        lemma_strip_eps_concat(ao, seq![EPS_LABEL] + ro);
        lemma_strip_eps_prepend(ri);
        lemma_strip_eps_prepend(ro);
        (s1 + tail, t2)
    }
}

/// The optional construction maps the empty pair and what its part maps.
pub proof fn lemma_optional_all(a: Fst, r: Fst)
    requires
        a.wf(),
        optionals(r, a),
    ensures
        forall|x: Seq<Label>, y: Seq<Label>| #[trigger] accepts(r, x, y) <==> ((x.len() == 0 && y.len() == 0) || accepts(a, x, y)),
{
    assert forall|x: Seq<Label>, y: Seq<Label>| #[trigger] accepts(r, x, y) <==> ((x.len() == 0 && y.len() == 0) || accepts(a, x, y)) by {
        lemma_optional_language(a, r, x, y);
    }
}

/// The plus construction maps exactly the joins of one or more pairs
/// that `a` maps.
pub proof fn lemma_plus_language(a: Fst, r: Fst, x: Seq<Label>, y: Seq<Label>)
    requires
        a.wf(),
        pluses(r, a),
    ensures
        accepts(r, x, y) == exists|parts: Seq<(Seq<Label>, Seq<Label>)>| parts.len() >= 1 && #[trigger] joins(a, parts, x, y),
{
    if exists|parts: Seq<(Seq<Label>, Seq<Label>)>| parts.len() >= 1 && #[trigger] joins(a, parts, x, y) {
        let parts = choose|parts: Seq<(Seq<Label>, Seq<Label>)>| parts.len() >= 1 && #[trigger] joins(a, parts, x, y);
        assert(accepts(a, parts[0].0, parts[0].1));
    }
    if a.start is Some {
        let sa = a.start->0 as int;
        assert(loops_back(r, a, 0)) by {
            assert forall|p: int| 0 <= p < a.n() implies #[trigger] r.rows()[0 + p] == shift_row(
                linked_row(a.rows()[p], a.finals@[p], sa),
                0,
            ) by {
                let row = linked_row(a.rows()[p], a.finals@[p], sa);
                assert(r.rows()[p] == row);
                assert forall|k: int| 0 <= k < row.len() implies #[trigger] row[k].nextstate < a.n() by {
                    if k < a.deg(p) {
                        assert(row[k] == a.arc(p, k));
                    }
                }
                assert(shift_row(row, 0) =~= row);
            }
            assert forall|p: int| 0 <= p < a.n() implies #[trigger] r.finals@[0 + p] == a.finals@[p] by {}
        }
        if accepts(r, x, y) {
            let (steps, t) = choose|steps: Seq<int>, t: int|
                #![trigger is_run(r, r.start->0 as int, steps, t)]
                {
                    &&& r.start is Some
                    &&& is_run(r, r.start->0 as int, steps, t)
                    &&& 0 <= t < r.n()
                    &&& r.is_final(t)
                    &&& strip_eps(run_ilabels(r, r.start->0 as int, steps)) == x
                    &&& strip_eps(run_olabels(r, r.start->0 as int, steps)) == y
                };
            assert(0 + sa == sa);
            let parts = lemma_loop_forward(a, r, 0, steps, t);
            assert(joins(a, parts, x, y));
        }
        if exists|parts: Seq<(Seq<Label>, Seq<Label>)>| parts.len() >= 1 && #[trigger] joins(a, parts, x, y) {
            let parts = choose|parts: Seq<(Seq<Label>, Seq<Label>)>| parts.len() >= 1 && #[trigger] joins(a, parts, x, y);
            let (steps, t) = lemma_loop_backward(a, r, 0, parts);
            assert(0 + sa == sa);
            assert(is_run(r, r.start->0 as int, steps, t));
        }
    }
}

/// The star construction maps exactly the joins of zero or more pairs
/// that `a` maps.
pub proof fn lemma_star_language(a: Fst, r: Fst, x: Seq<Label>, y: Seq<Label>)
    requires
        a.wf(),
        stars(r, a),
    ensures
        accepts(r, x, y) == exists|parts: Seq<(Seq<Label>, Seq<Label>)>| #[trigger] joins(a, parts, x, y),
{
    assert forall|k: int| 0 <= k < r.deg(0) implies (#[trigger] r.arc(0, k)).ilabel == EPS_LABEL && r.arc(0, k).olabel
        == EPS_LABEL by {
        assert(r.arc(0, k) == r.rows()[0][k]);
    }
    let e = Seq::<Label>::empty();
    let none = Seq::<(Seq<Label>, Seq<Label>)>::empty();
    if a.start is Some {
        let sa = a.start->0 as int;
        assert(loops_back(r, a, 1)) by {
            assert forall|p: int| 0 <= p < a.n() implies #[trigger] r.rows()[1 + p] == shift_row(
                linked_row(a.rows()[p], a.finals@[p], sa),
                1,
            ) by {
                assert(sa < a.n());
                if a.finals@[p] {
                    assert(shift_row(a.rows()[p].push(eps_to(sa)), 1) =~= shift_row(a.rows()[p], 1).push(eps_to(1 + sa)));
                }
            }
        }
    }
    if accepts(r, x, y) {
        let (steps, t) = choose|steps: Seq<int>, t: int|
            #![trigger is_run(r, r.start->0 as int, steps, t)]
            {
                &&& r.start is Some
                &&& is_run(r, r.start->0 as int, steps, t)
                &&& 0 <= t < r.n()
                &&& r.is_final(t)
                &&& strip_eps(run_ilabels(r, r.start->0 as int, steps)) == x
                &&& strip_eps(run_olabels(r, r.start->0 as int, steps)) == y
            };
        if steps.len() == 0 {
            assert(run_ilabels(r, 0, steps) =~= e);
            assert(run_olabels(r, 0, steps) =~= e);
            assert(strip_eps(e) =~= e);
            assert(joins(a, none, x, y));
        } else {
            lemma_union_first_step(r, steps, t);
            let sa = a.start->0 as int;
            assert(r.arc(0, steps[0]) == r.rows()[0][steps[0]]);
            assert(r.arc(0, steps[0]).nextstate as int == 1 + sa);
            let parts = lemma_loop_forward(a, r, 1, steps.drop_first(), t);
            assert(joins(a, parts, x, y));
        }
    }
    if exists|parts: Seq<(Seq<Label>, Seq<Label>)>| #[trigger] joins(a, parts, x, y) {
        let parts = choose|parts: Seq<(Seq<Label>, Seq<Label>)>| #[trigger] joins(a, parts, x, y);
        if parts.len() == 0 {
            assert(run_ilabels(r, 0, Seq::<int>::empty()) =~= e);
            assert(run_olabels(r, 0, Seq::<int>::empty()) =~= e);
            assert(strip_eps(e) =~= e);
            assert(x =~= e);
            assert(y =~= e);
            assert(is_run(r, r.start->0 as int, Seq::<int>::empty(), 0));
        } else {
            assert(accepts(a, parts[0].0, parts[0].1));
            let sa = a.start->0 as int;
            let (steps, t) = lemma_loop_backward(a, r, 1, parts);
            let all = seq![0int] + steps;
            assert(all.drop_first() =~= steps);
            assert(r.arc(0, 0) == r.rows()[0][0]);
            assert(r.arc(0, 0) == eps_to(1 + sa));
            assert(is_run(r, 0, all, t));
            lemma_union_first_step(r, all, t);
            assert(is_run(r, r.start->0 as int, all, t));
        }
    }
}

/// Joining one more pair onto a sequence of pairs.
pub proof fn lemma_flat_push(parts: Seq<(Seq<Label>, Seq<Label>)>, e: (Seq<Label>, Seq<Label>))
    ensures
        flat_in(parts.push(e)) == flat_in(parts) + e.0,
        flat_out(parts.push(e)) == flat_out(parts) + e.1,
    decreases parts.len(),
{
    let q = parts.push(e);
    if parts.len() == 0 {
        assert(q.drop_first() =~= parts);
        assert(flat_in(parts) =~= Seq::<Label>::empty());
        assert(flat_out(parts) =~= Seq::<Label>::empty());
        assert(flat_in(q) =~= e.0 + Seq::<Label>::empty());
        assert(flat_out(q) =~= e.1 + Seq::<Label>::empty());
        assert(e.0 + Seq::<Label>::empty() =~= flat_in(parts) + e.0);
        assert(e.1 + Seq::<Label>::empty() =~= flat_out(parts) + e.1);
    } else {
        lemma_flat_push(parts.drop_first(), e);
        assert(q.drop_first() =~= parts.drop_first().push(e));
        assert(q[0] == parts[0]);
        assert(flat_in(q) =~= flat_in(parts) + e.0);
        assert(flat_out(q) =~= flat_out(parts) + e.1);
    }
}

/// `f` maps exactly the joins of `lo..=hi` pairs that `a` maps.
pub open spec fn repeats(f: Fst, a: Fst, lo: int, hi: int) -> bool {
    forall|x: Seq<Label>, y: Seq<Label>|
        #[trigger] accepts(f, x, y) == exists|parts: Seq<(Seq<Label>, Seq<Label>)>|
            lo <= parts.len() <= hi && #[trigger] joins(a, parts, x, y)
}

/// The machine with one final start state and no arcs maps only the empty
/// pair: zero repetitions of anything.
pub proof fn lemma_epsilon_repeats(f: Fst, a: Fst)
    requires
        f.wf(),
        is_loop_machine(f, Seq::<(Label, Label)>::empty()),
    ensures
        repeats(f, a, 0, 0),
{
    let e = Seq::<Label>::empty();
    let none = Seq::<(Seq<Label>, Seq<Label>)>::empty();
    assert forall|x: Seq<Label>, y: Seq<Label>| #[trigger] accepts(f, x, y) == exists|parts: Seq<(Seq<Label>, Seq<Label>)>|
        0 <= parts.len() <= 0 && #[trigger] joins(a, parts, x, y) by {
        if accepts(f, x, y) {
            let (steps, t) = choose|steps: Seq<int>, t: int|
                #![trigger is_run(f, f.start->0 as int, steps, t)]
                {
                    &&& f.start is Some
                    &&& is_run(f, f.start->0 as int, steps, t)
                    &&& 0 <= t < f.n()
                    &&& f.is_final(t)
                    &&& strip_eps(run_ilabels(f, f.start->0 as int, steps)) == x
                    &&& strip_eps(run_olabels(f, f.start->0 as int, steps)) == y
                };
            assert(steps.len() == 0);
            assert(run_ilabels(f, 0, steps) =~= e);
            assert(run_olabels(f, 0, steps) =~= e);
            assert(strip_eps(e) =~= e);
            assert(joins(a, none, x, y));
        }
        if exists|parts: Seq<(Seq<Label>, Seq<Label>)>| 0 <= parts.len() <= 0 && #[trigger] joins(a, parts, x, y) {
            let parts = choose|parts: Seq<(Seq<Label>, Seq<Label>)>| 0 <= parts.len() <= 0 && #[trigger] joins(a, parts, x, y);
            assert(x =~= e);
            assert(y =~= e);
            let st = Seq::<int>::empty();
            assert(run_ilabels(f, 0, st) =~= e);
            assert(run_olabels(f, 0, st) =~= e);
            assert(strip_eps(e) =~= e);
            assert(is_run(f, f.start->0 as int, st, 0));
        }
    }
}

/// One pair of `a` more at the end of each join.
proof fn lemma_joins_push(a: Fst, p1: Seq<(Seq<Label>, Seq<Label>)>, x1: Seq<Label>, y1: Seq<Label>, x2: Seq<Label>, y2: Seq<Label>)
    requires
        joins(a, p1, x1, y1),
        accepts(a, x2, y2),
    ensures
        joins(a, p1.push((x2, y2)), x1 + x2, y1 + y2),
{
    let parts = p1.push((x2, y2));
    lemma_flat_push(p1, (x2, y2));
    assert forall|k: int| 0 <= k < parts.len() implies accepts(a, #[trigger] parts[k].0, parts[k].1) by {
        if k < p1.len() {
            assert(parts[k] == p1[k]);
        }
    }
}

/// A non-empty join is the join of all pairs but the last, followed by
/// the last pair.
proof fn lemma_joins_pop(a: Fst, parts: Seq<(Seq<Label>, Seq<Label>)>, x: Seq<Label>, y: Seq<Label>)
    requires
        joins(a, parts, x, y),
        parts.len() > 0,
    ensures
        joins(a, parts.drop_last(), flat_in(parts.drop_last()), flat_out(parts.drop_last())),
        accepts(a, parts.last().0, parts.last().1),
        x == flat_in(parts.drop_last()) + parts.last().0,
        y == flat_out(parts.drop_last()) + parts.last().1,
{
    let p1 = parts.drop_last();
    assert(p1.push(parts.last()) =~= parts);
    lemma_flat_push(p1, parts.last());
    assert forall|k: int| 0 <= k < p1.len() implies accepts(a, #[trigger] p1[k].0, p1[k].1) by {
        assert(p1[k] == parts[k]);
    }
    assert(accepts(a, parts[parts.len() - 1].0, parts[parts.len() - 1].1));
}

/// Concatenating one more copy of `a` moves the number of pairs up by one.
pub proof fn lemma_repeat_step(a: Fst, acc: Fst, r: Fst, lo: int, hi: int)
    requires
        a.wf(),
        acc.wf(),
        0 <= lo,
        repeats(acc, a, lo, hi),
        concats(r, acc, a),
    ensures
        repeats(r, a, lo + 1, hi + 1),
{
    assert forall|x: Seq<Label>, y: Seq<Label>| #[trigger] accepts(r, x, y) == exists|parts: Seq<(Seq<Label>, Seq<Label>)>|
        lo + 1 <= parts.len() <= hi + 1 && #[trigger] joins(a, parts, x, y) by {
        lemma_concat_language(acc, a, r, x, y);
        if accepts(r, x, y) {
            let (x1, x2, y1, y2) = choose|x1: Seq<Label>, x2: Seq<Label>, y1: Seq<Label>, y2: Seq<Label>|
                #![trigger accepts(acc, x1, y1), accepts(a, x2, y2)]
                x == x1 + x2 && y == y1 + y2 && accepts(acc, x1, y1) && accepts(a, x2, y2);
            assert(accepts(acc, x1, y1));
            let p1 = choose|parts: Seq<(Seq<Label>, Seq<Label>)>| lo <= parts.len() <= hi && #[trigger] joins(a, parts, x1, y1);
            lemma_joins_push(a, p1, x1, y1, x2, y2);
            assert(joins(a, p1.push((x2, y2)), x, y));
        }
        if exists|parts: Seq<(Seq<Label>, Seq<Label>)>| lo + 1 <= parts.len() <= hi + 1 && #[trigger] joins(a, parts, x, y) {
            let parts = choose|parts: Seq<(Seq<Label>, Seq<Label>)>| lo + 1 <= parts.len() <= hi + 1 && #[trigger] joins(a, parts, x, y);
            lemma_joins_pop(a, parts, x, y);
            let p1 = parts.drop_last();
            let x1 = flat_in(p1);
            let y1 = flat_out(p1);
            assert(joins(a, p1, x1, y1));
            assert(accepts(acc, x1, y1));
            assert(accepts(a, parts.last().0, parts.last().1));
        }
    }
}

/// Concatenating one more optional copy of `a` widens the number of pairs
/// by one at the top.
pub proof fn lemma_repeat_opt_step(a: Fst, opt: Fst, acc: Fst, r: Fst, lo: int, hi: int)
    requires
        a.wf(),
        acc.wf(),
        opt.wf(),
        0 <= lo <= hi,
        repeats(acc, a, lo, hi),
        optionals(opt, a),
        concats(r, acc, opt),
    ensures
        repeats(r, a, lo, hi + 1),
{
    let e = Seq::<Label>::empty();
    assert forall|x: Seq<Label>, y: Seq<Label>| #[trigger] accepts(r, x, y) == exists|parts: Seq<(Seq<Label>, Seq<Label>)>|
        lo <= parts.len() <= hi + 1 && #[trigger] joins(a, parts, x, y) by {
        lemma_concat_language(acc, opt, r, x, y);
        if accepts(r, x, y) {
            let (x1, x2, y1, y2) = choose|x1: Seq<Label>, x2: Seq<Label>, y1: Seq<Label>, y2: Seq<Label>|
                #![trigger accepts(acc, x1, y1), accepts(opt, x2, y2)]
                x == x1 + x2 && y == y1 + y2 && accepts(acc, x1, y1) && accepts(opt, x2, y2);
            assert(accepts(acc, x1, y1));
            let p1 = choose|parts: Seq<(Seq<Label>, Seq<Label>)>| lo <= parts.len() <= hi && #[trigger] joins(a, parts, x1, y1);
            lemma_optional_language(a, opt, x2, y2);
            if accepts(a, x2, y2) {
                lemma_joins_push(a, p1, x1, y1, x2, y2);
                assert(joins(a, p1.push((x2, y2)), x, y));
            } else {
                assert(x2 =~= e);
                assert(y2 =~= e);
                assert(x =~= x1);
                assert(y =~= y1);
                assert(joins(a, p1, x, y));
            }
        }
        if exists|parts: Seq<(Seq<Label>, Seq<Label>)>| lo <= parts.len() <= hi + 1 && #[trigger] joins(a, parts, x, y) {
            let parts = choose|parts: Seq<(Seq<Label>, Seq<Label>)>| lo <= parts.len() <= hi + 1 && #[trigger] joins(a, parts, x, y);
            if parts.len() <= hi {
                assert(accepts(acc, x, y));
                lemma_optional_language(a, opt, e, e);
                assert(accepts(opt, e, e));
                assert(x =~= x + e);
                assert(y =~= y + e);
            } else {
                lemma_joins_pop(a, parts, x, y);
                let p1 = parts.drop_last();
                let x1 = flat_in(p1);
                let y1 = flat_out(p1);
                assert(joins(a, p1, x1, y1));
                assert(accepts(acc, x1, y1));
                lemma_optional_language(a, opt, parts.last().0, parts.last().1);
                assert(accepts(opt, parts.last().0, parts.last().1));
            }
        }
    }
}

/// How many copies the quantifier `q` allows.
pub open spec fn copies_allowed(q: Quantifier, k: int) -> bool {
    match q {
        Quantifier::Exact(n) => k == n,
        Quantifier::Star => 0 <= k,
        Quantifier::Plus => 1 <= k,
        Quantifier::Question => 0 <= k <= 1,
        Quantifier::AtLeast(n) => n <= k,
        Quantifier::Range(n, m) => n <= k <= m,
    }
}

/// `f` maps exactly the joins of as many pairs of `unit` as `q` allows.
#[verifier::opaque]
pub open spec fn copies_of(f: Fst, unit: Fst, q: Quantifier) -> bool {
    forall|x: Seq<Label>, y: Seq<Label>|
        #[trigger] accepts(f, x, y) <==> exists|parts: Seq<(Seq<Label>, Seq<Label>)>|
            copies_allowed(q, parts.len() as int) && #[trigger] joins(unit, parts, x, y)
}

/// Repeating `lo..=hi` times is the quantifier `{lo}` (when `lo == hi`) or
/// `{lo,hi}`.
pub proof fn lemma_repeats_copies(f: Fst, unit: Fst, q: Quantifier, lo: int, hi: int)
    requires
        repeats(f, unit, lo, hi),
        (q == Quantifier::Exact(lo as u32) && lo == hi) || q == Quantifier::Range(lo as u32, hi as u32),
        0 <= lo <= hi <= u32::MAX,
    ensures
        copies_of(f, unit, q),
{
    reveal(copies_of);
}

/// The star construction allows any number of copies.
pub proof fn lemma_star_copies(f: Fst, unit: Fst, q: Quantifier)
    requires
        unit.wf(),
        stars(f, unit),
        q == Quantifier::Star || q == Quantifier::AtLeast(0),
    ensures
        copies_of(f, unit, q),
{
    reveal(copies_of);
    assert forall|x: Seq<Label>, y: Seq<Label>| #[trigger] accepts(f, x, y) <==> exists|parts: Seq<(Seq<Label>, Seq<Label>)>|
        copies_allowed(q, parts.len() as int) && #[trigger] joins(unit, parts, x, y) by {
        lemma_star_language(unit, f, x, y);
    }
}

/// The plus construction allows one copy or more.
pub proof fn lemma_plus_copies(f: Fst, unit: Fst)
    requires
        unit.wf(),
        pluses(f, unit),
    ensures
        copies_of(f, unit, Quantifier::Plus),
{
    reveal(copies_of);
    assert forall|x: Seq<Label>, y: Seq<Label>| #[trigger] accepts(f, x, y) <==> exists|parts: Seq<(Seq<Label>, Seq<Label>)>|
        copies_allowed(Quantifier::Plus, parts.len() as int) && #[trigger] joins(unit, parts, x, y) by {
        lemma_plus_language(unit, f, x, y);
    }
}

/// The machine with no arcs and one final state allows no copy.
pub proof fn lemma_none_copies(f: Fst, unit: Fst)
    requires
        f.wf(),
        is_loop_machine(f, Seq::<(Label, Label)>::empty()),
    ensures
        copies_of(f, unit, Quantifier::Exact(0)),
{
    reveal(copies_of);
    lemma_epsilon_repeats(f, unit);
}

/// Joining two lists of pairs joins their sides.
proof fn lemma_flat_concat(p1: Seq<(Seq<Label>, Seq<Label>)>, p2: Seq<(Seq<Label>, Seq<Label>)>)
    ensures
        flat_in(p1 + p2) == flat_in(p1) + flat_in(p2),
        flat_out(p1 + p2) == flat_out(p1) + flat_out(p2),
    decreases p1.len(),
{
    if p1.len() == 0 {
        assert(p1 + p2 =~= p2);
        assert(flat_in(p1) + flat_in(p2) =~= flat_in(p2));
        assert(flat_out(p1) + flat_out(p2) =~= flat_out(p2));
    } else {
        lemma_flat_concat(p1.drop_first(), p2);
        assert((p1 + p2).drop_first() =~= p1.drop_first() + p2);
        assert((p1 + p2)[0] == p1[0]);
        assert(p1[0].0 + (flat_in(p1.drop_first()) + flat_in(p2)) =~= (p1[0].0 + flat_in(p1.drop_first())) + flat_in(p2));
        assert(p1[0].1 + (flat_out(p1.drop_first()) + flat_out(p2)) =~= (p1[0].1 + flat_out(p1.drop_first())) + flat_out(p2));
    }
}

/// `n` copies followed by any number of copies allow `n` copies or more.
pub proof fn lemma_at_least_copies(f: Fst, unit: Fst, head: Fst, st: Fst, n: u32)
    requires
        unit.wf(),
        head.wf(),
        repeats(head, unit, n as int, n as int),
        stars(st, unit),
        concats(f, head, st),
    ensures
        copies_of(f, unit, Quantifier::AtLeast(n)),
{
    reveal(copies_of);
    assert forall|x: Seq<Label>, y: Seq<Label>| #[trigger] accepts(f, x, y) <==> exists|parts: Seq<(Seq<Label>, Seq<Label>)>|
        copies_allowed(Quantifier::AtLeast(n), parts.len() as int) && #[trigger] joins(unit, parts, x, y) by {
        lemma_concat_language(head, st, f, x, y);
        if accepts(f, x, y) {
            let (x1, x2, y1, y2) = choose|x1: Seq<Label>, x2: Seq<Label>, y1: Seq<Label>, y2: Seq<Label>|
                #![trigger accepts(head, x1, y1), accepts(st, x2, y2)]
                x == x1 + x2 && y == y1 + y2 && accepts(head, x1, y1) && accepts(st, x2, y2);
            assert(accepts(head, x1, y1));
            let p1 = choose|parts: Seq<(Seq<Label>, Seq<Label>)>| n <= parts.len() <= n && #[trigger] joins(unit, parts, x1, y1);
            lemma_star_language(unit, st, x2, y2);
            let p2 = choose|parts: Seq<(Seq<Label>, Seq<Label>)>| #[trigger] joins(unit, parts, x2, y2);
            let parts = p1 + p2;
            lemma_flat_concat(p1, p2);
            assert forall|i: int| 0 <= i < parts.len() implies accepts(unit, #[trigger] parts[i].0, parts[i].1) by {
                if i < p1.len() {
                    assert(parts[i] == p1[i]);
                } else {
                    assert(parts[i] == p2[i - p1.len()]);
                }
            }
            assert(joins(unit, parts, x, y));
            assert(copies_allowed(Quantifier::AtLeast(n), parts.len() as int));
        }
        if exists|parts: Seq<(Seq<Label>, Seq<Label>)>| copies_allowed(Quantifier::AtLeast(n), parts.len() as int) && #[trigger] joins(unit, parts, x, y) {
            let parts = choose|parts: Seq<(Seq<Label>, Seq<Label>)>| copies_allowed(Quantifier::AtLeast(n), parts.len() as int) && #[trigger] joins(unit, parts, x, y);
            let p1 = parts.take(n as int);
            let p2 = parts.skip(n as int);
            assert(p1 + p2 =~= parts);
            lemma_flat_concat(p1, p2);
            assert forall|i: int| 0 <= i < p1.len() implies accepts(unit, #[trigger] p1[i].0, p1[i].1) by {
                assert(p1[i] == parts[i]);
            }
            assert forall|i: int| 0 <= i < p2.len() implies accepts(unit, #[trigger] p2[i].0, p2[i].1) by {
                assert(p2[i] == parts[i + n]);
            }
            assert(joins(unit, p1, flat_in(p1), flat_out(p1)));
            assert(accepts(head, flat_in(p1), flat_out(p1)));
            assert(joins(unit, p2, flat_in(p2), flat_out(p2)));
            lemma_star_language(unit, st, flat_in(p2), flat_out(p2));
            assert(accepts(st, flat_in(p2), flat_out(p2)));
        }
    }
}

/// `k` copies lie within `min..=max` (no upper bound for `None`).
pub open spec fn copies_between(min: int, max: Option<u32>, k: int) -> bool {
    min <= k && (max matches Some(hi) ==> k <= hi)
}

/// `f` maps the empty pair when `min` is zero, and otherwise exactly the
/// runs of `k` copies, `min..=max` of them: a first pair that `base` maps,
/// then `k - 1` pairs that `tail` maps.
#[verifier::opaque]
pub open spec fn runs_copies_of(f: Fst, base: Fst, tail: Fst, min: int, max: Option<u32>) -> bool {
    forall|x: Seq<Label>, y: Seq<Label>|
        #[trigger] accepts(f, x, y) <==> ((min == 0 && x.len() == 0 && y.len() == 0) || exists|
            x0: Seq<Label>,
            y0: Seq<Label>,
            parts: Seq<(Seq<Label>, Seq<Label>)>,
        |
            #![trigger accepts(base, x0, y0), all_accepted(tail, parts)]
            copies_between(min, max, parts.len() as int + 1) && accepts(base, x0, y0) && all_accepted(tail, parts) && x == x0 + flat_in(parts)
                && y == y0 + flat_out(parts))
}

proof fn lemma_one_runs(one: Fst, base: Fst, rep: Fst, tail: Fst, qr: Quantifier, min: int, max: Option<u32>, x: Seq<Label>, y: Seq<Label>)
    requires
        base.wf(),
        rep.wf(),
        concats(one, base, rep),
        copies_of(rep, tail, qr),
        forall|k: int| 0 <= k ==> (#[trigger] copies_allowed(qr, k) <==> copies_between(min, max, k + 1)),
    ensures
        accepts(one, x, y) <==> exists|x0: Seq<Label>, y0: Seq<Label>, parts: Seq<(Seq<Label>, Seq<Label>)>|
            #![trigger accepts(base, x0, y0), all_accepted(tail, parts)]
            copies_between(min, max, parts.len() as int + 1) && accepts(base, x0, y0) && all_accepted(tail, parts) && x == x0 + flat_in(parts)
                && y == y0 + flat_out(parts),
{
    reveal(copies_of);
    lemma_concat_language(base, rep, one, x, y);
    if accepts(one, x, y) {
        let (x0, x1, y0, y1) = choose|x1: Seq<Label>, x2: Seq<Label>, y1: Seq<Label>, y2: Seq<Label>|
            #![trigger accepts(base, x1, y1), accepts(rep, x2, y2)]
            x == x1 + x2 && y == y1 + y2 && accepts(base, x1, y1) && accepts(rep, x2, y2);
        assert(accepts(rep, x1, y1));
        let parts = choose|parts: Seq<(Seq<Label>, Seq<Label>)>| copies_allowed(qr, parts.len() as int) && #[trigger] joins(tail, parts, x1, y1);
        assert(copies_allowed(qr, parts.len() as int));
        assert(copies_between(min, max, parts.len() as int + 1));
        assert(all_accepted(tail, parts));
    }
    if exists|x0: Seq<Label>, y0: Seq<Label>, parts: Seq<(Seq<Label>, Seq<Label>)>|
        #![trigger accepts(base, x0, y0), all_accepted(tail, parts)]
        copies_between(min, max, parts.len() as int + 1) && accepts(base, x0, y0) && all_accepted(tail, parts) && x == x0 + flat_in(parts)
            && y == y0 + flat_out(parts) {
        let (x0, y0, parts) = choose|x0: Seq<Label>, y0: Seq<Label>, parts: Seq<(Seq<Label>, Seq<Label>)>|
            #![trigger accepts(base, x0, y0), all_accepted(tail, parts)]
            copies_between(min, max, parts.len() as int + 1) && accepts(base, x0, y0) && all_accepted(tail, parts) && x == x0 + flat_in(parts)
                && y == y0 + flat_out(parts);
        assert(copies_allowed(qr, parts.len() as int));
        assert(joins(tail, parts, flat_in(parts), flat_out(parts)));
        assert(accepts(rep, flat_in(parts), flat_out(parts)));
        assert(accepts(base, x0, y0) && accepts(rep, flat_in(parts), flat_out(parts)));
    }
}

/// A first copy then as many more copies as the repeat allows, made
/// optional when no copy at all is allowed: the runs of `min..=max`
/// copies.
pub proof fn lemma_runs_copies(f: Fst, one: Fst, base: Fst, rep: Fst, tail: Fst, qr: Quantifier, min: int, max: Option<u32>)
    requires
        base.wf(),
        rep.wf(),
        one.wf(),
        concats(one, base, rep),
        copies_of(rep, tail, qr),
        forall|k: int| 0 <= k ==> (#[trigger] copies_allowed(qr, k) <==> copies_between(min, max, k + 1)),
        min == 0 ==> optionals(f, one),
        min != 0 ==> f == one,
        0 <= min,
    ensures
        runs_copies_of(f, base, tail, min, max),
{
    reveal(runs_copies_of);
    if min == 0 {
        lemma_optional_all(one, f);
    }
    assert forall|x: Seq<Label>, y: Seq<Label>|
        #[trigger] accepts(f, x, y) <==> ((min == 0 && x.len() == 0 && y.len() == 0) || exists|
            x0: Seq<Label>,
            y0: Seq<Label>,
            parts: Seq<(Seq<Label>, Seq<Label>)>,
        |
            #![trigger accepts(base, x0, y0), all_accepted(tail, parts)]
            copies_between(min, max, parts.len() as int + 1) && accepts(base, x0, y0) && all_accepted(tail, parts) && x == x0 + flat_in(parts)
                && y == y0 + flat_out(parts)) by {
        lemma_one_runs(one, base, rep, tail, qr, min, max, x, y);
    }
}

/// The machine with no arcs and one final state is the run of no copy.
pub proof fn lemma_no_runs(f: Fst, base: Fst, tail: Fst)
    requires
        f.wf(),
        is_loop_machine(f, Seq::<(Label, Label)>::empty()),
    ensures
        runs_copies_of(f, base, tail, 0, Some(0u32)),
{
    reveal(runs_copies_of);
    lemma_epsilon_repeats(f, base);
    assert forall|x: Seq<Label>, y: Seq<Label>|
        #[trigger] accepts(f, x, y) <==> ((x.len() == 0 && y.len() == 0) || exists|
            x0: Seq<Label>,
            y0: Seq<Label>,
            parts: Seq<(Seq<Label>, Seq<Label>)>,
        |
            #![trigger accepts(base, x0, y0), all_accepted(tail, parts)]
            copies_between(0, Some(0u32), parts.len() as int + 1) && accepts(base, x0, y0) && all_accepted(tail, parts) && x == x0 + flat_in(parts)
                && y == y0 + flat_out(parts)) by {
        if accepts(f, x, y) {
            let parts = choose|parts: Seq<(Seq<Label>, Seq<Label>)>| 0 <= parts.len() <= 0 && #[trigger] joins(base, parts, x, y);
            assert(parts.len() == 0);
            assert(flat_in(parts) =~= Seq::<Label>::empty());
            assert(flat_out(parts) =~= Seq::<Label>::empty());
        }
        if x.len() == 0 && y.len() == 0 {
            let none = Seq::<(Seq<Label>, Seq<Label>)>::empty();
            assert(flat_in(none) =~= x);
            assert(flat_out(none) =~= y);
            assert(joins(base, none, x, y));
        }
    }
}

/// The last step of a non-empty run leaves from the state the rest of
/// the run reaches.
proof fn lemma_run_prefix(f: Fst, from: int, steps: Seq<int>, to: int) -> (mid: int)
    requires
        is_run(f, from, steps, to),
        steps.len() > 0,
    ensures
        is_run(f, from, steps.drop_last(), mid),
        0 <= mid < f.n(),
        0 <= steps.last() < f.deg(mid),
        f.arc(mid, steps.last()).nextstate == to,
    decreases steps.len(),
{
    if steps.len() == 1 {
        assert(steps.drop_last() =~= Seq::<int>::empty());
        assert(steps.drop_first() =~= Seq::<int>::empty());
        let nx = f.arc(from, steps[0]).nextstate as int;
        assert(is_run(f, nx, steps.drop_first(), to));
        assert(is_run(f, nx, Seq::<int>::empty(), to));
        assert(nx == to);
        assert(steps.last() == steps[0]);
        from
    } else {
        let nx = f.arc(from, steps[0]).nextstate as int;
        let m = lemma_run_prefix(f, nx, steps.drop_first(), to);
        assert(steps.drop_last().drop_first() =~= steps.drop_first().drop_last());
        assert(steps.drop_last()[0] == steps[0]);
        assert(steps.drop_first().last() == steps.last());
        m
    }
}

/// Each run of the composition from its start stands for a run of `a`
/// and a run of `b` whose middle labels agree.
proof fn lemma_compose_runs(a: Fst, b: Fst, r: Fst, trip: Seq<Triple>, steps: Seq<int>, t: int) -> (res: (
    Seq<int>,
    Seq<int>,
))
    requires
        a.wf(),
        b.wf(),
        r.wf(),
        compose_witness(a, b, r, trip),
        a.start is Some,
        b.start is Some,
        r.start == Some(0usize),
        is_run(r, 0, steps, t),
    ensures
        0 <= t < r.n(),
        is_run(a, a.start->0 as int, res.0, trip[t].0 as int),
        is_run(b, b.start->0 as int, res.1, trip[t].1 as int),
        strip_eps(run_ilabels(r, 0, steps)) == strip_eps(run_ilabels(a, a.start->0 as int, res.0)),
        strip_eps(run_olabels(a, a.start->0 as int, res.0)) == strip_eps(run_ilabels(b, b.start->0 as int, res.1)),
        strip_eps(run_olabels(r, 0, steps)) == strip_eps(run_olabels(b, b.start->0 as int, res.1)),
    decreases steps.len(),
{
    let sa = a.start->0 as int;
    let sb = b.start->0 as int;
    if steps.len() == 0 {
        assert(t == 0);
        assert(r.n() > 0);
        let e = Seq::<int>::empty();
        assert(run_ilabels(r, 0, steps) =~= Seq::<Label>::empty());
        assert(run_olabels(r, 0, steps) =~= Seq::<Label>::empty());
        assert(run_ilabels(a, sa, e) =~= Seq::<Label>::empty());
        assert(run_olabels(a, sa, e) =~= Seq::<Label>::empty());
        assert(run_ilabels(b, sb, e) =~= Seq::<Label>::empty());
        assert(run_olabels(b, sb, e) =~= Seq::<Label>::empty());
        (e, e)
    } else {
        let m = lemma_run_prefix(r, 0, steps, t);
        let k = steps.last();
        let (pa, pb) = lemma_compose_runs(a, b, r, trip, steps.drop_last(), m);
        assert(steps.drop_last().push(k) =~= steps);
        lemma_run_append(r, 0, steps.drop_last(), m, k);
        let e = r.arc(m, k);
        assert(justified_arc(a, b, trip[m], trip[e.nextstate as int], e));
        let q1 = trip[m].0 as int;
        let q2 = trip[m].1 as int;
        assert(q1 < a.n() && q2 < b.n());
        lemma_strip_push(run_ilabels(r, 0, steps.drop_last()), e.ilabel);
        lemma_strip_push(run_olabels(r, 0, steps.drop_last()), e.olabel);
        if exists|k1: int, k2: int|
            #![trigger a.arc(q1, k1), b.arc(q2, k2)]
            {
                &&& 0 <= k1 < a.deg(q1)
                &&& 0 <= k2 < b.deg(q2)
                &&& a.arc(q1, k1).olabel != EPS_LABEL
                &&& b.arc(q2, k2).ilabel == a.arc(q1, k1).olabel
                &&& trip[t].0 == a.arc(q1, k1).nextstate
                &&& trip[t].1 == b.arc(q2, k2).nextstate
                &&& e.ilabel == a.arc(q1, k1).ilabel
                &&& e.olabel == b.arc(q2, k2).olabel
            } {
            let (k1, k2) = choose|k1: int, k2: int|
                #![trigger a.arc(q1, k1), b.arc(q2, k2)]
                {
                    &&& 0 <= k1 < a.deg(q1)
                    &&& 0 <= k2 < b.deg(q2)
                    &&& a.arc(q1, k1).olabel != EPS_LABEL
                    &&& b.arc(q2, k2).ilabel == a.arc(q1, k1).olabel
                    &&& trip[t].0 == a.arc(q1, k1).nextstate
                    &&& trip[t].1 == b.arc(q2, k2).nextstate
                    &&& e.ilabel == a.arc(q1, k1).ilabel
                    &&& e.olabel == b.arc(q2, k2).olabel
                };
            lemma_run_append(a, sa, pa, q1, k1);
            lemma_run_append(b, sb, pb, q2, k2);
            lemma_strip_push(run_ilabels(a, sa, pa), a.arc(q1, k1).ilabel);
            lemma_strip_push(run_olabels(a, sa, pa), a.arc(q1, k1).olabel);
            lemma_strip_push(run_ilabels(b, sb, pb), b.arc(q2, k2).ilabel);
            lemma_strip_push(run_olabels(b, sb, pb), b.arc(q2, k2).olabel);
            (pa.push(k1), pb.push(k2))
        } else if exists|k1: int|
            #![trigger a.arc(q1, k1)]
            {
                &&& 0 <= k1 < a.deg(q1)
                &&& a.arc(q1, k1).olabel == EPS_LABEL
                &&& trip[t].0 == a.arc(q1, k1).nextstate
                &&& trip[t].1 == q2
                &&& e.ilabel == a.arc(q1, k1).ilabel
                &&& e.olabel == EPS_LABEL
            } {
            let k1 = choose|k1: int|
                #![trigger a.arc(q1, k1)]
                {
                    &&& 0 <= k1 < a.deg(q1)
                    &&& a.arc(q1, k1).olabel == EPS_LABEL
                    &&& trip[t].0 == a.arc(q1, k1).nextstate
                    &&& trip[t].1 == q2
                    &&& e.ilabel == a.arc(q1, k1).ilabel
                    &&& e.olabel == EPS_LABEL
                };
            lemma_run_append(a, sa, pa, q1, k1);
            lemma_strip_push(run_ilabels(a, sa, pa), a.arc(q1, k1).ilabel);
            lemma_strip_push(run_olabels(a, sa, pa), a.arc(q1, k1).olabel);
            (pa.push(k1), pb)
        } else {
            let k2 = choose|k2: int|
                #![trigger b.arc(q2, k2)]
                {
                    &&& 0 <= k2 < b.deg(q2)
                    &&& b.arc(q2, k2).ilabel == EPS_LABEL
                    &&& trip[t].0 == q1
                    &&& trip[t].1 == b.arc(q2, k2).nextstate
                    &&& e.ilabel == EPS_LABEL
                    &&& e.olabel == b.arc(q2, k2).olabel
                };
            lemma_run_append(b, sb, pb, q2, k2);
            lemma_strip_push(run_ilabels(b, sb, pb), b.arc(q2, k2).ilabel);
            lemma_strip_push(run_olabels(b, sb, pb), b.arc(q2, k2).olabel);
            (pa, pb.push(k2))
        }
    }
}

/// Composition is sound: whatever the composition of `a` and `b` maps
/// `x` to, `a` maps `x` to some `y` that `b` maps to it.
pub proof fn lemma_compose_sound(a: Fst, b: Fst, r: Fst, x: Seq<Label>, z: Seq<Label>)
    requires
        a.wf(),
        b.wf(),
        composes(a, b, r),
        accepts(r, x, z),
    ensures
        exists|y: Seq<Label>| accepts(a, x, y) && accepts(b, y, z),
{
    let trip = choose|trip: Seq<Triple>| compose_witness(a, b, r, trip);
    let (steps, t) = choose|steps: Seq<int>, t: int|
        #![trigger is_run(r, r.start->0 as int, steps, t)]
        {
            &&& r.start is Some
            &&& is_run(r, r.start->0 as int, steps, t)
            &&& 0 <= t < r.n()
            &&& r.is_final(t)
            &&& strip_eps(run_ilabels(r, r.start->0 as int, steps)) == x
            &&& strip_eps(run_olabels(r, r.start->0 as int, steps)) == z
        };
    assert(r.start == Some(0usize));
    let (pa, pb) = lemma_compose_runs(a, b, r, trip, steps, t);
    let y = strip_eps(run_olabels(a, a.start->0 as int, pa));
    assert(r.finals@[t] == (a.finals@[trip[t].0 as int] && b.finals@[trip[t].1 as int]));
    assert(is_run(a, a.start->0 as int, pa, trip[t].0 as int));
    assert(is_run(b, b.start->0 as int, pb, trip[t].1 as int));
    assert(accepts(a, x, y));
    assert(accepts(b, y, z));
}

/// Dropping epsilons from a sequence that starts with `l`.
pub proof fn lemma_strip_cons(l: Label, s: Seq<Label>)
    ensures
        strip_eps(seq![l] + s) == if l != EPS_LABEL { seq![l] + strip_eps(s) } else { strip_eps(s) },
{
    lemma_strip_eps_concat(seq![l], s);
    assert(seq![l].drop_last() =~= Seq::<Label>::empty());
    assert(strip_eps(Seq::<Label>::empty()) =~= Seq::<Label>::empty());
    if l != EPS_LABEL {
        assert(strip_eps(seq![l]) =~= seq![l]);
    } else {
        assert(strip_eps(seq![l]) =~= Seq::<Label>::empty());
        assert(Seq::<Label>::empty() + strip_eps(s) =~= strip_eps(s));
    }
}

/// Equal sequences that start with the same label agree after it.
proof fn lemma_cons_eq(l: Label, m: Label, s: Seq<Label>, t: Seq<Label>)
    requires
        seq![l] + s == seq![m] + t,
    ensures
        l == m,
        s == t,
{
    assert((seq![l] + s)[0] == l);
    assert((seq![m] + t)[0] == m);
    assert(s =~= (seq![l] + s).drop_first());
    assert(t =~= (seq![m] + t).drop_first());
}

/// From composition state `i`, a run of `a` and a run of `b` whose middle
/// labels agree give a run of the composition, reading what `a` reads and
/// writing what `b` writes. `a`'s epsilon-output moves are taken before
/// `b`'s epsilon-input moves between synchronised moves, as the filter
/// requires.
proof fn lemma_compose_walk(
    a: Fst,
    b: Fst,
    r: Fst,
    trip: Seq<Triple>,
    i: int,
    sa: Seq<int>,
    ta: int,
    sb: Seq<int>,
    tb: int,
) -> (res: (Seq<int>, int))
    requires
        a.wf(),
        b.wf(),
        r.wf(),
        compose_witness(a, b, r, trip),
        compose_complete(a, b, r, trip),
        0 <= i < r.n(),
        is_run(a, trip[i].0 as int, sa, ta),
        is_run(b, trip[i].1 as int, sb, tb),
        strip_eps(run_olabels(a, trip[i].0 as int, sa)) == strip_eps(run_ilabels(b, trip[i].1 as int, sb)),
        trip[i].2 ==> (sa.len() == 0 || a.arc(trip[i].0 as int, sa[0]).olabel != EPS_LABEL),
    ensures
        is_run(r, i, res.0, res.1),
        0 <= res.1 < r.n(),
        trip[res.1].0 == ta,
        trip[res.1].1 == tb,
        strip_eps(run_ilabels(r, i, res.0)) == strip_eps(run_ilabels(a, trip[i].0 as int, sa)),
        strip_eps(run_olabels(r, i, res.0)) == strip_eps(run_olabels(b, trip[i].1 as int, sb)),
    decreases sa.len() + sb.len(),
{
    let t = trip[i];
    let q1 = t.0 as int;
    let q2 = t.1 as int;
    let f = t.2;
    let row = r.rows()[i];
    assert(row_complete(a, b, trip, t, row));
    assert(q1 < a.n() && q2 < b.n());
    if !f && sa.len() > 0 && a.arc(q1, sa[0]).olabel == EPS_LABEL {
        let k1 = sa[0];
        let e1 = a.arc(q1, k1);
        assert(has_arc(trip, row, e1.ilabel, EPS_LABEL, (e1.nextstate, t.1, false)));
        let x = choose|x: int|
            #![trigger row[x]]
            0 <= x < row.len() && row[x].ilabel == e1.ilabel && row[x].olabel == EPS_LABEL && (row[x].nextstate as int) < trip.len()
                && trip[row[x].nextstate as int] == (e1.nextstate, t.1, false);
        assert(r.arc(i, x) == row[x]);
        let j = row[x].nextstate as int;
        let ra = sa.drop_first();
        lemma_strip_cons(EPS_LABEL, run_olabels(a, e1.nextstate as int, ra));
        let (st, u) = lemma_compose_walk(a, b, r, trip, j, ra, ta, sb, tb);
        let steps = seq![x] + st;
        assert(steps.drop_first() =~= st);
        assert(steps[0] == x);
        assert(is_run(r, i, steps, u));
        lemma_strip_cons(e1.ilabel, run_ilabels(r, j, st));
        lemma_strip_cons(e1.ilabel, run_ilabels(a, e1.nextstate as int, ra));
        lemma_strip_cons(EPS_LABEL, run_olabels(r, j, st));
        (steps, u)
    } else if sb.len() > 0 && b.arc(q2, sb[0]).ilabel == EPS_LABEL {
        let k2 = sb[0];
        let e2 = b.arc(q2, k2);
        assert(has_arc(trip, row, EPS_LABEL, e2.olabel, (t.0, e2.nextstate, true)));
        let x = choose|x: int|
            #![trigger row[x]]
            0 <= x < row.len() && row[x].ilabel == EPS_LABEL && row[x].olabel == e2.olabel && (row[x].nextstate as int) < trip.len()
                && trip[row[x].nextstate as int] == (t.0, e2.nextstate, true);
        assert(r.arc(i, x) == row[x]);
        let j = row[x].nextstate as int;
        let rb = sb.drop_first();
        lemma_strip_cons(EPS_LABEL, run_ilabels(b, e2.nextstate as int, rb));
        let (st, u) = lemma_compose_walk(a, b, r, trip, j, sa, ta, rb, tb);
        let steps = seq![x] + st;
        assert(steps.drop_first() =~= st);
        assert(steps[0] == x);
        assert(is_run(r, i, steps, u));
        lemma_strip_cons(EPS_LABEL, run_ilabels(r, j, st));
        lemma_strip_cons(e2.olabel, run_olabels(r, j, st));
        lemma_strip_cons(e2.olabel, run_olabels(b, e2.nextstate as int, rb));
        (steps, u)
    } else if sa.len() > 0 && sb.len() > 0 {
        let k1 = sa[0];
        let k2 = sb[0];
        let e1 = a.arc(q1, k1);
        let e2 = b.arc(q2, k2);
        assert(e1.olabel != EPS_LABEL);
        assert(e2.ilabel != EPS_LABEL);
        let ra = sa.drop_first();
        let rb = sb.drop_first();
        let na = e1.nextstate as int;
        let nb = e2.nextstate as int;
        lemma_strip_cons(e1.olabel, run_olabels(a, na, ra));
        lemma_strip_cons(e2.ilabel, run_ilabels(b, nb, rb));
        lemma_cons_eq(e1.olabel, e2.ilabel, strip_eps(run_olabels(a, na, ra)), strip_eps(run_ilabels(b, nb, rb)));
        assert(sync_done_at(a, b, trip, t, row, k1, b.deg(q2)));
        assert(has_arc(trip, row, e1.ilabel, e2.olabel, (e1.nextstate, e2.nextstate, false)));
        let x = choose|x: int|
            #![trigger row[x]]
            0 <= x < row.len() && row[x].ilabel == e1.ilabel && row[x].olabel == e2.olabel && (row[x].nextstate as int) < trip.len()
                && trip[row[x].nextstate as int] == (e1.nextstate, e2.nextstate, false);
        assert(r.arc(i, x) == row[x]);
        let j = row[x].nextstate as int;
        let (st, u) = lemma_compose_walk(a, b, r, trip, j, ra, ta, rb, tb);
        let steps = seq![x] + st;
        assert(steps.drop_first() =~= st);
        assert(steps[0] == x);
        assert(is_run(r, i, steps, u));
        lemma_strip_cons(e1.ilabel, run_ilabels(r, j, st));
        lemma_strip_cons(e1.ilabel, run_ilabels(a, na, ra));
        lemma_strip_cons(e2.olabel, run_olabels(r, j, st));
        lemma_strip_cons(e2.olabel, run_olabels(b, nb, rb));
        (steps, u)
    } else {
        let e = Seq::<int>::empty();
        if sa.len() == 0 && sb.len() > 0 {
            let e2 = b.arc(q2, sb[0]);
            lemma_strip_cons(e2.ilabel, run_ilabels(b, e2.nextstate as int, sb.drop_first()));
            assert(run_olabels(a, q1, sa) =~= Seq::<Label>::empty());
            assert(strip_eps(Seq::<Label>::empty()) =~= Seq::<Label>::empty());
            assert(strip_eps(run_ilabels(b, q2, sb)).len() > 0);
        }
        if sa.len() > 0 && sb.len() == 0 {
            let e1 = a.arc(q1, sa[0]);
            lemma_strip_cons(e1.olabel, run_olabels(a, e1.nextstate as int, sa.drop_first()));
            assert(run_ilabels(b, q2, sb) =~= Seq::<Label>::empty());
            assert(strip_eps(Seq::<Label>::empty()) =~= Seq::<Label>::empty());
            assert(strip_eps(run_olabels(a, q1, sa)).len() > 0);
        }
        assert(sa.len() == 0 && sb.len() == 0);
        assert(run_ilabels(r, i, e) =~= run_ilabels(a, q1, sa));
        assert(run_olabels(r, i, e) =~= run_olabels(b, q2, sb));
        (e, i)
    }
}

/// Composition is complete: whenever `a` maps `x` to `y` and `b` maps `y`
/// to `z`, the composition maps `x` to `z`.
pub proof fn lemma_compose_complete(a: Fst, b: Fst, r: Fst, x: Seq<Label>, y: Seq<Label>, z: Seq<Label>)
    requires
        a.wf(),
        b.wf(),
        composes(a, b, r),
        accepts(a, x, y),
        accepts(b, y, z),
    ensures
        accepts(r, x, z),
{
    let trip = choose|trip: Seq<Triple>| compose_witness(a, b, r, trip) && compose_complete(a, b, r, trip);
    let (s1, ta) = choose|steps: Seq<int>, t: int|
        #![trigger is_run(a, a.start->0 as int, steps, t)]
        {
            &&& a.start is Some
            &&& is_run(a, a.start->0 as int, steps, t)
            &&& 0 <= t < a.n()
            &&& a.is_final(t)
            &&& strip_eps(run_ilabels(a, a.start->0 as int, steps)) == x
            &&& strip_eps(run_olabels(a, a.start->0 as int, steps)) == y
        };
    let (s2, tb) = choose|steps: Seq<int>, t: int|
        #![trigger is_run(b, b.start->0 as int, steps, t)]
        {
            &&& b.start is Some
            &&& is_run(b, b.start->0 as int, steps, t)
            &&& 0 <= t < b.n()
            &&& b.is_final(t)
            &&& strip_eps(run_ilabels(b, b.start->0 as int, steps)) == y
            &&& strip_eps(run_olabels(b, b.start->0 as int, steps)) == z
        };
    assert(r.start == Some(0usize));
    assert(trip[0] == (a.start->0, b.start->0, false));
    let (steps, t) = lemma_compose_walk(a, b, r, trip, 0, s1, ta, s2, tb);
    assert(r.finals@[t] == (a.finals@[trip[t].0 as int] && b.finals@[trip[t].1 as int]));
    assert(is_run(r, r.start->0 as int, steps, t));
}

/// The composition maps `x` to `z` exactly when `a` maps `x` to some `y`
/// that `b` maps to `z`.
pub proof fn lemma_compose_language(a: Fst, b: Fst, r: Fst, x: Seq<Label>, z: Seq<Label>)
    requires
        a.wf(),
        b.wf(),
        composes(a, b, r),
    ensures
        accepts(r, x, z) == exists|y: Seq<Label>| accepts(a, x, y) && accepts(b, y, z),
{
    if accepts(r, x, z) {
        lemma_compose_sound(a, b, r, x, z);
    }
    if exists|y: Seq<Label>| accepts(a, x, y) && accepts(b, y, z) {
        let y = choose|y: Seq<Label>| accepts(a, x, y) && accepts(b, y, z);
        lemma_compose_complete(a, b, r, x, y, z);
    }
}

/// An acceptor's runs write what they read.
proof fn lemma_acceptor_run(f: Fst, p: int, steps: Seq<int>, q: int)
    requires
        is_acceptor(f),
        is_run(f, p, steps, q),
    ensures
        run_ilabels(f, p, steps) == run_olabels(f, p, steps),
    decreases steps.len(),
{
    if steps.len() > 0 {
        let e = f.arc(p, steps[0]);
        assert(e.ilabel == e.olabel);
        lemma_acceptor_run(f, e.nextstate as int, steps.drop_first(), q);
    }
}

/// An acceptor maps only pairs of equal sequences.
pub proof fn lemma_acceptor_pairs(f: Fst, x: Seq<Label>, y: Seq<Label>)
    requires
        is_acceptor(f),
        accepts(f, x, y),
    ensures
        x == y,
{
    let (steps, t) = choose|steps: Seq<int>, t: int|
        #![trigger is_run(f, f.start->0 as int, steps, t)]
        {
            &&& f.start is Some
            &&& is_run(f, f.start->0 as int, steps, t)
            &&& 0 <= t < f.n()
            &&& f.is_final(t)
            &&& strip_eps(run_ilabels(f, f.start->0 as int, steps)) == x
            &&& strip_eps(run_olabels(f, f.start->0 as int, steps)) == y
        };
    lemma_acceptor_run(f, f.start->0 as int, steps, t);
}

/// The composition of two acceptors maps `x` to `z` exactly when `x` and
/// `z` are the same sequence and both acceptors accept it: the
/// intersection of their languages.
pub proof fn lemma_intersect_language(a: Fst, b: Fst, r: Fst, x: Seq<Label>, z: Seq<Label>)
    requires
        a.wf(),
        b.wf(),
        is_acceptor(a),
        is_acceptor(b),
        composes(a, b, r),
    ensures
        accepts(r, x, z) == (x == z && accepts(a, x, x) && accepts(b, x, x)),
{
    lemma_compose_language(a, b, r, x, z);
    if accepts(r, x, z) {
        let y = choose|y: Seq<Label>| accepts(a, x, y) && accepts(b, y, z);
        lemma_acceptor_pairs(a, x, y);
        lemma_acceptor_pairs(b, y, z);
    }
}

/// An epsilon path is a run that reads and writes nothing.
proof fn lemma_eps_path_run(f: Fst, p: int, steps: Seq<int>, q: int)
    requires
        eps_path(f, p, steps, q),
    ensures
        is_run(f, p, steps, q),
        strip_eps(run_ilabels(f, p, steps)) == Seq::<Label>::empty(),
        strip_eps(run_olabels(f, p, steps)) == Seq::<Label>::empty(),
    decreases steps.len(),
{
    if steps.len() == 0 {
        assert(run_ilabels(f, p, steps) =~= Seq::<Label>::empty());
        assert(run_olabels(f, p, steps) =~= Seq::<Label>::empty());
        assert(strip_eps(Seq::<Label>::empty()) =~= Seq::<Label>::empty());
    } else {
        let nx = f.arc(p, steps[0]).nextstate as int;
        lemma_eps_path_run(f, nx, steps.drop_first(), q);
        lemma_strip_eps_prepend(run_ilabels(f, nx, steps.drop_first()));
        lemma_strip_eps_prepend(run_olabels(f, nx, steps.drop_first()));
    }
}

/// A run splits at its first arc that does not read and write epsilon:
/// an epsilon path, then (if the run goes on) that arc and the rest.
proof fn lemma_eps_prefix(f: Fst, p: int, steps: Seq<int>, t: int) -> (res: (int, int))
    requires
        f.wf(),
        0 <= p < f.n(),
        is_run(f, p, steps, t),
    ensures
        0 <= res.0 <= steps.len(),
        0 <= res.1 < f.n(),
        eps_path(f, p, steps.take(res.0), res.1),
        res.0 == steps.len() ==> res.1 == t,
        res.0 < steps.len() ==> {
            &&& 0 <= steps[res.0] < f.deg(res.1)
            &&& !is_eps_arc(f.arc(res.1, steps[res.0]))
            &&& is_run(f, f.arc(res.1, steps[res.0]).nextstate as int, steps.skip(res.0 + 1), t)
        },
        run_ilabels(f, p, steps) == run_ilabels(f, p, steps.take(res.0)) + if res.0 < steps.len() {
            seq![f.arc(res.1, steps[res.0]).ilabel] + run_ilabels(f, f.arc(res.1, steps[res.0]).nextstate as int, steps.skip(res.0 + 1))
        } else {
            Seq::<Label>::empty()
        },
        run_olabels(f, p, steps) == run_olabels(f, p, steps.take(res.0)) + if res.0 < steps.len() {
            seq![f.arc(res.1, steps[res.0]).olabel] + run_olabels(f, f.arc(res.1, steps[res.0]).nextstate as int, steps.skip(res.0 + 1))
        } else {
            Seq::<Label>::empty()
        },
    decreases steps.len(),
{
    let e = Seq::<Label>::empty();
    if steps.len() == 0 {
        assert(steps.take(0) =~= Seq::<int>::empty());
        assert(run_ilabels(f, p, steps) =~= e);
        assert(run_olabels(f, p, steps) =~= e);
        assert(run_ilabels(f, p, steps.take(0)) + e =~= e);
        assert(run_olabels(f, p, steps.take(0)) + e =~= e);
        (0, p)
    } else {
        let k = steps[0];
        let a0 = f.arc(p, k);
        let nx = a0.nextstate as int;
        assert(nx < f.n());
        if is_eps_arc(a0) {
            let rest = steps.drop_first();
            let (i, q) = lemma_eps_prefix(f, nx, rest, t);
            assert(steps.take(i + 1).drop_first() =~= rest.take(i));
            assert(steps.take(i + 1)[0] == k);
            assert(eps_path(f, p, steps.take(i + 1), q));
            if i < rest.len() {
                assert(steps.skip(i + 2) =~= rest.skip(i + 1));
                assert(steps[i + 1] == rest[i]);
            }
            assert(run_ilabels(f, p, steps) == seq![a0.ilabel] + run_ilabels(f, nx, rest));
            assert(run_olabels(f, p, steps) == seq![a0.olabel] + run_olabels(f, nx, rest));
            assert(run_ilabels(f, p, steps.take(i + 1)) == seq![a0.ilabel] + run_ilabels(f, nx, rest.take(i)));
            assert(run_olabels(f, p, steps.take(i + 1)) == seq![a0.olabel] + run_olabels(f, nx, rest.take(i)));
            assert(run_ilabels(f, p, steps) =~= run_ilabels(f, p, steps.take(i + 1)) + if i + 1 < steps.len() {
                seq![f.arc(q, steps[i + 1]).ilabel] + run_ilabels(f, f.arc(q, steps[i + 1]).nextstate as int, steps.skip(i + 2))
            } else {
                e
            });
            assert(run_olabels(f, p, steps) =~= run_olabels(f, p, steps.take(i + 1)) + if i + 1 < steps.len() {
                seq![f.arc(q, steps[i + 1]).olabel] + run_olabels(f, f.arc(q, steps[i + 1]).nextstate as int, steps.skip(i + 2))
            } else {
                e
            });
            (i + 1, q)
        } else {
            assert(steps.take(0) =~= Seq::<int>::empty());
            assert(steps.skip(1) =~= steps.drop_first());
            assert(run_ilabels(f, p, steps.take(0)) =~= e);
            assert(run_olabels(f, p, steps.take(0)) =~= e);
            assert(run_ilabels(f, p, steps) =~= run_ilabels(f, p, steps.take(0)) + (seq![a0.ilabel] + run_ilabels(f, nx, steps.skip(1))));
            assert(run_olabels(f, p, steps) =~= run_olabels(f, p, steps.take(0)) + (seq![a0.olabel] + run_olabels(f, nx, steps.skip(1))));
            (0, p)
        }
    }
}

/// Each accepting run of the epsilon-free machine from `p` stands for an
/// accepting run of `a` from `p` with the same labels, epsilons removed.
proof fn lemma_eps_removed_back(a: Fst, r: Fst, p: int, steps: Seq<int>, t: int) -> (res: (Seq<int>, int))
    requires
        a.wf(),
        eps_removes(r, a),
        0 <= p < a.n(),
        is_run(r, p, steps, t),
        0 <= t < r.n(),
        r.finals@[t],
    ensures
        is_run(a, p, res.0, res.1),
        0 <= res.1 < a.n(),
        a.finals@[res.1],
        strip_eps(run_ilabels(a, p, res.0)) == strip_eps(run_ilabels(r, p, steps)),
        strip_eps(run_olabels(a, p, res.0)) == strip_eps(run_olabels(r, p, steps)),
    decreases steps.len(),
{
    let e = Seq::<Label>::empty();
    if steps.len() == 0 {
        assert(efinal(a, t, r.finals@[t]));
        let q = choose|q: int| 0 <= q < a.n() && #[trigger] eps_reach(a, t, q) && a.finals@[q];
        let es = choose|es: Seq<int>| #[trigger] eps_path(a, t, es, q);
        lemma_eps_path_run(a, t, es, q);
        assert(run_ilabels(r, p, steps) =~= e);
        assert(run_olabels(r, p, steps) =~= e);
        assert(strip_eps(e) =~= e);
        (es, q)
    } else {
        let x = steps[0];
        let row = r.rows()[p];
        assert(erow_sound(a, p, row));
        assert(r.arc(p, x) == row[x]);
        let (q, k) = choose|q: int, k: int|
            #![trigger a.arc(q, k)]
            0 <= q < a.n() && eps_reach(a, p, q) && 0 <= k < a.deg(q) && #[trigger] row[x] == a.arc(q, k);
        let es = choose|es: Seq<int>| #[trigger] eps_path(a, p, es, q);
        lemma_eps_path_run(a, p, es, q);
        let arc = a.arc(q, k);
        let nx = arc.nextstate as int;
        assert(nx < a.n());
        let (rest, u) = lemma_eps_removed_back(a, r, nx, steps.drop_first(), t);
        let tail = seq![k] + rest;
        assert(tail.drop_first() =~= rest);
        assert(tail[0] == k);
        assert(is_run(a, q, tail, u));
        lemma_run_concat(a, p, es, q, tail, u);
        lemma_strip_eps_concat(run_ilabels(a, p, es), run_ilabels(a, q, tail));
        lemma_strip_eps_concat(run_olabels(a, p, es), run_olabels(a, q, tail));
        assert(e + strip_eps(run_ilabels(a, q, tail)) =~= strip_eps(run_ilabels(a, q, tail)));
        assert(e + strip_eps(run_olabels(a, q, tail)) =~= strip_eps(run_olabels(a, q, tail)));
        lemma_strip_cons(arc.ilabel, run_ilabels(a, nx, rest));
        lemma_strip_cons(arc.olabel, run_olabels(a, nx, rest));
        lemma_strip_cons(arc.ilabel, run_ilabels(r, nx, steps.drop_first()));
        lemma_strip_cons(arc.olabel, run_olabels(r, nx, steps.drop_first()));
        (es + tail, u)
    }
}

/// Each accepting run of `a` from `p` stands for an accepting run of the
/// epsilon-free machine from `p` with the same labels, epsilons removed.
proof fn lemma_eps_removed_fwd(a: Fst, r: Fst, p: int, steps: Seq<int>, t: int) -> (res: (Seq<int>, int))
    requires
        a.wf(),
        eps_removes(r, a),
        0 <= p < a.n(),
        is_run(a, p, steps, t),
        0 <= t < a.n(),
        a.finals@[t],
    ensures
        is_run(r, p, res.0, res.1),
        0 <= res.1 < r.n(),
        r.finals@[res.1],
        strip_eps(run_ilabels(r, p, res.0)) == strip_eps(run_ilabels(a, p, steps)),
        strip_eps(run_olabels(r, p, res.0)) == strip_eps(run_olabels(a, p, steps)),
    decreases steps.len(),
{
    let e = Seq::<Label>::empty();
    let (i, q) = lemma_eps_prefix(a, p, steps, t);
    lemma_eps_path_run(a, p, steps.take(i), q);
    let ei = run_ilabels(a, p, steps.take(i));
    let eo = run_olabels(a, p, steps.take(i));
    if i == steps.len() {
        assert(efinal(a, p, r.finals@[p]));
        assert(eps_reach(a, p, t));
        let st = Seq::<int>::empty();
        assert(run_ilabels(r, p, st) =~= e);
        assert(run_olabels(r, p, st) =~= e);
        assert(run_ilabels(a, p, steps) =~= ei + e);
        assert(run_olabels(a, p, steps) =~= eo + e);
        lemma_strip_eps_concat(ei, e);
        lemma_strip_eps_concat(eo, e);
        assert(strip_eps(e) =~= e);
        (st, p)
    } else {
        let k = steps[i];
        let arc = a.arc(q, k);
        let nx = arc.nextstate as int;
        let row = r.rows()[p];
        assert(erow_complete(a, p, row));
        assert(eps_reach(a, p, q));
        assert(listed(row, arc));
        let x = choose|x: int| 0 <= x < row.len() && #[trigger] row[x] == arc;
        assert(r.arc(p, x) == row[x]);
        assert(nx < a.n());
        let rest_a = steps.skip(i + 1);
        let (rest, u) = lemma_eps_removed_fwd(a, r, nx, rest_a, t);
        let st = seq![x] + rest;
        assert(st.drop_first() =~= rest);
        assert(st[0] == x);
        assert(is_run(r, p, st, u));
        lemma_strip_eps_concat(ei, seq![arc.ilabel] + run_ilabels(a, nx, rest_a));
        lemma_strip_eps_concat(eo, seq![arc.olabel] + run_olabels(a, nx, rest_a));
        assert(e + strip_eps(seq![arc.ilabel] + run_ilabels(a, nx, rest_a)) =~= strip_eps(seq![arc.ilabel] + run_ilabels(a, nx, rest_a)));
        assert(e + strip_eps(seq![arc.olabel] + run_olabels(a, nx, rest_a)) =~= strip_eps(seq![arc.olabel] + run_olabels(a, nx, rest_a)));
        lemma_strip_cons(arc.ilabel, run_ilabels(a, nx, rest_a));
        lemma_strip_cons(arc.olabel, run_olabels(a, nx, rest_a));
        lemma_strip_cons(arc.ilabel, run_ilabels(r, nx, rest));
        lemma_strip_cons(arc.olabel, run_olabels(r, nx, rest));
        (st, u)
    }
}

/// Removing epsilon arcs keeps the language: the epsilon-free machine maps
/// exactly what `a` maps.
pub proof fn lemma_eps_remove_language(a: Fst, r: Fst, x: Seq<Label>, y: Seq<Label>)
    requires
        a.wf(),
        eps_removes(r, a),
    ensures
        accepts(r, x, y) == accepts(a, x, y),
{
    if accepts(r, x, y) {
        let (steps, t) = choose|steps: Seq<int>, t: int|
            #![trigger is_run(r, r.start->0 as int, steps, t)]
            {
                &&& r.start is Some
                &&& is_run(r, r.start->0 as int, steps, t)
                &&& 0 <= t < r.n()
                &&& r.is_final(t)
                &&& strip_eps(run_ilabels(r, r.start->0 as int, steps)) == x
                &&& strip_eps(run_olabels(r, r.start->0 as int, steps)) == y
            };
        let sa = a.start->0 as int;
        let (st, u) = lemma_eps_removed_back(a, r, sa, steps, t);
        assert(is_run(a, a.start->0 as int, st, u));
    }
    if accepts(a, x, y) {
        let (steps, t) = choose|steps: Seq<int>, t: int|
            #![trigger is_run(a, a.start->0 as int, steps, t)]
            {
                &&& a.start is Some
                &&& is_run(a, a.start->0 as int, steps, t)
                &&& 0 <= t < a.n()
                &&& a.is_final(t)
                &&& strip_eps(run_ilabels(a, a.start->0 as int, steps)) == x
                &&& strip_eps(run_olabels(a, a.start->0 as int, steps)) == y
            };
        let sa = a.start->0 as int;
        let (st, u) = lemma_eps_removed_fwd(a, r, sa, steps, t);
        assert(is_run(r, r.start->0 as int, st, u));
    }
}

/// Each state that the subset reached by a run of the subset construction
/// stands for is reached in `a` by a run with the same labels.
proof fn lemma_det_back(a: Fst, r: Fst, sets: Seq<Seq<usize>>, steps: Seq<int>, j: int, q: int) -> (res: Seq<int>)
    requires
        a.wf(),
        dets(r, a, sets),
        is_run(r, 0, steps, j),
        0 <= q < a.n(),
        sets[j].contains(q as usize),
    ensures
        is_run(a, a.start->0 as int, res, q),
        run_ilabels(a, a.start->0 as int, res) == run_ilabels(r, 0, steps),
        run_olabels(a, a.start->0 as int, res) == run_olabels(r, 0, steps),
    decreases steps.len(),
{
    let sa = a.start->0 as int;
    if steps.len() == 0 {
        assert(j == 0);
        assert(sets[0] == seq![a.start->0]);
        let k = choose|k: int| 0 <= k < sets[0].len() && sets[0][k] == q as usize;
        assert(q == sa);
        let e = Seq::<int>::empty();
        assert(run_ilabels(a, sa, e) =~= run_ilabels(r, 0, steps));
        assert(run_olabels(a, sa, e) =~= run_olabels(r, 0, steps));
        e
    } else {
        let m = lemma_run_prefix(r, 0, steps, j);
        let k = steps.last();
        let e = r.arc(m, k);
        assert(e == r.rows()[m][k]);
        assert(det_row_sound(a, sets, sets[m], r.rows()[m]));
        assert(det_arc_ok(a, sets, sets[m], r.rows()[m][k]));
        assert(det_targets(a, sets[m], e.ilabel, e.olabel, q));
        let (jj, kk) = choose|jj: int, kk: int|
            #![trigger a.arc(sets[m][jj] as int, kk)]
            0 <= jj < sets[m].len() && 0 <= kk < a.deg(sets[m][jj] as int) && a.arc(sets[m][jj] as int, kk).ilabel == e.ilabel
                && a.arc(sets[m][jj] as int, kk).olabel == e.olabel && a.arc(sets[m][jj] as int, kk).nextstate == q;
        let p = sets[m][jj] as int;
        assert(p < a.n());
        assert(sets[m].contains(sets[m][jj]));
        assert((p as usize) == sets[m][jj]);
        let before = lemma_det_back(a, r, sets, steps.drop_last(), m, p);
        lemma_run_append(a, sa, before, p, kk);
        lemma_run_append(r, 0, steps.drop_last(), m, k);
        assert(steps.drop_last().push(k) =~= steps);
        before.push(kk)
    }
}

/// Each run of `a` from its start is matched by a run of the subset
/// construction with the same labels, reaching a subset that holds the
/// run's end.
proof fn lemma_det_fwd(a: Fst, r: Fst, sets: Seq<Seq<usize>>, steps: Seq<int>, q: int) -> (res: (Seq<int>, int))
    requires
        a.wf(),
        dets(r, a, sets),
        is_run(a, a.start->0 as int, steps, q),
    ensures
        is_run(r, 0, res.0, res.1),
        0 <= res.1 < r.n(),
        0 <= q < a.n(),
        sets[res.1].contains(q as usize),
        run_ilabels(r, 0, res.0) == run_ilabels(a, a.start->0 as int, steps),
        run_olabels(r, 0, res.0) == run_olabels(a, a.start->0 as int, steps),
    decreases steps.len(),
{
    let sa = a.start->0 as int;
    if steps.len() == 0 {
        assert(q == sa);
        assert(sets[0] == seq![a.start->0]);
        assert(sets[0][0] == q as usize);
        let e = Seq::<int>::empty();
        assert(run_ilabels(r, 0, e) =~= run_ilabels(a, sa, steps));
        assert(run_olabels(r, 0, e) =~= run_olabels(a, sa, steps));
        (e, 0)
    } else {
        let p = lemma_run_prefix(a, sa, steps, q);
        let kk = steps.last();
        let (before, m) = lemma_det_fwd(a, r, sets, steps.drop_last(), p);
        let jj = choose|jj: int| 0 <= jj < sets[m].len() && sets[m][jj] == p as usize;
        assert(sets[m][jj] as int == p);
        let arc = a.arc(p, kk);
        assert(det_row_complete(a, sets[m], r.rows()[m]));
        assert(arc == a.arc(sets[m][jj] as int, kk));
        assert(has_pair(r.rows()[m], arc.ilabel, arc.olabel));
        let row = r.rows()[m];
        let x = choose|x: int| #![trigger row[x]] 0 <= x < row.len() && row[x].ilabel == arc.ilabel && row[x].olabel == arc.olabel;
        let e = r.arc(m, x);
        assert(e == row[x]);
        assert(det_row_sound(a, sets, sets[m], row));
        assert(det_arc_ok(a, sets, sets[m], row[x]));
        assert(arc.nextstate < a.n());
        assert(det_targets(a, sets[m], e.ilabel, e.olabel, q));
        lemma_run_append(r, 0, before, m, x);
        lemma_run_append(a, sa, steps.drop_last(), p, kk);
        assert(steps.drop_last().push(kk) =~= steps);
        (before.push(x), e.nextstate as int)
    }
}

/// Determinising keeps the language: the result maps exactly what `a`
/// maps.
pub proof fn lemma_determinize_language(a: Fst, r: Fst, x: Seq<Label>, y: Seq<Label>)
    requires
        a.wf(),
        determinizes(r, a),
    ensures
        accepts(r, x, y) == accepts(a, x, y),
{
    if a.start is Some {
        let sets = choose|sets: Seq<Seq<usize>>| dets(r, a, sets);
        let sa = a.start->0 as int;
        if accepts(r, x, y) {
            let (steps, t) = choose|steps: Seq<int>, t: int|
                #![trigger is_run(r, r.start->0 as int, steps, t)]
                {
                    &&& r.start is Some
                    &&& is_run(r, r.start->0 as int, steps, t)
                    &&& 0 <= t < r.n()
                    &&& r.is_final(t)
                    &&& strip_eps(run_ilabels(r, r.start->0 as int, steps)) == x
                    &&& strip_eps(run_olabels(r, r.start->0 as int, steps)) == y
                };
            assert(set_final(a, sets[t]));
            let jj = choose|jj: int| 0 <= jj < sets[t].len() && #[trigger] a.finals@[sets[t][jj] as int];
            let q = sets[t][jj] as int;
            assert(q < a.n());
            assert(sets[t].contains(q as usize));
            let st = lemma_det_back(a, r, sets, steps, t, q);
            assert(is_run(a, a.start->0 as int, st, q));
        }
        if accepts(a, x, y) {
            let (steps, t) = choose|steps: Seq<int>, t: int|
                #![trigger is_run(a, a.start->0 as int, steps, t)]
                {
                    &&& a.start is Some
                    &&& is_run(a, a.start->0 as int, steps, t)
                    &&& 0 <= t < a.n()
                    &&& a.is_final(t)
                    &&& strip_eps(run_ilabels(a, a.start->0 as int, steps)) == x
                    &&& strip_eps(run_olabels(a, a.start->0 as int, steps)) == y
                };
            let (st, j) = lemma_det_fwd(a, r, sets, steps, t);
            let jj = choose|jj: int| 0 <= jj < sets[j].len() && sets[j][jj] == t as usize;
            assert(sets[j][jj] as int == t);
            assert(a.finals@[sets[j][jj] as int]);
            assert(set_final(a, sets[j]));
            assert(r.finals@[j]);
            assert(is_run(r, r.start->0 as int, st, j));
        }
    }
}

/// A sequence without epsilons is its own epsilon-free form.
proof fn lemma_strip_none(s: Seq<Label>)
    requires
        forall|i: int| 0 <= i < s.len() ==> #[trigger] s[i] != EPS_LABEL,
    ensures
        strip_eps(s) == s,
    decreases s.len(),
{
    if s.len() > 0 {
        lemma_strip_none(s.drop_last());
        assert(s.drop_last().push(s.last()) =~= s);
    }
}

/// Every arc of `f` reads and writes the same label of `alph`, and no two
/// arcs leaving a state read the same label.
pub open spec fn det_acceptor_over(f: Fst, alph: Seq<Label>) -> bool {
    &&& is_acceptor(f)
    &&& arcs_over(f, alph)
    &&& forall|s: int, x: int, z: int|
        0 <= s < f.n() && 0 <= x < z < f.deg(s) ==> (#[trigger] f.arc(s, x)).ilabel != (#[trigger] f.arc(s, z)).ilabel
}

/// The labels read along a run of an acceptor over `alph` are a word of
/// `alph` and equal the labels written.
proof fn lemma_run_over(f: Fst, alph: Seq<Label>, p: int, steps: Seq<int>, q: int)
    requires
        is_acceptor(f),
        arcs_over(f, alph),
        !alph.contains(EPS_LABEL),
        is_run(f, p, steps, q),
    ensures
        word_over(run_ilabels(f, p, steps), alph),
        run_olabels(f, p, steps) == run_ilabels(f, p, steps),
        strip_eps(run_ilabels(f, p, steps)) == run_ilabels(f, p, steps),
    decreases steps.len(),
{
    lemma_acceptor_run(f, p, steps, q);
    let w = run_ilabels(f, p, steps);
    if steps.len() > 0 {
        let e = f.arc(p, steps[0]);
        let nx = e.nextstate as int;
        lemma_run_over(f, alph, nx, steps.drop_first(), q);
        assert(alph.contains(e.ilabel));
        assert forall|i: int| 0 <= i < w.len() implies alph.contains(#[trigger] w[i]) by {
            if i > 0 {
                assert(w[i] == run_ilabels(f, nx, steps.drop_first())[i - 1]);
            }
        }
    }
    assert forall|i: int| 0 <= i < w.len() implies #[trigger] w[i] != EPS_LABEL by {
        assert(alph.contains(w[i]));
    }
    lemma_strip_none(w);
}

/// From every state, a complete deterministic acceptor reads every word
/// of its alphabet.
proof fn lemma_complete_run(c: Fst, alph: Seq<Label>, p: int, w: Seq<Label>) -> (res: (Seq<int>, int))
    requires
        c.wf(),
        0 <= p < c.n(),
        forall|s: int, y: int| 0 <= s < c.n() && 0 <= y < alph.len() ==> has_ilabel(#[trigger] c.rows()[s], #[trigger] alph[y]),
        word_over(w, alph),
    ensures
        is_run(c, p, res.0, res.1),
        0 <= res.1 < c.n(),
        run_ilabels(c, p, res.0) == w,
    decreases w.len(),
{
    if w.len() == 0 {
        let e = Seq::<int>::empty();
        assert(run_ilabels(c, p, e) =~= w);
        (e, p)
    } else {
        let l = w[0];
        assert(alph.contains(l));
        let y = choose|y: int| 0 <= y < alph.len() && alph[y] == l;
        let row = c.rows()[p];
        assert(has_ilabel(row, alph[y]));
        let x = choose|x: int| #![trigger row[x]] 0 <= x < row.len() && row[x].ilabel == l;
        assert(c.arc(p, x) == row[x]);
        let nx = c.arc(p, x).nextstate as int;
        let rest = w.drop_first();
        assert forall|i: int| 0 <= i < rest.len() implies alph.contains(#[trigger] rest[i]) by {
            assert(rest[i] == w[i + 1]);
        }
        let (st, q) = lemma_complete_run(c, alph, nx, rest);
        let steps = seq![x] + st;
        assert(steps.drop_first() =~= st);
        assert(steps[0] == x);
        assert(run_ilabels(c, p, steps) =~= w);
        (steps, q)
    }
}

/// In a deterministic acceptor, two runs from one state that read the same
/// labels end in the same state.
proof fn lemma_det_unique(c: Fst, alph: Seq<Label>, p: int, s1: Seq<int>, q1: int, s2: Seq<int>, q2: int)
    requires
        det_acceptor_over(c, alph),
        is_run(c, p, s1, q1),
        is_run(c, p, s2, q2),
        run_ilabels(c, p, s1) == run_ilabels(c, p, s2),
    ensures
        q1 == q2,
    decreases s1.len(),
{
    if s1.len() == 0 {
        if s2.len() > 0 {
            assert(run_ilabels(c, p, s2).len() > 0);
        }
    } else {
        if s2.len() == 0 {
            assert(run_ilabels(c, p, s1).len() > 0);
        }
        let x = s1[0];
        let z = s2[0];
        assert(run_ilabels(c, p, s1)[0] == c.arc(p, x).ilabel);
        assert(run_ilabels(c, p, s2)[0] == c.arc(p, z).ilabel);
        if x < z {
            assert(c.arc(p, x).ilabel != c.arc(p, z).ilabel);
        } else if z < x {
            assert(c.arc(p, z).ilabel != c.arc(p, x).ilabel);
        }
        assert(x == z);
        let nx = c.arc(p, x).nextstate as int;
        assert(run_ilabels(c, nx, s1.drop_first()) =~= run_ilabels(c, p, s1).drop_first());
        assert(run_ilabels(c, nx, s2.drop_first()) =~= run_ilabels(c, p, s2).drop_first());
        lemma_det_unique(c, alph, nx, s1.drop_first(), q1, s2.drop_first(), q2);
    }
}

/// The completion's arcs: those of `d`, and arcs into the sink.
proof fn lemma_completed_arc(c: Fst, d: Fst, alph: Seq<Label>, s: int, x: int)
    requires
        d.wf(),
        completes(c, d, alph),
        0 <= s < c.n(),
        0 <= x < c.deg(s),
    ensures
        s < d.n() && x < d.deg(s) ==> c.arc(s, x) == d.arc(s, x),
        (s == d.n() || x >= d.deg(s)) ==> c.arc(s, x).nextstate == d.n() && c.arc(s, x).ilabel == c.arc(s, x).olabel
            && alph.contains(c.arc(s, x).ilabel),
{
    assert(c.arc(s, x) == c.rows()[s][x]);
    if s < d.n() {
        assert(completed_row(c.rows()[s], d.rows()[s], alph, d.n(), alph.len() as int));
    }
}

/// Runs from the sink of a completion stay in the sink.
proof fn lemma_sink_stays(c: Fst, d: Fst, alph: Seq<Label>, steps: Seq<int>, q: int)
    requires
        d.wf(),
        completes(c, d, alph),
        is_run(c, d.n(), steps, q),
    ensures
        q == d.n(),
    decreases steps.len(),
{
    if steps.len() > 0 {
        lemma_completed_arc(c, d, alph, d.n(), steps[0]);
        lemma_sink_stays(c, d, alph, steps.drop_first(), q);
    }
}

/// A run of the completion between states of `d` is a run of `d`.
proof fn lemma_completion_to_d(c: Fst, d: Fst, alph: Seq<Label>, p: int, steps: Seq<int>, q: int)
    requires
        d.wf(),
        completes(c, d, alph),
        0 <= p < d.n(),
        0 <= q < d.n(),
        is_run(c, p, steps, q),
    ensures
        is_run(d, p, steps, q),
        run_ilabels(d, p, steps) == run_ilabels(c, p, steps),
        run_olabels(d, p, steps) == run_olabels(c, p, steps),
    decreases steps.len(),
{
    if steps.len() > 0 {
        let x = steps[0];
        lemma_completed_arc(c, d, alph, p, x);
        let nx = c.arc(p, x).nextstate as int;
        if x >= d.deg(p) {
            lemma_sink_stays(c, d, alph, steps.drop_first(), q);
        }
        assert(x < d.deg(p));
        assert(d.arc(p, x).nextstate < d.n());
        lemma_completion_to_d(c, d, alph, nx, steps.drop_first(), q);
    }
}

/// The completion of a deterministic acceptor over `alph` is one too, and
/// its arc lists extend those of `d`.
proof fn lemma_completion_det(c: Fst, d: Fst, alph: Seq<Label>)
    requires
        d.wf(),
        det_acceptor_over(d, alph),
        completes(c, d, alph),
    ensures
        det_acceptor_over(c, alph),
        rows_extend(c, d),
        forall|s: int, y: int| 0 <= s < c.n() && 0 <= y < alph.len() ==> has_ilabel(#[trigger] c.rows()[s], #[trigger] alph[y]),
{
    assert forall|s: int, k: int| 0 <= s < c.n() && 0 <= k < c.deg(s) implies #[trigger] c.arc(s, k).ilabel == c.arc(s, k).olabel by {
        lemma_completed_arc(c, d, alph, s, k);
    }
    assert forall|s: int, k: int|
        #![trigger c.arc(s, k)]
        0 <= s < c.n() && 0 <= k < c.deg(s) implies alph.contains(c.arc(s, k).ilabel) && alph.contains(c.arc(s, k).olabel) by {
        lemma_completed_arc(c, d, alph, s, k);
    }
    assert forall|s: int, x: int, z: int|
        0 <= s < c.n() && 0 <= x < z < c.deg(s) implies (#[trigger] c.arc(s, x)).ilabel != (#[trigger] c.arc(s, z)).ilabel by {
        assert(c.arc(s, x) == c.rows()[s][x]);
        assert(c.arc(s, z) == c.rows()[s][z]);
        if s < d.n() {
            assert(completed_row(c.rows()[s], d.rows()[s], alph, d.n(), alph.len() as int));
            if z < d.deg(s) {
                assert(c.rows()[s][x] == d.rows()[s][x]);
                assert(c.rows()[s][z] == d.rows()[s][z]);
                assert(d.arc(s, x) == d.rows()[s][x]);
                assert(d.arc(s, z) == d.rows()[s][z]);
            }
        }
    }
    assert forall|s: int, k: int| 0 <= s < d.n() && 0 <= k < d.deg(s) implies k < c.deg(s) && #[trigger] c.arc(s, k) == d.arc(s, k) by {
        assert(completed_row(c.rows()[s], d.rows()[s], alph, d.n(), alph.len() as int));
        lemma_completed_arc(c, d, alph, s, k);
    }
    assert forall|s: int, y: int| 0 <= s < c.n() && 0 <= y < alph.len() implies has_ilabel(#[trigger] c.rows()[s], #[trigger] alph[y]) by {
        if s < d.n() {
            assert(completed_row(c.rows()[s], d.rows()[s], alph, d.n(), alph.len() as int));
        }
    }
}

/// The completion with final states swapped accepts a word of `alph`
/// exactly when `d` does not, and accepts nothing but words of `alph`.
proof fn lemma_completion_language(c: Fst, d: Fst, alph: Seq<Label>, w: Seq<Label>)
    requires
        d.wf(),
        det_acceptor_over(d, alph),
        !alph.contains(EPS_LABEL),
        completes(c, d, alph),
        word_over(w, alph),
    ensures
        accepts(c, w, w) == !accepts(d, w, w),
{
    lemma_completion_det(c, d, alph);
    let cs = c.start->0 as int;
    assert(0 <= cs < c.n());
    let (steps, cq) = lemma_complete_run(c, alph, cs, w);
    lemma_run_over(c, alph, cs, steps, cq);
    if accepts(c, w, w) {
        let (s2, q2) = choose|st: Seq<int>, t: int|
            #![trigger is_run(c, c.start->0 as int, st, t)]
            {
                &&& c.start is Some
                &&& is_run(c, c.start->0 as int, st, t)
                &&& 0 <= t < c.n()
                &&& c.is_final(t)
                &&& strip_eps(run_ilabels(c, c.start->0 as int, st)) == w
                &&& strip_eps(run_olabels(c, c.start->0 as int, st)) == w
            };
        lemma_run_over(c, alph, cs, s2, q2);
        lemma_det_unique(c, alph, cs, steps, cq, s2, q2);
        assert(c.finals@[cq]);
    }
    if d.start is None {
        assert(cs == d.n());
        lemma_sink_stays(c, d, alph, steps, cq);
        assert(c.finals@[cq]);
        assert(is_run(c, c.start->0 as int, steps, cq));
        assert(accepts(c, w, w));
    } else {
        let sd = d.start->0 as int;
        assert(cs == sd);
        if accepts(d, w, w) {
            let (ds, dq) = choose|st: Seq<int>, t: int|
                #![trigger is_run(d, d.start->0 as int, st, t)]
                {
                    &&& d.start is Some
                    &&& is_run(d, d.start->0 as int, st, t)
                    &&& 0 <= t < d.n()
                    &&& d.is_final(t)
                    &&& strip_eps(run_ilabels(d, d.start->0 as int, st)) == w
                    &&& strip_eps(run_olabels(d, d.start->0 as int, st)) == w
                };
            lemma_run_over(d, alph, sd, ds, dq);
            lemma_prefix_run(d, c, sd, ds, dq);
            lemma_det_unique(c, alph, cs, steps, cq, ds, dq);
            assert(c.finals@[dq] == !d.finals@[dq]);
            assert(!accepts(c, w, w));
        } else {
            if cq == d.n() {
                assert(c.finals@[cq]);
                assert(is_run(c, c.start->0 as int, steps, cq));
                assert(accepts(c, w, w));
            } else {
                lemma_completion_to_d(c, d, alph, sd, steps, cq);
                lemma_run_over(d, alph, sd, steps, cq);
                assert(c.finals@[cq] == !d.finals@[cq]);
                if !c.finals@[cq] {
                    assert(is_run(d, d.start->0 as int, steps, cq));
                    assert(accepts(d, w, w));
                }
                assert(is_run(c, c.start->0 as int, steps, cq));
                assert(accepts(c, w, w));
            }
        }
    }
}

/// The complement construction's result: over an acceptor `a` whose arcs
/// read labels of `alph` (an alphabet without the epsilon label), it
/// accepts a word of `alph` exactly when `a` does not, and accepts nothing
/// but words of `alph`.
pub proof fn lemma_complement_language(a: Fst, e: Fst, d: Fst, c: Fst, alph: Seq<Label>)
    requires
        a.wf(),
        is_acceptor(a),
        arcs_over(a, alph),
        !alph.contains(EPS_LABEL),
        eps_removes(e, a),
        d.wf(),
        determinizes(d, e),
        e.start is None ==> d.n() == 0,
        completes(c, d, alph),
    ensures
        forall|w: Seq<Label>| word_over(w, alph) ==> (#[trigger] accepts(c, w, w) <==> !accepts(a, w, w)),
        forall|x: Seq<Label>, y: Seq<Label>| #[trigger] accepts(c, x, y) ==> x == y && word_over(x, alph),
{
    assert(e.wf());
    assert forall|p: int, x: int| 0 <= p < e.n() && 0 <= x < e.deg(p) implies (#[trigger] e.arc(p, x)).ilabel == e.arc(p, x).olabel
        && alph.contains(e.arc(p, x).ilabel) && alph.contains(e.arc(p, x).olabel) by {
        let row = e.rows()[p];
        assert(erow_sound(a, p, row));
        assert(e.arc(p, x) == row[x]);
        let (q, k) = choose|q: int, k: int|
            #![trigger a.arc(q, k)]
            0 <= q < a.n() && eps_reach(a, p, q) && 0 <= k < a.deg(q) && #[trigger] row[x] == a.arc(q, k);
        assert(a.arc(q, k).ilabel == a.arc(q, k).olabel);
    }
    assert(is_acceptor(e));
    assert(arcs_over(e, alph));
    assert(det_acceptor_over(d, alph)) by {
        if e.start is Some {
            let sets = choose|sets: Seq<Seq<usize>>| dets(d, e, sets);
            assert forall|s: int, k: int| 0 <= s < d.n() && 0 <= k < d.deg(s) implies (#[trigger] d.arc(s, k)).ilabel == d.arc(s, k).olabel
                && alph.contains(d.arc(s, k).ilabel) && alph.contains(d.arc(s, k).olabel) by {
                let row = d.rows()[s];
                assert(d.arc(s, k) == row[k]);
                assert(det_row_labels(e, sets[s], row));
                assert(pair_on(e, sets[s], (row[k].ilabel, row[k].olabel)));
                let (jj, kk) = choose|jj: int, kk: int|
                    #![trigger e.arc(sets[s][jj] as int, kk)]
                    0 <= jj < sets[s].len() && 0 <= kk < e.deg(sets[s][jj] as int) && e.arc(sets[s][jj] as int, kk).ilabel == row[k].ilabel
                        && e.arc(sets[s][jj] as int, kk).olabel == row[k].olabel;
                assert((sets[s][jj] as int) < e.n());
            }
            assert forall|s: int, x: int, z: int|
                0 <= s < d.n() && 0 <= x < z < d.deg(s) implies (#[trigger] d.arc(s, x)).ilabel != (#[trigger] d.arc(s, z)).ilabel by {
                let row = d.rows()[s];
                assert(d.arc(s, x) == row[x]);
                assert(d.arc(s, z) == row[z]);
                assert(det_row_distinct(row));
            }
        }
    }
    assert forall|w: Seq<Label>| word_over(w, alph) implies (#[trigger] accepts(c, w, w) <==> !accepts(a, w, w)) by {
        lemma_completion_language(c, d, alph, w);
        lemma_determinize_language(e, d, w, w);
        lemma_eps_remove_language(a, e, w, w);
    }
    assert forall|x: Seq<Label>, y: Seq<Label>| #[trigger] accepts(c, x, y) implies x == y && word_over(x, alph) by {
        lemma_completion_det(c, d, alph);
        let (st, t) = choose|st: Seq<int>, t: int|
            #![trigger is_run(c, c.start->0 as int, st, t)]
            {
                &&& c.start is Some
                &&& is_run(c, c.start->0 as int, st, t)
                &&& 0 <= t < c.n()
                &&& c.is_final(t)
                &&& strip_eps(run_ilabels(c, c.start->0 as int, st)) == x
                &&& strip_eps(run_olabels(c, c.start->0 as int, st)) == y
            };
        lemma_run_over(c, alph, c.start->0 as int, st, t);
    }
}

/// Runs depend only on the arcs.
proof fn lemma_same_rows_run(f: Fst, g: Fst, from: int, steps: Seq<int>, to: int)
    requires
        f.rows() == g.rows(),
    ensures
        is_run(f, from, steps, to) == is_run(g, from, steps, to),
        run_ilabels(f, from, steps) == run_ilabels(g, from, steps),
        run_olabels(f, from, steps) == run_olabels(g, from, steps),
    decreases steps.len(),
{
    assert(f.n() == g.n()) by {
        assert(f.rows().len() == f.arcs@.len());
        assert(g.rows().len() == g.arcs@.len());
    }
    if steps.len() > 0 {
        let nx = f.arc(from, steps[0]).nextstate as int;
        lemma_same_rows_run(f, g, nx, steps.drop_first(), to);
    }
}

/// Machines with the same start state, final flags and arcs accept the
/// same pairs.
pub proof fn lemma_same_shape_accepts(f: Fst, g: Fst, x: Seq<Label>, y: Seq<Label>)
    requires
        f.start == g.start,
        f.finals@ == g.finals@,
        f.rows() == g.rows(),
    ensures
        accepts(f, x, y) == accepts(g, x, y),
{
    assert(f.n() == g.n()) by {
        assert(f.rows().len() == f.arcs@.len());
        assert(g.rows().len() == g.arcs@.len());
    }
    if accepts(f, x, y) {
        let (steps, t) = choose|steps: Seq<int>, t: int|
            #![trigger is_run(f, f.start->0 as int, steps, t)]
            {
                &&& f.start is Some
                &&& is_run(f, f.start->0 as int, steps, t)
                &&& 0 <= t < f.n()
                &&& f.is_final(t)
                &&& strip_eps(run_ilabels(f, f.start->0 as int, steps)) == x
                &&& strip_eps(run_olabels(f, f.start->0 as int, steps)) == y
            };
        lemma_same_rows_run(f, g, f.start->0 as int, steps, t);
        assert(is_run(g, g.start->0 as int, steps, t));
    }
    if accepts(g, x, y) {
        let (steps, t) = choose|steps: Seq<int>, t: int|
            #![trigger is_run(g, g.start->0 as int, steps, t)]
            {
                &&& g.start is Some
                &&& is_run(g, g.start->0 as int, steps, t)
                &&& 0 <= t < g.n()
                &&& g.is_final(t)
                &&& strip_eps(run_ilabels(g, g.start->0 as int, steps)) == x
                &&& strip_eps(run_olabels(g, g.start->0 as int, steps)) == y
            };
        lemma_same_rows_run(f, g, g.start->0 as int, steps, t);
        assert(is_run(f, f.start->0 as int, steps, t));
    }
}

/// A run of a chain machine from step `i` reads the next labels in order.
proof fn lemma_chain_run(f: Fst, ins: Seq<Label>, outs: Seq<Label>, i: int, steps: Seq<int>, t: int)
    requires
        is_chain_machine(f, ins, outs),
        ins.len() <= usize::MAX,
        0 <= i <= ins.len(),
        is_run(f, i, steps, t),
    ensures
        t == i + steps.len(),
        t <= ins.len(),
        run_ilabels(f, i, steps) == ins.subrange(i, t),
        run_olabels(f, i, steps) == outs.subrange(i, t),
    decreases steps.len(),
{
    if steps.len() == 0 {
        assert(ins.subrange(i, i) =~= Seq::<Label>::empty());
        assert(outs.subrange(i, i) =~= Seq::<Label>::empty());
    } else {
        if i == ins.len() {
            assert(f.deg(i) == 0);
        }
        assert(i < ins.len());
        assert(f.deg(i) == 1);
        assert(steps[0] == 0);
        assert(f.arc(i, 0).nextstate as int == i + 1);
        lemma_chain_run(f, ins, outs, i + 1, steps.drop_first(), t);
        assert(ins.subrange(i, t) =~= seq![ins[i]] + ins.subrange(i + 1, t));
        assert(outs.subrange(i, t) =~= seq![outs[i]] + outs.subrange(i + 1, t));
    }
}

/// A chain machine maps only its input labels to its output labels,
/// epsilons removed.
pub proof fn lemma_chain_language(f: Fst, ins: Seq<Label>, outs: Seq<Label>, x: Seq<Label>, y: Seq<Label>)
    requires
        is_chain_machine(f, ins, outs),
        ins.len() <= usize::MAX,
        accepts(f, x, y),
    ensures
        x == strip_eps(ins),
        y == strip_eps(outs),
{
    let (steps, t) = choose|steps: Seq<int>, t: int|
        #![trigger is_run(f, f.start->0 as int, steps, t)]
        {
            &&& f.start is Some
            &&& is_run(f, f.start->0 as int, steps, t)
            &&& 0 <= t < f.n()
            &&& f.is_final(t)
            &&& strip_eps(run_ilabels(f, f.start->0 as int, steps)) == x
            &&& strip_eps(run_olabels(f, f.start->0 as int, steps)) == y
        };
    lemma_chain_run(f, ins, outs, 0, steps, t);
    assert(t == ins.len());
    assert(ins.subrange(0, t) =~= ins);
    assert(outs.subrange(0, t) =~= outs);
}

/// A one-step machine maps exactly one of its label pairs, epsilons
/// removed.
pub proof fn lemma_step_language(f: Fst, pairs: Seq<(Label, Label)>, x: Seq<Label>, y: Seq<Label>)
    requires
        is_step_machine(f, pairs),
        accepts(f, x, y),
    ensures
        exists|k: int| 0 <= k < pairs.len() && x == strip_eps(seq![pairs[k].0]) && y == strip_eps(seq![#[trigger] pairs[k].1]),
{
    let (steps, t) = choose|steps: Seq<int>, t: int|
        #![trigger is_run(f, f.start->0 as int, steps, t)]
        {
            &&& f.start is Some
            &&& is_run(f, f.start->0 as int, steps, t)
            &&& 0 <= t < f.n()
            &&& f.is_final(t)
            &&& strip_eps(run_ilabels(f, f.start->0 as int, steps)) == x
            &&& strip_eps(run_olabels(f, f.start->0 as int, steps)) == y
        };
    assert(steps.len() > 0);
    let k = steps[0];
    assert(f.arc(0, k).nextstate == 1usize);
    if steps.len() > 1 {
        assert(is_run(f, 1, steps.drop_first(), t));
        assert(f.deg(1) == 0);
        assert(false);
    }
    assert(steps.drop_first() =~= Seq::<int>::empty());
    assert(0 <= k < pairs.len());
    assert(f.arc(0, k) == (Arc { ilabel: pairs[k].0, olabel: pairs[k].1, nextstate: 1 }));
    assert(run_ilabels(f, 1, steps.drop_first()) =~= Seq::<Label>::empty());
    assert(run_olabels(f, 1, steps.drop_first()) =~= Seq::<Label>::empty());
    assert(run_ilabels(f, 0, steps) =~= seq![pairs[k].0]);
    assert(run_olabels(f, 0, steps) =~= seq![pairs[k].1]);
}

/// From step `i`, the chain machine runs to its end reading the remaining
/// labels.
proof fn lemma_chain_full_run(f: Fst, ins: Seq<Label>, outs: Seq<Label>, i: int)
    requires
        is_chain_machine(f, ins, outs),
        ins.len() <= usize::MAX,
        0 <= i <= ins.len(),
    ensures
        is_run(f, i, Seq::new((ins.len() - i) as nat, |j: int| 0int), ins.len() as int),
        run_ilabels(f, i, Seq::new((ins.len() - i) as nat, |j: int| 0int)) == ins.subrange(i, ins.len() as int),
        run_olabels(f, i, Seq::new((ins.len() - i) as nat, |j: int| 0int)) == outs.subrange(i, ins.len() as int),
    decreases ins.len() - i,
{
    let steps = Seq::new((ins.len() - i) as nat, |j: int| 0int);
    if i == ins.len() {
        assert(steps =~= Seq::<int>::empty());
        assert(ins.subrange(i, i) =~= Seq::<Label>::empty());
        assert(outs.subrange(i, i) =~= Seq::<Label>::empty());
    } else {
        lemma_chain_full_run(f, ins, outs, i + 1);
        let rest = Seq::new((ins.len() - (i + 1)) as nat, |j: int| 0int);
        assert(steps.drop_first() =~= rest);
        assert(steps[0] == 0);
        assert(f.deg(i) == 1);
        assert(f.arc(i, 0).nextstate as int == i + 1);
        assert(ins.subrange(i, ins.len() as int) =~= seq![ins[i]] + ins.subrange(i + 1, ins.len() as int));
        assert(outs.subrange(i, ins.len() as int) =~= seq![outs[i]] + outs.subrange(i + 1, ins.len() as int));
    }
}

/// A chain machine maps its input labels to its output labels, epsilons
/// removed.
pub proof fn lemma_chain_accepts(f: Fst, ins: Seq<Label>, outs: Seq<Label>)
    requires
        is_chain_machine(f, ins, outs),
        ins.len() <= usize::MAX,
    ensures
        accepts(f, strip_eps(ins), strip_eps(outs)),
{
    lemma_chain_full_run(f, ins, outs, 0);
    assert(ins.subrange(0, ins.len() as int) =~= ins);
    assert(outs.subrange(0, ins.len() as int) =~= outs);
    let steps = Seq::new((ins.len() - 0) as nat, |j: int| 0int);
    assert(is_run(f, f.start->0 as int, steps, ins.len() as int));
    assert(f.is_final(ins.len() as int));
}

/// `r` maps exactly what `a` then `b` map in turn.
pub open spec fn composed(r: Fst, a: Fst, b: Fst) -> bool {
    forall|x: Seq<Label>, z: Seq<Label>| #[trigger] accepts(r, x, z) <==> exists|y: Seq<Label>| accepts(a, x, y) && accepts(b, y, z)
}

/// A one-step machine maps each of its pairs.
pub proof fn lemma_step_accepts(f: Fst, pairs: Seq<(Label, Label)>, k: int)
    requires
        is_step_machine(f, pairs),
        0 <= k < pairs.len(),
    ensures
        accepts(f, strip_eps(seq![pairs[k].0]), strip_eps(seq![pairs[k].1])),
{
    let steps = seq![k];
    let e = f.arc(0, k);
    assert(e.nextstate == 1 && e.ilabel == pairs[k].0 && e.olabel == pairs[k].1);
    assert(steps.drop_first() =~= Seq::<int>::empty());
    assert(is_run(f, 1, steps.drop_first(), 1));
    assert(is_run(f, 0, steps, 1));
    assert(run_ilabels(f, 1, steps.drop_first()) =~= Seq::<Label>::empty());
    assert(run_olabels(f, 1, steps.drop_first()) =~= Seq::<Label>::empty());
    assert(run_ilabels(f, 0, steps) =~= seq![pairs[k].0]);
    assert(run_olabels(f, 0, steps) =~= seq![pairs[k].1]);
    assert(f.start == Some(0usize));
    assert(f.is_final(1));
    assert(is_run(f, f.start->0 as int, steps, 1));
    assert(strip_eps(run_ilabels(f, f.start->0 as int, steps)) == strip_eps(seq![pairs[k].0]));
    assert(strip_eps(run_olabels(f, f.start->0 as int, steps)) == strip_eps(seq![pairs[k].1]));
}

/// The one-step machine of a single pair `(l, l)`, `l` not epsilon, maps
/// exactly `[l]` to `[l]`.
pub proof fn lemma_single_step(f: Fst, l: Label, x: Seq<Label>, y: Seq<Label>)
    requires
        is_step_machine(f, seq![(l, l)]),
        l != 0,
    ensures
        accepts(f, x, y) <==> (x == seq![l] && y == seq![l]),
{
    assert(strip_eps(seq![l]) =~= seq![l]) by {
        assert(seq![l].drop_last() =~= Seq::<Label>::empty());
        assert(strip_eps(seq![l].drop_last()) =~= Seq::<Label>::empty());
        assert(seq![l].last() == l);
        assert(Seq::<Label>::empty().push(l) =~= seq![l]);
    }
    if accepts(f, x, y) {
        lemma_step_language(f, seq![(l, l)], x, y);
    }
    lemma_step_accepts(f, seq![(l, l)], 0);
}

/// A one-state loop machine over the identity pairs of `v` reads and
/// writes a word of `v`'s labels: a run takes arc `ks[i]` at step `i`.
proof fn lemma_identity_loop_run(f: Fst, v: Seq<Label>, steps: Seq<int>, t: int)
    requires
        is_loop_machine(f, identity_pairs(v)),
        is_run(f, 0, steps, t),
    ensures
        t == 0,
        forall|i: int| 0 <= i < steps.len() ==> 0 <= #[trigger] steps[i] < v.len(),
        run_ilabels(f, 0, steps) == steps.map_values(|k: int| v[k]),
        run_olabels(f, 0, steps) == steps.map_values(|k: int| v[k]),
    decreases steps.len(),
{
    if steps.len() > 0 {
        let e = f.arc(0, steps[0]);
        assert(e == (Arc { ilabel: identity_pairs(v)[steps[0]].0, olabel: identity_pairs(v)[steps[0]].1, nextstate: 0 }));
        lemma_identity_loop_run(f, v, steps.drop_first(), t);
        assert forall|i: int| 0 <= i < steps.len() implies 0 <= #[trigger] steps[i] < v.len() by {
            if i > 0 {
                assert(steps[i] == steps.drop_first()[i - 1]);
            }
        }
        assert(steps.map_values(|k: int| v[k]) =~= seq![v[steps[0]]] + steps.drop_first().map_values(|k: int| v[k]));
    } else {
        assert(steps.map_values(|k: int| v[k]) =~= Seq::<Label>::empty());
    }
}

/// Arcs within range make a run of the loop machine.
proof fn lemma_identity_loop_run_back(f: Fst, v: Seq<Label>, steps: Seq<int>)
    requires
        is_loop_machine(f, identity_pairs(v)),
        forall|i: int| 0 <= i < steps.len() ==> 0 <= #[trigger] steps[i] < v.len(),
    ensures
        is_run(f, 0, steps, 0),
        run_ilabels(f, 0, steps) == steps.map_values(|k: int| v[k]),
        run_olabels(f, 0, steps) == steps.map_values(|k: int| v[k]),
    decreases steps.len(),
{
    if steps.len() > 0 {
        let e = f.arc(0, steps[0]);
        assert(e == (Arc { ilabel: identity_pairs(v)[steps[0]].0, olabel: identity_pairs(v)[steps[0]].1, nextstate: 0 }));
        assert forall|i: int| 0 <= i < steps.drop_first().len() implies 0 <= #[trigger] steps.drop_first()[i] < v.len() by {
            assert(steps.drop_first()[i] == steps[i + 1]);
        }
        lemma_identity_loop_run_back(f, v, steps.drop_first());
        assert(steps.map_values(|k: int| v[k]) =~= seq![v[steps[0]]] + steps.drop_first().map_values(|k: int| v[k]));
    } else {
        assert(steps.map_values(|k: int| v[k]) =~= Seq::<Label>::empty());
    }
}

/// Every label of `w` is one of `v`.
pub open spec fn all_in(v: Seq<Label>, w: Seq<Label>) -> bool {
    forall|i: int| 0 <= i < w.len() ==> v.contains(#[trigger] w[i])
}

/// `x:y` is a word over `v`, read and written unchanged, epsilons dropped.
pub open spec fn copies_over(v: Seq<Label>, x: Seq<Label>, y: Seq<Label>) -> bool {
    exists|w: Seq<Label>| #[trigger] all_in(v, w) && x == strip_eps(w) && y == x
}

/// A one-state loop machine over the identity pairs of `v` maps exactly
/// the words over `v` to themselves.
pub proof fn lemma_identity_loop_language(f: Fst, v: Seq<Label>, x: Seq<Label>, y: Seq<Label>)
    requires
        is_loop_machine(f, identity_pairs(v)),
    ensures
        accepts(f, x, y) <==> copies_over(v, x, y),
{
    if accepts(f, x, y) {
        let (steps, t) = choose|steps: Seq<int>, t: int|
            #![trigger is_run(f, f.start->0 as int, steps, t)]
            {
                &&& f.start is Some
                &&& is_run(f, f.start->0 as int, steps, t)
                &&& 0 <= t < f.n()
                &&& f.is_final(t)
                &&& strip_eps(run_ilabels(f, f.start->0 as int, steps)) == x
                &&& strip_eps(run_olabels(f, f.start->0 as int, steps)) == y
            };
        lemma_identity_loop_run(f, v, steps, t);
        let w = steps.map_values(|k: int| v[k]);
        assert forall|i: int| 0 <= i < w.len() implies v.contains(#[trigger] w[i]) by {
            assert(w[i] == v[steps[i]]);
        }
        assert(all_in(v, w));
    }
    if copies_over(v, x, y) {
        let w = choose|w: Seq<Label>| #[trigger] all_in(v, w) && x == strip_eps(w) && y == x;
        let ks = Seq::new(w.len(), |i: int| choose|k: int| 0 <= k < v.len() && v[k] == w[i]);
        assert forall|i: int| 0 <= i < ks.len() implies 0 <= #[trigger] ks[i] < v.len() && v[ks[i]] == w[i] by {
            assert(v.contains(w[i]));
        }
        lemma_identity_loop_run_back(f, v, ks);
        assert(ks.map_values(|k: int| v[k]) =~= w);
        assert(is_run(f, f.start->0 as int, ks, 0));
    }
}

} // verus!
