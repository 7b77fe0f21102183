//! The bracket protocol of the replacement construction: three one-state
//! machines over Σ, the stream markers and the obligatory brackets.
//!
//! * [`intro_brackets`] is the identity on Σ and the markers, and may emit
//!   `<[+]>` / `<]+>` anywhere without reading anything.
//! * [`strip_brackets`] is the identity on Σ and the markers, and reads the
//!   brackets without writing anything.
//! * [`identity_outside_brackets`] is the identity on Σ, the markers and
//!   the brackets.

use vstd::prelude::*;

use super::super::alphabet::{
    PhonruleAlphabet, BOUNDARY_LABEL, BRACKET_CLOSE_OBLIG_LABEL, BRACKET_OPEN_OBLIG_LABEL,
    WORD_END_LABEL, WORD_START_LABEL,
};
use super::super::backend::{Label, EPS_LABEL};
use super::super::machine::{identity_pairs, is_loop_machine, loop_machine, Fst};

verus! {

/// Identity pairs on the three stream markers `<bdy>`, `<^>`, `<$>`.
pub open spec fn marker_pairs() -> Seq<(Label, Label)> {
    seq![(BOUNDARY_LABEL, BOUNDARY_LABEL), (WORD_START_LABEL, WORD_START_LABEL), (WORD_END_LABEL, WORD_END_LABEL)]
}

/// Self-loops of [`intro_brackets`].
pub open spec fn intro_pairs(sigma: Seq<Label>) -> Seq<(Label, Label)> {
    identity_pairs(sigma) + marker_pairs() + seq![
        (EPS_LABEL, BRACKET_OPEN_OBLIG_LABEL),
        (EPS_LABEL, BRACKET_CLOSE_OBLIG_LABEL),
    ]
}

/// Self-loops of [`strip_brackets`].
pub open spec fn strip_pairs(sigma: Seq<Label>) -> Seq<(Label, Label)> {
    identity_pairs(sigma) + marker_pairs() + seq![
        (BRACKET_OPEN_OBLIG_LABEL, EPS_LABEL),
        (BRACKET_CLOSE_OBLIG_LABEL, EPS_LABEL),
    ]
}

/// Self-loops of [`identity_outside_brackets`].
pub open spec fn outside_pairs(sigma: Seq<Label>) -> Seq<(Label, Label)> {
    identity_pairs(sigma) + marker_pairs() + seq![
        (BRACKET_OPEN_OBLIG_LABEL, BRACKET_OPEN_OBLIG_LABEL),
        (BRACKET_CLOSE_OBLIG_LABEL, BRACKET_CLOSE_OBLIG_LABEL),
    ]
}

/// Identity pairs for `labels`, then the marker identities, then `tail`.
pub(crate) fn pairs_with(labels: &Vec<Label>, tail: &Vec<(Label, Label)>) -> (r: Vec<(Label, Label)>)
    ensures
        r@ == identity_pairs(labels@) + marker_pairs() + tail@,
{
    let mut r: Vec<(Label, Label)> = Vec::new();
    let mut i: usize = 0;
    while i < labels.len()
        invariant
            i <= labels@.len(),
            r@ == identity_pairs(labels@.take(i as int)),
        decreases labels@.len() - i,
    {
        let l = labels[i];
        r.push((l, l));
        proof {
            assert(identity_pairs(labels@.take(i + 1)) =~= identity_pairs(labels@.take(i as int)).push((l, l)));
        }
        i = i + 1;
    }
    proof {
        assert(labels@.take(labels@.len() as int) == labels@);
    }
    let ghost base = r@;
    r.push((BOUNDARY_LABEL, BOUNDARY_LABEL));
    r.push((WORD_START_LABEL, WORD_START_LABEL));
    r.push((WORD_END_LABEL, WORD_END_LABEL));
    proof {
        assert(r@ =~= base + marker_pairs());
    }
    let ghost mid = r@;
    let mut j: usize = 0;
    while j < tail.len()
        invariant
            j <= tail@.len(),
            r@ == mid + tail@.take(j as int),
        decreases tail@.len() - j,
    {
        r.push(tail[j]);
        proof {
            assert(mid + tail@.take(j + 1) =~= (mid + tail@.take(j as int)).push(tail@[j as int]));
        }
        j = j + 1;
    }
    proof {
        assert(tail@.take(tail@.len() as int) == tail@);
    }
    r
}

/// The mark step: identity on Σ and the markers, plus `ε:<[+]>` and
/// `ε:<]+>` self-loops that insert brackets anywhere.
pub fn intro_brackets(alpha: &PhonruleAlphabet) -> (f: Fst)
    ensures
        f.wf(),
        is_loop_machine(f, intro_pairs(alpha.sigma_seq())),
{
    let sigma = alpha.sigma();
    let tail = vec![(EPS_LABEL, BRACKET_OPEN_OBLIG_LABEL), (EPS_LABEL, BRACKET_CLOSE_OBLIG_LABEL)];
    let pairs = pairs_with(&sigma, &tail);
    proof {
        assert(tail@ =~= seq![(EPS_LABEL, BRACKET_OPEN_OBLIG_LABEL), (EPS_LABEL, BRACKET_CLOSE_OBLIG_LABEL)]);
    }
    loop_machine(&pairs)
}

/// The unmark step: identity on Σ and the markers, plus `<[+]>:ε` and
/// `<]+>:ε` self-loops that delete brackets.
pub fn strip_brackets(alpha: &PhonruleAlphabet) -> (f: Fst)
    ensures
        f.wf(),
        is_loop_machine(f, strip_pairs(alpha.sigma_seq())),
{
    let sigma = alpha.sigma();
    let tail = vec![(BRACKET_OPEN_OBLIG_LABEL, EPS_LABEL), (BRACKET_CLOSE_OBLIG_LABEL, EPS_LABEL)];
    let pairs = pairs_with(&sigma, &tail);
    proof {
        assert(tail@ =~= seq![(BRACKET_OPEN_OBLIG_LABEL, EPS_LABEL), (BRACKET_CLOSE_OBLIG_LABEL, EPS_LABEL)]);
    }
    loop_machine(&pairs)
}

/// Identity on Σ, the markers and both obligatory brackets.
pub fn identity_outside_brackets(alpha: &PhonruleAlphabet) -> (f: Fst)
    ensures
        f.wf(),
        is_loop_machine(f, outside_pairs(alpha.sigma_seq())),
{
    let sigma = alpha.sigma();
    let tail = vec![
        (BRACKET_OPEN_OBLIG_LABEL, BRACKET_OPEN_OBLIG_LABEL),
        (BRACKET_CLOSE_OBLIG_LABEL, BRACKET_CLOSE_OBLIG_LABEL),
    ];
    let pairs = pairs_with(&sigma, &tail);
    proof {
        assert(tail@ =~= seq![
            (BRACKET_OPEN_OBLIG_LABEL, BRACKET_OPEN_OBLIG_LABEL),
            (BRACKET_CLOSE_OBLIG_LABEL, BRACKET_CLOSE_OBLIG_LABEL),
        ]);
    }
    loop_machine(&pairs)
}

} // verus!
