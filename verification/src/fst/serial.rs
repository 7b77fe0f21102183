//! A byte encoding of machines, with the round-trip law: decoding the
//! encoding of a well-formed machine gives that machine back.
//!
//! The encoding is a sequence of 64-bit little-endian words:
//!
//! ```text
//!   n  has_start  start
//!   for each state:  final  degree  (ilabel olabel nextstate){degree}
//! ```

use vstd::prelude::*;

use crate::text::str_to_owned;
use super::backend::{FstError, FstResult};
use super::machine::{Arc, Fst};

verus! {

/// The words of one arc.
pub open spec fn arc_words(a: Arc) -> Seq<u64> {
    seq![a.ilabel as u64, a.olabel as u64, a.nextstate as u64]
}

/// The words of a state's arcs, in order.
pub open spec fn row_words(row: Seq<Arc>) -> Seq<u64>
    decreases row.len(),
{
    if row.len() == 0 {
        Seq::empty()
    } else {
        row_words(row.drop_last()) + arc_words(row.last())
    }
}

/// The words of one state: its final flag, its degree, its arcs.
pub open spec fn state_words(fin: bool, row: Seq<Arc>) -> Seq<u64> {
    seq![if fin { 1u64 } else { 0u64 }, row.len() as u64] + row_words(row)
}

/// The words of the states, in order.
pub open spec fn states_words(finals: Seq<bool>, rows: Seq<Seq<Arc>>) -> Seq<u64>
    decreases rows.len(),
{
    if rows.len() == 0 || finals.len() == 0 {
        Seq::empty()
    } else {
        states_words(finals.drop_last(), rows.drop_last()) + state_words(finals.last(), rows.last())
    }
}

/// The header words: the number of states and the start state.
pub open spec fn header_words(f: Fst) -> Seq<u64> {
    match f.start {
        Some(s) => seq![f.n() as u64, 1u64, s as u64],
        None => seq![f.n() as u64, 0u64, 0u64],
    }
}

/// The words of a machine.
pub open spec fn fst_words(f: Fst) -> Seq<u64> {
    header_words(f) + states_words(f.finals@, f.rows())
}

/// The eight little-endian bytes of a word.
pub open spec fn le_bytes(w: u64) -> Seq<u8> {
    seq![
        (w & 0xff) as u8,
        ((w >> 8) & 0xff) as u8,
        ((w >> 16) & 0xff) as u8,
        ((w >> 24) & 0xff) as u8,
        ((w >> 32) & 0xff) as u8,
        ((w >> 40) & 0xff) as u8,
        ((w >> 48) & 0xff) as u8,
        ((w >> 56) & 0xff) as u8,
    ]
}

/// The bytes of a word sequence.
pub open spec fn words_bytes(ws: Seq<u64>) -> Seq<u8>
    decreases ws.len(),
{
    if ws.len() == 0 {
        Seq::empty()
    } else {
        words_bytes(ws.drop_last()) + le_bytes(ws.last())
    }
}

/// The byte encoding of a machine.
pub open spec fn fst_bytes(f: Fst) -> Seq<u8> {
    words_bytes(fst_words(f))
}

/// Two machines with the same start state, final flags and arcs.
pub open spec fn same_fst(a: Fst, b: Fst) -> bool {
    &&& a.start == b.start
    &&& a.finals@ == b.finals@
    &&& a.rows() == b.rows()
}

// ---------------------------------------------------------------------------
// Encoding lemmas.
// ---------------------------------------------------------------------------

proof fn lemma_words_bytes_len(ws: Seq<u64>)
    ensures
        words_bytes(ws).len() == 8 * ws.len(),
    decreases ws.len(),
{
    if ws.len() > 0 {
        lemma_words_bytes_len(ws.drop_last());
    }
}

/// Byte `8 * i + j` of the encoding is byte `j` of word `i`.
proof fn lemma_words_bytes_at(ws: Seq<u64>, i: int, j: int)
    requires
        0 <= i < ws.len(),
        0 <= j < 8,
    ensures
        words_bytes(ws)[8 * i + j] == le_bytes(ws[i])[j],
    decreases ws.len(),
{
    lemma_words_bytes_len(ws.drop_last());
    if i < ws.len() - 1 {
        lemma_words_bytes_at(ws.drop_last(), i, j);
    }
}

/// Pushing one word appends its bytes.
proof fn lemma_words_bytes_push(ws: Seq<u64>, w: u64)
    ensures
        words_bytes(ws.push(w)) == words_bytes(ws) + le_bytes(w),
{
    assert(ws.push(w).drop_last() =~= ws);
}

/// Reassembling a word from its bytes.
proof fn lemma_le_round_trip(w: u64)
    ensures
        ((le_bytes(w)[0] as u64) | ((le_bytes(w)[1] as u64) << 8) | ((le_bytes(w)[2] as u64) << 16) | ((
        le_bytes(w)[3] as u64) << 24) | ((le_bytes(w)[4] as u64) << 32) | ((le_bytes(w)[5] as u64) << 40) | ((
        le_bytes(w)[6] as u64) << 48) | ((le_bytes(w)[7] as u64) << 56)) == w,
{
    let b0 = (w & 0xff) as u8;
    let b1 = ((w >> 8) & 0xff) as u8;
    let b2 = ((w >> 16) & 0xff) as u8;
    let b3 = ((w >> 24) & 0xff) as u8;
    let b4 = ((w >> 32) & 0xff) as u8;
    let b5 = ((w >> 40) & 0xff) as u8;
    let b6 = ((w >> 48) & 0xff) as u8;
    let b7 = ((w >> 56) & 0xff) as u8;
    assert(((b0 as u64) | ((b1 as u64) << 8) | ((b2 as u64) << 16) | ((b3 as u64) << 24) | ((b4 as u64) << 32)
        | ((b5 as u64) << 40) | ((b6 as u64) << 48) | ((b7 as u64) << 56)) == w) by (bit_vector)
        requires
            b0 == (w & 0xff) as u8,
            b1 == ((w >> 8) & 0xff) as u8,
            b2 == ((w >> 16) & 0xff) as u8,
            b3 == ((w >> 24) & 0xff) as u8,
            b4 == ((w >> 32) & 0xff) as u8,
            b5 == ((w >> 40) & 0xff) as u8,
            b6 == ((w >> 48) & 0xff) as u8,
            b7 == ((w >> 56) & 0xff) as u8,
    ;
}

/// Splitting a reassembled word gives its bytes back.
proof fn lemma_le_split(b: Seq<u8>, w: u64)
    requires
        b.len() == 8,
        w == ((b[0] as u64) | ((b[1] as u64) << 8) | ((b[2] as u64) << 16) | ((b[3] as u64) << 24) | ((b[4] as u64)
            << 32) | ((b[5] as u64) << 40) | ((b[6] as u64) << 48) | ((b[7] as u64) << 56)),
    ensures
        le_bytes(w) == b,
{
    let (b0, b1, b2, b3, b4, b5, b6, b7) = (b[0], b[1], b[2], b[3], b[4], b[5], b[6], b[7]);
    assert((w & 0xff) as u8 == b0 && ((w >> 8) & 0xff) as u8 == b1 && ((w >> 16) & 0xff) as u8 == b2 && ((w >> 24)
        & 0xff) as u8 == b3 && ((w >> 32) & 0xff) as u8 == b4 && ((w >> 40) & 0xff) as u8 == b5 && ((w >> 48) & 0xff)
        as u8 == b6 && ((w >> 56) & 0xff) as u8 == b7) by (bit_vector)
        requires
            w == ((b0 as u64) | ((b1 as u64) << 8) | ((b2 as u64) << 16) | ((b3 as u64) << 24) | ((b4 as u64) << 32)
                | ((b5 as u64) << 40) | ((b6 as u64) << 48) | ((b7 as u64) << 56)),
    ;
    assert(le_bytes(w) =~= b);
}

/// `row_words` of a longer prefix extends that of a shorter one by the
/// next arc.
proof fn lemma_row_words_step(row: Seq<Arc>, k: int)
    requires
        0 <= k < row.len(),
    ensures
        row_words(row.take(k + 1)) == row_words(row.take(k)) + arc_words(row[k]),
{
    assert(row.take(k + 1).drop_last() =~= row.take(k));
}

/// `states_words` of a longer prefix extends that of a shorter one by the
/// next state.
proof fn lemma_states_words_step(fs: Seq<bool>, rs: Seq<Seq<Arc>>, q: int)
    requires
        0 <= q < rs.len(),
        fs.len() == rs.len(),
    ensures
        states_words(fs.take(q + 1), rs.take(q + 1)) == states_words(fs.take(q), rs.take(q)) + state_words(fs[q], rs[q]),
{
    assert(fs.take(q + 1).drop_last() =~= fs.take(q));
    assert(rs.take(q + 1).drop_last() =~= rs.take(q));
}

proof fn lemma_row_words_len(row: Seq<Arc>)
    ensures
        row_words(row).len() == 3 * row.len(),
    decreases row.len(),
{
    if row.len() > 0 {
        lemma_row_words_len(row.drop_last());
    }
}

/// The words of a prefix of the arcs are a prefix of the words of all.
proof fn lemma_row_words_prefix(row: Seq<Arc>, k: int)
    requires
        0 <= k <= row.len(),
    ensures
        row_words(row.take(k)).len() <= row_words(row).len(),
        row_words(row.take(k)) == row_words(row).subrange(0, row_words(row.take(k)).len() as int),
    decreases row.len() - k,
{
    if k == row.len() {
        assert(row.take(k) =~= row);
    } else {
        lemma_row_words_prefix(row, k + 1);
        lemma_row_words_step(row, k);
        let a = row_words(row.take(k));
        let b = row_words(row.take(k + 1));
        let c = row_words(row);
        assert(b.len() <= c.len());
        assert(a =~= b.subrange(0, a.len() as int));
        assert(c.subrange(0, a.len() as int) =~= b.subrange(0, a.len() as int));
    }
}

/// Each state takes at least two words.
proof fn lemma_states_words_len(fs: Seq<bool>, rs: Seq<Seq<Arc>>)
    requires
        fs.len() == rs.len(),
    ensures
        states_words(fs, rs).len() >= 2 * rs.len(),
    decreases rs.len(),
{
    if rs.len() > 0 {
        lemma_states_words_len(fs.drop_last(), rs.drop_last());
    }
}

/// The words of the first states are a prefix of the words of all.
proof fn lemma_states_words_prefix(fs: Seq<bool>, rs: Seq<Seq<Arc>>, q: int)
    requires
        0 <= q <= rs.len(),
        fs.len() == rs.len(),
    ensures
        states_words(fs.take(q), rs.take(q)).len() <= states_words(fs, rs).len(),
        states_words(fs.take(q), rs.take(q)) == states_words(fs, rs).subrange(
            0,
            states_words(fs.take(q), rs.take(q)).len() as int,
        ),
    decreases rs.len() - q,
{
    if q == rs.len() {
        assert(fs.take(q) =~= fs);
        assert(rs.take(q) =~= rs);
    } else {
        lemma_states_words_prefix(fs, rs, q + 1);
        lemma_states_words_step(fs, rs, q);
        let a = states_words(fs.take(q), rs.take(q));
        let b = states_words(fs.take(q + 1), rs.take(q + 1));
        let c = states_words(fs, rs);
        assert(b.len() <= c.len());
        assert(a =~= b.subrange(0, a.len() as int));
        assert(c.subrange(0, a.len() as int) =~= b.subrange(0, a.len() as int));
    }
}

// ---------------------------------------------------------------------------
// Encoding.
// ---------------------------------------------------------------------------

/// Append the eight bytes of `w`.
fn push_word(out: &mut Vec<u8>, w: u64)
    ensures
        final(out)@ == old(out)@ + le_bytes(w),
{
    out.push((w & 0xff) as u8);
    out.push(((w >> 8) & 0xff) as u8);
    out.push(((w >> 16) & 0xff) as u8);
    out.push(((w >> 24) & 0xff) as u8);
    out.push(((w >> 32) & 0xff) as u8);
    out.push(((w >> 40) & 0xff) as u8);
    out.push(((w >> 48) & 0xff) as u8);
    out.push(((w >> 56) & 0xff) as u8);
    assert(out@ =~= old(out)@ + le_bytes(w));
}

/// The byte encoding of a machine.
pub fn serialize(f: &Fst) -> (r: Vec<u8>)
    requires
        f.wf(),
    ensures
        r@ == fst_bytes(*f),
{
    let mut out: Vec<u8> = Vec::new();
    let ghost ws: Seq<u64> = Seq::empty();
    let n = f.arcs.len();
    let (has, s): (u64, u64) = match f.start {
        Some(s) => (1, s as u64),
        None => (0, 0),
    };
    push_word(&mut out, n as u64);
    proof {
        lemma_words_bytes_push(ws, n as u64);
        ws = ws.push(n as u64);
    }
    push_word(&mut out, has);
    proof {
        lemma_words_bytes_push(ws, has);
        ws = ws.push(has);
    }
    push_word(&mut out, s);
    proof {
        lemma_words_bytes_push(ws, s);
        ws = ws.push(s);
        assert(ws =~= header_words(*f));
        assert(f.finals@.take(0) =~= Seq::<bool>::empty());
        assert(f.rows().take(0) =~= Seq::<Seq<Arc>>::empty());
    }
    let mut q: usize = 0;
    while q < n
        invariant
            f.wf(),
            n == f.arcs@.len(),
            q <= n,
            ws == header_words(*f) + states_words(f.finals@.take(q as int), f.rows().take(q as int)),
            out@ == words_bytes(ws),
        decreases n - q,
    {
        let ghost ws_q = ws;
        let fin: u64 = if f.finals[q] { 1 } else { 0 };
        let deg = f.arcs[q].len();
        push_word(&mut out, fin);
        proof {
            lemma_words_bytes_push(ws, fin);
            ws = ws.push(fin);
        }
        push_word(&mut out, deg as u64);
        proof {
            lemma_words_bytes_push(ws, deg as u64);
            ws = ws.push(deg as u64);
            assert(f.rows()[q as int].take(0) =~= Seq::<Arc>::empty());
            assert(ws =~= ws_q + seq![fin, deg as u64] + row_words(f.rows()[q as int].take(0)));
        }
        let mut k: usize = 0;
        while k < deg
            invariant
                f.wf(),
                n == f.arcs@.len(),
                q < n,
                deg == f.rows()[q as int].len(),
                k <= deg,
                ws == ws_q + seq![fin, deg as u64] + row_words(f.rows()[q as int].take(k as int)),
                out@ == words_bytes(ws),
            decreases deg - k,
        {
            let a = f.arcs[q][k];
            proof {
                assert(a == f.rows()[q as int][k as int]);
                lemma_row_words_step(f.rows()[q as int], k as int);
            }
            push_word(&mut out, a.ilabel as u64);
            proof {
                lemma_words_bytes_push(ws, a.ilabel as u64);
                ws = ws.push(a.ilabel as u64);
            }
            push_word(&mut out, a.olabel as u64);
            proof {
                lemma_words_bytes_push(ws, a.olabel as u64);
                ws = ws.push(a.olabel as u64);
            }
            push_word(&mut out, a.nextstate as u64);
            proof {
                lemma_words_bytes_push(ws, a.nextstate as u64);
                ws = ws.push(a.nextstate as u64);
                assert(ws =~= ws_q + seq![fin, deg as u64] + row_words(f.rows()[q as int].take(k + 1)));
            }
            k = k + 1;
        }
        proof {
            assert(f.rows()[q as int].take(deg as int) =~= f.rows()[q as int]);
            lemma_states_words_step(f.finals@, f.rows(), q as int);
            assert(ws =~= header_words(*f) + states_words(f.finals@.take(q + 1), f.rows().take(q + 1)));
        }
        q = q + 1;
    }
    proof {
        assert(f.finals@.take(n as int) =~= f.finals@);
        assert(f.rows().take(n as int) =~= f.rows());
    }
    out
}

// ---------------------------------------------------------------------------
// Decoding.
// ---------------------------------------------------------------------------

/// Distinct word sequences have distinct encodings.
proof fn lemma_words_bytes_injective(a: Seq<u64>, b: Seq<u64>)
    requires
        words_bytes(a) == words_bytes(b),
    ensures
        a == b,
{
    lemma_words_bytes_len(a);
    lemma_words_bytes_len(b);
    assert forall|i: int| 0 <= i < a.len() implies a[i] == b[i] by {
        assert forall|j: int| 0 <= j < 8 implies le_bytes(a[i])[j] == le_bytes(b[i])[j] by {
            lemma_words_bytes_at(a, i, j);
            lemma_words_bytes_at(b, i, j);
        }
        assert(le_bytes(a[i]) =~= le_bytes(b[i]));
        lemma_le_round_trip(a[i]);
        lemma_le_round_trip(b[i]);
    }
    assert(a =~= b);
}

/// The words of a byte string whose length is a multiple of eight.
fn bytes_to_words(bytes: &[u8]) -> (r: Option<Vec<u64>>)
    ensures
        r is Some <==> bytes@.len() % 8 == 0,
        r matches Some(v) ==> words_bytes(v@) == bytes@,
{
    if bytes.len() % 8 != 0 {
        return None;
    }
    let len = bytes.len();
    let n = len / 8;
    let mut v: Vec<u64> = Vec::new();
    let mut i: usize = 0;
    while i < n
        invariant
            len == bytes@.len(),
            n * 8 == bytes@.len(),
            i <= n,
            v@.len() == i,
            words_bytes(v@) == bytes@.subrange(0, 8 * i as int),
        decreases n - i,
    {
        assert(8 * i + 8 <= 8 * n);
        let o = 8 * i;
        let w: u64 = (bytes[o] as u64) | ((bytes[o + 1] as u64) << 8) | ((bytes[o + 2] as u64) << 16) | ((bytes[o
            + 3] as u64) << 24) | ((bytes[o + 4] as u64) << 32) | ((bytes[o + 5] as u64) << 40) | ((bytes[o + 6] as u64)
            << 48) | ((bytes[o + 7] as u64) << 56);
        proof {
            let b = bytes@.subrange(o as int, o + 8);
            assert(b[0] == bytes@[o as int] && b[1] == bytes@[o + 1] && b[2] == bytes@[o + 2] && b[3] == bytes@[o + 3]
                && b[4] == bytes@[o + 4] && b[5] == bytes@[o + 5] && b[6] == bytes@[o + 6] && b[7] == bytes@[o + 7]);
            lemma_le_split(b, w);
            lemma_words_bytes_push(v@, w);
            assert(bytes@.subrange(0, o + 8) =~= bytes@.subrange(0, o as int) + b);
        }
        v.push(w);
        i = i + 1;
    }
    proof {
        assert(bytes@.subrange(0, 8 * n as int) =~= bytes@);
    }
    Some(v)
}

/// The words of state `q` sit right after those of the states before it.
proof fn lemma_read_state(w: Seq<u64>, hw: Seq<u64>, fs: Seq<bool>, rs: Seq<Seq<Arc>>, q: int)
    requires
        w == hw + states_words(fs, rs),
        fs.len() == rs.len(),
        0 <= q < rs.len(),
    ensures
        ({
            let p = hw.len() + states_words(fs.take(q), rs.take(q)).len();
            &&& p + state_words(fs[q], rs[q]).len() <= w.len()
            &&& forall|j: int| 0 <= j < state_words(fs[q], rs[q]).len() ==> w[p + j] == #[trigger] state_words(fs[q], rs[q])[j]
        }),
{
    lemma_states_words_prefix(fs, rs, q + 1);
    lemma_states_words_step(fs, rs, q);
    let a = states_words(fs.take(q), rs.take(q));
    let st = state_words(fs[q], rs[q]);
    let b = states_words(fs.take(q + 1), rs.take(q + 1));
    let c = states_words(fs, rs);
    assert forall|j: int| 0 <= j < st.len() implies w[hw.len() + a.len() + j] == #[trigger] st[j] by {
        assert(b[a.len() + j] == st[j]);
        assert(c[a.len() + j] == b[a.len() + j]);
        assert(w[hw.len() + a.len() + j] == c[a.len() + j]);
    }
}

/// Arc `k` of a state sits at word `2 + 3k` of the state's words.
proof fn lemma_read_arc(fin: bool, row: Seq<Arc>, k: int)
    requires
        0 <= k < row.len(),
    ensures
        state_words(fin, row).len() == 2 + 3 * row.len(),
        forall|j: int| 0 <= j < 3 ==> state_words(fin, row)[2 + 3 * k + j] == #[trigger] arc_words(row[k])[j],
{
    lemma_row_words_len(row);
    lemma_row_words_prefix(row, k + 1);
    lemma_row_words_step(row, k);
    lemma_row_words_len(row.take(k));
    let a = row_words(row.take(k));
    let b = row_words(row.take(k + 1));
    let c = row_words(row);
    assert forall|j: int| 0 <= j < 3 implies state_words(fin, row)[2 + 3 * k + j] == #[trigger] arc_words(row[k])[j] by {
        assert(b[3 * k + j] == arc_words(row[k])[j]);
        assert(c[3 * k + j] == b[3 * k + j]);
    }
}

/// Parse the words of a machine.
fn parse_words(w: &Vec<u64>) -> (r: FstResult<Fst>)
    ensures
        r matches Ok(g) ==> g.wf() && fst_words(g) == w@,
        forall|f: Fst| f.wf() && #[trigger] fst_words(f) == w@ ==> (r matches Ok(g) && same_fst(g, f)),
{
    let ghost has_t = exists|f: Fst| f.wf() && #[trigger] fst_words(f) == w@;
    let ghost t = choose|f: Fst| f.wf() && #[trigger] fst_words(f) == w@;
    let ghost hw = w@.take(3);
    proof {
        if has_t {
            assert(header_words(t).len() == 3);
            assert(w@.take(3) =~= header_words(t));
            assert(w@ =~= hw + states_words(t.finals@, t.rows()));
            lemma_states_words_len(t.finals@, t.rows());
            assert(t.n() <= w@.len());
        }
    }
    let wl = w.len();
    if wl < 3 {
        return Err(FstError::Deserialize(str_to_owned("truncated header")));
    }
    let n64 = w[0];
    let has = w[1];
    let s64 = w[2];
    if n64 > usize::MAX as u64 {
        return Err(FstError::Deserialize(str_to_owned("state count out of range")));
    }
    let n = n64 as usize;
    let start: Option<usize> = if has == 0 && s64 == 0 {
        None
    } else if has == 1 && s64 < n64 {
        Some(s64 as usize)
    } else {
        return Err(FstError::Deserialize(str_to_owned("bad start state")));
    };
    proof {
        if has_t {
            assert(w@[0] == header_words(t)[0]);
            assert(w@[1] == header_words(t)[1]);
            assert(w@[2] == header_words(t)[2]);
            assert(n == t.n());
            assert(start == t.start);
            assert(t.finals@.take(0) =~= Seq::<bool>::empty());
            assert(t.rows().take(0) =~= Seq::<Seq<Arc>>::empty());
        }
        assert(w@.subrange(0, 3) =~= hw);
    }
    let mut finals: Vec<bool> = Vec::new();
    let mut arcs: Vec<Vec<Arc>> = Vec::new();
    let mut p: usize = 3;
    let mut q: usize = 0;
    while q < n
        invariant
            hw == w@.take(3),
            hw == seq![n64, has, s64],
            n == n64,
            start matches Some(s) ==> s < n,
            3 <= p <= w@.len(),
            wl == w@.len(),
            q <= n,
            finals@.len() == q,
            arcs@.len() == q,
            forall|a: int, k: int| 0 <= a < q && 0 <= k < arcs@[a]@.len() ==> #[trigger] arcs@[a]@[k].nextstate < n,
            w@.subrange(0, p as int) == hw + states_words(finals@, arcs@.map_values(|v: Vec<Arc>| v@)),
            has_t ==> w@ == hw + states_words(t.finals@, t.rows()),
            has_t ==> (n == t.n() && start == t.start && finals@ == t.finals@.take(q as int) && arcs@.map_values(
                |v: Vec<Arc>| v@,
            ) == t.rows().take(q as int)),
            has_t ==> t.wf() && t.finals@.len() == t.rows().len(),
            has_t == exists|f: Fst| f.wf() && #[trigger] fst_words(f) == w@,
        decreases n - q,
    {
        let ghost rows_q = arcs@.map_values(|v: Vec<Arc>| v@);
        proof {
            assert(w@.subrange(0, p as int).len() == p);
            assert(p == hw.len() + states_words(finals@, rows_q).len());
            if has_t {
                lemma_read_state(w@, hw, t.finals@, t.rows(), q as int);
                assert(states_words(finals@, rows_q) == states_words(t.finals@.take(q as int), t.rows().take(q as int)));
            }
        }
        if w.len() - p < 2 {
            proof {
                if has_t {
                    lemma_read_state(w@, hw, t.finals@, t.rows(), q as int);
                    assert(state_words(t.finals@[q as int], t.rows()[q as int]).len() >= 2);
                    assert(false);
                }
            }
            return Err(FstError::Deserialize(str_to_owned("truncated state")));
        }
        let fin = w[p];
        let deg64 = w[p + 1];
        proof {
            if has_t {
                let st = state_words(t.finals@[q as int], t.rows()[q as int]);
                assert(st[0] == w@[p as int + 0]);
                assert(st[1] == w@[p as int + 1]);
                lemma_row_words_len(t.rows()[q as int]);
            }
        }
        if fin > 1 {
            proof {
                if has_t {
                    let st = state_words(t.finals@[q as int], t.rows()[q as int]);
                    assert(st[0] == w@[p as int + 0]);
                    assert(false);
                }
            }
            return Err(FstError::Deserialize(str_to_owned("bad final flag")));
        }
        if deg64 > ((w.len() - p - 2) / 3) as u64 {
            return Err(FstError::Deserialize(str_to_owned("truncated arcs")));
        }
        let deg = deg64 as usize;
        proof {
            let room = (w@.len() - p - 2) as int;
            assert(3 * deg <= room) by (nonlinear_arith)
                requires
                    deg <= room / 3,
                    room >= 0,
            ;
        }
        let mut row: Vec<Arc> = Vec::new();
        let mut k: usize = 0;
        let mut pp: usize = p + 2;
        proof {
            assert(row@ =~= Seq::<Arc>::empty());
            assert(w@.subrange(p as int, pp as int) =~= seq![fin, deg64] + row_words(row@));
            if has_t {
                let trow = t.rows()[q as int];
                assert(trow.take(0) =~= Seq::<Arc>::empty());
                lemma_read_state(w@, hw, t.finals@, t.rows(), q as int);
                lemma_row_words_len(trow);
                let st = state_words(t.finals@[q as int], trow);
                assert(st[1] == w@[p as int + 1]);
                assert(trow.len() <= w@.len());
                assert(deg == trow.len());
                assert forall|a: int| 0 <= a < trow.len() implies (#[trigger] trow[a]).nextstate < n by {
                    assert(t.arc(q as int, a) == trow[a]);
                }
            }
        }
        while k < deg
            invariant
                3 <= p,
                pp == p + 2 + 3 * k,
                k <= deg,
                deg == deg64,
                pp + 3 * (deg - k) <= w@.len(),
                n == n64,
                wl == w@.len(),
                row@.len() == k,
                has_t == exists|f: Fst| f.wf() && #[trigger] fst_words(f) == w@,
                forall|j: int| 0 <= j < k ==> #[trigger] row@[j].nextstate < n,
                w@.subrange(p as int, pp as int) == seq![fin, deg64] + row_words(row@),
                has_t ==> ({
                    let trow = t.rows()[q as int];
                    &&& row@ == trow.take(k as int)
                    &&& deg == trow.len()
                    &&& forall|j: int| 0 <= j < 2 + 3 * trow.len() ==> w@[p + j] == #[trigger] state_words(t.finals@[q as int], trow)[j]
                    &&& state_words(t.finals@[q as int], trow).len() == 2 + 3 * trow.len()
                    &&& forall|a: int, b: int| 0 <= a < trow.len() && 0 <= b < 3 ==> #[trigger] arc_words(trow[a])[b] < n || b < 2
                    &&& forall|a: int| 0 <= a < trow.len() ==> (#[trigger] trow[a]).nextstate < n
                }),
            decreases deg - k,
        {
            let il64 = w[pp];
            let ol64 = w[pp + 1];
            let nx64 = w[pp + 2];
            proof {
                if has_t {
                    let trow = t.rows()[q as int];
                    lemma_read_arc(t.finals@[q as int], trow, k as int);
                    let st = state_words(t.finals@[q as int], trow);
                    assert(w@[p + 2 + 3 * k + 0] == st[2 + 3 * k + 0]);
                    assert(w@[p + 2 + 3 * k + 1] == st[2 + 3 * k + 1]);
                    assert(w@[p + 2 + 3 * k + 2] == st[2 + 3 * k + 2]);
                    assert(arc_words(trow[k as int])[0] == il64);
                    assert(arc_words(trow[k as int])[1] == ol64);
                    assert(arc_words(trow[k as int])[2] == nx64);
                }
            }
            if il64 > u32::MAX as u64 || ol64 > u32::MAX as u64 || nx64 >= n64 {
                return Err(FstError::Deserialize(str_to_owned("bad arc")));
            }
            let a = Arc { ilabel: il64 as u32, olabel: ol64 as u32, nextstate: nx64 as usize };
            proof {
                assert(arc_words(a) =~= seq![il64, ol64, nx64]);
                assert(row@.push(a).drop_last() =~= row@);
                assert(w@.subrange(p as int, pp + 3) =~= w@.subrange(p as int, pp as int) + seq![il64, ol64, nx64]);
                if has_t {
                    let trow = t.rows()[q as int];
                    assert(a == trow[k as int]);
                    assert(trow.take(k + 1) =~= trow.take(k as int).push(a));
                }
            }
            row.push(a);
            pp = pp + 3;
            k = k + 1;
        }
        let ghost fs0 = finals@;
        finals.push(fin == 1);
        arcs.push(row);
        proof {
            let rows_now = arcs@.map_values(|v: Vec<Arc>| v@);
            assert(rows_now =~= rows_q.push(row@));
            assert(finals@.drop_last() =~= fs0);
            assert(rows_now.drop_last() =~= rows_q);
            assert(state_words(fin == 1, row@) =~= seq![fin, deg64] + row_words(row@));
            assert(states_words(finals@, rows_now) == states_words(fs0, rows_q) + state_words(fin == 1, row@));
            assert(w@.subrange(0, pp as int) =~= w@.subrange(0, p as int) + w@.subrange(p as int, pp as int));
            if has_t {
                assert(row@ =~= t.rows()[q as int]);
                assert(fin == (if t.finals@[q as int] { 1u64 } else { 0u64 }));
                assert(finals@ =~= t.finals@.take(q + 1));
                assert(rows_now =~= t.rows().take(q + 1));
            }
            assert forall|a: int, kk: int| 0 <= a < q + 1 && 0 <= kk < arcs@[a]@.len() implies #[trigger] arcs@[a]@[kk].nextstate < n by {
                if a == q {
                    assert(arcs@[a]@ == row@);
                }
            }
        }
        p = pp;
        q = q + 1;
    }
    proof {
        if has_t {
            assert(t.finals@.take(n as int) =~= t.finals@);
            assert(t.rows().take(n as int) =~= t.rows());
            assert(p == w@.len()) by {
                assert(w@.subrange(0, p as int).len() == p);
            }
        }
    }
    if p != w.len() {
        return Err(FstError::Deserialize(str_to_owned("trailing words")));
    }
    let g = Fst { start, finals, arcs };
    proof {
        assert(w@.subrange(0, p as int) =~= w@);
        assert(header_words(g) =~= hw);
        assert(g.rows() == arcs@.map_values(|v: Vec<Arc>| v@));
        assert(fst_words(g) == w@);
        assert forall|s: int, k: int| 0 <= s < g.n() && 0 <= k < g.deg(s) implies #[trigger] g.arc(s, k).nextstate < g.n() by {
            assert(g.arc(s, k) == arcs@[s]@[k]);
        }
        if has_t {
            assert(same_fst(g, t));
            assert forall|f: Fst| f.wf() && #[trigger] fst_words(f) == w@ implies same_fst(g, f) by {
                lemma_fst_words_injective(f, t);
            }
        }
    }
    Ok(g)
}

/// Two well-formed machines with the same words are the same machine.
proof fn lemma_fst_words_injective(a: Fst, b: Fst)
    requires
        a.wf(),
        b.wf(),
        fst_words(a) == fst_words(b),
        fst_words(a).len() <= usize::MAX,
    ensures
        same_fst(a, b),
{
    lemma_prefix_equal(a, b, a.n());
    assert(a.finals@.take(a.n()) =~= a.finals@);
    assert(b.finals@.take(b.n()) =~= b.finals@);
    assert(a.rows().take(a.n()) =~= a.rows());
    assert(b.rows().take(b.n()) =~= b.rows());
    assert(header_words(a)[1] == fst_words(a)[1]);
    assert(header_words(b)[1] == fst_words(b)[1]);
    assert(header_words(a)[2] == fst_words(a)[2]);
    assert(header_words(b)[2] == fst_words(b)[2]);
}

/// Machines with the same words agree on their first `q` states.
#[verifier::rlimit(50)]
proof fn lemma_prefix_equal(a: Fst, b: Fst, q: int)
    requires
        a.wf(),
        b.wf(),
        fst_words(a) == fst_words(b),
        fst_words(a).len() <= usize::MAX,
        0 <= q <= a.n(),
    ensures
        a.n() == b.n(),
        a.finals@.take(q) == b.finals@.take(q),
        a.rows().take(q) == b.rows().take(q),
    decreases q,
{
    let w = fst_words(a);
    assert(header_words(a)[0] == w[0]);
    assert(header_words(b)[0] == w[0]);
    lemma_states_words_len(a.finals@, a.rows());
    lemma_states_words_len(b.finals@, b.rows());
    assert(a.n() <= usize::MAX && b.n() <= usize::MAX);
    assert(a.n() == b.n());
    if q == 0 {
        assert(a.finals@.take(0) =~= b.finals@.take(0));
        assert(a.rows().take(0) =~= b.rows().take(0));
    } else {
        lemma_prefix_equal(a, b, q - 1);
        let i = q - 1;
        let hw = header_words(a);
        assert(header_words(b) =~= hw) by {
            assert(header_words(b)[1] == w[1]);
            assert(header_words(b)[2] == w[2]);
            assert(header_words(a)[1] == w[1]);
            assert(header_words(a)[2] == w[2]);
        }
        lemma_read_state(w, hw, a.finals@, a.rows(), i);
        lemma_read_state(w, hw, b.finals@, b.rows(), i);
        let ra = a.rows()[i];
        let rb = b.rows()[i];
        let sa = state_words(a.finals@[i], ra);
        let sb = state_words(b.finals@[i], rb);
        let p: int = (hw.len() + states_words(a.finals@.take(i), a.rows().take(i)).len()) as int;
        assert(p == hw.len() + states_words(b.finals@.take(i), b.rows().take(i)).len());
        lemma_row_words_len(ra);
        lemma_row_words_len(rb);
        assert(ra.len() <= usize::MAX && rb.len() <= usize::MAX);
        assert(sa[0] == w[p + 0]);
        assert(sb[0] == w[p + 0]);
        assert(sa[1] == w[p + 1]);
        assert(sb[1] == w[p + 1]);
        assert(ra.len() == rb.len());
        assert(a.finals@[i] == b.finals@[i]);
        assert forall|k: int| 0 <= k < ra.len() implies ra[k] == rb[k] by {
            lemma_read_arc(a.finals@[i], ra, k);
            lemma_read_arc(b.finals@[i], rb, k);
            assert(arc_words(ra[k])[0] == w[p + 2 + 3 * k + 0]);
            assert(arc_words(rb[k])[0] == w[p + 2 + 3 * k + 0]);
            assert(arc_words(ra[k])[1] == w[p + 2 + 3 * k + 1]);
            assert(arc_words(rb[k])[1] == w[p + 2 + 3 * k + 1]);
            assert(arc_words(ra[k])[2] == w[p + 2 + 3 * k + 2]);
            assert(arc_words(rb[k])[2] == w[p + 2 + 3 * k + 2]);
        }
        assert(ra =~= rb);
        assert(a.finals@.take(q) =~= a.finals@.take(i).push(a.finals@[i]));
        assert(b.finals@.take(q) =~= b.finals@.take(i).push(b.finals@[i]));
        assert(a.rows().take(q) =~= a.rows().take(i).push(ra));
        assert(b.rows().take(q) =~= b.rows().take(i).push(rb));
    }
}

/// Decode the byte encoding of a machine.
///
/// Succeeds exactly on the encodings [`serialize`] produces: the result
/// re-encodes to the input, and decoding the encoding of a well-formed
/// machine gives that machine back.
pub fn deserialize(bytes: &[u8]) -> (r: FstResult<Fst>)
    ensures
        r matches Ok(g) ==> g.wf() && fst_bytes(g) == bytes@,
        forall|f: Fst| f.wf() && #[trigger] fst_bytes(f) == bytes@ ==> (r matches Ok(g) && same_fst(g, f)),
{
    let words = match bytes_to_words(bytes) {
        Some(v) => v,
        None => {
            proof {
                assert forall|f: Fst| f.wf() && #[trigger] fst_bytes(f) == bytes@ implies false by {
                    lemma_words_bytes_len(fst_words(f));
                }
            }
            return Err(FstError::Deserialize(str_to_owned("length is not a multiple of eight")));
        },
    };
    proof {
        assert forall|f: Fst| f.wf() && #[trigger] fst_bytes(f) == bytes@ implies fst_words(f) == words@ by {
            lemma_words_bytes_injective(fst_words(f), words@);
        }
    }
    parse_words(&words)
}

} // verus!
