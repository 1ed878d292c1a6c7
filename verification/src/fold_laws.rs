//! Why the cut of the file and the order of arrival do not matter.
//!
//! The readers send their chunks in no fixed order, and the file may be cut
//! into any number of chunks. The laws below show that the table at the end of
//! a run is that of the whole file read line by line, whatever the cut and
//! whatever the order.

use vstd::prelude::*;
use vstd::seq_lib::{commutative_foldl, lemma_fold_left_permutation};
use crate::aggregate::{
    after_first_line,
    first_line,
    fold_chunks,
    fold_line,
    fold_lines,
    fold_text,
    line_step,
    lines_of,
    parse_line,
    text_step,
    LineOutcome,
    Tally,
};
use crate::bytes::{first_from, lemma_first_from, lemma_first_from_is};
use crate::chunking::{chunk_end, chunk_start, lemma_chunks_tile_file, partitions, NEWLINE};
use crate::table::{lemma_observe_commutes, observe, Ledger};

verus! {

/// The text is empty or ends with a newline: no line of it is left open.
pub open spec fn terminated(text: Seq<u8>) -> bool {
    text.len() == 0 || text.last() == NEWLINE
}

/// The texts of the `n` chunks of `data`, in the order of the file.
pub open spec fn chunk_texts(data: Seq<u8>, n: int) -> Seq<Seq<u8>> {
    Seq::new(n as nat, |i: int| data.subrange(chunk_start(data, n, i), chunk_end(data, n, i)))
}

/// The lines of a text that leaves no line open, followed by another text,
/// are the lines of the one and then the lines of the other.
pub proof fn lemma_lines_of_concat(a: Seq<u8>, b: Seq<u8>)
    requires
        terminated(a),
    ensures
        lines_of(a + b) == lines_of(a) + lines_of(b),
    decreases a.len(),
{
    if a.len() == 0 {
        assert(a + b =~= b);
        assert(lines_of(a) + lines_of(b) =~= lines_of(b));
    } else {
        let whole = a + b;
        let end = first_from(a, NEWLINE, 0);
        lemma_first_from(a, NEWLINE, 0);
        assert(end < a.len());
        lemma_first_from_is(whole, NEWLINE, 0, end);
        assert(first_line(whole) =~= first_line(a));
        assert(after_first_line(whole) =~= after_first_line(a) + b);
        lemma_lines_of_concat(after_first_line(a), b);
        assert(lines_of(whole) =~= lines_of(a) + lines_of(b));
    }
}

/// A text that leaves no line open can be folded apart from what follows it.
pub proof fn lemma_fold_text_concat(tally: Tally, a: Seq<u8>, b: Seq<u8>)
    requires
        terminated(a),
    ensures
        fold_text(tally, a + b) == fold_text(fold_text(tally, a), b),
{
    let la = lines_of(a);
    let lb = lines_of(b);
    lemma_lines_of_concat(a, b);
    (la + lb).lemma_fold_left_split(tally, line_step(), la.len() as int);
    assert((la + lb).subrange(0, la.len() as int) =~= la);
    assert((la + lb).subrange(la.len() as int, (la + lb).len() as int) =~= lb);
}

/// Chunks that leave no line open make up a text that leaves no line open.
proof fn lemma_terminated_flatten(chunks: Seq<Seq<u8>>)
    requires
        forall|i: int| 0 <= i < chunks.len() ==> terminated(#[trigger] chunks[i]),
    ensures
        terminated(chunks.flatten()),
    decreases chunks.len(),
{
    if chunks.len() > 0 {
        let front = chunks.drop_last();
        lemma_terminated_flatten(front);
        front.lemma_flatten_push(chunks.last());
        assert(front.push(chunks.last()) =~= chunks);
        assert(terminated(chunks.last()));
        if chunks.last().len() == 0 {
            assert(front.flatten() + chunks.last() =~= front.flatten());
        }
    }
}

/// Folding chunks one after the other is folding the text they make up,
/// where every chunk but the last leaves no line open.
pub proof fn lemma_fold_chunks_is_fold_text(tally: Tally, chunks: Seq<Seq<u8>>)
    requires
        forall|i: int| 0 <= i < chunks.len() - 1 ==> terminated(#[trigger] chunks[i]),
    ensures
        fold_chunks(tally, chunks) == fold_text(tally, chunks.flatten()),
    decreases chunks.len(),
{
    if chunks.len() == 0 {
        assert(lines_of(chunks.flatten()) =~= Seq::<Seq<u8>>::empty());
    } else {
        let front = chunks.drop_last();
        lemma_fold_chunks_is_fold_text(tally, front);
        lemma_terminated_flatten(front);
        lemma_fold_text_concat(tally, front.flatten(), chunks.last());
        front.lemma_flatten_push(chunks.last());
        assert(front.push(chunks.last()) =~= chunks);
    }
}

/// The chunks of a file, put together in the order of the file, are the file.
pub proof fn lemma_chunk_texts_make_file(data: Seq<u8>, n: int)
    requires
        partitions(data, n),
    ensures
        chunk_texts(data, n).flatten() == data,
        forall|i: int| 0 <= i < n - 1 ==> terminated(#[trigger] chunk_texts(data, n)[i]),
{
    lemma_chunks_tile_file(data, n);
    lemma_chunk_texts_prefix(data, n, n);
    assert(chunk_texts(data, n).take(n) =~= chunk_texts(data, n));
    assert(data.subrange(0, data.len() as int) =~= data);
    assert forall|i: int| 0 <= i < n - 1 implies terminated(#[trigger] chunk_texts(data, n)[i]) by {
        assert(data[chunk_end(data, n, i) - 1] == NEWLINE);
        assert(chunk_start(data, n, i) < chunk_end(data, n, i));
    }
}

/// The first `k` chunks of a file make up the file as far as chunk `k`.
proof fn lemma_chunk_texts_prefix(data: Seq<u8>, n: int, k: int)
    requires
        partitions(data, n),
        0 <= k <= n,
    ensures
        chunk_texts(data, n).take(k).flatten() == data.subrange(
            0,
            if k == 0 {
                0
            } else {
                chunk_end(data, n, k - 1)
            },
        ),
    decreases k,
{
    let texts = chunk_texts(data, n);
    lemma_chunks_tile_file(data, n);
    if k == 0 {
        assert(texts.take(0).flatten() =~= data.subrange(0, 0));
    } else {
        lemma_chunk_texts_prefix(data, n, k - 1);
        let front = texts.take(k - 1);
        front.lemma_flatten_push(texts[k - 1]);
        assert(front.push(texts[k - 1]) =~= texts.take(k));
        if k > 1 {
            assert(chunk_end(data, n, k - 2) == chunk_start(data, n, k - 1));
        }
        assert(0 <= chunk_start(data, n, k - 1) <= chunk_end(data, n, k - 1) <= data.len());
        assert(front.flatten() + texts[k - 1] =~= data.subrange(0, chunk_end(data, n, k - 1)));
    }
}

/// Folding the chunks of a file in the order of the file is folding the file:
/// the number of chunks does not show in the result.
pub proof fn lemma_cut_is_invisible(tally: Tally, data: Seq<u8>, n: int)
    requires
        partitions(data, n),
    ensures
        fold_chunks(tally, chunk_texts(data, n)) == fold_text(tally, data),
{
    lemma_chunk_texts_make_file(data, n);
    lemma_fold_chunks_is_fold_text(tally, chunk_texts(data, n));
}

/// One line taken by a run of which only the outcome is kept.
pub open spec fn advance(state: Option<(Ledger, nat)>, line: Seq<u8>) -> Option<(Ledger, nat)> {
    match state {
        None => None,
        Some((ledger, readings)) => match parse_line(line) {
            LineOutcome::Skipped => Some((ledger, readings)),
            LineOutcome::Malformed => None,
            LineOutcome::Reading { key, value } => Some(
                (observe(ledger, key, value), readings + 1),
            ),
        },
    }
}

/// `advance` as a step of a fold.
pub open spec fn advance_step() -> spec_fn(Option<(Ledger, nat)>, Seq<u8>) -> Option<(Ledger, nat)> {
    |state: Option<(Ledger, nat)>, line: Seq<u8>| advance(state, line)
}

/// The lines of one text taken by a run of which only the outcome is kept.
pub open spec fn advance_text(state: Option<(Ledger, nat)>, text: Seq<u8>) -> Option<
    (Ledger, nat),
> {
    lines_of(text).fold_left(state, advance_step())
}

/// `advance_text` as a step of a fold.
pub open spec fn advance_text_step() -> spec_fn(Option<(Ledger, nat)>, Seq<u8>) -> Option<(Ledger, nat)> {
    |state: Option<(Ledger, nat)>, text: Seq<u8>| advance_text(state, text)
}

/// The outcome of folding lines is the fold of `advance` over them.
proof fn lemma_settled_lines(tally: Tally, lines: Seq<Seq<u8>>)
    ensures
        fold_lines(tally, lines).settled() == lines.fold_left(tally.settled(), advance_step()),
    decreases lines.len(),
{
    if lines.len() > 0 {
        lemma_settled_lines(tally, lines.drop_last());
    }
}

/// The outcome of folding chunks is the fold of `advance_text` over them.
proof fn lemma_settled_chunks(tally: Tally, chunks: Seq<Seq<u8>>)
    ensures
        fold_chunks(tally, chunks).settled() == chunks.fold_left(
            tally.settled(),
            advance_text_step(),
        ),
    decreases chunks.len(),
{
    if chunks.len() > 0 {
        lemma_settled_chunks(tally, chunks.drop_last());
        lemma_settled_lines(fold_chunks(tally, chunks.drop_last()), lines_of(chunks.last()));
    }
}

/// Two lines can be taken in either order.
proof fn lemma_advance_commutes()
    ensures
        commutative_foldl(advance_step()),
{
    let f = advance_step();
    assert forall|x: Seq<u8>, y: Seq<u8>, v: Option<(Ledger, nat)>| #[trigger]
        f(f(v, x), y) == f(f(v, y), x) by {
        if let Some((ledger, readings)) = v {
            if let LineOutcome::Reading { key: k1, value: v1 } = parse_line(x) {
                if let LineOutcome::Reading { key: k2, value: v2 } = parse_line(y) {
                    lemma_observe_commutes(ledger, k1, v1, k2, v2);
                }
            }
        }
    }
}

/// Two texts can be taken in either order.
proof fn lemma_advance_text_commutes()
    ensures
        commutative_foldl(advance_text_step()),
{
    let f = advance_text_step();
    assert forall|x: Seq<u8>, y: Seq<u8>, v: Option<(Ledger, nat)>| #[trigger]
        f(f(v, x), y) == f(f(v, y), x) by {
        let lx = lines_of(x);
        let ly = lines_of(y);
        (lx + ly).lemma_fold_left_split(v, advance_step(), lx.len() as int);
        assert((lx + ly).subrange(0, lx.len() as int) =~= lx);
        assert((lx + ly).subrange(lx.len() as int, (lx + ly).len() as int) =~= ly);
        (ly + lx).lemma_fold_left_split(v, advance_step(), ly.len() as int);
        assert((ly + lx).subrange(0, ly.len() as int) =~= ly);
        assert((ly + lx).subrange(ly.len() as int, (ly + lx).len() as int) =~= lx);
        vstd::seq_lib::lemma_seq_union_to_multiset_commutative(lx, ly);
        lemma_advance_commutes();
        lemma_fold_left_permutation(lx + ly, ly + lx, advance_step(), v);
    }
}

/// The outcome of a run depends on which lines it takes and how often, not
/// on their order.
pub proof fn lemma_line_order_is_invisible(tally: Tally, first: Seq<Seq<u8>>, second: Seq<Seq<u8>>)
    requires
        first.to_multiset() == second.to_multiset(),
    ensures
        fold_lines(tally, first).settled() == fold_lines(tally, second).settled(),
{
    lemma_settled_lines(tally, first);
    lemma_settled_lines(tally, second);
    lemma_advance_commutes();
    lemma_fold_left_permutation(first, second, advance_step(), tally.settled());
}

/// The outcome of a run depends on which chunks it takes and how often, not
/// on the order in which they arrive.
pub proof fn lemma_chunk_order_is_invisible(
    tally: Tally,
    first: Seq<Seq<u8>>,
    second: Seq<Seq<u8>>,
)
    requires
        first.to_multiset() == second.to_multiset(),
    ensures
        fold_chunks(tally, first).settled() == fold_chunks(tally, second).settled(),
{
    lemma_settled_chunks(tally, first);
    lemma_settled_chunks(tally, second);
    lemma_advance_text_commutes();
    lemma_fold_left_permutation(first, second, advance_text_step(), tally.settled());
}

/// However a file is cut into chunks, and in whatever order the chunks
/// arrive, the outcome is that of reading the whole file line by line.
pub proof fn lemma_partition_is_invisible(
    tally: Tally,
    data: Seq<u8>,
    n: int,
    arrival: Seq<Seq<u8>>,
)
    requires
        partitions(data, n),
        arrival.to_multiset() == chunk_texts(data, n).to_multiset(),
    ensures
        fold_chunks(tally, arrival).settled() == fold_text(tally, data).settled(),
{
    lemma_chunk_order_is_invisible(tally, arrival, chunk_texts(data, n));
    lemma_cut_is_invisible(tally, data, n);
}

} // verus!
