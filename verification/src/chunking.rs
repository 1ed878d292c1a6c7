//! Cutting the file into newline-aligned chunks.
//!
//! A file of `len` bytes is cut for `n` workers at `n + 1` cut points. Cut
//! point `0` is the start of the file and cut point `n` is its end. An inner
//! cut point `i` is looked for in the window `[(i - 1) * s, i * s)`, where
//! `s = len / n` is the target chunk size: it lies just past the last newline
//! of that window. Chunk `i` is the half-open byte range from cut point `i` to
//! cut point `i + 1`, so every chunk but the last ends with a newline, and a
//! worker finds its own two cut points without hearing from its neighbours.

use vstd::prelude::*;
use vstd::slice::slice_subrange;
use vstd::utf8::{
    decode_utf8,
    decode_utf8_encode_utf8,
    encode_utf8,
    is_char_boundary,
    is_char_boundary_iff_not_is_continuation_byte,
    is_char_boundary_start_end_of_seq,
    length_of_first_scalar,
    pop_first_scalar,
    valid_utf8,
    valid_utf8_split,
};
use crate::error::PipelineError;

verus! {

/// The line terminator.
pub const NEWLINE: u8 = 10;

/// The bytes `[start, end)` of the file that make up one chunk.
#[derive(Clone, Copy, Debug, PartialEq, Eq, Structural)]
pub struct ChunkBoundary {
    pub start: usize,
    pub end: usize,
}

/// The target chunk size for a file of `len` bytes cut into `n` chunks.
pub open spec fn chunk_size(len: int, n: int) -> int {
    len / n
}

/// The offset of the last newline among `data[lo..hi]`, if there is one.
pub open spec fn last_newline(data: Seq<u8>, lo: int, hi: int) -> Option<int>
    decreases hi - lo,
{
    if hi <= lo {
        None
    } else if data[hi - 1] == NEWLINE {
        Some(hi - 1)
    } else {
        last_newline(data, lo, hi - 1)
    }
}

/// Cut point `i` of `data` cut into `n` chunks; `None` where the window of an
/// inner cut point holds no newline.
pub open spec fn cut_point(data: Seq<u8>, n: int, i: int) -> Option<int> {
    let s = chunk_size(data.len() as int, n);
    if i <= 0 {
        Some(0)
    } else if i >= n {
        Some(data.len() as int)
    } else {
        match last_newline(data, (i - 1) * s, i * s) {
            Some(p) => Some(p + 1),
            None => None,
        }
    }
}

/// The byte range of chunk `i` of `data` cut into `n` chunks; `None` where one
/// of its two cut points cannot be aligned.
pub open spec fn chunk_bounds(data: Seq<u8>, n: int, i: int) -> Option<(int, int)> {
    match (cut_point(data, n, i), cut_point(data, n, i + 1)) {
        (Some(start), Some(end)) => Some((start, end)),
        _ => None,
    }
}

/// What `last_newline` finds: a newline of the window with none after it, or
/// nothing exactly when the window holds no newline.
pub proof fn lemma_last_newline(data: Seq<u8>, lo: int, hi: int)
    ensures
        match last_newline(data, lo, hi) {
            Some(p) => lo <= p < hi && data[p] == NEWLINE && forall|q: int|
                p < q < hi ==> data[q] != NEWLINE,
            None => forall|q: int| lo <= q < hi ==> data[q] != NEWLINE,
        },
    decreases hi - lo,
{
    if hi > lo && data[hi - 1] != NEWLINE {
        lemma_last_newline(data, lo, hi - 1);
    }
}

/// Scans `data[lo..hi]` backwards for a newline.
fn scan_back(data: &[u8], lo: usize, hi: usize) -> (found: Option<usize>)
    requires
        lo <= hi <= data@.len(),
    ensures
        match last_newline(data@, lo as int, hi as int) {
            Some(p) => lo <= p < hi && found == Some(p as usize),
            None => found is None,
        },
{
    proof {
        lemma_last_newline(data@, lo as int, hi as int);
    }
    let mut p: usize = hi;
    while p > lo
        invariant
            lo <= p <= hi <= data@.len(),
            last_newline(data@, lo as int, hi as int) == last_newline(data@, lo as int, p as int),
        decreases p - lo,
    {
        if data[p - 1] == NEWLINE {
            return Some(p - 1);
        }
        p = p - 1;
    }
    None
}

/// The windows of all cut points lie inside the file.
proof fn lemma_window_in_file(len: int, n: int, i: int)
    requires
        0 <= len,
        1 <= n,
        0 <= i <= n,
    ensures
        0 <= i * (len / n) <= len,
        (i + 1) * (len / n) == i * (len / n) + len / n,
        (i - 1) * (len / n) == i * (len / n) - len / n,
{
    let s = len / n;
    assert(0 <= s && n * s <= len) by (nonlinear_arith)
        requires
            0 <= len,
            1 <= n,
            s == len / n,
    ;
    assert(0 <= i * s <= n * s) by (nonlinear_arith)
        requires
            0 <= i <= n,
            0 <= s,
    ;
    assert((i + 1) * s == i * s + s && (i - 1) * s == i * s - s) by (nonlinear_arith);
}

/// Finds the byte range of chunk `chunk_index` out of `num_chunks`.
///
/// The first chunk starts at the start of the file and the last one ends at
/// its end. Every other boundary is put just past the last newline of its
/// window. A window without a newline gives `ChunkTooSmall`: the chunk next
/// to it would be empty or would split a line.
pub fn find_boundary(data: &[u8], chunk_index: usize, num_chunks: usize) -> (found: Result<
    ChunkBoundary,
    PipelineError,
>)
    requires
        1 <= num_chunks,
        chunk_index < num_chunks,
    ensures
        match chunk_bounds(data@, num_chunks as int, chunk_index as int) {
            Some((start, end)) => found == Ok::<ChunkBoundary, PipelineError>(
                ChunkBoundary { start: start as usize, end: end as usize },
            ),
            None => found == Err::<ChunkBoundary, PipelineError>(PipelineError::ChunkTooSmall),
        },
        found matches Ok(b) ==> b.start <= b.end <= data@.len(),
        found matches Ok(b) ==> 0 < chunk_index ==> data@[b.start - 1] == NEWLINE,
        found matches Ok(b) ==> chunk_index + 1 < num_chunks ==> data@[b.end - 1] == NEWLINE,
{
    let len: usize = data.len();
    let size: usize = len / num_chunks;
    proof {
        lemma_window_in_file(len as int, num_chunks as int, chunk_index as int);
        lemma_window_in_file(len as int, num_chunks as int, chunk_index as int + 1);
    }
    let naive: usize = chunk_index * size;
    let start: usize = if chunk_index == 0 {
        0
    } else {
        match scan_back(data, naive - size, naive) {
            Some(p) => p + 1,
            None => {
                return Err(PipelineError::ChunkTooSmall);
            },
        }
    };
    let end: usize = if chunk_index == num_chunks - 1 {
        len
    } else {
        match scan_back(data, naive, naive + size) {
            Some(p) => p + 1,
            None => {
                return Err(PipelineError::ChunkTooSmall);
            },
        }
    };
    proof {
        if 0 < chunk_index {
            lemma_inner_cut(data@, num_chunks as int, chunk_index as int);
        }
        if chunk_index + 1 < num_chunks {
            lemma_inner_cut(data@, num_chunks as int, chunk_index as int + 1);
        }
    }
    Ok(ChunkBoundary { start, end })
}

/// The text that `String::from_utf8_lossy` makes of `bytes`.
pub uninterp spec fn lossy_text(bytes: Seq<u8>) -> Seq<char>;

/// Calls `String::from_utf8_lossy` and takes ownership of what it returns.
///
/// Trusted: the result is a function of the bytes alone, and bytes that are
/// valid UTF-8 come back as the text they encode. What the replacement
/// characters of an invalid input look like is left to std.
#[verifier::external_body]
fn decode_lossy(bytes: &[u8]) -> (text: String)
    ensures
        text@ == lossy_text(bytes@),
        valid_utf8(bytes@) ==> text@ == decode_utf8(bytes@),
{
    String::from_utf8_lossy(bytes).into_owned()
}

/// Reads the bytes of one chunk as text. Bytes that are not valid UTF-8 are
/// replaced, not refused; a chunk that is valid UTF-8 is read as it stands.
pub fn read_chunk(data: &[u8], boundary: ChunkBoundary) -> (text: String)
    requires
        boundary.start <= boundary.end <= data@.len(),
    ensures
        text@ == lossy_text(data@.subrange(boundary.start as int, boundary.end as int)),
        valid_utf8(data@.subrange(boundary.start as int, boundary.end as int)) ==> encode_utf8(
            text@,
        ) == data@.subrange(boundary.start as int, boundary.end as int),
{
    proof {
        let bytes = data@.subrange(boundary.start as int, boundary.end as int);
        if valid_utf8(bytes) {
            decode_utf8_encode_utf8(bytes);
        }
    }
    decode_lossy(slice_subrange(data, boundary.start, boundary.end))
}

/// The start of chunk `i`, where its bounds are defined.
pub open spec fn chunk_start(data: Seq<u8>, n: int, i: int) -> int {
    match chunk_bounds(data, n, i) {
        Some((start, _)) => start,
        None => 0,
    }
}

/// The end of chunk `i`, where its bounds are defined.
pub open spec fn chunk_end(data: Seq<u8>, n: int, i: int) -> int {
    match chunk_bounds(data, n, i) {
        Some((_, end)) => end,
        None => 0,
    }
}

/// All `n` chunks of `data` have bounds.
pub open spec fn partitions(data: Seq<u8>, n: int) -> bool {
    1 <= n && forall|i: int| 0 <= i < n ==> (#[trigger] chunk_bounds(data, n, i)) is Some
}

/// An inner cut point lies in its window, just past a newline.
proof fn lemma_inner_cut(data: Seq<u8>, n: int, i: int)
    requires
        0 < i < n,
        cut_point(data, n, i) is Some,
    ensures
        (i - 1) * chunk_size(data.len() as int, n) < cut_point(data, n, i)->0 <= i * chunk_size(
            data.len() as int,
            n,
        ) <= data.len(),
        data[cut_point(data, n, i)->0 - 1] == NEWLINE,
{
    let s = chunk_size(data.len() as int, n);
    lemma_last_newline(data, (i - 1) * s, i * s);
    lemma_window_in_file(data.len() as int, n, i);
}

/// Where a file is cut into `n` chunks, the chunks tile it: the first starts
/// at offset 0, each of the others starts where the one before it ended, and
/// the last ends at the end of the file. Every chunk but the last ends just
/// past a newline, and with more than one chunk none is empty.
pub proof fn lemma_chunks_tile_file(data: Seq<u8>, n: int)
    requires
        partitions(data, n),
    ensures
        chunk_start(data, n, 0) == 0,
        chunk_end(data, n, n - 1) == data.len(),
        forall|i: int|
            0 <= i < n - 1 ==> (#[trigger] chunk_end(data, n, i)) == chunk_start(data, n, i + 1),
        forall|i: int|
            0 <= i < n ==> 0 <= (#[trigger] chunk_start(data, n, i)) <= chunk_end(data, n, i)
                <= data.len(),
        forall|i: int|
            0 <= i < n && 1 < n ==> (#[trigger] chunk_start(data, n, i)) < chunk_end(data, n, i),
        forall|i: int|
            0 <= i < n - 1 ==> data[(#[trigger] chunk_end(data, n, i)) - 1] == NEWLINE,
{
    assert(chunk_bounds(data, n, 0) is Some);
    assert(chunk_bounds(data, n, n - 1) is Some);
    assert forall|i: int|
        #![trigger chunk_start(data, n, i)]
        #![trigger chunk_end(data, n, i)]
        0 <= i < n implies 0 <= chunk_start(data, n, i) <= chunk_end(data, n, i) <= data.len() && (1
        < n ==> chunk_start(data, n, i) < chunk_end(data, n, i)) && (i < n - 1 ==> data[chunk_end(
        data,
        n,
        i,
    ) - 1] == NEWLINE && chunk_end(data, n, i) == chunk_start(data, n, i + 1)) by {
        assert(chunk_bounds(data, n, i) is Some);
        lemma_window_in_file(data.len() as int, n, i);
        lemma_window_in_file(data.len() as int, n, i + 1);
        if 0 < i {
            lemma_inner_cut(data, n, i);
        }
        if i + 1 < n {
            lemma_inner_cut(data, n, i + 1);
            assert(chunk_bounds(data, n, i + 1) is Some);
        }
    }
}

/// Where a file is cut into `n` chunks, every byte of it lies in exactly one
/// chunk.
pub proof fn lemma_byte_in_one_chunk(data: Seq<u8>, n: int, offset: int)
    requires
        partitions(data, n),
        0 <= offset < data.len(),
    ensures
        exists|i: int|
            0 <= i < n && (#[trigger] chunk_start(data, n, i)) <= offset < chunk_end(data, n, i),
        forall|i: int, j: int|
            0 <= i < n && 0 <= j < n && (#[trigger] chunk_start(data, n, i)) <= offset < chunk_end(
                data,
                n,
                i,
            ) && (#[trigger] chunk_start(data, n, j)) <= offset < chunk_end(data, n, j) ==> i
                == j,
{
    lemma_chunks_tile_file(data, n);
    lemma_chunk_holding(data, n, offset, 0);
    assert forall|i: int, j: int|
        0 <= i < n && 0 <= j < n && (#[trigger] chunk_start(data, n, i)) <= offset < chunk_end(
            data,
            n,
            i,
        ) && (#[trigger] chunk_start(data, n, j)) <= offset < chunk_end(data, n, j) implies i
        == j by {
        if i < j {
            lemma_chunks_in_order(data, n, i, j);
        }
        if j < i {
            lemma_chunks_in_order(data, n, j, i);
        }
    }
}

/// An earlier chunk ends before a later one starts.
proof fn lemma_chunks_in_order(data: Seq<u8>, n: int, i: int, j: int)
    requires
        partitions(data, n),
        0 <= i < j < n,
    ensures
        chunk_end(data, n, i) <= chunk_start(data, n, j),
    decreases j - i,
{
    lemma_chunks_tile_file(data, n);
    assert(chunk_end(data, n, i) == chunk_start(data, n, i + 1));
    if i + 1 < j {
        lemma_chunks_in_order(data, n, i + 1, j);
        assert(chunk_start(data, n, i + 1) <= chunk_end(data, n, i + 1));
    }
}

/// A byte at or after the start of chunk `k` lies in chunk `k` or a later one.
proof fn lemma_chunk_holding(data: Seq<u8>, n: int, offset: int, k: int)
    requires
        partitions(data, n),
        0 <= k < n,
        chunk_start(data, n, k) <= offset < data.len(),
    ensures
        exists|i: int|
            k <= i < n && (#[trigger] chunk_start(data, n, i)) <= offset < chunk_end(data, n, i),
    decreases n - k,
{
    lemma_chunks_tile_file(data, n);
    if offset < chunk_end(data, n, k) {
        assert(chunk_start(data, n, k) <= offset < chunk_end(data, n, k));
    } else {
        assert(chunk_end(data, n, k) == chunk_start(data, n, k + 1));
        lemma_chunk_holding(data, n, offset, k + 1);
    }
}

/// In valid UTF-8 an ASCII byte is a character of its own: a new character
/// begins right after it.
pub proof fn lemma_boundary_after_ascii(bytes: Seq<u8>, p: int)
    requires
        valid_utf8(bytes),
        0 <= p < bytes.len(),
        bytes[p] <= 0x7f,
    ensures
        is_char_boundary(bytes, p + 1),
    decreases bytes.len(),
{
    is_char_boundary_iff_not_is_continuation_byte(bytes, p);
    reveal_with_fuel(is_char_boundary, 2);
    if p > 0 {
        let rest = pop_first_scalar(bytes);
        let first = length_of_first_scalar(bytes);
        assert(rest[p - first] == bytes[p]);
        lemma_boundary_after_ascii(rest, p - first);
    }
}

/// Where a file of valid UTF-8 is cut into `n` chunks, every chunk is valid
/// UTF-8: no character is split between two chunks.
pub proof fn lemma_chunks_of_text_are_text(data: Seq<u8>, n: int, i: int)
    requires
        valid_utf8(data),
        partitions(data, n),
        0 <= i < n,
    ensures
        valid_utf8(data.subrange(chunk_start(data, n, i), chunk_end(data, n, i))),
{
    let start = chunk_start(data, n, i);
    let end = chunk_end(data, n, i);
    lemma_chunks_tile_file(data, n);
    if i < n - 1 {
        lemma_boundary_after_ascii(data, end - 1);
    } else {
        is_char_boundary_start_end_of_seq(data);
    }
    valid_utf8_split(data, end);
    let front = data.subrange(0, end);
    if 0 < i {
        assert(0 <= chunk_start(data, n, i - 1) < chunk_end(data, n, i - 1));
        assert(chunk_end(data, n, i - 1) == chunk_start(data, n, i - 1 + 1));
        assert(data[chunk_end(data, n, i - 1) - 1] == NEWLINE);
        assert(front[start - 1] == NEWLINE);
        lemma_boundary_after_ascii(front, start - 1);
    } else {
        is_char_boundary_start_end_of_seq(front);
    }
    valid_utf8_split(front, start);
    assert(front.subrange(start, front.len() as int) =~= data.subrange(start, end));
}

} // verus!
