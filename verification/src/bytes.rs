//! Searching a run of bytes for a delimiter.

use vstd::prelude::*;

verus! {

/// The offset of the first `byte` of `text` at or after `from`; the length of
/// `text` where there is none.
pub open spec fn first_from(text: Seq<u8>, byte: u8, from: int) -> int
    decreases text.len() - from,
{
    if from >= text.len() {
        text.len() as int
    } else if text[from] == byte {
        from
    } else {
        first_from(text, byte, from + 1)
    }
}

/// What `first_from` finds: no `byte` lies between `from` and the offset it
/// gives, and that offset holds a `byte` unless it is the end of the text.
pub proof fn lemma_first_from(text: Seq<u8>, byte: u8, from: int)
    requires
        0 <= from <= text.len(),
    ensures
        from <= first_from(text, byte, from) <= text.len(),
        first_from(text, byte, from) < text.len() ==> text[first_from(text, byte, from)] == byte,
        forall|i: int| from <= i < first_from(text, byte, from) ==> text[i] != byte,
    decreases text.len() - from,
{
    if from < text.len() && text[from] != byte {
        lemma_first_from(text, byte, from + 1);
    }
}

/// An offset with a `byte` or the end of the text at it, and no `byte` between
/// `from` and it, is the one that `first_from` gives.
pub proof fn lemma_first_from_is(text: Seq<u8>, byte: u8, from: int, at: int)
    requires
        0 <= from <= at <= text.len(),
        at < text.len() ==> text[at] == byte,
        forall|i: int| from <= i < at ==> text[i] != byte,
    ensures
        first_from(text, byte, from) == at,
    decreases at - from,
{
    if from < at {
        lemma_first_from_is(text, byte, from + 1, at);
    }
}

/// Searching the tail of a text is searching the text from where the tail
/// begins.
pub proof fn lemma_first_from_tail(text: Seq<u8>, byte: u8, from: int)
    requires
        0 <= from <= text.len(),
    ensures
        first_from(text.subrange(from, text.len() as int), byte, 0) == first_from(text, byte, from)
            - from,
{
    let tail = text.subrange(from, text.len() as int);
    lemma_first_from(text, byte, from);
    lemma_first_from_is(tail, byte, 0, first_from(text, byte, from) - from);
}

/// Searches `text[from..]` for `byte`.
pub fn find_byte(text: &[u8], byte: u8, from: usize) -> (at: usize)
    requires
        from <= text@.len(),
    ensures
        at == first_from(text@, byte, from as int),
        from <= at <= text@.len(),
{
    let mut at: usize = from;
    while at < text.len() && text[at] != byte
        invariant
            from <= at <= text@.len(),
            first_from(text@, byte, from as int) == first_from(text@, byte, at as int),
        decreases text@.len() - at,
    {
        at = at + 1;
    }
    at
}

/// Compares two runs of bytes.
pub fn same_bytes(a: &[u8], b: &[u8]) -> (same: bool)
    ensures
        same == (a@ == b@),
{
    if a.len() != b.len() {
        return false;
    }
    let mut i: usize = 0;
    while i < a.len()
        invariant
            i <= a@.len(),
            a@.len() == b@.len(),
            forall|j: int| 0 <= j < i ==> a@[j] == b@[j],
        decreases a@.len() - i,
    {
        if a[i] != b[i] {
            return false;
        }
        i = i + 1;
    }
    assert(a@ =~= b@);
    true
}

} // verus!
