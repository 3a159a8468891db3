use vstd::prelude::*;

verus! {

/// A zero-based (line, character) coordinate into a document's text.
#[derive(Clone, Copy, Debug, PartialEq, Eq, Structural)]
pub struct Position {
    pub line: u32,
    pub character: u32,
}

/// A pair of positions. Nothing forces `start` to come before `end`.
#[derive(Clone, Copy, Debug, PartialEq, Eq, Structural)]
pub struct Range {
    pub start: Position,
    pub end: Position,
}

pub const NEWLINE: u8 = 10;

/// Byte offsets at which lines begin: offset 0, then the offset just past
/// every newline byte, in increasing order.
pub open spec fn line_starts(bytes: Seq<u8>) -> Seq<int>
    decreases bytes.len(),
{
    if bytes.len() == 0 {
        seq![0int]
    } else {
        let before = line_starts(bytes.drop_last());
        if bytes.last() == NEWLINE {
            before.push(bytes.len() as int)
        } else {
            before
        }
    }
}

/// Every recorded line start lies within the text.
pub proof fn lemma_line_starts_bounded(bytes: Seq<u8>)
    ensures
        line_starts(bytes).len() >= 1,
        forall|j: int|
            0 <= j < line_starts(bytes).len() ==> 0 <= #[trigger] line_starts(bytes)[j]
                <= bytes.len(),
    decreases bytes.len(),
{
    if bytes.len() > 0 {
        lemma_line_starts_bounded(bytes.drop_last());
    }
}

/// The raw byte offset of `p`: the start of its line plus its character count,
/// or `None` when the line is beyond the text. The character count is added
/// to the line's byte offset as it is, which counts characters correctly only
/// on lines of single-byte characters; a count that lands inside a multi-byte
/// character is rejected where the offset is resolved.
pub open spec fn raw_offset(bytes: Seq<u8>, p: Position) -> Option<int> {
    let starts = line_starts(bytes);
    if (p.line as int) < starts.len() {
        Some(starts[p.line as int] + p.character as int)
    } else {
        None
    }
}

/// Builds the line-start table of `bytes`.
pub fn line_start_table(bytes: &[u8]) -> (r: Vec<usize>)
    ensures
        r@.len() == line_starts(bytes@).len(),
        forall|j: int| 0 <= j < r@.len() ==> r@[j] as int == #[trigger] line_starts(bytes@)[j],
{
    let mut starts: Vec<usize> = Vec::new();
    starts.push(0);
    let mut i: usize = 0;
    while i < bytes.len()
        invariant
            0 <= i <= bytes@.len(),
            starts@.len() == line_starts(bytes@.subrange(0, i as int)).len(),
            forall|j: int|
                0 <= j < starts@.len() ==> starts@[j] as int == #[trigger] line_starts(
                    bytes@.subrange(0, i as int),
                )[j],
        decreases bytes@.len() - i,
    {
        proof {
            let next = bytes@.subrange(0, i + 1);
            assert(next.drop_last() =~= bytes@.subrange(0, i as int));
            assert(next.last() == bytes@[i as int]);
        }
        if bytes[i] == NEWLINE {
            starts.push(i + 1);
        }
        i = i + 1;
    }
    assert(bytes@.subrange(0, bytes@.len() as int) =~= bytes@);
    starts
}

} // verus!
