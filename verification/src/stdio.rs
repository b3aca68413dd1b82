//! Bounded newline-delimited messages: the decision taken on each chunk of
//! buffered input. The reader that fetches and consumes the chunks lives
//! with the I/O around the library.
use vstd::prelude::*;

verus! {

/// Largest accepted message, its newline included.
pub const MAX_MESSAGE_BYTES: usize = 4_194_304;

/// What to do with one chunk of buffered input, given the bytes of the
/// current message collected so far.
#[derive(Clone, Copy, Debug, PartialEq, Eq, Structural)]
pub enum LineStep {
    /// The chunk is empty: the stream has ended.
    EndOfStream,
    /// The first `n` bytes of the chunk, the last one a newline, complete
    /// the message.
    Complete(usize),
    /// The chunk holds no newline: all of it belongs to the message, which
    /// continues in the next chunk.
    NeedMore,
    /// Taking the chunk's part of the message would exceed the maximum.
    TooLong,
}

/// Byte `i` is the first newline of `s`.
pub open spec fn first_newline(s: Seq<u8>, i: int) -> bool {
    &&& 0 <= i < s.len()
    &&& s[i] == 10u8
    &&& forall|j: int| 0 <= j < i ==> s[j] != 10u8
}

/// `s` holds no newline.
pub open spec fn no_newline(s: Seq<u8>) -> bool {
    forall|j: int| 0 <= j < s.len() ==> s[j] != 10u8
}

/// The step for a chunk `available` when `pending` bytes of the message are
/// already collected and a message may hold `max` bytes.
pub open spec fn line_step_of(pending: int, available: Seq<u8>, max: int, r: LineStep) -> bool {
    if available.len() == 0 {
        r == LineStep::EndOfStream
    } else {
        match r {
            LineStep::Complete(n) => first_newline(available, n - 1) && pending + n <= max,
            LineStep::NeedMore => no_newline(available) && pending + available.len() <= max,
            LineStep::TooLong => (exists|i: int| first_newline(available, i) && pending + i + 1 > max) || (
            no_newline(available) && pending + available.len() > max),
            LineStep::EndOfStream => false,
        }
    }
}

/// How much of `available` belongs to the current line: up to the first
/// newline, inclusive.
fn line_prefix(available: &[u8]) -> (r: (usize, bool))
    ensures
        r.1 ==> first_newline(available@, r.0 - 1),
        !r.1 ==> r.0 == available@.len() && no_newline(available@),
{
    let mut i: usize = 0;
    while i < available.len()
        invariant
            i <= available@.len(),
            forall|j: int| 0 <= j < i ==> available@[j] != 10u8,
        decreases available@.len() - i,
    {
        if available[i] == 10 {
            return (i + 1, true);
        }
        i = i + 1;
    }
    (i, false)
}

/// Decides what a chunk of buffered input does to the message being read:
/// an empty chunk ends the stream; otherwise the chunk's part of the
/// message runs to its first newline, inclusive, or through its end, and
/// is refused when the message would then exceed `max` bytes.
pub fn line_step(pending_len: usize, available: &[u8], max: usize) -> (r: LineStep)
    ensures
        line_step_of(pending_len as int, available@, max as int, r),
{
    if available.len() == 0 {
        return LineStep::EndOfStream;
    }
    let (consumed, complete) = line_prefix(available);
    if pending_len > max || consumed > max - pending_len {
        return LineStep::TooLong;
    }
    if complete {
        LineStep::Complete(consumed)
    } else {
        LineStep::NeedMore
    }
}

} // verus!
