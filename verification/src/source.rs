//! What a byte source gives, read by read, and the input that it amounts to.
//!
//! A source is read one byte at a time, and a read may fail. A failed read
//! ends the input just as the end of the source does: the input is what was
//! read before it, and nothing that a later read might give belongs to it.

use vstd::prelude::*;

verus! {

/// What one read of a byte source gives.
#[derive(Debug, Clone, Copy, PartialEq, Eq, Structural)]
pub enum SourceRead {
    /// The next byte of the source.
    Byte(u8),
    /// The read failed.
    Failed,
}

/// The position of the first failed read at or after `p`; the number of
/// reads if there is none.
pub open spec fn first_failure(reads: Seq<SourceRead>, p: int) -> int
    decreases reads.len() - p,
{
    if 0 <= p < reads.len() && reads[p] is Byte {
        first_failure(reads, p + 1)
    } else {
        p
    }
}

/// The input that a run of reads amounts to: the bytes read before the first
/// failed read.
pub open spec fn input_of(reads: Seq<SourceRead>) -> Seq<u8> {
    Seq::new(first_failure(reads, 0) as nat, |i: int| reads[i]->Byte_0)
}

/// The reads of a source that gives `bytes` without failure.
pub open spec fn reads_of(bytes: Seq<u8>) -> Seq<SourceRead> {
    bytes.map_values(|b: u8| SourceRead::Byte(b))
}

/// Reads that all succeed up to `r` have their first failure where the reads
/// from `r` on have it.
proof fn lemma_first_failure_run(reads: Seq<SourceRead>, q: int, r: int)
    requires
        0 <= q <= r <= reads.len(),
        forall|j: int| q <= j < r ==> #[trigger] reads[j] is Byte,
    ensures
        first_failure(reads, q) == first_failure(reads, r),
    decreases r - q,
{
    if q < r {
        lemma_first_failure_run(reads, q + 1, r);
    }
}

/// A failed read is as the end of the source: whatever later reads give, the
/// input is the bytes read before the failure, as it is when the source ends
/// there.
pub proof fn theorem_failed_read_ends_input(bytes: Seq<u8>, later: Seq<SourceRead>)
    ensures
        input_of(reads_of(bytes)) == bytes,
        input_of(reads_of(bytes) + seq![SourceRead::Failed] + later) == bytes,
{
    let ended = reads_of(bytes);
    let failed = reads_of(bytes) + seq![SourceRead::Failed] + later;
    let n = bytes.len() as int;
    lemma_first_failure_run(ended, 0, n);
    assert forall|j: int| 0 <= j < n implies #[trigger] failed[j] is Byte by {
        assert(failed[j] == ended[j]);
    }
    lemma_first_failure_run(failed, 0, n);
    assert(failed[n] == SourceRead::Failed);
    assert(input_of(ended) =~= bytes);
    assert forall|j: int| 0 <= j < n implies failed[j]->Byte_0 == bytes[j] by {
        assert(failed[j] == ended[j]);
    }
    assert(input_of(failed) =~= bytes);
}

/// Gathers the input of a run of reads.
pub fn gather(reads: &Vec<SourceRead>) -> (input: Vec<u8>)
    ensures
        input@ == input_of(reads@),
{
    let mut input: Vec<u8> = Vec::new();
    let mut i: usize = 0;
    while i < reads.len()
        invariant
            i <= reads.len(),
            input@.len() == i,
            forall|j: int| 0 <= j < i ==> #[trigger] reads@[j] == SourceRead::Byte(input@[j]),
        ensures
            i <= reads.len(),
            input@.len() == i,
            forall|j: int| 0 <= j < i ==> #[trigger] reads@[j] == SourceRead::Byte(input@[j]),
            i == reads.len() || reads@[i as int] is Failed,
        decreases reads.len() - i,
    {
        match reads[i] {
            SourceRead::Byte(byte) => {
                input.push(byte);
            },
            SourceRead::Failed => {
                break ;
            },
        }
        i += 1;
    }
    proof {
        lemma_first_failure_run(reads@, 0, i as int);
        assert(input@ =~= input_of(reads@));
    }
    input
}

} // verus!
