//! The seqlock of the region: optimistic readers, one writer at a time.
//!
//! Two words in shared memory: the sequence number, which is odd while a
//! writer is active, and the writer's spinlock. A reader notes the sequence
//! number when it is even, reads, and checks that the number has not moved.
//! The calls here spin for a bounded number of rounds; a caller that wants
//! to wait repeats them.

use std::sync::atomic::{AtomicU32, AtomicU64, Ordering};
use vstd::prelude::*;

verus! {

/// Size in bytes of the lock area: one cache line.
pub const LOCK_SIZE: usize = 64;

/// Offset of the sequence number in the lock area.
pub const SEQ_OFFSET: usize = 0;

/// Offset of the writer's spinlock in the lock area.
pub const WRITE_LOCK_OFFSET: usize = 8;

/// The seqlock over the two words of the lock area.
pub struct ShmSeqLock<'a> {
    seq: &'a AtomicU64,
    write_lock: &'a AtomicU32,
}

/// Issues an acquire fence with `std::sync::atomic::fence`.
#[verifier::external_body]
fn acquire_fence() {
    std::sync::atomic::fence(Ordering::Acquire);
}

/// Tells the processor that the caller is spinning, with
/// `std::hint::spin_loop`.
#[verifier::external_body]
fn spin_hint() {
    std::hint::spin_loop();
}

/// Whether a sequence number is that of a writer-free state.
pub open spec fn is_quiet(seq: u64) -> bool {
    seq & 1 == 0
}

/// Whether a read that began at `seq_begin` is valid when the sequence
/// number reads `seq_now` at its end.
pub fn read_is_valid(seq_begin: u64, seq_now: u64) -> (valid: bool)
    ensures
        valid == (seq_begin == seq_now),
{
    seq_begin == seq_now
}

/// Whether a sequence number is even.
pub fn seq_is_quiet(seq: u64) -> (quiet: bool)
    ensures
        quiet == is_quiet(seq),
{
    seq & 1 == 0
}

/// The sequence number after a writer has entered or left: one more,
/// wrapping.
pub fn next_seq(seq: u64) -> (next: u64)
    ensures
        next == (if seq == u64::MAX {
            0
        } else {
            (seq + 1) as u64
        }),
        is_quiet(next) != is_quiet(seq),
{
    let next = if seq == u64::MAX {
        0
    } else {
        seq + 1
    };
    assert((next & 1 == 0) != (seq & 1 == 0)) by (bit_vector)
        requires
            next == (if seq == 0xffff_ffff_ffff_ffffu64 {
                0u64
            } else {
                (seq + 1) as u64
            }),
    ;
    next
}

impl<'a> ShmSeqLock<'a> {
    /// Sets up the lock in a fresh lock area: sequence number 0, no writer.
    /// The lock that comes back works on the two words given.
    pub fn init(seq: &'a AtomicU64, write_lock: &'a AtomicU32) -> (lock: Self)
        ensures
            lock.seq_word() == seq,
            lock.lock_word() == write_lock,
    {
        seq.store(0, Ordering::Relaxed);
        write_lock.store(0, Ordering::Relaxed);
        ShmSeqLock { seq, write_lock }
    }

    /// Attaches to a lock that has been set up: the lock that comes back
    /// works on the two words given, which are left as they are.
    pub fn from_existing(seq: &'a AtomicU64, write_lock: &'a AtomicU32) -> (lock: Self)
        ensures
            lock.seq_word() == seq,
            lock.lock_word() == write_lock,
    {
        ShmSeqLock { seq, write_lock }
    }

    /// Begins an optimistic read: loads the sequence number until it is
    /// even, for at most `spins` rounds after the first. Returns the even
    /// number, or `None` if a writer was active in every round.
    pub fn read_begin(&self, spins: u32) -> (r: Option<u64>)
        ensures
            r matches Some(seq) ==> is_quiet(seq),
    {
        let mut round: u32 = 0;
        loop
            invariant
                round <= spins,
            decreases spins - round,
        {
            let seq = self.seq.load(Ordering::Acquire);
            if seq_is_quiet(seq) {
                return Some(seq);
            }
            if round == spins {
                return None;
            }
            spin_hint();
            round += 1;
        }
    }

    /// Ends an optimistic read that began at `seq`: says whether the
    /// sequence number is still `seq`, after an acquire fence that keeps
    /// the reads of the data before the check.
    pub fn read_validate(&self, seq: u64) -> (valid: bool) {
        acquire_fence();
        let current = self.seq.load(Ordering::Relaxed);
        read_is_valid(seq, current)
    }

    /// Tries to take the writer lock: waits for the spinlock to read free,
    /// for at most `spins` rounds after the first, then tries to take it.
    /// On success the sequence number goes up by one and is odd for the
    /// time of the write. Returns whether the lock was taken.
    pub fn write_lock(&self, spins: u32) -> (taken: bool) {
        let mut round: u32 = 0;
        loop
            invariant
                round <= spins,
            decreases spins - round,
        {
            if word_is_free(self.write_lock.load(Ordering::Relaxed)) {
                if self.write_lock.compare_exchange_weak(
                    0,
                    1,
                    Ordering::Acquire,
                    Ordering::Relaxed,
                ).is_ok() {
                    let prev = self.seq.load(Ordering::Relaxed);
                    self.seq.store(next_seq(prev), Ordering::Release);
                    return true;
                }
            }
            if round == spins {
                return false;
            }
            spin_hint();
            round += 1;
        }
    }

    /// Releases the writer lock: the sequence number goes up by one and is
    /// even again, then the spinlock is freed.
    pub fn write_unlock(&self) {
        let prev = self.seq.load(Ordering::Relaxed);
        self.seq.store(next_seq(prev), Ordering::Release);
        self.write_lock.store(0, Ordering::Release);
    }

    /// The word that holds the sequence number.
    pub closed spec fn seq_word(&self) -> &'a AtomicU64 {
        self.seq
    }

    /// The word that holds the writer's spinlock.
    pub closed spec fn lock_word(&self) -> &'a AtomicU32 {
        self.write_lock
    }
}

/// Whether the writer's spinlock, read as `word`, is free.
pub fn word_is_free(word: u32) -> (free: bool)
    ensures
        free == (word == 0),
{
    word == 0
}

/// The shared state as the protocol sees it: the sequence number, whether a
/// writer holds the lock, and the data that the lock protects.
pub struct LockedData {
    pub seq: int,
    pub writer: bool,
    pub data: Seq<u8>,
}

/// A state in which the sequence number is odd exactly while a writer
/// holds the lock.
pub open spec fn state_inv(s: LockedData) -> bool {
    s.writer <==> s.seq % 2 != 0
}

/// One step of the processes that follow the protocol: a writer takes the
/// lock, a writer that holds the lock changes the data, a writer releases
/// the lock, or nothing changes.
pub open spec fn protocol_step(a: LockedData, b: LockedData) -> bool {
    ||| (!a.writer && b.writer && b.seq == a.seq + 1 && b.data == a.data)
    ||| (a.writer && b.writer && b.seq == a.seq)
    ||| (a.writer && !b.writer && b.seq == a.seq + 1 && b.data == a.data)
    ||| b == a
}

/// A history of the shared state in which every step follows the protocol.
pub open spec fn protocol_trace(t: Seq<LockedData>) -> bool {
    &&& t.len() > 0
    &&& state_inv(t[0])
    &&& forall|i: int, j: int|
        0 <= i && j == i + 1 && j < t.len() ==> protocol_step(#[trigger] t[i], #[trigger] t[j])
}

/// Along a history the invariant holds and the sequence number does not go
/// down.
pub proof fn lemma_trace_monotone(t: Seq<LockedData>, i: int, j: int)
    requires
        protocol_trace(t),
        0 <= i <= j < t.len(),
    ensures
        state_inv(t[i]),
        state_inv(t[j]),
        t[i].seq <= t[j].seq,
    decreases j,
{
    if j > 0 {
        if i < j {
            lemma_trace_monotone(t, i, j - 1);
        }
        lemma_trace_monotone(t, 0, j - 1);
        assert(protocol_step(t[j - 1], t[j]));
    }
}

/// A validated read saw one state: if the sequence number is even at the
/// begin of a read and the same at its end, no writer was active at any
/// moment of the read, and the data was the same at every moment of it.
pub proof fn lemma_validated_read(t: Seq<LockedData>, begin: int, end: int, at: int)
    requires
        protocol_trace(t),
        0 <= begin <= at <= end < t.len(),
        t[begin].seq % 2 == 0,
        t[end].seq == t[begin].seq,
    ensures
        !t[at].writer,
        t[at].seq == t[begin].seq,
        t[at].data == t[begin].data,
    decreases at - begin,
{
    lemma_trace_monotone(t, begin, at);
    lemma_trace_monotone(t, at, end);
    if at > begin {
        lemma_validated_read(t, begin, end, at - 1);
        assert(protocol_step(t[at - 1], t[at]));
    }
}

} // verus!
