//! The order in which queued work runs: higher priority first, and
//! first-come first-served among equal priorities.

use vstd::prelude::*;

verus! {

/// Job priority: a preview request outranks validation, which outranks
/// reconstruction, which outranks scanning.
#[derive(Clone, Copy, PartialEq, Eq, Structural, Debug)]
pub enum Priority {
    Scanning,
    Reconstruction,
    Validation,
    PreviewRequest,
}

pub open spec fn rank(p: Priority) -> int {
    match p {
        Priority::Scanning => 0,
        Priority::Reconstruction => 1,
        Priority::Validation => 2,
        Priority::PreviewRequest => 3,
    }
}

fn rank_exec(p: Priority) -> (r: u8)
    ensures
        r == rank(p),
{
    match p {
        Priority::Scanning => 0,
        Priority::Reconstruction => 1,
        Priority::Validation => 2,
        Priority::PreviewRequest => 3,
    }
}

/// Entry `a` runs before entry `b`: higher priority, or equal priority and
/// submitted earlier.
pub open spec fn runs_before(a: (Priority, u64), b: (Priority, u64)) -> bool {
    rank(a.0) > rank(b.0) || (rank(a.0) == rank(b.0) && a.1 < b.1)
}

/// Queued work, each entry a priority and a submission number.
pub struct JobQueue {
    entries: Vec<(Priority, u64)>,
    next_seq: u64,
}

impl View for JobQueue {
    type V = Seq<(Priority, u64)>;

    closed spec fn view(&self) -> Seq<(Priority, u64)> {
        self.entries@
    }
}

impl JobQueue {
    /// The number the next submission gets is above every queued one.
    #[verifier::type_invariant]
    closed spec fn seqs_below_next(&self) -> bool {
        forall|i: int| 0 <= i < self.entries@.len() ==> (#[trigger] self.entries@[i]).1 < self.next_seq
    }

    /// The submission number the next submission gets.
    pub closed spec fn next(&self) -> u64 {
        self.next_seq
    }

    /// An empty queue.
    pub fn new() -> (r: Self)
        ensures
            r@.len() == 0,
            r.next() == 1,
    {
        JobQueue { entries: Vec::new(), next_seq: 1 }
    }

    /// Queues work of `priority`, numbering it after everything submitted
    /// so far, and returns its number.
    pub fn submit(&mut self, priority: Priority) -> (seq: u64)
        requires
            old(self).next() < u64::MAX,
        ensures
            seq == old(self).next(),
            final(self)@ == old(self)@.push((priority, seq)),
            final(self).next() == seq + 1,
    {
        proof {
            use_type_invariant(&*self);
        }
        let seq = self.next_seq;
        let mut e: Vec<(Priority, u64)> = Vec::new();
        std::mem::swap(&mut e, &mut self.entries);
        let ghost before = e@;
        e.push((priority, seq));
        proof {
            assert forall|i: int| 0 <= i < e@.len() implies (#[trigger] e@[i]).1 < seq + 1 by {
                if i < before.len() {
                    assert(e@[i] == before[i]);
                }
            }
        }
        *self = JobQueue { entries: e, next_seq: seq + 1 };
        seq
    }

    /// Whether another submission can still be numbered.
    pub fn can_submit(&self) -> (r: bool)
        ensures
            r == (self.next() < u64::MAX),
    {
        self.next_seq < u64::MAX
    }

    /// How many entries are queued.
    pub fn queue_depth(&self) -> (r: usize)
        ensures
            r == self@.len(),
    {
        self.entries.len()
    }

    /// Takes the entry that runs first: none runs before it.
    pub fn pop(&mut self) -> (r: Option<(Priority, u64)>)
        ensures
            final(self).next() == old(self).next(),
            match r {
                None => old(self)@.len() == 0 && final(self)@.len() == 0,
                Some(e) => exists|i: int| {
                    &&& 0 <= i < old(self)@.len()
                    &&& #[trigger] old(self)@[i] == e
                    &&& final(self)@ == old(self)@.remove(i)
                    &&& forall|j: int| 0 <= j < old(self)@.len() ==> !runs_before(#[trigger] old(self)@[j], e)
                },
            },
    {
        proof {
            use_type_invariant(&*self);
        }
        if self.entries.len() == 0 {
            return None;
        }
        let mut best: usize = 0;
        let mut k: usize = 1;
        while k < self.entries.len()
            invariant
                1 <= k <= self.entries@.len(),
                best < k,
                forall|j: int| 0 <= j < k ==> !runs_before(#[trigger] self.entries@[j], self.entries@[best as int]),
            decreases self.entries@.len() - k,
        {
            let (p, s) = self.entries[k];
            let (bp, bs) = self.entries[best];
            let rp = rank_exec(p);
            let rb = rank_exec(bp);
            if rp > rb || (rp == rb && s < bs) {
                best = k;
            }
            k = k + 1;
        }
        let next = self.next_seq;
        let mut e: Vec<(Priority, u64)> = Vec::new();
        std::mem::swap(&mut e, &mut self.entries);
        let ghost before = e@;
        let r = e.remove(best);
        proof {
            assert(before[best as int] == r);
            assert(old(self)@[best as int] == r);
            assert forall|i: int| 0 <= i < e@.len() implies (#[trigger] e@[i]).1 < next by {
                if i < best {
                    assert(e@[i] == before[i]);
                } else {
                    assert(e@[i] == before[i + 1]);
                }
            }
        }
        *self = JobQueue { entries: e, next_seq: next };
        Some(r)
    }
}

/// Of two queued entries, the one with higher priority runs first, and of
/// two with equal priority the one submitted first.
pub proof fn law_priority_then_fifo(a: (Priority, u64), b: (Priority, u64))
    requires
        a.1 != b.1,
    ensures
        runs_before(a, b) || runs_before(b, a),
        !(runs_before(a, b) && runs_before(b, a)),
        rank(a.0) > rank(b.0) ==> runs_before(a, b),
        rank(a.0) == rank(b.0) && a.1 < b.1 ==> runs_before(a, b),
{
}

} // verus!
