//! The read path: how far a state machine is visible to readers, and the pool
//! that resolves the reads a group hands out.
//!
//! The group's part of a read is to confirm it and hand it on. A small pool of
//! tasks does the rest, each on a queue of its own.

use vstd::prelude::*;

use crate::driver::{Answer, ClientReply, ReadJob, Reply};
use crate::types::LogIndex;

verus! {

/// How far a group's state machine has been made visible to readers.
///
/// Distinct from its applied index: that moves when an entry is absorbed into
/// the copy that is written, this when that copy is swapped in for readers. A
/// read confirmed at an index may be served only once this reaches it; waiting
/// on the applied index instead returns state the confirmation does not cover.
#[derive(Debug, Clone, Copy, PartialEq, Eq, Structural)]
pub struct Visibility {
    pub index: LogIndex,
}

impl Visibility {
    /// Nothing is visible yet.
    pub fn new() -> (v: Visibility)
        ensures
            v.index == 0,
    {
        Visibility { index: 0 }
    }

    /// Everything up to `index` has been made visible. What was visible stays
    /// so: the index never goes back.
    pub fn publish(&mut self, index: LogIndex)
        ensures
            final(self).index == if old(self).index < index {
                index
            } else {
                old(self).index
            },
    {
        if self.index < index {
            self.index = index;
        }
    }

    pub fn index(&self) -> (index: LogIndex)
        ensures
            index == self.index,
    {
        self.index
    }
}

/// Reads queued for resolution per task.
pub const QUEUE_DEPTH: usize = 256;

/// The most tasks that resolve reads.
pub const MAX_RESOLVERS: usize = 8;

/// How many tasks resolve reads, on a machine that can run this many at once:
/// at least two, and two where that is not known.
pub fn pool_size(parallelism: Option<usize>) -> (n: usize)
    ensures
        n == match parallelism {
            None => 2,
            Some(p) => if p < 2 {
                2
            } else if p > MAX_RESOLVERS {
                MAX_RESOLVERS
            } else {
                p
            },
        },
{
    match parallelism {
        None => 2,
        Some(p) => {
            if p < 2 {
                2
            } else if p > MAX_RESOLVERS {
                MAX_RESOLVERS
            } else {
                p
            }
        },
    }
}

/// Hands reads to the tasks of the pool in turn.
#[derive(Debug, Clone, Copy, PartialEq, Eq, Structural)]
pub struct ReadResolvers {
    pub size: usize,
    pub next: usize,
}

impl ReadResolvers {
    pub fn with_size(size: usize) -> (r: ReadResolvers)
        ensures
            r.size == size,
            r.next == 0,
    {
        ReadResolvers { size, next: 0 }
    }

    /// The queue that the next read goes to.
    pub fn submit(&mut self) -> (queue: usize)
        requires
            old(self).size > 0,
        ensures
            queue == old(self).next % old(self).size,
            queue < old(self).size,
            final(self).size == old(self).size,
            final(self).next == old(self).next.wrapping_add(1),
    {
        let queue: usize = self.next % self.size;
        self.next = self.next.wrapping_add(1);
        queue
    }
}

/// What a resolved read comes to. `early` says that the read got here before its
/// index was visible, so that its answer may be stale: a group hands a read out
/// only once that is not so.
#[derive(Debug)]
pub enum Resolved<L> {
    /// The group went away after the read was handed out. The caller is dropped
    /// and asks again.
    Gone,
    /// The key is live, and its value is to be fetched from here.
    Fetch { located: L, early: bool },
    /// The key is not live, and there is nothing to fetch.
    Answered { reply: Reply, early: bool },
}

/// Resolves one confirmed read. `found` is where its group's readers find the
/// key: nowhere, if it is not live, and not at all if the group is gone.
pub fn resolve<L>(found: Option<Option<L>>, visible: &Visibility, job: &ReadJob) -> (r: Resolved<L>)
    ensures
        match found {
            None => r is Gone,
            Some(Some(located)) => r == (Resolved::Fetch {
                located,
                early: visible.index < job.at,
            }),
            Some(None) => r == (Resolved::Answered::<L> {
                reply: Reply {
                    ticket: job.ticket,
                    answer: Answer::Client(ClientReply::Value(None)),
                },
                early: visible.index < job.at,
            }),
        },
{
    let early = visible.index() < job.at;
    match found {
        None => Resolved::Gone,
        Some(Some(located)) => Resolved::Fetch { located, early },
        Some(None) => Resolved::Answered {
            reply: Reply {
                ticket: job.ticket,
                answer: Answer::Client(ClientReply::Value(None)),
            },
            early,
        },
    }
}

/// What readers see never goes back: publishing an index shows at least it and at
/// least what was shown, and nothing beyond the two.
pub proof fn law_what_is_visible_never_goes_back(
    before: Visibility,
    after: Visibility,
    index: LogIndex,
    u: (),
)
    requires
        exists|v: &mut Visibility| #[trigger]
            call_ensures(Visibility::publish, (v, index), u) && *v == before && *final(v) == after,
    ensures
        after.index >= before.index,
        after.index >= index,
        after.index == before.index || after.index == index,
{
}

/// The pool has between two and eight tasks, as many as the machine can run
/// where that lies between.
pub proof fn law_the_pool_fits_the_machine(parallelism: Option<usize>, n: usize)
    requires
        call_ensures(pool_size, (parallelism,), n),
    ensures
        2 <= n <= 8,
        parallelism matches Some(p) ==> (2 <= p <= 8 ==> n == p) && (p > 8 ==> n == 8),
        parallelism is None ==> n == 2,
{
}

/// Reads go to the tasks of the pool in turn: each goes to one of them, and two
/// in a row to neighbours.
pub proof fn law_reads_are_handed_out_in_turn(
    pool: ReadResolvers,
    mid: ReadResolvers,
    last: ReadResolvers,
    first: usize,
    second: usize,
)
    requires
        pool.size > 0,
        pool.next < usize::MAX,
        exists|r: &mut ReadResolvers| #[trigger]
            call_ensures(ReadResolvers::submit, (r,), first) && *r == pool && *final(r) == mid,
        exists|r: &mut ReadResolvers| #[trigger]
            call_ensures(ReadResolvers::submit, (r,), second) && *r == mid && *final(r) == last,
    ensures
        first < pool.size,
        second < pool.size,
        first + 1 < pool.size ==> second == first + 1,
        first + 1 == pool.size ==> second == 0,
        last.size == pool.size,
{
    let n = pool.next as int;
    let size = pool.size as int;
    assert((n + 1) % size == if n % size + 1 == size {
        0
    } else {
        n % size + 1
    }) by (nonlinear_arith)
        requires
            size > 0,
            n >= 0,
    {
        vstd::arithmetic::div_mod::lemma_fundamental_div_mod(n, size);
        let q = n / size;
        let r = n % size;
        assert(0 <= r < size);
        assert(n + 1 == size * q + (r + 1));
        if r + 1 == size {
            assert(n + 1 == size * (q + 1));
            vstd::arithmetic::div_mod::lemma_fundamental_div_mod_converse(n + 1, size, q + 1, 0);
        } else {
            vstd::arithmetic::div_mod::lemma_fundamental_div_mod_converse(n + 1, size, q, r + 1);
        }
    }
}

/// A confirmed read is resolved for its own caller: where its group is gone so is
/// the caller, a live key is fetched from where it was found, and a key that is
/// not live is answered so. A read that came before its index was visible is
/// marked.
pub proof fn law_a_read_is_resolved_for_its_caller<L>(
    found: Option<Option<L>>,
    visible: &Visibility,
    job: &ReadJob,
    r: Resolved<L>,
)
    requires
        call_ensures(resolve::<L>, (found, visible, job), r),
    ensures
        r is Gone <==> found is None,
        found matches Some(Some(place)) ==> r == (Resolved::Fetch {
            located: place,
            early: visible.index < job.at,
        }),
        found matches Some(None) ==> (r matches Resolved::Answered { reply, early } && reply.ticket
            == job.ticket && reply.answer == Answer::Client(ClientReply::Value(None)) && early == (
        visible.index < job.at)),
{
}

} // verus!
