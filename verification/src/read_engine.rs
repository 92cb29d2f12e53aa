//! The read path's I/O: how the reads that were resolved reach the disk.
//!
//! Many reads are in flight per thread, through a ring of submissions and
//! completions, so their number is bounded by the ring and not by threads. A
//! ring is not assumed: hardened hosts and old kernels refuse one, and there a
//! blocking task per read does the same work.

use std::collections::BTreeMap;

use vstd::prelude::*;

use crate::driver::Ticket;
use crate::text::{chars_of, trim, trimmed};

verus! {

broadcast use {vstd::std_specs::btree::group_btree_axioms, vstd::laws_cmp::group_laws_cmp};

/// Ring depth, and so the ceiling on reads in flight at once. A read past it
/// waits for a completion rather than being dropped.
pub const RING_ENTRIES: usize = 256;

/// What the operator asked for.
#[derive(Debug, Clone, Copy, PartialEq, Eq, Structural)]
pub enum Preference {
    Auto,
    IoUring,
    Blocking,
}

/// What performs the reads.
#[derive(Debug, Clone, Copy, PartialEq, Eq, Structural)]
pub enum ReadEngine {
    Uring,
    Blocking,
}

/// What a setting asks for, if it is one. White space around it means nothing,
/// and neither does an empty setting.
pub open spec fn preference_of(setting: Option<Seq<char>>) -> Option<Preference> {
    match setting {
        None => Some(Preference::Auto),
        Some(text) => {
            let word = trimmed(text);
            if word.len() == 0 || word == "auto"@ {
                Some(Preference::Auto)
            } else if word == "io_uring"@ {
                Some(Preference::IoUring)
            } else if word == "blocking"@ {
                Some(Preference::Blocking)
            } else {
                None
            }
        },
    }
}

/// What performs the reads under a preference. A ring is a preference and not a
/// demand: where there is none, serving reads slowly beats not serving them.
pub open spec fn engine_for(preference: Preference, ring: bool) -> ReadEngine {
    if ring && preference != Preference::Blocking {
        ReadEngine::Uring
    } else {
        ReadEngine::Blocking
    }
}

/// The text of an optional setting.
pub open spec fn setting_view(setting: Option<&str>) -> Option<Seq<char>> {
    match setting {
        Some(text) => Some(text@),
        None => None,
    }
}

fn spells(text: &str, word: &str) -> (r: bool)
    ensures
        r == (text@ == word@),
{
    let chars = chars_of(text);
    let want = chars_of(word);
    if chars.len() != want.len() {
        return false;
    }
    let mut i: usize = 0;
    while i < want.len()
        invariant
            i <= want@.len() == chars@.len(),
            want@ == word@,
            chars@ == text@,
            forall|j: int| 0 <= j < i ==> chars@[j] == want@[j],
        decreases want@.len() - i,
    {
        if chars[i] != want[i] {
            return false;
        }
        i += 1;
    }
    assert(chars@ =~= want@);
    true
}

impl ReadEngine {
    /// Reads the operator's setting. A word that is none of the three is handed
    /// back: a typo must not silently pick a different way of reading.
    pub fn from_setting(setting: Option<&str>) -> (r: Result<Preference, String>)
        ensures
            match r {
                Ok(preference) => preference_of(setting_view(setting)) == Some(preference),
                Err(word) => preference_of(setting_view(setting)) is None && word@ == trimmed(
                    setting->0@,
                ),
            },
    {
        let text = match setting {
            None => {
                return Ok(Preference::Auto);
            },
            Some(text) => text,
        };
        let word = trim(text);
        if word.unicode_len() == 0 || spells(word, "auto") {
            Ok(Preference::Auto)
        } else if spells(word, "io_uring") {
            Ok(Preference::IoUring)
        } else if spells(word, "blocking") {
            Ok(Preference::Blocking)
        } else {
            Err(word.to_owned())
        }
    }

    /// Chooses once, at startup; `ring` says whether the kernel gives one. A
    /// setting that cannot be read counts as none: refusing to start over a
    /// performance knob would turn a typo into an outage.
    pub fn new(setting: Option<&str>, ring: bool) -> (engine: ReadEngine)
        ensures
            engine == engine_for(
                match preference_of(setting_view(setting)) {
                    Some(preference) => preference,
                    None => Preference::Auto,
                },
                ring,
            ),
    {
        let preference = match ReadEngine::from_setting(setting) {
            Ok(preference) => preference,
            Err(_) => Preference::Auto,
        };
        if ring && preference != Preference::Blocking {
            ReadEngine::Uring
        } else {
            ReadEngine::Blocking
        }
    }
}

/// A read that the kernel is still working on.
#[derive(Debug, Clone, Copy, PartialEq, Eq, Structural)]
pub struct InFlight {
    pub ticket: Ticket,
    /// Where the record starts in its segment.
    pub offset: u64,
    pub len: usize,
    /// Bytes already read. A read may come back short, and the rest is asked
    /// for again from here.
    pub filled: usize,
}

/// What to ask the kernel for.
#[derive(Debug, Clone, Copy, PartialEq, Eq, Structural)]
pub struct Submission {
    pub id: u64,
    pub offset: u64,
    /// Where in the read's buffer the bytes go.
    pub into: usize,
    pub len: usize,
}

/// What a completion comes to.
#[derive(Debug, Clone, Copy, PartialEq, Eq, Structural)]
pub enum Completion {
    /// No read of that number is in flight.
    Unknown,
    /// Ask for what is still missing.
    Resubmit(Submission),
    /// The read failed. Its caller is dropped and not answered: no value would
    /// say that the key is absent.
    Failed { ticket: Ticket },
    /// The whole record is in the buffer.
    Done { ticket: Ticket },
}

/// The reads in flight on one ring.
#[derive(Debug)]
pub struct Ring {
    pub in_flight: BTreeMap<u64, InFlight>,
    pub next_id: u64,
}

/// What is still missing of a read.
pub open spec fn missing(id: u64, read: InFlight) -> Submission {
    Submission {
        id,
        offset: (read.offset + read.filled) as u64,
        into: read.filled,
        len: (read.len - read.filled) as usize,
    }
}

/// The kernel's number for a call that was interrupted.
pub const EINTR: i32 = 4;

/// The kernel's number for a call that would have to wait.
pub const EAGAIN: i32 = 11;

/// Whether a result is an error that passes: the same read may well succeed
/// the next time.
pub open spec fn transient(result: i32) -> bool {
    result == -EINTR || result == -EAGAIN
}

/// What a completion makes of a read: one that failed in passing is asked for
/// again, any other failed one and one that hit the end of the file are given
/// up, a short one is continued, and a whole one is done.
pub open spec fn completed(id: u64, read: InFlight, result: i32) -> (
    Option<InFlight>,
    Completion,
) {
    if transient(result) {
        (Some(read), Completion::Resubmit(missing(id, read)))
    } else if result <= 0 {
        (None, Completion::Failed { ticket: read.ticket })
    } else {
        let more = InFlight { filled: (read.filled + result) as usize, ..read };
        if more.filled < more.len {
            (Some(more), Completion::Resubmit(missing(id, more)))
        } else {
            (None, Completion::Done { ticket: read.ticket })
        }
    }
}

impl Ring {
    /// Every read asks for what its file and its buffer can hold.
    pub open spec fn wf(&self) -> bool {
        forall|id: u64| #[trigger]
            self.in_flight@.contains_key(id) ==> self.in_flight@[id].filled
                <= self.in_flight@[id].len && self.in_flight@[id].offset + self.in_flight@[id].len
                <= u64::MAX
    }

    pub fn new() -> (ring: Ring)
        ensures
            ring.wf(),
            ring.in_flight@ == Map::<u64, InFlight>::empty(),
            ring.next_id == 0,
    {
        Ring { in_flight: BTreeMap::new(), next_id: 0 }
    }

    /// Whether another read may be submitted.
    pub fn has_room(&self) -> (r: bool)
        ensures
            r == (self.in_flight@.len() < RING_ENTRIES),
    {
        self.in_flight.len() < RING_ENTRIES
    }

    /// Puts one read on the ring.
    pub fn start_read(&mut self, ticket: Ticket, offset: u64, len: usize) -> (submission:
        Submission)
        requires
            old(self).wf(),
            offset + len <= u64::MAX,
        ensures
            final(self).wf(),
            ({
                let read = InFlight { ticket, offset, len, filled: 0 };
                &&& final(self).in_flight@ == old(self).in_flight@.insert(old(self).next_id, read)
                &&& submission == missing(old(self).next_id, read)
            }),
            final(self).next_id == old(self).next_id.wrapping_add(1),
    {
        let id = self.next_id;
        self.next_id = id.wrapping_add(1);
        self.in_flight.insert(id, InFlight { ticket, offset, len, filled: 0 });
        Submission { id, offset, into: 0, len }
    }

    /// Takes one completion in: `result` is the kernel's, the number of bytes
    /// read or a negated error.
    pub fn complete(&mut self, id: u64, result: i32) -> (c: Completion)
        requires
            old(self).wf(),
            // The kernel reads no more than it was asked for.
            old(self).in_flight@.contains_key(id) ==> result <= old(self).in_flight@[id].len
                - old(self).in_flight@[id].filled,
        ensures
            final(self).wf(),
            final(self).next_id == old(self).next_id,
            if old(self).in_flight@.contains_key(id) {
                let (after, want) = completed(id, old(self).in_flight@[id], result);
                &&& c == want
                &&& final(self).in_flight@ == match after {
                    Some(read) => old(self).in_flight@.insert(id, read),
                    None => old(self).in_flight@.remove(id),
                }
            } else {
                &&& c == Completion::Unknown
                &&& *final(self) == *old(self)
            },
    {
        let read: InFlight = match self.in_flight.get(&id) {
            Some(read) => *read,
            None => {
                return Completion::Unknown;
            },
        };
        if result == -EINTR || result == -EAGAIN {
            assert(self.in_flight@ =~= self.in_flight@.insert(id, read));
            return Completion::Resubmit(
                Submission {
                    id,
                    offset: read.offset + read.filled as u64,
                    into: read.filled,
                    len: read.len - read.filled,
                },
            );
        }
        if result <= 0 {
            self.in_flight.remove(&id);
            return Completion::Failed { ticket: read.ticket };
        }
        let filled: usize = read.filled + result as usize;
        if filled < read.len {
            self.in_flight.insert(
                id,
                InFlight { ticket: read.ticket, offset: read.offset, len: read.len, filled },
            );
            return Completion::Resubmit(
                Submission {
                    id,
                    offset: read.offset + filled as u64,
                    into: filled,
                    len: read.len - filled,
                },
            );
        }
        self.in_flight.remove(&id);
        Completion::Done { ticket: read.ticket }
    }

    /// Gives up on every read in flight: the ring itself failed.
    pub fn fail_all(&mut self)
        ensures
            final(self).in_flight@ == Map::<u64, InFlight>::empty(),
            final(self).next_id == old(self).next_id,
            final(self).wf(),
    {
        self.in_flight = BTreeMap::new();
    }
}

/// A read that comes back short again and again is continued where it stopped:
/// it is done exactly when every byte of it has come.
pub proof fn law_short_reads_are_continued(id: u64, read: InFlight, result: i32)
    requires
        read.filled < read.len,
        read.offset + read.len <= u64::MAX,
        0 < result <= read.len - read.filled,
    ensures
        completed(id, read, result).1 is Done <==> read.filled + result == read.len,
        completed(id, read, result).1 matches Completion::Resubmit(s) ==> s.offset
            == read.offset + read.filled + result && s.into == read.filled + result && s.into
            + s.len == read.len,
{
}

/// A read whose failure passes is as it was, and is asked for again; any other
/// failure ends it without an answer, which would say that the key is absent.
pub proof fn law_only_passing_failures_are_tried_again(id: u64, read: InFlight, result: i32)
    requires
        result < 0,
    ensures
        result == -4 || result == -11 ==> completed(id, read, result) == (
            Some(read),
            Completion::Resubmit(missing(id, read)),
        ),
        result != -4 && result != -11 ==> completed(id, read, result) == (
            None::<InFlight>,
            Completion::Failed { ticket: read.ticket },
        ),
{
}

/// A setting means the word it spells, and an empty one or none means that the
/// machine decides; any other word means nothing. A ring performs the reads
/// exactly if there is one and nobody asked for blocking reads.
pub proof fn law_a_setting_means_its_word(text: Seq<char>, preference: Preference, ring: bool)
    ensures
        preference_of(None) == Some(Preference::Auto),
        trimmed(text).len() == 0 ==> preference_of(Some(text)) == Some(Preference::Auto),
        preference_of(Some(text)) == Some(Preference::IoUring) <==> trimmed(text) == "io_uring"@,
        preference_of(Some(text)) == Some(Preference::Blocking) <==> trimmed(text) == "blocking"@,
        preference_of(Some(text)) == Some(Preference::Auto) <==> trimmed(text) == "auto"@ || trimmed(
            text,
        ).len() == 0,
        engine_for(preference, ring) == ReadEngine::Uring <==> ring && preference
            != Preference::Blocking,
{
    reveal_strlit("auto");
    reveal_strlit("io_uring");
    reveal_strlit("blocking");
    assert("auto"@.len() == 4 && "io_uring"@.len() == 8 && "blocking"@.len() == 8);
    assert("io_uring"@[0] == 'i' && "blocking"@[0] == 'b');
}

/// A read ends once and is told to whoever asked: when its last byte has come, or
/// with no answer at the end of the file; until then it goes on, for the same
/// caller and the same bytes, and what is asked for next is what is missing.
pub proof fn law_a_read_ends_for_whoever_asked(id: u64, read: InFlight, result: i32)
    requires
        read.filled < read.len,
        read.offset + read.len <= u64::MAX,
        result <= read.len - read.filled,
    ensures
        ({
            let (after, told) = completed(id, read, result);
            &&& after is None <==> told is Done || told is Failed
            &&& told is Done <==> result > 0 && read.filled + result == read.len
            &&& told matches Completion::Done { ticket } ==> ticket == read.ticket
            &&& told matches Completion::Failed { ticket } ==> ticket == read.ticket && result <= 0
            &&& result == 0 ==> told is Failed
            &&& after matches Some(more) ==> {
                &&& more.ticket == read.ticket
                &&& more.offset == read.offset
                &&& more.len == read.len
                &&& more.filled == read.filled + (if result > 0 {
                    result as int
                } else {
                    0
                })
                &&& told matches Completion::Resubmit(s) && {
                    &&& s.id == id
                    &&& s.into == more.filled
                    &&& s.offset == more.offset + more.filled
                    &&& s.into + s.len == more.len
                }
            }
        }),
{
}

/// What is missing of a read is the rest of it, from where it stopped.
pub proof fn law_what_is_missing_is_the_rest(id: u64, read: InFlight)
    requires
        read.filled <= read.len,
        read.offset + read.len <= u64::MAX,
    ensures
        missing(id, read).id == id,
        missing(id, read).into == read.filled,
        missing(id, read).offset == read.offset + read.filled,
        missing(id, read).len == read.len - read.filled,
{
}

/// A read that is started asks for all of it under a fresh number; what came is
/// held against that read alone, and ends it or asks for the rest.
pub proof fn law_a_read_is_asked_for_and_ended(
    before: Ring,
    started: Ring,
    after: Ring,
    ticket: Ticket,
    offset: u64,
    len: usize,
    submission: Submission,
    id: u64,
    result: i32,
    c: Completion,
    other: u64,
)
    requires
        before.wf(),
        offset + len <= u64::MAX,
        exists|r: &mut Ring| #[trigger]
            call_ensures(Ring::start_read, (r, ticket, offset, len), submission) && *r == before
                && *final(r) == started,
        started.in_flight@.contains_key(id) ==> result <= started.in_flight@[id].len
            - started.in_flight@[id].filled,
        exists|r: &mut Ring| #[trigger]
            call_ensures(Ring::complete, (r, id, result), c) && *r == started && *final(r) == after,
    ensures
        submission.id == before.next_id,
        submission.offset == offset,
        submission.len == len,
        submission.into == 0,
        started.in_flight@.contains_key(before.next_id),
        started.in_flight@[before.next_id].ticket == ticket,
        other != before.next_id ==> started.in_flight@.contains_key(other)
            == before.in_flight@.contains_key(other) && started.in_flight@[other]
            == before.in_flight@[other],
        other != id ==> after.in_flight@.contains_key(other) == started.in_flight@.contains_key(
            other,
        ) && after.in_flight@[other] == started.in_flight@[other],
        c == Completion::Unknown <==> !started.in_flight@.contains_key(id),
        c is Done || c is Failed ==> !after.in_flight@.contains_key(id),
        c is Resubmit ==> after.in_flight@.contains_key(id),
        c matches Completion::Done { ticket } ==> ticket == started.in_flight@[id].ticket,
        c matches Completion::Failed { ticket } ==> ticket == started.in_flight@[id].ticket,
{
    let read = InFlight { ticket, offset, len, filled: 0 };
    law_what_is_missing_is_the_rest(before.next_id, read);
}

/// A setting means its word, whatever the white space round it, and is refused
/// where it is none of them; the ring is used where there is one, unless the
/// setting says otherwise.
pub proof fn law_a_setting_chooses_the_engine(
    text: &str,
    r: Result<Preference, String>,
    ring: bool,
    engine: ReadEngine,
)
    requires
        call_ensures(ReadEngine::from_setting, (Some(text),), r),
        call_ensures(ReadEngine::new, (Some(text), ring), engine),
    ensures
        r == Ok::<_, String>(Preference::IoUring) <==> trimmed(text@) == "io_uring"@,
        r == Ok::<_, String>(Preference::Blocking) <==> trimmed(text@) == "blocking"@,
        r == Ok::<_, String>(Preference::Auto) <==> trimmed(text@) == "auto"@ || trimmed(
            text@,
        ).len() == 0,
        engine == ReadEngine::Uring <==> ring && trimmed(text@) != "blocking"@,
{
    law_a_setting_means_its_word(text@, Preference::Auto, ring);
    law_a_setting_means_its_word(text@, Preference::IoUring, ring);
    law_a_setting_means_its_word(text@, Preference::Blocking, ring);
}

/// A new ring has nothing in flight, one that failed has nothing left in flight,
/// and one takes a read while fewer than 256 are.
pub proof fn law_a_ring_has_its_room(
    fresh: Ring,
    ring: Ring,
    after: Ring,
    u: (),
    room: bool,
)
    requires
        call_ensures(Ring::new, (), fresh),
        call_ensures(Ring::has_room, (&ring,), room),
        exists|r: &mut Ring| #[trigger]
            call_ensures(Ring::fail_all, (r,), u) && *r == ring && *final(r) == after,
    ensures
        fresh.in_flight@.len() == 0,
        after.in_flight@.len() == 0,
        room <==> ring.in_flight@.len() < 256,
        after.next_id == ring.next_id,
{
}

} // verus!
