//! The parse scheduler's state machine: one consumer, at most one pending
//! parse, delivery exactly once, and last-request-wins ordering. The
//! surrounding application runs the worker and the delivery loop; every
//! decision is made here.

use vstd::prelude::*;

use crate::markdown_elements::ParsedMarkdown;

verus! {

/// What a consumer can observe about its document.
#[derive(Clone, Copy, Debug, PartialEq, Eq, Structural)]
pub enum ParseStatus {
    /// No parse has completed and none is pending.
    NoContent,
    /// A parse is pending; its result has not been applied yet.
    InProgress,
    /// The newest requested parse has completed and its document is held.
    Complete,
}

/// The consumer-side scheduler state: the current document, the generation
/// stamp of the pending parse, and the next stamp to hand out.
pub struct ParseScheduler {
    pub contents: Option<ParsedMarkdown>,
    pub pending: Option<u64>,
    pub next_generation: u64,
}

/// A well-formed state never has a pending stamp it has not handed out.
pub open spec fn sched_wf(s: ParseScheduler) -> bool {
    match s.pending {
        Option::Some(g) => g < s.next_generation,
        Option::None => true,
    }
}

/// The state transition of requesting a parse: the handed-out stamp
/// becomes pending and the counter moves on; the old document stays.
pub open spec fn request_t(s: ParseScheduler) -> (ParseScheduler, u64) {
    (
        ParseScheduler {
            contents: s.contents,
            pending: Option::Some(s.next_generation),
            next_generation: (s.next_generation + 1) as u64,
        },
        s.next_generation,
    )
}

/// The state transition of a worker delivering its document: applied only
/// when its stamp is the pending one, so a stale result never overwrites a
/// newer request's outcome; otherwise the state is unchanged.
pub open spec fn deliver_t(s: ParseScheduler, g: u64, doc: ParsedMarkdown) -> (
    ParseScheduler,
    bool,
) {
    if s.pending == Option::Some(g) {
        (
            ParseScheduler {
                contents: Option::Some(doc),
                pending: Option::None,
                next_generation: s.next_generation,
            },
            true,
        )
    } else {
        (s, false)
    }
}

/// The status a state exhibits.
pub open spec fn status_t(s: ParseScheduler) -> ParseStatus {
    if s.pending is Some {
        ParseStatus::InProgress
    } else if s.contents is Some {
        ParseStatus::Complete
    } else {
        ParseStatus::NoContent
    }
}

impl ParseScheduler {
    /// A fresh consumer: no content, nothing pending.
    pub fn new() -> (s: Self)
        ensures
            s.contents is None,
            s.pending is None,
            s.next_generation == 0,
            sched_wf(s),
    {
        ParseScheduler { contents: Option::None, pending: Option::None, next_generation: 0 }
    }

    /// Requests a parse, returning the stamp the worker must hand back.
    pub fn request(&mut self) -> (g: u64)
        requires
            sched_wf(*old(self)),
            old(self).next_generation < u64::MAX,
        ensures
            *final(self) == request_t(*old(self)).0,
            g == request_t(*old(self)).1,
            sched_wf(*final(self)),
    {
        let g = self.next_generation;
        self.pending = Option::Some(g);
        self.next_generation = g + 1;
        g
    }

    /// Applies a worker's result if and only if it answers the pending
    /// request; a superseded result is discarded and changes nothing.
    pub fn deliver(&mut self, g: u64, doc: ParsedMarkdown) -> (applied: bool)
        requires
            sched_wf(*old(self)),
        ensures
            *final(self) == deliver_t(*old(self), g, doc).0,
            applied == deliver_t(*old(self), g, doc).1,
            applied ==> final(self).contents == Option::Some(doc) && final(self).pending is None,
            !applied ==> *final(self) == *old(self),
            sched_wf(*final(self)),
    {
        let matches_pending = match self.pending {
            Option::Some(p) => p == g,
            Option::None => false,
        };
        if matches_pending {
            self.contents = Option::Some(doc);
            self.pending = Option::None;
            true
        } else {
            false
        }
    }

    /// The three observable states: no content yet, parse in progress,
    /// parse complete.
    pub fn status(&self) -> (st: ParseStatus)
        ensures
            st == status_t(*self),
    {
        match self.pending {
            Option::Some(_) => ParseStatus::InProgress,
            Option::None => match self.contents {
                Option::Some(_) => ParseStatus::Complete,
                Option::None => ParseStatus::NoContent,
            },
        }
    }
}

/// Last request wins: after requesting parse A and then parse B, the
/// consumer's final contents are B's document, whichever order the two
/// workers deliver in; A's document is never the final state.
pub proof fn lemma_last_request_wins(
    s0: ParseScheduler,
    doc_a: ParsedMarkdown,
    doc_b: ParsedMarkdown,
)
    requires
        sched_wf(s0),
        s0.next_generation < u64::MAX - 1,
    ensures
        ({
            let (s1, ga) = request_t(s0);
            let (s2, gb) = request_t(s1);
            let a_then_b = deliver_t(deliver_t(s2, ga, doc_a).0, gb, doc_b).0;
            let b_then_a = deliver_t(deliver_t(s2, gb, doc_b).0, ga, doc_a).0;
            a_then_b.contents == Option::Some(doc_b) && b_then_a.contents == Option::Some(doc_b)
        }),
{
}

} // verus!
