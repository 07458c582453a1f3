//! The in-process bus: an ordered list of (pattern, handler) subscriptions,
//! and wildcard topic matching.

use vstd::prelude::*;
use vstd::string::StringExecFns;

use crate::events::event::Event;
use crate::events::event::EventError;
use crate::events::publisher::Publisher;
use crate::events::subscriber::Handler;
use crate::events::subscriber::Subscriber;
use crate::text::chars_eq;
use crate::text::chars_of;
use crate::text::lower_chars;
use crate::text::lower_of;
use crate::text::split_chars;
use crate::text::split_on;

verus! {

/// The dot-separated parts of `s`, each Unicode-lowercased.
pub open spec fn lower_parts(s: Seq<char>) -> Seq<Seq<char>> {
    split_on(s, seq!['.']).map_values(|p: Seq<char>| lower_of(p))
}

/// Positionwise wildcard matching: the part counts agree, and every
/// pattern part is the wildcard token or equals the topic part in place.
pub open spec fn parts_match(sp: Seq<Seq<char>>, tp: Seq<Seq<char>>) -> bool {
    sp.len() == tp.len() && forall|i: int|
        0 <= i < sp.len() ==> (#[trigger] sp[i]) == seq!['*'] || sp[i] == tp[i]
}

/// Whether the subscription pattern `subject` matches an event `topic`:
/// letter-for-letter equality matches outright; otherwise both are split
/// on `.`, lowercased, and matched part by part with `*` as a
/// single-segment wildcard.
pub open spec fn subject_matches_topic(subject: Seq<char>, topic: Seq<char>) -> bool {
    subject == topic || parts_match(lower_parts(subject), lower_parts(topic))
}

/// A pattern letter-for-letter equal to the topic always matches it,
/// whatever wildcard tokens it holds.
pub proof fn lemma_equal_subject_matches(subject: Seq<char>, topic: Seq<char>)
    requires
        subject == topic,
    ensures
        subject_matches_topic(subject, topic),
{
}

/// Decides `subject_matches_topic` on strings.
pub fn subject_has_topic(subject: &str, topic: &str) -> (r: bool)
    ensures
        r == subject_matches_topic(subject@, topic@),
{
    let sv = chars_of(subject);
    let tv = chars_of(topic);
    if chars_eq(&sv, &tv) {
        return true;
    }
    let mut dot: Vec<char> = Vec::new();
    dot.push('.');
    proof {
        assert(dot@ =~= seq!['.']);
    }
    let sp = split_chars(&sv, &dot);
    let tp = split_chars(&tv, &dot);
    let ghost slp = lower_parts(subject@);
    let ghost tlp = lower_parts(topic@);
    if sp.len() != tp.len() {
        return false;
    }
    let mut i: usize = 0;
    while i < sp.len()
        invariant
            i <= sp@.len(),
            sp@.len() == tp@.len(),
            slp == lower_parts(subject@),
            tlp == lower_parts(topic@),
            slp.len() == sp@.len(),
            tlp.len() == tp@.len(),
            forall|k: int| 0 <= k < sp@.len() ==> #[trigger] lower_of(sp@[k]@) == slp[k],
            forall|k: int| 0 <= k < tp@.len() ==> #[trigger] lower_of(tp@[k]@) == tlp[k],
            forall|k: int| 0 <= k < i ==> (#[trigger] slp[k]) == seq!['*'] || slp[k] == tlp[k],
            subject@ != topic@,
        decreases sp@.len() - i,
    {
        let sl = lower_chars(&sp[i]);
        let tl = lower_chars(&tp[i]);
        let is_star = sl.len() == 1 && sl[0] == '*';
        proof {
            if is_star {
                assert(sl@ =~= seq!['*']);
            }
        }
        if !is_star && !chars_eq(&sl, &tl) {
            proof {
                assert(slp[i as int] != seq!['*'] && slp[i as int] != tlp[i as int]) by {
                    if sl@ == seq!['*'] {
                        assert(is_star);
                    }
                }
                assert(!parts_match(slp, tlp));
            }
            return false;
        }
        i = i + 1;
    }
    proof {
        assert(parts_match(slp, tlp));
    }
    true
}

/// One registration: a subject pattern and the handler it routes to.
struct Subscription<H> {
    subject: String,
    handler: H,
}

/// An in-process bus holding an ordered subscription list. Publishing
/// dispatches each event to every matching handler in registration order,
/// stopping at the first handler failure.
pub struct LocalEventBus<H> {
    subscriptions: Vec<Subscription<H>>,
}

impl<H> LocalEventBus<H> {
    /// The registered subject patterns, in registration order.
    pub closed spec fn spec_subjects(&self) -> Seq<Seq<char>> {
        Seq::new(self.subscriptions@.len(), |i: int| self.subscriptions@[i].subject@)
    }

    /// A bus with no subscriptions.
    pub fn new() -> (r: LocalEventBus<H>)
        ensures
            r.spec_subjects().len() == 0,
    {
        LocalEventBus { subscriptions: Vec::new() }
    }
}

impl<H: Handler> LocalEventBus<H> {
    /// Appends a subscription; always succeeds, and earlier registrations
    /// keep their place.
    pub fn subscribe(&mut self, subject: &str, handler: H) -> (r: Result<(), EventError>)
        ensures
            r is Ok,
            final(self).spec_subjects() == old(self).spec_subjects().push(subject@),
    {
        let sub = Subscription { subject: String::from_str(subject), handler };
        self.subscriptions.push(sub);
        proof {
            assert(final(self).spec_subjects() =~= old(self).spec_subjects().push(subject@));
        }
        Ok(())
    }

    /// Dispatches every event to every subscription whose pattern matches
    /// its topic, in registration order, returning the first handler
    /// failure. When no pattern matches any event, nothing can fail and
    /// the call succeeds.
    pub fn publish(&self, events: &[Event]) -> (r: Result<(), EventError>)
        ensures
            (forall|i: int, j: int|
                0 <= i < events@.len() && 0 <= j < self.spec_subjects().len()
                    ==> !subject_matches_topic(
                    #[trigger] self.spec_subjects()[j],
                    #[trigger] events@[i].spec_topic(),
                )) ==> r is Ok,
    {
        let mut e: usize = 0;
        while e < events.len()
            invariant
                e <= events@.len(),
            decreases events@.len() - e,
        {
            let event = &events[e];
            let mut k: usize = 0;
            while k < self.subscriptions.len()
                invariant
                    e < events@.len(),
                    k <= self.subscriptions@.len(),
                    *event == events@[e as int],
                decreases self.subscriptions@.len() - k,
            {
                if subject_has_topic(self.subscriptions[k].subject.as_str(), event.topic()) {
                    proof {
                        assert(self.spec_subjects()[k as int] == self.subscriptions@[
                            k as int
                        ].subject@);
                        assert(subject_matches_topic(
                            self.spec_subjects()[k as int],
                            events@[e as int].spec_topic(),
                        ));
                    }
                    match self.subscriptions[k].handler.handle(event) {
                        Ok(()) => {},
                        Err(err) => {
                            return Err(err);
                        },
                    }
                }
                k = k + 1;
            }
            e = e + 1;
        }
        Ok(())
    }
}

impl<H: Handler> Publisher for LocalEventBus<H> {
    fn publish(&self, events: &[Event]) -> Result<(), EventError> {
        LocalEventBus::publish(self, events)
    }
}

impl<H: Handler> Subscriber<H> for LocalEventBus<H> {
    fn subscribe(&mut self, subject: &str, handler: H) -> Result<(), EventError> {
        LocalEventBus::subscribe(self, subject, handler)
    }
}

} // verus!
