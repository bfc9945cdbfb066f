//! Bookkeeping over the asynchronous walk of the sound server's sinks: the
//! walk is over once the server has listed every sink and every operation
//! started on one has reported back.

use vstd::prelude::*;

verus! {

/// Progress of an operation applied to every sink of a list.
#[derive(Debug, Clone, Copy)]
pub struct SinkProcessInfo {
    /// The server has announced the end of the list.
    pub got_all_sinks: bool,
    /// Sinks listed so far.
    pub sink_count: u8,
    /// Sinks whose operation has reported back.
    pub processed_sink_count: u8,
}

impl SinkProcessInfo {
    /// The walk is over: the list has ended and every listed sink has been
    /// processed.
    pub open spec fn is_finished(self) -> bool {
        self.got_all_sinks && self.processed_sink_count == self.sink_count
    }

    /// Nothing listed, nothing processed, the list still open.
    pub fn new() -> (info: Self)
        ensures
            !info.got_all_sinks,
            info.sink_count == 0,
            info.processed_sink_count == 0,
    {
        Self { got_all_sinks: false, sink_count: 0, processed_sink_count: 0 }
    }

    /// Raises `done` when the walk is over, and leaves it as it was otherwise.
    pub fn check_if_done(&self, done: &mut bool)
        ensures
            *final(done) == (*old(done) || self.is_finished()),
    {
        if self.got_all_sinks && (self.processed_sink_count == self.sink_count) {
            *done = true;
        }
    }

    /// Takes in one event of the walk: updates the progress as
    /// `after_event` says, raises `done` as `done_after_event` says, and
    /// tells what to do with a listed sink.
    pub fn on_list_event(&mut self, counting: Counting, event: ListEvent, done: &mut bool) -> (action:
        SinkAction)
        requires
            event == ListEvent::Item ==> old(self).sink_count < u8::MAX,
            event == ListEvent::Item && counting == Counting::AtOnce
                ==> old(self).processed_sink_count < u8::MAX,
            event == ListEvent::Reported ==> old(self).processed_sink_count < u8::MAX,
        ensures
            *final(self) == after_event(*old(self), counting, event),
            *final(done) == done_after_event(*old(self), *old(done), counting, event),
            action == action_for(counting, event),
    {
        match event {
            ListEvent::Item => {
                self.sink_count = self.sink_count + 1;
                match counting {
                    Counting::OnReport => SinkAction::ApplyAndAwaitReport,
                    Counting::AtOnce => {
                        self.processed_sink_count = self.processed_sink_count + 1;
                        self.check_if_done(done);
                        SinkAction::ApplyIgnoringReport
                    },
                }
            },
            ListEvent::Reported => {
                self.processed_sink_count = self.processed_sink_count + 1;
                self.check_if_done(done);
                SinkAction::Wait
            },
            ListEvent::End => {
                self.got_all_sinks = true;
                self.check_if_done(done);
                SinkAction::Wait
            },
            ListEvent::Error => {
                *done = true;
                SinkAction::Wait
            },
        }
    }
}

/// What happens during the walk over the sinks.
#[derive(Debug, Clone, Copy, PartialEq, Eq)]
pub enum ListEvent {
    /// The server listed one more sink.
    Item,
    /// The server announced the end of the list.
    End,
    /// Listing the sinks failed.
    Error,
    /// The operation started on one sink reported back.
    Reported,
}

/// When a listed sink counts as processed.
#[derive(Debug, Clone, Copy, PartialEq, Eq)]
pub enum Counting {
    /// When the operation started on it reports back.
    OnReport,
    /// As soon as it is listed; the operation's report is not awaited.
    AtOnce,
}

/// What to do on an event of the walk.
#[derive(Debug, Clone, Copy, PartialEq, Eq)]
pub enum SinkAction {
    /// Start the operation on the listed sink, and pass its report back as
    /// a `Reported` event.
    ApplyAndAwaitReport,
    /// Start the operation on the listed sink and drop its report.
    ApplyIgnoringReport,
    /// Nothing to start.
    Wait,
}

/// The progress after one event.
pub open spec fn after_event(info: SinkProcessInfo, counting: Counting, event: ListEvent) -> SinkProcessInfo {
    match event {
        ListEvent::Item => SinkProcessInfo {
            sink_count: (info.sink_count + 1) as u8,
            processed_sink_count: if counting == Counting::AtOnce {
                (info.processed_sink_count + 1) as u8
            } else {
                info.processed_sink_count
            },
            ..info
        },
        ListEvent::Reported => SinkProcessInfo {
            processed_sink_count: (info.processed_sink_count + 1) as u8,
            ..info
        },
        ListEvent::End => SinkProcessInfo { got_all_sinks: true, ..info },
        ListEvent::Error => info,
    }
}

/// Whether the work is done after one event: an error ends it at once;
/// otherwise it is done when it was, or when the event finishes the walk.
/// A sink listed to be counted on report does not finish it.
pub open spec fn done_after_event(
    info: SinkProcessInfo,
    done: bool,
    counting: Counting,
    event: ListEvent,
) -> bool {
    match event {
        ListEvent::Error => true,
        ListEvent::Item => if counting == Counting::OnReport {
            done
        } else {
            done || after_event(info, counting, event).is_finished()
        },
        _ => done || after_event(info, counting, event).is_finished(),
    }
}

/// What to do on an event.
pub open spec fn action_for(counting: Counting, event: ListEvent) -> SinkAction {
    if event == ListEvent::Item {
        if counting == Counting::OnReport {
            SinkAction::ApplyAndAwaitReport
        } else {
            SinkAction::ApplyIgnoringReport
        }
    } else {
        SinkAction::Wait
    }
}

/// Progress and `done` after a whole sequence of events, from a fresh start.
pub open spec fn walk(counting: Counting, events: Seq<ListEvent>) -> (SinkProcessInfo, bool)
    decreases events.len(),
{
    if events.len() == 0 {
        (SinkProcessInfo { got_all_sinks: false, sink_count: 0, processed_sink_count: 0 }, false)
    } else {
        let (info, done) = walk(counting, events.drop_last());
        (
            after_event(info, counting, events.last()),
            done_after_event(info, done, counting, events.last()),
        )
    }
}

/// How many times `event` occurs in `events`.
pub open spec fn occurrences(events: Seq<ListEvent>, event: ListEvent) -> nat
    decreases events.len(),
{
    if events.len() == 0 {
        0
    } else {
        occurrences(events.drop_last(), event) + if events.last() == event {
            1nat
        } else {
            0nat
        }
    }
}

/// How many sinks count as processed after `events`.
pub open spec fn reported(counting: Counting, events: Seq<ListEvent>) -> nat {
    occurrences(events, ListEvent::Reported) + if counting == Counting::AtOnce {
        occurrences(events, ListEvent::Item)
    } else {
        0
    }
}

/// The list has ended and every listed sink counts as processed.
pub open spec fn all_listed_processed(counting: Counting, events: Seq<ListEvent>) -> bool {
    occurrences(events, ListEvent::End) > 0 && reported(counting, events) == occurrences(
        events,
        ListEvent::Item,
    )
}

/// At some point of `events` (after some prefix of it, the whole included),
/// the list had ended and every listed sink counted as processed.
pub open spec fn processed_at_some_point(counting: Counting, events: Seq<ListEvent>) -> bool
    decreases events.len(),
{
    all_listed_processed(counting, events) || (events.len() > 0 && processed_at_some_point(
        counting,
        events.drop_last(),
    ))
}

/// No sink counts as processed before it is listed, at any point of
/// `events`.
pub open spec fn reports_follow_listing(counting: Counting, events: Seq<ListEvent>) -> bool
    decreases events.len(),
{
    reported(counting, events) <= occurrences(events, ListEvent::Item) && (events.len() == 0
        || reports_follow_listing(counting, events.drop_last()))
}

/// Over a whole walk whose counts fit in a `u8` and where no sink reports
/// before it is listed: the progress counts the listed and the processed
/// sinks and records the end of the list, and the work is done exactly when
/// listing failed or, at some point, the list had ended and every listed
/// sink had been processed.
pub proof fn lemma_walk(counting: Counting, events: Seq<ListEvent>)
    requires
        occurrences(events, ListEvent::Item) <= u8::MAX,
        reported(counting, events) <= u8::MAX,
        reports_follow_listing(counting, events),
    ensures
        walk(counting, events).0.sink_count == occurrences(events, ListEvent::Item),
        walk(counting, events).0.processed_sink_count == reported(counting, events),
        walk(counting, events).0.got_all_sinks == (occurrences(events, ListEvent::End) > 0),
        walk(counting, events).1 == (occurrences(events, ListEvent::Error) > 0
            || processed_at_some_point(counting, events)),
    decreases events.len(),
{
    if events.len() > 0 {
        let init = events.drop_last();
        lemma_walk(counting, init);
        let (info, done) = walk(counting, init);
        assert(reports_follow_listing(counting, init));
        assert(reported(counting, init) <= occurrences(init, ListEvent::Item));
        assert(processed_at_some_point(counting, events) == (all_listed_processed(counting, events)
            || processed_at_some_point(counting, init)));
        assert(after_event(info, counting, events.last()) == walk(counting, events).0);
        if events.last() == ListEvent::Item && counting == Counting::OnReport {
            assert(!all_listed_processed(counting, events));
        }
        if events.last() != ListEvent::Error && !(events.last() == ListEvent::Item && counting
            == Counting::OnReport) {
            assert(walk(counting, events).0.is_finished() == all_listed_processed(counting, events));
        }
    }
}

} // verus!
