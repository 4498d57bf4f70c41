use vstd::prelude::*;
use crate::chain::ChainSegment;
use crate::decode::{
    decode_chain_into_events, found_at, lemma_events_found, log_at, segment_events, swap_topic,
    valid_position, views_of, DecodedLog, EventView, PoolEvent,
};
use crate::record::{record_of, record_text, serialize_swap_event, RecordError};

verus! {

/// Why the publishing of a segment stopped.
#[derive(Debug, Clone, Copy, PartialEq, Eq, Structural)]
pub enum PublishError {
    Serialization,
    QueueAppend,
}

/// What the caller does next for a segment.
pub enum Action {
    /// Append this text to the queue, then report the outcome.
    Append(String),
    /// Every event of the segment has been appended.
    Finished,
    /// Stop: the segment failed, and the processing with it.
    Abort(PublishError),
}

/// The publishing of one segment: its decoded events, the next one to handle,
/// and the failure that stopped it, if any.
pub struct SegmentRun {
    pub events: Vec<DecodedLog>,
    pub next: usize,
    pub failure: Option<PublishError>,
}

/// The queue text owed for the event at index `i` of a segment.
pub open spec fn text_for(segment: ChainSegment, i: int) -> Seq<char> {
    let e = segment_events(segment)[i];
    match e.event {
        EventView::Swap(swap) => record_text(
            record_of(
                log_at(segment.blocks@, e.block, e.transaction, e.log),
                swap,
                segment.blocks@[e.block].timestamp,
            ),
        ),
    }
}

/// The record text owed for an event carries the timestamp of the block whose
/// log it was decoded from, at a position that the segment holds.
pub proof fn lemma_record_timestamp(segment: ChainSegment, i: int)
    requires
        0 <= i < segment_events(segment).len(),
    ensures
        ({
            let e = segment_events(segment)[i];
            let blocks = segment.blocks@;
            &&& valid_position(blocks, e.block, e.transaction, e.log)
            &&& e.event matches EventView::Swap(swap) && text_for(segment, i) == record_text(
                record_of(log_at(blocks, e.block, e.transaction, e.log), swap, blocks[e.block].timestamp),
            ) && record_of(
                log_at(blocks, e.block, e.transaction, e.log),
                swap,
                blocks[e.block].timestamp,
            ).timestamp == blocks[e.block].timestamp as nat
        }),
{
    lemma_events_found(segment);
    assert(found_at(segment.blocks@, segment_events(segment)[i], swap_topic()));
}

impl SegmentRun {
    /// The run's events are those of `segment`, and its position is within
    /// them.
    pub open spec fn wf_for(&self, segment: ChainSegment) -> bool {
        &&& views_of(self.events@) == segment_events(segment)
        &&& forall|i: int| 0 <= i < self.events@.len() ==> (#[trigger] self.events@[i]).wf()
        &&& self.next <= self.events@.len()
    }

    /// Starts the publishing of a segment at its first event.
    pub fn new(segment: &ChainSegment) -> (r: SegmentRun)
        ensures
            r.wf_for(*segment),
            r.next == 0,
            r.failure is None,
    {
        SegmentRun { events: decode_chain_into_events(segment), next: 0, failure: None }
    }

    /// Decides what to do next: append the record of the next event, report
    /// the end of the segment, or abort after a failure. Once failed, a run
    /// only aborts.
    pub fn next_action(&mut self, segment: &ChainSegment) -> (a: Action)
        requires
            old(self).wf_for(*segment),
        ensures
            final(self).wf_for(*segment),
            final(self).events == old(self).events,
            old(self).failure matches Some(e) ==> a == Action::Abort(e) && *final(self) == *old(
                self,
            ),
            old(self).failure is None && old(self).next == old(self).events@.len() ==> a
                is Finished && *final(self) == *old(self),
            old(self).failure is None && old(self).next < old(self).events@.len() ==> final(self).next
                == old(self).next + 1 && final(self).failure is None && (a matches Action::Append(
                s,
            ) && s@ == text_for(*segment, old(self).next as int)),
    {
        if let Some(e) = self.failure {
            return Action::Abort(e);
        }
        if self.next == self.events.len() {
            return Action::Finished;
        }
        let i = self.next;
        proof {
            lemma_events_found(*segment);
            assert(views_of(self.events@)[i as int] == self.events@[i as int]@);
        }
        let d = &self.events[i];
        let block = &segment.blocks[d.block];
        let log = &block.receipts[d.transaction].logs[d.log];
        match &d.event {
            PoolEvent::Swap(swap) => match serialize_swap_event(log, swap, block) {
                Ok(s) => {
                    self.next = i + 1;
                    Action::Append(s)
                },
                Err(RecordError::Serialization) => {
                    self.failure = Some(PublishError::Serialization);
                    Action::Abort(PublishError::Serialization)
                },
            },
        }
    }

    /// Takes the outcome of the last append: a failed append stops the run.
    pub fn append_result(&mut self, appended: bool)
        ensures
            final(self).events == old(self).events,
            final(self).next == old(self).next,
            old(self).failure is None && !appended ==> final(self).failure == Some(
                PublishError::QueueAppend,
            ),
            old(self).failure is Some || appended ==> final(self).failure == old(self).failure,
    {
        if self.failure.is_none() && !appended {
            self.failure = Some(PublishError::QueueAppend);
        }
    }
}

} // verus!
