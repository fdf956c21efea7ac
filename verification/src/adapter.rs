use vstd::prelude::*;

use crate::address::{lemma_new_is_linear, DmxAddress};
use crate::allocation::{lemma_indices_and_addresses_correspond, DmxAllocation};
use crate::command::ArtNetCommand;
use crate::constants::DMX_CHANNELS;
use crate::utils::{lemma_intersect_addresses, RangeExt};

verus! {

/// Whether an output for `universe` with `len` bytes of data has a byte for
/// the channel with logical index `index`: the channel lies in that universe,
/// and its channel number is below `len`.
pub open spec fn covers(allocation: DmxAllocation, universe: int, len: int, index: int) -> bool {
    &&& 0 <= index < allocation.spec_count()
    &&& allocation.position_of(index) / 512 == universe
    &&& allocation.position_of(index) % 512 < len
}

/// What the frame state holds: the allocation, one byte for every channel
/// of it, and the number of outputs written since the last snapshot.
pub struct FrameView {
    pub allocation: DmxAllocation,
    pub frame: Seq<u8>,
    pub updates: nat,
}

impl FrameView {
    /// The frame has one byte for every channel of the allocation.
    pub open spec fn wf(self) -> bool {
        &&& self.allocation.wf()
        &&& self.frame.len() == self.allocation.spec_count()
        &&& self.updates <= usize::MAX
    }

    /// Whether an output for `universe` with `len` bytes of data has a byte
    /// for any channel of the allocation.
    pub open spec fn touched_by(self, universe: int, len: int) -> bool {
        exists|index: int| covers(self.allocation, universe, len, index)
    }

    /// The state after an output for `universe` with the bytes `data`. Every
    /// channel that the output has a byte for takes that byte, every other
    /// keeps its own. An output with a byte for at least one channel counts
    /// as one update, whatever the bytes are; the count stops at
    /// `usize::MAX`.
    pub open spec fn after_output(self, universe: int, data: Seq<u8>) -> FrameView {
        FrameView {
            allocation: self.allocation,
            frame: Seq::new(
                self.frame.len(),
                |index: int|
                    if covers(self.allocation, universe, data.len() as int, index) {
                        data[self.allocation.position_of(index) % 512]
                    } else {
                        self.frame[index]
                    },
            ),
            updates: if self.touched_by(universe, data.len() as int) && self.updates < usize::MAX {
                self.updates + 1
            } else {
                self.updates
            },
        }
    }

    /// What a snapshot gives: nothing while there is no update, else the
    /// frame and the number of updates that it holds.
    pub open spec fn snapshot(self) -> Option<(Seq<u8>, nat)> {
        if self.updates == 0 {
            None
        } else {
            Some((self.frame, self.updates))
        }
    }

    /// The state after a snapshot: the same frame, and no update.
    pub open spec fn after_snapshot(self) -> FrameView {
        FrameView { allocation: self.allocation, frame: self.frame, updates: 0 }
    }

    /// The state after one event.
    pub open spec fn after_event(self, event: PipelineEvent) -> FrameView {
        match event {
            PipelineEvent::Output { universe, data } => self.after_output(universe, data),
            PipelineEvent::Snapshot => self.after_snapshot(),
        }
    }

    /// The state after a sequence of events, the first of them first.
    pub open spec fn after_events(self, events: Seq<PipelineEvent>) -> FrameView
        decreases events.len(),
    {
        if events.len() == 0 {
            self
        } else {
            self.after_events(events.drop_last()).after_event(events.last())
        }
    }
}

/// What happens to the frame state: an output is written into it, or the
/// forwarder takes a snapshot of it.
pub enum PipelineEvent {
    Output { universe: int, data: Seq<u8> },
    Snapshot,
}

/// The outputs among a sequence of events, in their order.
pub open spec fn outputs_of(events: Seq<PipelineEvent>) -> Seq<PipelineEvent>
    decreases events.len(),
{
    if events.len() == 0 {
        events
    } else if events.last() is Snapshot {
        outputs_of(events.drop_last())
    } else {
        outputs_of(events.drop_last()).push(events.last())
    }
}

/// The value of the channel with logical index `index` after a sequence of
/// events, where the last write wins: the byte that the last output with a
/// byte for the channel has for it, or `initial` if there is none.
pub open spec fn last_written(
    allocation: DmxAllocation,
    initial: u8,
    events: Seq<PipelineEvent>,
    index: int,
) -> u8
    decreases events.len(),
{
    if events.len() == 0 {
        initial
    } else {
        match events.last() {
            PipelineEvent::Output { universe, data } => if covers(
                allocation,
                universe,
                data.len() as int,
                index,
            ) {
                data[allocation.position_of(index) % 512]
            } else {
                last_written(allocation, initial, events.drop_last(), index)
            },
            PipelineEvent::Snapshot => last_written(
                allocation,
                initial,
                events.drop_last(),
                index,
            ),
        }
    }
}

/// Whether an event is an output with a byte for at least one channel of
/// the allocation.
pub open spec fn is_write(allocation: DmxAllocation, event: PipelineEvent) -> bool {
    event matches PipelineEvent::Output { universe, data } && exists|index: int|
        covers(allocation, universe, data.len() as int, index)
}

/// After any sequence of outputs and snapshots the frame still has one byte
/// for every channel of the same allocation.
pub proof fn lemma_events_keep_the_frame_well_formed(view: FrameView, events: Seq<PipelineEvent>)
    requires
        view.wf(),
    ensures
        view.after_events(events).wf(),
        view.after_events(events).allocation == view.allocation,
    decreases events.len(),
{
    if events.len() > 0 {
        lemma_events_keep_the_frame_well_formed(view, events.drop_last());
    }
}

/// No update is lost: after any sequence of outputs, with snapshots taken
/// at any points in between or not at all, every channel of the frame holds
/// the byte of the last output that had one for it, and its first value if
/// there was none. The frame is the same as if no snapshot had been taken.
pub proof fn lemma_last_write_wins(view: FrameView, events: Seq<PipelineEvent>, index: int)
    requires
        view.wf(),
        0 <= index < view.allocation.spec_count(),
    ensures
        view.after_events(events).frame[index] == last_written(
            view.allocation,
            view.frame[index],
            events,
            index,
        ),
        view.after_events(events).frame == view.after_events(outputs_of(events)).frame,
    decreases events.len(),
{
    lemma_frame_ignores_snapshots(view, events);
    if events.len() > 0 {
        lemma_last_write_wins(view, events.drop_last(), index);
        lemma_events_keep_the_frame_well_formed(view, events.drop_last());
    }
}

/// The frame after a sequence of events is the frame after its outputs
/// alone.
proof fn lemma_frame_ignores_snapshots(view: FrameView, events: Seq<PipelineEvent>)
    requires
        view.wf(),
    ensures
        view.after_events(events).frame == view.after_events(outputs_of(events)).frame,
        view.after_events(outputs_of(events)).allocation == view.allocation,
    decreases events.len(),
{
    if events.len() > 0 {
        let before = events.drop_last();
        lemma_frame_ignores_snapshots(view, before);
        lemma_events_keep_the_frame_well_formed(view, before);
        lemma_events_keep_the_frame_well_formed(view, outputs_of(before));
        if !(events.last() is Snapshot) {
            let outputs = outputs_of(before).push(events.last());
            assert(outputs.drop_last() =~= outputs_of(before));
            assert(outputs.last() == events.last());
            assert(view.after_events(events).frame =~= view.after_events(outputs).frame);
        }
    }
}

/// Updates coalesce: where a number of outputs that each reach a channel of
/// the allocation are written before the forwarder takes its next snapshot,
/// that one snapshot holds them all, merged so that the last write wins, and
/// reports their number. A second snapshot right after it gives nothing.
pub proof fn lemma_writes_coalesce_into_one_snapshot(
    view: FrameView,
    events: Seq<PipelineEvent>,
    index: int,
)
    requires
        view.wf(),
        view.updates == 0,
        0 < events.len() <= usize::MAX,
        forall|k: int| 0 <= k < events.len() ==> is_write(view.allocation, #[trigger] events[k]),
    ensures
        view.after_events(events).snapshot() == Some(
            (view.after_events(events).frame, events.len()),
        ),
        view.after_events(events).after_snapshot().snapshot() is None,
        view.after_events(events).after_snapshot().frame == view.after_events(events).frame,
        0 <= index < view.allocation.spec_count() ==> view.after_events(events).frame[index]
            == last_written(view.allocation, view.frame[index], events, index),
{
    lemma_writes_are_counted(view, events);
    if 0 <= index < view.allocation.spec_count() {
        lemma_last_write_wins(view, events, index);
    }
}

/// Each output that reaches a channel adds exactly one to the number of
/// updates, whatever the number of bytes it writes, as long as the number
/// fits in `usize`.
pub proof fn lemma_writes_are_counted(view: FrameView, events: Seq<PipelineEvent>)
    requires
        view.wf(),
        view.updates + events.len() <= usize::MAX,
        forall|k: int| 0 <= k < events.len() ==> is_write(view.allocation, #[trigger] events[k]),
    ensures
        view.after_events(events).updates == view.updates + events.len(),
    decreases events.len(),
{
    if events.len() > 0 {
        let before = events.drop_last();
        assert forall|k: int| 0 <= k < before.len() implies is_write(
            view.allocation,
            #[trigger] before[k],
        ) by {
            assert(before[k] == events[k]);
        }
        lemma_writes_are_counted(view, before);
        lemma_events_keep_the_frame_well_formed(view, before);
        assert(is_write(view.allocation, events[events.len() - 1]));
    }
}

/// A copy of the frame, and the number of outputs that were written into
/// the frame since the copy before it.
#[derive(Debug, Clone, PartialEq, Eq)]
pub struct Snapshot {
    pub frame: Vec<u8>,
    pub updates: usize,
}

/// The last known value of every channel of an allocation, and the number
/// of outputs written into it since the last snapshot.
#[derive(Debug, Clone)]
pub struct FrameState {
    allocation: DmxAllocation,
    frame: Vec<u8>,
    updates: usize,
}

impl View for FrameState {
    type V = FrameView;

    closed spec fn view(&self) -> FrameView {
        FrameView {
            allocation: self.allocation,
            frame: self.frame@,
            updates: self.updates as nat,
        }
    }
}

impl FrameState {
    /// Creates the state for an allocation: every channel 0, no update.
    pub fn new(allocation: DmxAllocation) -> (r: Self)
        ensures
            r@.wf(),
            r@.allocation == allocation,
            r@.frame == Seq::new(allocation.spec_count() as nat, |index: int| 0u8),
            r@.updates == 0,
    {
        proof {
            use_type_invariant(&allocation);
        }
        let frame = vec![0u8; allocation.count()];
        assert(frame@ =~= Seq::new(allocation.spec_count() as nat, |index: int| 0u8));
        Self { allocation, frame, updates: 0 }
    }

    /// Fetches the allocation that the frame covers.
    pub fn allocation(&self) -> (r: DmxAllocation)
        ensures
            r == self@.allocation,
            r.wf(),
    {
        proof {
            use_type_invariant(&self.allocation);
        }
        self.allocation
    }

    /// Fetches the frame: the last known value of every channel.
    pub fn frame(&self) -> (r: &Vec<u8>)
        ensures
            r@ == self@.frame,
    {
        &self.frame
    }

    /// Fetches the number of outputs written since the last snapshot.
    pub fn updates(&self) -> (r: usize)
        ensures
            r == self@.updates,
    {
        self.updates
    }

    /// Handles a command. An output is written into the frame: each of its
    /// bytes goes to the channel of the allocation that lies at that
    /// channel of the output's universe, if there is one. An output that
    /// reaches at least one channel counts as one update. Any other command
    /// changes nothing.
    ///
    /// Returns whether there is a new update to forward.
    pub fn handle_command(&mut self, command: ArtNetCommand) -> (raised: bool)
        requires
            old(self)@.wf(),
        ensures
            final(self)@.wf(),
            match command {
                ArtNetCommand::Output { universe, data, .. } => {
                    &&& final(self)@ == old(self)@.after_output(universe as int, data@)
                    &&& raised == old(self)@.touched_by(universe as int, data@.len() as int)
                },
                ArtNetCommand::Other { .. } => final(self)@ == old(self)@ && !raised,
            },
    {
        match command {
            ArtNetCommand::Output { universe, data, .. } => self.write_output(
                universe,
                data.as_slice(),
            ),
            ArtNetCommand::Other { .. } => false,
        }
    }

    /// Writes the bytes of an output for `universe` into the frame, and
    /// counts the output as an update if it reaches a channel.
    ///
    /// Returns whether it does.
    pub fn write_output(&mut self, universe: u16, data: &[u8]) -> (raised: bool)
        requires
            old(self)@.wf(),
        ensures
            final(self)@.wf(),
            final(self)@ == old(self)@.after_output(universe as int, data@),
            raised == old(self)@.touched_by(universe as int, data@.len() as int),
    {
        let ghost before = self@;
        let allocation = self.allocation;
        let universe = universe as usize;
        proof {
            lemma_new_is_linear(universe, 0);
        }
        let first = DmxAddress::new(universe, 0);
        let len = if data.len() < DMX_CHANNELS {
            data.len()
        } else {
            DMX_CHANNELS
        };
        let sent = first..(first + len);
        let allocated = allocation.address_range_in(universe);
        proof {
            lemma_intersect_addresses(allocated, sent, first);
            assert forall|index: int|
                covers(allocation, universe as int, data@.len() as int, index) implies (
                allocated.intersect_spec(sent) matches Some(both) && both.start.0
                    <= allocation.position_of(index) < both.end.0) by {
                lemma_indices_and_addresses_correspond(allocation, index, index, first);
                let there = DmxAddress(allocation.position_of(index) as usize);
                assert(allocation.is_allocated(there));
                lemma_intersect_addresses(allocated, sent, there);
            }
        }
        let both = match allocated.intersect(sent) {
            Some(both) => both,
            None => {
                assert(self@.frame =~= before.after_output(universe as int, data@).frame);
                return false;
            },
        };
        if both.start.value() >= both.end.value() {
            assert(self@.frame =~= before.after_output(universe as int, data@).frame);
            return false;
        }
        proof {
            lemma_intersect_addresses(allocated, sent, both.start);
            assert(allocation.is_allocated(both.start));
            let index = choose|index: int| allocation.maps(index, both.start);
            assert(covers(allocation, universe as int, data@.len() as int, index));
        }
        let mut address = both.start;
        while address.value() < both.end.value()
            invariant
                both.start.0 <= address.0 <= both.end.0,
                allocated.start.0 <= both.start.0,
                both.end.0 <= allocated.end.0,
                universe * 512 <= both.start.0,
                both.end.0 <= universe * 512 + 512,
                both.end.0 - universe * 512 <= data@.len(),
                forall|address: DmxAddress|
                    address.spec_universe() == universe ==> (#[trigger] allocation.is_allocated(
                        address,
                    ) <==> allocated.start.0 <= address.0 < allocated.end.0),
                allocation.wf(),
                before.wf(),
                before.allocation == allocation,
                self.allocation == allocation,
                self.updates == before.updates,
                self.frame@.len() == before.frame.len(),
                forall|index: int|
                    0 <= index < self.frame@.len() ==> #[trigger] self.frame@[index] == (if covers(
                        allocation,
                        universe as int,
                        data@.len() as int,
                        index,
                    ) && allocation.position_of(index) < address.0 {
                        data@[allocation.position_of(index) % 512]
                    } else {
                        before.frame[index]
                    }),
            decreases both.end.0 - address.0,
        {
            let ghost written = allocation.index_at(address);
            proof {
                assert(allocation.is_allocated(address));
                lemma_indices_and_addresses_correspond(allocation, written, written, address);
            }
            let index = allocation.index_of(address).unwrap();
            self.frame.set(index, data[address.channel()]);
            proof {
                assert forall|other: int| 0 <= other < self.frame@.len() implies #[trigger] self.frame@[other]
                    == (if covers(allocation, universe as int, data@.len() as int, other)
                    && allocation.position_of(other) < address.0 + 1 {
                    data@[allocation.position_of(other) % 512]
                } else {
                    before.frame[other]
                }) by {
                    lemma_indices_and_addresses_correspond(allocation, other, index as int, address);
                }
            }
            address = address + 1;
        }
        if self.updates < usize::MAX {
            self.updates = self.updates + 1;
        }
        assert(self@.frame =~= before.after_output(universe as int, data@).frame);
        true
    }

    /// Takes a snapshot for forwarding, if there is anything new to forward:
    /// a copy of the frame, with the number of outputs written since the
    /// last snapshot, which starts again at 0. The frame stays as it is.
    pub fn take_snapshot(&mut self) -> (r: Option<Snapshot>)
        requires
            old(self)@.wf(),
        ensures
            final(self)@.wf(),
            final(self)@ == old(self)@.after_snapshot(),
            match r {
                Some(snapshot) => old(self)@.snapshot() == Some(
                    (snapshot.frame@, snapshot.updates as nat),
                ),
                None => old(self)@.snapshot() is None,
            },
    {
        if self.updates == 0 {
            return None;
        }
        let updates = self.updates;
        self.updates = 0;
        let frame = self.frame.clone();
        assert(frame@ =~= self.frame@);
        Some(Snapshot { frame, updates })
    }
}

/// The time, in milliseconds, that lies at least between two reports of the
/// forwarder not keeping up.
pub const REPORT_INTERVAL_MILLIS: u64 = 1000;

/// A report that the sink does not keep up: the number of updates that went
/// into the snapshots since the last report, and the number of those that
/// shared their snapshot with an earlier one.
#[derive(Debug, Clone, Copy, PartialEq, Eq, Structural)]
pub struct KeepUpReport {
    pub updates: usize,
    pub dropped: usize,
}

/// Keeps count of the updates that went into snapshots, and says when a
/// report is due: not more than once in an interval, and only if there is an
/// update to report.
#[derive(Debug, Clone, Copy, PartialEq, Eq, Structural)]
pub struct ForwardMonitor {
    /// The time of the last report, or of the start.
    pub last_report: u64,
    /// The number of updates in the snapshots since the last report.
    pub updates: usize,
    /// The number of updates since the last report that shared their
    /// snapshot with an earlier one.
    pub dropped: usize,
}

/// The sum of two counts, which stops at `usize::MAX`.
pub open spec fn saturating_sum(a: usize, b: usize) -> usize {
    if a + b > usize::MAX {
        usize::MAX
    } else {
        (a + b) as usize
    }
}

impl ForwardMonitor {
    /// The counts after a snapshot of `updates` updates: all of them are
    /// counted, and all but the first as dropped.
    pub open spec fn counted(self, updates: usize) -> ForwardMonitor {
        ForwardMonitor {
            last_report: self.last_report,
            updates: saturating_sum(self.updates, updates),
            dropped: saturating_sum(
                self.dropped,
                if updates > 0 {
                    (updates - 1) as usize
                } else {
                    0
                },
            ),
        }
    }

    /// Whether a report is due at the time `now`: an interval has passed
    /// since the last one, and an update was counted.
    pub open spec fn due(self, now: u64) -> bool {
        now - self.last_report >= REPORT_INTERVAL_MILLIS && self.updates > 0
    }

    /// The monitor after a snapshot of `updates` updates was forwarded at
    /// the time `now`, and the report to make then. After a report the
    /// counts start again at 0, and the interval at `now`.
    pub open spec fn spec_record(self, now: u64, updates: usize) -> (
        ForwardMonitor,
        Option<KeepUpReport>,
    ) {
        let counted = self.counted(updates);
        if counted.due(now) {
            (
                ForwardMonitor { last_report: now, updates: 0, dropped: 0 },
                Some(KeepUpReport { updates: counted.updates, dropped: counted.dropped }),
            )
        } else {
            (counted, None)
        }
    }

    /// Creates a monitor at the time `now`, with nothing counted.
    pub fn new(now: u64) -> (r: Self)
        ensures
            r == (ForwardMonitor { last_report: now, updates: 0, dropped: 0 }),
    {
        Self { last_report: now, updates: 0, dropped: 0 }
    }

    /// Records that a snapshot of `updates` updates was forwarded at the
    /// time `now`, in milliseconds on a clock that does not go back. Gives
    /// the report to make, if one is due.
    pub fn record(&mut self, now: u64, updates: usize) -> (r: Option<KeepUpReport>)
        ensures
            (*final(self), r) == old(self).spec_record(now, updates),
    {
        self.updates = self.updates.saturating_add(updates);
        if updates > 0 {
            self.dropped = self.dropped.saturating_add(updates - 1);
        }
        if now >= self.last_report && now - self.last_report >= REPORT_INTERVAL_MILLIS
            && self.updates > 0 {
            let report = KeepUpReport { updates: self.updates, dropped: self.dropped };
            self.last_report = now;
            self.updates = 0;
            self.dropped = 0;
            Some(report)
        } else {
            None
        }
    }
}

/// The monitor adds the updates of every snapshot to its count, as long as
/// the count fits in `usize`. A report is made only when an interval has
/// passed since the last one and the count is above 0; it carries the count,
/// which then starts again at 0.
pub proof fn lemma_monitor_counts_updates(monitor: ForwardMonitor, now: u64, updates: usize)
    requires
        monitor.updates + updates <= usize::MAX,
    ensures
        monitor.counted(updates).updates == monitor.updates + updates,
        monitor.spec_record(now, updates).1 is Some <==> now - monitor.last_report
            >= REPORT_INTERVAL_MILLIS && monitor.updates + updates > 0,
        monitor.spec_record(now, updates).1 matches Some(report) ==> report.updates
            == monitor.updates + updates && monitor.spec_record(now, updates).0.updates == 0
            && monitor.spec_record(now, updates).0.last_report == now,
        monitor.spec_record(now, updates).1 is None ==> monitor.spec_record(now, updates).0.updates
            == monitor.updates + updates && monitor.spec_record(now, updates).0.last_report
            == monitor.last_report,
{
}

/// There is at most one report in an interval: after a report, nothing
/// recorded before an interval has passed gives another.
pub proof fn lemma_reports_are_an_interval_apart(
    monitor: ForwardMonitor,
    now: u64,
    updates: usize,
    later: u64,
    more: usize,
)
    requires
        monitor.spec_record(now, updates).1 is Some,
        later - now < REPORT_INTERVAL_MILLIS,
    ensures
        monitor.spec_record(now, updates).0.spec_record(later, more).1 is None,
{
}

} // verus!
