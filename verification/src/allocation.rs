use std::ops::Range;
use vstd::arithmetic::div_mod::{
    lemma_fundamental_div_mod,
    lemma_fundamental_div_mod_converse,
    lemma_mod_bound,
};
use vstd::prelude::*;

use crate::address::{lemma_new_is_linear, DmxAddress};
use crate::constants::DMX_CHANNELS;

verus! {

/// The number of channels that whole groups of `grouping` channels take up
/// between `channel` and the end of its universe.
pub open spec fn usable_channels(channel: int, grouping: int) -> int {
    (512 - channel) - (512 - channel) % grouping
}

/// The position, in the linear sequence of all channels, of the channel with
/// logical index `index` in a layout that starts at position `start` and
/// keeps groups of `grouping` channels within one universe. The first
/// universe is filled from the start up to its capacity, each later one from
/// its channel 0.
pub open spec fn layout_position(start: int, grouping: int, index: int) -> int {
    let first = usable_channels(start % 512, grouping);
    let mid = usable_channels(0, grouping);
    if index < first {
        start + index
    } else {
        (start / 512 + 1 + (index - first) / mid) * 512 + (index - first) % mid
    }
}

/// The position just past the last of `count` channels in such a layout.
pub open spec fn layout_end(start: int, count: int, grouping: int) -> int {
    if count <= 0 {
        start
    } else {
        layout_position(start, grouping, count - 1) + 1
    }
}

/// Why a start universe, start channel, channel count and group size
/// describe no allocation.
#[derive(Debug, Clone, Copy, PartialEq, Eq, Hash, Structural)]
pub enum AllocationError {
    /// The start channel is not a channel of a universe.
    ChannelOutOfRange,
    /// The group size is 0.
    GroupingZero,
    /// A group is larger than a universe.
    GroupingTooLarge,
    /// There are no channels to allocate.
    CountZero,
    /// The channels reach beyond the last address.
    AddressOverflow,
}

/// What is wrong with a configuration, if anything. The start channel is
/// looked at first, then the group size, then the count, then whether all
/// channels have an address.
pub open spec fn config_error(universe: usize, channel: usize, count: usize, grouping: usize)
    -> Option<AllocationError> {
    if channel >= 512 {
        Some(AllocationError::ChannelOutOfRange)
    } else if grouping == 0 {
        Some(AllocationError::GroupingZero)
    } else if grouping > 512 {
        Some(AllocationError::GroupingTooLarge)
    } else if count == 0 {
        Some(AllocationError::CountZero)
    } else if layout_end(universe * 512 + channel, count as int, grouping as int) > usize::MAX {
        Some(AllocationError::AddressOverflow)
    } else {
        None
    }
}

/// A range of DMX channels across consecutive universes, potentially with
/// padding to avoid splitting groups of channels across universes. For a group
/// size of 1, the allocation of channels is fully contiguous.
///
/// The channels of the allocation are numbered from 0 in the order of their
/// addresses: `position_of` gives the address of each, and everything else is
/// stated over it.
#[derive(Debug, Clone, Copy, PartialEq, Eq, Hash, Structural)]
pub struct DmxAllocation {
    /// The first DMX channel to use.
    start_address: DmxAddress,
    /// The total number of DMX channels.
    count: usize,
    /// The number of DMX channels per group (which cannot be split across universes).
    grouping: usize,
}

impl DmxAllocation {
    /// The first DMX channel of the allocation.
    pub closed spec fn spec_start_address(&self) -> DmxAddress {
        self.start_address
    }

    /// The total number of DMX channels.
    pub closed spec fn spec_count(&self) -> usize {
        self.count
    }

    /// The number of DMX channels per group.
    pub closed spec fn spec_grouping(&self) -> usize {
        self.grouping
    }

    /// The number of channels that the first universe can hold: whole groups
    /// from the start channel on.
    pub open spec fn first_capacity(self) -> int {
        usable_channels((self.spec_start_address().0 as int) % 512, self.spec_grouping() as int)
    }

    /// The number of channels that every later universe can hold: whole
    /// groups from channel 0 on.
    pub open spec fn mid_capacity(self) -> int {
        usable_channels(0, self.spec_grouping() as int)
    }

    /// The position, in the linear sequence of all channels, of the channel
    /// with logical index `index`.
    pub open spec fn position_of(self, index: int) -> int {
        layout_position(self.spec_start_address().0 as int, self.spec_grouping() as int, index)
    }

    /// The position just past the last channel of the allocation.
    pub open spec fn end_position(self) -> int {
        layout_end(
            self.spec_start_address().0 as int,
            self.spec_count() as int,
            self.spec_grouping() as int,
        )
    }

    /// Whether the channel with logical index `index` exists and lies at
    /// `address`.
    pub open spec fn maps(self, index: int, address: DmxAddress) -> bool {
        0 <= index < self.spec_count() && self.position_of(index) == address.0
    }

    /// Whether some channel of the allocation lies at `address`.
    pub open spec fn is_allocated(self, address: DmxAddress) -> bool {
        exists|index: int| self.maps(index, address)
    }

    /// The logical index of the channel at `address`, where there is one.
    pub open spec fn index_at(self, address: DmxAddress) -> int {
        if address.spec_universe() == self.spec_start_address().spec_universe() {
            address.0 - self.spec_start_address().0
        } else {
            self.first_capacity() + (address.spec_universe()
                - self.spec_start_address().spec_universe() - 1) * self.mid_capacity()
                + address.spec_channel()
        }
    }

    /// Whether `address` lies in the part of its universe that holds no
    /// channel of any allocation with this start and grouping: at or beyond
    /// the capacity of that universe.
    pub open spec fn in_padding(self, address: DmxAddress) -> bool {
        if address.spec_universe() == self.spec_start_address().spec_universe() {
            address.spec_channel() - self.spec_start_address().spec_channel()
                >= self.first_capacity()
        } else {
            address.spec_channel() >= self.mid_capacity()
        }
    }

    /// The position of the first channel that the allocation could hold in
    /// `universe`: the start address in the first universe, channel 0 in
    /// every other.
    pub open spec fn first_position_in(self, universe: int) -> int {
        if universe == self.spec_start_address().spec_universe() {
            self.spec_start_address().0 as int
        } else {
            universe * 512
        }
    }

    /// The number of channels of the allocation that lie in `universe`.
    pub open spec fn channels_in(self, universe: int) -> int {
        let first = self.spec_start_address().spec_universe();
        let last = self.end_position() / 512;
        if universe < first || universe > last {
            0
        } else if universe == first {
            if self.spec_count() <= self.first_capacity() {
                self.spec_count() as int
            } else {
                self.first_capacity()
            }
        } else if universe == last {
            self.end_position() % 512
        } else {
            self.mid_capacity()
        }
    }

    /// The group size is between 1 and the size of a universe, and every
    /// channel of the allocation has an address.
    #[verifier::type_invariant]
    pub open spec fn wf(self) -> bool {
        &&& 1 <= self.spec_grouping() <= 512
        &&& self.end_position() <= usize::MAX
    }

    /// Creates a new DMX allocation from the given start address, channel count and group size.
    pub fn new(start_address: DmxAddress, count: usize, grouping: usize) -> (r: Self)
        requires
            1 <= grouping <= DMX_CHANNELS,
            layout_end(start_address.0 as int, count as int, grouping as int) <= usize::MAX,
        ensures
            r.wf(),
            r.spec_start_address() == start_address,
            r.spec_count() == count,
            r.spec_grouping() == grouping,
    {
        Self { start_address, count, grouping }
    }

    /// Creates the allocation that a configuration describes: `count` channels
    /// from channel `channel` of universe `universe` on, in groups of
    /// `grouping`. A configuration with a channel of 512 or more, a group size
    /// of 0 or above 512, no channels, or channels beyond the last address is
    /// refused.
    pub fn from_config(universe: usize, channel: usize, count: usize, grouping: usize) -> (r:
        Result<Self, AllocationError>)
        ensures
            match r {
                Ok(allocation) => {
                    &&& config_error(universe, channel, count, grouping) is None
                    &&& allocation.wf()
                    &&& allocation.spec_start_address() == DmxAddress::spec_new(universe, channel)
                    &&& allocation.spec_start_address().0 == universe * 512 + channel
                    &&& allocation.spec_count() == count
                    &&& allocation.spec_grouping() == grouping
                },
                Err(error) => config_error(universe, channel, count, grouping) == Some(error),
            },
    {
        if channel >= DMX_CHANNELS {
            return Err(AllocationError::ChannelOutOfRange);
        }
        if grouping == 0 {
            return Err(AllocationError::GroupingZero);
        }
        if grouping > DMX_CHANNELS {
            return Err(AllocationError::GroupingTooLarge);
        }
        if count == 0 {
            return Err(AllocationError::CountZero);
        }
        if Self::layout_fits(universe, channel, count, grouping) {
            proof {
                lemma_new_is_linear(universe, channel);
            }
            Ok(Self::new(DmxAddress::new(universe, channel), count, grouping))
        } else {
            Err(AllocationError::AddressOverflow)
        }
    }

    /// Whether each of `count` channels, laid out from channel `channel` of
    /// universe `universe` on in groups of `grouping`, has an address.
    fn layout_fits(universe: usize, channel: usize, count: usize, grouping: usize) -> (fits: bool)
        requires
            channel < 512,
            1 <= grouping <= 512,
            1 <= count,
        ensures
            fits == (layout_end(universe * 512 + channel, count as int, grouping as int)
                <= usize::MAX),
            fits ==> universe <= usize::MAX / 512,
    {
        proof {
            lemma_config_end(universe as int, channel as int, count as int, grouping as int);
        }
        if universe > usize::MAX / DMX_CHANNELS {
            return false;
        }
        let first = (DMX_CHANNELS - channel) - (DMX_CHANNELS - channel) % grouping;
        let mid = DMX_CHANNELS - DMX_CHANNELS % grouping;
        if count <= first {
            count <= usize::MAX - (universe * DMX_CHANNELS + channel)
        } else {
            let last = count - first - 1;
            let universes = last / mid;
            let channels = last % mid + 1;
            if universes >= usize::MAX - universe {
                false
            } else {
                universe + 1 + universes <= (usize::MAX - channels) / DMX_CHANNELS
            }
        }
    }

    /// Fetches the first allocated DMX channel (inclusive start).
    #[verifier::when_used_as_spec(spec_start_address)]
    pub fn start_address(&self) -> (r: DmxAddress)
        ensures
            r == self.spec_start_address(),
    {
        self.start_address
    }

    /// Fetches the total number of DMX channels.
    #[verifier::when_used_as_spec(spec_count)]
    pub fn count(&self) -> (r: usize)
        ensures
            r == self.spec_count(),
    {
        self.count
    }

    /// Fetches the number of DMX channels per group.
    #[verifier::when_used_as_spec(spec_grouping)]
    pub fn grouping(&self) -> (r: usize)
        ensures
            r == self.spec_grouping(),
    {
        self.grouping
    }

    /// Fetches the number of channels that the first universe can hold.
    pub fn start_universe_channel_count(&self) -> (r: usize)
        ensures
            r == self.first_capacity(),
    {
        proof {
            use_type_invariant(self);
            lemma_capacities(*self);
        }
        let remaining = DMX_CHANNELS - self.start_address.channel();
        remaining - remaining % self.grouping
    }

    /// Fetches the number of channels that every universe after the first
    /// can hold.
    pub fn mid_universe_channel_count(&self) -> (r: usize)
        ensures
            r == self.mid_capacity(),
    {
        proof {
            use_type_invariant(self);
            lemma_capacities(*self);
        }
        DMX_CHANNELS - DMX_CHANNELS % self.grouping
    }

    /// Fetches the DMX channel past the last allocated channel (exclusive end).
    pub fn end_address(&self) -> (r: DmxAddress)
        ensures
            r.0 == self.end_position(),
    {
        proof {
            use_type_invariant(self);
            lemma_capacities(*self);
        }
        let start_channels = self.start_universe_channel_count();
        let mid_channels = self.mid_universe_channel_count();
        if self.count <= start_channels {
            self.start_address + self.count
        } else {
            let beyond = self.count - start_channels;
            proof {
                lemma_position_parts(*self, self.count - 1);
            }
            let universes = (beyond - 1) / mid_channels + 1;
            let preceding = start_channels + (universes - 1) * mid_channels;
            proof {
                lemma_new_is_linear((self.start_address.universe() + universes) as usize, 0);
            }
            DmxAddress::new(self.start_address.universe() + universes, 0) + (self.count
                - preceding)
        }
    }

    /// Fetches the number of channels that the universe of the end address
    /// holds: its channel.
    pub fn end_universe_channel_count(&self) -> (r: usize)
        ensures
            r == self.end_position() % 512,
    {
        self.end_address().channel()
    }

    /// Fetches the total range of allocated DMX channels.
    pub fn address_range(&self) -> (r: Range<DmxAddress>)
        ensures
            r.start == self.spec_start_address(),
            r.end.0 == self.end_position(),
    {
        self.start_address()..self.end_address()
    }

    /// Fetches the logical index of the channel for the given DMX address, if it exists.
    ///
    /// An address before the start, at or past the end, or in the padding of
    /// its universe has none.
    pub fn index_of(&self, address: DmxAddress) -> (r: Option<usize>)
        ensures
            r matches Some(index) ==> self.maps(index as int, address),
            r is None ==> !self.is_allocated(address),
            r is Some <==> self.spec_start_address().0 <= address.0 < self.end_position()
                && !self.in_padding(address),
    {
        proof {
            use_type_invariant(self);
            lemma_capacities(*self);
            lemma_allocated_iff(*self, address);
        }
        let range = self.address_range();
        if range.start.0 <= address.0 && address.0 < range.end.0 {
            let (preceding, index, remaining) = if address.universe() == range.start.universe() {
                let preceding: usize = 0;
                let index = address.channel() - range.start.channel();
                let remaining = self.start_universe_channel_count();
                (preceding, index, remaining)
            } else {
                let preceding_start = self.start_universe_channel_count();
                let between = address.universe() - range.start.universe() - 1;
                assert(between * self.mid_capacity() <= between * 512) by (nonlinear_arith)
                    requires
                        0 <= between,
                        0 <= self.mid_capacity() <= 512,
                ;
                let preceding_mid = between * self.mid_universe_channel_count();
                let preceding = preceding_start + preceding_mid;
                let index = address.channel();
                let remaining = if address.universe() == range.end.universe() {
                    self.end_universe_channel_count()
                } else {
                    self.mid_universe_channel_count()
                };
                proof {
                    lemma_end_parts(*self);
                }
                (preceding, index, remaining)
            };
            if index < remaining {
                Some(preceding + index)
            } else {
                None
            }
        } else {
            None
        }
    }

    /// Fetches the number of channels of the allocation that lie in the
    /// given universe, which is 0 outside the allocation.
    pub fn universe_channel_count(&self, universe: usize) -> (r: usize)
        ensures
            r == self.channels_in(universe as int),
    {
        proof {
            use_type_invariant(self);
            lemma_range_in(*self, universe as int);
        }
        let range = self.address_range();
        if universe < range.start.universe() || universe > range.end.universe() {
            0
        } else if universe == range.start.universe() {
            let capacity = self.start_universe_channel_count();
            if self.count <= capacity {
                self.count
            } else {
                capacity
            }
        } else if universe == range.end.universe() {
            self.end_universe_channel_count()
        } else {
            self.mid_universe_channel_count()
        }
    }

    /// Fetches the allocated (contiguous) range of DMX channels in the given
    /// universe. May be empty, e.g. if the universe is outside the allocation.
    ///
    /// The addresses of the universe that hold a channel of the allocation
    /// are exactly those of the range.
    pub fn address_range_in(&self, universe: usize) -> (r: Range<DmxAddress>)
        ensures
            r.start == (if universe == self.spec_start_address().spec_universe() {
                self.spec_start_address()
            } else {
                DmxAddress::spec_new(universe, 0)
            }),
            r.end.0 == r.start.0 + self.channels_in(universe as int),
            forall|address: DmxAddress|
                address.spec_universe() == universe ==> (#[trigger] self.is_allocated(address)
                    <==> r.start.0 <= address.0 < r.end.0),
    {
        proof {
            use_type_invariant(self);
            lemma_range_in(*self, universe as int);
            lemma_new_is_linear(universe, 0);
        }
        let start = if universe == self.start_address.universe() {
            self.start_address
        } else {
            DmxAddress::new(universe, 0)
        };
        start..(start + self.universe_channel_count(universe))
    }
}

/// The capacities of the universes of an allocation: whole groups, at most
/// what is left of the universe, and past the first universe at least one
/// group.
pub proof fn lemma_capacities(allocation: DmxAllocation)
    requires
        1 <= allocation.spec_grouping() <= 512,
    ensures
        0 <= allocation.first_capacity() <= 512 - allocation.spec_start_address().spec_channel(),
        allocation.first_capacity() % (allocation.spec_grouping() as int) == 0,
        allocation.spec_grouping() <= allocation.mid_capacity() <= 512,
        allocation.mid_capacity() % (allocation.spec_grouping() as int) == 0,
        allocation.first_capacity() <= allocation.mid_capacity(),
{
    let g = allocation.spec_grouping() as int;
    let c = allocation.spec_start_address().spec_channel() as int;
    lemma_whole_groups(512 - c, g);
    lemma_whole_groups(512, g);
    assert((512 - c) / g <= 512int / g) by (nonlinear_arith)
        requires
            0 < g,
            0 <= 512 - c <= 512,
    ;
    assert(((512 - c) / g) * g <= (512int / g) * g) by (nonlinear_arith)
        requires
            0 < g,
            (512 - c) / g <= 512int / g,
    ;
}

/// Where the channel with logical index `index` lies: in the first universe
/// from the start channel on while `index` is below its capacity, then in the
/// universe and at the channel that dividing the rest by the capacity of a
/// later universe gives.
pub proof fn lemma_position_parts(allocation: DmxAllocation, index: int)
    requires
        1 <= allocation.spec_grouping() <= 512,
        0 <= index,
    ensures
        index < allocation.first_capacity() ==> {
            &&& allocation.position_of(index) / 512
                == allocation.spec_start_address().spec_universe()
            &&& allocation.position_of(index) % 512
                == allocation.spec_start_address().spec_channel() + index
        },
        index >= allocation.first_capacity() ==> {
            let beyond = index - allocation.first_capacity();
            &&& 0 <= beyond / allocation.mid_capacity()
            &&& 0 <= beyond % allocation.mid_capacity() < allocation.mid_capacity()
            &&& beyond == (beyond / allocation.mid_capacity()) * allocation.mid_capacity() + beyond
                % allocation.mid_capacity()
            &&& allocation.position_of(index) / 512
                == allocation.spec_start_address().spec_universe() + 1 + beyond
                / allocation.mid_capacity()
            &&& allocation.position_of(index) % 512 == beyond % allocation.mid_capacity()
        },
{
    lemma_capacities(allocation);
    let first = allocation.first_capacity();
    let mid = allocation.mid_capacity();
    if index >= first {
        let beyond = index - first;
        lemma_fundamental_div_mod(beyond, mid);
        lemma_mod_bound(beyond, mid);
        assert(0 <= beyond / mid) by (nonlinear_arith)
            requires
                0 <= beyond,
                0 < mid,
        ;
        assert(mid * (beyond / mid) == (beyond / mid) * mid) by (nonlinear_arith);
    }
}

/// The channels of an allocation lie in the order of their logical indices.
pub proof fn lemma_position_increasing(allocation: DmxAllocation, i: int, j: int)
    requires
        1 <= allocation.spec_grouping() <= 512,
        0 <= i < j,
    ensures
        allocation.position_of(i) < allocation.position_of(j),
{
    lemma_capacities(allocation);
    lemma_position_parts(allocation, i);
    lemma_position_parts(allocation, j);
    let first = allocation.first_capacity();
    let mid = allocation.mid_capacity();
    if i >= first {
        let a = i - first;
        let b = j - first;
        assert(a / mid <= b / mid) by (nonlinear_arith)
            requires
                0 <= a <= b,
                0 < mid,
        ;
        if a / mid == b / mid {
            assert(a % mid < b % mid);
        }
    }
}

/// Where an allocation ends. One that fits in its first universe ends
/// `count` channels after its start. Another ends in a later universe, at
/// most the capacity of that universe from its channel 0.
pub proof fn lemma_end_parts(allocation: DmxAllocation)
    requires
        1 <= allocation.spec_grouping() <= 512,
    ensures
        allocation.spec_start_address().0 <= allocation.end_position(),
        allocation.spec_count() <= allocation.first_capacity() ==> allocation.end_position()
            == allocation.spec_start_address().0 + allocation.spec_count(),
        allocation.spec_count() > allocation.first_capacity() ==> {
            &&& allocation.end_position() > (allocation.spec_start_address().spec_universe() + 1)
                * 512
            &&& 1 <= allocation.end_position() - 512 * ((allocation.end_position() - 1) / 512)
                <= allocation.mid_capacity()
        },
{
    lemma_capacities(allocation);
    if allocation.spec_count() > 0 {
        lemma_position_parts(allocation, allocation.spec_count() - 1);
    }
}

/// The addresses that hold a channel of an allocation are those from its
/// start to its end that do not lie in padding, and `index_at` gives the
/// logical index of the channel at each.
pub proof fn lemma_allocated_iff(allocation: DmxAllocation, address: DmxAddress)
    requires
        1 <= allocation.spec_grouping() <= 512,
    ensures
        allocation.is_allocated(address) <==> allocation.spec_start_address().0 <= address.0
            < allocation.end_position() && !allocation.in_padding(address),
        allocation.is_allocated(address) ==> allocation.maps(
            allocation.index_at(address),
            address,
        ),
        forall|index: int| #[trigger]
            allocation.maps(index, address) ==> index == allocation.index_at(address),
{
    lemma_capacities(allocation);
    lemma_end_parts(allocation);
    let start = allocation.spec_start_address();
    let first = allocation.first_capacity();
    let mid = allocation.mid_capacity();
    let count = allocation.spec_count() as int;
    let k = allocation.index_at(address);
    assert forall|index: int| #[trigger] allocation.maps(index, address) implies index == k
        && start.0 <= address.0 < allocation.end_position() && !allocation.in_padding(address) by {
        lemma_position_parts(allocation, index);
        if index < count - 1 {
            lemma_position_increasing(allocation, index, count - 1);
        }
        if index >= first {
            let beyond = index - first;
            assert((address.spec_universe() - start.spec_universe() - 1) * mid == (beyond / mid)
                * mid);
        }
    }
    if start.0 <= address.0 < allocation.end_position() && !allocation.in_padding(address) {
        if address.spec_universe() != start.spec_universe() {
            let between = address.spec_universe() - start.spec_universe() - 1;
            assert(0 <= between * mid) by (nonlinear_arith)
                requires
                    0 <= between,
                    0 <= mid,
            ;
            lemma_fundamental_div_mod_converse(
                between * mid + address.spec_channel(),
                mid,
                between,
                address.spec_channel() as int,
            );
        }
        lemma_position_parts(allocation, k);
        assert(allocation.position_of(k) == address.0);
        if k >= count {
            if k > count - 1 {
                lemma_position_increasing(allocation, count - 1, k);
            }
        }
        assert(allocation.maps(k, address));
    }
}

/// The channels of an allocation in one universe. They form one range: from
/// the start address in the first universe, from channel 0 in every other,
/// as many as `channels_in` says. Where there are any, the range lies within
/// the universe and between the start and the end of the allocation.
pub proof fn lemma_range_in(allocation: DmxAllocation, universe: int)
    requires
        allocation.wf(),
    ensures
        0 <= allocation.channels_in(universe),
        allocation.channels_in(universe) > 0 ==> {
            &&& allocation.spec_start_address().0 <= allocation.first_position_in(universe)
            &&& universe * 512 <= allocation.first_position_in(universe)
            &&& allocation.first_position_in(universe) + allocation.channels_in(universe) <= (
            universe + 1) * 512
            &&& allocation.first_position_in(universe) + allocation.channels_in(universe)
                <= allocation.end_position()
        },
        forall|address: DmxAddress|
            address.spec_universe() == universe ==> (#[trigger] allocation.is_allocated(address)
                <==> allocation.first_position_in(universe) <= address.0
                < allocation.first_position_in(universe) + allocation.channels_in(universe)),
{
    lemma_capacities(allocation);
    lemma_end_parts(allocation);
    assert forall|address: DmxAddress| address.spec_universe() == universe implies (
    #[trigger] allocation.is_allocated(address) <==> allocation.first_position_in(universe)
        <= address.0 < allocation.first_position_in(universe) + allocation.channels_in(
        universe,
    )) by {
        lemma_allocated_iff(allocation, address);
    }
}

/// The logical indices of an allocation and the addresses that hold one of
/// its channels correspond one to one. Every index below the count has an
/// address, between the start and the end of the allocation, and `index_at`
/// leads back from that address to the index. No two indices share an
/// address. No address outside the range from start to end holds a channel,
/// and an address that holds one holds the channel of exactly one index.
pub proof fn lemma_indices_and_addresses_correspond(
    allocation: DmxAllocation,
    i: int,
    j: int,
    address: DmxAddress,
)
    requires
        allocation.wf(),
    ensures
        0 <= i < allocation.spec_count() ==> {
            &&& allocation.spec_start_address().0 <= allocation.position_of(i)
                < allocation.end_position()
            &&& allocation.is_allocated(DmxAddress(allocation.position_of(i) as usize))
            &&& allocation.index_at(DmxAddress(allocation.position_of(i) as usize)) == i
        },
        0 <= i < allocation.spec_count() && 0 <= j < allocation.spec_count()
            && allocation.position_of(i) == allocation.position_of(j) ==> i == j,
        !(allocation.spec_start_address().0 <= address.0 < allocation.end_position())
            ==> !allocation.is_allocated(address),
        allocation.is_allocated(address) ==> {
            &&& 0 <= allocation.index_at(address) < allocation.spec_count()
            &&& allocation.position_of(allocation.index_at(address)) == address.0
        },
        allocation.maps(i, address) && allocation.maps(j, address) ==> i == j,
{
    lemma_allocated_iff(allocation, address);
    if 0 <= i < allocation.spec_count() {
        lemma_position_parts(allocation, i);
        lemma_end_parts(allocation);
        if i < allocation.spec_count() - 1 {
            lemma_position_increasing(allocation, i, allocation.spec_count() - 1);
        }
        let there = DmxAddress(allocation.position_of(i) as usize);
        assert(allocation.maps(i, there));
        lemma_allocated_iff(allocation, there);
        if 0 <= j < allocation.spec_count() {
            if i < j {
                lemma_position_increasing(allocation, i, j);
            }
            if j < i {
                lemma_position_increasing(allocation, j, i);
            }
        }
    }
}

/// No channel of an allocation lies in padding: at an address whose offset
/// in its universe, counted from the start channel in the first universe and
/// from channel 0 in every other, reaches the capacity of that universe.
pub proof fn lemma_padding_holds_no_channel(allocation: DmxAllocation, address: DmxAddress)
    requires
        allocation.wf(),
        allocation.in_padding(address),
    ensures
        !allocation.is_allocated(address),
        forall|index: int| !allocation.maps(index, address),
{
    lemma_allocated_iff(allocation, address);
}

/// No group is split across universes. The channels are grouped by their
/// logical indices, `grouping` at a time from index 0 on, and each channel
/// lies in the universe of the first channel of its group: two channels of
/// one group lie in one universe.
pub proof fn lemma_groups_are_not_split(allocation: DmxAllocation, i: int, j: int)
    requires
        allocation.wf(),
        0 <= i,
        0 <= j,
    ensures
        allocation.position_of(i) / 512 == allocation.position_of(
            i - i % (allocation.spec_grouping() as int),
        ) / 512,
        i / (allocation.spec_grouping() as int) == j / (allocation.spec_grouping() as int)
            ==> allocation.position_of(i) / 512 == allocation.position_of(j) / 512,
{
    let g = allocation.spec_grouping() as int;
    lemma_group_start(allocation, i);
    lemma_group_start(allocation, j);
    lemma_fundamental_div_mod(i, g);
    lemma_fundamental_div_mod(j, g);
}

/// A channel lies in the universe of the first channel of its group.
proof fn lemma_group_start(allocation: DmxAllocation, i: int)
    requires
        1 <= allocation.spec_grouping() <= 512,
        0 <= i,
    ensures
        0 <= i - i % (allocation.spec_grouping() as int) <= i,
        allocation.position_of(i) / 512 == allocation.position_of(
            i - i % (allocation.spec_grouping() as int),
        ) / 512,
{
    let g = allocation.spec_grouping() as int;
    let first = allocation.first_capacity();
    let mid = allocation.mid_capacity();
    let start = i - i % g;
    lemma_capacities(allocation);
    lemma_whole_groups(i, g);
    lemma_position_parts(allocation, i);
    lemma_position_parts(allocation, start);
    if i >= first {
        lemma_multiple_below(first, g, i);
        let x = i - first;
        let y = start - first;
        let q = x / mid;
        lemma_fundamental_div_mod(x, mid);
        lemma_mod_bound(x, mid);
        assert(q * mid == mid * q) by (nonlinear_arith);
        assert((q * mid) % g == 0) by {
            lemma_product_of_multiple(q, mid, g);
        }
        assert(0 <= q * mid) by (nonlinear_arith)
            requires
                0 <= q,
                0 <= mid,
        ;
        lemma_sum_of_multiples(q * mid, first, g);
        lemma_multiple_below(q * mid + first, g, i);
        lemma_fundamental_div_mod_converse(y, mid, q, y - q * mid);
    }
}

/// A multiple of `g` that is at most `i` is at most `i` rounded down to a
/// multiple of `g`.
proof fn lemma_multiple_below(multiple: int, g: int, i: int)
    requires
        0 < g,
        0 <= multiple <= i,
        multiple % g == 0,
    ensures
        multiple <= i - i % g,
{
    lemma_fundamental_div_mod(multiple, g);
    lemma_fundamental_div_mod(i, g);
    lemma_mod_bound(i, g);
    let a = multiple / g;
    let b = i / g;
    assert(a <= b) by (nonlinear_arith)
        requires
            0 < g,
            g * a <= g * b + i % g,
            0 <= i % g < g,
    ;
    assert(g * a <= g * b) by (nonlinear_arith)
        requires
            0 < g,
            a <= b,
    ;
}

/// A multiple of a multiple of `g` is a multiple of `g`.
proof fn lemma_product_of_multiple(q: int, multiple: int, g: int)
    requires
        0 < g,
        multiple % g == 0,
    ensures
        (q * multiple) % g == 0,
{
    lemma_fundamental_div_mod(multiple, g);
    let m = multiple / g;
    assert(q * multiple == g * (q * m)) by (nonlinear_arith)
        requires
            multiple == g * m,
    ;
    lemma_fundamental_div_mod_converse(q * multiple, g, q * m, 0);
}

/// The sum of two multiples of `g` is a multiple of `g`.
proof fn lemma_sum_of_multiples(a: int, b: int, g: int)
    requires
        0 < g,
        a % g == 0,
        b % g == 0,
    ensures
        (a + b) % g == 0,
{
    lemma_fundamental_div_mod(a, g);
    lemma_fundamental_div_mod(b, g);
    assert(a + b == g * (a / g + b / g)) by (nonlinear_arith)
        requires
            a == g * (a / g),
            b == g * (b / g),
    ;
    lemma_fundamental_div_mod_converse(a + b, g, a / g + b / g, 0);
}

/// The ranges of an allocation in its universes make up its whole range but
/// for the padding: an address between the start and the end of the
/// allocation lies in the range of its universe exactly when it does not lie
/// in padding. The range of a universe that holds channels lies between
/// start and end, and the ranges of two universes do not overlap.
pub proof fn lemma_universe_ranges_partition(
    allocation: DmxAllocation,
    address: DmxAddress,
    u: int,
    v: int,
)
    requires
        allocation.wf(),
    ensures
        allocation.spec_start_address().0 <= address.0 < allocation.end_position() ==> (
        !allocation.in_padding(address) <==> allocation.first_position_in(
            address.spec_universe() as int,
        ) <= address.0 < allocation.first_position_in(address.spec_universe() as int)
            + allocation.channels_in(address.spec_universe() as int)),
        allocation.channels_in(u) > 0 ==> allocation.spec_start_address().0
            <= allocation.first_position_in(u) && allocation.first_position_in(u)
            + allocation.channels_in(u) <= allocation.end_position(),
        u < v && allocation.channels_in(u) > 0 && allocation.channels_in(v) > 0
            ==> allocation.first_position_in(u) + allocation.channels_in(u)
            <= allocation.first_position_in(v),
{
    lemma_range_in(allocation, u);
    lemma_range_in(allocation, v);
    lemma_range_in(allocation, address.spec_universe() as int);
    lemma_allocated_iff(allocation, address);
}

/// Where a layout of at least one channel ends that starts at channel
/// `channel` of universe `universe`: `count` channels after its start where
/// that is within the capacity of the first universe, else in a later
/// universe, one past the channel of its last channel.
proof fn lemma_config_end(universe: int, channel: int, count: int, grouping: int)
    requires
        0 <= universe,
        0 <= channel < 512,
        1 <= count,
        1 <= grouping <= 512,
    ensures
        ({
            let first = usable_channels(channel, grouping);
            let mid = usable_channels(0, grouping);
            let end = layout_end(universe * 512 + channel, count, grouping);
            &&& 0 <= first <= 512 - channel
            &&& 1 <= mid <= 512
            &&& universe * 512 + channel <= end
            &&& count <= first ==> end == universe * 512 + channel + count
            &&& count > first ==> {
                &&& 0 <= (count - first - 1) / mid
                &&& 0 <= (count - first - 1) % mid < mid
                &&& end == (universe + 1 + (count - first - 1) / mid) * 512 + (count - first - 1)
                    % mid + 1
            }
        }),
{
    let start = universe * 512 + channel;
    assert(start % 512 == channel);
    assert(start / 512 == universe);
    let first = usable_channels(channel, grouping);
    let mid = usable_channels(0, grouping);
    lemma_whole_groups(512 - channel, grouping);
    lemma_whole_groups(512, grouping);
    if count > first {
        let last = count - first - 1;
        lemma_mod_bound(last, mid);
        assert(0 <= last / mid) by (nonlinear_arith)
            requires
                0 <= last,
                0 < mid,
        ;
    }
}

/// Rounding `n` down to whole groups of `g` gives a multiple of `g` that is
/// at most `n`, and at least `g` where `n` is.
proof fn lemma_whole_groups(n: int, g: int)
    requires
        0 <= n,
        0 < g,
    ensures
        0 <= n - n % g <= n,
        n - n % g == (n / g) * g,
        (n - n % g) % g == 0,
        g <= n ==> g <= n - n % g,
{
    lemma_fundamental_div_mod(n, g);
    lemma_mod_bound(n, g);
    assert(g * (n / g) == (n / g) * g) by (nonlinear_arith);
    assert(0 <= n / g) by (nonlinear_arith)
        requires
            0 <= n,
            0 < g,
    ;
    lemma_fundamental_div_mod_converse(n - n % g, g, n / g, 0);
    if g <= n {
        assert(1 <= n / g) by (nonlinear_arith)
            requires
                0 < g <= n,
        ;
        assert(g <= (n / g) * g) by (nonlinear_arith)
            requires
                1 <= n / g,
                0 < g,
        ;
    }
}

} // verus!
