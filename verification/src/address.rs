use std::cmp::Ordering;
use std::ops::{Add, AddAssign, Sub, SubAssign};
use vstd::prelude::*;
use vstd::std_specs::ops::{AddSpec, SubSpec};

verus! {

/// A DMX channel, identified by its position in the linear sequence of all
/// channels of all universes: channel `c` of universe `u` is position
/// `u * 512 + c`. The position is the only field, so every `usize` is an
/// address, and two addresses are equal exactly when their positions are.
///
/// The channel takes nine bits, so that all 512 channels of a universe have
/// a position of their own.
#[derive(Debug, Clone, Copy, PartialEq, Eq, Ord, Hash, Structural)]
pub struct DmxAddress(pub usize);

impl DmxAddress {
    /// The address of a channel of a universe: position
    /// `universe * 512 + channel`, with the channel taken modulo 512. A
    /// position beyond `usize::MAX` is cut to the bits of a `usize`.
    pub open spec fn spec_new(universe: usize, channel: usize) -> DmxAddress {
        DmxAddress((universe * 512 + channel % 512) as usize)
    }

    /// The universe this address lies in.
    pub open spec fn spec_universe(self) -> usize {
        self.0 / 512
    }

    /// The channel of this address within its universe.
    pub open spec fn spec_channel(self) -> usize {
        self.0 % 512
    }

    /// The position of this address in the linear sequence of channels.
    pub open spec fn spec_value(self) -> usize {
        self.0
    }

    /// Creates the address of a channel of a universe.
    ///
    /// A channel of 512 or more is truncated to its lowest nine bits, that
    /// is taken modulo 512: the address lies in the given universe whatever
    /// the channel is. A universe beyond `usize::MAX / 512`, whose channels
    /// have no position in `usize`, loses its highest bits.
    #[inline]
    #[verifier::when_used_as_spec(spec_new)]
    pub fn new(universe: usize, channel: usize) -> (r: Self)
        ensures
            r == Self::spec_new(universe, channel),
            r.spec_channel() == channel % 512,
            universe <= usize::MAX / 512 ==> r.0 == universe * 512 + channel % 512
                && r.spec_universe() == universe,
    {
        assert(((universe << 9) | (channel & 0x1FF)) == (universe * 512 + channel % 512) as usize)
            by (bit_vector);
        assert(((universe << 9) | (channel & 0x1FF)) % 512 == channel % 512) by (bit_vector);
        Self((universe << 9) | (channel & 0x1FF))
    }

    /// Fetches the universe this address lies in.
    #[inline]
    #[verifier::when_used_as_spec(spec_universe)]
    pub fn universe(self) -> (r: usize)
        ensures
            r == self.0 / 512,
    {
        let v: usize = self.0;
        assert(v >> 9 == v / 512) by (bit_vector);
        v >> 9
    }

    /// Fetches the channel of this address within its universe.
    #[inline]
    #[verifier::when_used_as_spec(spec_channel)]
    pub fn channel(self) -> (r: usize)
        ensures
            r == self.0 % 512,
    {
        let v: usize = self.0;
        assert(v & 0x1FF == v % 512) by (bit_vector);
        v & 0x1FF
    }

    /// Fetches the position of this address in the linear sequence of
    /// channels.
    #[inline]
    #[verifier::when_used_as_spec(spec_value)]
    pub fn value(self) -> (r: usize)
        ensures
            r == self.0,
    {
        self.0
    }
}

/// The address of a channel below 512 in a universe whose channels all have
/// a position in `usize` lies at position `universe * 512 + channel`, from
/// which `universe` and `channel` give the two parts back.
pub proof fn lemma_new_is_linear(universe: usize, channel: usize)
    ensures
        channel < 512 && universe <= usize::MAX / 512 ==> {
            &&& DmxAddress::spec_new(universe, channel).0 == universe * 512 + channel
            &&& DmxAddress::spec_new(universe, channel).spec_universe() == universe
            &&& DmxAddress::spec_new(universe, channel).spec_channel() == channel
        },
{
}

/// A channel of 512 or more is truncated: the address lies in the given
/// universe, at the channel modulo 512.
pub proof fn lemma_new_truncates_the_channel(universe: usize, channel: usize)
    requires
        universe <= usize::MAX / 512,
    ensures
        DmxAddress::spec_new(universe, channel).spec_universe() == universe,
        DmxAddress::spec_new(universe, channel).spec_channel() == channel % 512,
        DmxAddress::spec_new(universe, channel) == DmxAddress::spec_new(
            universe,
            (channel % 512) as usize,
        ),
{
}

/// Every address is the address of its own channel in its own universe.
pub proof fn lemma_new_of_parts(address: DmxAddress)
    ensures
        DmxAddress::spec_new(address.spec_universe(), address.spec_channel()) == address,
{
    lemma_new_is_linear(address.spec_universe(), address.spec_channel());
}

/// Adding to an address carries across universe boundaries: the sum of the
/// address of channel `channel` in universe `universe` and `n` is the address
/// of position `universe * 512 + channel + n`, so that its universe is the
/// quotient of that position by 512 and its channel the remainder. Stepping
/// from the last channel of a universe reaches channel 0 of the next.
pub proof fn lemma_add_carries(universe: usize, channel: usize, n: usize)
    requires
        channel < 512,
        universe * 512 + channel + n <= usize::MAX,
    ensures
        DmxAddress::spec_new(universe, channel).add_req(n),
        DmxAddress::spec_new(universe, channel).add_spec(n).0 == universe * 512 + channel + n,
        DmxAddress::spec_new(universe, channel).add_spec(n).spec_universe() == (universe * 512
            + channel + n) / 512,
        DmxAddress::spec_new(universe, channel).add_spec(n).spec_channel() == (universe * 512
            + channel + n) % 512,
        channel == 511 && n == 1 ==> DmxAddress::spec_new(universe, channel).add_spec(n)
            == DmxAddress::spec_new((universe + 1) as usize, 0),
{
    lemma_new_is_linear(universe, channel);
    if channel == 511 && n == 1 {
        lemma_new_is_linear((universe + 1) as usize, 0);
    }
}

/// Subtracting from an address borrows across universe boundaries: it is
/// the address of the position less `n`.
pub proof fn lemma_sub_borrows(universe: usize, channel: usize, n: usize)
    requires
        channel < 512,
        universe <= usize::MAX / 512,
        n <= universe * 512 + channel,
    ensures
        DmxAddress::spec_new(universe, channel).sub_req(n),
        DmxAddress::spec_new(universe, channel).sub_spec(n).0 == universe * 512 + channel - n,
        DmxAddress::spec_new(universe, channel).sub_spec(n).add_spec(n) == DmxAddress::spec_new(
            universe,
            channel,
        ),
{
    lemma_new_is_linear(universe, channel);
}

/// The default address is channel 0 of universe 0.
impl Default for DmxAddress {
    fn default() -> (r: Self)
        ensures
            r.0 == 0,
    {
        Self(0)
    }
}

impl From<usize> for DmxAddress {
    fn from(value: usize) -> (r: Self) {
        Self(value)
    }
}

impl vstd::std_specs::convert::FromSpecImpl<usize> for DmxAddress {
    open spec fn obeys_from_spec() -> bool {
        true
    }

    open spec fn from_spec(value: usize) -> Self {
        DmxAddress(value)
    }
}

impl From<(usize, usize)> for DmxAddress {
    fn from(parts: (usize, usize)) -> (r: Self) {
        Self::new(parts.0, parts.1)
    }
}

impl vstd::std_specs::convert::FromSpecImpl<(usize, usize)> for DmxAddress {
    open spec fn obeys_from_spec() -> bool {
        true
    }

    open spec fn from_spec(parts: (usize, usize)) -> Self {
        DmxAddress::spec_new(parts.0, parts.1)
    }
}

impl From<DmxAddress> for (usize, usize) {
    fn from(address: DmxAddress) -> (r: Self) {
        (address.universe(), address.channel())
    }
}

impl vstd::std_specs::convert::FromSpecImpl<DmxAddress> for (usize, usize) {
    open spec fn obeys_from_spec() -> bool {
        true
    }

    open spec fn from_spec(address: DmxAddress) -> Self {
        (address.spec_universe(), address.spec_channel())
    }
}

impl PartialOrd for DmxAddress {
    fn partial_cmp(&self, other: &Self) -> (r: Option<Ordering>) {
        if self.0 < other.0 {
            Some(Ordering::Less)
        } else if self.0 > other.0 {
            Some(Ordering::Greater)
        } else {
            Some(Ordering::Equal)
        }
    }
}

/// Addresses are ordered by their position.
impl vstd::std_specs::cmp::PartialOrdSpecImpl for DmxAddress {
    open spec fn obeys_partial_cmp_spec() -> bool {
        true
    }

    open spec fn partial_cmp_spec(&self, other: &Self) -> Option<Ordering> {
        if self.0 < other.0 {
            Some(Ordering::Less)
        } else if self.0 > other.0 {
            Some(Ordering::Greater)
        } else {
            Some(Ordering::Equal)
        }
    }
}

impl Add<usize> for DmxAddress {
    type Output = Self;

    fn add(self, rhs: usize) -> (r: Self) {
        Self(self.0 + rhs)
    }
}

/// `address + n` is the address `n` positions further on. The sum has to fit
/// in `usize`.
impl vstd::std_specs::ops::AddSpecImpl<usize> for DmxAddress {
    open spec fn obeys_add_spec() -> bool {
        true
    }

    open spec fn add_req(self, rhs: usize) -> bool {
        self.0 + rhs <= usize::MAX
    }

    open spec fn add_spec(self, rhs: usize) -> Self {
        DmxAddress((self.0 + rhs) as usize)
    }
}

impl Add<DmxAddress> for DmxAddress {
    type Output = Self;

    fn add(self, rhs: Self) -> (r: Self) {
        Self(self.0 + rhs.0)
    }
}

/// The sum of two addresses is the address at the sum of their positions.
impl vstd::std_specs::ops::AddSpecImpl<DmxAddress> for DmxAddress {
    open spec fn obeys_add_spec() -> bool {
        true
    }

    open spec fn add_req(self, rhs: DmxAddress) -> bool {
        self.0 + rhs.0 <= usize::MAX
    }

    open spec fn add_spec(self, rhs: DmxAddress) -> Self {
        DmxAddress((self.0 + rhs.0) as usize)
    }
}

impl Sub<usize> for DmxAddress {
    type Output = Self;

    fn sub(self, rhs: usize) -> (r: Self) {
        Self(self.0 - rhs)
    }
}

/// `address - n` is the address `n` positions back. There is no address
/// before position 0.
impl vstd::std_specs::ops::SubSpecImpl<usize> for DmxAddress {
    open spec fn obeys_sub_spec() -> bool {
        true
    }

    open spec fn sub_req(self, rhs: usize) -> bool {
        rhs <= self.0
    }

    open spec fn sub_spec(self, rhs: usize) -> Self {
        DmxAddress((self.0 - rhs) as usize)
    }
}

impl Sub<DmxAddress> for DmxAddress {
    type Output = Self;

    fn sub(self, rhs: Self) -> (r: Self) {
        Self(self.0 - rhs.0)
    }
}

/// The difference of two addresses is the address at the difference of
/// their positions: the number of channels from the second to the first.
impl vstd::std_specs::ops::SubSpecImpl<DmxAddress> for DmxAddress {
    open spec fn obeys_sub_spec() -> bool {
        true
    }

    open spec fn sub_req(self, rhs: DmxAddress) -> bool {
        rhs.0 <= self.0
    }

    open spec fn sub_spec(self, rhs: DmxAddress) -> Self {
        DmxAddress((self.0 - rhs.0) as usize)
    }
}

impl AddAssign<usize> for DmxAddress {
    fn add_assign(&mut self, rhs: usize)
        requires
            old(self).0 + rhs <= usize::MAX,
        ensures
            final(self).0 == old(self).0 + rhs,
    {
        self.0 += rhs;
    }
}

impl AddAssign<DmxAddress> for DmxAddress {
    fn add_assign(&mut self, rhs: Self)
        requires
            old(self).0 + rhs.0 <= usize::MAX,
        ensures
            final(self).0 == old(self).0 + rhs.0,
    {
        self.0 += rhs.0;
    }
}

impl SubAssign<usize> for DmxAddress {
    fn sub_assign(&mut self, rhs: usize)
        requires
            rhs <= old(self).0,
        ensures
            final(self).0 == old(self).0 - rhs,
    {
        self.0 -= rhs;
    }
}

impl SubAssign<DmxAddress> for DmxAddress {
    fn sub_assign(&mut self, rhs: Self)
        requires
            rhs.0 <= old(self).0,
        ensures
            final(self).0 == old(self).0 - rhs.0,
    {
        self.0 -= rhs.0;
    }
}

} // verus!
