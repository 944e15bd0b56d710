//! Laying out a colour of the hue wheel on the red, green and blue channels.
//!
//! The hue wheel is cut into six sectors of sixty degrees. Within a sector one
//! channel is at its peak, one at the floor, and the third moves between the
//! two. The three levels are the caller's to compute; which channel gets
//! which is decided here.

use vstd::prelude::*;
use vstd::multiset::Multiset;

verus! {

/// Degrees of hue that one sector spans.
pub const SECTOR_DEGREES: u32 = 60;

/// A colour channel.
#[derive(Clone, Copy, PartialEq, Eq, Structural, Debug)]
pub enum Channel {
    Red,
    Green,
    Blue,
}

/// The channel at its peak in a sector: red around 0 degrees, green around
/// 120, blue around 240. A sector index past the fifth counts as the fifth.
pub open spec fn peak_channel(sector: u8) -> Channel {
    if sector == 1 || sector == 2 {
        Channel::Green
    } else if sector == 3 || sector == 4 {
        Channel::Blue
    } else {
        Channel::Red
    }
}

/// The channel at the floor in a sector: the one opposite on the wheel.
pub open spec fn floor_channel(sector: u8) -> Channel {
    if sector == 0 || sector == 1 {
        Channel::Blue
    } else if sector == 2 || sector == 3 {
        Channel::Red
    } else {
        Channel::Green
    }
}

/// The level that a channel is given in a sector.
pub open spec fn level_of<T>(sector: u8, channel: Channel, peak: T, mid: T, floor: T) -> T {
    if channel == peak_channel(sector) {
        peak
    } else if channel == floor_channel(sector) {
        floor
    } else {
        mid
    }
}

/// The levels of red, green and blue in a sector.
pub open spec fn arranged<T>(sector: u8, peak: T, mid: T, floor: T) -> (T, T, T) {
    (
        level_of(sector, Channel::Red, peak, mid, floor),
        level_of(sector, Channel::Green, peak, mid, floor),
        level_of(sector, Channel::Blue, peak, mid, floor),
    )
}

/// Hands the three levels to the channels of a sector and returns them in
/// the order red, green, blue.
pub fn arrange<T>(sector: u8, peak: T, mid: T, floor: T) -> (rgb: (T, T, T))
    ensures
        rgb == arranged(sector, peak, mid, floor),
{
    match sector {
        0 => (peak, mid, floor),
        1 => (mid, peak, floor),
        2 => (floor, peak, mid),
        3 => (floor, mid, peak),
        4 => (mid, floor, peak),
        _ => (peak, floor, mid),
    }
}

/// In every sector the peak and the floor fall on different channels, so each
/// of the three levels is handed out once: the layout is a rearrangement.
pub proof fn lemma_arranged_rearranges<T>(sector: u8, peak: T, mid: T, floor: T)
    ensures
        peak_channel(sector) != floor_channel(sector),
        ({
            let (r, g, b) = arranged(sector, peak, mid, floor);
            seq![r, g, b].to_multiset() == seq![peak, mid, floor].to_multiset()
        }),
{
    let (r, g, b) = arranged(sector, peak, mid, floor);
    lemma_three_items(r, g, b);
    lemma_three_items(peak, mid, floor);
    assert(seq![r, g, b].to_multiset() =~= seq![peak, mid, floor].to_multiset());
}

/// The items of a sequence of three, one insertion at a time.
proof fn lemma_three_items<T>(a: T, b: T, c: T)
    ensures
        seq![a, b, c].to_multiset() == Multiset::<T>::empty().insert(a).insert(b).insert(c),
{
    broadcast use vstd::seq_lib::group_to_multiset_ensures;

    let none = Seq::<T>::empty();
    assert(none.to_multiset().len() == 0);
    assert(none.to_multiset() =~= Multiset::<T>::empty());
    assert(seq![a, b, c] =~= none.push(a).push(b).push(c));
}

} // verus!
