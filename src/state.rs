use vstd::prelude::*;

use crate::target::{BtLane, Channel, LightingTarget, Side, lane_index, side_index};

verus! {

/// A colour: one value per channel.
#[derive(Debug, Clone, Copy, PartialEq, Eq, Hash, Structural)]
pub struct Rgb<T> {
    pub r: T,
    pub g: T,
    pub b: T,
}

/// The full intensity of a light, in 255ths: a pressed button shows this.
pub const FULL: u8 = 255;

pub open spec fn channel_of<T>(c: Channel, rgb: Rgb<T>) -> T {
    match c {
        Channel::R => rgb.r,
        Channel::G => rgb.g,
        Channel::B => rgb.b,
    }
}

impl Channel {
    /// The component of `rgb` that this channel selects.
    pub fn get<T: Copy>(&self, rgb: Rgb<T>) -> (r: T)
        ensures
            r == channel_of(*self, rgb),
    {
        match self {
            Channel::R => rgb.r,
            Channel::G => rgb.g,
            Channel::B => rgb.b,
        }
    }
}

/// A point-in-time copy of what the lights should show. Colour values are
/// intensities in 255ths, as the host hands them over; `buttons` holds lanes
/// A to D at 0 to 3, the effect buttons at 4 (left) and 5 (right), and Start
/// at 6.
#[derive(Debug, Clone, Copy, PartialEq, Eq)]
pub struct LightingData {
    pub top: [Rgb<u8>; 2],
    pub middle: [Rgb<u8>; 2],
    pub bottom: [Rgb<u8>; 2],
    pub buttons: [bool; 7],
}

/// The index into `buttons` of the Start button.
pub const START_BUTTON: usize = 6;

/// The index into `buttons` of the first effect button.
pub const FX_BUTTONS: usize = 4;

pub open spec fn button_level(pressed: bool) -> u8 {
    if pressed {
        FULL
    } else {
        0
    }
}

/// The current value of a target in `data`: buttons are off or full, colour
/// targets give the selected channel of their zone.
pub open spec fn level_of(t: LightingTarget, data: LightingData) -> u8 {
    match t {
        LightingTarget::Start => button_level(data.buttons@[START_BUTTON as int]),
        LightingTarget::Bt(l) => button_level(data.buttons@[lane_index(l)]),
        LightingTarget::Fx(s) => button_level(data.buttons@[FX_BUTTONS + side_index(s)]),
        LightingTarget::Top(s, c) => channel_of(c, data.top@[side_index(s)]),
        LightingTarget::Middle(s, c) => channel_of(c, data.middle@[side_index(s)]),
        LightingTarget::Bottom(s, c) => channel_of(c, data.bottom@[side_index(s)]),
    }
}

/// Whether bit `i` of a button bitfield is set.
pub open spec fn bit_set(bitfield: u32, i: int) -> bool {
    bitfield & (1u32 << (i as u32)) != 0
}

/// Why a request from the host was refused.
#[derive(Debug, Clone, Copy, PartialEq, Eq, Hash)]
pub enum LightsError {
    /// The zone position was not one of bottom (0), middle (1) or top (2).
    InvalidPosition(u32),
}

fn lane_slot(l: BtLane) -> (i: usize)
    ensures
        i == lane_index(l),
{
    match l {
        BtLane::A => 0,
        BtLane::B => 1,
        BtLane::C => 2,
        BtLane::D => 3,
    }
}

fn side_slot(s: Side) -> (i: usize)
    ensures
        i == side_index(s),
{
    match s {
        Side::Left => 0,
        Side::Right => 1,
    }
}

fn level_from(pressed: bool) -> (r: u8)
    ensures
        r == button_level(pressed),
{
    if pressed {
        FULL
    } else {
        0
    }
}

impl LightingData {
    /// All buttons released and all lights dark.
    pub fn new() -> (r: LightingData)
        ensures
            forall|i: int| 0 <= i < 7 ==> !r.buttons@[i],
            forall|i: int| 0 <= i < 2 ==> r.top@[i] == (Rgb { r: 0u8, g: 0u8, b: 0u8 }),
            forall|i: int| 0 <= i < 2 ==> r.middle@[i] == (Rgb { r: 0u8, g: 0u8, b: 0u8 }),
            forall|i: int| 0 <= i < 2 ==> r.bottom@[i] == (Rgb { r: 0u8, g: 0u8, b: 0u8 }),
    {
        let dark = Rgb { r: 0u8, g: 0u8, b: 0u8 };
        LightingData {
            top: [dark, dark],
            middle: [dark, dark],
            bottom: [dark, dark],
            buttons: [false, false, false, false, false, false, false],
        }
    }

    /// The current value of `target`.
    pub fn get(&self, target: LightingTarget) -> (r: u8)
        ensures
            r == level_of(target, *self),
    {
        match target {
            LightingTarget::Start => level_from(self.buttons[START_BUTTON]),
            LightingTarget::Bt(l) => level_from(self.buttons[lane_slot(l)]),
            LightingTarget::Fx(s) => level_from(self.buttons[FX_BUTTONS + side_slot(s)]),
            LightingTarget::Top(s, c) => c.get(self.top[side_slot(s)]),
            LightingTarget::Middle(s, c) => c.get(self.middle[side_slot(s)]),
            LightingTarget::Bottom(s, c) => c.get(self.bottom[side_slot(s)]),
        }
    }

    /// Sets every button from a bitfield: bit `i` is button `i`. Bits beyond
    /// the seventh name no button and are ignored.
    pub fn set_buttons(&mut self, bitfield: u32)
        ensures
            forall|i: int| 0 <= i < 7 ==> final(self).buttons@[i] == bit_set(bitfield, i),
            final(self).top == old(self).top,
            final(self).middle == old(self).middle,
            final(self).bottom == old(self).bottom,
    {
        let mut i: usize = 0;
        while i < 7
            invariant
                i <= 7,
                forall|j: int| 0 <= j < i ==> self.buttons@[j] == bit_set(bitfield, j),
                self.top == old(self).top,
                self.middle == old(self).middle,
                self.bottom == old(self).bottom,
            decreases 7 - i,
        {
            self.buttons.set(i, bitfield & (1u32 << (i as u32)) != 0);
            i = i + 1;
        }
    }

    /// Sets one colour zone: `left` is 1 for the left side, anything else for
    /// the right; `pos` is 0 for bottom, 1 for middle and 2 for top. Any other
    /// position is refused and leaves the data as it was.
    pub fn set_lights(&mut self, left: u8, pos: u32, r: u8, g: u8, b: u8) -> (res: Result<
        (),
        LightsError,
    >)
        ensures
            res is Err <==> pos > 2,
            res is Err ==> res == Err::<(), LightsError>(LightsError::InvalidPosition(pos))
                && *final(self) == *old(self),
            ({
                let side: int = if left == 1 { 0 } else { 1 };
                let colour = Rgb { r, g, b };
                pos <= 2 ==> {
                    &&& final(self).buttons == old(self).buttons
                    &&& final(self).bottom@ == if pos == 0 {
                        old(self).bottom@.update(side, colour)
                    } else {
                        old(self).bottom@
                    }
                    &&& final(self).middle@ == if pos == 1 {
                        old(self).middle@.update(side, colour)
                    } else {
                        old(self).middle@
                    }
                    &&& final(self).top@ == if pos == 2 {
                        old(self).top@.update(side, colour)
                    } else {
                        old(self).top@
                    }
                }
            }),
    {
        let side: usize = if left == 1 {
            0
        } else {
            1
        };
        let colour = Rgb { r, g, b };
        if pos == 0 {
            self.bottom.set(side, colour);
        } else if pos == 1 {
            self.middle.set(side, colour);
        } else if pos == 2 {
            self.top.set(side, colour);
        } else {
            return Err(LightsError::InvalidPosition(pos));
        }
        Ok(())
    }
}

} // verus!
