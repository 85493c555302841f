use vstd::prelude::*;

verus! {

/// One component of a colour.
#[derive(Debug, Clone, Copy, PartialEq, Eq, Hash, Structural)]
pub enum Channel {
    R,
    G,
    B,
}

/// One of the four button lanes.
#[derive(Debug, Clone, Copy, PartialEq, Eq, Hash, Structural)]
pub enum BtLane {
    A,
    B,
    C,
    D,
}

/// Left or right half of the controller.
#[derive(Debug, Clone, Copy, PartialEq, Eq, Hash, Structural)]
pub enum Side {
    Left,
    Right,
}

/// Every addressable light or button.
#[derive(Debug, Clone, Copy, PartialEq, Eq, Hash, Structural)]
pub enum LightingTarget {
    Start,
    Bt(BtLane),
    Fx(Side),
    Top(Side, Channel),
    Middle(Side, Channel),
    Bottom(Side, Channel),
}

pub open spec fn lane_at(i: int) -> BtLane {
    if i == 0 {
        BtLane::A
    } else if i == 1 {
        BtLane::B
    } else if i == 2 {
        BtLane::C
    } else {
        BtLane::D
    }
}

pub open spec fn side_at(i: int) -> Side {
    if i == 0 {
        Side::Left
    } else {
        Side::Right
    }
}

pub open spec fn channel_at(i: int) -> Channel {
    if i == 0 {
        Channel::R
    } else if i == 1 {
        Channel::G
    } else {
        Channel::B
    }
}

pub open spec fn lane_index(l: BtLane) -> int {
    match l {
        BtLane::A => 0,
        BtLane::B => 1,
        BtLane::C => 2,
        BtLane::D => 3,
    }
}

pub open spec fn side_index(s: Side) -> int {
    match s {
        Side::Left => 0,
        Side::Right => 1,
    }
}

pub open spec fn channel_index(c: Channel) -> int {
    match c {
        Channel::R => 0,
        Channel::G => 1,
        Channel::B => 2,
    }
}

/// The three colour zones, in the order in which they are enumerated.
pub open spec fn zone_target(zone: int, s: Side, c: Channel) -> LightingTarget {
    if zone == 0 {
        LightingTarget::Top(s, c)
    } else if zone == 1 {
        LightingTarget::Middle(s, c)
    } else {
        LightingTarget::Bottom(s, c)
    }
}

/// Number of concrete targets.
pub const TARGET_COUNT: usize = 25;

/// The target at position `i` of the full enumeration: `Start`, the lanes,
/// the effect buttons, then each colour zone as side × channel.
pub open spec fn target_at(i: int) -> LightingTarget {
    if i == 0 {
        LightingTarget::Start
    } else if i < 5 {
        LightingTarget::Bt(lane_at(i - 1))
    } else if i < 7 {
        LightingTarget::Fx(side_at(i - 5))
    } else {
        let z = (i - 7) / 6;
        let k = (i - 7) % 6;
        zone_target(z, side_at(k / 3), channel_at(k % 3))
    }
}

/// The position of a target in the full enumeration.
pub open spec fn target_index(t: LightingTarget) -> int {
    match t {
        LightingTarget::Start => 0,
        LightingTarget::Bt(l) => 1 + lane_index(l),
        LightingTarget::Fx(s) => 5 + side_index(s),
        LightingTarget::Top(s, c) => 7 + 3 * side_index(s) + channel_index(c),
        LightingTarget::Middle(s, c) => 13 + 3 * side_index(s) + channel_index(c),
        LightingTarget::Bottom(s, c) => 19 + 3 * side_index(s) + channel_index(c),
    }
}

/// The full enumeration of targets.
pub open spec fn all_targets() -> Seq<LightingTarget> {
    Seq::new(TARGET_COUNT as nat, |i: int| target_at(i))
}

/// Every target has a position in the enumeration, and that position holds it.
pub proof fn lemma_target_index(t: LightingTarget)
    ensures
        0 <= target_index(t) < TARGET_COUNT,
        target_at(target_index(t)) == t,
{
}

/// Each position of the enumeration holds the target whose position it is.
pub proof fn lemma_index_target(i: int)
    requires
        0 <= i < TARGET_COUNT,
    ensures
        target_index(target_at(i)) == i,
{
}

/// The enumeration holds exactly the targets there are, each once.
pub proof fn lemma_all_targets()
    ensures
        all_targets().len() == TARGET_COUNT,
        all_targets().no_duplicates(),
        forall|t: LightingTarget| all_targets().contains(t),
{
    assert forall|i: int, j: int|
        0 <= i < all_targets().len() && 0 <= j < all_targets().len() && i != j
            implies all_targets()[i] != all_targets()[j] by {
        lemma_index_target(i);
        lemma_index_target(j);
    }
    assert forall|t: LightingTarget| all_targets().contains(t) by {
        lemma_target_index(t);
        assert(all_targets()[target_index(t)] == t);
    }
}

fn lane_from(i: usize) -> (l: BtLane)
    requires
        i < 4,
    ensures
        l == lane_at(i as int),
{
    if i == 0 {
        BtLane::A
    } else if i == 1 {
        BtLane::B
    } else if i == 2 {
        BtLane::C
    } else {
        BtLane::D
    }
}

fn side_from(i: usize) -> (s: Side)
    requires
        i < 2,
    ensures
        s == side_at(i as int),
{
    if i == 0 {
        Side::Left
    } else {
        Side::Right
    }
}

fn channel_from(i: usize) -> (c: Channel)
    requires
        i < 3,
    ensures
        c == channel_at(i as int),
{
    if i == 0 {
        Channel::R
    } else if i == 1 {
        Channel::G
    } else {
        Channel::B
    }
}

fn zone_from(zone: usize, s: Side, c: Channel) -> (t: LightingTarget)
    requires
        zone < 3,
    ensures
        t == zone_target(zone as int, s, c),
{
    if zone == 0 {
        LightingTarget::Top(s, c)
    } else if zone == 1 {
        LightingTarget::Middle(s, c)
    } else {
        LightingTarget::Bottom(s, c)
    }
}

proof fn lemma_zone_position(z: int, s: int, c: int)
    requires
        0 <= z < 3,
        0 <= s < 2,
        0 <= c < 3,
    ensures
        target_at(7 + 6 * z + 3 * s + c) == zone_target(z, side_at(s), channel_at(c)),
{
    let i = 7 + 6 * z + 3 * s + c;
    assert((i - 7) / 6 == z && (i - 7) % 6 == 3 * s + c) by (nonlinear_arith)
        requires
            i == 7 + 6 * z + 3 * s + c,
            0 <= s < 2,
            0 <= c < 3,
            0 <= z,
    ;
    assert((3 * s + c) / 3 == s && (3 * s + c) % 3 == c) by (nonlinear_arith)
        requires
            0 <= c < 3,
            0 <= s,
    ;
}

impl LightingTarget {
    /// Every concrete target once: `Start`, the lanes, the effect buttons, then
    /// for each colour zone the cross product of sides and channels.
    pub fn iter() -> (r: Vec<LightingTarget>)
        ensures
            r@ == all_targets(),
    {
        let mut v: Vec<LightingTarget> = Vec::new();
        v.push(LightingTarget::Start);
        let mut i: usize = 0;
        while i < 4
            invariant
                i <= 4,
                v@ == all_targets().take(1 + i),
            decreases 4 - i,
        {
            v.push(LightingTarget::Bt(lane_from(i)));
            i = i + 1;
            assert(v@ =~= all_targets().take(1 + i));
        }
        let mut i: usize = 0;
        while i < 2
            invariant
                i <= 2,
                v@ == all_targets().take(5 + i),
            decreases 2 - i,
        {
            v.push(LightingTarget::Fx(side_from(i)));
            i = i + 1;
            assert(v@ =~= all_targets().take(5 + i));
        }
        let mut z: usize = 0;
        while z < 3
            invariant
                z <= 3,
                v@ == all_targets().take(7 + 6 * z),
            decreases 3 - z,
        {
            let mut s: usize = 0;
            while s < 2
                invariant
                    z < 3,
                    s <= 2,
                    v@ == all_targets().take(7 + 6 * z + 3 * s),
                decreases 2 - s,
            {
                let side = side_from(s);
                let mut c: usize = 0;
                while c < 3
                    invariant
                        z < 3,
                        s < 2,
                        c <= 3,
                        side == side_at(s as int),
                        v@ == all_targets().take(7 + 6 * z + 3 * s + c),
                    decreases 3 - c,
                {
                    let t = zone_from(z, side, channel_from(c));
                    proof {
                        lemma_zone_position(z as int, s as int, c as int);
                    }
                    v.push(t);
                    c = c + 1;
                    assert(v@ =~= all_targets().take(7 + 6 * z + 3 * s + c));
                }
                s = s + 1;
            }
            z = z + 1;
        }
        assert(v@ =~= all_targets());
        v
    }
}

pub open spec fn lane_name(l: BtLane) -> Seq<char> {
    match l {
        BtLane::A => "A"@,
        BtLane::B => "B"@,
        BtLane::C => "C"@,
        BtLane::D => "D"@,
    }
}

pub open spec fn side_name(s: Side) -> Seq<char> {
    match s {
        Side::Left => "Left"@,
        Side::Right => "Right"@,
    }
}

pub open spec fn channel_name(c: Channel) -> Seq<char> {
    match c {
        Channel::R => "Red"@,
        Channel::G => "Green"@,
        Channel::B => "Blue"@,
    }
}

/// The label of a colour zone target: zone, side and channel, space separated.
pub open spec fn zone_name(zone: Seq<char>, s: Side, c: Channel) -> Seq<char> {
    zone + " "@ + side_name(s) + " "@ + channel_name(c)
}

/// The human-readable label of a target, as configuration tools show it.
pub open spec fn target_name(t: LightingTarget) -> Seq<char> {
    match t {
        LightingTarget::Start => "Start"@,
        LightingTarget::Bt(l) => "BT "@ + lane_name(l),
        LightingTarget::Fx(s) => "FX "@ + side_name(s),
        LightingTarget::Top(s, c) => zone_name("Top"@, s, c),
        LightingTarget::Middle(s, c) => zone_name("Middle"@, s, c),
        LightingTarget::Bottom(s, c) => zone_name("Bottom"@, s, c),
    }
}

/// Relies on String::push_str: the characters of `t` are appended to `s`.
#[verifier::external_body]
fn append(s: &mut String, t: &str)
    ensures
        final(s)@ == old(s)@ + t@,
{
    s.push_str(t)
}

impl BtLane {
    pub fn name(&self) -> (r: &'static str)
        ensures
            r@ == lane_name(*self),
    {
        match self {
            BtLane::A => "A",
            BtLane::B => "B",
            BtLane::C => "C",
            BtLane::D => "D",
        }
    }
}

impl Side {
    pub fn name(&self) -> (r: &'static str)
        ensures
            r@ == side_name(*self),
    {
        match self {
            Side::Left => "Left",
            Side::Right => "Right",
        }
    }
}

impl Channel {
    pub fn name(&self) -> (r: &'static str)
        ensures
            r@ == channel_name(*self),
    {
        match self {
            Channel::R => "Red",
            Channel::G => "Green",
            Channel::B => "Blue",
        }
    }
}

fn zone_label(zone: &str, s: Side, c: Channel) -> (r: String)
    ensures
        r@ == zone_name(zone@, s, c),
{
    let mut r = zone.to_owned();
    append(&mut r, " ");
    append(&mut r, s.name());
    append(&mut r, " ");
    append(&mut r, c.name());
    r
}

impl LightingTarget {
    /// The label of this target, such as "Top Left Red".
    pub fn name(&self) -> (r: String)
        ensures
            r@ == target_name(*self),
    {
        match self {
            LightingTarget::Start => "Start".to_owned(),
            LightingTarget::Bt(l) => {
                let mut r = "BT ".to_owned();
                append(&mut r, l.name());
                r
            },
            LightingTarget::Fx(s) => {
                let mut r = "FX ".to_owned();
                append(&mut r, s.name());
                r
            },
            LightingTarget::Top(s, c) => zone_label("Top", *s, *c),
            LightingTarget::Middle(s, c) => zone_label("Middle", *s, *c),
            LightingTarget::Bottom(s, c) => zone_label("Bottom", *s, *c),
        }
    }
}

} // verus!
