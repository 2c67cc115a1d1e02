//! Tiers, channels and what an encoder can do.

use crate::scan::naming::{LABEL_FRONT, LABEL_INTERIOR, LABEL_REAR};
use vstd::prelude::*;

verus! {

/// How much a timelapse speeds a trip up.
#[derive(Debug, Clone, Copy, PartialEq, Eq, Structural)]
pub enum Tier {
    Tier8x,
    Tier16x,
    Tier60x,
}

impl Tier {
    /// The name of the tier.
    pub open spec fn name(self) -> Seq<char> {
        match self {
            Tier::Tier8x => "8x"@,
            Tier::Tier16x => "16x"@,
            Tier::Tier60x => "60x"@,
        }
    }

    /// The name of the tier.
    pub fn as_str(self) -> (r: &'static str)
        ensures
            r@ == self.name(),
    {
        match self {
            Tier::Tier8x => "8x",
            Tier::Tier16x => "16x",
            Tier::Tier60x => "60x",
        }
    }

    /// The rate outside events.
    pub open spec fn base(self) -> u32 {
        match self {
            Tier::Tier8x => 8,
            Tier::Tier16x => 16,
            Tier::Tier60x => 60,
        }
    }

    /// The rate outside events.
    pub fn base_rate(self) -> (r: u32)
        ensures
            r == self.base(),
    {
        match self {
            Tier::Tier8x => 8,
            Tier::Tier16x => 16,
            Tier::Tier60x => 60,
        }
    }

    /// The rate within events.
    pub open spec fn event(self) -> u32 {
        match self {
            Tier::Tier8x => 8,
            Tier::Tier16x => 1,
            Tier::Tier60x => 8,
        }
    }

    /// The rate within events.
    pub fn event_rate(self) -> (r: u32)
        ensures
            r == self.event(),
    {
        match self {
            Tier::Tier8x => 8,
            Tier::Tier16x => 1,
            Tier::Tier60x => 8,
        }
    }

    /// Whether events run at a rate of their own.
    pub fn is_variable(self) -> (r: bool)
        ensures
            r == (self.base() != self.event()),
    {
        self.base_rate() != self.event_rate()
    }
}

/// The camera that a timelapse shows.
#[derive(Debug, Clone, Copy, PartialEq, Eq, Structural)]
pub enum Channel {
    Front,
    Interior,
    Rear,
}

impl Channel {
    /// The short name of the channel.
    pub open spec fn name(self) -> Seq<char> {
        match self {
            Channel::Front => "F"@,
            Channel::Interior => "I"@,
            Channel::Rear => "R"@,
        }
    }

    /// The short name of the channel.
    pub fn as_str(self) -> (r: &'static str)
        ensures
            r@ == self.name(),
    {
        match self {
            Channel::Front => "F",
            Channel::Interior => "I",
            Channel::Rear => "R",
        }
    }

    /// The label of the channel's files.
    pub open spec fn file_label(self) -> Seq<char> {
        match self {
            Channel::Front => LABEL_FRONT@,
            Channel::Interior => LABEL_INTERIOR@,
            Channel::Rear => LABEL_REAR@,
        }
    }

    /// The label of the channel's files.
    pub fn label(self) -> (r: &'static str)
        ensures
            r@ == self.file_label(),
    {
        match self {
            Channel::Front => LABEL_FRONT,
            Channel::Interior => LABEL_INTERIOR,
            Channel::Rear => LABEL_REAR,
        }
    }
}

/// Which jobs a run takes up.
#[derive(Debug, Clone, Copy, PartialEq, Eq, Structural)]
pub enum JobScope {
    NewOnly,
    FailedOnly,
    RebuildAll,
}

/// A stretch of a trip in which something happens, in milliseconds from the
/// start of the trip.
#[derive(Debug, Clone, Copy, PartialEq, Eq, Structural)]
pub struct EventWindow {
    pub start_ms: i64,
    pub end_ms: i64,
}

/// What the installed encoder can do.
#[derive(Debug)]
pub struct FfmpegCapabilities {
    pub version: String,
    pub nvenc_hevc: bool,
}

impl Clone for FfmpegCapabilities {
    fn clone(&self) -> (r: Self)
        ensures
            r == *self,
    {
        FfmpegCapabilities { version: self.version.clone(), nvenc_hevc: self.nvenc_hevc }
    }
}

/// The nearest value that an `i64` can hold.
pub open spec fn saturated(x: int) -> int {
    if x < i64::MIN {
        i64::MIN as int
    } else if x > i64::MAX {
        i64::MAX as int
    } else {
        x
    }
}

/// The sum, or the nearest value to it.
pub fn saturating_sum(a: i64, b: i64) -> (r: i64)
    ensures
        r == saturated(a + b),
{
    let x: i128 = a as i128 + b as i128;
    if x < i64::MIN as i128 {
        i64::MIN
    } else if x > i64::MAX as i128 {
        i64::MAX
    } else {
        x as i64
    }
}

/// The difference, or the nearest value to it.
pub fn saturating_difference(a: i64, b: i64) -> (r: i64)
    ensures
        r == saturated(a - b),
{
    let x: i128 = a as i128 - b as i128;
    if x < i64::MIN as i128 {
        i64::MIN
    } else if x > i64::MAX as i128 {
        i64::MAX
    } else {
        x as i64
    }
}

} // verus!
