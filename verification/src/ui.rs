//! Layout rules of the dashboard that do not depend on the terminal library.
use vstd::prelude::*;

verus! {

/// Width of the meter bars for a terminal `total` columns wide: what is left
/// after 55 columns of labels and figures, kept between 8 and 32.
pub open spec fn spec_bar_width(total: u16) -> usize {
    let usable: int = if total > 55 {
        total - 55
    } else {
        0
    };
    (if usable < 8 {
        8
    } else if usable > 32 {
        32
    } else {
        usable
    }) as usize
}

/// Width of the meter bars for a terminal `total` columns wide.
pub fn bar_width(total: u16) -> (r: usize)
    ensures
        r == spec_bar_width(total),
        8 <= r <= 32,
{
    let usable = total.saturating_sub(55);
    let w: u16 = if usable < 8 {
        8
    } else if usable > 32 {
        32
    } else {
        usable
    };
    w as usize
}

/// Screen lines outside the meter box: the header, the capacity and runner
/// panels, the network panel and the footer.
pub const FIXED_LINES: u16 = 14;

/// Meters below the CPU rows: temperature, memory, swap and filesystem.
pub const OTHER_METERS: u16 = 4;

/// Whether one CPU row per core fits on a screen `height` lines tall: the
/// meter box then holds a row per core, the other meters and its two border
/// lines. Otherwise the cores collapse into one aggregate row.
pub fn per_core_fits(height: u16, cores: usize) -> (r: bool)
    ensures
        r == (cores > 0 && FIXED_LINES + OTHER_METERS + 2 + cores <= height),
{
    let spare: u16 = height.saturating_sub(FIXED_LINES + OTHER_METERS + 2);
    cores > 0 && cores <= spare as usize
}

/// The colour class of a meter.
#[derive(Clone, Copy, PartialEq, Eq, Debug, Structural)]
pub enum Heat {
    Green,
    Yellow,
    Red,
}

/// Green below 60 %, yellow from 60 %, red from 85 %.
pub open spec fn spec_heat(percent: u16) -> Heat {
    if percent >= 85 {
        Heat::Red
    } else if percent >= 60 {
        Heat::Yellow
    } else {
        Heat::Green
    }
}

/// The colour class of a meter at `percent`.
pub fn heat(percent: u16) -> (r: Heat)
    ensures
        r == spec_heat(percent),
{
    if percent >= 85 {
        Heat::Red
    } else if percent >= 60 {
        Heat::Yellow
    } else {
        Heat::Green
    }
}

/// Meters only escalate: a higher utilisation never shows a cooler colour.
pub proof fn law_heat_escalates(p: u16, q: u16)
    requires
        p <= q,
    ensures
        spec_heat(p) == Heat::Red ==> spec_heat(q) == Heat::Red,
        spec_heat(p) == Heat::Yellow ==> spec_heat(q) != Heat::Green,
{
}

} // verus!
