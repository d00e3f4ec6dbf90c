//! The decisions behind the terminal view: gauge colours, size units, the combined
//! UMA pool and the keys that quit.

use vstd::prelude::*;
use crate::gpu::{GpuInfo, GpuStats};

verus! {

/// The colour of a usage bar.
#[derive(Debug, Clone, Copy, PartialEq, Eq, Structural)]
pub enum BarColor {
    Green,
    Yellow,
    Red,
}

/// The colour of a bar at `pct` percent: green under 70, yellow from 70 to 90, red
/// above 90.
pub open spec fn bar_color_of(pct: int) -> BarColor {
    if pct > 90 {
        BarColor::Red
    } else if pct >= 70 {
        BarColor::Yellow
    } else {
        BarColor::Green
    }
}

/// How alarming a bar colour is: green, then yellow, then red.
pub open spec fn severity(c: BarColor) -> int {
    match c {
        BarColor::Green => 0,
        BarColor::Yellow => 1,
        BarColor::Red => 2,
    }
}

/// A fuller bar is never shown in a calmer colour than an emptier one.
pub proof fn lemma_bar_color_monotone(p: int, q: int)
    requires
        p <= q,
    ensures
        severity(bar_color_of(p)) <= severity(bar_color_of(q)),
{
}

/// Picks the colour of a usage bar.
pub fn bar_color(pct: u16) -> (r: BarColor)
    ensures
        r == bar_color_of(pct as int),
{
    if pct > 90 {
        BarColor::Red
    } else if pct >= 70 {
        BarColor::Yellow
    } else {
        BarColor::Green
    }
}

/// The unit a size is shown in.
#[derive(Debug, Clone, Copy, PartialEq, Eq, Structural)]
pub enum SizeUnit {
    B,
    KiB,
    MiB,
    GiB,
}

/// The unit for a count of bytes: the largest binary unit that the count reaches,
/// up to GiB.
pub open spec fn bytes_unit_of(bytes: int) -> SizeUnit {
    if bytes < 1024 {
        SizeUnit::B
    } else if bytes < 1024 * 1024 {
        SizeUnit::KiB
    } else if bytes < 1024 * 1024 * 1024 {
        SizeUnit::MiB
    } else {
        SizeUnit::GiB
    }
}

/// The unit for a count of KiB: KiB, MiB or GiB, the largest that the count reaches.
pub open spec fn kib_unit_of(kib: int) -> SizeUnit {
    if kib < 1024 {
        SizeUnit::KiB
    } else if kib < 1024 * 1024 {
        SizeUnit::MiB
    } else {
        SizeUnit::GiB
    }
}

/// Picks the unit in which a count of bytes is shown.
pub fn bytes_unit(bytes: u64) -> (r: SizeUnit)
    ensures
        r == bytes_unit_of(bytes as int),
{
    if bytes < 1024 {
        SizeUnit::B
    } else if bytes < 1024 * 1024 {
        SizeUnit::KiB
    } else if bytes < 1024 * 1024 * 1024 {
        SizeUnit::MiB
    } else {
        SizeUnit::GiB
    }
}

/// Picks the unit in which a count of KiB is shown.
pub fn kib_unit(kib: u64) -> (r: SizeUnit)
    ensures
        r == kib_unit_of(kib as int),
{
    if kib < 1024 {
        SizeUnit::KiB
    } else if kib < 1024 * 1024 {
        SizeUnit::MiB
    } else {
        SizeUnit::GiB
    }
}

/// The combined UMA pool: VRAM and GTT in use, and VRAM and GTT in all.
pub fn uma_usage(info: &GpuInfo, stats: &GpuStats) -> (r: (u64, u64))
    requires
        stats.vram_used + stats.gtt_used <= u64::MAX,
        info.vram_total + info.gtt_total <= u64::MAX,
    ensures
        r.0 == stats.vram_used + stats.gtt_used,
        r.1 == info.vram_total + info.gtt_total,
{
    (stats.vram_used + stats.gtt_used, info.vram_total + info.gtt_total)
}

/// The view refreshes every 500 ms.
pub const TICK_NS: u64 = 500_000_000;

/// What is left of the tick `elapsed_ns` into it, or nothing once it has passed.
pub open spec fn poll_timeout_of(elapsed_ns: int) -> int {
    if elapsed_ns >= TICK_NS {
        0
    } else {
        TICK_NS - elapsed_ns
    }
}

/// Whether the tick has run its course `elapsed_ns` into it.
pub open spec fn tick_due_of(elapsed_ns: int) -> bool {
    elapsed_ns >= TICK_NS
}

/// How long to wait for input after a frame, `elapsed_ns` into the current tick.
pub fn poll_timeout_ns(elapsed_ns: u64) -> (r: u64)
    ensures
        r == poll_timeout_of(elapsed_ns as int),
{
    if elapsed_ns >= TICK_NS {
        0
    } else {
        TICK_NS - elapsed_ns
    }
}

/// Whether a new tick starts once the wait is over, `elapsed_ns` into the current tick.
pub fn tick_due(elapsed_ns: u64) -> (r: bool)
    ensures
        r == tick_due_of(elapsed_ns as int),
{
    elapsed_ns >= TICK_NS
}

/// Waiting the whole poll timeout always ends the tick, and never waits past it: the
/// time spent plus the wait is exactly one tick while the tick runs, and the wait is
/// nothing once it is over.
pub proof fn lemma_wait_completes_tick(elapsed_ns: int)
    requires
        elapsed_ns >= 0,
    ensures
        tick_due_of(elapsed_ns + poll_timeout_of(elapsed_ns)),
        0 <= poll_timeout_of(elapsed_ns) <= TICK_NS,
        !tick_due_of(elapsed_ns) ==> elapsed_ns + poll_timeout_of(elapsed_ns) == TICK_NS,
        tick_due_of(elapsed_ns) ==> poll_timeout_of(elapsed_ns) == 0,
{
}

/// A key press, as far as the view cares.
#[derive(Debug, Clone, Copy, PartialEq, Eq, Structural)]
pub enum KeyPress {
    Char(char),
    Esc,
    Other,
}

/// Whether a key press ends the program: `q` or Escape.
pub fn is_quit_key(key: KeyPress) -> (r: bool)
    ensures
        r == (key == KeyPress::Char('q') || key == KeyPress::Esc),
{
    match key {
        KeyPress::Char(c) => c == 'q',
        KeyPress::Esc => true,
        KeyPress::Other => false,
    }
}

} // verus!
