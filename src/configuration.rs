//! Bar settings, and the decisions taken per output and per frame from them.
use vstd::prelude::*;
use crate::colors::ArgbColor;
use crate::widgets::DrawSize;

verus! {

/// Settings of the bar.
#[derive(Debug, Clone, PartialEq, Eq)]
pub struct SimbarConfig {
    /// Width when the output reports no size.
    pub width_fallback: u32,
    /// A fixed width; otherwise the output's width.
    pub width: Option<u32>,
    pub height: u32,
    /// The output, by name, that shows the bar; otherwise the one at the origin.
    pub primary_output: Option<String>,
    /// Frames per second at most.
    pub frame_rate: u64,
}

impl Default for SimbarConfig {
    fn default() -> (c: Self)
        ensures
            c.width_fallback == 1920,
            c.width is None,
            c.height == 40,
            c.primary_output is None,
            c.frame_rate == 60,
    {
        SimbarConfig {
            width_fallback: 1920,
            width: None,
            height: 40,
            primary_output: None,
            frame_rate: 60,
        }
    }
}

/// Colors of the bar.
#[derive(Debug, Clone, Copy, PartialEq, Eq)]
pub struct ThemeConfig {
    pub background_color: ArgbColor,
}

impl Default for ThemeConfig {
    /// An opaque dark gray background.
    fn default() -> (c: Self)
        ensures
            c.background_color == (ArgbColor { alpha: 0xFF, red: 0x11, green: 0x11, blue: 0x18 }),
    {
        ThemeConfig { background_color: ArgbColor { alpha: 0xFF, red: 0x11, green: 0x11, blue: 0x18 } }
    }
}

/// The width of the bar on an output whose logical width is `output_width`, if known.
pub open spec fn bar_width(config: SimbarConfig, output_width: Option<i32>) -> u32 {
    match config.width {
        Some(w) => w,
        None => match output_width {
            Some(w) => w as u32,
            None => config.width_fallback,
        },
    }
}

impl SimbarConfig {
    /// The size of the bar on an output whose logical width is `output_width`, if known.
    pub fn bar_size(&self, output_width: Option<i32>) -> (r: DrawSize)
        ensures
            r == (DrawSize { width: bar_width(*self, output_width), height: self.height }),
    {
        let width = match self.width {
            Some(w) => w,
            None => match output_width {
                Some(w) => w as u32,
                None => self.width_fallback,
            },
        };
        DrawSize { width, height: self.height }
    }

    /// Whether the output with this name and position shows the bar: the one named in the
    /// settings, or else the one at the origin.
    pub fn is_primary(&self, name: &Option<String>, position: Option<(i32, i32)>) -> (r: bool)
        ensures
            r == match self.primary_output {
                Some(p) => match *name {
                    Some(n) => n@ == p@,
                    None => false,
                },
                None => position == Some((0i32, 0i32)),
            },
    {
        match &self.primary_output {
            Some(p) => match name {
                Some(n) => n.eq(p),
                None => false,
            },
            None => match position {
                Some(pos) => pos.0 == 0 && pos.1 == 0,
                None => false,
            },
        }
    }

    /// The shortest time between two frames, in milliseconds.
    pub fn frame_interval_ms(&self) -> (r: u64)
        requires
            self.frame_rate > 0,
        ensures
            r == 1000int / self.frame_rate as int,
    {
        1000 / self.frame_rate
    }
}

/// Whether a frame callback at `time` (milliseconds, wrapping) should draw: only on the
/// primary output, and only once `interval` has passed since the last drawn frame.
pub fn frame_due(is_primary: bool, time: u32, last_frame_time: u32, interval: u64) -> (r: bool)
    ensures
        r == (is_primary && (if time >= last_frame_time {
            time - last_frame_time
        } else {
            time + 0x1_0000_0000 - last_frame_time
        }) >= interval),
{
    let elapsed: u32 = time.wrapping_sub(last_frame_time);
    is_primary && elapsed as u64 >= interval
}

} // verus!
