//! figdriver: render text as large ASCII-art banners with FIGfonts.
//!
//! - `figfont`: FIGcharacters and FIGfonts; `flf`: reading font files.
//! - `smusher`: placing FIGcharacters side by side (full width, kerning,
//!   smushing), with the character rules in `smusher::charsmush` and the
//!   row rules in `smusher::strsmush`.
//! - `wrapper`: word wrapping of the rendered output into lines.
//! - `control`: character mapping pipelines, and `control::decoder`, which
//!   turns raw input bytes into character codes (UTF-8, Latin-1, DBCS,
//!   Shift-JIS, HZ and ISO 2022).
//! - `cmdline`: the decisions of the `figlet` command.
//! - `text`: conversions between strings and character sequences.

pub mod control;
pub mod figfont;
pub mod wrapper;
pub mod smusher;
pub mod text;
pub mod flf;
pub mod cmdline;

pub use figfont::{FIGchar, FIGfont};
pub use smusher::{LayoutMode, Smusher, SmusherBuilder};
pub use wrapper::{Align, Wrapper};
pub use control::FlcPipeline;

use vstd::prelude::*;

verus! {

/// The errors of the library.
#[derive(Clone, Copy, Debug, PartialEq, Eq, Structural)]
pub enum Error {
    /// The output line has no room for what was added.
    LineFull,
    /// A FIGcharacter needs at least one row.
    EmptyFIGchar,
    /// A FIGcharacter's number of rows differs from the font's height.
    HeightMismatch,
    /// A font file does not start with a valid FIGfont header.
    InvalidHeader,
}

/// Smushing rule 1: equal characters smush into one.
pub const SMUSH_EQUAL: u32 = 1;

/// Smushing rule 2: an underscore gives way to `|/\[]{}()<>`.
pub const SMUSH_UNDERLINE: u32 = 2;

/// Smushing rule 3: of two characters of different hierarchy classes
/// (`|`, `/\`, `[]`, `{}`, `()`, `<>`), the higher class wins.
pub const SMUSH_HIERARCHY: u32 = 4;

/// Smushing rule 4: opposite brackets smush into `|`.
pub const SMUSH_PAIR: u32 = 8;

/// Smushing rule 5: `/\` becomes `|`, `\/` becomes `Y`, `><` becomes `X`.
pub const SMUSH_BIGX: u32 = 16;

/// Smushing rule 6: two hardblanks smush into one.
pub const SMUSH_HARDBLANK: u32 = 32;

/// Kerning: characters are moved together until they touch.
pub const SMUSH_KERN: u32 = 64;

/// Smushing: characters are moved together by one more column, where the
/// rules allow.
pub const SMUSH_ENABLE: u32 = 128;

} // verus!
