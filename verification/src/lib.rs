//! Inspect and fix the `ScaledBorderAndShadow` flag of ASS/SSA subtitles in MKV files.
use vstd::prelude::*;

pub mod cli;
pub mod deps;
pub mod mkv;
pub mod processor;
pub mod scanner;
pub mod storage;
pub mod subtitle_laws;
pub mod subtitles;
pub mod text;

verus! {

} // verus!
