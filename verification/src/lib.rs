//! A Commodore 64 game, demo and tune library: the rules behind it, verified.

pub mod boot;
pub mod build_index;
pub mod catalogue;
pub mod chip;
pub mod cli;
pub mod cover;
pub mod cpu;
pub mod csdb;
pub mod demos;
pub mod desktop;
pub mod disk;
pub mod downloads;
pub mod formats;
pub mod grid;
pub mod grouping;
pub mod ia_index;
pub mod info;
pub mod instruction_laws;
pub mod json;
pub mod jukebox;
pub mod keyed;
pub mod kiosk;
pub mod large;
pub mod layout;
pub mod machine;
pub mod machine_laws;
pub mod menu;
pub mod order;
pub mod paths;
pub mod pattern;
pub mod picker;
pub mod progress;
pub mod releases;
pub mod roms;
pub mod run;
pub mod search;
pub mod sections;
pub mod sid;
pub mod similarity;
pub mod single;
pub mod table;
pub mod tapes;
pub mod text;
pub mod titles;
pub mod tosec;
pub mod tunes;
pub mod url;

use vstd::prelude::*;

verus! {

} // verus!
