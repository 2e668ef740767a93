//! Frequency constants and example standard definitions.
//!
//! EMC band edges and common breakpoint tables, written as expressions over
//! the unit constants for readability. Frequencies are in hertz.

use vstd::prelude::*;

verus! {

use crate::units::KHZ;
use crate::units::MHZ;
use crate::units::GHZ;
use crate::units::DB_SCALE;

/// Start of the conducted-emission band.
pub const LF_START: u64 = 150 * KHZ;

/// End of the conducted-emission band.
pub const LF_END: u64 = 30 * MHZ;

/// Start of the VHF radiated band.
pub const VHF_START: u64 = 30 * MHZ;

/// End of the VHF radiated band.
pub const VHF_END: u64 = 300 * MHZ;

/// Start of the UHF radiated band.
pub const UHF_START: u64 = 300 * MHZ;

/// End of the UHF radiated band.
pub const UHF_END: u64 = 1 * GHZ;

/// First CISPR breakpoint frequency.
pub const CISPR_BREAK_1: u64 = 500 * KHZ;

/// Second CISPR breakpoint frequency.
pub const CISPR_BREAK_2: u64 = 5 * MHZ;

/// Third CISPR breakpoint frequency.
pub const CISPR_BREAK_3: u64 = 30 * MHZ;

/// The CISPR 22 class A breakpoint frequencies, with the repeated-plus-one
/// entries that encode a step in the limit at a band edge.
pub fn cispr22_class_a_frequencies() -> (r: Vec<u64>)
    ensures
        r@ =~= seq![
            (150 * KHZ) as u64,
            (500 * KHZ) as u64,
            (500 * KHZ + 1) as u64,
            (30 * MHZ) as u64,
            (100 * MHZ) as u64,
            (100 * MHZ + 1) as u64,
        ],
{
    let mut v: Vec<u64> = Vec::new();
    v.push(150 * KHZ);
    v.push(500 * KHZ);
    v.push(500 * KHZ + 1);
    v.push(30 * MHZ);
    v.push(100 * MHZ);
    v.push(100 * MHZ + 1);
    v
}

/// The limit amplitudes matching [`cispr22_class_a_frequencies`], in scaled
/// dBµV.
pub fn cispr22_class_a_limits() -> (r: Vec<i64>)
    ensures
        r@ =~= seq![
            (79 * DB_SCALE) as i64,
            (73 * DB_SCALE) as i64,
            (73 * DB_SCALE) as i64,
            (40 * DB_SCALE) as i64,
            (40 * DB_SCALE) as i64,
            (47 * DB_SCALE) as i64,
        ],
{
    let mut v: Vec<i64> = Vec::new();
    v.push(79 * DB_SCALE);
    v.push(73 * DB_SCALE);
    v.push(73 * DB_SCALE);
    v.push(40 * DB_SCALE);
    v.push(40 * DB_SCALE);
    v.push(47 * DB_SCALE);
    v
}

/// The ECE R10 AC-line breakpoint frequencies.
pub fn ece_r10_ac_frequencies() -> (r: Vec<u64>)
    ensures
        r@ =~= seq![
            (150 * KHZ) as u64,
            (300 * KHZ) as u64,
            (1_400 * KHZ) as u64,
            (2_800 * KHZ) as u64,
            (30 * MHZ) as u64,
            (54 * MHZ) as u64,
            (108 * MHZ) as u64,
        ],
{
    let mut v: Vec<u64> = Vec::new();
    v.push(150 * KHZ);
    v.push(300 * KHZ);
    v.push(1_400 * KHZ);
    v.push(2_800 * KHZ);
    v.push(30 * MHZ);
    v.push(54 * MHZ);
    v.push(108 * MHZ);
    v
}

} // verus!
