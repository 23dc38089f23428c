//! Verified driver, acquisition and validation logic for MPU-6050-class IMUs.
use vstd::prelude::*;

pub mod acquisition;
pub mod bitbang;
pub mod bringup;
pub mod bus;
pub mod config;
pub mod device;
pub mod facemap;
pub mod fields;
pub mod frame;
pub mod integrity;
pub mod interrupt;
pub mod logcheck;
pub mod logtext;
pub mod probe;
pub mod raw;
pub mod rawline;
pub mod registers;
pub mod report;
pub mod startup;
pub mod telemetry;
pub mod text;
pub mod tool;

verus! {

} // verus!
