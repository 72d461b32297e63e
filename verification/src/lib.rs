use vstd::prelude::*;

pub mod base_dpc;
pub mod bytes;
pub mod lz;
pub mod lz_opt;
pub mod lz_chain;
pub mod codec;
pub mod fuel_dpc;
pub mod layout;
pub mod header;
pub mod extract;
pub mod manifest;
pub mod pool;
pub mod create;
pub mod tables;
pub mod validate;
pub mod fuel_fmt;
pub mod archive;
pub mod assemble;
pub mod round_trip;
pub mod round_trip_lz;
pub mod lz_extracted;

verus! {

} // verus!
