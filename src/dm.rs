//! The device-mapper vocabulary that this library speaks: sector and byte
//! counts, kernel device numbers and linear target parameters.
use vstd::prelude::*;

verus! {

#[verifier::external_type_specification]
pub struct ExSectors(devicemapper::Sectors);

#[verifier::external_type_specification]
pub struct ExBytes(devicemapper::Bytes);

#[verifier::external_type_specification]
pub struct ExDevice(devicemapper::Device);

#[verifier::external_type_specification]
pub struct ExLinearTargetParams(devicemapper::LinearTargetParams);

} // verus!
