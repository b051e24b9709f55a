//! The prime constants that the hash mixes with.
use vstd::prelude::*;

verus! {

pub const PRIME32_1: u64 = 0x9E37_79B1;

pub const PRIME32_2: u64 = 0x85EB_CA77;

pub const PRIME32_3: u64 = 0xC2B2_AE3D;

pub const PRIME64_1: u64 = 0x9E37_79B1_85EB_CA87;

pub const PRIME64_2: u64 = 0xC2B2_AE3D_27D4_EB4F;

pub const PRIME64_3: u64 = 0x1656_67B1_9E37_79F9;

pub const PRIME64_4: u64 = 0x85EB_CA77_C2B2_AE63;

pub const PRIME64_5: u64 = 0x27D4_EB2F_1656_67C5;

} // verus!
