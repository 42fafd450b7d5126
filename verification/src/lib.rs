use vstd::prelude::*;

pub mod abi;
pub mod boolean;
pub mod decimal;
pub mod diagnostic;
pub mod encoder;
pub mod float32;
pub mod float32_product;
pub mod float32_quotient;
pub mod float32_sum;
pub mod int32;
pub mod machine;
pub mod memory;
pub mod prover;
pub mod publickey;
pub mod stableast;
pub mod string;
pub mod text;
pub mod uint32;
pub mod uint64;

verus! {

} // verus!
