//! Escape-time fractal engine: iteration counting over grouped lanes and
//! single points, palette indexing, and a reusable RGBA frame buffer.
use vstd::prelude::*;
use vstd::string::StringExecFns;

pub mod blur;
pub mod engine;
pub mod kernel;
pub mod palette;
pub mod primes;
pub mod sweep;

verus! {

/// The fixed label of this module.
pub fn get_module_name() -> (r: String)
    ensures
        r@ == "Rust/WASM + SIMD"@,
{
    String::from_str("Rust/WASM + SIMD")
}

} // verus!
