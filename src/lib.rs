use vstd::prelude::*;

pub mod convert;
pub mod deps;
pub mod entropy;
pub mod env_vars;
pub mod install;
pub mod manifest;
pub mod permissions;
pub mod ports;
pub mod render;
pub mod text;
pub mod versioned;

verus! {

/// Returns true when the flag is unset.
pub fn is_false(v: &bool) -> (r: bool)
    ensures
        r == !*v,
{
    !*v
}

} // verus!
