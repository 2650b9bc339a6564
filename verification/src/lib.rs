use vstd::prelude::*;

pub mod dp;
pub mod laws;
pub mod optimality;
pub mod optimizer;
pub mod schedule;

pub use optimizer::max_profit;

verus! {

/// The prices as unbounded integers, the domain the optimization is stated over.
pub open spec fn ints(s: Seq<i32>) -> Seq<int> {
    s.map_values(|p: i32| p as int)
}

} // verus!
