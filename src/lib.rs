//! Order-statistic selection: quickselect with random or median-of-medians
//! pivots, and exact medians.

pub mod order;
pub mod select;

pub use select::{
    choose_random, mean, nlogn_median, partition, pick_pivot, quickselect, quickselect_median,
    Pivot,
};
