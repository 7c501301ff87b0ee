pub mod laws;
pub mod ledger;
pub mod math;
pub mod model;
