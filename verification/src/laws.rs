//! What holds of the library as its callers see it: laws over the inputs and the
//! results of its functions.

pub mod bisecting;
pub mod loading;
pub mod numbers;
pub mod reading;
pub mod reconciling;
pub mod replaying;
pub mod running;
pub mod searching;
pub mod telling;
