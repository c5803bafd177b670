pub mod auto;
pub mod problem;
pub mod simpleapi;
pub mod strategies;
