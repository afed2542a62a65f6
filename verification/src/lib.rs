pub mod evaluator;
pub mod ledger;
pub mod orchestrator;
pub mod session;
