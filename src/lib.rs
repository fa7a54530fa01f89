pub mod children;
pub mod diff_engine;
pub mod lis;
pub mod order;
pub mod reconciler;
pub mod types;
