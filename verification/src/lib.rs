//! Verified core of a dual-optimistic execution pipeline.

pub mod agreement;
pub mod base_committer;
pub mod block_manager;
pub mod causal;
pub mod commit;
pub mod commit_log;
pub mod committee;
pub mod context;
pub mod dag_laws;
pub mod dag_state;
pub mod decision_laws;
pub mod event_laws;
pub mod executor;
pub mod hashing;
pub mod intake_laws;
pub mod latency;
pub mod linearizer;
pub mod node;
pub mod node_config;
pub mod node_laws;
pub mod ordered;
pub mod replay;
pub mod rules;
pub mod scheduler;
pub mod shadow_state;
pub mod shared;
pub mod sim;
pub mod soft_commit;
pub mod stable_sort;
pub mod stake_aggregator;
pub mod testkit;
pub mod text;
pub mod threshold_clock;
pub mod types;
pub mod universal_committer;
pub mod vote_laws;
