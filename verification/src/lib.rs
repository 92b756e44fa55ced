//! A Kafka consumer client: what it fetches and returns, how it keeps its
//! positions, and how it takes part in its group.
//!
//! The library decides and computes. It neither waits nor sends: a call takes
//! the state of a [`Consumer`] or of a [`GroupMember`] and an event, such as an
//! answer of a broker or a time, and gives the next state and what to do next.
//!
//! - [`poll`], [`fetch_flow`], [`fetch_answer`], [`poll_answers`]: from `poll`
//!   to the fetch requests, and from their answers to records. The parts are
//!   [`fetch_session`], [`fetch`], [`records`] and [`fetch_buffer`].
//! - [`position_update`], [`list_offsets`], [`offset_wire`], [`seek`],
//!   [`partition_state`], [`queries`]: positions, and what brokers know of
//!   offsets and topics.
//! - [`coordinator`], [`join`], [`rejoin`], [`membership`], [`assignment`],
//!   [`retry`], [`topic_counts`], [`group_wire`], [`rebalance_listener`]: the
//!   membership in a group.
//! - [`subscription`], [`subscribe`]: what the consumer subscribes to.
//! - [`collections`], [`grouping`], [`text`]: sorted maps and sets, and texts.
//!
//! A public function whose name starts with `law_` states what holds of several
//! functions together, or of one of them for all its inputs. Those that speak of
//! the fields of requests, answers and states alone stand in [`record_laws`],
//! [`fetch_laws`], [`flow_laws`], [`session_laws`], [`buffer_laws`],
//! [`offset_laws`], [`reset_laws`], [`query_laws`], [`coordinator_laws`],
//! [`rebalance_laws`], [`state_laws`] and [`error_laws`].
use vstd::prelude::*;

pub mod assignment;
pub mod buffer_laws;
pub mod collections;
pub mod config;
pub mod consumer;
pub mod coordinator;
pub mod coordinator_laws;
pub mod error;
pub mod error_laws;
pub mod fetch;
pub mod fetch_answer;
pub mod fetch_buffer;
pub mod fetch_flow;
pub mod fetch_laws;
pub mod fetch_session;
pub mod flow_laws;
pub mod group_wire;
pub mod grouping;
pub mod join;
pub mod list_offsets;
pub mod membership;
pub mod metadata;
pub mod offset_laws;
pub mod offset_wire;
pub mod partition_state;
pub mod poll;
pub mod poll_answers;
pub mod position;
pub mod position_update;
pub mod queries;
pub mod query_laws;
pub mod rebalance_laws;
pub mod rebalance_listener;
pub mod record_laws;
pub mod records;
pub mod rejoin;
pub mod reset_laws;
pub mod retry;
pub mod seek;
pub mod session_laws;
pub mod state_laws;
pub mod subscribe;
pub mod subscription;
pub mod text;
pub mod topic_counts;
pub mod wire;

pub use config::{AutoOffsetReset, IsolationLevel};
pub use consumer::Consumer;
pub use error::ConsumerError;
pub use group_wire::GroupMembershipOperation;
pub use membership::GroupMember;
pub use offset_wire::OffsetAndMetadata;
pub use queries::{Node, OffsetAndTimestamp, PartitionInfo};
pub use rebalance_listener::{ConsumerRebalanceListener, RebalanceListenerError};
pub use records::{ConsumerRecord, Header, TimestampType};
pub use subscription::TopicPattern;

verus! {

} // verus!
