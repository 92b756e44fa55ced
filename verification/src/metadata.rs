//! The metadata of the cluster.
use vstd::prelude::*;

use crate::wire::Uuid;

verus! {

/// A broker of the cluster.
#[derive(Debug, PartialEq, Eq)]
pub struct MetadataBroker {
    pub node_id: i32,
    pub host: String,
    pub port: i32,
    pub rack: Option<String>,
}

/// A partition of a topic.
#[derive(Debug, PartialEq, Eq)]
pub struct MetadataPartition {
    pub error_code: i16,
    pub partition_index: i32,
    pub leader_id: i32,
    pub leader_epoch: i32,
    pub replica_nodes: Vec<i32>,
    pub isr_nodes: Vec<i32>,
    pub offline_replicas: Vec<i32>,
}

/// A topic of the cluster.
#[derive(Debug, PartialEq, Eq)]
pub struct MetadataTopic {
    pub error_code: i16,
    pub name: Option<String>,
    pub topic_id: Uuid,
    pub is_internal: bool,
    pub partitions: Vec<MetadataPartition>,
}

/// The answer to a metadata request.
#[derive(Debug, PartialEq, Eq)]
pub struct MetadataResponse {
    pub brokers: Vec<MetadataBroker>,
    pub topics: Vec<MetadataTopic>,
}

/// The name of a topic, if the answer has it.
pub open spec fn topic_name(topic: MetadataTopic) -> Option<Seq<char>> {
    match topic.name {
        Some(name) => Some(name@),
        None => None,
    }
}

} // verus!
