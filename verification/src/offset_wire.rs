//! Offset fetches and offset commits on the wire.
//!
//! An offset fetch names its topics, so it goes out at version 9 or lower. From
//! version 8 its topics stand in a list of groups; before, they stand at the
//! top level. The builder fills both places, and the readers take either.
use vstd::prelude::*;

use crate::collections::{ascending, MapKey, SortedMap, SortedSet};
use crate::offset_laws::{
    has_commit_of, last_of_its_partition, law_committed_offsets_are_those_of_the_rows,
};
use crate::text::{lemma_text_before_transitive, text_before};
use crate::wire::{PartitionKey, TopicPartition, Uuid};

verus! {

/// The coordinator is still loading the group.
pub const COORDINATOR_LOAD_IN_PROGRESS: i16 = 14;

/// There is no coordinator for the group.
pub const COORDINATOR_NOT_AVAILABLE: i16 = 15;

/// The broker is not the coordinator of the group.
pub const NOT_COORDINATOR: i16 = 16;

/// The coordinator does not know the topic.
pub const UNKNOWN_TOPIC_OR_PARTITION: i16 = 3;

/// The principal cannot describe the topic.
pub const TOPIC_AUTHORIZATION_FAILED: i16 = 29;

/// The principal cannot describe the group.
pub const GROUP_AUTHORIZATION_FAILED: i16 = 30;

/// A transaction or a replication holds the offset.
pub const UNSTABLE_OFFSET_COMMIT: i16 = 88;

/// The coordinator does not hold the topic id.
pub const UNKNOWN_TOPIC_ID: i16 = 100;

/// The last version of an offset fetch that carries topic names.
pub const TOPIC_NAME_OFFSET_FETCH_MAX_VERSION: i16 = 9;

/// A topic of an offset fetch.
#[derive(Debug, PartialEq, Eq)]
pub struct OffsetFetchRequestTopic {
    pub name: String,
    /// Zero: the request goes by name.
    pub topic_id: Uuid,
    pub partition_indexes: Vec<i32>,
}

/// A group of an offset fetch.
#[derive(Debug, PartialEq, Eq)]
pub struct OffsetFetchRequestGroup {
    pub group_id: String,
    pub member_id: Option<String>,
    pub member_epoch: i32,
    pub topics: Vec<OffsetFetchRequestTopic>,
}

/// An offset fetch that names its topics, at `max_version` or lower.
#[derive(Debug, PartialEq, Eq)]
pub struct TopicNameOffsetFetch {
    pub max_version: i16,
    pub group_id: String,
    pub topics: Vec<OffsetFetchRequestTopic>,
    pub groups: Vec<OffsetFetchRequestGroup>,
    /// Ask for offsets that no open transaction can change.
    pub require_stable: bool,
}

/// The row of one partition in an offset fetch answer.
#[derive(Debug, PartialEq, Eq)]
pub struct OffsetFetchPartition {
    pub partition_index: i32,
    pub committed_offset: i64,
    pub committed_leader_epoch: i32,
    pub metadata: Option<String>,
    pub error_code: i16,
}

impl Clone for OffsetFetchPartition {
    fn clone(&self) -> (r: Self)
        ensures
            r == *self,
    {
        OffsetFetchPartition {
            partition_index: self.partition_index,
            committed_offset: self.committed_offset,
            committed_leader_epoch: self.committed_leader_epoch,
            metadata: match &self.metadata {
                Some(text) => Some(text.clone()),
                None => None,
            },
            error_code: self.error_code,
        }
    }
}

/// A topic of an offset fetch answer.
#[derive(Debug, PartialEq, Eq)]
pub struct OffsetFetchTopic {
    pub name: String,
    pub partitions: Vec<OffsetFetchPartition>,
}

/// A group of an offset fetch answer.
#[derive(Debug, PartialEq, Eq)]
pub struct OffsetFetchGroup {
    pub group_id: String,
    pub topics: Vec<OffsetFetchTopic>,
    pub error_code: i16,
}

/// The answer to an offset fetch.
#[derive(Debug, PartialEq, Eq)]
pub struct OffsetFetchResponse {
    pub topics: Vec<OffsetFetchTopic>,
    pub error_code: i16,
    pub groups: Vec<OffsetFetchGroup>,
}

/// A partition row with the name of its topic.
pub type OffsetRow = (Seq<char>, OffsetFetchPartition);

/// The rows of one topic.
pub open spec fn topic_rows(topic: OffsetFetchTopic) -> Seq<OffsetRow> {
    Seq::new(topic.partitions@.len(), |i: int| (topic.name@, topic.partitions@[i]))
}

/// The rows of topics, in order.
pub open spec fn topics_rows(topics: Seq<OffsetFetchTopic>) -> Seq<OffsetRow>
    decreases topics.len(),
{
    if topics.len() == 0 {
        seq![]
    } else {
        topics_rows(topics.drop_last()) + topic_rows(topics.last())
    }
}

/// The rows of groups, in order.
pub open spec fn groups_rows(groups: Seq<OffsetFetchGroup>) -> Seq<OffsetRow>
    decreases groups.len(),
{
    if groups.len() == 0 {
        seq![]
    } else {
        groups_rows(groups.drop_last()) + topics_rows(groups.last().topics@)
    }
}

/// A row as an executable value.
pub type OwnedOffsetRow = (String, OffsetFetchPartition);

/// The models of rows.
pub open spec fn row_views(rows: Seq<OwnedOffsetRow>) -> Seq<OffsetRow> {
    Seq::new(rows.len(), |i: int| (rows[i].0@, rows[i].1))
}

fn push_topic_rows(rows: &mut Vec<OwnedOffsetRow>, topic: &OffsetFetchTopic)
    ensures
        row_views(final(rows)@) == row_views(old(rows)@) + topic_rows(*topic),
{
    let mut i: usize = 0;
    let ghost had = row_views(rows@);
    while i < topic.partitions.len()
        invariant
            i <= topic.partitions.len(),
            row_views(rows@) =~= had + topic_rows(*topic).take(i as int),
        decreases topic.partitions.len() - i,
    {
        let row = (topic.name.clone(), topic.partitions[i].clone());
        let ghost before = rows@;
        rows.push(row);
        proof {
            assert(row_views(rows@) =~= row_views(before).push((row.0@, row.1)));
            assert(topic_rows(*topic).take(i + 1) =~= topic_rows(*topic).take(i as int).push(
                topic_rows(*topic)[i as int],
            ));
        }
        i = i + 1;
    }
    assert(topic_rows(*topic).take(i as int) =~= topic_rows(*topic));
}

fn push_topics_rows(rows: &mut Vec<OwnedOffsetRow>, topics: &Vec<OffsetFetchTopic>)
    ensures
        row_views(final(rows)@) == row_views(old(rows)@) + topics_rows(topics@),
{
    let mut i: usize = 0;
    let ghost had = row_views(rows@);
    assert(had + topics_rows(topics@.take(0)) =~= had);
    while i < topics.len()
        invariant
            i <= topics.len(),
            row_views(rows@) == had + topics_rows(topics@.take(i as int)),
        decreases topics.len() - i,
    {
        push_topic_rows(rows, &topics[i]);
        proof {
            assert(topics@.take(i + 1).drop_last() =~= topics@.take(i as int));
            assert(row_views(rows@) =~= had + topics_rows(topics@.take(i + 1)));
        }
        i = i + 1;
    }
    assert(topics@.take(i as int) =~= topics@);
}

fn push_groups_rows(rows: &mut Vec<OwnedOffsetRow>, groups: &Vec<OffsetFetchGroup>)
    ensures
        row_views(final(rows)@) == row_views(old(rows)@) + groups_rows(groups@),
{
    let mut i: usize = 0;
    let ghost had = row_views(rows@);
    assert(had + groups_rows(groups@.take(0)) =~= had);
    while i < groups.len()
        invariant
            i <= groups.len(),
            row_views(rows@) == had + groups_rows(groups@.take(i as int)),
        decreases groups.len() - i,
    {
        push_topics_rows(rows, &groups[i].topics);
        proof {
            assert(groups@.take(i + 1).drop_last() =~= groups@.take(i as int));
            assert(row_views(rows@) =~= had + groups_rows(groups@.take(i + 1)));
        }
        i = i + 1;
    }
    assert(groups@.take(i as int) =~= groups@);
}

/// Whether `topics` are the topics of `by_topic` in order of their names, each
/// with its partitions and without an id.
pub open spec fn names_topics(
    topics: Seq<OffsetFetchRequestTopic>,
    by_topic: SortedMap<String, Vec<i32>>,
) -> bool {
    &&& topics.len() == by_topic.keys().len()
    &&& forall|i: int|
        0 <= i < topics.len() ==> {
            &&& (#[trigger] topics[i]).name@ == by_topic.keys()[i]
            &&& topics[i].topic_id.0 == 0
            &&& topics[i].partition_indexes@ == by_topic@[by_topic.keys()[i]]@
        }
}

fn request_topics(by_topic: &SortedMap<String, Vec<i32>>) -> (r: Vec<OffsetFetchRequestTopic>)
    ensures
        names_topics(r@, *by_topic),
{
    let n = by_topic.len();
    let mut r: Vec<OffsetFetchRequestTopic> = Vec::new();
    let mut i: usize = 0;
    while i < n
        invariant
            n == by_topic.keys().len(),
            i <= n,
            r.len() == i,
            forall|j: int|
                0 <= j < i ==> {
                    &&& (#[trigger] r@[j]).name@ == by_topic.keys()[j]
                    &&& r@[j].topic_id.0 == 0
                    &&& r@[j].partition_indexes@ == by_topic@[by_topic.keys()[j]]@
                },
        decreases n - i,
    {
        let partitions = by_topic.value_at(i).clone();
        assert(partitions@ =~= by_topic@[by_topic.keys()[i as int]]@);
        r.push(
            OffsetFetchRequestTopic {
                name: by_topic.key_at(i).clone(),
                topic_id: Uuid(0),
                partition_indexes: partitions,
            },
        );
        i = i + 1;
    }
    r
}

/// Build an offset fetch for `by_topic`, valid at each version from 1 to 9.
///
/// It asks for stable offsets: the coordinator answers
/// [`UNSTABLE_OFFSET_COMMIT`] for a partition with a pending transactional
/// commit.
pub fn build_offset_fetch(group_id: &str, by_topic: &SortedMap<String, Vec<i32>>) -> (r:
    TopicNameOffsetFetch)
    ensures
        r.max_version == TOPIC_NAME_OFFSET_FETCH_MAX_VERSION,
        r.group_id@ == group_id@,
        names_topics(r.topics@, *by_topic),
        r.groups@.len() == 1,
        r.groups@[0].group_id@ == group_id@,
        r.groups@[0].member_id is None,
        r.groups@[0].member_epoch == -1,
        names_topics(r.groups@[0].topics@, *by_topic),
        r.require_stable,
{
    let legacy_topics = request_topics(by_topic);
    let group_topics = request_topics(by_topic);
    let mut groups: Vec<OffsetFetchRequestGroup> = Vec::new();
    groups.push(
        OffsetFetchRequestGroup {
            group_id: group_id.to_owned(),
            member_id: None,
            member_epoch: -1,
            topics: group_topics,
        },
    );
    TopicNameOffsetFetch {
        max_version: TOPIC_NAME_OFFSET_FETCH_MAX_VERSION,
        group_id: group_id.to_owned(),
        topics: legacy_topics,
        groups,
        require_stable: true,
    }
}

impl OffsetFetchResponse {
    /// The rows with committed offsets: those of the groups when there are
    /// groups, those of the top level otherwise.
    pub open spec fn offset_rows(self) -> Seq<OffsetRow> {
        if self.groups@.len() == 0 {
            topics_rows(self.topics@)
        } else {
            groups_rows(self.groups@)
        }
    }

    /// Every row of the answer.
    pub open spec fn all_rows(self) -> Seq<OffsetRow> {
        topics_rows(self.topics@) + groups_rows(self.groups@)
    }
}

/// A committed offset: topic, partition, offset and leader epoch.
pub type CommittedRow = (String, i32, i64, i32);

/// Flatten an offset fetch answer into topic, partition, committed offset and
/// committed leader epoch.
pub fn parse_offset_fetch(resp: &OffsetFetchResponse) -> (r: Vec<CommittedRow>)
    ensures
        r.len() == resp.offset_rows().len(),
        forall|i: int|
            0 <= i < r.len() ==> {
                let row = resp.offset_rows()[i];
                &&& (#[trigger] r@[i]).0@ == row.0
                &&& r@[i].1 == row.1.partition_index
                &&& r@[i].2 == row.1.committed_offset
                &&& r@[i].3 == row.1.committed_leader_epoch
            },
{
    let mut rows: Vec<OwnedOffsetRow> = Vec::new();
    assert(row_views(rows@) =~= seq![]);
    if resp.groups.is_empty() {
        push_topics_rows(&mut rows, &resp.topics);
    } else {
        push_groups_rows(&mut rows, &resp.groups);
    }
    assert(row_views(rows@) =~= resp.offset_rows());
    let mut out: Vec<CommittedRow> = Vec::new();
    let mut i: usize = 0;
    while i < rows.len()
        invariant
            i <= rows.len(),
            out.len() == i,
            row_views(rows@) == resp.offset_rows(),
            forall|j: int|
                0 <= j < i ==> {
                    let row = resp.offset_rows()[j];
                    &&& (#[trigger] out@[j]).0@ == row.0
                    &&& out@[j].1 == row.1.partition_index
                    &&& out@[j].2 == row.1.committed_offset
                    &&& out@[j].3 == row.1.committed_leader_epoch
                },
        decreases rows.len() - i,
    {
        let row = &rows[i];
        assert(row_views(rows@)[i as int] == resp.offset_rows()[i as int]);
        out.push(
            (
                row.0.clone(),
                row.1.partition_index,
                row.1.committed_offset,
                row.1.committed_leader_epoch,
            ),
        );
        i = i + 1;
    }
    out
}

/// A committed offset with what was committed beside it.
#[derive(Debug, PartialEq, Eq)]
pub struct OffsetAndMetadata {
    pub offset: i64,
    /// The leader epoch of the record before the offset, if it is known.
    pub leader_epoch: Option<i32>,
    pub metadata: String,
}

/// The model of a committed offset: offset, leader epoch and metadata.
pub type CommittedModel = (i64, Option<i32>, Seq<char>);

impl View for OffsetAndMetadata {
    type V = CommittedModel;

    open spec fn view(&self) -> CommittedModel {
        (self.offset, self.leader_epoch, self.metadata@)
    }
}

/// The committed offset of a row, if it has one and no error.
pub open spec fn committed_of(row: OffsetRow) -> Option<CommittedModel> {
    if row.1.error_code == 0 && row.1.committed_offset >= 0 {
        Some(
            (
                row.1.committed_offset,
                if row.1.committed_leader_epoch >= 0 {
                    Some(row.1.committed_leader_epoch)
                } else {
                    None
                },
                match row.1.metadata {
                    Some(text) => text@,
                    None => seq![],
                },
            ),
        )
    } else {
        None
    }
}

/// The committed offsets of rows; a later row replaces an earlier one.
pub open spec fn rows_committed(rows: Seq<OffsetRow>) -> Map<PartitionKey, Option<CommittedModel>>
    decreases rows.len(),
{
    if rows.len() == 0 {
        Map::empty()
    } else {
        rows_committed(rows.drop_last()).insert(
            (rows.last().0, rows.last().1.partition_index),
            committed_of(rows.last()),
        )
    }
}

/// The model of an optional committed offset.
pub open spec fn committed_view(c: Option<OffsetAndMetadata>) -> Option<CommittedModel> {
    match c {
        Some(c) => Some(c@),
        None => None,
    }
}

/// Whether a map holds the committed offsets of `m`.
pub open spec fn committed_as(
    map: Map<PartitionKey, Option<OffsetAndMetadata>>,
    m: Map<PartitionKey, Option<CommittedModel>>,
) -> bool {
    &&& map.dom() == m.dom()
    &&& forall|k: PartitionKey| #[trigger] m.contains_key(k) ==> committed_view(map[k]) == m[k]
}

/// The committed offsets of an offset fetch answer. A partition without a
/// committed offset, or with an error, has `None`.
pub fn parse_committed_offsets(resp: &OffsetFetchResponse) -> (r: SortedMap<
    TopicPartition,
    Option<OffsetAndMetadata>,
>)
    ensures
        committed_as(r@, rows_committed(resp.offset_rows())),
        forall|i: int| #[trigger]
            last_of_its_partition(resp.offset_rows(), i) ==> has_commit_of(
                r@,
                resp.offset_rows()[i],
            ),
{
    let mut rows: Vec<OwnedOffsetRow> = Vec::new();
    assert(row_views(rows@) =~= seq![]);
    if resp.groups.is_empty() {
        push_topics_rows(&mut rows, &resp.topics);
    } else {
        push_groups_rows(&mut rows, &resp.groups);
    }
    let ghost all = resp.offset_rows();
    assert(row_views(rows@) =~= all);
    let mut r: SortedMap<TopicPartition, Option<OffsetAndMetadata>> = SortedMap::new();
    let mut i: usize = 0;
    assert(committed_as(r@, rows_committed(all.take(0)))) by {
        assert(r@.dom() =~= rows_committed(all.take(0)).dom());
    }
    while i < rows.len()
        invariant
            i <= rows.len(),
            row_views(rows@) == all,
            committed_as(r@, rows_committed(all.take(i as int))),
        decreases rows.len() - i,
    {
        let row = &rows[i];
        let ghost had = rows_committed(all.take(i as int));
        proof {
            assert(all.take(i + 1).drop_last() =~= all.take(i as int));
            assert(all.take(i + 1).last() == (row.0@, row.1));
        }
        let committed = if row.1.error_code == 0 && row.1.committed_offset >= 0 {
            Some(
                OffsetAndMetadata {
                    offset: row.1.committed_offset,
                    leader_epoch: if row.1.committed_leader_epoch >= 0 {
                        Some(row.1.committed_leader_epoch)
                    } else {
                        None
                    },
                    metadata: match &row.1.metadata {
                        Some(text) => text.clone(),
                        None => String::new(),
                    },
                },
            )
        } else {
            None
        };
        proof {
            assert(committed_view(committed) == committed_of(all[i as int])) by {
                if committed is Some && row.1.metadata is None {
                    assert(committed->Some_0.metadata@ =~= seq![]);
                }
            }
        }
        r.insert((row.0.clone(), row.1.partition_index), committed);
        proof {
            let now = rows_committed(all.take(i + 1));
            assert(r@.dom() =~= now.dom());
            assert forall|k: PartitionKey| #[trigger] now.contains_key(k) implies committed_view(
                r@[k],
            ) == now[k] by {
                if k != (row.0@, row.1.partition_index) {
                    assert(had.contains_key(k));
                }
            }
        }
        i = i + 1;
    }
    assert(all.take(i as int) =~= all);
    proof {
        assert forall|i: int| #[trigger] last_of_its_partition(all, i) implies has_commit_of(
            r@,
            all[i],
        ) by {
            law_committed_offsets_are_those_of_the_rows(r@, all, i);
        }
    }
    r
}

/// What the consumer does with one offset fetch answer.
#[derive(Debug, PartialEq, Eq)]
pub enum OffsetFetchAction {
    /// Use the committed offsets in the answer.
    Complete,
    /// A partition of an unknown topic. Send the request again until the
    /// deadline. After the deadline, use the answer; its partitions with an
    /// error start from the reset policy.
    RetryUnknownTopic(i16),
    /// Send the request again until the deadline, then fail with the code.
    Retry(i16),
    /// Find the coordinator again and send the request again until the
    /// deadline, then fail with the code.
    FindCoordinator(i16),
    /// The group refused the principal. Fail.
    GroupAuthorizationFailed,
    /// Topics refused the principal. Fail with their names.
    TopicAuthorizationFailed(SortedSet<String>),
    /// A code that is not retried. Fail with it.
    Fatal(i16),
}

/// The codes of a partition row that do not fail the fetch at once.
pub open spec fn expected_code(code: i16) -> bool {
    code == 0 || code == UNKNOWN_TOPIC_OR_PARTITION || code == UNKNOWN_TOPIC_ID || code
        == TOPIC_AUTHORIZATION_FAILED || code == UNSTABLE_OFFSET_COMMIT
}

/// The first code of `rows` that `p` accepts.
pub open spec fn first_code(rows: Seq<OffsetRow>, p: spec_fn(i16) -> bool) -> Option<i16>
    decreases rows.len(),
{
    if rows.len() == 0 {
        None
    } else if first_code(rows.drop_last(), p) is Some {
        first_code(rows.drop_last(), p)
    } else if p(rows.last().1.error_code) {
        Some(rows.last().1.error_code)
    } else {
        None
    }
}

/// The first code other than 0 of the answer as a whole and of its groups.
pub open spec fn first_group_error(top: i16, groups: Seq<OffsetFetchGroup>) -> Option<i16>
    decreases groups.len(),
{
    if groups.len() == 0 {
        if top != 0 {
            Some(top)
        } else {
            None
        }
    } else if first_group_error(top, groups.drop_last()) is Some {
        first_group_error(top, groups.drop_last())
    } else if groups.last().error_code != 0 {
        Some(groups.last().error_code)
    } else {
        None
    }
}

/// The topics of the rows that answered a code.
pub open spec fn topics_with_code(rows: Seq<OffsetRow>, code: i16) -> Set<Seq<char>> {
    Set::new(
        |t: Seq<char>|
            exists|i: int|
                0 <= i < rows.len() && (#[trigger] rows[i]).0 == t && rows[i].1.error_code == code,
    )
}

/// Whether a row answered a code.
pub open spec fn has_code(rows: Seq<OffsetRow>, code: i16) -> bool {
    exists|i: int| 0 <= i < rows.len() && (#[trigger] rows[i]).1.error_code == code
}

/// The codes that a retry of the same request can clear.
pub open spec fn retriable_code(code: i16) -> bool {
    code == 2 || code == 3 || code == 5 || code == 6 || code == 7 || code == 9 || code == 13
        || code == 14 || code == 15 || code == 16 || code == 19 || code == 20 || code == 41 || code
        == 51 || code == 56 || code == 70 || code == 71 || code == 72 || code == 74 || code == 75
        || code == 78 || code == 80 || code == 83 || code == 84 || code == 88 || code == 89 || code
        == 100 || code == 103 || code == 106 || code == 122 || code == 123 || code == 133
}

/// The action for a code of the whole group.
pub open spec fn group_action(code: i16) -> OffsetFetchAction {
    if code == COORDINATOR_NOT_AVAILABLE || code == NOT_COORDINATOR {
        OffsetFetchAction::FindCoordinator(code)
    } else if code == GROUP_AUTHORIZATION_FAILED {
        OffsetFetchAction::GroupAuthorizationFailed
    } else if retriable_code(code) {
        OffsetFetchAction::Retry(code)
    } else {
        OffsetFetchAction::Fatal(code)
    }
}

/// Whether `action` is what follows from the rows of an answer whose groups
/// have no error: the first unexpected code fails at once; then come the
/// unauthorized topics, the unstable offsets and the unknown topics.
pub open spec fn rows_action(action: OffsetFetchAction, rows: Seq<OffsetRow>) -> bool {
    match first_code(rows, |c: i16| !expected_code(c)) {
        Some(code) => action == OffsetFetchAction::Fatal(code),
        None => if has_code(rows, TOPIC_AUTHORIZATION_FAILED) {
            action matches OffsetFetchAction::TopicAuthorizationFailed(topics) && topics@
                == topics_with_code(rows, TOPIC_AUTHORIZATION_FAILED)
        } else if has_code(rows, UNSTABLE_OFFSET_COMMIT) {
            action == OffsetFetchAction::Retry(UNSTABLE_OFFSET_COMMIT)
        } else {
            match first_code(
                rows,
                |c: i16| c == UNKNOWN_TOPIC_OR_PARTITION || c == UNKNOWN_TOPIC_ID,
            ) {
                Some(code) => action == OffsetFetchAction::RetryUnknownTopic(code),
                None => action == OffsetFetchAction::Complete,
            }
        },
    }
}

proof fn lemma_first_code_found(rows: Seq<OffsetRow>, n: int, p: spec_fn(i16) -> bool)
    requires
        0 <= n <= rows.len(),
        first_code(rows.take(n), p) is Some,
    ensures
        first_code(rows, p) == first_code(rows.take(n), p),
    decreases rows.len() - n,
{
    if n < rows.len() {
        assert(rows.take(n + 1).drop_last() =~= rows.take(n));
        lemma_first_code_found(rows, n + 1, p);
    } else {
        assert(rows.take(n) =~= rows);
    }
}

/// Classify the answer to an offset fetch.
pub fn classify_offset_fetch(resp: &OffsetFetchResponse) -> (r: OffsetFetchAction)
    ensures
        match first_group_error(resp.error_code, resp.groups@) {
            Some(code) => r == group_action(code),
            None => rows_action(r, resp.all_rows()),
        },
{
    let mut group_error: Option<i16> = if resp.error_code != 0 {
        Some(resp.error_code)
    } else {
        None
    };
    let mut g: usize = 0;
    while g < resp.groups.len()
        invariant
            g <= resp.groups.len(),
            group_error == first_group_error(resp.error_code, resp.groups@.take(g as int)),
        decreases resp.groups.len() - g,
    {
        assert(resp.groups@.take(g + 1).drop_last() =~= resp.groups@.take(g as int));
        if group_error.is_none() && resp.groups[g].error_code != 0 {
            group_error = Some(resp.groups[g].error_code);
        }
        g = g + 1;
    }
    assert(resp.groups@.take(g as int) =~= resp.groups@);
    if let Some(code) = group_error {
        return classify_group_error(code);
    }
    let mut rows: Vec<OwnedOffsetRow> = Vec::new();
    assert(row_views(rows@) =~= seq![]);
    push_topics_rows(&mut rows, &resp.topics);
    push_groups_rows(&mut rows, &resp.groups);
    let ghost all = resp.all_rows();
    assert(row_views(rows@) =~= all);
    classify_rows(&rows)
}

fn classify_rows(rows: &Vec<OwnedOffsetRow>) -> (r: OffsetFetchAction)
    ensures
        rows_action(r, row_views(rows@)),
{
    let ghost all = row_views(rows@);
    let ghost unexpected = |c: i16| !expected_code(c);
    let ghost unknown = |c: i16| c == UNKNOWN_TOPIC_OR_PARTITION || c == UNKNOWN_TOPIC_ID;
    let mut unauthorized: SortedSet<String> = SortedSet::new();
    let mut unstable = false;
    let mut unknown_topic: Option<i16> = None;
    let mut i: usize = 0;
    assert(unauthorized@ =~= topics_with_code(all.take(0), TOPIC_AUTHORIZATION_FAILED));
    while i < rows.len()
        invariant
            i <= rows.len(),
            all == row_views(rows@),
            unexpected == |c: i16| !expected_code(c),
            unknown == |c: i16| c == UNKNOWN_TOPIC_OR_PARTITION || c == UNKNOWN_TOPIC_ID,
            first_code(all.take(i as int), unexpected) is None,
            unknown_topic == first_code(all.take(i as int), unknown),
            unstable == has_code(all.take(i as int), UNSTABLE_OFFSET_COMMIT),
            unauthorized@ == topics_with_code(all.take(i as int), TOPIC_AUTHORIZATION_FAILED),
        decreases rows.len() - i,
    {
        let code = rows[i].1.error_code;
        let ghost had = all.take(i as int);
        let ghost next = all.take(i + 1);
        proof {
            assert(next.drop_last() =~= had);
            assert(next[i as int] == all[i as int]);
            assert(all[i as int] == (rows@[i as int].0@, rows@[i as int].1));
        }
        match code {
            0 => {},
            UNKNOWN_TOPIC_OR_PARTITION | UNKNOWN_TOPIC_ID => {
                if unknown_topic.is_none() {
                    unknown_topic = Some(code);
                }
            },
            TOPIC_AUTHORIZATION_FAILED => {
                unauthorized.insert(rows[i].0.clone());
            },
            UNSTABLE_OFFSET_COMMIT => {
                unstable = true;
            },
            _ => {
                proof {
                    assert(first_code(next, unexpected) == Some(code));
                    lemma_first_code_found(all, i + 1, unexpected);
                }
                return OffsetFetchAction::Fatal(code);
            },
        }
        proof {
            lemma_has_code_push(had, next, UNSTABLE_OFFSET_COMMIT);
            lemma_topics_with_code_push(had, next, TOPIC_AUTHORIZATION_FAILED);
        }
        i = i + 1;
    }
    assert(all.take(i as int) =~= all);
    proof {
        if has_code(all, TOPIC_AUTHORIZATION_FAILED) {
            let j = choose|j: int|
                0 <= j < all.len() && (#[trigger] all[j]).1.error_code
                    == TOPIC_AUTHORIZATION_FAILED;
            assert(unauthorized@.contains(all[j].0));
        }
    }
    if !unauthorized.is_empty() {
        proof {
            if !has_code(all, TOPIC_AUTHORIZATION_FAILED) {
                assert(unauthorized@ =~= Set::empty());
            }
        }
        OffsetFetchAction::TopicAuthorizationFailed(unauthorized)
    } else if unstable {
        OffsetFetchAction::Retry(UNSTABLE_OFFSET_COMMIT)
    } else if let Some(code) = unknown_topic {
        OffsetFetchAction::RetryUnknownTopic(code)
    } else {
        OffsetFetchAction::Complete
    }
}

proof fn lemma_has_code_push(had: Seq<OffsetRow>, next: Seq<OffsetRow>, code: i16)
    requires
        next.len() == had.len() + 1,
        next.drop_last() == had,
    ensures
        has_code(next, code) == (has_code(had, code) || next.last().1.error_code == code),
{
    if has_code(had, code) {
        let j = choose|j: int| 0 <= j < had.len() && (#[trigger] had[j]).1.error_code == code;
        assert(next[j].1.error_code == code);
    }
    if has_code(next, code) {
        let j = choose|j: int| 0 <= j < next.len() && (#[trigger] next[j]).1.error_code == code;
        if j < had.len() {
            assert(had[j] == next[j]);
        }
    }
}

proof fn lemma_topics_with_code_push(had: Seq<OffsetRow>, next: Seq<OffsetRow>, code: i16)
    requires
        next.len() == had.len() + 1,
        next.drop_last() == had,
    ensures
        topics_with_code(next, code) == if next.last().1.error_code == code {
            topics_with_code(had, code).insert(next.last().0)
        } else {
            topics_with_code(had, code)
        },
{
    let expected = if next.last().1.error_code == code {
        topics_with_code(had, code).insert(next.last().0)
    } else {
        topics_with_code(had, code)
    };
    assert forall|t: Seq<char>| topics_with_code(next, code).contains(t) <==> #[trigger]
        expected.contains(t) by {
        if topics_with_code(had, code).contains(t) {
            let j = choose|j: int|
                0 <= j < had.len() && (#[trigger] had[j]).0 == t && had[j].1.error_code == code;
            assert(next[j] == had[j]);
        }
        if topics_with_code(next, code).contains(t) {
            let j = choose|j: int|
                0 <= j < next.len() && (#[trigger] next[j]).0 == t && next[j].1.error_code == code;
            if j < had.len() {
                assert(had[j] == next[j]);
            }
        }
    }
    assert(topics_with_code(next, code) =~= expected);
}

/// The action for a code of the whole group.
pub fn classify_group_error(code: i16) -> (r: OffsetFetchAction)
    ensures
        r == group_action(code),
{
    if code == COORDINATOR_NOT_AVAILABLE || code == NOT_COORDINATOR {
        OffsetFetchAction::FindCoordinator(code)
    } else if code == GROUP_AUTHORIZATION_FAILED {
        OffsetFetchAction::GroupAuthorizationFailed
    } else if is_retriable_error(code) {
        OffsetFetchAction::Retry(code)
    } else {
        OffsetFetchAction::Fatal(code)
    }
}

/// Whether a retry of the same request can clear the error.
pub fn is_retriable_error(code: i16) -> (r: bool)
    ensures
        r == retriable_code(code),
{
    matches!(
        code,
        2 | 3 | 5 | 6 | 7 | 9 | 13 | 14 | 15 | 16 | 19 | 20 | 41 | 51 | 56 | 70 | 71 | 72 | 74 | 75
            | 78 | 80 | 83 | 84 | 88 | 89 | 100 | 103 | 106 | 122 | 123 | 133
    )
}

/// The row of one partition in an offset commit.
#[derive(Debug, PartialEq, Eq)]
pub struct OffsetCommitPartition {
    pub partition_index: i32,
    pub committed_offset: i64,
    pub committed_leader_epoch: i32,
    pub committed_metadata: Option<String>,
}

/// A topic of an offset commit.
#[derive(Debug, PartialEq, Eq)]
pub struct OffsetCommitTopic {
    pub name: String,
    pub topic_id: Uuid,
    pub partitions: Vec<OffsetCommitPartition>,
}

/// An offset and its leader epoch.
pub type OffsetAndEpoch = (i64, i32);

/// A committed partition with its offset and leader epoch.
pub type CommitRow = (PartitionKey, OffsetAndEpoch);

/// The partitions that a topic of a commit names, with what it commits.
pub open spec fn commit_topic_rows(topic: OffsetCommitTopic) -> Seq<CommitRow> {
    Seq::new(
        topic.partitions@.len(),
        |i: int|
            {
                let p = topic.partitions@[i];
                (
                    (topic.name@, p.partition_index),
                    (p.committed_offset, p.committed_leader_epoch),
                )
            },
    )
}

/// The partitions that a commit names, in order.
pub open spec fn commit_rows(topics: Seq<OffsetCommitTopic>) -> Seq<CommitRow>
    decreases topics.len(),
{
    if topics.len() == 0 {
        seq![]
    } else {
        commit_rows(topics.drop_last()) + commit_topic_rows(topics.last())
    }
}

/// The names of the topics of a commit.
pub open spec fn commit_names(topics: Seq<OffsetCommitTopic>) -> Seq<Seq<char>> {
    Seq::new(topics.len(), |i: int| topics[i].name@)
}

/// The id of a topic, zero when it is not known.
pub open spec fn topic_id_of(ids: Map<Seq<char>, Uuid>, topic: Seq<char>) -> Uuid {
    if ids.contains_key(topic) {
        ids[topic]
    } else {
        Uuid(0)
    }
}

/// The id of a topic, zero when it is not known.
pub fn topic_id_or_zero(ids: &SortedMap<String, Uuid>, topic: &String) -> (r: Uuid)
    ensures
        r == topic_id_of(ids@, topic@),
{
    match ids.get(topic) {
        Some(id) => *id,
        None => Uuid(0),
    }
}

/// Build the topics of an offset commit, each one with its id.
///
/// Version 10 goes by the id, and the versions before go by the name.
pub fn build_commit_topics(
    offsets: SortedMap<TopicPartition, OffsetAndEpoch>,
    topic_ids: &SortedMap<String, Uuid>,
) -> (r: Vec<OffsetCommitTopic>)
    ensures
        commit_rows(r@) == offsets.entries(),
        ascending::<String>(commit_names(r@)),
        forall|i: int|
            0 <= i < r@.len() ==> {
                &&& (#[trigger] r@[i]).topic_id == topic_id_of(topic_ids@, r@[i].name@)
                &&& r@[i].partitions@.len() > 0
                &&& forall|j: int|
                    0 <= j < r@[i].partitions@.len() ==> {
                        (#[trigger] r@[i].partitions@[j]).committed_metadata matches Some(m)
                            && m@ == Seq::<char>::empty()
                    }
            },
{
    let n = offsets.len();
    let mut topics: Vec<OffsetCommitTopic> = Vec::new();
    let ghost keys = offsets.keys();
    let ghost rows = offsets.entries();
    let mut i: usize = 0;
    assert(rows.take(0) =~= seq![]);
    while i < n
        invariant
            n == keys.len(),
            keys == offsets.keys(),
            rows == offsets.entries(),
            offsets.keys_listed(),
            i <= n,
            commit_rows(topics@) == rows.take(i as int),
            ascending::<String>(commit_names(topics@)),
            i == 0 <==> topics@.len() == 0,
            i > 0 ==> topics@.last().name@ == keys[i - 1].0,
            forall|a: int|
                0 <= a < topics@.len() ==> {
                    &&& (#[trigger] topics@[a]).topic_id == topic_id_of(
                        topic_ids@,
                        topics@[a].name@,
                    )
                    &&& topics@[a].partitions@.len() > 0
                    &&& forall|j: int|
                        0 <= j < topics@[a].partitions@.len() ==> {
                            (#[trigger] topics@[a].partitions@[j]).committed_metadata matches Some(
                                m,
                            ) && m@ == Seq::<char>::empty()
                        }
                },
        decreases n - i,
    {
        let key = offsets.key_at(i);
        let value = *offsets.value_at(i);
        let row = OffsetCommitPartition {
            partition_index: key.1,
            committed_offset: value.0,
            committed_leader_epoch: value.1,
            committed_metadata: Some(String::new()),
        };
        let ghost had = topics@;
        let ghost next = rows.take(i + 1);
        assert(next =~= rows.take(i as int).push(rows[i as int]));
        if let Some(mut last) = topics.pop() {
            if last.name == key.0 {
                let ghost last_had = last;
                last.partitions.push(row);
                topics.push(last);
                proof {
                    assert(topics@.drop_last() =~= had.drop_last());
                    assert(commit_topic_rows(topics@.last()) =~= commit_topic_rows(last_had).push(
                        rows[i as int],
                    ));
                    assert(commit_rows(topics@) =~= next);
                    assert(commit_names(topics@) =~= commit_names(had));
                    assert forall|a: int| 0 <= a < topics@.len() implies {
                        &&& (#[trigger] topics@[a]).topic_id == topic_id_of(
                            topic_ids@,
                            topics@[a].name@,
                        )
                        &&& topics@[a].partitions@.len() > 0
                        &&& forall|j: int|
                            0 <= j < topics@[a].partitions@.len() ==> {
                                (#[trigger] topics@[a].partitions@[j]).committed_metadata matches
                                    Some(m) && m@ == Seq::<char>::empty()
                            }
                    } by {
                        assert(had[a].partitions@.len() > 0);
                        if a == topics@.len() - 1 {
                            assert forall|j: int| 0 <= j < topics@[a].partitions@.len() implies {
                                (#[trigger] topics@[a].partitions@[j]).committed_metadata matches
                                    Some(m) && m@ == Seq::<char>::empty()
                            } by {
                                if j < last_had.partitions@.len() {
                                    assert(topics@[a].partitions@[j] == had[a].partitions@[j]);
                                }
                            }
                        }
                    }
                }
                i = i + 1;
                continue ;
            }
            topics.push(last);
            assert(topics@ =~= had);
        }
        let topic_id = topic_id_or_zero(topic_ids, &key.0);
        let mut partitions: Vec<OffsetCommitPartition> = Vec::new();
        partitions.push(row);
        topics.push(OffsetCommitTopic { name: key.0.clone(), topic_id, partitions });
        proof {
            assert(topics@.drop_last() =~= had);
            assert(commit_topic_rows(topics@.last()) =~= seq![rows[i as int]]);
            assert(commit_rows(topics@) =~= next);
            let names = commit_names(topics@);
            assert(names =~= commit_names(had).push(keys[i as int].0));
            if i > 0 {
                assert(<TopicPartition as MapKey>::before(keys[i - 1], keys[i as int]));
                assert forall|a: int| 0 <= a < had.len() implies text_before(
                    #[trigger] names[a],
                    keys[i as int].0,
                ) by {
                    if a < had.len() - 1 {
                        assert(commit_names(had)[a] == names[a]);
                        assert(<String as MapKey>::before(
                            commit_names(had)[a],
                            commit_names(had)[had.len() - 1],
                        ));
                        lemma_text_before_transitive(names[a], keys[i - 1].0, keys[i as int].0);
                    }
                }
            }
            assert forall|a: int, b: int| 0 <= a < b < names.len() implies <String as MapKey>::before(
                #[trigger] names[a],
                #[trigger] names[b],
            ) by {
                if b < had.len() {
                    assert(commit_names(had)[a] == names[a]);
                    assert(commit_names(had)[b] == names[b]);
                }
            }
        }
        i = i + 1;
    }
    assert(rows.take(n as int) =~= rows);
    topics
}

/// Build the names of topic ids from the ids of topic names. Fetch answers
/// from version 13 name a topic by its id only.
///
/// Where two topics share an id, one of them has it.
pub fn id_to_name(topic_ids: &SortedMap<String, Uuid>) -> (r: SortedMap<Uuid, String>)
    ensures
        forall|name: Seq<char>| #[trigger]
            topic_ids@.contains_key(name) ==> r@.contains_key(topic_ids@[name]@),
        forall|id: u128| #[trigger]
            r@.contains_key(id) ==> topic_ids@.contains_key(r@[id]@) && topic_ids@[r@[id]@]@ == id,
{
    let n = topic_ids.len();
    let mut r: SortedMap<Uuid, String> = SortedMap::new();
    let mut i: usize = 0;
    while i < n
        invariant
            n == topic_ids.keys().len(),
            topic_ids.keys_listed(),
            i <= n,
            forall|j: int|
                0 <= j < i ==> r@.contains_key(topic_ids@[#[trigger] topic_ids.keys()[j]]@),
            forall|id: u128| #[trigger]
                r@.contains_key(id) ==> topic_ids@.contains_key(r@[id]@) && topic_ids@[r@[id]@]@
                    == id,
        decreases n - i,
    {
        r.insert(*topic_ids.value_at(i), topic_ids.key_at(i).clone());
        i = i + 1;
    }
    proof {
        assert forall|name: Seq<char>| #[trigger] topic_ids@.contains_key(name) implies r@
            .contains_key(topic_ids@[name]@) by {
            assert(topic_ids.keys().contains(name));
            let j = choose|j: int| 0 <= j < n && topic_ids.keys()[j] == name;
            assert(topic_ids.keys()[j] == name);
        }
    }
    r
}

/// Where no two topics share an id, the names of the ids invert the ids of the
/// names.
pub proof fn law_distinct_ids_invert(ids: Map<Seq<char>, Uuid>, names: Map<u128, String>)
    requires
        forall|name: Seq<char>| #[trigger] ids.contains_key(name) ==> names.contains_key(ids[name]@),
        forall|id: u128| #[trigger]
            names.contains_key(id) ==> ids.contains_key(names[id]@) && ids[names[id]@]@ == id,
        forall|a: Seq<char>, b: Seq<char>|
            ids.contains_key(a) && ids.contains_key(b) && ids[a] == ids[b] ==> a == b,
    ensures
        forall|name: Seq<char>| #[trigger]
            ids.contains_key(name) ==> names[ids[name]@]@ == name,
{
    assert forall|name: Seq<char>| #[trigger] ids.contains_key(name) implies names[ids[name]@]@
        == name by {
        let id = ids[name]@;
        assert(names.contains_key(id));
        assert(ids[names[id]@] == ids[name]);
    }
}

} // verus!
