//! One rebalance: the join, the sync, and the steps that install the new
//! assignment.
use vstd::multiset::Multiset;
use vstd::prelude::*;

use crate::assignment::{
    copy_keys, key_set, keys_without, lemma_from_set, lemma_list_multiset, lemma_picked, picked,
    Assignment,
};
use crate::collections::{ascending, lemma_take_next, SortedMap, SortedSet};
use crate::config::{AutoOffsetReset, RebalanceProtocol};
use crate::consumer::Consumer;
use crate::list_offsets::key_views;
use crate::membership::{assignment_installed, GroupMember};
use crate::offset_laws::{
    last_of_its_partition, law_named_partitions_start_at_their_own_offset, starts_at_its_offset,
};
use crate::offset_wire::{parse_offset_fetch, OffsetFetchResponse, OffsetRow};
use crate::position::{
    position_of, position_or_default, set_offset_epoch, with_offset_epoch, PositionMap,
};
use crate::position_update::{
    reset_starting_offset, start_from, start_of, starting_offset,
};
use crate::wire::{copy_key, LeaderEpoch, PartitionKey, TopicPartition};

verus! {

/// The key of an offset row.
pub open spec fn offset_row_key(row: OffsetRow) -> PartitionKey {
    (row.0, row.1.partition_index)
}

/// The keys of offset rows.
pub open spec fn offset_row_keys(rows: Seq<OffsetRow>) -> Set<PartitionKey> {
    Set::new(
        |k: PartitionKey|
            exists|i: int| 0 <= i < rows.len() && offset_row_key(#[trigger] rows[i]) == k,
    )
}

/// The next offsets after rows with committed offsets, in order.
pub open spec fn primed_offsets(
    offsets: Map<PartitionKey, i64>,
    rows: Seq<OffsetRow>,
    policy: AutoOffsetReset,
) -> Map<PartitionKey, i64>
    decreases rows.len(),
{
    if rows.len() == 0 {
        offsets
    } else {
        primed_offsets(offsets, rows.drop_last(), policy).insert(
            offset_row_key(rows.last()),
            start_from(rows.last().1.committed_offset, policy),
        )
    }
}

/// The positions after rows with committed leader epochs, in order.
pub open spec fn primed_positions(positions: PositionMap, rows: Seq<OffsetRow>) -> PositionMap
    decreases rows.len(),
{
    if rows.len() == 0 {
        positions
    } else {
        with_offset_epoch(
            primed_positions(positions, rows.drop_last()),
            offset_row_key(rows.last()),
            LeaderEpoch(rows.last().1.committed_leader_epoch),
        )
    }
}

/// The next offsets after the partitions of `keys` that no row named took the
/// start of a partition without a committed offset.
pub open spec fn missing_offsets(
    offsets: Map<PartitionKey, i64>,
    keys: Seq<PartitionKey>,
    seen: Set<PartitionKey>,
    policy: AutoOffsetReset,
) -> Map<PartitionKey, i64> {
    Map::new(
        |k: PartitionKey| offsets.contains_key(k) || (keys.contains(k) && !seen.contains(k)),
        |k: PartitionKey|
            if keys.contains(k) && !seen.contains(k) {
                start_of(policy)
            } else {
                offsets[k]
            },
    )
}

/// The positions after the partitions of `keys` that no row named got one.
pub open spec fn missing_positions(
    positions: PositionMap,
    keys: Seq<PartitionKey>,
    seen: Set<PartitionKey>,
) -> PositionMap {
    Map::new(
        |k: PartitionKey| positions.contains_key(k) || (keys.contains(k) && !seen.contains(k)),
        |k: PartitionKey| position_of(positions, k),
    )
}

/// Whether a partition that an answer does not name gets a start offset.
pub fn should_prime_missing_partition(seen: bool) -> (r: bool)
    ensures
        r == !seen,
{
    !seen
}

impl Consumer {
    /// Set the next offsets of newly added partitions from their committed
    /// offsets. A partition without one starts where the reset policy says.
    pub fn prime_offsets(&mut self, partitions: &Vec<TopicPartition>, response: &OffsetFetchResponse)
        ensures
            ({
                let rows = response.offset_rows();
                let policy = old(self).settings.auto_offset_reset;
                &&& final(self).next_offsets@ == missing_offsets(
                    primed_offsets(old(self).next_offsets@, rows, policy),
                    key_views(partitions@),
                    offset_row_keys(rows),
                    policy,
                )
                &&& final(self).positions@ == missing_positions(
                    primed_positions(old(self).positions@, rows),
                    key_views(partitions@),
                    offset_row_keys(rows),
                )
            }),
            forall|i: int| #[trigger]
                last_of_its_partition(response.offset_rows(), i) ==> starts_at_its_offset(
                    response.offset_rows()[i],
                    old(self).settings.auto_offset_reset,
                    final(self).next_offsets@,
                    final(self).positions@,
                ),
            *final(self) == (Consumer {
                next_offsets: final(self).next_offsets,
                positions: final(self).positions,
                ..*old(self)
            }),
    {
        let policy = self.settings.auto_offset_reset;
        let parsed = parse_offset_fetch(response);
        let ghost rows = response.offset_rows();
        let ghost offsets = self.next_offsets@;
        let ghost positions = self.positions@;
        let mut seen: SortedSet<TopicPartition> = SortedSet::new();
        let mut i: usize = 0;
        assert(seen@ =~= offset_row_keys(rows.take(0)));
        while i < parsed.len()
            invariant
                i <= parsed@.len(),
                parsed@.len() == rows.len(),
                forall|j: int|
                    0 <= j < parsed@.len() ==> {
                        &&& (#[trigger] parsed@[j]).0@ == rows[j].0
                        &&& parsed@[j].1 == rows[j].1.partition_index
                        &&& parsed@[j].2 == rows[j].1.committed_offset
                        &&& parsed@[j].3 == rows[j].1.committed_leader_epoch
                    },
                policy == old(self).settings.auto_offset_reset,
                seen@ == offset_row_keys(rows.take(i as int)),
                self.next_offsets@ == primed_offsets(offsets, rows.take(i as int), policy),
                self.positions@ == primed_positions(positions, rows.take(i as int)),
                *self == (Consumer {
                    next_offsets: self.next_offsets,
                    positions: self.positions,
                    ..*old(self)
                }),
            decreases parsed.len() - i,
        {
            let row = &parsed[i];
            let key: TopicPartition = (row.0.clone(), row.1);
            let ghost seen_had = seen@;
            let ghost had = rows.take(i as int);
            let ghost next = rows.take(i + 1);
            proof {
                assert(next.drop_last() =~= had);
                assert(next.last() == rows[i as int]);
                assert(key@ == offset_row_key(rows[i as int]));
            }
            self.next_offsets.insert(copy_key(&key), starting_offset(row.2, policy));
            set_offset_epoch(&mut self.positions, &key, LeaderEpoch(row.3));
            seen.insert(key);
            proof {
                assert forall|k: PartitionKey| offset_row_keys(next).contains(k) <==> #[trigger]
                    seen_had.insert(key@).contains(k) by {
                    if seen_had.contains(k) {
                        let j = choose|j: int|
                            0 <= j < had.len() && offset_row_key(#[trigger] had[j]) == k;
                        assert(next[j] == had[j]);
                    }
                    assert(offset_row_key(next[i as int]) == key@);
                    if offset_row_keys(next).contains(k) {
                        let j = choose|j: int|
                            0 <= j < next.len() && offset_row_key(#[trigger] next[j]) == k;
                        if j < i {
                            assert(had[j] == next[j]);
                        }
                    }
                }
                assert(seen@ =~= offset_row_keys(next));
            }
            i = i + 1;
        }
        assert(rows.take(i as int) =~= rows);
        let ghost keys = key_views(partitions@);
        let ghost after_rows = self.next_offsets@;
        let ghost positions_rows = self.positions@;
        let reset = reset_starting_offset(policy);
        let mut p: usize = 0;
        assert(missing_offsets(after_rows, keys.take(0), seen@, policy) =~= after_rows);
        assert(missing_positions(positions_rows, keys.take(0), seen@) =~= positions_rows);
        while p < partitions.len()
            invariant
                p <= partitions@.len(),
                keys == key_views(partitions@),
                reset == start_of(policy),
                self.next_offsets@ == missing_offsets(
                    after_rows,
                    keys.take(p as int),
                    seen@,
                    policy,
                ),
                self.positions@ == missing_positions(positions_rows, keys.take(p as int), seen@),
                *self == (Consumer {
                    next_offsets: self.next_offsets,
                    positions: self.positions,
                    ..*old(self)
                }),
            decreases partitions.len() - p,
        {
            let key = &partitions[p];
            proof {
                lemma_take_next(keys, p as int);
                assert(keys[p as int] == key@);
            }
            if should_prime_missing_partition(seen.contains(key)) {
                self.next_offsets.insert(copy_key(key), reset);
                let position = position_or_default(&self.positions, key);
                self.positions.insert(copy_key(key), position);
            }
            assert(self.next_offsets@ =~= missing_offsets(
                after_rows,
                keys.take(p + 1),
                seen@,
                policy,
            ));
            assert(self.positions@ =~= missing_positions(
                positions_rows,
                keys.take(p + 1),
                seen@,
            ));
            p = p + 1;
        }
        assert(keys.take(p as int) =~= keys);
        proof {
            assert forall|i: int| #[trigger]
                last_of_its_partition(rows, i) implies starts_at_its_offset(
                rows[i],
                policy,
                self.next_offsets@,
                self.positions@,
            ) by {
                law_named_partitions_start_at_their_own_offset(
                    offsets,
                    positions,
                    rows,
                    keys,
                    policy,
                    i,
                );
            }
        }
    }
}

proof fn lemma_primed_offsets(
    offsets: Map<PartitionKey, i64>,
    rows: Seq<OffsetRow>,
    policy: AutoOffsetReset,
)
    ensures
        forall|k: PartitionKey| #[trigger]
            primed_offsets(offsets, rows, policy).contains_key(k) <==> offsets.contains_key(k)
                || offset_row_keys(rows).contains(k),
    decreases rows.len(),
{
    let all = primed_offsets(offsets, rows, policy);
    if rows.len() > 0 {
        let front = rows.drop_last();
        lemma_primed_offsets(offsets, front, policy);
        assert forall|k: PartitionKey| #[trigger] all.contains_key(k) <==> offsets.contains_key(k)
            || offset_row_keys(rows).contains(k) by {
            assert(primed_offsets(offsets, front, policy).contains_key(k) <==> (
            offsets.contains_key(k) || offset_row_keys(front).contains(k)));
            if offset_row_keys(front).contains(k) {
                let j = choose|j: int|
                    0 <= j < front.len() && offset_row_key(#[trigger] front[j]) == k;
                assert(offset_row_key(rows[j]) == k);
            }
            assert(offset_row_key(rows[rows.len() - 1]) == offset_row_key(rows.last()));
            if offset_row_keys(rows).contains(k) {
                let j = choose|j: int|
                    0 <= j < rows.len() && offset_row_key(#[trigger] rows[j]) == k;
                if j < front.len() {
                    assert(offset_row_key(front[j]) == k);
                }
            }
        }
    } else {
        assert forall|k: PartitionKey| #[trigger] all.contains_key(k) <==> offsets.contains_key(k)
            || offset_row_keys(rows).contains(k) by {}
    }
}

/// After priming, every primed partition has a next offset, whatever the
/// coordinator answered, and no partition lost the one it had.
pub proof fn law_primed_partitions_have_an_offset(
    offsets: Map<PartitionKey, i64>,
    rows: Seq<OffsetRow>,
    keys: Seq<PartitionKey>,
    policy: AutoOffsetReset,
)
    ensures
        ({
            let after = missing_offsets(
                primed_offsets(offsets, rows, policy),
                keys,
                offset_row_keys(rows),
                policy,
            );
            &&& forall|k: PartitionKey| #[trigger] keys.contains(k) ==> after.contains_key(k)
            &&& forall|k: PartitionKey| #[trigger] offsets.contains_key(k) ==> after.contains_key(k)
        }),
{
    lemma_primed_offsets(offsets, rows, policy);
    let primed = primed_offsets(offsets, rows, policy);
    let after = missing_offsets(primed, keys, offset_row_keys(rows), policy);
    assert forall|k: PartitionKey| #[trigger] keys.contains(k) implies after.contains_key(k) by {
        assert(primed.contains_key(k) <==> offsets.contains_key(k) || offset_row_keys(
            rows,
        ).contains(k));
    }
    assert forall|k: PartitionKey| #[trigger] offsets.contains_key(k) implies after.contains_key(
        k,
    ) by {
        assert(primed.contains_key(k));
    }
}

/// Which callback of the rebalance listener runs.
#[derive(Clone, Copy, Debug, PartialEq, Eq, Structural)]
pub enum ListenerCallKind {
    Revoked,
    Assigned,
    Lost,
}

/// One step of a rebalance after its sync.
#[derive(Debug, PartialEq, Eq)]
pub enum RebalanceStep {
    /// Fetch the committed offsets of partitions, and start from them.
    Prime(Vec<TopicPartition>),
    /// Keep `poll` from fetching partitions until their assign callback ran.
    Gate(Vec<TopicPartition>),
    /// Let `poll` fetch them.
    Ungate(Vec<TopicPartition>),
    /// Install a generation, and keep the assignment.
    InstallGeneration(i32),
    /// Install an assignment.
    Publish { assignment: Vec<TopicPartition>, preserve_retained: bool, generation: i32 },
    /// Drop the positions of all other partitions.
    KeepOnly(Vec<TopicPartition>),
    /// Drop the positions of partitions.
    Forget(Vec<TopicPartition>),
    /// Run a callback of the rebalance listener.
    Listener { kind: ListenerCallKind, partitions: Vec<TopicPartition> },
    /// Join and sync again.
    JoinAgain,
}

/// The model of a [`RebalanceStep`].
pub enum StepModel {
    Prime(Multiset<PartitionKey>),
    Gate(Set<PartitionKey>),
    Ungate(Set<PartitionKey>),
    InstallGeneration(i32),
    Publish { assignment: Seq<PartitionKey>, preserve_retained: bool, generation: i32 },
    KeepOnly(Set<PartitionKey>),
    Forget(Set<PartitionKey>),
    Listener { kind: ListenerCallKind, partitions: Multiset<PartitionKey> },
    JoinAgain,
}

/// The model of a step.
pub open spec fn step_model(step: RebalanceStep) -> StepModel {
    match step {
        RebalanceStep::Prime(list) => StepModel::Prime(key_views(list@).to_multiset()),
        RebalanceStep::Gate(list) => StepModel::Gate(key_views(list@).to_set()),
        RebalanceStep::Ungate(list) => StepModel::Ungate(key_views(list@).to_set()),
        RebalanceStep::InstallGeneration(generation) => StepModel::InstallGeneration(generation),
        RebalanceStep::Publish { assignment, preserve_retained, generation } => StepModel::Publish {
            assignment: key_views(assignment@),
            preserve_retained,
            generation,
        },
        RebalanceStep::KeepOnly(list) => StepModel::KeepOnly(key_views(list@).to_set()),
        RebalanceStep::Forget(list) => StepModel::Forget(key_views(list@).to_set()),
        RebalanceStep::Listener { kind, partitions } => StepModel::Listener {
            kind,
            partitions: key_views(partitions@).to_multiset(),
        },
        RebalanceStep::JoinAgain => StepModel::JoinAgain,
    }
}

/// The models of steps.
pub open spec fn step_models(steps: Seq<RebalanceStep>) -> Seq<StepModel> {
    Seq::new(steps.len(), |i: int| step_model(steps[i]))
}

/// The steps that install the added partitions: their positions come first, so
/// that `poll` never sees a partition without one.
pub open spec fn installing(
    added: Multiset<PartitionKey>,
    gated: Set<PartitionKey>,
    assignment: Seq<PartitionKey>,
    preserve_retained: bool,
    generation: i32,
) -> Seq<StepModel> {
    seq![
        StepModel::Prime(added),
        StepModel::Gate(gated),
        StepModel::Publish { assignment, preserve_retained, generation },
    ]
}

/// The last steps of an assignment: the assign callback, then the end of the
/// gate.
pub open spec fn announcing(partitions: Multiset<PartitionKey>) -> Seq<StepModel> {
    seq![
        StepModel::Listener { kind: ListenerCallKind::Assigned, partitions },
        StepModel::Ungate(partitions.dom()),
    ]
}

/// The keys of `list` that are not in `set`, in order.
pub open spec fn beyond(list: Seq<PartitionKey>, set: Set<PartitionKey>) -> Seq<PartitionKey> {
    picked(list, |k: PartitionKey| !set.contains(k))
}

/// The steps of a rebalance after its first sync, for a member that owned
/// `owned` and got `assignment`.
///
/// An eager member drops everything and installs the assignment in one round.
/// A cooperative member keeps its partitions. When it gives partitions up, it
/// joins again, so that they can be placed.
pub open spec fn plan(
    protocol: RebalanceProtocol,
    owned: Set<PartitionKey>,
    assignment: Seq<PartitionKey>,
    generation: i32,
) -> Seq<StepModel> {
    let new = assignment.to_set();
    let added = Multiset::from_set(new.difference(owned));
    let revoked = owned.difference(new);
    if protocol == RebalanceProtocol::Eager {
        installing(added, new, assignment, false, generation) + seq![StepModel::KeepOnly(new)]
            + announcing(assignment.to_multiset())
    } else if revoked == Set::<PartitionKey>::empty() {
        installing(added, added.dom(), assignment, true, generation) + announcing(added)
    } else {
        revoking(Multiset::from_set(revoked), generation) + installing(
            added,
            added.dom(),
            assignment,
            true,
            generation,
        ) + announcing(added) + seq![StepModel::Forget(revoked), StepModel::JoinAgain]
    }
}

/// The steps before the installation of an assignment that gives partitions up:
/// the generation comes first, so that a commit in the callback carries it.
pub open spec fn revoking(revoked: Multiset<PartitionKey>, generation: i32) -> Seq<StepModel> {
    seq![
        StepModel::InstallGeneration(generation),
        StepModel::Listener { kind: ListenerCallKind::Revoked, partitions: revoked },
    ]
}

/// The steps of a cooperative rebalance after its second sync, for a member
/// that owned the list `owned`.
pub open spec fn second_plan(
    owned: Seq<PartitionKey>,
    assignment: Seq<PartitionKey>,
    generation: i32,
) -> Seq<StepModel> {
    let added = beyond(assignment, owned.to_set()).to_multiset();
    let revoked = beyond(owned, assignment.to_set());
    (if revoked.len() == 0 {
        seq![]
    } else {
        revoking(revoked.to_multiset(), generation)
    }) + installing(added, added.dom(), assignment, true, generation) + announcing(added)
}

/// The items of `a` that are not in `b`, in order.
pub fn difference(a: &SortedSet<TopicPartition>, b: &SortedSet<TopicPartition>) -> (r: Vec<
    TopicPartition,
>)
    ensures
        key_views(r@).to_set() == a@.difference(b@),
        key_views(r@).to_multiset() == Multiset::from_set(a@.difference(b@)),
        ascending::<TopicPartition>(key_views(r@)),
{
    let mut r: Vec<TopicPartition> = Vec::new();
    let ghost items = a.items();
    let ghost places: Seq<int> = seq![];
    let n = a.len();
    let mut i: usize = 0;
    while i < n
        invariant
            n == items.len(),
            items == a.items(),
            a.items_listed(),
            i <= n,
            places.len() == r@.len(),
            forall|j: int|
                0 <= j < r@.len() ==> 0 <= #[trigger] places[j] < i && key_views(r@)[j]
                    == items[places[j]] && !b@.contains(items[places[j]]),
            forall|j: int, k: int| 0 <= j < k < r@.len() ==> places[j] < places[k],
            forall|j: int|
                0 <= j < i && !b@.contains(#[trigger] items[j]) ==> key_views(r@).contains(
                    items[j],
                ),
        decreases n - i,
    {
        let item = a.at(i);
        if !b.contains(item) {
            let ghost had = r@;
            let key = copy_key(item);
            r.push(key);
            proof {
                places = places.push(i as int);
                assert(key_views(r@) =~= key_views(had).push(items[i as int]));
                assert forall|j: int|
                    0 <= j < i + 1 && !b@.contains(#[trigger] items[j]) implies key_views(
                    r@,
                ).contains(items[j]) by {
                    if j < i {
                        assert(key_views(had).contains(items[j]));
                        let p = choose|p: int|
                            0 <= p < key_views(had).len() && key_views(had)[p] == items[j];
                        assert(key_views(r@)[p] == items[j]);
                    } else {
                        assert(key_views(r@)[had.len() as int] == items[j]);
                    }
                }
            }
        }
        i = i + 1;
    }
    proof {
        let views = key_views(r@);
        assert forall|j: int, k: int| 0 <= j < k < views.len() implies <TopicPartition as
            crate::collections::MapKey>::before(#[trigger] views[j], #[trigger] views[k]) by {
            assert(places[j] < places[k]);
            assert(<TopicPartition as crate::collections::MapKey>::before(
                items[places[j]],
                items[places[k]],
            ));
        }
        assert forall|k: PartitionKey| views.to_set().contains(k) <==> #[trigger]
            a@.difference(b@).contains(k) by {
            if views.contains(k) {
                let j = choose|j: int| 0 <= j < views.len() && views[j] == k;
                assert(items[places[j]] == k);
                assert(items.contains(k));
            }
            if a@.difference(b@).contains(k) {
                assert(items.contains(k));
                let j = choose|j: int| 0 <= j < items.len() && items[j] == k;
                assert(!b@.contains(items[j]));
            }
        }
        assert(views.to_set() =~= a@.difference(b@));
        crate::collections::lemma_ascending_distinct::<TopicPartition>(views);
        lemma_list_multiset(views);
    }
    r
}

fn push_step(steps: &mut Vec<RebalanceStep>, step: RebalanceStep)
    ensures
        step_models(final(steps)@) == step_models(old(steps)@).push(step_model(step)),
{
    let ghost had = steps@;
    steps.push(step);
    assert(step_models(steps@) =~= step_models(had).push(step_model(step)));
}

fn push_installing(
    steps: &mut Vec<RebalanceStep>,
    added: &Vec<TopicPartition>,
    gated: &Vec<TopicPartition>,
    assignment: &Vec<TopicPartition>,
    preserve_retained: bool,
    generation: i32,
)
    ensures
        step_models(final(steps)@) == step_models(old(steps)@) + installing(
            key_views(added@).to_multiset(),
            key_views(gated@).to_set(),
            key_views(assignment@),
            preserve_retained,
            generation,
        ),
{
    let ghost had = step_models(steps@);
    push_step(steps, RebalanceStep::Prime(copy_keys(added)));
    push_step(steps, RebalanceStep::Gate(copy_keys(gated)));
    push_step(
        steps,
        RebalanceStep::Publish { assignment: copy_keys(assignment), preserve_retained, generation },
    );
    assert(step_models(steps@) =~= had + installing(
        key_views(added@).to_multiset(),
        key_views(gated@).to_set(),
        key_views(assignment@),
        preserve_retained,
        generation,
    ));
}

fn push_announcing(steps: &mut Vec<RebalanceStep>, partitions: &Vec<TopicPartition>)
    ensures
        step_models(final(steps)@) == step_models(old(steps)@) + announcing(
            key_views(partitions@).to_multiset(),
        ),
{
    let ghost had = step_models(steps@);
    push_step(
        steps,
        RebalanceStep::Listener {
            kind: ListenerCallKind::Assigned,
            partitions: copy_keys(partitions),
        },
    );
    push_step(steps, RebalanceStep::Ungate(copy_keys(partitions)));
    proof {
        lemma_list_multiset(key_views(partitions@));
    }
    assert(step_models(steps@) =~= had + announcing(key_views(partitions@).to_multiset()));
}

fn push_revoking(steps: &mut Vec<RebalanceStep>, revoked: &Vec<TopicPartition>, generation: i32)
    ensures
        step_models(final(steps)@) == step_models(old(steps)@) + revoking(
            key_views(revoked@).to_multiset(),
            generation,
        ),
{
    let ghost had = step_models(steps@);
    push_step(steps, RebalanceStep::InstallGeneration(generation));
    push_step(
        steps,
        RebalanceStep::Listener {
            kind: ListenerCallKind::Revoked,
            partitions: copy_keys(revoked),
        },
    );
    assert(step_models(steps@) =~= had + revoking(key_views(revoked@).to_multiset(), generation));
}

/// The steps of a rebalance after its first sync.
pub fn rejoin_group(
    protocol: RebalanceProtocol,
    owned: &Assignment,
    assignment: &Vec<TopicPartition>,
    generation: i32,
) -> (r: Vec<RebalanceStep>)
    ensures
        step_models(r@) == plan(protocol, owned@, key_views(assignment@), generation),
{
    let new_set = key_set(assignment);
    let added = difference(&new_set, owned.set());
    let revoked = difference(owned.set(), &new_set);
    let mut steps: Vec<RebalanceStep> = Vec::new();
    let ghost goal = plan(protocol, owned@, key_views(assignment@), generation);
    let ghost revoked_set = owned@.difference(new_set@);
    proof {
        assert(step_models(steps@) =~= seq![]);
        lemma_list_multiset(key_views(added@));
    }
    match protocol {
        RebalanceProtocol::Eager => {
            push_installing(&mut steps, &added, assignment, assignment, false, generation);
            push_step(&mut steps, RebalanceStep::KeepOnly(copy_keys(assignment)));
            push_announcing(&mut steps, assignment);
            assert(step_models(steps@) =~= goal);
        },
        RebalanceProtocol::Cooperative => {
            if revoked.is_empty() {
                assert(revoked_set =~= Set::empty()) by {
                    assert(key_views(revoked@) =~= seq![]);
                }
                push_installing(&mut steps, &added, &added, assignment, true, generation);
                push_announcing(&mut steps, &added);
                assert(step_models(steps@) =~= goal);
            } else {
                assert(revoked_set != Set::<PartitionKey>::empty()) by {
                    assert(key_views(revoked@).contains(key_views(revoked@)[0]));
                    assert(revoked_set.contains(key_views(revoked@)[0]));
                }
                push_revoking(&mut steps, &revoked, generation);
                push_installing(&mut steps, &added, &added, assignment, true, generation);
                push_announcing(&mut steps, &added);
                push_step(&mut steps, RebalanceStep::Forget(revoked));
                push_step(&mut steps, RebalanceStep::JoinAgain);
                assert(step_models(steps@) =~= goal);
            }
        },
    }
    steps
}

/// The steps of a cooperative rebalance after its second sync.
pub fn rejoin_group_again(
    owned: &Assignment,
    assignment: &Vec<TopicPartition>,
    generation: i32,
) -> (r: Vec<RebalanceStep>)
    ensures
        step_models(r@) == second_plan(owned.listed(), key_views(assignment@), generation),
{
    let new_set = key_set(assignment);
    let had = owned.list();
    let added = keys_without(assignment, owned.set());
    let revoked = keys_without(&had, &new_set);
    let mut steps: Vec<RebalanceStep> = Vec::new();
    let ghost goal = second_plan(owned.listed(), key_views(assignment@), generation);
    proof {
        assert(step_models(steps@) =~= seq![]);
        lemma_list_multiset(key_views(added@));
    }
    if !revoked.is_empty() {
        push_revoking(&mut steps, &revoked, generation);
    }
    push_installing(&mut steps, &added, &added, assignment, true, generation);
    push_announcing(&mut steps, &added);
    assert(step_models(steps@) =~= goal);
    steps
}

/// Whether the partitions that `steps` publish beyond those in `owned` were all
/// primed by an earlier step.
pub open spec fn primed_before_published(steps: Seq<StepModel>, owned: Set<PartitionKey>) -> bool {
    forall|i: int|
        0 <= i < steps.len() ==> ((#[trigger] steps[i]) matches StepModel::Publish {
            assignment,
            preserve_retained: _,
            generation: _,
        } ==> exists|j: int|
            0 <= j < i && ((#[trigger] steps[j]) matches StepModel::Prime(primed)
                && assignment.to_set().difference(owned).subset_of(primed.dom())))
}

proof fn lemma_added(owned: Seq<PartitionKey>, assignment: Seq<PartitionKey>)
    ensures
        beyond(assignment, owned.to_set()).to_multiset().dom() == assignment.to_set().difference(
            owned.to_set(),
        ),
        beyond(owned, assignment.to_set()).len() == 0 <==> owned.to_set().difference(
            assignment.to_set(),
        ) == Set::<PartitionKey>::empty(),
{
    let added = beyond(assignment, owned.to_set());
    lemma_list_multiset(added);
    lemma_picked(assignment, |k: PartitionKey| !owned.to_set().contains(k));
    assert(added.to_set() =~= assignment.to_set().difference(owned.to_set()));
    let revoked = beyond(owned, assignment.to_set());
    lemma_picked(owned, |k: PartitionKey| !assignment.to_set().contains(k));
    assert(revoked.to_set() =~= owned.to_set().difference(assignment.to_set()));
    if revoked.len() > 0 {
        assert(revoked.to_set().contains(revoked[0]));
    } else {
        assert(revoked.to_set() =~= Set::empty());
    }
}

proof fn lemma_added_first(owned: Set<PartitionKey>, assignment: Seq<PartitionKey>)
    ensures
        Multiset::from_set(assignment.to_set().difference(owned)).dom()
            == assignment.to_set().difference(owned),
        assignment.to_multiset().dom() == assignment.to_set(),
{
    vstd::seq_lib::seq_to_set_is_finite(assignment);
    lemma_from_set(assignment.to_set().difference(owned));
    lemma_list_multiset(assignment);
}

/// A partition that a rebalance adds is visible to `poll` only after its next
/// offset was set: every plan primes before it publishes.
pub proof fn law_partitions_are_primed_before_they_are_published(
    protocol: RebalanceProtocol,
    owned: Seq<PartitionKey>,
    assignment: Seq<PartitionKey>,
    generation: i32,
)
    ensures
        primed_before_published(
            plan(protocol, owned.to_set(), assignment, generation),
            owned.to_set(),
        ),
        primed_before_published(second_plan(owned, assignment, generation), owned.to_set()),
{
    let set = owned.to_set();
    let first = plan(protocol, set, assignment, generation);
    let second = second_plan(owned, assignment, generation);
    lemma_added(owned, assignment);
    lemma_added_first(set, assignment);
    assert forall|i: int| 0 <= i < first.len() implies ((#[trigger] first[i]) matches
        StepModel::Publish { assignment: a, preserve_retained: _, generation: _ } ==> exists|j: int|
        0 <= j < i && ((#[trigger] first[j]) matches StepModel::Prime(primed)
            && a.to_set().difference(set).subset_of(primed.dom()))) by {
        if first[i] is Publish {
            assert(first[i - 2] == StepModel::Prime(
                Multiset::from_set(assignment.to_set().difference(set)),
            ));
        }
    }
    assert forall|i: int| 0 <= i < second.len() implies ((#[trigger] second[i]) matches
        StepModel::Publish { assignment: a, preserve_retained: _, generation: _ } ==> exists|j: int|
        0 <= j < i && ((#[trigger] second[j]) matches StepModel::Prime(primed)
            && a.to_set().difference(set).subset_of(primed.dom()))) by {
        if second[i] is Publish {
            assert(second[i - 2] == StepModel::Prime(beyond(assignment, set).to_multiset()));
        }
    }
}

/// The state after a step. The steps that need a request or a callback change
/// nothing by themselves.
pub open spec fn step_done(
    step: StepModel,
    member: GroupMember,
    consumer: Consumer,
    member_after: GroupMember,
    after: Consumer,
) -> bool {
    match step {
        StepModel::Gate(partitions) => {
            &&& member_after == member
            &&& after.assigned_callback_pending@ == if member.has_listener {
                consumer.assigned_callback_pending@.union(partitions)
            } else {
                consumer.assigned_callback_pending@
            }
            &&& after == (Consumer {
                assigned_callback_pending: after.assigned_callback_pending,
                ..consumer
            })
        },
        StepModel::Ungate(partitions) => {
            &&& member_after == member
            &&& after.assigned_callback_pending@ == consumer.assigned_callback_pending@.difference(
                partitions,
            )
            &&& after == (Consumer {
                assigned_callback_pending: after.assigned_callback_pending,
                ..consumer
            })
        },
        StepModel::InstallGeneration(generation) => {
            &&& member_after == (GroupMember { generation_id: generation, ..member })
            &&& after.commit_identity.generation == generation
            &&& after.commit_identity.member_id@ == member.member_id@
            &&& after.commit_identity.rejoin_on_poll == consumer.commit_identity.rejoin_on_poll
            &&& after == (Consumer { commit_identity: after.commit_identity, ..consumer })
        },
        StepModel::Publish { assignment, preserve_retained, generation } => assignment_installed(
            member,
            consumer,
            assignment,
            preserve_retained,
            generation,
            false,
            member_after,
            after,
        ),
        StepModel::KeepOnly(partitions) => {
            &&& member_after == member
            &&& after.next_offsets@ == consumer.next_offsets@.restrict(partitions)
            &&& after.positions@ == consumer.positions@.restrict(partitions)
            &&& after == (Consumer {
                next_offsets: after.next_offsets,
                positions: after.positions,
                ..consumer
            })
        },
        StepModel::Forget(partitions) => {
            &&& member_after == member
            &&& after.next_offsets@ == consumer.next_offsets@.remove_keys(partitions)
            &&& after.positions@ == consumer.positions@.remove_keys(partitions)
            &&& after == (Consumer {
                next_offsets: after.next_offsets,
                positions: after.positions,
                ..consumer
            })
        },
        StepModel::JoinAgain => {
            &&& member_after.rejoin_reason@ == "need to revoke partitions and re-join"@
            &&& member_after == (GroupMember {
                rejoin_reason: member_after.rejoin_reason,
                ..member
            })
            &&& after == consumer
        },
        StepModel::Prime(_) | StepModel::Listener { .. } => member_after == member && after
            == consumer,
    }
}

/// Keeps or drops the keys of a list in a map.
fn restrict_map<V>(map: &mut SortedMap<TopicPartition, V>, keys: &SortedSet<TopicPartition>, keep: bool)
    ensures
        final(map)@ == if keep {
            old(map)@.restrict(keys@)
        } else {
            old(map)@.remove_keys(keys@)
        },
{
    let ghost before = map@;
    let ghost set = keys@;
    let stays = |k: &TopicPartition, v: &V| -> (b: bool)
        ensures
            b == (keys@.contains(k@) == keep),
        { keys.contains(k) == keep };
    map.retain(stays, Ghost(|k: PartitionKey, v: V| set.contains(k) == keep));
    if keep {
        assert(map@ =~= before.restrict(set));
    } else {
        assert(map@ =~= before.remove_keys(set));
    }
}

impl GroupMember {
    /// Do the part of a step that changes the state of the member and the
    /// consumer.
    pub fn perform_step(&mut self, consumer: &mut Consumer, step: &RebalanceStep)
        ensures
            step_done(
                step_model(*step),
                *old(self),
                *old(consumer),
                *final(self),
                *final(consumer),
            ),
    {
        match step {
            RebalanceStep::Gate(list) => {
                if self.has_listener {
                    let partitions = key_set(list);
                    crate::membership::add_all(
                        &mut consumer.assigned_callback_pending,
                        &partitions,
                    );
                }
            },
            RebalanceStep::Ungate(list) => {
                let partitions = key_set(list);
                remove_all(&mut consumer.assigned_callback_pending, &partitions);
            },
            RebalanceStep::InstallGeneration(generation) => {
                self.install_generation(consumer, *generation);
            },
            RebalanceStep::Publish { assignment, preserve_retained, generation } => {
                self.publish_assignment(consumer, assignment, *preserve_retained, *generation);
            },
            RebalanceStep::KeepOnly(list) => {
                let partitions = key_set(list);
                restrict_map(&mut consumer.next_offsets, &partitions, true);
                restrict_map(&mut consumer.positions, &partitions, true);
            },
            RebalanceStep::Forget(list) => {
                let partitions = key_set(list);
                restrict_map(&mut consumer.next_offsets, &partitions, false);
                restrict_map(&mut consumer.positions, &partitions, false);
            },
            RebalanceStep::JoinAgain => {
                self.rejoin_reason = "need to revoke partitions and re-join".to_owned();
            },
            RebalanceStep::Prime(_) | RebalanceStep::Listener { .. } => {},
        }
    }
}

/// The partitions that are gated after `steps`.
pub open spec fn gated_after(steps: Seq<StepModel>) -> Set<PartitionKey>
    decreases steps.len(),
{
    if steps.len() == 0 {
        Set::empty()
    } else {
        let before = gated_after(steps.drop_last());
        match steps.last() {
            StepModel::Gate(partitions) => before.union(partitions),
            StepModel::Ungate(partitions) => before.difference(partitions),
            _ => before,
        }
    }
}

impl GroupMember {
    /// Open the way for `poll` after the first `done` steps of a rebalance ran
    /// and the next one failed: no partition stays gated after its rebalance.
    pub fn abandon_steps(consumer: &mut Consumer, steps: &Vec<RebalanceStep>, done: usize)
        requires
            done <= steps@.len(),
        ensures
            final(consumer).assigned_callback_pending@ == old(
                consumer,
            ).assigned_callback_pending@.difference(
                gated_after(step_models(steps@).take(done as int)),
            ),
            *final(consumer) == (Consumer {
                assigned_callback_pending: final(consumer).assigned_callback_pending,
                ..*old(consumer)
            }),
    {
        let ghost models = step_models(steps@);
        let mut gated: SortedSet<TopicPartition> = SortedSet::new();
        let mut i: usize = 0;
        while i < done
            invariant
                i <= done <= steps@.len(),
                models == step_models(steps@),
                gated@ == gated_after(models.take(i as int)),
            decreases done - i,
        {
            proof {
                assert(models.take(i + 1).drop_last() =~= models.take(i as int));
                assert(models.take(i + 1).last() == step_model(steps@[i as int]));
            }
            match &steps[i] {
                RebalanceStep::Gate(list) => {
                    let partitions = key_set(list);
                    crate::membership::add_all(&mut gated, &partitions);
                },
                RebalanceStep::Ungate(list) => {
                    let partitions = key_set(list);
                    remove_all(&mut gated, &partitions);
                },
                _ => {},
            }
            i = i + 1;
        }
        remove_all(&mut consumer.assigned_callback_pending, &gated);
    }
}

proof fn lemma_gated_append(steps: Seq<StepModel>, step: StepModel)
    ensures
        gated_after(steps.push(step)) == match step {
            StepModel::Gate(partitions) => gated_after(steps).union(partitions),
            StepModel::Ungate(partitions) => gated_after(steps).difference(partitions),
            _ => gated_after(steps),
        },
{
    assert(steps.push(step).drop_last() =~= steps);
}

proof fn lemma_gate_of_installing(
    steps: Seq<StepModel>,
    added: Multiset<PartitionKey>,
    gated: Set<PartitionKey>,
    assignment: Seq<PartitionKey>,
    preserve_retained: bool,
    generation: i32,
)
    requires
        gated_after(steps) == Set::<PartitionKey>::empty(),
    ensures
        gated_after(
            steps + installing(added, gated, assignment, preserve_retained, generation),
        ) == gated,
        gated_after(
            (steps + installing(added, gated, assignment, preserve_retained, generation)).take(
                steps.len() as int + 2,
            ),
        ) == gated,
{
    let parts = installing(added, gated, assignment, preserve_retained, generation);
    let all = steps + parts;
    lemma_gated_append(steps, parts[0]);
    lemma_gated_append(steps.push(parts[0]), parts[1]);
    lemma_gated_append(steps.push(parts[0]).push(parts[1]), parts[2]);
    assert(all =~= steps.push(parts[0]).push(parts[1]).push(parts[2]));
    assert(all.take(steps.len() as int + 2) =~= steps.push(parts[0]).push(parts[1]));
    assert(Set::<PartitionKey>::empty().union(gated) =~= gated);
}

proof fn lemma_gate_of_announcing(steps: Seq<StepModel>, partitions: Multiset<PartitionKey>)
    requires
        gated_after(steps) == partitions.dom(),
    ensures
        gated_after(steps + announcing(partitions)) == Set::<PartitionKey>::empty(),
{
    let parts = announcing(partitions);
    lemma_gated_append(steps, parts[0]);
    lemma_gated_append(steps.push(parts[0]), parts[1]);
    assert(steps + parts =~= steps.push(parts[0]).push(parts[1]));
    assert(partitions.dom().difference(partitions.dom()) =~= Set::empty());
}

/// A rebalance keeps `poll` from a partition that it adds from before the
/// partition is published until its assign callback ran, and from no partition
/// after its last step.
pub proof fn law_added_partitions_wait_for_their_callback(
    protocol: RebalanceProtocol,
    owned: Seq<PartitionKey>,
    assignment: Seq<PartitionKey>,
    generation: i32,
)
    ensures
        gated_while_added(plan(protocol, owned.to_set(), assignment, generation), owned.to_set()),
        gated_while_added(second_plan(owned, assignment, generation), owned.to_set()),
        gated_after(plan(protocol, owned.to_set(), assignment, generation)) == Set::<
            PartitionKey,
        >::empty(),
        gated_after(second_plan(owned, assignment, generation)) == Set::<PartitionKey>::empty(),
{
    if protocol == RebalanceProtocol::Eager {
        lemma_gate_of_eager(owned.to_set(), assignment, generation);
    } else {
        lemma_gate_of_first(owned.to_set(), assignment, generation);
    }
    lemma_gate_of_second(owned, assignment, generation);
}

proof fn lemma_gate_of_eager(
    owned: Set<PartitionKey>,
    assignment: Seq<PartitionKey>,
    generation: i32,
)
    ensures
        gated_while_added(
            plan(RebalanceProtocol::Eager, owned, assignment, generation),
            owned,
        ),
        gated_after(plan(RebalanceProtocol::Eager, owned, assignment, generation)) == Set::<
            PartitionKey,
        >::empty(),
{
    let new = assignment.to_set();
    let added = Multiset::from_set(new.difference(owned));
    let none = Seq::<StepModel>::empty();
    let eager = none + installing(added, new, assignment, false, generation);
    let kept = eager.push(StepModel::KeepOnly(new));
    let p = plan(RebalanceProtocol::Eager, owned, assignment, generation);
    lemma_added_first(owned, assignment);
    lemma_gate_of_installing(none, added, new, assignment, false, generation);
    lemma_gated_append(eager, StepModel::KeepOnly(new));
    lemma_gate_of_announcing(kept, assignment.to_multiset());
    assert(p =~= kept + announcing(assignment.to_multiset()));
    assert(p.take(2) =~= eager.take(2));
    assert(p.take(4) =~= kept);
}

proof fn lemma_gate_of_first(
    owned: Set<PartitionKey>,
    assignment: Seq<PartitionKey>,
    generation: i32,
)
    ensures
        gated_while_added(
            plan(RebalanceProtocol::Cooperative, owned, assignment, generation),
            owned,
        ),
        gated_after(plan(RebalanceProtocol::Cooperative, owned, assignment, generation)) == Set::<
            PartitionKey,
        >::empty(),
{
    let new = assignment.to_set();
    let added = Multiset::from_set(new.difference(owned));
    let revoked = owned.difference(new);
    let none = Seq::<StepModel>::empty();
    let p = plan(RebalanceProtocol::Cooperative, owned, assignment, generation);
    lemma_added_first(owned, assignment);
    if revoked == Set::<PartitionKey>::empty() {
        lemma_gate_of_moving(none, added, assignment, generation);
        assert(p =~= moved(none, added, assignment, generation));
    } else {
        let steps = revoking(Multiset::from_set(revoked), generation);
        lemma_gate_of_revoking(Multiset::from_set(revoked), generation);
        lemma_gate_of_moving(steps, added, assignment, generation);
        let moving = moved(steps, added, assignment, generation);
        let forgetting = moving.push(StepModel::Forget(revoked));
        lemma_gated_append(moving, StepModel::Forget(revoked));
        lemma_gated_append(forgetting, StepModel::JoinAgain);
        assert(p =~= forgetting.push(StepModel::JoinAgain));
        assert(p.take(4) =~= moving.take(4));
        assert(p.take(5) =~= moving.take(5));
    }
}

proof fn lemma_gate_of_second(
    owned: Seq<PartitionKey>,
    assignment: Seq<PartitionKey>,
    generation: i32,
)
    ensures
        gated_while_added(second_plan(owned, assignment, generation), owned.to_set()),
        gated_after(second_plan(owned, assignment, generation)) == Set::<PartitionKey>::empty(),
{
    let added = beyond(assignment, owned.to_set()).to_multiset();
    let revoked = beyond(owned, assignment.to_set());
    let none = Seq::<StepModel>::empty();
    let q = second_plan(owned, assignment, generation);
    lemma_added(owned, assignment);
    if revoked.len() == 0 {
        lemma_gate_of_moving(none, added, assignment, generation);
        assert(q =~= moved(none, added, assignment, generation));
    } else {
        let steps = revoking(revoked.to_multiset(), generation);
        lemma_gate_of_revoking(revoked.to_multiset(), generation);
        lemma_gate_of_moving(steps, added, assignment, generation);
        assert(q =~= moved(steps, added, assignment, generation));
    }
}

/// `steps`, then the installation and the announcement of added partitions.
spec fn moved(
    steps: Seq<StepModel>,
    added: Multiset<PartitionKey>,
    assignment: Seq<PartitionKey>,
    generation: i32,
) -> Seq<StepModel> {
    steps + installing(added, added.dom(), assignment, true, generation) + announcing(added)
}

proof fn lemma_gate_of_revoking(revoked: Multiset<PartitionKey>, generation: i32)
    ensures
        gated_after(revoking(revoked, generation)) == Set::<PartitionKey>::empty(),
        revoking(revoked, generation).len() == 2,
{
    let steps = revoking(revoked, generation);
    let none = Seq::<StepModel>::empty();
    lemma_gated_append(none, steps[0]);
    lemma_gated_append(none.push(steps[0]), steps[1]);
    assert(steps =~= none.push(steps[0]).push(steps[1]));
}

proof fn lemma_gate_of_moving(
    steps: Seq<StepModel>,
    added: Multiset<PartitionKey>,
    assignment: Seq<PartitionKey>,
    generation: i32,
)
    requires
        gated_after(steps) == Set::<PartitionKey>::empty(),
    ensures
        gated_after(moved(steps, added, assignment, generation)) == Set::<PartitionKey>::empty(),
        gated_after(
            moved(steps, added, assignment, generation).take(steps.len() as int + 2),
        ) == added.dom(),
        gated_after(
            moved(steps, added, assignment, generation).take(steps.len() as int + 3),
        ) == added.dom(),
{
    let moving = steps + installing(added, added.dom(), assignment, true, generation);
    lemma_gate_of_installing(steps, added, added.dom(), assignment, true, generation);
    lemma_gate_of_announcing(moving, added);
    let all = moved(steps, added, assignment, generation);
    assert(all =~= moving + announcing(added));
    assert(all.take(steps.len() as int + 2) =~= moving.take(steps.len() as int + 2));
    assert(all.take(steps.len() as int + 3) =~= moving);
}

/// Whether the partitions that a step adds to the assignment are gated before
/// it, and those of an assign callback are while it runs.
pub open spec fn gated_while_added(steps: Seq<StepModel>, owned: Set<PartitionKey>) -> bool {
    forall|i: int|
        0 <= i < steps.len() ==> match #[trigger] steps[i] {
            StepModel::Publish { assignment, .. } => assignment.to_set().difference(
                owned,
            ).subset_of(gated_after(steps.take(i))),
            StepModel::Listener { kind: ListenerCallKind::Assigned, partitions } => partitions.dom()
                == gated_after(steps.take(i)),
            _ => true,
        }
}

/// Whether every assigned partition has a next offset.
pub open spec fn all_positioned(consumer: Consumer) -> bool {
    consumer.assigned@.subset_of(consumer.next_offsets@.dom())
}

/// What a step of a rebalance may do to a consumer. Priming sets the next
/// offsets of its partitions and takes none away. While a callback runs the
/// consumer can lose its assignment, but no next offset.
pub open spec fn step_ran(
    step: StepModel,
    member: GroupMember,
    consumer: Consumer,
    member_after: GroupMember,
    after: Consumer,
) -> bool {
    match step {
        StepModel::Prime(partitions) => {
            &&& after.assigned@ == consumer.assigned@
            &&& consumer.next_offsets@.dom().union(partitions.dom()).subset_of(
                after.next_offsets@.dom(),
            )
        },
        StepModel::Listener { .. } => {
            &&& after.assigned@.subset_of(consumer.assigned@)
            &&& consumer.next_offsets@.dom().subset_of(after.next_offsets@.dom())
        },
        _ => step_done(step, member, consumer, member_after, after),
    }
}

/// Whether the states are those of a run of `steps`.
pub open spec fn steps_ran(
    steps: Seq<StepModel>,
    members: Seq<GroupMember>,
    consumers: Seq<Consumer>,
) -> bool {
    &&& members.len() == steps.len() + 1
    &&& consumers.len() == steps.len() + 1
    &&& forall|i: int|
        0 <= i < steps.len() ==> step_ran(
            #[trigger] steps[i],
            members[i],
            consumers[i],
            members[i + 1],
            consumers[i + 1],
        )
}

proof fn lemma_positioned_next(
    steps: Seq<StepModel>,
    members: Seq<GroupMember>,
    consumers: Seq<Consumer>,
    i: int,
)
    requires
        steps_ran(steps, members, consumers),
        0 <= i < steps.len(),
        all_positioned(consumers[i]),
        match steps[i] {
            StepModel::Publish { assignment, .. } => assignment.to_set().subset_of(
                consumers[i].next_offsets@.dom(),
            ),
            StepModel::KeepOnly(partitions) => consumers[i].assigned@.subset_of(partitions),
            StepModel::Forget(partitions) => consumers[i].assigned@.disjoint(partitions),
            _ => true,
        },
    ensures
        all_positioned(consumers[i + 1]),
        consumers[i + 1].assigned@ == consumers[i].assigned@ || steps[i] is Publish
            || steps[i] is Listener,
        steps[i] is Listener ==> consumers[i + 1].assigned@.subset_of(consumers[i].assigned@),
        steps[i] matches StepModel::Publish { assignment, .. } ==> consumers[i + 1].assigned@
            == assignment.to_set(),
        !(steps[i] is KeepOnly) && !(steps[i] is Forget)
            ==> consumers[i].next_offsets@.dom().subset_of(consumers[i + 1].next_offsets@.dom()),
        steps[i] matches StepModel::Prime(partitions) ==> partitions.dom().subset_of(
            consumers[i + 1].next_offsets@.dom(),
        ),
{
    assert(step_ran(steps[i], members[i], consumers[i], members[i + 1], consumers[i + 1]));
}

/// While a rebalance installs a new assignment, every assigned partition has a
/// next offset, so a `poll` at any time reads no partition from its start by
/// accident.
pub proof fn law_assigned_partitions_have_an_offset(
    protocol: RebalanceProtocol,
    assignment: Seq<PartitionKey>,
    generation: i32,
    second: bool,
    members: Seq<GroupMember>,
    consumers: Seq<Consumer>,
)
    requires
        consumers.len() > 0,
        all_positioned(consumers[0]),
        steps_ran(
            if second {
                second_plan(consumers[0].assigned.listed(), assignment, generation)
            } else {
                plan(protocol, consumers[0].assigned@, assignment, generation)
            },
            members,
            consumers,
        ),
    ensures
        forall|i: int| 0 <= i < consumers.len() ==> all_positioned(#[trigger] consumers[i]),
{
    let owned = consumers[0].assigned@;
    let new = assignment.to_set();
    let added = new.difference(owned);
    let revoked = owned.difference(new);
    lemma_added(consumers[0].assigned.listed(), assignment);
    lemma_added_first(owned, assignment);
    let steps = if second {
        second_plan(consumers[0].assigned.listed(), assignment, generation)
    } else {
        plan(protocol, owned, assignment, generation)
    };
    let revokes = revoked != Set::<PartitionKey>::empty() && (second || protocol
        != RebalanceProtocol::Eager);
    let start: int = if revokes {
        2
    } else {
        0
    };
    if revokes {
        lemma_positioned_next(steps, members, consumers, 0);
        lemma_positioned_next(steps, members, consumers, 1);
    }
    lemma_positioned_next(steps, members, consumers, start);
    lemma_positioned_next(steps, members, consumers, start + 1);
    assert(new.subset_of(consumers[start + 2].next_offsets@.dom())) by {
        assert forall|k: PartitionKey| new.contains(k) implies #[trigger]
            consumers[start + 2].next_offsets@.dom().contains(k) by {
            if owned.contains(k) {
                assert(consumers[0].next_offsets@.dom().contains(k));
            } else {
                assert(added.contains(k));
            }
        }
    }
    lemma_positioned_next(steps, members, consumers, start + 2);
    lemma_positioned_next(steps, members, consumers, start + 3);
    lemma_positioned_next(steps, members, consumers, start + 4);
    if start + 5 < steps.len() {
        lemma_positioned_next(steps, members, consumers, start + 5);
        if start + 6 < steps.len() {
            lemma_positioned_next(steps, members, consumers, start + 6);
        }
    }
}

/// Takes the items of a set out of another.
fn remove_all(from: &mut SortedSet<TopicPartition>, items: &SortedSet<TopicPartition>)
    ensures
        final(from)@ == old(from)@.difference(items@),
{
    let ghost before = from@;
    let ghost list = items.items();
    let n = items.len();
    let mut i: usize = 0;
    assert(before.difference(list.take(0).to_set()) =~= before);
    while i < n
        invariant
            n == list.len(),
            list == items.items(),
            items.items_listed(),
            i <= n,
            from@ == before.difference(list.take(i as int).to_set()),
        decreases n - i,
    {
        proof {
            lemma_take_next(list, i as int);
        }
        from.remove(items.at(i));
        assert(from@ =~= before.difference(list.take(i + 1).to_set())) by {
            assert forall|k: PartitionKey| list.take(i + 1).to_set().contains(k) <==> #[trigger]
                list.take(i as int).to_set().contains(k) || k == list[i as int] by {
                assert(list.take(i + 1).contains(k) <==> list.take(i as int).contains(k) || k
                    == list[i as int]);
            }
        }
        i = i + 1;
    }
    proof {
        assert(list.take(n as int) =~= list);
        assert(list.to_set() =~= items@);
    }
}

} // verus!
