//! Lists by key, and lists by broker and topic.
use vstd::prelude::*;

use crate::collections::{MapKey, SortedMap};

verus! {

/// The list of a key, empty where the map has none.
pub open spec fn listed<K, X>(m: Map<K, Vec<X>>, k: K) -> Seq<X> {
    if m.contains_key(k) {
        m[k]@
    } else {
        seq![]
    }
}

/// Whether every list of the map has an item.
pub open spec fn no_empty_list<K, X>(m: Map<K, Vec<X>>) -> bool {
    forall|k: K| #[trigger] m.contains_key(k) ==> m[k]@.len() > 0
}

/// Adds an item to the list of a key.
pub fn push_at<K: MapKey, X>(m: &mut SortedMap<K, Vec<X>>, key: K, item: X)
    requires
        no_empty_list(old(m)@),
    ensures
        final(m)@.dom() == old(m)@.dom().insert(key@),
        forall|k: K::V| #[trigger]
            listed(final(m)@, k) == if k == key@ {
                listed(old(m)@, k).push(item)
            } else {
                listed(old(m)@, k)
            },
        no_empty_list(final(m)@),
{
    let ghost before = m@;
    let mut list = match m.remove(&key) {
        Some(list) => list,
        None => Vec::new(),
    };
    list.push(item);
    m.insert(key, list);
    proof {
        assert(m@.dom() =~= before.dom().insert(key@));
        assert forall|k: K::V| #[trigger] m@.contains_key(k) implies m@[k]@.len() > 0 by {
            if k != key@ {
                assert(before.contains_key(k));
            }
        }
    }
}

/// Lists by broker and topic.
pub type ByBroker<X> = SortedMap<i32, SortedMap<String, Vec<X>>>;

/// The list of a broker and a topic, empty where there is none.
pub open spec fn listed_for<X>(
    m: Map<i32, SortedMap<String, Vec<X>>>,
    broker: i32,
    topic: Seq<char>,
) -> Seq<X> {
    if m.contains_key(broker) {
        listed(m[broker]@, topic)
    } else {
        seq![]
    }
}

/// Whether every broker has a topic, and every topic an item.
pub open spec fn no_empty_broker<X>(m: Map<i32, SortedMap<String, Vec<X>>>) -> bool {
    forall|b: i32| #[trigger]
        m.contains_key(b) ==> no_empty_list(m[b]@) && exists|t: Seq<char>| #[trigger]
            m[b]@.contains_key(t)
}

/// Adds an item to the list of a broker and a topic.
pub fn push_for<X>(m: &mut ByBroker<X>, broker: i32, topic: &String, item: X)
    requires
        no_empty_broker(old(m)@),
    ensures
        final(m)@.dom() == old(m)@.dom().insert(broker),
        forall|b: i32, t: Seq<char>| #[trigger]
            listed_for(final(m)@, b, t) == if b == broker && t == topic@ {
                listed_for(old(m)@, b, t).push(item)
            } else {
                listed_for(old(m)@, b, t)
            },
        no_empty_broker(final(m)@),
{
    let ghost before = m@;
    let mut topics = match m.remove(&broker) {
        Some(topics) => topics,
        None => SortedMap::new(),
    };
    let ghost had = topics@;
    push_at(&mut topics, topic.clone(), item);
    m.insert(broker, topics);
    proof {
        assert(m@.dom() =~= before.dom().insert(broker));
        assert forall|b: i32| #[trigger] m@.contains_key(b) implies no_empty_list(m@[b]@)
            && exists|t: Seq<char>| #[trigger] m@[b]@.contains_key(t) by {
            if b != broker {
                assert(before.contains_key(b));
            } else {
                assert(m@[b]@.contains_key(topic@));
            }
        }
        assert forall|b: i32, t: Seq<char>| #[trigger]
            listed_for(m@, b, t) == if b == broker && t == topic@ {
                listed_for(before, b, t).push(item)
            } else {
                listed_for(before, b, t)
            } by {
            if b == broker {
                assert(listed(topics@, t) == if t == topic@ {
                    listed(had, t).push(item)
                } else {
                    listed(had, t)
                });
                if !before.contains_key(b) {
                    assert(listed(had, t) =~= seq![]);
                }
            }
        }
    }
}

} // verus!
