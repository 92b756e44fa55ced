//! What a consumer subscribes to.
//!
//! The consumer changes its subscription when the application calls
//! `subscribe` or `unsubscribe`. The topics of a pattern subscription change
//! with the cluster metadata. Each change makes the next `poll` join the group
//! again.
use std::sync::Arc;
use vstd::prelude::*;

use crate::collections::{ascending, SortedSet};
use crate::metadata::{topic_name, MetadataResponse, MetadataTopic};
use crate::text::{join, joined, lemma_views_push, same_text, views};

verus! {

/// Whether a matcher can answer `answer` for a topic.
pub open spec fn matcher_answers<F: Fn(&str) -> bool>(
    matcher: F,
    topic: Seq<char>,
    answer: bool,
) -> bool {
    exists|t: &str| t@ == topic && #[trigger] matcher.ensures((t,), answer)
}

/// A matcher of topic names, whatever its type.
trait Matcher: Send + Sync {
    spec fn total(&self) -> bool;

    spec fn answers(&self, topic: Seq<char>, answer: bool) -> bool;

    fn ask(&self, topic: &str) -> (r: bool)
        requires
            self.total(),
        ensures
            self.answers(topic@, r),
    ;
}

struct FnMatcher<F: Fn(&str) -> bool + Send + Sync> {
    matcher: F,
}

impl<F: Fn(&str) -> bool + Send + Sync> Matcher for FnMatcher<F> {
    spec fn total(&self) -> bool {
        forall|t: &str| #[trigger] self.matcher.requires((t,))
    }

    spec fn answers(&self, topic: Seq<char>, answer: bool) -> bool {
        matcher_answers(self.matcher, topic, answer)
    }

    fn ask(&self, topic: &str) -> (r: bool) {
        (self.matcher)(topic)
    }
}

/// A topic pattern.
///
/// The consumer calls the matcher for each topic in the cluster metadata and
/// subscribes to the topics that match. Pass for example
/// `move |topic| regex.is_match(topic)`.
pub struct TopicPattern {
    matcher: Arc<Box<dyn Matcher>>,
}

impl TopicPattern {
    #[verifier::type_invariant]
    spec fn total(&self) -> bool {
        self.matcher.total()
    }

    /// Whether the matcher can answer `answer` for a topic.
    pub closed spec fn answers(&self, topic: Seq<char>, answer: bool) -> bool {
        self.matcher.answers(topic, answer)
    }

    /// A pattern that matches the topics for which `matcher` returns `true`.
    pub fn new<F: Fn(&str) -> bool + Send + Sync + 'static>(matcher: F) -> (r: Self)
        requires
            forall|t: &str| #[trigger] matcher.requires((t,)),
        ensures
            forall|topic: Seq<char>, answer: bool| #[trigger]
                r.answers(topic, answer) <==> matcher_answers(matcher, topic, answer),
    {
        let r = TopicPattern { matcher: Arc::new(Box::new(FnMatcher { matcher })) };
        assert forall|topic: Seq<char>, answer: bool| #[trigger]
            r.answers(topic, answer) <==> matcher_answers(matcher, topic, answer) by {}
        r
    }

    /// Whether `topic` matches: what the matcher answers for it.
    pub fn matches(&self, topic: &str) -> (r: bool)
        ensures
            self.answers(topic@, r),
    {
        proof {
            use_type_invariant(self);
        }
        self.matcher.ask(topic)
    }
}

impl Clone for TopicPattern {
    fn clone(&self) -> (r: Self)
        ensures
            r == *self,
    {
        proof {
            use_type_invariant(self);
        }
        TopicPattern { matcher: Arc::clone(&self.matcher) }
    }
}

/// What a consumer subscribes to.
pub struct Subscription {
    /// The subscribed topics, sorted. For a pattern, the topics that matched
    /// the last metadata.
    pub topics: Vec<String>,
    /// The pattern of a pattern subscription.
    pub pattern: Option<TopicPattern>,
    /// The regular expression of a subscription that the group coordinator
    /// matches, so the consumer does no matching.
    pub regex: Option<String>,
    /// A pattern does not match an internal topic.
    pub exclude_internal_topics: bool,
    /// The number of `unsubscribe` calls. The consumer leaves the group for
    /// each one, also when a new subscription came right after it.
    pub unsubscribes: u64,
    /// The number of changes of the application. The topics of a pattern are
    /// stored only while this number is the one of their metadata request.
    pub version: u64,
    /// The consumer has a manual assignment.
    pub manual_assignment: bool,
}

/// The texts of a list as a set.
pub open spec fn text_set(texts: Seq<String>) -> Set<Seq<char>> {
    views(texts).to_set()
}

/// The items of a set, in order.
pub(crate) fn set_items(set: &SortedSet<String>) -> (r: Vec<String>)
    ensures
        views(r@) == set.items(),
        ascending::<String>(views(r@)),
        text_set(r@) == set@,
{
    let n = set.len();
    let mut r: Vec<String> = Vec::new();
    let mut i: usize = 0;
    while i < n
        invariant
            n == set.items().len(),
            i <= n,
            views(r@) =~= set.items().take(i as int),
        decreases n - i,
    {
        let item = set.at(i).clone();
        proof {
            lemma_views_push(r@, item);
        }
        r.push(item);
        i = i + 1;
    }
    proof {
        assert(set.items().take(n as int) =~= set.items());
        assert(text_set(r@) =~= set@);
    }
    r
}

/// The distinct texts of a list, in order.
pub fn sorted(topics: Vec<String>) -> (r: Vec<String>)
    ensures
        ascending::<String>(views(r@)),
        text_set(r@) == text_set(topics@),
{
    let ghost all = topics@;
    let set: SortedSet<String> = SortedSet::from_items(topics);
    proof {
        assert forall|t: Seq<char>| text_set(all).contains(t) <==> #[trigger] set@.contains(t) by {
            if set@.contains(t) {
                let i = choose|i: int| 0 <= i < all.len() && (#[trigger] all[i])@ == t;
                assert(views(all)[i] == t);
            }
            if text_set(all).contains(t) {
                let i = choose|i: int| 0 <= i < views(all).len() && views(all)[i] == t;
                assert(all[i]@ == t);
            }
        }
        assert(set@ =~= text_set(all));
    }
    set_items(&set)
}

/// Whether two lists hold the same texts in the same order.
pub fn same_texts(a: &Vec<String>, b: &Vec<String>) -> (r: bool)
    ensures
        r == (views(a@) == views(b@)),
{
    if a.len() != b.len() {
        assert(views(a@).len() != views(b@).len());
        return false;
    }
    let mut i: usize = 0;
    while i < a.len()
        invariant
            i <= a.len(),
            a.len() == b.len(),
            forall|j: int| 0 <= j < i ==> views(a@)[j] == views(b@)[j],
        decreases a.len() - i,
    {
        if !same_text(a[i].as_str(), b[i].as_str()) {
            assert(views(a@)[i as int] != views(b@)[i as int]);
            return false;
        }
        i = i + 1;
    }
    assert(views(a@) =~= views(b@));
    true
}

/// A second list with the same texts.
pub fn copy_texts(a: &Vec<String>) -> (r: Vec<String>)
    ensures
        views(r@) == views(a@),
{
    let mut r: Vec<String> = Vec::new();
    let mut i: usize = 0;
    while i < a.len()
        invariant
            i <= a.len(),
            views(r@) =~= views(a@).take(i as int),
        decreases a.len() - i,
    {
        let item = a[i].clone();
        proof {
            lemma_views_push(r@, item);
        }
        r.push(item);
        i = i + 1;
    }
    assert(views(a@).take(i as int) =~= views(a@));
    r
}

/// Whether a pattern is asked about a topic of the metadata.
pub open spec fn offered(topic: MetadataTopic, exclude_internal: bool) -> bool {
    !(exclude_internal && topic.is_internal) && topic.name is Some
}

impl Subscription {
    /// Whether the consumer subscribes to nothing.
    pub open spec fn none(self) -> bool {
        self.topics@.len() == 0 && self.pattern is None && self.regex is None
    }

    /// A subscription to `topics`.
    pub fn topics(topics: Vec<String>, exclude_internal: bool) -> (r: Self)
        ensures
            ascending::<String>(views(r.topics@)),
            text_set(r.topics@) == text_set(topics@),
            r.pattern is None,
            r.regex is None,
            r.exclude_internal_topics == exclude_internal,
            r.unsubscribes == 0,
            r.version == 0,
            !r.manual_assignment,
    {
        Subscription {
            topics: sorted(topics),
            pattern: None,
            regex: None,
            exclude_internal_topics: exclude_internal,
            unsubscribes: 0,
            version: 0,
            manual_assignment: false,
        }
    }

    /// Whether the consumer subscribes to nothing.
    pub fn is_none(&self) -> (r: bool)
        ensures
            r == self.none(),
    {
        self.topics.is_empty() && self.pattern.is_none() && self.regex.is_none()
    }

    /// Whether `topic` is subscribed.
    pub fn contains(&self, topic: &str) -> (r: bool)
        ensures
            r == text_set(self.topics@).contains(topic@),
    {
        let mut i: usize = 0;
        while i < self.topics.len()
            invariant
                i <= self.topics.len(),
                forall|j: int| 0 <= j < i ==> views(self.topics@)[j] != topic@,
            decreases self.topics.len() - i,
        {
            if same_text(self.topics[i].as_str(), topic) {
                assert(views(self.topics@)[i as int] == topic@);
                return true;
            }
            i = i + 1;
        }
        false
    }

    /// Store the topics of an assignment of a regular expression subscription.
    /// Return whether they changed.
    ///
    /// The group coordinator matches the regular expression, so the topics of
    /// the subscription come from the assignment.
    pub fn store_assigned_topics(&mut self, assigned: &Vec<String>) -> (r: bool)
        ensures
            old(self).regex is None ==> !r && *final(self) == *old(self),
            old(self).regex is Some ==> {
                &&& final(self).regex == old(self).regex
                &&& ascending::<String>(views(old(self).topics@)) ==> (r == (text_set(
                    old(self).topics@,
                ) != text_set(assigned@)))
                &&& r ==> ascending::<String>(views(final(self).topics@))
                &&& r ==> text_set(final(self).topics@) == text_set(assigned@)
                &&& !r ==> *final(self) == *old(self) && text_set(final(self).topics@) == text_set(
                    assigned@,
                )
            },
            *final(self) == (Subscription { topics: final(self).topics, ..*old(self) }),
    {
        if self.regex.is_none() {
            return false;
        }
        let topics = sorted(copy_texts(assigned));
        if same_texts(&self.topics, &topics) {
            return false;
        }
        proof {
            if ascending::<String>(views(self.topics@)) && text_set(self.topics@) == text_set(
                topics@,
            ) {
                lemma_ascending_unique(views(self.topics@), views(topics@));
            }
        }
        self.topics = topics;
        true
    }

    /// Store `matched` as the topics of the pattern of `version`. Return
    /// whether the topics changed. A newer change of the application keeps its
    /// subscription.
    pub fn store_pattern_topics(&mut self, version: u64, matched: &Vec<String>) -> (r: bool)
        ensures
            r == (old(self).version == version && old(self).pattern is Some && views(
                old(self).topics@,
            ) != views(matched@)),
            r ==> views(final(self).topics@) == views(matched@),
            !r ==> *final(self) == *old(self),
            *final(self) == (Subscription { topics: final(self).topics, ..*old(self) }),
    {
        if self.version != version || self.pattern.is_none() || same_texts(&self.topics, matched) {
            return false;
        }
        self.topics = copy_texts(matched);
        true
    }

    /// The topics of `metadata` that the pattern matches, sorted. An internal
    /// topic matches only where the subscription does not leave them out.
    pub fn matching_topics(&self, metadata: &MetadataResponse) -> (r: Option<Vec<String>>)
        ensures
            r is Some <==> self.pattern is Some,
            r matches Some(names) ==> {
                &&& ascending::<String>(views(names@))
                &&& forall|t: Seq<char>| #[trigger]
                    text_set(names@).contains(t) ==> self.pattern->Some_0.answers(t, true)
                        && exists|i: int|
                        0 <= i < metadata.topics@.len() && offered(
                            #[trigger] metadata.topics@[i],
                            self.exclude_internal_topics,
                        ) && topic_name(metadata.topics@[i]) == Some(t)
                &&& forall|i: int|
                    0 <= i < metadata.topics@.len() && offered(
                        #[trigger] metadata.topics@[i],
                        self.exclude_internal_topics,
                    ) && !text_set(names@).contains(metadata.topics@[i].name->Some_0@)
                        ==> self.pattern->Some_0.answers(metadata.topics@[i].name->Some_0@, false)
            },
    {
        let pattern = match &self.pattern {
            Some(pattern) => pattern,
            None => {
                return None;
            },
        };
        let mut found: SortedSet<String> = SortedSet::new();
        let mut i: usize = 0;
        while i < metadata.topics.len()
            invariant
                i <= metadata.topics@.len(),
                Some(*pattern) == self.pattern,
                forall|t: Seq<char>| #[trigger]
                    found@.contains(t) ==> pattern.answers(t, true) && exists|j: int|
                        0 <= j < i && offered(
                            #[trigger] metadata.topics@[j],
                            self.exclude_internal_topics,
                        ) && topic_name(metadata.topics@[j]) == Some(t),
                forall|j: int|
                    0 <= j < i && offered(
                        #[trigger] metadata.topics@[j],
                        self.exclude_internal_topics,
                    ) && !found@.contains(metadata.topics@[j].name->Some_0@) ==> pattern.answers(
                        metadata.topics@[j].name->Some_0@,
                        false,
                    ),
            decreases metadata.topics.len() - i,
        {
            let topic = &metadata.topics[i];
            let ghost had = found@;
            let skip = self.exclude_internal_topics && topic.is_internal;
            if !skip {
                if let Some(name) = &topic.name {
                    if pattern.matches(name.as_str()) {
                        found.insert(name.clone());
                    }
                }
            }
            proof {
                assert forall|t: Seq<char>| #[trigger] found@.contains(t) implies pattern.answers(
                    t,
                    true,
                ) && exists|j: int|
                    0 <= j < i + 1 && offered(
                        #[trigger] metadata.topics@[j],
                        self.exclude_internal_topics,
                    ) && topic_name(metadata.topics@[j]) == Some(t) by {
                    if had.contains(t) {
                        let j = choose|j: int|
                            0 <= j < i && offered(
                                #[trigger] metadata.topics@[j],
                                self.exclude_internal_topics,
                            ) && topic_name(metadata.topics@[j]) == Some(t);
                        assert(offered(metadata.topics@[j], self.exclude_internal_topics));
                    } else {
                        assert(offered(metadata.topics@[i as int], self.exclude_internal_topics));
                    }
                }
            }
            i = i + 1;
        }
        Some(set_items(&found))
    }
}

/// Two ascending sequences of the same texts are equal.
pub proof fn lemma_ascending_unique(a: Seq<Seq<char>>, b: Seq<Seq<char>>)
    requires
        ascending::<String>(a),
        ascending::<String>(b),
        a.to_set() == b.to_set(),
    ensures
        a == b,
    decreases a.len(),
{
    crate::collections::lemma_ascending_distinct::<String>(a);
    crate::collections::lemma_ascending_distinct::<String>(b);
    a.unique_seq_to_set();
    b.unique_seq_to_set();
    assert(a.len() == b.len());
    if a.len() > 0 {
        let x = a.last();
        let y = b.last();
        assert(a[a.len() - 1] == x && b[b.len() - 1] == y);
        assert(a.to_set().contains(x) && b.to_set().contains(y));
        assert(b.to_set().contains(x) && a.to_set().contains(y));
        let i = choose|i: int| 0 <= i < b.len() && b[i] == x;
        let j = choose|j: int| 0 <= j < a.len() && a[j] == y;
        if x != y {
            assert(i < b.len() - 1);
            assert(j < a.len() - 1);
            assert(crate::text::text_before(b[i], b[b.len() - 1])) by {
                assert(<String as crate::collections::MapKey>::before(b[i], b[b.len() - 1]));
            }
            assert(crate::text::text_before(a[j], a[a.len() - 1])) by {
                assert(<String as crate::collections::MapKey>::before(a[j], a[a.len() - 1]));
            }
            crate::text::lemma_text_before_transitive(x, y, x);
            crate::text::lemma_text_before_irreflexive(x);
        }
        let fa = a.drop_last();
        let fb = b.drop_last();
        assert(fa.to_set() =~= a.to_set().remove(x)) by {
            lemma_front_set(a);
        }
        assert(fb.to_set() =~= b.to_set().remove(y)) by {
            lemma_front_set(b);
        }
        assert(ascending::<String>(fa)) by {
            assert forall|p: int, q: int| 0 <= p < q < fa.len() implies <String as
                crate::collections::MapKey>::before(#[trigger] fa[p], #[trigger] fa[q]) by {
                assert(<String as crate::collections::MapKey>::before(a[p], a[q]));
            }
        }
        assert(ascending::<String>(fb)) by {
            assert forall|p: int, q: int| 0 <= p < q < fb.len() implies <String as
                crate::collections::MapKey>::before(#[trigger] fb[p], #[trigger] fb[q]) by {
                assert(<String as crate::collections::MapKey>::before(b[p], b[q]));
            }
        }
        lemma_ascending_unique(fa, fb);
        assert(a =~= fa.push(x));
        assert(b =~= fb.push(y));
    } else {
        assert(a =~= b);
    }
}

proof fn lemma_front_set(a: Seq<Seq<char>>)
    requires
        a.len() > 0,
        a.no_duplicates(),
    ensures
        forall|t: Seq<char>| #[trigger]
            a.drop_last().to_set().contains(t) <==> a.to_set().contains(t) && t != a.last(),
{
    let front = a.drop_last();
    assert forall|t: Seq<char>| #[trigger] front.to_set().contains(t) <==> a.to_set().contains(t)
        && t != a.last() by {
        if front.contains(t) {
            let i = choose|i: int| 0 <= i < front.len() && front[i] == t;
            assert(a[i] == t);
            assert(a[i] != a[a.len() - 1]);
        }
        if a.contains(t) && t != a.last() {
            let i = choose|i: int| 0 <= i < a.len() && a[i] == t;
            assert(front[i] == t);
        }
    }
}

/// The reason of a rejoin after the subscription changed.
pub fn subscription_changed_reason(joined_topics: &Vec<String>, now: &Vec<String>) -> (r: String)
    ensures
        r@ == "the subscription has changed from ["@ + joined(views(joined_topics@), ", "@)
            + "] to ["@ + joined(views(now@), ", "@) + "] since the last group join"@,
{
    let mut r = "the subscription has changed from [".to_owned();
    r.append(join(joined_topics, ", ").as_str());
    r.append("] to [");
    r.append(join(now, ", ").as_str());
    r.append("] since the last group join");
    r
}

} // verus!
