//! Topics of the stream service, and the lists of those who receive their messages.
//!
//! A table of topics is an immutable snapshot: adding a topic makes a new table, and whoever holds
//! the old one keeps reading it. Lists of subscribers are treated in the same way.

use std::sync::Arc;
use vstd::prelude::*;

verus! {

/// A topic: its name, and what the service keeps with it.
pub struct Topic<S> {
    /// Which topic this is. A table gives every topic an id of its own.
    pub id: usize,
    pub name: String,
    pub state: S,
}

/// The topics that exist, each under a name of its own.
pub struct TopicTable<S> {
    topics: Vec<Arc<Topic<S>>>,
}

impl<S> View for TopicTable<S> {
    type V = Map<Seq<char>, Arc<Topic<S>>>;

    /// The topics by their names.
    closed spec fn view(&self) -> Map<Seq<char>, Arc<Topic<S>>> {
        Map::new(
            |name: Seq<char>| exists|i: int| self.is_at(name, i),
            |name: Seq<char>| self.topics@[choose|i: int| self.is_at(name, i)],
        )
    }
}

/// What asking for a topic comes to.
pub enum Lookup<S> {
    /// The topic existed.
    Found(Arc<Topic<S>>),
    /// The topic did not exist. It does in `table`, which takes the place of the table that was
    /// searched.
    Created { table: TopicTable<S>, topic: Arc<Topic<S>> },
}

/// The topics after one was asked for: where its name is not among them, it is added.
pub open spec fn topics_after<S>(
    topics: Map<Seq<char>, Arc<Topic<S>>>,
    topic: Topic<S>,
) -> Map<Seq<char>, Arc<Topic<S>>> {
    if topics.contains_key(topic.name@) {
        topics
    } else {
        topics.insert(topic.name@, Arc::new(topic))
    }
}

/// Every topic is found under its own name.
pub open spec fn names_agree<S>(topics: Map<Seq<char>, Arc<Topic<S>>>) -> bool {
    forall|name: Seq<char>|
        topics.contains_key(name) ==> (#[trigger] topics[name]).name@ == name
}

/// Two topics have the same id just if they have the same name.
pub open spec fn told_apart<S>(a: Topic<S>, b: Topic<S>) -> bool {
    a.id == b.id <==> a.name@ == b.name@
}

/// Topics of different names have different ids.
pub open spec fn ids_differ<S>(topics: Map<Seq<char>, Arc<Topic<S>>>) -> bool {
    forall|a: Seq<char>, b: Seq<char>|
        topics.contains_key(a) && topics.contains_key(b) && a != b ==> (#[trigger] topics[a]).id
            != (#[trigger] topics[b]).id
}

impl<S> TopicTable<S> {
    /// How many topics there are.
    pub closed spec fn size(self) -> nat {
        self.topics@.len()
    }

    spec fn is_at(self, name: Seq<char>, i: int) -> bool {
        0 <= i < self.topics@.len() && self.topics@[i].name@ == name
    }

    /// No two topics have the same name, and the id of a topic is its place.
    pub closed spec fn wf(self) -> bool {
        &&& forall|i: int, j: int|
            0 <= i < j < self.topics@.len() ==> (#[trigger] self.topics@[i]).name@ != (
            #[trigger] self.topics@[j]).name@
        &&& forall|i: int| 0 <= i < self.topics@.len() ==> (#[trigger] self.topics@[i]).id == i
    }

    /// The topic at a place is found under its name.
    proof fn lemma_at(self, i: int)
        requires
            self.wf(),
            0 <= i < self.topics@.len(),
        ensures
            self@.contains_key(self.topics@[i].name@),
            self@[self.topics@[i].name@] == self.topics@[i],
    {
        let name = self.topics@[i].name@;
        assert(self.is_at(name, i));
        let j = choose|j: int| self.is_at(name, j);
        assert(self.is_at(name, j));
    }

    /// Every topic of a table is found under its own name, and has an id of its own below the number
    /// of topics.
    pub proof fn law_topics_have_own_ids(self)
        requires
            self.wf(),
        ensures
            names_agree(self@),
            ids_differ(self@),
            forall|name: Seq<char>|
                self@.contains_key(name) ==> (#[trigger] self@[name]).id < self.size(),
    {
        assert forall|name: Seq<char>| self@.contains_key(name) implies (
        #[trigger] self@[name]).name@ == name && self@[name].id < self.size() by {
            let i = choose|i: int| self.is_at(name, i);
            assert(self.is_at(name, i));
        }
        assert forall|a: Seq<char>, b: Seq<char>|
            self@.contains_key(a) && self@.contains_key(b) && a != b implies (
        #[trigger] self@[a]).id != (#[trigger] self@[b]).id by {
            let i = choose|i: int| self.is_at(a, i);
            let j = choose|j: int| self.is_at(b, j);
            assert(self.is_at(a, i) && self.is_at(b, j));
        }
    }

    /// A table without topics.
    pub fn new() -> (table: Self)
        ensures
            table.wf(),
            table.size() == 0,
            table@ == Map::<Seq<char>, Arc<Topic<S>>>::empty(),
    {
        let table = TopicTable { topics: Vec::new() };
        assert(table@ =~= Map::<Seq<char>, Arc<Topic<S>>>::empty());
        table
    }

    /// The topic of that name, if it exists.
    pub fn find(&self, name: &str) -> (found: Option<Arc<Topic<S>>>)
        requires
            self.wf(),
        ensures
            found == if self@.contains_key(name@) {
                Some(self@[name@])
            } else {
                None::<Arc<Topic<S>>>
            },
    {
        let wanted: String = name.to_owned();
        let mut i: usize = 0;
        while i < self.topics.len()
            invariant
                self.wf(),
                wanted@ == name@,
                i <= self.topics@.len(),
                forall|j: int| 0 <= j < i ==> (#[trigger] self.topics@[j]).name@ != name@,
            decreases self.topics@.len() - i,
        {
            if self.topics[i].name == wanted {
                proof {
                    self.lemma_at(i as int);
                }
                return Some(self.topics[i].clone());
            }
            i += 1;
        }
        assert(!self@.contains_key(name@)) by {
            assert forall|i: int| !self.is_at(name@, i) by {}
        }
        None
    }
}

/// Asks for a topic: the one of that name, or a new one with the given state.
pub fn get_or_create_topic<S>(table: &TopicTable<S>, name: &str, fresh: S) -> (lookup: Lookup<S>)
    requires
        table.wf(),
    ensures
        match lookup {
            Lookup::Found(topic) => table@.contains_key(name@) && topic == table@[name@],
            Lookup::Created { table: next, topic } => {
                &&& !table@.contains_key(name@)
                &&& topic.id == table.size()
                &&& topic.name@ == name@
                &&& topic.state == fresh
                &&& next.wf()
                &&& next.size() == table.size() + 1
                &&& next@ == topics_after(table@, *topic)
                &&& next@[name@] == topic
            },
        },
{
    if let Some(topic) = table.find(name) {
        return Lookup::Found(topic);
    }
    let topic = Arc::new(Topic { id: table.topics.len(), name: name.to_owned(), state: fresh });
    let mut topics: Vec<Arc<Topic<S>>> = Vec::new();
    let mut i: usize = 0;
    while i < table.topics.len()
        invariant
            i <= table.topics@.len(),
            topics@ == table.topics@.take(i as int),
        decreases table.topics@.len() - i,
    {
        topics.push(table.topics[i].clone());
        i += 1;
        assert(topics@ =~= table.topics@.take(i as int));
    }
    assert(topics@ =~= table.topics@);
    topics.push(topic.clone());
    let next = TopicTable { topics };
    proof {
        assert forall|i: int| 0 <= i < table.topics@.len() implies (
        #[trigger] table.topics@[i]).name@ != name@ by {
            table.lemma_at(i);
        }
        assert(next.wf());
        next.lemma_at(table.topics@.len() as int);
        assert(next@ =~= topics_after(table@, *topic)) by {
            assert forall|n: Seq<char>| next@.contains_key(n) <==> #[trigger] topics_after(
                table@,
                *topic,
            ).contains_key(n) by {
                if next@.contains_key(n) {
                    let i = choose|i: int| next.is_at(n, i);
                    assert(next.is_at(n, i));
                    if i < table.topics@.len() {
                        table.lemma_at(i);
                    }
                }
                if table@.contains_key(n) {
                    let i = choose|i: int| table.is_at(n, i);
                    assert(table.is_at(n, i));
                    next.lemma_at(i);
                }
            }
            assert forall|n: Seq<char>| next@.contains_key(n) implies #[trigger] next@[n]
                == topics_after(table@, *topic)[n] by {
                if table@.contains_key(n) {
                    let i = choose|i: int| table.is_at(n, i);
                    assert(table.is_at(n, i));
                    next.lemma_at(i);
                    table.lemma_at(i);
                } else {
                    assert(topics_after(table@, *topic).contains_key(n));
                }
            }
        }
    }
    Lookup::Created { table: next, topic }
}

/// Topics stay: whatever is asked for, a topic that exists is found under its name afterwards, the
/// same one, and asking twice for a name gives the same topic both times. With a new id for each new
/// topic, ids keep telling the topics apart.
pub proof fn law_topics_stay<S>(
    topics: Map<Seq<char>, Arc<Topic<S>>>,
    topic: Topic<S>,
    again: Topic<S>,
)
    requires
        names_agree(topics),
        ids_differ(topics),
        forall|n: Seq<char>| topics.contains_key(n) ==> (#[trigger] topics[n]).id != topic.id,
        again.name@ == topic.name@,
    ensures
        names_agree(topics_after(topics, topic)),
        ids_differ(topics_after(topics, topic)),
        forall|other: Seq<char>| #[trigger]
            topics.contains_key(other) ==> topics_after(topics, topic).contains_key(other)
                && topics_after(topics, topic)[other] == topics[other],
        topics_after(topics, topic).contains_key(topic.name@),
        topics_after(topics_after(topics, topic), again) == topics_after(topics, topic),
{
}

/// The topics of a table are told apart by their ids as by their names.
pub proof fn law_ids_tell_topics_apart<S>(
    topics: Map<Seq<char>, Arc<Topic<S>>>,
    a: Seq<char>,
    b: Seq<char>,
)
    requires
        names_agree(topics),
        ids_differ(topics),
        topics.contains_key(a),
        topics.contains_key(b),
    ensures
        told_apart(*topics[a], *topics[b]),
        topics[a].id == topics[b].id ==> topics[a] == topics[b],
{
}

/// A list of subscribers with one more at its end.
pub fn with_subscriber<T: Clone>(current: &Vec<T>, new: T) -> (next: Vec<T>)
    ensures
        next@.len() == current@.len() + 1,
        forall|i: int|
            #![trigger next@[i]]
            0 <= i < current@.len() ==> cloned(current@[i], next@[i]),
        next@.last() == new,
{
    let mut next: Vec<T> = Vec::new();
    let mut i: usize = 0;
    while i < current.len()
        invariant
            i <= current@.len(),
            next@.len() == i,
            forall|j: int| #![trigger next@[j]] 0 <= j < i ==> cloned(current@[j], next@[j]),
        decreases current@.len() - i,
    {
        next.push(current[i].clone());
        i += 1;
    }
    next.push(new);
    next
}

/// The places at which a list of flags holds `false`, in order.
pub open spec fn places_unset(flags: Seq<bool>) -> Seq<int>
    decreases flags.len(),
{
    if flags.len() == 0 {
        Seq::empty()
    } else if flags.last() {
        places_unset(flags.drop_last())
    } else {
        places_unset(flags.drop_last()).push(flags.len() - 1)
    }
}

/// The places are places of the list, in rising order, and just those that hold `false`.
pub proof fn law_places_unset(flags: Seq<bool>)
    ensures
        places_unset(flags).len() <= flags.len(),
        forall|k: int|
            0 <= k < places_unset(flags).len() ==> 0 <= #[trigger] places_unset(flags)[k]
                < flags.len() && !flags[places_unset(flags)[k]],
        forall|j: int, k: int|
            0 <= j < k < places_unset(flags).len() ==> #[trigger] places_unset(flags)[j]
                < #[trigger] places_unset(flags)[k],
        forall|i: int|
            0 <= i < flags.len() && !(#[trigger] flags[i]) ==> places_unset(flags).contains(i),
    decreases flags.len(),
{
    if flags.len() > 0 {
        let earlier = places_unset(flags.drop_last());
        law_places_unset(flags.drop_last());
        assert forall|i: int| 0 <= i < flags.len() && !(#[trigger] flags[i]) implies places_unset(
            flags,
        ).contains(i) by {
            if i < flags.len() - 1 {
                assert(!flags.drop_last()[i]);
                let k = choose|k: int| 0 <= k < earlier.len() && earlier[k] == i;
                assert(places_unset(flags)[k] == i);
            } else {
                assert(places_unset(flags).last() == i);
                assert(places_unset(flags)[places_unset(flags).len() - 1] == i);
            }
        }
    }
}

/// The subscribers whose channel is open, in order, and how many were left out. `closed` says of
/// each subscriber whether its channel is closed.
pub fn live_subscribers<T: Clone>(current: &Vec<T>, closed: &Vec<bool>) -> (live: (Vec<T>, usize))
    requires
        current@.len() == closed@.len(),
    ensures
        live.0@.len() == places_unset(closed@).len(),
        forall|k: int|
            #![trigger live.0@[k]]
            0 <= k < live.0@.len() ==> cloned(current@[places_unset(closed@)[k]], live.0@[k]),
        live.1 == current@.len() - live.0@.len(),
{
    let mut next: Vec<T> = Vec::new();
    let mut i: usize = 0;
    while i < current.len()
        invariant
            current@.len() == closed@.len(),
            i <= current@.len(),
            next@.len() <= i,
            next@.len() == places_unset(closed@.take(i as int)).len(),
            forall|k: int|
                #![trigger next@[k]]
                0 <= k < next@.len() ==> cloned(
                    current@[places_unset(closed@.take(i as int))[k]],
                    next@[k],
                ),
        decreases current@.len() - i,
    {
        assert(closed@.take(i + 1).drop_last() =~= closed@.take(i as int));
        if !closed[i] {
            next.push(current[i].clone());
        }
        i += 1;
    }
    assert(closed@.take(i as int) =~= closed@);
    let removed: usize = current.len() - next.len();
    (next, removed)
}

/// How many of the subscribers that a batch was handed to did not take it. `delivered` says of each
/// whether it did.
pub fn dead_count(delivered: &Vec<bool>) -> (dead: usize)
    ensures
        dead == places_unset(delivered@).len(),
{
    let mut dead: usize = 0;
    let mut i: usize = 0;
    while i < delivered.len()
        invariant
            i <= delivered@.len(),
            dead <= i,
            dead == places_unset(delivered@.take(i as int)).len(),
        decreases delivered@.len() - i,
    {
        assert(delivered@.take(i + 1).drop_last() =~= delivered@.take(i as int));
        if !delivered[i] {
            dead += 1;
        }
        i += 1;
    }
    assert(delivered@.take(i as int) =~= delivered@);
    dead
}

/// Asking for a topic that is not there adds that topic under its name and no other; the names are
/// then the old ones and the new one.
pub proof fn law_new_topics_are_added<S>(
    topics: Map<Seq<char>, Arc<Topic<S>>>,
    topic: Topic<S>,
    name: Seq<char>,
)
    requires
        !topics.contains_key(topic.name@),
    ensures
        topics_after(topics, topic)[topic.name@] == Arc::new(topic),
        topics_after(topics, topic).contains_key(name) <==> name == topic.name@
            || topics.contains_key(name),
{
}

} // verus!
