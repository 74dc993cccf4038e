//! What the stream service does with a connection: how its first frame is taken, how published
//! messages are collected into batches and grouped by topic, and when a subscriber is written to.

use crate::buffers;
use crate::frame;
use crate::frame::{
    next_frame, parse_publish, parse_subscribe, FrameView, Message, NextFrame, MSG_PUBLISH,
    MSG_SUBSCRIBE,
};
use crate::topics;
use crate::topics::Topic;
use bytes::{Bytes, BytesMut};
use std::sync::Arc;
use vstd::prelude::*;
use vstd::utf8;

verus! {

/// How many batches wait at most for one subscriber.
pub const SUBSCRIBER_CHANNEL_CAPACITY: usize = 4096;

/// Bytes set aside for reading from a connection.
pub const READ_BUF_SIZE: usize = 65536;

/// How many messages make a full batch.
pub const BATCH_SIZE: usize = 512;

/// How many topics a producer's connection remembers.
pub const CACHE_SIZE: usize = 4;

/// The byte that tells a subscriber that it is registered.
pub const SUBSCRIBE_ACK: u8 = 0x00;

/// What a connection is for, by its first frame.
pub enum Role {
    /// It publishes; the first frame carries its first message.
    Publisher,
    /// It receives the messages of a topic.
    Subscriber(String),
    /// It asked for a topic in a frame too short to hold the name.
    Malformed,
    /// The type of its first frame is none that opens a connection.
    Unknown(u8),
}

/// Tells what a connection is for.
pub fn role_of(msg_type: u8, body: &[u8]) -> (role: Role)
    ensures
        match role {
            Role::Publisher => msg_type == MSG_PUBLISH,
            Role::Subscriber(topic) => {
                &&& msg_type == MSG_SUBSCRIBE
                &&& frame::has_topic(body@)
                &&& topic@ == buffers::lossy_text(frame::topic_of(body@))
                &&& frame::text_agrees(body@)
            },
            Role::Malformed => msg_type == MSG_SUBSCRIBE && !frame::has_topic(body@),
            Role::Unknown(t) => t == msg_type && msg_type != MSG_PUBLISH && msg_type
                != MSG_SUBSCRIBE,
        },
{
    if msg_type == MSG_PUBLISH {
        Role::Publisher
    } else if msg_type == MSG_SUBSCRIBE {
        match parse_subscribe(body) {
            Some(topic) => Role::Subscriber(topic),
            None => Role::Malformed,
        }
    } else {
        Role::Unknown(msg_type)
    }
}

/// A message and the topic that it was published to.
pub struct Publication<S> {
    pub topic: Arc<Topic<S>>,
    pub message: Message,
}

/// What a [`Publication`] holds.
#[verifier::ext_equal]
pub struct PublicationView<S> {
    pub topic: Arc<Topic<S>>,
    pub payload: Seq<u8>,
}

impl<S> View for Publication<S> {
    type V = PublicationView<S>;

    open spec fn view(&self) -> PublicationView<S> {
        PublicationView { topic: self.topic, payload: self.message@ }
    }
}

/// The messages of a batch that belong to one topic.
pub struct Group<S> {
    pub topic: Arc<Topic<S>>,
    pub messages: Vec<Message>,
}

/// What a [`Group`] holds.
#[verifier::ext_equal]
pub struct GroupView<S> {
    pub topic: Arc<Topic<S>>,
    pub payloads: Seq<Seq<u8>>,
}

impl<S> View for Group<S> {
    type V = GroupView<S>;

    open spec fn view(&self) -> GroupView<S> {
        GroupView { topic: self.topic, payloads: frame::payloads(self.messages@) }
    }
}

/// The views of some publications, in their order.
pub open spec fn publications<S>(batch: Seq<Publication<S>>) -> Seq<PublicationView<S>> {
    batch.map_values(|p: Publication<S>| p@)
}

/// The views of some groups, in their order.
pub open spec fn groups_view<S>(groups: Seq<Group<S>>) -> Seq<GroupView<S>> {
    groups.map_values(|g: Group<S>| g@)
}

/// The payloads of a batch that belong to a topic, in order.
pub open spec fn payloads_of<S>(batch: Seq<PublicationView<S>>, id: usize) -> Seq<Seq<u8>>
    decreases batch.len(),
{
    if batch.len() == 0 {
        Seq::empty()
    } else {
        let earlier = payloads_of(batch.drop_last(), id);
        if batch.last().topic.id == id {
            earlier.push(batch.last().payload)
        } else {
            earlier
        }
    }
}

/// The topics of a batch, each once, in the order in which they first occur.
pub open spec fn topics_of<S>(batch: Seq<PublicationView<S>>) -> Seq<Arc<Topic<S>>>
    decreases batch.len(),
{
    if batch.len() == 0 {
        Seq::empty()
    } else {
        let earlier = topics_of(batch.drop_last());
        if has_id(earlier, batch.last().topic.id) {
            earlier
        } else {
            earlier.push(batch.last().topic)
        }
    }
}

/// Whether one of the topics has that id.
pub open spec fn has_id<S>(topics: Seq<Arc<Topic<S>>>, id: usize) -> bool {
    exists|i: int| 0 <= i < topics.len() && (#[trigger] topics[i]).id == id
}

/// A batch by topics: a group for each topic, with the payloads that belong to it.
pub open spec fn grouped<S>(batch: Seq<PublicationView<S>>) -> Seq<GroupView<S>> {
    topics_of(batch).map_values(
        |t: Arc<Topic<S>>| GroupView { topic: t, payloads: payloads_of(batch, t.id) },
    )
}

/// The topics of a batch have different ids, and a topic has payloads in the batch just if it is
/// one of them.
proof fn lemma_topics_of<S>(batch: Seq<PublicationView<S>>)
    ensures
        forall|i: int, j: int|
            0 <= i < j < topics_of(batch).len() ==> (#[trigger] topics_of(batch)[i]).id != (
            #[trigger] topics_of(batch)[j]).id,
        forall|id: usize|
            has_id(topics_of(batch), id) <==> #[trigger] payloads_of(batch, id).len() > 0,
    decreases batch.len(),
{
    if batch.len() > 0 {
        let earlier = topics_of(batch.drop_last());
        let topics = topics_of(batch);
        lemma_topics_of(batch.drop_last());
        assert forall|id: usize|
            has_id(topics, id) <==> #[trigger] payloads_of(batch, id).len() > 0 by {
            if has_id(earlier, id) {
                let i = choose|i: int|
                    0 <= i < earlier.len() && (#[trigger] earlier[i]).id == id;
                assert(topics[i].id == id);
            }
            if batch.last().topic.id == id && !has_id(earlier, id) {
                assert(topics[topics.len() - 1].id == id);
            }
            if has_id(topics, id) && !has_id(earlier, id) {
                let i = choose|i: int| 0 <= i < topics.len() && (#[trigger] topics[i]).id == id;
                if i < earlier.len() {
                    assert(earlier[i].id == id);
                }
            }
            assert(has_id(earlier, id) <==> payloads_of(batch.drop_last(), id).len() > 0);
        }
    }
}

/// The place of the group of the topic with that id.
fn find_group<S>(groups: &Vec<Group<S>>, id: usize) -> (place: Option<usize>)
    ensures
        match place {
            Some(g) => g < groups@.len() && groups@[g as int].topic.id == id,
            None => forall|g: int|
                0 <= g < groups@.len() ==> (#[trigger] groups@[g]).topic.id != id,
        },
{
    if groups.len() > 0 && groups[groups.len() - 1].topic.id == id {
        return Some(groups.len() - 1);
    }
    let mut g: usize = 0;
    while g < groups.len()
        invariant
            g <= groups@.len(),
            forall|j: int| 0 <= j < g ==> (#[trigger] groups@[j]).topic.id != id,
        decreases groups@.len() - g,
    {
        if groups[g].topic.id == id {
            return Some(g);
        }
        g += 1;
    }
    None
}

/// Groups a batch by topics. Topics are told apart by their ids, so that two topics of one name are
/// two groups; see [`law_groups_hold_their_topics`].
pub fn group_batch<S>(batch: &Vec<Publication<S>>) -> (groups: Vec<Group<S>>)
    ensures
        groups_view(groups@) == grouped(publications(batch@)),
{
    let mut groups: Vec<Group<S>> = Vec::new();
    let ghost all = publications(batch@);
    let mut i: usize = 0;
    assert(groups_view(groups@) =~= grouped(all.take(0)));
    while i < batch.len()
        invariant
            all == publications(batch@),
            i <= batch@.len(),
            groups_view(groups@) == grouped(all.take(i as int)),
        decreases batch@.len() - i,
    {
        let ghost before = groups@;
        let ghost done = all.take(i as int);
        let ghost next = all.take(i + 1);
        let ghost topics = topics_of(done);
        proof {
            assert(next.drop_last() =~= done);
            assert(next.last() == batch@[i as int]@);
            lemma_topics_of(done);
            assert(groups_view(before).len() == topics.len());
            assert forall|g: int| 0 <= g < before.len() implies (#[trigger] before[g])@ == (
            GroupView { topic: topics[g], payloads: payloads_of(done, topics[g].id) }) by {
                assert(groups_view(before)[g] == before[g]@);
                assert(grouped(done)[g] == groups_view(before)[g]);
            }
        }
        let topic = batch[i].topic.clone();
        let message = Message { payload: batch[i].message.payload.clone() };
        let ghost payload = message@;
        match find_group(&groups, topic.id) {
            Some(g) => {
                let group = &mut groups[g];
                group.messages.push(message);
                proof {
                    assert(topics[g as int].id == topic.id);
                    assert(has_id(topics, topic.id));
                    assert(topics_of(next) == topics);
                    assert forall|j: int| 0 <= j < groups@.len() implies (#[trigger] groups@[j])@
                        == (GroupView {
                        topic: topics[j],
                        payloads: payloads_of(next, topics[j].id),
                    }) by {
                        if j == g {
                            assert(groups@[j]@.payloads =~= before[j]@.payloads.push(payload));
                        } else {
                            assert(groups@[j] == before[j]);
                            assert(topics[j].id != topics[g as int].id);
                        }
                    }
                    assert(groups_view(groups@) =~= grouped(next));
                }
            },
            None => {
                let mut messages: Vec<Message> = Vec::new();
                messages.push(message);
                groups.push(Group { topic: topic.clone(), messages });
                proof {
                    assert(!has_id(topics, topic.id)) by {
                        if has_id(topics, topic.id) {
                            let j = choose|j: int|
                                0 <= j < topics.len() && (#[trigger] topics[j]).id
                                    == topic.id;
                            assert(before[j]@.topic == topics[j]);
                        }
                    }
                    assert(payloads_of(done, topic.id).len() == 0);
                    let last = groups@[before.len() as int]@;
                    assert(last.payloads =~= payloads_of(next, topic.id));
                    assert forall|j: int| 0 <= j < before.len() implies (#[trigger] groups@[j])@
                        == (GroupView {
                        topic: topics[j],
                        payloads: payloads_of(next, topics[j].id),
                    }) by {
                        assert(groups@[j] == before[j]);
                        assert(before[j]@.topic == topics[j]);
                        assert(topics[j].id != topic.id);
                    }
                    assert(groups_view(groups@) =~= grouped(next));
                }
            },
        }
        i += 1;
    }
    assert(all.take(i as int) =~= all);
    groups
}

/// The payloads that some groups hand to a topic, in order.
pub open spec fn handed_to<S>(groups: Seq<GroupView<S>>, id: usize) -> Seq<Seq<u8>>
    decreases groups.len(),
{
    if groups.len() == 0 {
        Seq::empty()
    } else {
        let earlier = handed_to(groups.drop_last(), id);
        if groups.last().topic.id == id {
            earlier + groups.last().payloads
        } else {
            earlier
        }
    }
}

/// Groups of which none has that id hand nothing to it.
proof fn lemma_nothing_handed<S>(groups: Seq<GroupView<S>>, id: usize)
    requires
        forall|g: int| 0 <= g < groups.len() ==> (#[trigger] groups[g]).topic.id != id,
    ensures
        handed_to(groups, id) == Seq::<Seq<u8>>::empty(),
    decreases groups.len(),
{
    if groups.len() > 0 {
        lemma_nothing_handed(groups.drop_last(), id);
    }
}

/// Groups of which only one has that id hand its payloads to it.
proof fn lemma_one_handed<S>(groups: Seq<GroupView<S>>, g: int)
    requires
        0 <= g < groups.len(),
        forall|j: int|
            0 <= j < groups.len() && j != g ==> (#[trigger] groups[j]).topic.id
                != groups[g].topic.id,
    ensures
        handed_to(groups, groups[g].topic.id) == groups[g].payloads,
    decreases groups.len(),
{
    let id = groups[g].topic.id;
    if g == groups.len() - 1 {
        lemma_nothing_handed(groups.drop_last(), id);
        assert(Seq::<Seq<u8>>::empty() + groups[g].payloads =~= groups[g].payloads);
    } else {
        lemma_one_handed(groups.drop_last(), g);
    }
}

/// Grouping loses nothing and reorders nothing within a topic: every topic is handed the payloads
/// that the batch has for it, in their order. No topic has two groups, and no group is empty.
pub proof fn law_grouping_keeps_every_message<S>(batch: Seq<PublicationView<S>>, id: usize)
    ensures
        handed_to(grouped(batch), id) == payloads_of(batch, id),
        forall|i: int, j: int|
            0 <= i < j < grouped(batch).len() ==> (#[trigger] grouped(batch)[i]).topic.id != (
            #[trigger] grouped(batch)[j]).topic.id,
        forall|i: int|
            0 <= i < grouped(batch).len() ==> (#[trigger] grouped(batch)[i]).payloads.len() > 0,
{
    let topics = topics_of(batch);
    let groups = grouped(batch);
    lemma_topics_of(batch);
    assert forall|i: int| 0 <= i < groups.len() implies (#[trigger] groups[i]).payloads.len()
        > 0 by {
        assert(topics[i].id == groups[i].topic.id);
        assert(has_id(topics, topics[i].id));
    }
    assert forall|i: int, j: int| 0 <= i < j < groups.len() implies (
    #[trigger] groups[i]).topic.id != (#[trigger] groups[j]).topic.id by {
        assert(topics[i].id != topics[j].id);
    }
    if has_id(topics, id) {
        let g = choose|g: int| 0 <= g < topics.len() && (#[trigger] topics[g]).id == id;
        assert(groups[g].topic.id == id);
        lemma_one_handed(groups, g);
    } else {
        assert forall|g: int| 0 <= g < groups.len() implies (#[trigger] groups[g]).topic.id
            != id by {
            assert(topics[g].id == groups[g].topic.id);
        }
        lemma_nothing_handed(groups, id);
        assert(payloads_of(batch, id) =~= Seq::<Seq<u8>>::empty());
    }
}

/// The payloads of a batch that are published to a topic, in order.
pub open spec fn payloads_to<S>(
    batch: Seq<PublicationView<S>>,
    topic: Arc<Topic<S>>,
) -> Seq<Seq<u8>>
    decreases batch.len(),
{
    if batch.len() == 0 {
        Seq::empty()
    } else {
        let earlier = payloads_to(batch.drop_last(), topic);
        if batch.last().topic == topic {
            earlier.push(batch.last().payload)
        } else {
            earlier
        }
    }
}

/// Every topic of a batch is that of one of its publications.
proof fn lemma_topics_occur<S>(batch: Seq<PublicationView<S>>, g: int) -> (i: int)
    requires
        0 <= g < topics_of(batch).len(),
    ensures
        0 <= i < batch.len(),
        batch[i].topic == topics_of(batch)[g],
    decreases batch.len(),
{
    let earlier = topics_of(batch.drop_last());
    if g < earlier.len() {
        let i = lemma_topics_occur(batch.drop_last(), g);
        assert(batch.drop_last()[i] == batch[i]);
        i
    } else {
        batch.len() - 1
    }
}

/// Where an id stands for one topic, the payloads of the id are those of the topic.
proof fn lemma_payloads_to<S>(batch: Seq<PublicationView<S>>, topic: Arc<Topic<S>>)
    requires
        forall|i: int|
            0 <= i < batch.len() && (#[trigger] batch[i]).topic.id == topic.id ==> batch[i].topic
                == topic,
    ensures
        payloads_of(batch, topic.id) == payloads_to(batch, topic),
    decreases batch.len(),
{
    if batch.len() > 0 {
        let earlier = batch.drop_last();
        assert forall|i: int|
            0 <= i < earlier.len() && (#[trigger] earlier[i]).topic.id
                == topic.id implies earlier[i].topic == topic by {
            assert(earlier[i] == batch[i]);
        }
        lemma_payloads_to(earlier, topic);
        assert(batch.last() == batch[batch.len() - 1]);
    }
}

/// Where every id stands for one topic in a batch, a group is of a topic that the batch publishes
/// to, and its payloads are exactly those of the publications to that topic, in order.
pub proof fn law_groups_hold_their_topics<S>(batch: Seq<PublicationView<S>>, g: int)
    requires
        forall|i: int, j: int|
            0 <= i < batch.len() && 0 <= j < batch.len() && (#[trigger] batch[i]).topic.id == (
            #[trigger] batch[j]).topic.id ==> batch[i].topic == batch[j].topic,
        0 <= g < grouped(batch).len(),
    ensures
        exists|i: int|
            0 <= i < batch.len() && (#[trigger] batch[i]).topic == grouped(batch)[g].topic,
        grouped(batch)[g].payloads == payloads_to(batch, grouped(batch)[g].topic),
{
    let i = lemma_topics_occur(batch, g);
    assert(batch[i].topic == grouped(batch)[g].topic);
    lemma_payloads_to(batch, grouped(batch)[g].topic);
}

/// What a producer's connection remembers between frames.
pub struct PublishSession<S> {
    /// The topics that were asked for last, oldest first.
    cache: Vec<Arc<Topic<S>>>,
    /// The messages that were not handed on yet.
    pending: Vec<Publication<S>>,
    /// The message whose topic is being looked up.
    waiting: Option<(String, Message)>,
}

/// What a [`PublishSession`] holds.
#[verifier::ext_equal]
pub struct SessionView<S> {
    pub cache: Seq<Arc<Topic<S>>>,
    pub pending: Seq<PublicationView<S>>,
    pub waiting: Option<(Seq<char>, Seq<u8>)>,
}

/// What is to be done next for a producer's connection.
pub enum PublishAction<S> {
    /// Read more bytes.
    Read,
    /// Give up: the producer sent a frame without a type.
    EmptyFrame,
    /// Nothing: go on with the next frame.
    Continue,
    /// Look up the topic of that name, and hand it to [`PublishSession::resolved`].
    Lookup(String),
    /// Hand each group to the subscribers of its topic.
    Flush(Vec<Group<S>>),
}

/// What a [`PublishAction`] asks for.
#[verifier::ext_equal]
pub enum ActionView<S> {
    Read,
    EmptyFrame,
    Continue,
    Lookup(Seq<char>),
    Flush(Seq<GroupView<S>>),
}

impl<S> View for PublishAction<S> {
    type V = ActionView<S>;

    open spec fn view(&self) -> ActionView<S> {
        match *self {
            PublishAction::Read => ActionView::Read,
            PublishAction::EmptyFrame => ActionView::EmptyFrame,
            PublishAction::Continue => ActionView::Continue,
            PublishAction::Lookup(name) => ActionView::Lookup(name@),
            PublishAction::Flush(groups) => ActionView::Flush(groups_view(groups@)),
        }
    }
}

impl<S> View for PublishSession<S> {
    type V = SessionView<S>;

    closed spec fn view(&self) -> SessionView<S> {
        SessionView {
            cache: self.cache@,
            pending: publications(self.pending@),
            waiting: match self.waiting {
                Some((name, message)) => Some((name@, message@)),
                None => None,
            },
        }
    }
}

/// The first of some topics that has that name.
pub open spec fn cached<S>(cache: Seq<Arc<Topic<S>>>, name: Seq<char>) -> Option<Arc<Topic<S>>>
    decreases cache.len(),
{
    if cache.len() == 0 {
        None
    } else if cache[0].name@ == name {
        Some(cache[0])
    } else {
        cached(cache.drop_first(), name)
    }
}

impl<S> SessionView<S> {
    /// Nothing remembered.
    pub open spec fn fresh() -> SessionView<S> {
        SessionView { cache: Seq::empty(), pending: Seq::empty(), waiting: None }
    }

    /// Fewer messages are pending than make a full batch, and no more topics are remembered than
    /// may be.
    pub open spec fn wf(self) -> bool {
        self.pending.len() < BATCH_SIZE && self.cache.len() <= CACHE_SIZE
    }

    /// The session after a message was added to the pending ones, and what is to be done then: a
    /// full batch is handed on.
    pub open spec fn added(self, topic: Arc<Topic<S>>, payload: Seq<u8>) -> (
        SessionView<S>,
        ActionView<S>,
    ) {
        let pending = self.pending.push(PublicationView { topic, payload });
        if pending.len() >= BATCH_SIZE {
            (SessionView { pending: Seq::empty(), ..self }, ActionView::Flush(grouped(pending)))
        } else {
            (SessionView { pending, ..self }, ActionView::Continue)
        }
    }

    /// The session after the body of a PUBLISH frame, and what is to be done then.
    pub open spec fn published(self, body: Seq<u8>) -> (SessionView<S>, ActionView<S>) {
        match frame::published(body) {
            None => (self, ActionView::Continue),
            Some((name, payload)) => match cached(self.cache, name) {
                Some(topic) => self.added(topic, payload),
                None => (
                    SessionView { waiting: Some((name, payload)), ..self },
                    ActionView::Lookup(name),
                ),
            },
        }
    }

    /// The session after the next frame of `stream`, what is left of the stream, and what is to be
    /// done then.
    pub open spec fn stepped(self, stream: Seq<u8>) -> (SessionView<S>, Seq<u8>, ActionView<S>) {
        if !frame::has_frame(stream) {
            (self, stream, ActionView::Read)
        } else if frame::frame_len(stream) == 2 {
            (self, stream, ActionView::EmptyFrame)
        } else {
            let f = frame::first_frame(stream);
            let rest = stream.skip(frame::frame_len(stream));
            if f.msg_type == MSG_PUBLISH {
                let (session, action) = self.published(f.body);
                (session, rest, action)
            } else {
                (self, rest, ActionView::Continue)
            }
        }
    }

    /// The topics remembered after one more was asked for.
    pub open spec fn remembered(self, topic: Arc<Topic<S>>) -> Seq<Arc<Topic<S>>> {
        if self.cache.len() >= CACHE_SIZE {
            self.cache.drop_first().push(topic)
        } else {
            self.cache.push(topic)
        }
    }

    /// The session after the topic that it waits for was found, and what is to be done then.
    pub open spec fn resolved(self, topic: Arc<Topic<S>>) -> (SessionView<S>, ActionView<S>) {
        match self.waiting {
            None => (self, ActionView::Continue),
            Some((_, payload)) => (SessionView {
                cache: self.remembered(topic),
                waiting: None,
                ..self
            }).added(topic, payload),
        }
    }
}

impl<S> PublishSession<S> {
    /// A session that remembers nothing.
    pub fn new() -> (session: Self)
        ensures
            session@ == SessionView::<S>::fresh(),
            session@.wf(),
    {
        let session = PublishSession { cache: Vec::new(), pending: Vec::new(), waiting: None };
        assert(session@ =~= SessionView::<S>::fresh());
        session
    }

    /// The remembered topic of that name.
    fn find_cached(&self, name: &String) -> (found: Option<Arc<Topic<S>>>)
        ensures
            found == cached(self@.cache, name@),
    {
        let mut i: usize = 0;
        assert(self.cache@.skip(0) =~= self.cache@);
        while i < self.cache.len()
            invariant
                i <= self.cache@.len(),
                cached(self@.cache, name@) == cached(self.cache@.skip(i as int), name@),
            decreases self.cache@.len() - i,
        {
            assert(self.cache@.skip(i as int)[0] == self.cache@[i as int]);
            assert(self.cache@.skip(i as int).drop_first() =~= self.cache@.skip(i + 1));
            if self.cache[i].name == *name {
                return Some(self.cache[i].clone());
            }
            i += 1;
        }
        None
    }

    /// Takes the pending messages out, grouped by topics.
    fn flush(&mut self) -> (groups: Vec<Group<S>>)
        ensures
            groups_view(groups@) == grouped(old(self)@.pending),
            final(self)@ == (SessionView { pending: Seq::empty(), ..old(self)@ }),
    {
        let groups = group_batch(&self.pending);
        self.pending = Vec::new();
        assert(self@.pending =~= Seq::<PublicationView<S>>::empty());
        groups
    }

    /// Adds a message to the pending ones, and hands a full batch on.
    fn add_message(&mut self, topic: Arc<Topic<S>>, message: Message) -> (action: PublishAction<S>)
        requires
            old(self)@.wf(),
        ensures
            (final(self)@, action@) == old(self)@.added(topic, message@),
            final(self)@.wf(),
    {
        let ghost before = self@;
        self.pending.push(Publication { topic, message });
        assert(self@.pending =~= before.pending.push(
            PublicationView { topic, payload: message@ },
        ));
        if self.pending.len() >= BATCH_SIZE {
            PublishAction::Flush(self.flush())
        } else {
            PublishAction::Continue
        }
    }

    /// Handles the body of a PUBLISH frame.
    fn publish(&mut self, body: Bytes) -> (action: PublishAction<S>)
        requires
            old(self)@.wf(),
        ensures
            (final(self)@, action@) == old(self)@.published(buffers::bytes_contents(body)),
            final(self)@.wf(),
            frame::text_agrees(buffers::bytes_contents(body)),
    {
        match parse_publish(&body) {
            None => PublishAction::Continue,
            Some((name, payload)) => {
                let message = Message { payload: Arc::new(payload) };
                match self.find_cached(&name) {
                    Some(topic) => self.add_message(topic, message),
                    None => {
                        let wanted = name.clone();
                        self.waiting = Some((name, message));
                        PublishAction::Lookup(wanted)
                    },
                }
            },
        }
    }

    /// Handles the body of the frame that opened the connection.
    pub fn start(&mut self, first_body: &[u8]) -> (action: PublishAction<S>)
        requires
            old(self)@.wf(),
        ensures
            (final(self)@, action@) == old(self)@.published(first_body@),
            final(self)@.wf(),
            frame::text_agrees(first_body@),
    {
        self.publish(Bytes::copy_from_slice(first_body))
    }

    /// Handles the next frame of the stream. Frames of other types than PUBLISH are passed over, and
    /// so are PUBLISH frames that are too short for their topic.
    pub fn step(&mut self, stream: &mut BytesMut) -> (action: PublishAction<S>)
        requires
            old(self)@.wf(),
        ensures
            (final(self)@, buffers::bytes_mut_contents(*final(stream)), action@) == old(
                self,
            )@.stepped(buffers::bytes_mut_contents(*old(stream))),
            final(self)@.wf(),
            ({
                let s = buffers::bytes_mut_contents(*old(stream));
                frame::has_frame(s) && frame::frame_len(s) > 2 && frame::first_frame(s).msg_type
                    == MSG_PUBLISH ==> frame::text_agrees(frame::first_frame(s).body)
            }),
    {
        match next_frame(stream) {
            NextFrame::Incomplete => PublishAction::Read,
            NextFrame::Empty => PublishAction::EmptyFrame,
            NextFrame::Frame { msg_type, body } => {
                if msg_type == MSG_PUBLISH {
                    self.publish(body)
                } else {
                    PublishAction::Continue
                }
            },
        }
    }

    /// Goes on with the message whose topic was looked up.
    pub fn resolved(&mut self, topic: Arc<Topic<S>>) -> (action: PublishAction<S>)
        requires
            old(self)@.wf(),
        ensures
            (final(self)@, action@) == old(self)@.resolved(topic),
            final(self)@.wf(),
    {
        let mut waiting: Option<(String, Message)> = None;
        std::mem::swap(&mut waiting, &mut self.waiting);
        match waiting {
            None => PublishAction::Continue,
            Some((_, message)) => {
                if self.cache.len() >= CACHE_SIZE {
                    self.cache.remove(0);
                }
                self.cache.push(topic.clone());
                assert(self.cache@ =~= old(self)@.remembered(topic));
                self.add_message(topic, message)
            },
        }
    }

    /// Takes out what is pending when the connection ends. There may be no group.
    pub fn finish(&mut self) -> (groups: Vec<Group<S>>)
        ensures
            groups_view(groups@) == grouped(old(self)@.pending),
            final(self)@ == (SessionView { pending: Seq::empty(), ..old(self)@ }),
    {
        self.flush()
    }
}

/// A producer's connection: its session, what was read and not handled yet, and what was handed on.
pub struct ConnectionView<S> {
    pub session: SessionView<S>,
    pub stream: Seq<u8>,
    pub flushed: Seq<GroupView<S>>,
}

/// What happens to a producer's connection.
pub enum ConnectionEvent<S> {
    /// Bytes were read.
    Read(Seq<u8>),
    /// The next frame is handled.
    Step,
    /// A topic was looked up.
    Resolved(Arc<Topic<S>>),
}

/// The groups that an action hands on.
pub open spec fn flushed_by<S>(action: ActionView<S>) -> Seq<GroupView<S>> {
    match action {
        ActionView::Flush(groups) => groups,
        _ => Seq::empty(),
    }
}

/// A connection that was opened by a PUBLISH frame with the given body, after some events. Frames
/// are not handled while a topic is looked up, and only the topic that was asked for is taken.
pub open spec fn connection_after<S>(
    first_body: Seq<u8>,
    events: Seq<ConnectionEvent<S>>,
) -> ConnectionView<S>
    decreases events.len(),
{
    if events.len() == 0 {
        let (session, action) = SessionView::<S>::fresh().published(first_body);
        ConnectionView { session, stream: Seq::empty(), flushed: flushed_by(action) }
    } else {
        let c = connection_after(first_body, events.drop_last());
        match events.last() {
            ConnectionEvent::Read(bytes) => ConnectionView { stream: c.stream + bytes, ..c },
            ConnectionEvent::Step => if c.session.waiting is Some {
                c
            } else {
                let (session, stream, action) = c.session.stepped(c.stream);
                ConnectionView { session, stream, flushed: c.flushed + flushed_by(action) }
            },
            ConnectionEvent::Resolved(topic) => match c.session.waiting {
                None => c,
                Some((name, _)) => if topic.name@ != name {
                    c
                } else {
                    let (session, action) = c.session.resolved(topic);
                    ConnectionView { session, flushed: c.flushed + flushed_by(action), ..c }
                },
            },
        }
    }
}

/// All that was read from a connection behind its first frame.
pub open spec fn received<S>(events: Seq<ConnectionEvent<S>>) -> Seq<u8>
    decreases events.len(),
{
    if events.len() == 0 {
        Seq::empty()
    } else {
        match events.last() {
            ConnectionEvent::Read(bytes) => received(events.drop_last()) + bytes,
            _ => received(events.drop_last()),
        }
    }
}

/// The payload that a frame publishes to a topic, if it does.
pub open spec fn message_for(f: FrameView, name: Seq<char>) -> Seq<Seq<u8>> {
    if f.msg_type == MSG_PUBLISH {
        match frame::published(f.body) {
            Some((n, payload)) => if n == name {
                seq![payload]
            } else {
                Seq::empty()
            },
            None => Seq::empty(),
        }
    } else {
        Seq::empty()
    }
}

/// The payloads that some frames publish to a topic, in order.
pub open spec fn messages_for(frames: Seq<FrameView>, name: Seq<char>) -> Seq<Seq<u8>>
    decreases frames.len(),
{
    if frames.len() == 0 {
        Seq::empty()
    } else {
        messages_for(frames.drop_last(), name) + message_for(frames.last(), name)
    }
}

proof fn lemma_messages_join(a: Seq<FrameView>, b: Seq<FrameView>, name: Seq<char>)
    ensures
        messages_for(a + b, name) == messages_for(a, name) + messages_for(b, name),
    decreases b.len(),
{
    if b.len() == 0 {
        assert(a + b =~= a);
        assert(messages_for(a, name) + Seq::<Seq<u8>>::empty() =~= messages_for(a, name));
    } else {
        assert((a + b).drop_last() =~= a + b.drop_last());
        lemma_messages_join(a, b.drop_last(), name);
        assert(messages_for(a + b, name) =~= messages_for(a, name) + messages_for(b, name));
    }
}

proof fn lemma_handed_join<S>(a: Seq<GroupView<S>>, b: Seq<GroupView<S>>, id: usize)
    ensures
        handed_to(a + b, id) == handed_to(a, id) + handed_to(b, id),
    decreases b.len(),
{
    if b.len() == 0 {
        assert(a + b =~= a);
        assert(handed_to(a, id) + Seq::<Seq<u8>>::empty() =~= handed_to(a, id));
    } else {
        assert((a + b).drop_last() =~= a + b.drop_last());
        lemma_handed_join(a, b.drop_last(), id);
        assert(handed_to(a + b, id) =~= handed_to(a, id) + handed_to(b, id));
    }
}

/// A remembered topic has the name that it was found by, and is one of those remembered.
proof fn lemma_cached<S>(cache: Seq<Arc<Topic<S>>>, name: Seq<char>)
    ensures
        cached(cache, name) matches Some(found) ==> {
            &&& found.name@ == name
            &&& exists|i: int| 0 <= i < cache.len() && (#[trigger] cache[i]) == found
        },
    decreases cache.len(),
{
    if cache.len() > 0 {
        let later = cache.drop_first();
        lemma_cached(later, name);
        if let Some(found) = cached(cache, name) {
            if cache[0].name@ == name {
                assert(cache[0] == found);
            } else {
                let i = choose|i: int| 0 <= i < later.len() && (#[trigger] later[i]) == found;
                assert(cache[i + 1] == found);
            }
        }
    }
}

/// Of the topics that were looked up, those with the id of `topic` are those with its name. It holds
/// of every topic of a table that the others were looked up in.
pub open spec fn looked_up_apart<S>(
    events: Seq<ConnectionEvent<S>>,
    topic: Arc<Topic<S>>,
) -> bool {
    forall|i: int|
        0 <= i < events.len() ==> (#[trigger] events[i] matches ConnectionEvent::Resolved(found)
            ==> topics::told_apart(*found, *topic))
}

/// Of the topics that a session holds, those with the id of `topic` are those with its name.
spec fn held_apart<S>(session: SessionView<S>, topic: Arc<Topic<S>>) -> bool {
    &&& forall|i: int|
        0 <= i < session.cache.len() ==> topics::told_apart(*(#[trigger] session.cache[i]), *topic)
    &&& forall|i: int|
        0 <= i < session.pending.len() ==> topics::told_apart(
            *(#[trigger] session.pending[i]).topic,
            *topic,
        )
}

/// Of the topics of some groups, those with the id of `topic` are those with its name.
spec fn grouped_apart<S>(groups: Seq<GroupView<S>>, topic: Arc<Topic<S>>) -> bool {
    forall|g: int| 0 <= g < groups.len() ==> topics::told_apart(*(#[trigger] groups[g]).topic, *topic)
}

/// The payload that a session keeps for a topic while the topic is looked up.
pub open spec fn waiting_for<S>(session: SessionView<S>, name: Seq<char>) -> Seq<Seq<u8>> {
    match session.waiting {
        Some((n, payload)) => if n == name {
            seq![payload]
        } else {
            Seq::empty()
        },
        None => Seq::empty(),
    }
}

/// What a session has not handed on for a topic yet.
pub open spec fn backlog<S>(session: SessionView<S>, topic: Arc<Topic<S>>) -> Seq<Seq<u8>> {
    payloads_of(session.pending, topic.id) + waiting_for(session, topic.name@)
}

proof fn lemma_grouped_apart<S>(batch: Seq<PublicationView<S>>, topic: Arc<Topic<S>>)
    requires
        forall|i: int|
            0 <= i < batch.len() ==> topics::told_apart(*(#[trigger] batch[i]).topic, *topic),
    ensures
        grouped_apart(grouped(batch), topic),
{
    assert forall|g: int| 0 <= g < grouped(batch).len() implies topics::told_apart(
        *(#[trigger] grouped(batch)[g]).topic,
        *topic,
    ) by {
        let i = lemma_topics_occur(batch, g);
        assert(batch[i].topic == grouped(batch)[g].topic);
    }
}

/// Adding a message keeps every payload: it is handed on or pending.
proof fn lemma_added<S>(
    session: SessionView<S>,
    found: Arc<Topic<S>>,
    payload: Seq<u8>,
    topic: Arc<Topic<S>>,
)
    requires
        held_apart(session, topic),
        topics::told_apart(*found, *topic),
    ensures
        ({
            let (next, action) = session.added(found, payload);
            &&& held_apart(next, topic)
            &&& grouped_apart(flushed_by(action), topic)
            &&& handed_to(flushed_by(action), topic.id) + payloads_of(next.pending, topic.id)
                == payloads_of(session.pending, topic.id) + if found.name@ == topic.name@ {
                seq![payload]
            } else {
                Seq::empty()
            }
        }),
{
    let id = topic.id;
    let pending = session.pending.push(PublicationView { topic: found, payload });
    assert(pending.drop_last() =~= session.pending);
    law_grouping_keeps_every_message(pending, id);
    lemma_grouped_apart(pending, topic);
    let (next, action) = session.added(found, payload);
    assert(handed_to(flushed_by(action), id) + payloads_of(next.pending, id) =~= payloads_of(
        pending,
        id,
    ));
    assert(payloads_of(pending, id) =~= payloads_of(session.pending, id) + if found.name@
        == topic.name@ {
        seq![payload]
    } else {
        Seq::empty()
    });
}

/// A PUBLISH frame keeps every payload: its own is added to those that the session had.
proof fn lemma_published<S>(session: SessionView<S>, body: Seq<u8>, topic: Arc<Topic<S>>)
    requires
        session.waiting is None,
        held_apart(session, topic),
    ensures
        ({
            let (next, action) = session.published(body);
            &&& held_apart(next, topic)
            &&& grouped_apart(flushed_by(action), topic)
            &&& handed_to(flushed_by(action), topic.id) + backlog(next, topic) == backlog(
                session,
                topic,
            ) + message_for(FrameView { msg_type: MSG_PUBLISH, body }, topic.name@)
        }),
{
    let (next, action) = session.published(body);
    let f = FrameView { msg_type: MSG_PUBLISH, body };
    if let Some((n, payload)) = frame::published(body) {
        lemma_cached(session.cache, n);
        if let Some(found) = cached(session.cache, n) {
            lemma_added(session, found, payload, topic);
        }
    }
    assert(handed_to(flushed_by(action), topic.id) + backlog(next, topic) =~= backlog(
        session,
        topic,
    ) + message_for(f, topic.name@));
}

/// All that a connection has of a topic: what it handed on, what is pending, and what has arrived
/// but was not handled.
pub open spec fn account<S>(c: ConnectionView<S>, topic: Arc<Topic<S>>) -> Seq<Seq<u8>> {
    handed_to(c.flushed, topic.id) + backlog(c.session, topic) + messages_for(
        frame::frames_of(c.stream),
        topic.name@,
    )
}

proof fn lemma_single_frame(f: FrameView, name: Seq<char>)
    ensures
        messages_for(seq![f], name) == message_for(f, name),
{
    assert(seq![f].drop_last() =~= Seq::<FrameView>::empty());
    assert(messages_for(Seq::<FrameView>::empty(), name) =~= Seq::<Seq<u8>>::empty());
    assert(seq![f].last() == f);
    assert(messages_for(seq![f], name) =~= message_for(f, name));
}

/// Handling a frame keeps the account.
proof fn lemma_step_keeps_account<S>(b: ConnectionView<S>, topic: Arc<Topic<S>>)
    requires
        b.session.waiting is None,
        held_apart(b.session, topic),
        grouped_apart(b.flushed, topic),
    ensures
        ({
            let (session, stream, action) = b.session.stepped(b.stream);
            let c = ConnectionView { session, stream, flushed: b.flushed + flushed_by(action) };
            &&& held_apart(c.session, topic)
            &&& grouped_apart(c.flushed, topic)
            &&& account(c, topic) == account(b, topic)
            &&& frame::remainder_of(stream) == frame::remainder_of(b.stream)
        }),
{
    let s = b.stream;
    let (session, stream, action) = b.session.stepped(s);
    if frame::has_frame(s) && frame::frame_len(s) > 2 {
        let head = frame::first_frame(s);
        let handed = handed_to(b.flushed, topic.id);
        let more = handed_to(flushed_by(action), topic.id);
        let old_backlog = backlog(b.session, topic);
        let new_backlog = backlog(session, topic);
        let m = message_for(head, topic.name@);
        let rest = messages_for(frame::frames_of(stream), topic.name@);
        lemma_single_frame(head, topic.name@);
        lemma_messages_join(seq![head], frame::frames_of(stream), topic.name@);
        lemma_handed_join(b.flushed, flushed_by(action), topic.id);
        if head.msg_type == MSG_PUBLISH {
            lemma_published(b.session, head.body, topic);
        } else {
            assert(more + new_backlog =~= old_backlog + m);
        }
        assert((handed + more) + new_backlog + rest =~= handed + (more + new_backlog) + rest);
        assert(handed + (old_backlog + m) + rest =~= handed + old_backlog + (m + rest));
    } else {
        assert(b.flushed + flushed_by(action) =~= b.flushed);
    }
}

/// Finding the topic that was asked for keeps the account.
proof fn lemma_resolved_keeps_account<S>(
    b: ConnectionView<S>,
    found: Arc<Topic<S>>,
    payload: Seq<u8>,
    topic: Arc<Topic<S>>,
)
    requires
        b.session.waiting == Some((found.name@, payload)),
        held_apart(b.session, topic),
        grouped_apart(b.flushed, topic),
        topics::told_apart(*found, *topic),
    ensures
        ({
            let (session, action) = b.session.resolved(found);
            let c = ConnectionView { session, flushed: b.flushed + flushed_by(action), ..b };
            &&& held_apart(c.session, topic)
            &&& grouped_apart(c.flushed, topic)
            &&& account(c, topic) == account(b, topic)
        }),
{
    let (session, action) = b.session.resolved(found);
    let asked = SessionView { cache: b.session.remembered(found), waiting: None, ..b.session };
    let handed = handed_to(b.flushed, topic.id);
    let more = handed_to(flushed_by(action), topic.id);
    let rest = messages_for(frame::frames_of(b.stream), topic.name@);
    lemma_added(asked, found, payload, topic);
    lemma_handed_join(b.flushed, flushed_by(action), topic.id);
    assert(more + backlog(session, topic) =~= backlog(b.session, topic));
    assert((handed + more) + backlog(session, topic) + rest =~= handed + (more + backlog(
        session,
        topic,
    )) + rest);
}

/// What a connection keeps, together with what is in its account.
proof fn lemma_connection<S>(
    first_body: Seq<u8>,
    events: Seq<ConnectionEvent<S>>,
    topic: Arc<Topic<S>>,
)
    requires
        looked_up_apart(events, topic),
    ensures
        ({
            let c = connection_after(first_body, events);
            let first = seq![FrameView { msg_type: MSG_PUBLISH, body: first_body }];
            &&& held_apart(c.session, topic)
            &&& grouped_apart(c.flushed, topic)
            &&& account(c, topic) == messages_for(
                first + frame::frames_of(received(events)),
                topic.name@,
            )
            &&& frame::remainder_of(c.stream) == frame::remainder_of(received(events))
        }),
    decreases events.len(),
{
    let f = FrameView { msg_type: MSG_PUBLISH, body: first_body };
    let first = seq![f];
    let c = connection_after(first_body, events);
    if events.len() == 0 {
        let fresh = SessionView::<S>::fresh();
        lemma_published(fresh, first_body, topic);
        lemma_single_frame(f, topic.name@);
        assert(first + frame::frames_of(received(events)) =~= first);
        assert(backlog(fresh, topic) =~= Seq::<Seq<u8>>::empty());
        assert(account(c, topic) =~= message_for(f, topic.name@));
    } else {
        let earlier = events.drop_last();
        let b = connection_after(first_body, earlier);
        assert forall|i: int| 0 <= i < earlier.len() implies (
        #[trigger] earlier[i] matches ConnectionEvent::Resolved(found) ==> topics::told_apart(
            *found,
            *topic,
        )) by {
            assert(earlier[i] == events[i]);
        }
        lemma_connection(first_body, earlier, topic);
        assert(events.last() == events[events.len() - 1]);
        match events.last() {
            ConnectionEvent::Read(bytes) => {
                let so_far = first + frame::frames_of(received(earlier));
                let more = frame::frames_of(frame::remainder_of(b.stream) + bytes);
                frame::law_cuts_do_not_matter(b.stream, bytes);
                frame::law_cuts_do_not_matter(received(earlier), bytes);
                lemma_messages_join(frame::frames_of(b.stream), more, topic.name@);
                lemma_messages_join(so_far, more, topic.name@);
                assert(first + frame::frames_of(received(events)) =~= so_far + more);
                assert(account(c, topic) =~= account(b, topic) + messages_for(more, topic.name@));
            },
            ConnectionEvent::Step => {
                if b.session.waiting is None {
                    lemma_step_keeps_account(b, topic);
                }
            },
            ConnectionEvent::Resolved(found) => {
                if let Some((asked_for, payload)) = b.session.waiting {
                    if found.name@ == asked_for {
                        lemma_resolved_keeps_account(b, found, payload, topic);
                    }
                }
            },
        }
    }
}

/// Whatever the order of reads, frames and look-ups, no message of a producer is lost, doubled or
/// moved before another of its topic: what was handed on for a topic, what is pending for it and
/// what has arrived but was not handled are together the messages published to it, in order.
pub proof fn law_no_message_is_lost<S>(
    first_body: Seq<u8>,
    events: Seq<ConnectionEvent<S>>,
    topic: Arc<Topic<S>>,
)
    requires
        looked_up_apart(events, topic),
    ensures
        ({
            let first = seq![FrameView { msg_type: MSG_PUBLISH, body: first_body }];
            account(connection_after(first_body, events), topic) == messages_for(
                first + frame::frames_of(received(events)),
                topic.name@,
            )
        }),
        frame::remainder_of(connection_after(first_body, events).stream) == frame::remainder_of(
            received(events),
        ),
{
    lemma_connection(first_body, events, topic);
}

/// When a connection ends with every frame handled, all that was published to a topic has been
/// handed on, in order.
pub proof fn law_all_is_handed_on<S>(
    first_body: Seq<u8>,
    events: Seq<ConnectionEvent<S>>,
    topic: Arc<Topic<S>>,
)
    requires
        looked_up_apart(events, topic),
        connection_after(first_body, events).session.waiting is None,
        !frame::has_frame(connection_after(first_body, events).stream),
    ensures
        ({
            let c = connection_after(first_body, events);
            let first = seq![FrameView { msg_type: MSG_PUBLISH, body: first_body }];
            handed_to(c.flushed + grouped(c.session.pending), topic.id) == messages_for(
                first + frame::frames_of(received(events)),
                topic.name@,
            )
        }),
{
    let c = connection_after(first_body, events);
    law_no_message_is_lost(first_body, events, topic);
    law_grouping_keeps_every_message(c.session.pending, topic.id);
    lemma_handed_join(c.flushed, grouped(c.session.pending), topic.id);
    assert(handed_to(c.flushed, topic.id) + payloads_of(c.session.pending, topic.id) =~= account(
        c,
        topic,
    ));
}

/// What is written to a subscriber of a topic when groups are handed on and the batches of its topic
/// are written in the order in which they were handed on: the batches, one behind the other. The
/// order holds where one worker writes the batches of the topic as it is handed them.
pub open spec fn written_for<S>(groups: Seq<GroupView<S>>, id: usize) -> Seq<u8>
    decreases groups.len(),
{
    if groups.len() == 0 {
        Seq::empty()
    } else {
        let earlier = written_for(groups.drop_last(), id);
        let last = groups.last();
        if last.topic.id == id {
            earlier + frame::data_frames(utf8::encode_utf8(last.topic.name@), last.payloads)
        } else {
            earlier
        }
    }
}

proof fn lemma_written<S>(groups: Seq<GroupView<S>>, topic: Arc<Topic<S>>)
    requires
        grouped_apart(groups, topic),
    ensures
        written_for(groups, topic.id) == frame::data_frames(
            utf8::encode_utf8(topic.name@),
            handed_to(groups, topic.id),
        ),
    decreases groups.len(),
{
    if groups.len() > 0 {
        let earlier = groups.drop_last();
        assert forall|g: int| 0 <= g < earlier.len() implies topics::told_apart(
            *(#[trigger] earlier[g]).topic,
            *topic,
        ) by {
            assert(earlier[g] == groups[g]);
        }
        lemma_written(earlier, topic);
        assert(groups.last() == groups[groups.len() - 1]);
        frame::law_batches_join(
            utf8::encode_utf8(topic.name@),
            handed_to(earlier, topic.id),
            groups.last().payloads,
        );
    }
}

/// From producer to subscriber: when a producer's connection has ended with every frame handled, and
/// the batches of a topic are written in the order in which the connection handed them on, a
/// subscriber of the topic reads one data frame for each message that was published to the topic,
/// with the payload of the message, in order. Each must fit the length field of its frame.
pub proof fn law_subscriber_reads_what_was_published<S>(
    first_body: Seq<u8>,
    events: Seq<ConnectionEvent<S>>,
    topic: Arc<Topic<S>>,
)
    requires
        looked_up_apart(events, topic),
        connection_after(first_body, events).session.waiting is None,
        !frame::has_frame(connection_after(first_body, events).stream),
        ({
            let first = seq![FrameView { msg_type: MSG_PUBLISH, body: first_body }];
            let messages = messages_for(first + frame::frames_of(received(events)), topic.name@);
            forall|i: int|
                0 <= i < messages.len() ==> 5 + utf8::encode_utf8(topic.name@).len() + (
                #[trigger] messages[i]).len() <= 65535
        }),
    ensures
        ({
            let c = connection_after(first_body, events);
            let first = seq![FrameView { msg_type: MSG_PUBLISH, body: first_body }];
            frame::frames_of(written_for(c.flushed + grouped(c.session.pending), topic.id))
                == frame::data_frame_views(
                utf8::encode_utf8(topic.name@),
                messages_for(first + frame::frames_of(received(events)), topic.name@),
            )
        }),
{
    let c = connection_after(first_body, events);
    let groups = c.flushed + grouped(c.session.pending);
    let name = utf8::encode_utf8(topic.name@);
    lemma_connection(first_body, events, topic);
    lemma_grouped_apart(c.session.pending, topic);
    law_all_is_handed_on(first_body, events, topic);
    lemma_written(groups, topic);
    let messages = handed_to(groups, topic.id);
    frame::law_batch_is_understood(name, messages, Seq::empty());
    assert(frame::data_frames(name, messages) + Seq::<u8>::empty() =~= frame::data_frames(
        name,
        messages,
    ));
    assert(frame::data_frame_views(name, messages) + Seq::<FrameView>::empty()
        =~= frame::data_frame_views(name, messages));
}

/// What happened on a subscriber's connection.
pub enum DeliveryEvent {
    /// The subscriber was told that it is registered, or could not be.
    Acknowledged { sent: bool },
    /// A batch was taken from the channel, or the channel has closed.
    Received { batch: bool },
    /// A batch was written, or could not be; and whether further batches wait in the channel.
    Written { sent: bool, more: bool },
    /// What was written was flushed, or could not be.
    Flushed { sent: bool },
}

/// What is to be done next on a subscriber's connection.
pub enum DeliveryAction {
    /// Take the next batch from the channel.
    Receive,
    /// Write the batch.
    Write,
    /// Flush what was written.
    Flush,
    /// Close the connection.
    Stop,
}

/// Whether an event tells of a failure, or of a channel that has closed.
pub open spec fn ends_delivery(event: DeliveryEvent) -> bool {
    match event {
        DeliveryEvent::Acknowledged { sent } => !sent,
        DeliveryEvent::Received { batch } => !batch,
        DeliveryEvent::Written { sent, .. } => !sent,
        DeliveryEvent::Flushed { sent } => !sent,
    }
}

/// What follows an event: a batch that was taken is written, the last of the waiting ones is
/// followed by a flush, and the first failure ends the connection.
pub open spec fn delivery_action(event: DeliveryEvent) -> DeliveryAction {
    if ends_delivery(event) {
        DeliveryAction::Stop
    } else if event is Received {
        DeliveryAction::Write
    } else if event == (DeliveryEvent::Written { sent: true, more: false }) {
        DeliveryAction::Flush
    } else {
        DeliveryAction::Receive
    }
}

/// Decides what is to be done next on a subscriber's connection: batches are written as they come,
/// flushed once none is waiting, and the first failure ends the connection.
pub fn next_delivery(event: DeliveryEvent) -> (action: DeliveryAction)
    ensures
        action == delivery_action(event),
{
    match event {
        DeliveryEvent::Acknowledged { sent } => if sent {
            DeliveryAction::Receive
        } else {
            DeliveryAction::Stop
        },
        DeliveryEvent::Received { batch } => if batch {
            DeliveryAction::Write
        } else {
            DeliveryAction::Stop
        },
        DeliveryEvent::Written { sent, more } => if !sent {
            DeliveryAction::Stop
        } else if more {
            DeliveryAction::Receive
        } else {
            DeliveryAction::Flush
        },
        DeliveryEvent::Flushed { sent } => if sent {
            DeliveryAction::Receive
        } else {
            DeliveryAction::Stop
        },
    }
}

/// Whether an event is one that comes of an action.
pub open spec fn comes_of(event: DeliveryEvent, action: DeliveryAction) -> bool {
    match action {
        DeliveryAction::Receive => event is Received,
        DeliveryAction::Write => event is Written,
        DeliveryAction::Flush => event is Flushed,
        DeliveryAction::Stop => false,
    }
}

/// Whether a subscriber's connection can run through these events: the acknowledgement comes first,
/// and every other event comes of what was to be done after the one before it.
pub open spec fn is_delivery(events: Seq<DeliveryEvent>) -> bool
    decreases events.len(),
{
    if events.len() <= 1 {
        events.len() == 1 ==> events[0] is Acknowledged
    } else {
        let earlier = events.drop_last();
        is_delivery(earlier) && comes_of(events.last(), delivery_action(earlier.last()))
    }
}

/// A subscriber's connection: how many batches were taken from the channel, what was written, and
/// how much of that was flushed.
pub struct DeliveryView {
    pub taken: nat,
    pub written: Seq<Seq<u8>>,
    pub flushed: nat,
}

/// A subscriber's connection after some events, where `batches` are those that the channel hands
/// out. What is written is the batch that was taken last.
pub open spec fn delivery_after(
    events: Seq<DeliveryEvent>,
    batches: Seq<Seq<u8>>,
) -> DeliveryView
    decreases events.len(),
{
    if events.len() == 0 {
        DeliveryView { taken: 0, written: Seq::empty(), flushed: 0 }
    } else {
        let d = delivery_after(events.drop_last(), batches);
        match events.last() {
            DeliveryEvent::Received { batch: true } => DeliveryView { taken: d.taken + 1, ..d },
            DeliveryEvent::Written { sent: true, .. } => DeliveryView {
                written: d.written.push(batches[d.taken - 1]),
                ..d
            },
            DeliveryEvent::Flushed { sent: true } => DeliveryView {
                flushed: d.written.len(),
                ..d
            },
            _ => d,
        }
    }
}

/// A subscriber is written the batches of its channel, each once and in order, up to the first
/// failure. When the next batch is to be taken, all those taken before have been written; they have
/// also been flushed, unless another batch was seen waiting in the channel. When a batch is to be
/// written, it is the only one taken that was not. A connection that has stopped has written all
/// that it took, but for the last where writing failed.
pub proof fn law_batches_are_written_once(events: Seq<DeliveryEvent>, batches: Seq<Seq<u8>>)
    requires
        is_delivery(events),
        events.len() > 0,
        delivery_after(events, batches).taken <= batches.len(),
    ensures
        ({
            let d = delivery_after(events, batches);
            match delivery_action(events.last()) {
                DeliveryAction::Receive => {
                    &&& d.written == batches.take(d.taken as int)
                    &&& d.flushed == d.written.len() || events.last() == (DeliveryEvent::Written {
                        sent: true,
                        more: true,
                    })
                },
                DeliveryAction::Write => {
                    &&& d.taken > 0
                    &&& d.written == batches.take(d.taken - 1)
                },
                DeliveryAction::Flush => d.written == batches.take(d.taken as int),
                DeliveryAction::Stop => if events.last() is Written {
                    d.taken > 0 && d.written == batches.take(d.taken - 1)
                } else {
                    d.written == batches.take(d.taken as int)
                },
            }
        }),
        delivery_after(events, batches).flushed <= delivery_after(events, batches).written.len(),
    decreases events.len(),
{
    let earlier = events.drop_last();
    let b = delivery_after(earlier, batches);
    let d = delivery_after(events, batches);
    if events.len() == 1 {
        assert(earlier =~= Seq::<DeliveryEvent>::empty());
        assert(events.last() == events[0]);
        assert(d.written =~= batches.take(0));
    } else {
        law_batches_are_written_once(earlier, batches);
        if events.last() is Written && !ends_delivery(events.last()) {
            assert(d.written =~= batches.take(d.taken as int));
        }
    }
}

/// The payloads of a batch for an id are those of all publications to topics with that id, none left
/// out, in order; and a group holds them for each topic that the batch publishes to.
pub proof fn law_groups_hold_every_publication<S>(batch: Seq<PublicationView<S>>, id: usize)
    ensures
        payloads_of(batch, id) == batch.filter(
            |p: PublicationView<S>| p.topic.id == id,
        ).map_values(|p: PublicationView<S>| p.payload),
        forall|i: int|
            0 <= i < batch.len() ==> exists|g: int|
                0 <= g < grouped(batch).len() && (#[trigger] grouped(batch)[g]).topic.id == (
                #[trigger] batch[i]).topic.id && grouped(batch)[g].payloads == payloads_of(
                    batch,
                    batch[i].topic.id,
                ),
{
    lemma_payloads_are_filtered(batch, id);
    assert forall|i: int| 0 <= i < batch.len() implies exists|g: int|
        0 <= g < grouped(batch).len() && (#[trigger] grouped(batch)[g]).topic.id == (
        #[trigger] batch[i]).topic.id && grouped(batch)[g].payloads == payloads_of(
            batch,
            batch[i].topic.id,
        ) by {
        lemma_payload_occurs(batch, i);
        lemma_topics_of(batch);
        let topics = topics_of(batch);
        let g = choose|g: int|
            0 <= g < topics.len() && (#[trigger] topics[g]).id == batch[i].topic.id;
        assert(grouped(batch)[g].topic == topics[g]);
    }
}

proof fn lemma_payloads_are_filtered<S>(batch: Seq<PublicationView<S>>, id: usize)
    ensures
        payloads_of(batch, id) == batch.filter(
            |p: PublicationView<S>| p.topic.id == id,
        ).map_values(|p: PublicationView<S>| p.payload),
    decreases batch.len(),
{
    reveal(Seq::filter);
    if batch.len() > 0 {
        lemma_payloads_are_filtered(batch.drop_last(), id);
    }
    assert(payloads_of(batch, id) =~= batch.filter(
        |p: PublicationView<S>| p.topic.id == id,
    ).map_values(|p: PublicationView<S>| p.payload));
}

proof fn lemma_payload_occurs<S>(batch: Seq<PublicationView<S>>, i: int)
    requires
        0 <= i < batch.len(),
    ensures
        payloads_of(batch, batch[i].topic.id).len() > 0,
    decreases batch.len(),
{
    if i < batch.len() - 1 {
        assert(batch.drop_last()[i] == batch[i]);
        lemma_payload_occurs(batch.drop_last(), i);
    }
}

/// A message is put behind those that are pending, for its topic. With the 512th all of them are
/// handed on in groups, and nothing is pending. What else the session holds stays.
pub proof fn law_full_batches_are_handed_on<S>(
    session: SessionView<S>,
    topic: Arc<Topic<S>>,
    payload: Seq<u8>,
)
    requires
        session.wf(),
    ensures
        ({
            let (next, action) = session.added(topic, payload);
            let all = session.pending.push(PublicationView { topic, payload });
            &&& next.cache == session.cache
            &&& next.waiting == session.waiting
            &&& all.len() < 512 ==> next.pending == all && action is Continue
            &&& all.len() >= 512 ==> next.pending.len() == 0 && action == ActionView::Flush(
                grouped(all),
            )
        }),
{
}

/// Which topic a session remembers under a name: the first one that has it, and none just if no
/// remembered topic has it. A topic that was looked up is remembered behind the others, of which the
/// last three at least stay.
pub proof fn law_topics_are_remembered<S>(
    session: SessionView<S>,
    name: Seq<char>,
    topic: Arc<Topic<S>>,
)
    requires
        session.wf(),
    ensures
        cached(session.cache, name) is None <==> forall|i: int|
            0 <= i < session.cache.len() ==> (#[trigger] session.cache[i]).name@ != name,
        forall|i: int|
            0 <= i < session.cache.len() && (#[trigger] session.cache[i]).name@ == name && (forall|
                j: int,
            |
                0 <= j < i ==> (#[trigger] session.cache[j]).name@ != name) ==> cached(
                session.cache,
                name,
            ) == Some(session.cache[i]),
        session.remembered(topic).len() == if session.cache.len() < 4 {
            session.cache.len() + 1
        } else {
            4
        },
        session.remembered(topic).last() == topic,
        forall|i: int|
            0 < i < session.cache.len() ==> session.remembered(topic).contains(
                #[trigger] session.cache[i],
            ),
        session.cache.len() < 4 ==> session.remembered(topic) == session.cache.push(topic),
{
    lemma_cached(session.cache, name);
    lemma_cached_first(session.cache, name);
    let next = session.remembered(topic);
    assert forall|i: int| 0 < i < session.cache.len() implies next.contains(
        #[trigger] session.cache[i],
    ) by {
        if session.cache.len() >= CACHE_SIZE {
            assert(next[i - 1] == session.cache[i]);
        } else {
            assert(next[i] == session.cache[i]);
        }
    }
}

proof fn lemma_cached_first<S>(cache: Seq<Arc<Topic<S>>>, name: Seq<char>)
    ensures
        cached(cache, name) is None ==> forall|i: int|
            0 <= i < cache.len() ==> (#[trigger] cache[i]).name@ != name,
        forall|i: int|
            0 <= i < cache.len() && (#[trigger] cache[i]).name@ == name && (forall|j: int|
                0 <= j < i ==> (#[trigger] cache[j]).name@ != name) ==> cached(cache, name) == Some(
                cache[i],
            ),
    decreases cache.len(),
{
    if cache.len() > 0 {
        let later = cache.drop_first();
        lemma_cached_first(later, name);
        assert forall|i: int|
            0 <= i < cache.len() && (#[trigger] cache[i]).name@ == name && (forall|j: int|
                0 <= j < i ==> (#[trigger] cache[j]).name@ != name) implies cached(cache, name)
            == Some(cache[i]) by {
            if i > 0 {
                assert(cache[0].name@ != name);
                assert(later[i - 1] == cache[i]);
                assert forall|j: int| 0 <= j < i - 1 implies (#[trigger] later[j]).name@ != name by {
                    assert(later[j] == cache[j + 1]);
                }
            }
        }
        if cached(cache, name) is None {
            assert forall|i: int| 0 <= i < cache.len() implies (#[trigger] cache[i]).name@
                != name by {
                if i > 0 {
                    assert(later[i - 1] == cache[i]);
                }
            }
        }
    }
}

/// What a PUBLISH body does to a session, whatever topic and payload it carries: where the topic is
/// remembered, the message is added for it; otherwise the message waits, and the topic is asked for
/// by its name. A body too short for its topic does nothing.
pub proof fn law_publications_find_their_topic<S>(
    session: SessionView<S>,
    topic: Seq<u8>,
    payload: Seq<u8>,
    body: Seq<u8>,
)
    requires
        topic.len() <= 65535,
    ensures
        ({
            let name = buffers::lossy_text(topic);
            let (next, action) = session.published(frame::topic_body(topic, payload));
            match cached(session.cache, name) {
                Some(found) => (next, action) == session.added(found, payload),
                None => {
                    &&& action == ActionView::<S>::Lookup(name)
                    &&& next.waiting == Some((name, payload))
                    &&& next.pending == session.pending
                    &&& next.cache == session.cache
                },
            }
        }),
        body.len() < 2 || body.len() < 2 + body[0] * 256 + body[1] ==> session.published(body) == (
            session,
            ActionView::<S>::Continue,
        ),
{
    frame::law_bodies_publish_what_they_carry(frame::topic_body(topic, payload));
}

/// Frames are handled one by one, whatever their size: as long as a whole frame has arrived, a step
/// takes the first one off and leaves the rest. More is read only when none has; a frame without a
/// type is told. A frame that is no PUBLISH does nothing. A topic is asked for just if a message
/// waits for it, by the name that the message waits for.
pub proof fn law_frames_are_handled_one_by_one<S>(session: SessionView<S>, stream: Seq<u8>)
    requires
        session.waiting is None,
    ensures
        ({
            let frames = frame::frames_of(stream);
            let (next, rest, action) = session.stepped(stream);
            &&& frames.len() > 0 ==> {
                &&& frame::frames_of(rest) == frames.drop_first()
                &&& frame::remainder_of(rest) == frame::remainder_of(stream)
                &&& frames[0].msg_type == MSG_PUBLISH ==> (next, action) == session.published(
                    frames[0].body,
                )
                &&& frames[0].msg_type != MSG_PUBLISH ==> next == session && action is Continue
            }
            &&& frames.len() == 0 ==> next == session && rest == stream && action
                == if stream.len() >= 3 && stream[0] == 0 && stream[1] == 0 {
                ActionView::<S>::EmptyFrame
            } else {
                ActionView::<S>::Read
            }
            &&& next.waiting is Some <==> action is Lookup
            &&& action matches ActionView::Lookup(name) ==> {
                next.waiting matches Some((asked_for, _)) && asked_for == name
            }
        }),
{
    let frames = frame::frames_of(stream);
    if frame::has_frame(stream) && frame::frame_len(stream) > 2 {
        assert(frames.drop_first() =~= frame::frames_of(stream.skip(frame::frame_len(stream))));
        assert(frames[0] == frame::first_frame(stream));
    }
}

/// The message that waited goes to the topic that was found, which is remembered; nothing waits then.
pub proof fn law_waiting_message_is_added<S>(
    session: SessionView<S>,
    name: Seq<char>,
    payload: Seq<u8>,
    topic: Arc<Topic<S>>,
)
    requires
        session.waiting == Some((name, payload)),
    ensures
        session.resolved(topic) == (SessionView {
            cache: session.remembered(topic),
            pending: session.pending,
            waiting: None,
        }).added(topic, payload),
        session.resolved(topic).0.waiting is None,
        session.resolved(topic).0.cache == session.remembered(topic),
{
}

/// A connection to a subscriber goes on until something fails or its channel closes, and not beyond:
/// neither being registered nor any batch ends it.
pub proof fn law_delivery_ends_with_the_first_failure(more: bool)
    ensures
        delivery_action(DeliveryEvent::Acknowledged { sent: true }) is Receive,
        delivery_action(DeliveryEvent::Received { batch: true }) is Write,
        delivery_action(DeliveryEvent::Written { sent: true, more }) is Receive <==> more,
        delivery_action(DeliveryEvent::Written { sent: true, more }) is Flush <==> !more,
        delivery_action(DeliveryEvent::Flushed { sent: true }) is Receive,
        delivery_action(DeliveryEvent::Acknowledged { sent: false }) is Stop,
        delivery_action(DeliveryEvent::Received { batch: false }) is Stop,
        delivery_action(DeliveryEvent::Written { sent: false, more }) is Stop,
        delivery_action(DeliveryEvent::Flushed { sent: false }) is Stop,
{
}

/// PUBLISH frames of some messages, each a topic and a payload, one behind the other.
pub open spec fn publish_frames(messages: Seq<(Seq<u8>, Seq<u8>)>) -> Seq<u8>
    decreases messages.len(),
{
    if messages.len() == 0 {
        Seq::empty()
    } else {
        frame::publish_frame(messages[0].0, messages[0].1) + publish_frames(messages.drop_first())
    }
}

/// The payloads of those messages whose topic is read as that name, in order.
pub open spec fn payloads_named(
    messages: Seq<(Seq<u8>, Seq<u8>)>,
    name: Seq<char>,
) -> Seq<Seq<u8>>
    decreases messages.len(),
{
    if messages.len() == 0 {
        Seq::empty()
    } else {
        let later = payloads_named(messages.drop_first(), name);
        if buffers::lossy_text(messages[0].0) == name {
            seq![messages[0].1] + later
        } else {
            later
        }
    }
}

/// What a producer sends is what counts as published: the frames of some messages publish to a topic
/// just the payloads of the messages to that topic, whole, in order and however long they are. Each
/// message must fit the length field of its frame.
#[verifier::spinoff_prover]
pub proof fn law_frames_publish_their_messages(
    messages: Seq<(Seq<u8>, Seq<u8>)>,
    name: Seq<char>,
)
    requires
        forall|i: int|
            0 <= i < messages.len() ==> 3 + (#[trigger] messages[i]).0.len() + messages[i].1.len()
                <= 65535,
    ensures
        messages_for(frame::frames_of(publish_frames(messages)), name) == payloads_named(
            messages,
            name,
        ),
        frame::frames_of(publish_frames(messages)).len() == messages.len(),
        frame::remainder_of(publish_frames(messages)).len() == 0,
    decreases messages.len(),
{
    if messages.len() > 0 {
        let (topic, payload) = messages[0];
        let later = messages.drop_first();
        let rest = publish_frames(later);
        let s = publish_frames(messages);
        assert forall|i: int| 0 <= i < later.len() implies 3 + (#[trigger] later[i]).0.len()
            + later[i].1.len() <= 65535 by {
            assert(later[i] == messages[i + 1]);
        }
        law_frames_publish_their_messages(later, name);
        frame::law_publish_frame_publishes(topic, payload, rest);
        let f = frame::first_frame(s);
        assert(frame::frames_of(s) =~= seq![f] + frame::frames_of(rest));
        assert(frame::frame_len(s) > 2);
        lemma_single_frame(f, name);
        lemma_messages_join(seq![f], frame::frames_of(rest), name);
        assert(messages_for(frame::frames_of(s), name) =~= payloads_named(messages, name));
    }
}

/// From a producer's messages to a subscriber's frames: a connection opens with the body of a first
/// message and brings the frames of the others, read in whatever pieces. When it has ended with every
/// frame handled, and the batches of a topic are written in the order in which they were handed on, a
/// subscriber of the topic reads one data frame for each of these messages to its topic, with the
/// whole payload, in order.
#[verifier::spinoff_prover]
pub proof fn law_every_message_reaches_the_subscriber<S>(
    messages: Seq<(Seq<u8>, Seq<u8>)>,
    events: Seq<ConnectionEvent<S>>,
    topic: Arc<Topic<S>>,
)
    requires
        messages.len() > 0,
        forall|i: int|
            0 <= i < messages.len() ==> 5 + (#[trigger] messages[i]).0.len() + messages[i].1.len()
                <= 65535 && 5 + utf8::encode_utf8(topic.name@).len() + messages[i].1.len() <= 65535,
        received(events) == publish_frames(messages.drop_first()),
        looked_up_apart(events, topic),
        ({
            let c = connection_after(frame::topic_body(messages[0].0, messages[0].1), events);
            c.session.waiting is None && frame::frames_of(c.stream).len() == 0
        }),
    ensures
        ({
            let c = connection_after(frame::topic_body(messages[0].0, messages[0].1), events);
            let groups = c.flushed + grouped(c.session.pending);
            frame::frames_of(written_for(groups, topic.id)) == payloads_named(
                messages,
                topic.name@,
            ).map_values(
                |p: Seq<u8>|
                    FrameView {
                        msg_type: frame::MSG_SUBSCRIBE_DATA,
                        body: frame::data_body(utf8::encode_utf8(topic.name@), p),
                    },
            )
        }),
{
    let (t, payload) = messages[0];
    let body = frame::topic_body(t, payload);
    let f = FrameView { msg_type: MSG_PUBLISH, body };
    let later = messages.drop_first();
    let rest = frame::frames_of(received(events));
    let c = connection_after(body, events);
    assert forall|i: int| 0 <= i < later.len() implies 3 + (#[trigger] later[i]).0.len()
        + later[i].1.len() <= 65535 by {
        assert(later[i] == messages[i + 1]);
    }
    law_frames_publish_their_messages(later, topic.name@);
    frame::law_bodies_publish_what_they_carry(body);
    lemma_single_frame(f, topic.name@);
    lemma_messages_join(seq![f], rest, topic.name@);
    let all = messages_for(seq![f] + rest, topic.name@);
    assert(all =~= payloads_named(messages, topic.name@));
    lemma_connection(body, events, topic);
    assert(frame::remainder_of(c.stream) == c.stream);
    assert(!frame::has_frame(c.stream));
    lemma_named_payloads_fit(messages, topic.name@, utf8::encode_utf8(topic.name@).len());
    law_subscriber_reads_what_was_published(body, events, topic);
    assert(frame::data_frame_views(utf8::encode_utf8(topic.name@), all) =~= payloads_named(
        messages,
        topic.name@,
    ).map_values(
        |p: Seq<u8>|
            FrameView {
                msg_type: frame::MSG_SUBSCRIBE_DATA,
                body: frame::data_body(utf8::encode_utf8(topic.name@), p),
            },
    ));
}

proof fn lemma_named_payloads_fit(messages: Seq<(Seq<u8>, Seq<u8>)>, name: Seq<char>, n: nat)
    requires
        forall|i: int|
            0 <= i < messages.len() ==> 5 + n + (#[trigger] messages[i]).1.len() <= 65535,
    ensures
        forall|i: int|
            0 <= i < payloads_named(messages, name).len() ==> 5 + n + (#[trigger] payloads_named(
                messages,
                name,
            )[i]).len() <= 65535,
    decreases messages.len(),
{
    if messages.len() > 0 {
        let later = messages.drop_first();
        assert forall|i: int| 0 <= i < later.len() implies 5 + n + (#[trigger] later[i]).1.len()
            <= 65535 by {
            assert(later[i] == messages[i + 1]);
        }
        lemma_named_payloads_fit(later, name, n);
        let now = payloads_named(messages, name);
        let then = payloads_named(later, name);
        assert forall|i: int| 0 <= i < now.len() implies 5 + n + (#[trigger] now[i]).len()
            <= 65535 by {
            if buffers::lossy_text(messages[0].0) == name {
                if i == 0 {
                    assert(now[i] == messages[0].1);
                } else {
                    assert(now[i] == then[i - 1]);
                }
            } else {
                assert(now[i] == then[i]);
            }
        }
    }
}

/// Every publication is shown, in its place, with its topic and its payload, and every group with its
/// topic and the payloads of all its messages.
pub proof fn law_batches_are_shown_whole<S>(batch: Seq<Publication<S>>, groups: Seq<Group<S>>)
    ensures
        publications(batch).len() == batch.len(),
        forall|i: int|
            0 <= i < batch.len() ==> (#[trigger] publications(batch)[i]).topic == batch[i].topic
                && publications(batch)[i].payload == buffers::bytes_contents(
                *batch[i].message.payload,
            ),
        groups_view(groups).len() == groups.len(),
        forall|g: int|
            0 <= g < groups.len() ==> (#[trigger] groups_view(groups)[g]).topic == groups[g].topic
                && groups_view(groups)[g].payloads == frame::payloads(groups[g].messages@),
{
}

} // verus!
