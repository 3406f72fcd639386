//! A bus whose topics carry messages of different types.
//!
//! The bus decides which topics exist, what type each one carries and whether
//! its publisher is taken. A topic is known by a number. Types are known by a
//! key, which is the same for the same type only.

use crate::channel::constructors::channel;
use crate::channel::publisher::{Publisher, PublisherView};
use crate::channel::subscribable::Subscribable;
use crate::pod::Pod;
use crate::ring::{fresh_ring, SharedRing};
use crate::slot::SEQ_LIMIT;
use crate::topics::{topic_numbers, TopicMap};
use vstd::prelude::*;

verus! {

/// What the bus knows of one topic.
struct TopicSlot {
    type_key: u64,
    /// The name of the type, for messages.
    label: String,
    /// The publisher was taken.
    taken: bool,
}

/// The topics of a bus.
pub struct TypedBus {
    topics: TopicMap,
    slots: Vec<TopicSlot>,
    default_capacity: usize,
}

/// A topic as contracts see it.
pub struct TypedTopicView {
    /// The number by which the topic is known.
    pub number: int,
    pub type_key: u64,
    pub label: Seq<char>,
    pub taken: bool,
}

/// A bus as contracts see it.
#[verifier::ext_equal]
pub struct TypedBusView {
    /// Ring size of new topics.
    pub capacity: nat,
    pub topics: Map<Seq<char>, TypedTopicView>,
    /// Number of topics.
    pub count: nat,
}

impl View for TypedBus {
    type V = TypedBusView;

    closed spec fn view(&self) -> TypedBusView {
        TypedBusView {
            capacity: self.default_capacity as nat,
            topics: topic_numbers(self.topics).map_values(
                |number: usize|
                    TypedTopicView {
                        number: number as int,
                        type_key: self.slots@[number as int].type_key,
                        label: self.slots@[number as int].label@,
                        taken: self.slots@[number as int].taken,
                    },
            ),
            count: self.slots@.len(),
        }
    }
}

impl TypedBusView {
    /// The topic under `name`, made for this type if there is none.
    pub open spec fn topic(self, name: Seq<char>, type_key: u64, label: Seq<char>) -> TypedTopicView {
        if self.topics.contains_key(name) {
            self.topics[name]
        } else {
            TypedTopicView { number: self.count as int, type_key, label, taken: false }
        }
    }

    /// There is no topic under `name` that carries another type.
    pub open spec fn accepts(self, name: Seq<char>, type_key: u64) -> bool {
        self.topics.contains_key(name) ==> self.topics[name].type_key == type_key
    }

    /// The bus with `topic` under `name`.
    pub open spec fn with_topic(self, name: Seq<char>, topic: TypedTopicView) -> Self {
        TypedBusView {
            capacity: self.capacity,
            topics: self.topics.insert(name, topic),
            count: if self.topics.contains_key(name) {
                self.count
            } else {
                self.count + 1
            },
        }
    }
}

impl TypedBus {
    /// Every name stands for a topic of its own.
    pub closed spec fn wf(&self) -> bool {
        let numbers = topic_numbers(self.topics);
        &&& forall|name: Seq<char>| #[trigger]
            numbers.contains_key(name) ==> numbers[name] < self.slots@.len()
        &&& forall|a: Seq<char>, b: Seq<char>|
            #![trigger numbers.contains_key(a), numbers.contains_key(b)]
            numbers.contains_key(a) && numbers.contains_key(b) && numbers[a] == numbers[b] ==> a
                == b
    }

    /// A bus without topics. `capacity` is the ring size of each topic.
    pub fn new(capacity: usize) -> (bus: Self)
        ensures
            bus.wf(),
            bus@.capacity == capacity,
            bus@.count == 0,
            bus@.topics.dom() == Set::<Seq<char>>::empty(),
    {
        let bus = TypedBus {
            topics: TopicMap::new(),
            slots: Vec::new(),
            default_capacity: capacity,
        };
        assert(bus@.topics.dom() =~= Set::<Seq<char>>::empty());
        bus
    }

    /// Ring size of new topics.
    pub fn capacity(&self) -> (capacity: usize)
        ensures
            capacity == self@.capacity,
    {
        self.default_capacity
    }

    /// The name of the type that a topic carries, if it is another type than the
    /// one with this key.
    pub fn other_type(&self, topic: &str, type_key: u64) -> (label: Option<String>)
        requires
            self.wf(),
        ensures
            label is None == self@.accepts(topic@, type_key),
            label is None <==> (self@.topics.contains_key(topic@) ==> self@.topics[topic@].type_key
                == type_key),
            label matches Some(text) ==> text@ == self@.topics[topic@].label,
    {
        match self.topics.get(topic) {
            Some(number) => {
                let slot = &self.slots[number];
                if slot.type_key != type_key {
                    Some(slot.label.clone())
                } else {
                    None
                }
            },
            None => None,
        }
    }

    /// The number of a topic, for whoever subscribes to it. The topic is made if
    /// there is none. It must not carry another type.
    pub fn subscribable(&mut self, topic: &str, type_key: u64, label: &str) -> (number: usize)
        requires
            old(self).wf(),
            old(self)@.accepts(topic@, type_key),
        ensures
            final(self).wf(),
            number == old(self)@.topic(topic@, type_key, label@).number,
            number < final(self)@.count,
            final(self)@.topics[topic@].type_key == type_key,
            final(self)@ == old(self)@.with_topic(
                topic@,
                old(self)@.topic(topic@, type_key, label@),
            ),
    {
        match self.topics.get(topic) {
            Some(number) => {
                assert(self@ =~= old(self)@.with_topic(
                    topic@,
                    old(self)@.topic(topic@, type_key, label@),
                ));
                number
            },
            None => {
                let number: usize = self.slots.len();
                self.slots.push(TopicSlot { type_key, label: label.to_owned(), taken: false });
                self.topics.insert(topic.to_owned(), number);
                proof {
                    let before = topic_numbers(old(self).topics);
                    let after = topic_numbers(self.topics);
                    assert forall|name: Seq<char>| #[trigger]
                        after.contains_key(name) implies after[name] < self.slots@.len() by {
                        if name != topic@ {
                            assert(before.contains_key(name));
                        }
                    }
                    assert forall|a: Seq<char>, b: Seq<char>|
                        #![trigger after.contains_key(a), after.contains_key(b)]
                        after.contains_key(a) && after.contains_key(b) && after[a]
                            == after[b] implies a == b by {
                        if a != topic@ {
                            assert(before.contains_key(a));
                        }
                        if b != topic@ {
                            assert(before.contains_key(b));
                        }
                    }
                    let expected = old(self)@.with_topic(
                        topic@,
                        old(self)@.topic(topic@, type_key, label@),
                    );
                    assert forall|name: Seq<char>| self@.topics.contains_key(name) implies
                        #[trigger] self@.topics[name] == expected.topics[name] by {
                        if name != topic@ {
                            assert(before.contains_key(name));
                        }
                    }
                    assert(self@ =~= expected);
                }
                number
            },
        }
    }

    /// Take the publisher of a topic, if nobody has taken it yet: the number of
    /// the topic. The topic is made if there is none. It must not carry another
    /// type.
    pub fn try_publisher(&mut self, topic: &str, type_key: u64, label: &str) -> (number: Option<
        usize,
    >)
        requires
            old(self).wf(),
            old(self)@.accepts(topic@, type_key),
        ensures
            final(self).wf(),
            number is None == old(self)@.topic(topic@, type_key, label@).taken,
            number matches Some(n) ==> n == old(self)@.topic(topic@, type_key, label@).number,
            final(self)@.topics[topic@].type_key == type_key,
            final(self)@.topics[topic@].taken,
            final(self)@ == old(self)@.with_topic(
                topic@,
                TypedTopicView {
                    taken: true,
                    ..old(self)@.topic(topic@, type_key, label@)
                },
            ),
    {
        let number: usize = self.subscribable(topic, type_key, label);
        let ghost made = *self;
        let ghost numbers = topic_numbers(self.topics);
        proof {
            assert(made@.topics.contains_key(topic@));
            assert(numbers.contains_key(topic@));
            assert(made@.topics[topic@].number == number);
        }
        let taken: bool = self.slots[number].taken;
        self.slots[number].taken = true;
        proof {
            let expected = old(self)@.with_topic(
                topic@,
                TypedTopicView { taken: true, ..old(self)@.topic(topic@, type_key, label@) },
            );
            assert forall|name: Seq<char>| self@.topics.contains_key(name) implies
                #[trigger] self@.topics[name] == expected.topics[name] by {
                assert(numbers.contains_key(name));
                if name != topic@ {
                    assert(numbers[name] != numbers[topic@]);
                    assert(made@.topics[name] == self@.topics[name]);
                    assert(made@.topics[name] == old(self)@.topics[name]);
                }
            }
            assert(self@ =~= expected);
        }
        if taken {
            None
        } else {
            Some(number)
        }
    }

    /// Take the publisher of a topic: the number of the topic. Nobody may have
    /// taken it yet. The topic is made if there is none. It must not carry
    /// another type.
    pub fn publisher(&mut self, topic: &str, type_key: u64, label: &str) -> (number: usize)
        requires
            old(self).wf(),
            old(self)@.accepts(topic@, type_key),
            !old(self)@.topic(topic@, type_key, label@).taken,
        ensures
            final(self).wf(),
            number == old(self)@.topic(topic@, type_key, label@).number,
            final(self)@.topics[topic@].type_key == type_key,
            final(self)@.topics[topic@].taken,
            final(self)@ == old(self)@.with_topic(
                topic@,
                TypedTopicView {
                    taken: true,
                    ..old(self)@.topic(topic@, type_key, label@)
                },
            ),
    {
        self.try_publisher(topic, type_key, label).unwrap()
    }
}

/// The handles of one topic: its publisher, until somebody takes it, and what its
/// subscribers are made from.
pub struct TopicChannel<T: Pod> {
    publisher: Option<Publisher<T>>,
    pub subscribable: Subscribable<T>,
    capacity: Ghost<nat>,
}

/// The handles of a topic as contracts see them.
pub struct TopicChannelView {
    /// Ring size of the topic.
    pub capacity: nat,
    /// The publisher was taken.
    pub taken: bool,
}

impl<T: Pod> View for TopicChannel<T> {
    type V = TopicChannelView;

    closed spec fn view(&self) -> TopicChannelView {
        TopicChannelView { capacity: self.capacity@, taken: self.publisher is None }
    }
}

/// A publisher that has published nothing yet, on a ring of this size.
pub open spec fn fresh_publisher<T: Pod>(publisher: Publisher<T>, capacity: nat) -> bool {
    &&& publisher@ == (PublisherView { seq: 0, cached_slowest: 0 })
    &&& publisher.bound(fresh_ring::<T>(capacity, None, false))
}

impl<T: Pod> TopicChannel<T> {
    /// As long as the publisher is here, it has published nothing.
    pub closed spec fn wf(&self) -> bool {
        self.publisher matches Some(publisher) ==> fresh_publisher(publisher, self.capacity@)
    }

    /// Take the publisher, if nobody has taken it yet. It has published nothing.
    pub fn take_publisher(&mut self) -> (publisher: Option<Publisher<T>>)
        requires
            old(self).wf(),
        ensures
            final(self).wf(),
            publisher is None == old(self)@.taken,
            publisher matches Some(p) ==> fresh_publisher(p, old(self)@.capacity),
            final(self)@ == (TopicChannelView { taken: true, ..old(self)@ }),
    {
        self.publisher.take()
    }
}

impl TypedBus {
    /// The ring of a new topic, of the size that the bus gives its rings, and the
    /// handles that go with it.
    pub fn new_channel<T: Pod>(&self) -> (r: (TopicChannel<T>, SharedRing<T>))
        requires
            2 <= self@.capacity <= SEQ_LIMIT,
        ensures
            r.0.wf(),
            r.0@ == (TopicChannelView { capacity: self@.capacity, taken: false }),
            r.1.wf(),
            r.1@ == fresh_ring::<T>(self@.capacity, None, false),
            r.1@.capacity == self@.capacity,
    {
        let (publisher, subscribable, ring) = channel::<T>(self.default_capacity);
        let ghost capacity = self@.capacity;
        (
            TopicChannel { publisher: Some(publisher), subscribable, capacity: Ghost(capacity) },
            ring,
        )
    }
}

/// Something that somebody does with a topic of a bus, knowing it as one of the type
/// with a key.
pub enum TopicUse {
    Subscribe { name: Seq<char>, type_key: u64, label: Seq<char> },
    Publish { name: Seq<char>, type_key: u64, label: Seq<char> },
}

impl TypedBusView {
    /// The bus after a use of a topic. What is refused changes nothing.
    pub open spec fn used(self, action: TopicUse) -> Self {
        match action {
            TopicUse::Subscribe { name, type_key, label } => if self.accepts(name, type_key) {
                self.with_topic(name, self.topic(name, type_key, label))
            } else {
                self
            },
            TopicUse::Publish { name, type_key, label } => if self.accepts(name, type_key) {
                self.with_topic(
                    name,
                    TypedTopicView { taken: true, ..self.topic(name, type_key, label) },
                )
            } else {
                self
            },
        }
    }

    /// The bus after a series of uses.
    pub open spec fn used_all(self, actions: Seq<TopicUse>) -> Self
        decreases actions.len(),
    {
        if actions.len() == 0 {
            self
        } else {
            self.used_all(actions.drop_last()).used(actions.last())
        }
    }
}

/// A topic keeps the type that it was made with, and its number and label, whatever
/// happens on the bus: whether its publisher is taken or not, it may be used as that
/// type and as no other. A publisher that was taken stays taken.
pub proof fn lemma_topic_keeps_its_type(
    bus: TypedBusView,
    actions: Seq<TopicUse>,
    name: Seq<char>,
    type_key: u64,
)
    requires
        bus.topics.contains_key(name),
    ensures
        ({
            let before = bus.topics[name];
            let after = bus.used_all(actions);
            &&& after.topics.contains_key(name)
            &&& after.topics[name].type_key == before.type_key
            &&& after.topics[name].number == before.number
            &&& after.topics[name].label == before.label
            &&& before.taken ==> after.topics[name].taken
            &&& after.accepts(name, type_key) <==> type_key == before.type_key
            &&& after.capacity == bus.capacity
        }),
    decreases actions.len(),
{
    if actions.len() > 0 {
        lemma_topic_keeps_its_type(bus, actions.drop_last(), name, type_key);
    }
}

/// A topic is made by its first use, for the type that it is first used as: a new
/// number, and a publisher that nobody has taken unless that first use takes it. A
/// name without a topic may be used as any type. A use of one name leaves the topics
/// of all other names as they are.
pub proof fn lemma_topic_is_made(
    bus: TypedBusView,
    name: Seq<char>,
    type_key: u64,
    label: Seq<char>,
    other: Seq<char>,
)
    requires
        !bus.topics.contains_key(name),
    ensures
        ({
            let heard = bus.used(TopicUse::Subscribe { name, type_key, label });
            let spoken = bus.used(TopicUse::Publish { name, type_key, label });
            &&& bus.accepts(name, type_key)
            &&& heard.topics.contains_key(name) && spoken.topics.contains_key(name)
            &&& heard.topics[name] == (TypedTopicView {
                number: bus.count as int,
                type_key,
                label,
                taken: false,
            })
            &&& spoken.topics[name] == (TypedTopicView { taken: true, ..heard.topics[name] })
            &&& heard.count == bus.count + 1 && spoken.count == bus.count + 1
            &&& other != name ==> {
                &&& heard.topics.contains_key(other) == bus.topics.contains_key(other)
                &&& spoken.topics.contains_key(other) == bus.topics.contains_key(other)
                &&& bus.topics.contains_key(other) ==> heard.topics[other] == bus.topics[other]
                    && spoken.topics[other] == bus.topics[other]
            }
        }),
{
}

/// A topic that exists is found as it is, whatever type and label are asked for. One that
/// does not exist would get the next number, the type and the label. A bus with a topic
/// put under a name has that topic there, and one more topic if there was none.
pub proof fn lemma_topic_found(
    bus: TypedBusView,
    name: Seq<char>,
    type_key: u64,
    label: Seq<char>,
    topic: TypedTopicView,
)
    ensures
        bus.topics.contains_key(name) ==> bus.topic(name, type_key, label) == bus.topics[name],
        !bus.topics.contains_key(name) ==> {
            let made = bus.topic(name, type_key, label);
            &&& made.number == bus.count
            &&& made.type_key == type_key
            &&& made.label == label
            &&& !made.taken
        },
        bus.with_topic(name, topic).topics == bus.topics.insert(name, topic),
        bus.with_topic(name, topic).capacity == bus.capacity,
        bus.with_topic(name, topic).count - bus.count == if bus.topics.contains_key(name) {
            0int
        } else {
            1int
        },
{
}

/// A publisher is handed out once: after the first use that takes it, the topic says
/// so, and uses that only subscribe never take it.
pub proof fn lemma_publisher_taken_once(
    bus: TypedBusView,
    name: Seq<char>,
    type_key: u64,
    label: Seq<char>,
)
    requires
        bus.topics.contains_key(name),
        bus.topics[name].type_key == type_key,
    ensures
        bus.topic(name, type_key, label).taken == bus.topics[name].taken,
        bus.used(TopicUse::Publish { name, type_key, label }).topic(name, type_key, label).taken,
        bus.used(TopicUse::Subscribe { name, type_key, label }) == bus,
        bus.used(TopicUse::Publish { name, type_key, label }).count == bus.count,
{
    assert(bus.used(TopicUse::Subscribe { name, type_key, label }) =~= bus);
}

/// Whoever subscribes to a topic before its publisher is taken misses nothing: the
/// subscriber starts at the message that the publisher publishes first, and leaves
/// the ring as it is.
pub proof fn lemma_early_subscriber<T: Pod>(publisher: Publisher<T>, capacity: nat)
    requires
        fresh_publisher(publisher, capacity),
    ensures
        ({
            let ring = fresh_ring::<T>(capacity, None, false);
            &&& ring.capacity == capacity
            &&& ring.future() == publisher@.seq == ring.next()
            &&& ring.registered(ring.future()) == ring
            &&& publisher.bound(ring)
        }),
        publisher@.seq == 0,
        publisher@.cached_slowest == 0,
{
}

/// Topics of different names are different topics.
pub proof fn lemma_topics_apart(bus: TypedBus, a: Seq<char>, b: Seq<char>)
    requires
        bus.wf(),
        bus@.topics.contains_key(a),
        bus@.topics.contains_key(b),
        a != b,
    ensures
        bus@.topics[a].number != bus@.topics[b].number,
        0 <= bus@.topics[a].number < bus@.count,
{
    let numbers = topic_numbers(bus.topics);
    assert(numbers.contains_key(a));
    assert(numbers.contains_key(b));
}

/// What is reported when a topic carries another type.
pub fn mismatch_text(topic: &str, existing: &str, requested: &str) -> (text: String)
    ensures
        text@ == "topic '"@ + topic@ + "' exists with type '"@ + existing@
            + "', cannot access as '"@ + requested@ + "'"@,
{
    let mut text = "topic '".to_owned();
    text.append(topic);
    text.append("' exists with type '");
    text.append(existing);
    text.append("', cannot access as '");
    text.append(requested);
    text.append("'");
    text
}

/// What is reported when a publisher is taken a second time.
pub fn taken_text(topic: &str) -> (text: String)
    ensures
        text@ == "publisher already taken for topic '"@ + topic@ + "'"@,
{
    let mut text = "publisher already taken for topic '".to_owned();
    text.append(topic);
    text.append("'");
    text
}

} // verus!
