//! A bus of named topics.

use crate::channel::constructors::channel;
use crate::channel::publisher::{Publisher, PublisherView};
use crate::channel::subscribable::Subscribable;
use crate::channel::subscriber::{Subscriber, SubscriberView};
use crate::pod::Pod;
use crate::ring::{fresh_ring, RingView, SharedRing};
use crate::slot::SEQ_LIMIT;
use crate::topics::{topic_numbers, TopicMap};
use vstd::prelude::*;

verus! {

/// One topic: a ring with its handles.
struct TopicEntry<T: Pod> {
    ring: SharedRing<T>,
    subscribable: Subscribable<T>,
    /// The publisher, until somebody takes it.
    publisher: Option<Publisher<T>>,
}

/// A publisher for each topic, and any number of subscribers. Each topic is a
/// ring of its own.
pub struct Photon<T: Pod> {
    topics: TopicMap,
    entries: Vec<TopicEntry<T>>,
    default_capacity: usize,
}

/// A topic as contracts see it.
#[verifier::ext_equal]
pub struct TopicView<T> {
    pub ring: RingView<T>,
    /// The publisher was taken.
    pub taken: bool,
}

/// A bus as contracts see it.
#[verifier::ext_equal]
pub struct PhotonView<T> {
    /// Ring size of new topics.
    pub capacity: nat,
    pub topics: Map<Seq<char>, TopicView<T>>,
}

impl<T: Pod> TopicEntry<T> {
    spec fn topic(&self) -> TopicView<T> {
        TopicView { ring: self.ring@, taken: self.publisher is None }
    }

    /// The ring is in order, and so is a publisher that nobody has taken yet.
    spec fn wf(&self) -> bool {
        &&& self.ring.wf()
        &&& self.publisher matches Some(p) ==> p.bound(self.ring@) && p@ == (PublisherView {
            seq: 0,
            cached_slowest: 0,
        })
    }
}

impl<T: Pod> View for Photon<T> {
    type V = PhotonView<T>;

    closed spec fn view(&self) -> PhotonView<T> {
        PhotonView {
            capacity: self.default_capacity as nat,
            topics: topic_numbers(self.topics).map_values(
                |number: usize| self.entries@[number as int].topic(),
            ),
        }
    }
}

impl<T> PhotonView<T> {
    /// A topic that nobody has used yet.
    pub open spec fn new_topic(self) -> TopicView<T> {
        TopicView { ring: fresh_ring::<T>(self.capacity, None, false), taken: false }
    }

    /// The topic under `name`, made if there is none.
    pub open spec fn topic(self, name: Seq<char>) -> TopicView<T> {
        if self.topics.contains_key(name) {
            self.topics[name]
        } else {
            self.new_topic()
        }
    }

    /// The bus with `topic` under `name`.
    pub open spec fn with_topic(self, name: Seq<char>, topic: TopicView<T>) -> Self {
        PhotonView { capacity: self.capacity, topics: self.topics.insert(name, topic) }
    }
}

impl<T: Pod> Photon<T> {
    /// Every name stands for a topic of its own.
    pub closed spec fn wf(&self) -> bool {
        let numbers = topic_numbers(self.topics);
        &&& forall|name: Seq<char>| #[trigger]
            numbers.contains_key(name) ==> numbers[name] < self.entries@.len()
        &&& forall|a: Seq<char>, b: Seq<char>|
            #![trigger numbers.contains_key(a), numbers.contains_key(b)]
            numbers.contains_key(a) && numbers.contains_key(b) && numbers[a] == numbers[b] ==> a
                == b
        &&& forall|i: int| 0 <= i < self.entries@.len() ==> (#[trigger] self.entries@[i]).wf()
    }

    /// A bus without topics. `capacity` is the ring size of each topic.
    pub fn new(capacity: usize) -> (bus: Self)
        ensures
            bus.wf(),
            bus@.capacity == capacity,
            bus@.topics == Map::<Seq<char>, TopicView<T>>::empty(),
    {
        let bus = Photon {
            topics: TopicMap::new(),
            entries: Vec::new(),
            default_capacity: capacity,
        };
        assert(bus@.topics =~= Map::<Seq<char>, TopicView<T>>::empty());
        bus
    }

    /// The number of a topic, which is made if there is none.
    fn entry(&mut self, topic: &str) -> (number: usize)
        requires
            old(self).wf(),
            2 <= old(self)@.capacity <= SEQ_LIMIT,
        ensures
            final(self).wf(),
            final(self)@ == old(self)@.with_topic(topic@, old(self)@.topic(topic@)),
            number < final(self).entries@.len(),
            topic_numbers(final(self).topics).contains_key(topic@),
            topic_numbers(final(self).topics)[topic@] == number,
    {
        match self.topics.get(topic) {
            Some(number) => {
                assert(self@.topics[topic@] == self@.topic(topic@));
                assert(self@ =~= old(self)@.with_topic(topic@, old(self)@.topic(topic@)));
                number
            },
            None => {
                let number: usize = self.entries.len();
                let (publisher, subscribable, ring) = channel::<T>(self.default_capacity);
                self.entries.push(
                    TopicEntry { ring, subscribable, publisher: Some(publisher) },
                );
                self.topics.insert(topic.to_owned(), number);
                proof {
                    let before = topic_numbers(old(self).topics);
                    let after = topic_numbers(self.topics);
                    assert forall|name: Seq<char>| #[trigger]
                        after.contains_key(name) implies after[name] < self.entries@.len() by {
                        if name != topic@ {
                            assert(before.contains_key(name));
                        }
                    }
                    assert forall|a: Seq<char>, b: Seq<char>|
                        #![trigger after.contains_key(a), after.contains_key(b)]
                        after.contains_key(a) && after.contains_key(b) && after[a]
                            == after[b] implies a == b by {
                        if a != topic@ {
                            assert(before.contains_key(a));
                        }
                        if b != topic@ {
                            assert(before.contains_key(b));
                        }
                    }
                    assert forall|i: int| 0 <= i < self.entries@.len() implies (
                    #[trigger] self.entries@[i]).wf() by {
                        if i < number {
                            assert(old(self).entries@[i].wf());
                        }
                    }
                    let expected = old(self)@.with_topic(topic@, old(self)@.topic(topic@));
                    assert forall|name: Seq<char>| self@.topics.contains_key(name) implies
                        #[trigger] self@.topics[name] == expected.topics[name] by {
                        if name != topic@ {
                            assert(before.contains_key(name));
                        }
                    }
                    assert(self@ =~= expected);
                }
                number
            },
        }
    }

    /// Take the publisher of a topic, if nobody has taken it yet. The topic is
    /// made if there is none.
    pub fn try_publisher(&mut self, topic: &str) -> (publisher: Option<Publisher<T>>)
        requires
            old(self).wf(),
            2 <= old(self)@.capacity <= SEQ_LIMIT,
        ensures
            final(self).wf(),
            publisher is Some == !old(self)@.topic(topic@).taken,
            publisher matches Some(p) ==> p.bound(final(self)@.topics[topic@].ring) && p@ == (
            PublisherView { seq: 0, cached_slowest: 0 }),
            final(self)@ == old(self)@.with_topic(
                topic@,
                TopicView { ring: old(self)@.topic(topic@).ring, taken: true },
            ),
    {
        let number: usize = self.entry(topic);
        let ghost made = *self;
        assert(self.entries@[number as int].wf());
        assert(made@.topics[topic@] == made.entries@[number as int].topic());
        let publisher = self.entries[number].publisher.take();
        proof {
            lemma_entry_changed(made, *self, topic@);
            assert(self@ =~= old(self)@.with_topic(
                topic@,
                TopicView { ring: old(self)@.topic(topic@).ring, taken: true },
            ));
        }
        publisher
    }

    /// Take the publisher of a topic. Nobody may have taken it yet. The topic is
    /// made if there is none.
    pub fn publisher(&mut self, topic: &str) -> (publisher: Publisher<T>)
        requires
            old(self).wf(),
            2 <= old(self)@.capacity <= SEQ_LIMIT,
            !old(self)@.topic(topic@).taken,
        ensures
            final(self).wf(),
            publisher.bound(final(self)@.topics[topic@].ring),
            publisher@ == (PublisherView { seq: 0, cached_slowest: 0 }),
            final(self)@ == old(self)@.with_topic(
                topic@,
                TopicView { ring: old(self)@.topic(topic@).ring, taken: true },
            ),
    {
        self.try_publisher(topic).unwrap()
    }

    /// A handle from which subscribers of a topic are made. The topic is made if
    /// there is none.
    pub fn subscribable(&mut self, topic: &str) -> (handle: Subscribable<T>)
        requires
            old(self).wf(),
            2 <= old(self)@.capacity <= SEQ_LIMIT,
        ensures
            final(self).wf(),
            final(self)@ == old(self)@.with_topic(topic@, old(self)@.topic(topic@)),
    {
        let number: usize = self.entry(topic);
        self.entries[number].subscribable.clone()
    }

    /// A subscriber of the future messages of a topic. The topic is made if
    /// there is none.
    pub fn subscribe(&mut self, topic: &str) -> (sub: Subscriber<T>)
        requires
            old(self).wf(),
            2 <= old(self)@.capacity <= SEQ_LIMIT,
        ensures
            final(self).wf(),
            sub@.bound(final(self)@.topics[topic@].ring),
            ({
                let ring = old(self)@.topic(topic@).ring;
                sub@ == SubscriberView::fresh(
                    ring.future(),
                    if ring.backpressure is Some {
                        Some(ring.cells.len() as int)
                    } else {
                        None
                    },
                )
            }),
            final(self)@ == old(self)@.with_topic(
                topic@,
                TopicView {
                    ring: old(self)@.topic(topic@).ring.registered(
                        old(self)@.topic(topic@).ring.future(),
                    ),
                    taken: old(self)@.topic(topic@).taken,
                },
            ),
    {
        let number: usize = self.entry(topic);
        let ghost made = *self;
        assert(self.entries@[number as int].wf());
        assert(made@.topics[topic@] == made.entries@[number as int].topic());
        let handle = self.entries[number].subscribable.clone();
        let sub = handle.subscribe(&mut self.entries[number].ring);
        proof {
            lemma_entry_changed(made, *self, topic@);
        }
        sub
    }
}

impl<T: Pod> Photon<T> {
    /// The ring of a topic, to look at it. The topic must exist.
    pub fn ring(&self, topic: &str) -> (ring: &SharedRing<T>)
        requires
            self.wf(),
            self@.topics.contains_key(topic@),
        ensures
            ring.wf(),
            ring@ == self@.topics[topic@].ring,
    {
        let number: usize = self.topics.get(topic).unwrap();
        proof {
            let numbers = topic_numbers(self.topics);
            assert(numbers.contains_key(topic@));
            assert(self.entries@[number as int].wf());
            assert(self@.topics[topic@] == self.entries@[number as int].topic());
        }
        &self.entries[number].ring
    }

    /// The ring of a topic, to publish to it or to read from it. The topic must
    /// exist. The bus stays in order if the ring does, and if nothing is
    /// published before the publisher is taken.
    pub fn ring_mut(&mut self, topic: &str) -> (ring: &mut SharedRing<T>)
        requires
            old(self).wf(),
            old(self)@.topics.contains_key(topic@),
        ensures
            ring.wf(),
            ring@ == old(self)@.topics[topic@].ring,
            final(self)@ == old(self)@.with_topic(
                topic@,
                TopicView {
                    ring: final(ring)@,
                    taken: old(self)@.topics[topic@].taken,
                },
            ),
            final(ring).wf() && (old(self)@.topics[topic@].taken || same_messages(
                old(self)@.topics[topic@].ring,
                final(ring)@,
            )) ==> final(self).wf(),
    {
        let number: usize = self.topics.get(topic).unwrap();
        proof {
            let numbers = topic_numbers(self.topics);
            assert(numbers.contains_key(topic@));
            assert(self.entries@[number as int].wf());
            assert(self@.topics[topic@] == self.entries@[number as int].topic());
        }
        &mut self.entries[number].ring
    }
}

/// The same messages are published on rings of the same make. Subscribers may come
/// and go.
pub open spec fn same_messages<T>(a: RingView<T>, b: RingView<T>) -> bool {
    &&& b.history == a.history
    &&& b.cursor == a.cursor
    &&& b.multi_producer == a.multi_producer
    &&& b.backpressure is Some == a.backpressure is Some
}

/// Subscribers of a topic come, read and go without a trace in its messages; a publication
/// leaves one.
pub proof fn lemma_same_messages<T>(
    ring: RingView<T>,
    start: nat,
    sub: SubscriberView,
    cell: int,
    value: T,
)
    ensures
        same_messages(ring, ring),
        same_messages(ring, ring.registered(start)),
        same_messages(ring, ring.watched(start)),
        same_messages(ring, sub.shown(ring)),
        same_messages(ring, ring.release(cell)),
        same_messages(ring, ring.prune()),
        !same_messages(ring, ring.publish(value)),
{
    assert(ring.publish(value).history.len() != ring.history.len());
}

/// A topic that nobody has used yet is a ring of the size of the bus, on which nothing
/// has happened, and whose publisher is still to be had. The size of a bus stays.
pub proof fn lemma_unused_topic<T>(bus: PhotonView<T>, name: Seq<char>, topic: TopicView<T>)
    ensures
        !bus.topics.contains_key(name) ==> {
            let made = bus.topic(name);
            &&& made.ring.capacity == bus.capacity
            &&& made.ring.next() == 0
            &&& made.ring.cursor is None
            &&& made.ring.cells.len() == 0
            &&& made.ring.backpressure is None
            &&& !made.ring.multi_producer
            &&& !made.taken
        },
        bus.topics.contains_key(name) ==> bus.topic(name) == bus.topics[name],
        bus.with_topic(name, topic).capacity == bus.capacity,
        bus.with_topic(name, topic).topics[name] == topic,
        forall|other: Seq<char>|
            bus.with_topic(name, topic).topics.contains_key(other) <==> #[trigger]
            bus.topics.contains_key(other) || other == name,
{
}

/// Topics do not mix: what is done to one of them leaves the others as they are,
/// and a topic is made by its first use only.
pub proof fn lemma_topics_do_not_mix<T>(
    bus: PhotonView<T>,
    name: Seq<char>,
    topic: TopicView<T>,
    other: Seq<char>,
)
    ensures
        bus.with_topic(name, topic).topic(name) == topic,
        other != name ==> bus.with_topic(name, topic).topic(other) == bus.topic(other),
        bus.topics.contains_key(name) ==> bus.with_topic(name, bus.topic(name)) == bus,
{
    if bus.topics.contains_key(name) {
        assert(bus.with_topic(name, bus.topic(name)).topics =~= bus.topics);
    }
}

/// Changing the entry of one topic leaves all other topics as they are.
proof fn lemma_entry_changed<T: Pod>(a: Photon<T>, b: Photon<T>, name: Seq<char>)
    requires
        a.wf(),
        topic_numbers(a.topics) == topic_numbers(b.topics),
        topic_numbers(a.topics).contains_key(name),
        a.default_capacity == b.default_capacity,
        ({
            let number = topic_numbers(a.topics)[name] as int;
            b.entries@ == a.entries@.update(number, b.entries@[number]) && b.entries@[number].wf()
        }),
    ensures
        b.wf(),
        b@ == a@.with_topic(
            name,
            b.entries@[topic_numbers(a.topics)[name] as int].topic(),
        ),
{
    let numbers = topic_numbers(a.topics);
    let number = numbers[name] as int;
    assert forall|i: int| 0 <= i < b.entries@.len() implies (#[trigger] b.entries@[i]).wf() by {
        if i != number {
            assert(a.entries@[i].wf());
        }
    }
    let expected = a@.with_topic(name, b.entries@[number].topic());
    assert forall|n: Seq<char>| b@.topics.contains_key(n) implies #[trigger] b@.topics[n]
        == expected.topics[n] by {
        assert(numbers.contains_key(n));
        if n != name {
            assert(numbers[n] != numbers[name]);
        }
    }
    assert(b@ =~= expected);
}

} // verus!
