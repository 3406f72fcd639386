//! Topic names and the numbers behind them.

use hashbrown::HashMap;
use vstd::prelude::*;

verus! {

/// A map from topic names to numbers, held in a `hashbrown::HashMap`.
#[verifier::external_body]
pub struct TopicMap {
    map: HashMap<String, usize>,
}

/// What a topic map holds.
pub uninterp spec fn topic_numbers(map: TopicMap) -> Map<Seq<char>, usize>;

impl TopicMap {
    /// Calls `hashbrown::HashMap::new`, which makes an empty map.
    #[verifier::external_body]
    pub(crate) fn new() -> (fresh: TopicMap)
        ensures
            topic_numbers(fresh).dom() == Set::<Seq<char>>::empty(),
    {
        TopicMap { map: HashMap::new() }
    }

    /// Calls `hashbrown::HashMap::get`, which looks for the entry whose key equals
    /// the name. Names are equal if they have the same characters.
    #[verifier::external_body]
    pub(crate) fn get(&self, name: &str) -> (number: Option<usize>)
        ensures
            number == (if topic_numbers(*self).contains_key(name@) {
                Some(topic_numbers(*self)[name@])
            } else {
                None
            }),
    {
        self.map.get(name).copied()
    }

    /// Calls `hashbrown::HashMap::insert`, which adds an entry or replaces the
    /// one with an equal key.
    #[verifier::external_body]
    pub(crate) fn insert(&mut self, name: String, number: usize)
        ensures
            topic_numbers(*final(self)) == topic_numbers(*old(self)).insert(name@, number),
    {
        self.map.insert(name, number);
    }
}

} // verus!
