//! A map from texts to texts.

use vstd::hash_map::StringHashMap;
use vstd::prelude::*;

verus! {

/// A map from texts to texts.
pub struct TextMap {
    texts: StringHashMap<String>,
}

impl View for TextMap {
    type V = Map<Seq<char>, Seq<char>>;

    closed spec fn view(&self) -> Map<Seq<char>, Seq<char>> {
        self.texts@.map_values(|value: String| value@)
    }
}

impl TextMap {
    /// A map without keys.
    pub fn new() -> (r: TextMap)
        ensures
            r@ == Map::<Seq<char>, Seq<char>>::empty(),
    {
        let r = TextMap { texts: StringHashMap::new() };
        assert(r@ == Map::<Seq<char>, Seq<char>>::empty());
        r
    }

    /// Whether the map has a key.
    pub fn contains_key(&self, key: &str) -> (r: bool)
        ensures
            r == self@.contains_key(key@),
    {
        self.texts.contains_key(key)
    }

    /// The text of a key.
    pub fn get(&self, key: &str) -> (r: Option<&String>)
        ensures
            match r {
                Some(value) => self@.contains_key(key@) && value@ == self@[key@],
                None => !self@.contains_key(key@),
            },
    {
        self.texts.get(key)
    }

    /// Gives a key a text, in place of the one that it had.
    pub fn insert(&mut self, key: String, value: String)
        ensures
            final(self)@ == old(self)@.insert(key@, value@),
    {
        let ghost wanted = self@.insert(key@, value@);
        self.texts.insert(key, value);
        assert(self@ == wanted);
    }

    /// Takes all keys out.
    pub fn clear(&mut self)
        ensures
            final(self)@ == Map::<Seq<char>, Seq<char>>::empty(),
    {
        self.texts.clear();
        assert(self@ == Map::<Seq<char>, Seq<char>>::empty());
    }
}

} // verus!
