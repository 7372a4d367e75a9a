//! The keys that are held down at the moment.
use crate::name_set::{taken_out, NameSet};
use vstd::prelude::*;

verus! {

/// The set of key identifiers that are currently held down. A key is a
/// member from the moment its key-down was seen until its key-up, or a
/// reset, is seen.
pub struct PressedKeys {
    held: NameSet,
}

impl View for PressedKeys {
    type V = Set<Seq<char>>;

    closed spec fn view(&self) -> Set<Seq<char>> {
        self.held@
    }
}

impl PressedKeys {
    /// The keys in the order in which they went down.
    pub closed spec fn in_order(&self) -> Seq<Seq<char>> {
        self.held.in_order()
    }

    /// No key is held.
    pub fn new() -> (keys: Self)
        ensures
            keys@ == Set::<Seq<char>>::empty(),
            keys.in_order() == Seq::<Seq<char>>::empty(),
    {
        PressedKeys { held: NameSet::new() }
    }

    /// Records that `key` went down. Returns whether the set changed:
    /// pressing a key that is already held changes nothing.
    pub fn press(&mut self, key: String) -> (changed: bool)
        ensures
            final(self)@ == old(self)@.insert(key@),
            changed == !old(self)@.contains(key@),
            final(self).in_order() == if changed {
                old(self).in_order().push(key@)
            } else {
                old(self).in_order()
            },
    {
        self.held.insert(key)
    }

    /// Records that `key` went up. Returns whether the set changed:
    /// releasing a key that is not held changes nothing.
    pub fn release(&mut self, key: &str) -> (changed: bool)
        ensures
            final(self)@ == old(self)@.remove(key@),
            changed == old(self)@.contains(key@),
            !changed ==> final(self).in_order() == old(self).in_order(),
            changed ==> taken_out(old(self).in_order(), key@, final(self).in_order()),
    {
        self.held.remove(key)
    }

    /// Forgets every held key. Returns whether the set changed.
    pub fn reset(&mut self) -> (changed: bool)
        ensures
            final(self)@ == Set::<Seq<char>>::empty(),
            final(self).in_order() == Seq::<Seq<char>>::empty(),
            changed == (old(self)@ != Set::<Seq<char>>::empty()),
    {
        self.held.clear()
    }

    /// Whether `key` is held.
    pub fn is_pressed(&self, key: &str) -> (held: bool)
        ensures
            held == self@.contains(key@),
    {
        self.held.contains(key)
    }

    /// The number of held keys. The order in which they went down lists
    /// every held key once.
    pub fn len(&self) -> (n: usize)
        ensures
            n == self@.len(),
            n == self.in_order().len(),
            self.in_order().no_duplicates(),
            self.in_order().to_set() == self@,
    {
        self.held.len()
    }

    /// Whether no key is held.
    pub fn is_empty(&self) -> (empty: bool)
        ensures
            empty == (self@ == Set::<Seq<char>>::empty()),
    {
        self.held.is_empty()
    }

    /// The held key at position `at`, counting in the order in which the
    /// keys went down.
    pub fn get(&self, at: usize) -> (key: Option<&String>)
        ensures
            at < self.in_order().len() ==> key is Some && key->0@ == self.in_order()[at as int],
            at >= self.in_order().len() ==> key is None,
    {
        self.held.get(at)
    }
}

} // verus!
