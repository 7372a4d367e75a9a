//! A small set of texts kept in insertion order.
use crate::text::text_eq;
use vstd::prelude::*;

verus! {

/// A finite set of texts. The members are stored in the order in which they
/// were added, and no text is stored twice.
pub struct NameSet {
    items: Vec<String>,
}

impl View for NameSet {
    type V = Set<Seq<char>>;

    closed spec fn view(&self) -> Set<Seq<char>> {
        self.items.deep_view().to_set()
    }
}

/// Dropping the element at `at` from a sequence without duplicates removes
/// exactly that element from the set of its elements.
proof fn lemma_remove_at(names: Seq<Seq<char>>, at: int)
    requires
        names.no_duplicates(),
        0 <= at < names.len(),
    ensures
        names.remove(at).no_duplicates(),
        names.remove(at).to_set() == names.to_set().remove(names[at]),
{
    let rest = names.remove(at);
    assert forall|x: Seq<char>| rest.to_set().contains(x) <==> names.to_set().remove(
        names[at],
    ).contains(x) by {
        if rest.to_set().contains(x) {
            let j = choose|j: int| 0 <= j < rest.len() && rest[j] == x;
            if j < at {
                assert(names[j] == x);
            } else {
                assert(names[j + 1] == x);
            }
        }
        if names.to_set().remove(names[at]).contains(x) {
            let j = choose|j: int| 0 <= j < names.len() && names[j] == x;
            if j < at {
                assert(rest[j] == x);
            } else {
                assert(rest[j - 1] == x);
            }
        }
    }
    assert(rest.to_set() =~= names.to_set().remove(names[at]));
}

/// A list of names without its repetitions: of equal names only the first
/// stays, and the order is kept.
pub open spec fn first_occurrences(names: Seq<Seq<char>>) -> Seq<Seq<char>>
    decreases names.len(),
{
    if names.len() == 0 {
        names
    } else {
        let before = first_occurrences(names.drop_last());
        if before.contains(names.last()) {
            before
        } else {
            before.push(names.last())
        }
    }
}

/// Whether `after` is `before` without its entry `name`.
pub open spec fn taken_out(
    before: Seq<Seq<char>>,
    name: Seq<char>,
    after: Seq<Seq<char>>,
) -> bool {
    exists|at: int| 0 <= at < before.len() && #[trigger] before[at] == name && after == before.remove(at)
}

impl NameSet {
    #[verifier::type_invariant]
    spec fn distinct(&self) -> bool {
        self.items.deep_view().no_duplicates()
    }

    /// The members in the order in which they were added.
    pub closed spec fn in_order(&self) -> Seq<Seq<char>> {
        self.items.deep_view()
    }

    /// The empty set.
    pub fn new() -> (set: Self)
        ensures
            set@ == Set::<Seq<char>>::empty(),
            set.in_order() == Seq::<Seq<char>>::empty(),
    {
        let set = NameSet { items: Vec::new() };
        assert(set.items.deep_view() =~= Seq::<Seq<char>>::empty());
        assert(set@ =~= Set::<Seq<char>>::empty());
        set
    }

    /// The position at which `name` is stored, if it is a member.
    fn position(&self, name: &str) -> (at: Option<usize>)
        ensures
            at is Some <==> self@.contains(name@),
            at matches Some(i) ==> i < self.items.len() && self.items[i as int]@ == name@,
    {
        let mut i: usize = 0;
        while i < self.items.len()
            invariant
                i <= self.items.len(),
                forall|j: int| 0 <= j < i ==> self.items.deep_view()[j] != name@,
            decreases self.items.len() - i,
        {
            if text_eq(self.items[i].as_str(), name) {
                assert(self.items.deep_view()[i as int] == name@);
                return Some(i);
            }
            i += 1;
        }
        None
    }

    /// Whether `name` is a member.
    pub fn contains(&self, name: &str) -> (found: bool)
        ensures
            found == self@.contains(name@),
    {
        self.position(name).is_some()
    }

    /// Adds `name`. Returns whether the set changed, that is whether `name`
    /// was not a member before.
    pub fn insert(&mut self, name: String) -> (added: bool)
        ensures
            final(self)@ == old(self)@.insert(name@),
            added == !old(self)@.contains(name@),
            final(self).in_order() == if added {
                old(self).in_order().push(name@)
            } else {
                old(self).in_order()
            },
    {
        if self.contains(name.as_str()) {
            assert(self@.insert(name@) =~= self@);
            false
        } else {
            proof {
                use_type_invariant(&*self);
            }
            let mut items: Vec<String> = Vec::new();
            core::mem::swap(&mut items, &mut self.items);
            let ghost before = items.deep_view();
            items.push(name);
            assert(items.deep_view() =~= before.push(name@));
            proof {
                before.lemma_push_to_set_commute(name@);
            }
            self.items = items;
            true
        }
    }

    /// Removes `name`. Returns whether the set changed, that is whether
    /// `name` was a member before.
    pub fn remove(&mut self, name: &str) -> (removed: bool)
        ensures
            final(self)@ == old(self)@.remove(name@),
            removed == old(self)@.contains(name@),
            !removed ==> final(self).in_order() == old(self).in_order(),
            removed ==> taken_out(old(self).in_order(), name@, final(self).in_order()),
    {
        match self.position(name) {
            None => {
                assert(self@.remove(name@) =~= self@);
                false
            },
            Some(at) => {
                proof {
                    use_type_invariant(&*self);
                }
                let mut items: Vec<String> = Vec::new();
                core::mem::swap(&mut items, &mut self.items);
                let ghost before = items.deep_view();
                items.remove(at);
                assert(items.deep_view() =~= before.remove(at as int));
                proof {
                    lemma_remove_at(before, at as int);
                }
                self.items = items;
                assert(old(self).in_order() == before);
                assert(old(self).in_order()[at as int] == name@);
                assert(self.in_order() == old(self).in_order().remove(at as int));
                true
            },
        }
    }

    /// Removes every member. Returns whether the set changed.
    pub fn clear(&mut self) -> (changed: bool)
        ensures
            final(self)@ == Set::<Seq<char>>::empty(),
            final(self).in_order() == Seq::<Seq<char>>::empty(),
            changed == (old(self)@ != Set::<Seq<char>>::empty()),
    {
        let changed = self.items.len() > 0;
        proof {
            if changed {
                assert(self.items.deep_view()[0] == self.items[0]@);
                assert(self@.contains(self.items[0]@));
            } else {
                assert(self.items.deep_view() =~= Seq::<Seq<char>>::empty());
                assert(self@ =~= Set::<Seq<char>>::empty());
            }
        }
        let mut items: Vec<String> = Vec::new();
        core::mem::swap(&mut items, &mut self.items);
        assert(self.items.deep_view() =~= Seq::<Seq<char>>::empty());
        assert(self@ =~= Set::<Seq<char>>::empty());
        changed
    }

    /// The set of the given names, in the order of their first occurrence.
    pub fn from_names(names: &Vec<String>) -> (set: Self)
        ensures
            set@ == names.deep_view().to_set(),
            set.in_order() == first_occurrences(names.deep_view()),
    {
        let mut set = NameSet::new();
        let mut i: usize = 0;
        assert(names.deep_view().take(0) =~= Seq::<Seq<char>>::empty());
        while i < names.len()
            invariant
                i <= names.len(),
                set@ == names.deep_view().take(i as int).to_set(),
                set.in_order() == first_occurrences(names.deep_view().take(i as int)),
            decreases names.len() - i,
        {
            let ghost seen = names.deep_view().take(i as int);
            assert(names.deep_view().take(i + 1).drop_last() =~= seen);
            assert(names.deep_view().take(i + 1).last() == names[i as int]@);
            assert(names.deep_view().take(i + 1) =~= seen.push(names[i as int]@));
            proof {
                use_type_invariant(&set);
                seen.lemma_push_to_set_commute(names[i as int]@);
            }
            set.insert(names[i].clone());
            i += 1;
        }
        assert(names.deep_view().take(names.len() as int) =~= names.deep_view());
        set
    }

    /// The number of members. The stored order lists every member once.
    pub fn len(&self) -> (n: usize)
        ensures
            n == self@.len(),
            n == self.in_order().len(),
            self.in_order().no_duplicates(),
            self.in_order().to_set() == self@,
    {
        proof {
            use_type_invariant(self);
            self.items.deep_view().unique_seq_to_set();
        }
        self.items.len()
    }

    /// Whether the set has no member.
    pub fn is_empty(&self) -> (empty: bool)
        ensures
            empty == (self@ == Set::<Seq<char>>::empty()),
    {
        proof {
            if self.items.len() > 0 {
                assert(self.items.deep_view()[0] == self.items[0]@);
                assert(self@.contains(self.items[0]@));
            } else {
                assert(self.items.deep_view() =~= Seq::<Seq<char>>::empty());
                assert(self@ =~= Set::<Seq<char>>::empty());
            }
        }
        self.items.len() == 0
    }

    /// The member at position `at` of the stored order.
    pub fn get(&self, at: usize) -> (name: Option<&String>)
        ensures
            at < self.in_order().len() ==> name is Some && name->0@ == self.in_order()[at as int],
            at >= self.in_order().len() ==> name is None,
    {
        if at < self.items.len() {
            Some(&self.items[at])
        } else {
            None
        }
    }
}

} // verus!
