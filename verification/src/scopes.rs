//! The scopes that are active at the moment.
use crate::name_set::{first_occurrences, taken_out, NameSet};
use vstd::prelude::*;

verus! {

/// The set of scope names that are active. Any text is a scope name.
pub struct ScopeSet {
    active: NameSet,
}

impl View for ScopeSet {
    type V = Set<Seq<char>>;

    closed spec fn view(&self) -> Set<Seq<char>> {
        self.active@
    }
}

impl ScopeSet {
    /// The scopes in the order in which they became active.
    pub closed spec fn in_order(&self) -> Seq<Seq<char>> {
        self.active.in_order()
    }

    /// No scope is active.
    pub fn new() -> (scopes: Self)
        ensures
            scopes@ == Set::<Seq<char>>::empty(),
            scopes.in_order() == Seq::<Seq<char>>::empty(),
    {
        ScopeSet { active: NameSet::new() }
    }

    /// The scopes named in `names` are active, and no others.
    pub fn from_names(names: &Vec<String>) -> (scopes: Self)
        ensures
            scopes@ == names.deep_view().to_set(),
            scopes.in_order() == first_occurrences(names.deep_view()),
    {
        ScopeSet { active: NameSet::from_names(names) }
    }

    /// Makes `scope` active. Returns whether the set changed: enabling an
    /// active scope changes nothing.
    pub fn enable(&mut self, scope: String) -> (changed: bool)
        ensures
            final(self)@ == old(self)@.insert(scope@),
            changed == !old(self)@.contains(scope@),
            final(self).in_order() == if changed {
                old(self).in_order().push(scope@)
            } else {
                old(self).in_order()
            },
    {
        self.active.insert(scope)
    }

    /// Makes `scope` inactive. Returns whether the set changed: disabling an
    /// inactive scope changes nothing.
    pub fn disable(&mut self, scope: &str) -> (changed: bool)
        ensures
            final(self)@ == old(self)@.remove(scope@),
            changed == old(self)@.contains(scope@),
            !changed ==> final(self).in_order() == old(self).in_order(),
            changed ==> taken_out(old(self).in_order(), scope@, final(self).in_order()),
    {
        self.active.remove(scope)
    }

    /// Disables `scope` if it is active and enables it otherwise. Returns
    /// whether it is active afterwards.
    pub fn toggle(&mut self, scope: String) -> (now_active: bool)
        ensures
            now_active == !old(self)@.contains(scope@),
            now_active ==> final(self)@ == old(self)@.insert(scope@),
            !now_active ==> final(self)@ == old(self)@.remove(scope@),
            now_active ==> final(self).in_order() == old(self).in_order().push(scope@),
            !now_active ==> taken_out(old(self).in_order(), scope@, final(self).in_order()),
    {
        if self.active.contains(scope.as_str()) {
            self.active.remove(scope.as_str());
            false
        } else {
            self.active.insert(scope);
            true
        }
    }

    /// Whether `scope` is active.
    pub fn is_active(&self, scope: &str) -> (active: bool)
        ensures
            active == self@.contains(scope@),
    {
        self.active.contains(scope)
    }

    /// The number of active scopes. The order in which they became active
    /// lists every active scope once.
    pub fn len(&self) -> (n: usize)
        ensures
            n == self@.len(),
            n == self.in_order().len(),
            self.in_order().no_duplicates(),
            self.in_order().to_set() == self@,
    {
        self.active.len()
    }

    /// Whether no scope is active.
    pub fn is_empty(&self) -> (empty: bool)
        ensures
            empty == (self@ == Set::<Seq<char>>::empty()),
    {
        self.active.is_empty()
    }

    /// The active scope at position `at`, counting in the order in which
    /// the scopes became active.
    pub fn get(&self, at: usize) -> (scope: Option<&String>)
        ensures
            at < self.in_order().len() ==> scope is Some && scope->0@ == self.in_order()[
                at as int
            ],
            at >= self.in_order().len() ==> scope is None,
    {
        self.active.get(at)
    }
}

} // verus!
