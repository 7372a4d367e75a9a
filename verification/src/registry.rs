//! The registered bindings, and which of them fire in a given state.
use crate::binding::{Binding, BindingView};
use crate::pressed::PressedKeys;
use crate::scopes::ScopeSet;
use vstd::prelude::*;

verus! {

/// Names one registration of a binding. Every registration gets a handle
/// that no other registration of the same registry ever gets.
#[derive(Clone, Copy, Debug, PartialEq, Eq, Hash, Structural)]
pub struct BindingHandle {
    id: u64,
}

/// One binding that fired: its handle, and the keys whose default action is
/// to be suppressed.
#[derive(Debug, PartialEq, Eq)]
pub struct Firing {
    pub handle: BindingHandle,
    pub keys: Vec<String>,
}

/// The mathematical content of a [`Firing`].
pub struct FiringView {
    pub handle: BindingHandle,
    pub keys: Seq<Seq<char>>,
}

impl View for Firing {
    type V = FiringView;

    open spec fn view(&self) -> FiringView {
        FiringView { handle: self.handle, keys: self.keys.deep_view() }
    }
}

impl DeepView for Firing {
    type V = FiringView;

    open spec fn deep_view(&self) -> FiringView {
        self@
    }
}

/// A registered binding, as the registry's model lists it: the handle, then
/// the binding.
pub type Entry<C> = (BindingHandle, BindingView<C>);

/// What one registered binding contributes in the given state: its firing,
/// if it fires.
pub open spec fn firing_of<C>(
    entry: Entry<C>,
    pressed: Set<Seq<char>>,
    active: Set<Seq<char>>,
) -> Option<FiringView> {
    match entry.1.fires(pressed, active) {
        Some(keys) => Some(FiringView { handle: entry.0, keys }),
        None => None,
    }
}

/// The bindings among `entries` that fire in the given state, in the order
/// of `entries`.
pub open spec fn firings<C>(
    entries: Seq<Entry<C>>,
    pressed: Set<Seq<char>>,
    active: Set<Seq<char>>,
) -> Seq<FiringView>
    decreases entries.len(),
{
    if entries.len() == 0 {
        Seq::empty()
    } else {
        let before = firings(entries.drop_last(), pressed, active);
        match firing_of(entries.last(), pressed, active) {
            Some(firing) => before.push(firing),
            None => before,
        }
    }
}

/// `entries` without the entries under `handle`, in the same order.
pub open spec fn without<C>(entries: Seq<Entry<C>>, handle: BindingHandle) -> Seq<Entry<C>>
    decreases entries.len(),
{
    if entries.len() == 0 {
        entries
    } else {
        let before = without(entries.drop_last(), handle);
        if entries.last().0 == handle {
            before
        } else {
            before.push(entries.last())
        }
    }
}

/// Whether an entry under `handle` is among `entries`.
pub open spec fn has_handle<C>(entries: Seq<Entry<C>>, handle: BindingHandle) -> bool {
    exists|i: int| 0 <= i < entries.len() && (#[trigger] entries[i]).0 == handle
}

/// Removing a handle that no entry has changes nothing.
pub proof fn lemma_without_absent<C>(entries: Seq<Entry<C>>, handle: BindingHandle)
    requires
        !has_handle(entries, handle),
    ensures
        without(entries, handle) == entries,
    decreases entries.len(),
{
    if entries.len() > 0 {
        assert(entries[entries.len() - 1].0 != handle);
        assert forall|i: int| 0 <= i < entries.drop_last().len() implies (
        #[trigger] entries.drop_last()[i]).0 != handle by {
            assert(entries[i].0 != handle);
        }
        lemma_without_absent(entries.drop_last(), handle);
        assert(entries.drop_last().push(entries.last()) =~= entries);
    }
}

/// Where exactly one entry has the handle, removing the handle removes
/// that entry.
proof fn lemma_without_at<C>(entries: Seq<Entry<C>>, handle: BindingHandle, at: int)
    requires
        0 <= at < entries.len(),
        entries[at].0 == handle,
        forall|i: int| 0 <= i < entries.len() && i != at ==> (#[trigger] entries[i]).0 != handle,
    ensures
        without(entries, handle) == entries.remove(at),
    decreases entries.len(),
{
    let front = entries.drop_last();
    if at == entries.len() - 1 {
        assert forall|i: int| 0 <= i < front.len() implies (#[trigger] front[i]).0 != handle by {
            assert(entries[i].0 != handle);
        }
        lemma_without_absent(front, handle);
        assert(entries.remove(at) =~= front);
    } else {
        assert(entries[entries.len() - 1].0 != handle);
        assert forall|i: int| 0 <= i < front.len() && i != at implies (#[trigger] front[i]).0
            != handle by {
            assert(entries[i].0 != handle);
        }
        lemma_without_at(front, handle, at);
        assert(front.remove(at).push(entries.last()) =~= entries.remove(at));
    }
}

struct Registered<C> {
    handle: BindingHandle,
    binding: Binding<C>,
}

/// The registered bindings, in the order of their registration.
pub struct BindingRegistry<C> {
    entries: Vec<Registered<C>>,
    next: u64,
}

impl<C> View for BindingRegistry<C> {
    type V = Seq<Entry<C>>;

    closed spec fn view(&self) -> Seq<Entry<C>> {
        Seq::new(
            self.entries.len() as nat,
            |i: int| (self.entries[i].handle, self.entries[i].binding@),
        )
    }
}

impl<C> BindingRegistry<C> {
    #[verifier::type_invariant]
    spec fn ordered(&self) -> bool {
        &&& forall|i: int|
            0 <= i < self.entries.len() ==> (#[trigger] self.entries[i]).handle.id < self.next
        &&& forall|i: int, j: int|
            0 <= i < j < self.entries.len() ==> (#[trigger] self.entries[i]).handle.id < (
            #[trigger] self.entries[j]).handle.id
    }

    /// How many handles the registry has given out.
    pub closed spec fn issued(&self) -> nat {
        self.next as nat
    }

    /// Whether the registry can still give out a handle.
    pub open spec fn has_room(&self) -> bool {
        self.issued() < u64::MAX
    }

    /// A registry without bindings.
    pub fn new() -> (registry: Self)
        ensures
            registry@ == Seq::<Entry<C>>::empty(),
            registry.issued() == 0,
    {
        let registry = BindingRegistry { entries: Vec::new(), next: 0 };
        assert(registry@ =~= Seq::<Entry<C>>::empty());
        registry
    }

    /// Whether another binding can be registered.
    pub fn can_register(&self) -> (room: bool)
        ensures
            room == self.has_room(),
    {
        self.next < u64::MAX
    }

    /// The number of registered bindings.
    pub fn len(&self) -> (n: usize)
        ensures
            n == self@.len(),
    {
        self.entries.len()
    }

    /// Registers `binding` behind all registered bindings and returns its
    /// handle, which no binding of this registry had before.
    pub fn register(&mut self, binding: Binding<C>) -> (handle: BindingHandle)
        requires
            old(self).has_room(),
        ensures
            final(self)@ == old(self)@.push((handle, binding@)),
            !has_handle(old(self)@, handle),
            final(self).issued() == old(self).issued() + 1,
    {
        proof {
            use_type_invariant(&*self);
        }
        let handle = BindingHandle { id: self.next };
        let ghost before = self@;
        assert forall|i: int| 0 <= i < before.len() implies (#[trigger] before[i]).0 != handle by {
            assert(self.entries[i].handle.id < self.next);
        }
        let mut entries: Vec<Registered<C>> = Vec::new();
        core::mem::swap(&mut entries, &mut self.entries);
        entries.push(Registered { handle, binding });
        let next = self.next + 1;
        *self = BindingRegistry { entries, next };
        assert(self@ =~= before.push((handle, binding@)));
        handle
    }

    /// The position of the binding under `handle`, if there is one.
    fn position(&self, handle: BindingHandle) -> (at: Option<usize>)
        ensures
            at is Some <==> has_handle(self@, handle),
            at matches Some(i) ==> i < self.entries.len() && self.entries[i as int].handle
                == handle,
    {
        let mut i: usize = 0;
        while i < self.entries.len()
            invariant
                i <= self.entries.len(),
                forall|j: int| 0 <= j < i ==> (#[trigger] self@[j]).0 != handle,
            decreases self.entries.len() - i,
        {
            if self.entries[i].handle.id == handle.id {
                assert(self@[i as int].0 == handle);
                return Some(i);
            }
            i += 1;
        }
        None
    }

    /// Removes the binding under `handle` and returns it. A handle under
    /// which nothing is registered, or no longer, changes nothing.
    pub fn unregister(&mut self, handle: BindingHandle) -> (removed: Option<Binding<C>>)
        ensures
            final(self)@ == without(old(self)@, handle),
            final(self).issued() == old(self).issued(),
            removed is Some <==> has_handle(old(self)@, handle),
            removed matches Some(binding) ==> exists|at: int|
                0 <= at < old(self)@.len() && #[trigger] old(self)@[at] == (handle, binding@)
                    && final(self)@ == old(self)@.remove(at),
    {
        proof {
            use_type_invariant(&*self);
        }
        let ghost before = self@;
        match self.position(handle) {
            None => {
                proof {
                    lemma_without_absent(before, handle);
                }
                None
            },
            Some(at) => {
                let mut entries: Vec<Registered<C>> = Vec::new();
                core::mem::swap(&mut entries, &mut self.entries);
                let ghost stored = entries@;
                let entry = entries.remove(at);
                let next = self.next;
                *self = BindingRegistry { entries, next };
                proof {
                    assert forall|i: int| 0 <= i < before.len() && i != at implies (
                    #[trigger] before[i]).0 != handle by {
                        if i < at {
                            assert(stored[i].handle.id < stored[at as int].handle.id);
                        } else {
                            assert(stored[at as int].handle.id < stored[i].handle.id);
                        }
                    }
                    lemma_without_at(before, handle, at as int);
                    assert(self@ =~= before.remove(at as int));
                    assert(before[at as int] == (handle, entry.binding@));
                }
                Some(entry.binding)
            },
        }
    }

    /// The binding under `handle`, if there is one.
    pub fn get(&self, handle: BindingHandle) -> (binding: Option<&Binding<C>>)
        ensures
            binding is Some <==> has_handle(self@, handle),
            binding matches Some(found) ==> exists|at: int|
                0 <= at < self@.len() && #[trigger] self@[at] == (handle, found@),
    {
        match self.position(handle) {
            None => None,
            Some(at) => {
                assert(self@[at as int] == (handle, self.entries[at as int].binding@));
                Some(&self.entries[at].binding)
            },
        }
    }

    /// Decides which bindings fire while `pressed_keyset` are the held keys
    /// and `active_scopes` the active scopes. All that qualify fire, in the
    /// order of their registration.
    pub fn evaluate(&self, pressed_keyset: &PressedKeys, active_scopes: &ScopeSet) -> (fired: Vec<
        Firing,
    >)
        ensures
            fired.deep_view() == firings(self@, pressed_keyset@, active_scopes@),
    {
        let mut fired: Vec<Firing> = Vec::new();
        let mut i: usize = 0;
        assert(self@.take(0) =~= Seq::<Entry<C>>::empty());
        assert(fired.deep_view() =~= Seq::<FiringView>::empty());
        while i < self.entries.len()
            invariant
                i <= self.entries.len(),
                fired.deep_view() == firings(
                    self@.take(i as int),
                    pressed_keyset@,
                    active_scopes@,
                ),
            decreases self.entries.len() - i,
        {
            assert(self@.take(i + 1).drop_last() =~= self@.take(i as int));
            assert(self@.take(i + 1).last() == (
                self.entries[i as int].handle,
                self.entries[i as int].binding@,
            ));
            match self.entries[i].binding.evaluate(pressed_keyset, active_scopes) {
                None => {},
                Some(keys) => {
                    let ghost before = fired.deep_view();
                    let firing = Firing { handle: self.entries[i].handle, keys };
                    fired.push(firing);
                    assert(fired.deep_view() =~= before.push(firing@));
                },
            }
            i += 1;
        }
        assert(self@.take(self.entries.len() as int) =~= self@);
        fired
    }
}

} // verus!
