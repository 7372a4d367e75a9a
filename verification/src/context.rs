//! The engine's state and its reactions to key events and scope changes.
use crate::binding::{Binding, BindingView};
use crate::hotkey::Hotkey;
use crate::pressed::PressedKeys;
use crate::registry::{
    firings, has_handle, without, BindingHandle, BindingRegistry, Entry, Firing, FiringView,
};
use crate::scopes::ScopeSet;
use crate::text::{lowercase_of, normalize_key};
use vstd::prelude::*;

verus! {

/// The mathematical content of a [`HotkeysContext`].
pub struct ContextView<C> {
    /// The keys that are held.
    pub pressed: Set<Seq<char>>,
    /// The scopes that are active.
    pub scopes: Set<Seq<char>>,
    /// The registered bindings, in the order of their registration.
    pub bindings: Seq<Entry<C>>,
    /// Whether losing focus releases every key.
    pub allow_blur_reset: bool,
}

impl<C> ContextView<C> {
    /// The bindings that fire in this state, in the order of their
    /// registration.
    pub open spec fn fired(self) -> Seq<FiringView> {
        firings(self.bindings, self.pressed, self.scopes)
    }

    /// What fires on the step from this state to `next`: if the held keys
    /// or the active scopes changed, whatever fires in `next`; if neither
    /// did, nothing.
    pub open spec fn fired_on_step_to(self, next: ContextView<C>) -> Seq<FiringView> {
        if next.pressed != self.pressed || next.scopes != self.scopes {
            next.fired()
        } else {
            Seq::empty()
        }
    }

    /// The state after `key` went down.
    pub open spec fn press(self, key: Seq<char>) -> ContextView<C> {
        ContextView { pressed: self.pressed.insert(key), ..self }
    }

    /// The state after `key` went up.
    pub open spec fn release(self, key: Seq<char>) -> ContextView<C> {
        ContextView { pressed: self.pressed.remove(key), ..self }
    }

    /// The state after every key was released.
    pub open spec fn reset(self) -> ContextView<C> {
        ContextView { pressed: Set::empty(), ..self }
    }

    /// The state after focus was lost.
    pub open spec fn blur(self) -> ContextView<C> {
        if self.allow_blur_reset {
            self.reset()
        } else {
            self
        }
    }

    /// The state after `scope` was enabled.
    pub open spec fn enable_scope(self, scope: Seq<char>) -> ContextView<C> {
        ContextView { scopes: self.scopes.insert(scope), ..self }
    }

    /// The state after `scope` was disabled.
    pub open spec fn disable_scope(self, scope: Seq<char>) -> ContextView<C> {
        ContextView { scopes: self.scopes.remove(scope), ..self }
    }

    /// The state after `scope` was toggled.
    pub open spec fn toggle_scope(self, scope: Seq<char>) -> ContextView<C> {
        if self.scopes.contains(scope) {
            self.disable_scope(scope)
        } else {
            self.enable_scope(scope)
        }
    }

    /// The state after `binding` was registered under `handle`.
    pub open spec fn register(self, handle: BindingHandle, binding: BindingView<C>) -> ContextView<
        C,
    > {
        ContextView { bindings: self.bindings.push((handle, binding)), ..self }
    }

    /// The state after `handle` was unregistered.
    pub open spec fn unregister(self, handle: BindingHandle) -> ContextView<C> {
        ContextView { bindings: without(self.bindings, handle), ..self }
    }
}

/// The state of one hotkey engine: the held keys, the active scopes and the
/// registered bindings. Each context is independent of every other.
pub struct HotkeysContext<C> {
    pressed_keys: PressedKeys,
    active_scopes: ScopeSet,
    bound_hotkeys: BindingRegistry<C>,
    allow_blur_reset: bool,
}

impl<C> View for HotkeysContext<C> {
    type V = ContextView<C>;

    closed spec fn view(&self) -> ContextView<C> {
        ContextView {
            pressed: self.pressed_keys@,
            scopes: self.active_scopes@,
            bindings: self.bound_hotkeys@,
            allow_blur_reset: self.allow_blur_reset,
        }
    }
}

impl<C> HotkeysContext<C> {
    /// How many handles the context has given out.
    pub closed spec fn issued(&self) -> nat {
        self.bound_hotkeys.issued()
    }

    /// Whether another binding can be registered: the context can give out
    /// one handle for each value of `u64` but the last.
    pub open spec fn has_room(&self) -> bool {
        self.issued() < u64::MAX
    }

    /// A context in which no key is held, the scopes named in
    /// `initially_active_scopes` are active and nothing is registered.
    /// With `allow_blur_reset`, losing focus releases every key.
    pub fn new(initially_active_scopes: &Vec<String>, allow_blur_reset: bool) -> (context: Self)
        ensures
            context@ == (ContextView::<C> {
                pressed: Set::empty(),
                scopes: initially_active_scopes.deep_view().to_set(),
                bindings: Seq::empty(),
                allow_blur_reset,
            }),
            context.issued() == 0,
    {
        HotkeysContext {
            pressed_keys: PressedKeys::new(),
            active_scopes: ScopeSet::from_names(initially_active_scopes),
            bound_hotkeys: BindingRegistry::new(),
            allow_blur_reset,
        }
    }

    /// The held keys.
    pub fn pressed_keys(&self) -> (keys: &PressedKeys)
        ensures
            keys@ == self@.pressed,
    {
        &self.pressed_keys
    }

    /// The active scopes.
    pub fn active_scopes(&self) -> (scopes: &ScopeSet)
        ensures
            scopes@ == self@.scopes,
    {
        &self.active_scopes
    }

    /// The registered bindings.
    pub fn bound_hotkeys(&self) -> (bindings: &BindingRegistry<C>)
        ensures
            bindings@ == self@.bindings,
    {
        &self.bound_hotkeys
    }

    /// Whether losing focus releases every key.
    pub fn allows_blur_reset(&self) -> (allowed: bool)
        ensures
            allowed == self@.allow_blur_reset,
    {
        self.allow_blur_reset
    }

    /// Whether another binding can be registered.
    pub fn can_register(&self) -> (room: bool)
        ensures
            room == self.has_room(),
    {
        self.bound_hotkeys.can_register()
    }

    /// Decides which bindings fire in the present state. All that qualify
    /// fire, in the order of their registration.
    pub fn evaluate(&self) -> (fired: Vec<Firing>)
        ensures
            fired.deep_view() == self@.fired(),
    {
        self.bound_hotkeys.evaluate(&self.pressed_keys, &self.active_scopes)
    }

    /// Decides what a binding that is not registered does in the present
    /// state: `Some` with the keys whose default action is to be suppressed
    /// if it fires, `None` if it does not.
    pub fn evaluate_binding(&self, binding: &Binding<C>) -> (suppress: Option<Vec<String>>)
        ensures
            suppress.deep_view() == binding@.fires(self@.pressed, self@.scopes),
    {
        binding.evaluate(&self.pressed_keys, &self.active_scopes)
    }

    /// What fires after a step that did or did not change the state.
    fn fired_if(&self, changed: bool) -> (fired: Vec<Firing>)
        ensures
            fired.deep_view() == if changed {
                self@.fired()
            } else {
                Seq::<FiringView>::empty()
            },
    {
        if changed {
            self.evaluate()
        } else {
            let fired: Vec<Firing> = Vec::new();
            assert(fired.deep_view() =~= Seq::<FiringView>::empty());
            fired
        }
    }

    /// Records that the key with the identifier `key` went down, and
    /// returns what fires. If the key is already held, nothing changes and
    /// nothing fires.
    pub fn press(&mut self, key: String) -> (fired: Vec<Firing>)
        ensures
            final(self)@ == old(self)@.press(key@),
            final(self).issued() == old(self).issued(),
            fired.deep_view() == old(self)@.fired_on_step_to(final(self)@),
    {
        let changed = self.pressed_keys.press(key);
        proof {
            if changed {
                assert(self@.pressed.contains(key@));
            } else {
                assert(self@.pressed =~= old(self)@.pressed);
            }
        }
        self.fired_if(changed)
    }

    /// Records that the key with the identifier `key` went up, and returns
    /// what fires. If the key is not held, nothing changes and nothing
    /// fires.
    pub fn release(&mut self, key: &str) -> (fired: Vec<Firing>)
        ensures
            final(self)@ == old(self)@.release(key@),
            final(self).issued() == old(self).issued(),
            fired.deep_view() == old(self)@.fired_on_step_to(final(self)@),
    {
        let changed = self.pressed_keys.release(key);
        proof {
            if changed {
                assert(!self@.pressed.contains(key@));
            } else {
                assert(self@.pressed =~= old(self)@.pressed);
            }
        }
        self.fired_if(changed)
    }

    /// Releases every key, and returns what fires. If no key is held,
    /// nothing changes and nothing fires.
    pub fn reset(&mut self) -> (fired: Vec<Firing>)
        ensures
            final(self)@ == old(self)@.reset(),
            final(self).issued() == old(self).issued(),
            fired.deep_view() == old(self)@.fired_on_step_to(final(self)@),
    {
        let changed = self.pressed_keys.reset();
        self.fired_if(changed)
    }

    /// Handles a key-down event that reports the key name `key`: presses
    /// the key under its normalized identifier.
    pub fn key_down(&mut self, key: &str) -> (fired: Vec<Firing>)
        ensures
            final(self)@ == old(self)@.press(lowercase_of(key@)),
            final(self).issued() == old(self).issued(),
            fired.deep_view() == old(self)@.fired_on_step_to(final(self)@),
    {
        self.press(normalize_key(key))
    }

    /// Handles a key-up event that reports the key name `key`: releases
    /// the key under its normalized identifier.
    pub fn key_up(&mut self, key: &str) -> (fired: Vec<Firing>)
        ensures
            final(self)@ == old(self)@.release(lowercase_of(key@)),
            final(self).issued() == old(self).issued(),
            fired.deep_view() == old(self)@.fired_on_step_to(final(self)@),
    {
        let normal = normalize_key(key);
        self.release(normal.as_str())
    }

    /// Handles the loss of focus: releases every key if the context was
    /// made with `allow_blur_reset`, and does nothing otherwise.
    pub fn blur(&mut self) -> (fired: Vec<Firing>)
        ensures
            final(self)@ == old(self)@.blur(),
            final(self).issued() == old(self).issued(),
            fired.deep_view() == old(self)@.fired_on_step_to(final(self)@),
    {
        if self.allow_blur_reset {
            self.reset()
        } else {
            self.fired_if(false)
        }
    }

    /// Makes `scope` active, and returns what fires. If the scope is
    /// already active, nothing changes and nothing fires.
    pub fn enable_scope(&mut self, scope: String) -> (fired: Vec<Firing>)
        ensures
            final(self)@ == old(self)@.enable_scope(scope@),
            final(self).issued() == old(self).issued(),
            fired.deep_view() == old(self)@.fired_on_step_to(final(self)@),
    {
        let changed = self.active_scopes.enable(scope);
        proof {
            if changed {
                assert(self@.scopes.contains(scope@));
            } else {
                assert(self@.scopes =~= old(self)@.scopes);
            }
        }
        self.fired_if(changed)
    }

    /// Makes `scope` inactive, and returns what fires. If the scope is not
    /// active, nothing changes and nothing fires.
    pub fn disable_scope(&mut self, scope: &str) -> (fired: Vec<Firing>)
        ensures
            final(self)@ == old(self)@.disable_scope(scope@),
            final(self).issued() == old(self).issued(),
            fired.deep_view() == old(self)@.fired_on_step_to(final(self)@),
    {
        let changed = self.active_scopes.disable(scope);
        proof {
            if changed {
                assert(!self@.scopes.contains(scope@));
            } else {
                assert(self@.scopes =~= old(self)@.scopes);
            }
        }
        self.fired_if(changed)
    }

    /// Disables `scope` if it is active and enables it otherwise, and
    /// returns what fires.
    pub fn toggle_scope(&mut self, scope: String) -> (fired: Vec<Firing>)
        ensures
            final(self)@ == old(self)@.toggle_scope(scope@),
            final(self).issued() == old(self).issued(),
            fired.deep_view() == old(self)@.fired_on_step_to(final(self)@),
    {
        let now_active = self.active_scopes.toggle(scope);
        proof {
            if now_active {
                assert(self@.scopes.contains(scope@));
            } else {
                assert(!self@.scopes.contains(scope@));
            }
        }
        self.fired_if(true)
    }

    /// Registers a binding of the given alternatives, scopes and callback
    /// behind all registered bindings, and returns its handle. Nothing
    /// fires on registration.
    pub fn register(&mut self, hotkeys: Vec<Hotkey>, scopes: Vec<String>, callback: C) -> (handle:
        BindingHandle)
        requires
            old(self).has_room(),
        ensures
            final(self)@ == old(self)@.register(
                handle,
                BindingView { hotkeys: hotkeys.deep_view(), scopes: scopes.deep_view(), callback },
            ),
            !has_handle(old(self)@.bindings, handle),
            final(self).issued() == old(self).issued() + 1,
    {
        self.bound_hotkeys.register(Binding::new(hotkeys, scopes, callback))
    }

    /// Removes the binding under `handle` and returns it. A handle under
    /// which nothing is registered, or no longer, changes nothing.
    pub fn unregister(&mut self, handle: BindingHandle) -> (removed: Option<Binding<C>>)
        ensures
            final(self)@ == old(self)@.unregister(handle),
            final(self).issued() == old(self).issued(),
            removed is Some <==> has_handle(old(self)@.bindings, handle),
            removed matches Some(binding) ==> exists|at: int|
                0 <= at < old(self)@.bindings.len() && #[trigger] old(self)@.bindings[at] == (
                    handle,
                    binding@,
                ) && final(self)@.bindings == old(self)@.bindings.remove(at),
    {
        self.bound_hotkeys.unregister(handle)
    }

    /// The callback of the binding under `handle`, if there is one.
    pub fn callback(&self, handle: BindingHandle) -> (callback: Option<&C>)
        ensures
            callback is Some <==> has_handle(self@.bindings, handle),
            callback matches Some(found) ==> exists|at: int|
                0 <= at < self@.bindings.len() && (#[trigger] self@.bindings[at]).0 == handle
                    && self@.bindings[at].1.callback == *found,
    {
        match self.bound_hotkeys.get(handle) {
            None => None,
            Some(binding) => {
                proof {
                    let at = choose|at: int|
                        0 <= at < self@.bindings.len() && #[trigger] self@.bindings[at] == (
                            handle,
                            binding@,
                        );
                    assert(self@.bindings[at].0 == handle);
                }
                Some(&binding.callback)
            },
        }
    }
}

} // verus!
