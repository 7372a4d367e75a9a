//! Bindings and the decision whether one fires.
use crate::hotkey::{is_hotkey_match, Hotkey, HotkeyView};
use crate::pressed::PressedKeys;
use crate::scopes::ScopeSet;
use vstd::prelude::*;

verus! {

/// A shortcut: alternative combinations, the scopes in which it is live,
/// and the callback that the caller wants run when it fires. A binding
/// without scopes is live everywhere.
pub struct Binding<C> {
    pub hotkeys: Vec<Hotkey>,
    pub scopes: Vec<String>,
    pub callback: C,
}

/// The mathematical content of a [`Binding`].
pub struct BindingView<C> {
    pub hotkeys: Seq<HotkeyView>,
    pub scopes: Seq<Seq<char>>,
    pub callback: C,
}

impl<C> View for Binding<C> {
    type V = BindingView<C>;

    open spec fn view(&self) -> BindingView<C> {
        BindingView {
            hotkeys: self.hotkeys.deep_view(),
            scopes: self.scopes.deep_view(),
            callback: self.callback,
        }
    }
}

/// Whether a binding with these scopes is live while `active` are the
/// active scopes: it names no scope, or one that is active.
pub open spec fn in_scope(scopes: Seq<Seq<char>>, active: Set<Seq<char>>) -> bool {
    scopes.len() == 0 || exists|i: int| 0 <= i < scopes.len() && active.contains(#[trigger] scopes[i])
}

/// The position of the first alternative, from `from` on, that the held
/// keys satisfy.
pub open spec fn first_held_from(
    hotkeys: Seq<HotkeyView>,
    pressed: Set<Seq<char>>,
    from: int,
) -> Option<int>
    decreases hotkeys.len() - from,
{
    if from < 0 || from >= hotkeys.len() {
        None
    } else if hotkeys[from].held_in(pressed) {
        Some(from)
    } else {
        first_held_from(hotkeys, pressed, from + 1)
    }
}

/// The position of the first alternative that the held keys satisfy.
pub open spec fn first_held(hotkeys: Seq<HotkeyView>, pressed: Set<Seq<char>>) -> Option<int> {
    first_held_from(hotkeys, pressed, 0)
}

/// `first_held_from` finds an alternative exactly when one is satisfied,
/// and then the first such.
pub proof fn lemma_first_held_from(hotkeys: Seq<HotkeyView>, pressed: Set<Seq<char>>, from: int)
    requires
        0 <= from,
    ensures
        match first_held_from(hotkeys, pressed, from) {
            Some(at) => {
                &&& from <= at < hotkeys.len()
                &&& hotkeys[at].held_in(pressed)
                &&& forall|j: int| from <= j < at ==> !(#[trigger] hotkeys[j]).held_in(pressed)
            },
            None => forall|j: int|
                from <= j < hotkeys.len() ==> !(#[trigger] hotkeys[j]).held_in(pressed),
        },
    decreases hotkeys.len() - from,
{
    if from < hotkeys.len() && !hotkeys[from].held_in(pressed) {
        lemma_first_held_from(hotkeys, pressed, from + 1);
    }
}

impl<C> BindingView<C> {
    /// What the binding does in a given state. If it is live and the held
    /// keys satisfy one of its alternatives, it fires, and the result holds
    /// the keys of the first such alternative: the keys whose default
    /// action is to be suppressed. Otherwise it does not fire.
    pub open spec fn fires(self, pressed: Set<Seq<char>>, active: Set<Seq<char>>) -> Option<
        Seq<Seq<char>>,
    > {
        if in_scope(self.scopes, active) {
            match first_held(self.hotkeys, pressed) {
                Some(at) => Some(self.hotkeys[at].keys),
                None => None,
            }
        } else {
            None
        }
    }
}

/// Decides whether a binding with these scopes is live.
pub fn is_in_scope(scopes: &Vec<String>, active_scopes: &ScopeSet) -> (live: bool)
    ensures
        live == in_scope(scopes.deep_view(), active_scopes@),
{
    if scopes.len() == 0 {
        return true;
    }
    let mut i: usize = 0;
    while i < scopes.len()
        invariant
            i <= scopes.len(),
            forall|j: int| 0 <= j < i ==> !active_scopes@.contains(#[trigger] scopes.deep_view()[j]),
        decreases scopes.len() - i,
    {
        assert(scopes.deep_view()[i as int] == scopes[i as int]@);
        if active_scopes.is_active(scopes[i].as_str()) {
            return true;
        }
        i += 1;
    }
    false
}

/// Finds the first alternative that the held keys satisfy.
pub fn first_match(hotkeys: &Vec<Hotkey>, pressed_keyset: &PressedKeys) -> (found: Option<usize>)
    ensures
        match found {
            Some(at) => first_held(hotkeys.deep_view(), pressed_keyset@) == Some(at as int),
            None => first_held(hotkeys.deep_view(), pressed_keyset@) is None,
        },
{
    let mut i: usize = 0;
    while i < hotkeys.len()
        invariant
            i <= hotkeys.len(),
            first_held(hotkeys.deep_view(), pressed_keyset@) == first_held_from(
                hotkeys.deep_view(),
                pressed_keyset@,
                i as int,
            ),
        decreases hotkeys.len() - i,
    {
        assert(hotkeys.deep_view()[i as int] == hotkeys[i as int]@);
        if is_hotkey_match(&hotkeys[i], pressed_keyset) {
            return Some(i);
        }
        i += 1;
    }
    None
}

/// A copy of a list of names.
fn copy_names(names: &Vec<String>) -> (copy: Vec<String>)
    ensures
        copy.deep_view() == names.deep_view(),
{
    let mut copy: Vec<String> = Vec::new();
    let mut i: usize = 0;
    while i < names.len()
        invariant
            i <= names.len(),
            copy.len() == i,
            forall|j: int| 0 <= j < i ==> copy[j]@ == names[j]@,
        decreases names.len() - i,
    {
        copy.push(names[i].clone());
        i += 1;
    }
    assert(copy.deep_view() =~= names.deep_view());
    copy
}

impl<C> Binding<C> {
    /// A binding of the given alternatives, scopes and callback.
    pub fn new(hotkeys: Vec<Hotkey>, scopes: Vec<String>, callback: C) -> (binding: Self)
        ensures
            binding@ == (BindingView {
                hotkeys: hotkeys.deep_view(),
                scopes: scopes.deep_view(),
                callback,
            }),
    {
        Binding { hotkeys, scopes, callback }
    }

    /// Decides what the binding does while `pressed_keyset` are the held
    /// keys and `active_scopes` the active scopes: `Some` with the keys
    /// whose default action is to be suppressed if it fires, `None` if it
    /// does not.
    pub fn evaluate(&self, pressed_keyset: &PressedKeys, active_scopes: &ScopeSet) -> (suppress:
        Option<Vec<String>>)
        ensures
            suppress.deep_view() == self@.fires(pressed_keyset@, active_scopes@),
    {
        if !is_in_scope(&self.scopes, active_scopes) {
            return None;
        }
        match first_match(&self.hotkeys, pressed_keyset) {
            None => None,
            Some(at) => {
                proof {
                    lemma_first_held_from(self.hotkeys.deep_view(), pressed_keyset@, 0);
                }
                assert(self.hotkeys.deep_view()[at as int] == self.hotkeys[at as int]@);
                Some(copy_names(&self.hotkeys[at].keys))
            },
        }
    }
}

} // verus!
