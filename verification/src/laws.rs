//! Laws of the engine, stated over the models of its types and proved.
use crate::binding::{first_held, in_scope, lemma_first_held_from, BindingView};
use crate::context::ContextView;
use crate::hotkey::{
    alt_held, alternatives_of, combination_of, combination_tokens, combinations_of, ctrl_held,
    distinct, listed, meta_held, names_alt, names_ctrl, names_meta, names_shift, normalized,
    shift_held, HotkeyView,
};
use crate::registry::{firing_of, firings, has_handle, without, BindingHandle, Entry, FiringView};
use crate::text::{is_whitespace, split, trimmed};
use vstd::prelude::*;

verus! {

/// Whether a normalized token is one of the reserved modifier names.
pub open spec fn names_modifier(token: Seq<char>) -> bool {
    names_ctrl(token) || names_shift(token) || names_alt(token) || names_meta(token)
}

/// A combination requires a modifier exactly when one of its tokens names
/// it, and its keys are its other tokens, in their order.
pub proof fn lemma_tokens_to_hotkey(tokens: Seq<Seq<char>>)
    ensures
        HotkeyView::of_tokens(tokens).modifiers.ctrl <==> exists|i: int|
            0 <= i < tokens.len() && names_ctrl(#[trigger] tokens[i]),
        HotkeyView::of_tokens(tokens).modifiers.shift <==> exists|i: int|
            0 <= i < tokens.len() && names_shift(#[trigger] tokens[i]),
        HotkeyView::of_tokens(tokens).modifiers.alt <==> exists|i: int|
            0 <= i < tokens.len() && names_alt(#[trigger] tokens[i]),
        HotkeyView::of_tokens(tokens).modifiers.meta <==> exists|i: int|
            0 <= i < tokens.len() && names_meta(#[trigger] tokens[i]),
        HotkeyView::of_tokens(tokens).keys == tokens.filter(
            |token: Seq<char>| !names_modifier(token),
        ),
    decreases tokens.len(),
{
    reveal(Seq::filter);
    if tokens.len() > 0 {
        let front = tokens.drop_last();
        let last = tokens.last();
        lemma_tokens_to_hotkey(front);
        lemma_reserved_names_differ();
        assert(tokens[tokens.len() - 1] == last);
        if HotkeyView::of_tokens(front).modifiers.ctrl {
            let i = choose|i: int| 0 <= i < front.len() && names_ctrl(#[trigger] front[i]);
            assert(names_ctrl(tokens[i]));
        }
        if HotkeyView::of_tokens(front).modifiers.shift {
            let i = choose|i: int| 0 <= i < front.len() && names_shift(#[trigger] front[i]);
            assert(names_shift(tokens[i]));
        }
        if HotkeyView::of_tokens(front).modifiers.alt {
            let i = choose|i: int| 0 <= i < front.len() && names_alt(#[trigger] front[i]);
            assert(names_alt(tokens[i]));
        }
        if HotkeyView::of_tokens(front).modifiers.meta {
            let i = choose|i: int| 0 <= i < front.len() && names_meta(#[trigger] front[i]);
            assert(names_meta(tokens[i]));
        }
        assert forall|i: int| 0 <= i < tokens.len() && i != tokens.len() - 1 implies 0 <= i
            < front.len() && front[i] == #[trigger] tokens[i] by {}
    }
}

/// A combination depends on its text only through the normalized tokens:
/// two texts whose tokens agree once trimmed and lowercased, whatever their
/// case and the whitespace around them, describe the same combination.
pub proof fn lemma_only_tokens_matter(one: Seq<char>, other: Seq<char>)
    requires
        split(one, '+').len() == split(other, '+').len(),
        forall|i: int|
            0 <= i < split(one, '+').len() ==> normalized(#[trigger] split(one, '+')[i])
                == normalized(split(other, '+')[i]),
    ensures
        combination_of(one) == combination_of(other),
{
    assert(combination_tokens(one) =~= combination_tokens(other));
}

/// No text is the name of two different modifiers.
pub proof fn lemma_reserved_names_differ()
    ensures
        forall|token: Seq<char>| !(names_ctrl(token) && names_shift(token)),
        forall|token: Seq<char>| !(names_ctrl(token) && names_alt(token)),
        forall|token: Seq<char>| !(names_ctrl(token) && names_meta(token)),
        forall|token: Seq<char>| !(names_shift(token) && names_alt(token)),
        forall|token: Seq<char>| !(names_shift(token) && names_meta(token)),
        forall|token: Seq<char>| !(names_alt(token) && names_meta(token)),
{
    reveal_strlit("ctrl");
    reveal_strlit("control");
    reveal_strlit("shift");
    reveal_strlit("alt");
    reveal_strlit("meta");
    reveal_strlit("cmd");
    reveal_strlit("command");
    assert forall|token: Seq<char>|
        !(names_ctrl(token) && names_shift(token)) && !(names_ctrl(token) && names_alt(token)) && !(
        names_ctrl(token) && names_meta(token)) && !(names_shift(token) && names_alt(token)) && !(
        names_shift(token) && names_meta(token)) && !(names_alt(token) && names_meta(token)) by {
        if names_ctrl(token) {
            assert(token[0] == 'c' && (token.len() == 4 || token[2] == 'n'));
        }
        if names_shift(token) {
            assert(token[0] == 's');
        }
        if names_alt(token) {
            assert(token[0] == 'a');
        }
        if names_meta(token) {
            assert(token[0] == 'm' || token.len() == 3 || token[2] == 'm');
        }
    }
}

/// Pressing a key that is held changes nothing and fires nothing: a
/// second press leaves the state of the first, and triggers no evaluation.
pub proof fn lemma_press_twice<C>(state: ContextView<C>, key: Seq<char>)
    ensures
        state.press(key).press(key) == state.press(key),
        state.press(key).fired_on_step_to(state.press(key).press(key)) == Seq::<
            FiringView,
        >::empty(),
{
    assert(state.pressed.insert(key).insert(key) =~= state.pressed.insert(key));
}

/// Pressing a key that was not held and releasing it restores the state.
pub proof fn lemma_press_release<C>(state: ContextView<C>, key: Seq<char>)
    requires
        !state.pressed.contains(key),
    ensures
        state.press(key).release(key) == state,
{
    assert(state.pressed.insert(key).remove(key) =~= state.pressed);
}

/// Releasing a key that is not held changes nothing and fires nothing.
pub proof fn lemma_release_absent<C>(state: ContextView<C>, key: Seq<char>)
    requires
        !state.pressed.contains(key),
    ensures
        state.release(key) == state,
        state.fired_on_step_to(state.release(key)) == Seq::<FiringView>::empty(),
{
    assert(state.pressed.remove(key) =~= state.pressed);
}

/// Enabling an active scope, and disabling an inactive one, changes nothing
/// and fires nothing.
pub proof fn lemma_scope_unchanged<C>(state: ContextView<C>, scope: Seq<char>)
    ensures
        state.scopes.contains(scope) ==> state.enable_scope(scope) == state,
        !state.scopes.contains(scope) ==> state.disable_scope(scope) == state,
{
    if state.scopes.contains(scope) {
        assert(state.scopes.insert(scope) =~= state.scopes);
    } else {
        assert(state.scopes.remove(scope) =~= state.scopes);
    }
}

/// Toggling a scope does exactly one of enabling and disabling it, and
/// toggling it twice restores the state.
pub proof fn lemma_toggle<C>(state: ContextView<C>, scope: Seq<char>)
    ensures
        state.toggle_scope(scope).scopes.contains(scope) == !state.scopes.contains(scope),
        state.toggle_scope(scope).toggle_scope(scope) == state,
{
    if state.scopes.contains(scope) {
        assert(state.scopes.remove(scope).insert(scope) =~= state.scopes);
    } else {
        assert(state.scopes.insert(scope).remove(scope) =~= state.scopes);
    }
}

/// A binding whose scopes are all inactive does not fire, whatever keys are
/// held.
pub proof fn lemma_out_of_scope<C>(
    binding: BindingView<C>,
    pressed: Set<Seq<char>>,
    active: Set<Seq<char>>,
)
    requires
        binding.scopes.len() > 0,
        forall|i: int| 0 <= i < binding.scopes.len() ==> !active.contains(binding.scopes[i]),
    ensures
        binding.fires(pressed, active) is None,
{
}

/// A binding without scopes fires or not by the held keys alone, whatever
/// scopes are active.
pub proof fn lemma_global_binding<C>(
    binding: BindingView<C>,
    pressed: Set<Seq<char>>,
    active: Set<Seq<char>>,
    other: Set<Seq<char>>,
)
    requires
        binding.scopes.len() == 0,
    ensures
        binding.fires(pressed, active) == binding.fires(pressed, other),
{
}

/// A binding fires exactly when it is in scope and the held keys satisfy
/// one of its alternatives; the keys it reports are those of the first
/// alternative that is satisfied.
pub proof fn lemma_fires<C>(
    binding: BindingView<C>,
    pressed: Set<Seq<char>>,
    active: Set<Seq<char>>,
)
    ensures
        binding.fires(pressed, active) is Some <==> in_scope(binding.scopes, active) && exists|
            i: int,
        |
            0 <= i < binding.hotkeys.len() && (#[trigger] binding.hotkeys[i]).held_in(pressed),
        binding.fires(pressed, active) matches Some(keys) ==> exists|i: int|
            {
                &&& 0 <= i < binding.hotkeys.len()
                &&& (#[trigger] binding.hotkeys[i]).held_in(pressed)
                &&& binding.hotkeys[i].keys == keys
                &&& forall|j: int| 0 <= j < i ==> !(#[trigger] binding.hotkeys[j]).held_in(pressed)
            },
{
    lemma_first_held_from(binding.hotkeys, pressed, 0);
    if let Some(at) = first_held(binding.hotkeys, pressed) {
        assert(binding.hotkeys[at].held_in(pressed));
    }
}

/// A combination is not satisfied while a modifier that it requires is not
/// held, whatever else is held.
pub proof fn lemma_missing_modifier(hotkey: HotkeyView, pressed: Set<Seq<char>>)
    requires
        (hotkey.modifiers.ctrl && !ctrl_held(pressed)) || (hotkey.modifiers.shift && !shift_held(
            pressed,
        )) || (hotkey.modifiers.alt && !alt_held(pressed)) || (hotkey.modifiers.meta && !meta_held(
            pressed,
        )),
    ensures
        !hotkey.held_in(pressed),
{
}

/// A combination that the held keys satisfy stays satisfied when more keys
/// or modifiers are held: what it does not name is ignored.
pub proof fn lemma_extra_keys(hotkey: HotkeyView, pressed: Set<Seq<char>>, more: Set<Seq<char>>)
    requires
        hotkey.held_in(pressed),
        pressed.subset_of(more),
    ensures
        hotkey.held_in(more),
{
}

/// Losing focus releases every key if the context allows it, and changes
/// nothing otherwise.
pub proof fn lemma_blur<C>(state: ContextView<C>)
    ensures
        state.allow_blur_reset ==> state.blur().pressed == Set::<Seq<char>>::empty(),
        !state.allow_blur_reset ==> state.blur() == state,
        state.blur().scopes == state.scopes,
        state.blur().bindings == state.bindings,
{
}

/// What fires among a list of bindings followed by another is what fires
/// among the first, followed by what fires among the second: the firings
/// keep the order of registration.
pub proof fn lemma_firings_concat<C>(
    first: Seq<Entry<C>>,
    second: Seq<Entry<C>>,
    pressed: Set<Seq<char>>,
    active: Set<Seq<char>>,
)
    ensures
        firings(first + second, pressed, active) == firings(first, pressed, active) + firings(
            second,
            pressed,
            active,
        ),
    decreases second.len(),
{
    if second.len() == 0 {
        assert(first + second =~= first);
        assert(firings(first, pressed, active) + firings(second, pressed, active) =~= firings(
            first,
            pressed,
            active,
        ));
    } else {
        assert((first + second).drop_last() =~= first + second.drop_last());
        assert((first + second).last() == second.last());
        lemma_firings_concat(first, second.drop_last(), pressed, active);
        let front = firings(first, pressed, active);
        let back = firings(second.drop_last(), pressed, active);
        match firing_of(second.last(), pressed, active) {
            Some(firing) => {
                assert((front + back).push(firing) =~= front + back.push(firing));
            },
            None => {},
        }
    }
}

/// Whether `firing` is what one of `entries` contributes in the given
/// state.
pub open spec fn stems_from<C>(
    firing: FiringView,
    entries: Seq<Entry<C>>,
    pressed: Set<Seq<char>>,
    active: Set<Seq<char>>,
) -> bool {
    exists|i: int|
        0 <= i < entries.len() && firing_of(#[trigger] entries[i], pressed, active) == Some(firing)
}

/// Every binding that fires is among the firings, under its handle and
/// with its keys; and every firing is that of a binding that fires.
pub proof fn lemma_firings_members<C>(
    entries: Seq<Entry<C>>,
    pressed: Set<Seq<char>>,
    active: Set<Seq<char>>,
)
    ensures
        forall|i: int|
            0 <= i < entries.len() && firing_of(#[trigger] entries[i], pressed, active) is Some
                ==> firings(entries, pressed, active).contains(
                firing_of(entries[i], pressed, active)->0,
            ),
        forall|j: int|
            0 <= j < firings(entries, pressed, active).len() ==> stems_from(
                #[trigger] firings(entries, pressed, active)[j],
                entries,
                pressed,
                active,
            ),
    decreases entries.len(),
{
    let fired = firings(entries, pressed, active);
    if entries.len() > 0 {
        let front = entries.drop_last();
        let before = firings(front, pressed, active);
        lemma_firings_members(front, pressed, active);
        assert forall|i: int|
            0 <= i < entries.len() && firing_of(
                #[trigger] entries[i],
                pressed,
                active,
            ) is Some implies fired.contains(firing_of(entries[i], pressed, active)->0) by {
            let firing = firing_of(entries[i], pressed, active)->0;
            if i < front.len() {
                assert(front[i] == entries[i]);
                assert(before.contains(firing));
                let j = choose|j: int| 0 <= j < before.len() && before[j] == firing;
                assert(fired[j] == firing);
            } else {
                assert(fired[fired.len() - 1] == firing);
            }
        }
        assert forall|j: int| 0 <= j < fired.len() implies stems_from(
            #[trigger] fired[j],
            entries,
            pressed,
            active,
        ) by {
            if j < before.len() {
                assert(stems_from(before[j], front, pressed, active));
                let i = choose|i: int|
                    0 <= i < front.len() && firing_of(#[trigger] front[i], pressed, active)
                        == Some(before[j]);
                assert(entries[i] == front[i]);
                assert(fired[j] == before[j]);
            } else {
                assert(firing_of(entries[entries.len() - 1], pressed, active) == Some(fired[j]));
            }
        }
    }
}

/// A binding whose keys are held but whose scopes are inactive does not
/// fire; it fires at once, on the step that enables one of its scopes.
pub proof fn lemma_scope_arms<C>(state: ContextView<C>, at: int, scope: Seq<char>)
    requires
        0 <= at < state.bindings.len(),
        state.bindings[at].1.scopes.contains(scope),
        forall|i: int|
            0 <= i < state.bindings[at].1.scopes.len() ==> !state.scopes.contains(
                state.bindings[at].1.scopes[i],
            ),
        first_held(state.bindings[at].1.hotkeys, state.pressed) is Some,
    ensures
        firing_of(state.bindings[at], state.pressed, state.scopes) is None,
        firing_of(state.bindings[at], state.pressed, state.enable_scope(scope).scopes) is Some,
        state.fired_on_step_to(state.enable_scope(scope)).contains(
            firing_of(state.bindings[at], state.pressed, state.enable_scope(scope).scopes)->0,
        ),
{
    let binding = state.bindings[at].1;
    let next = state.enable_scope(scope);
    let i = choose|i: int| 0 <= i < binding.scopes.len() && binding.scopes[i] == scope;
    assert(!state.scopes.contains(binding.scopes[i]));
    assert(next.scopes.contains(binding.scopes[i]));
    assert(in_scope(binding.scopes, next.scopes));
    lemma_firings_members(next.bindings, next.pressed, next.scopes);
}

/// Unregistering a handle twice is the same as unregistering it once.
pub proof fn lemma_unregister_twice<C>(state: ContextView<C>, handle: BindingHandle)
    ensures
        state.unregister(handle).unregister(handle) == state.unregister(handle),
        !has_handle(state.unregister(handle).bindings, handle),
{
    lemma_without_rest(state.bindings, handle);
    crate::registry::lemma_without_absent(without(state.bindings, handle), handle);
}

/// After a handle was removed, no entry has it, and every other entry is
/// still there.
pub proof fn lemma_without_rest<C>(entries: Seq<Entry<C>>, handle: BindingHandle)
    ensures
        !has_handle(without(entries, handle), handle),
        forall|i: int|
            0 <= i < entries.len() && (#[trigger] entries[i]).0 != handle ==> without(
                entries,
                handle,
            ).contains(entries[i]),
    decreases entries.len(),
{
    let rest = without(entries, handle);
    if entries.len() > 0 {
        let front = entries.drop_last();
        let before = without(front, handle);
        lemma_without_rest(front, handle);
        assert forall|j: int| 0 <= j < rest.len() implies (#[trigger] rest[j]).0 != handle by {
            if j < before.len() {
                assert(rest[j] == before[j]);
            }
        }
        assert forall|i: int|
            0 <= i < entries.len() && (#[trigger] entries[i]).0 != handle implies rest.contains(
            entries[i],
        ) by {
            if i < front.len() {
                assert(front[i] == entries[i]);
                let j = choose|j: int| 0 <= j < before.len() && before[j] == entries[i];
                assert(rest[j] == entries[i]);
            } else {
                assert(rest[rest.len() - 1] == entries[i]);
            }
        }
    }
}

/// Once a handle is unregistered, nothing fires under it.
pub proof fn lemma_unregistered_is_silent<C>(state: ContextView<C>, handle: BindingHandle)
    ensures
        forall|j: int|
            0 <= j < state.unregister(handle).fired().len() ==> (
            #[trigger] state.unregister(handle).fired()[j]).handle != handle,
{
    let next = state.unregister(handle);
    lemma_without_rest(state.bindings, handle);
    lemma_firings_members(next.bindings, next.pressed, next.scopes);
    assert forall|j: int| 0 <= j < next.fired().len() implies (#[trigger] next.fired()[j]).handle
        != handle by {
        assert(stems_from(next.fired()[j], next.bindings, next.pressed, next.scopes));
        let i = choose|i: int|
            0 <= i < next.bindings.len() && firing_of(
                #[trigger] next.bindings[i],
                next.pressed,
                next.scopes,
            ) == Some(next.fired()[j]);
        assert(next.bindings[i].0 != handle);
    }
}

/// The pieces of a list put together again, with `sep` between each two.
pub open spec fn joined(pieces: Seq<Seq<char>>, sep: char) -> Seq<char>
    decreases pieces.len(),
{
    if pieces.len() == 0 {
        Seq::empty()
    } else if pieces.len() == 1 {
        pieces[0]
    } else {
        joined(pieces.drop_last(), sep).push(sep) + pieces.last()
    }
}

/// Splitting loses nothing and cuts at every separator: the pieces, joined
/// by the separator, are the text again, and no piece holds the separator.
pub proof fn lemma_split(text: Seq<char>, sep: char)
    ensures
        split(text, sep).len() >= 1,
        joined(split(text, sep), sep) == text,
        forall|k: int| 0 <= k < split(text, sep).len() ==> !(#[trigger] split(text, sep)[k]).contains(sep),
    decreases text.len(),
{
    let pieces = split(text, sep);
    if text.len() == 0 {
        assert(joined(pieces, sep) =~= text);
        assert(!pieces[0].contains(sep));
    } else {
        let before = split(text.drop_last(), sep);
        lemma_split(text.drop_last(), sep);
        let c = text.last();
        if c == sep {
            assert(pieces.drop_last() =~= before);
            assert(joined(pieces, sep) =~= text.drop_last().push(sep));
            assert(text.drop_last().push(sep) =~= text);
            assert forall|k: int| 0 <= k < pieces.len() implies !(#[trigger] pieces[k]).contains(
                sep,
            ) by {
                if k < before.len() {
                    assert(pieces[k] == before[k]);
                }
            }
        } else {
            let grown = before.last().push(c);
            assert(pieces.last() == grown);
            assert(pieces.drop_last() =~= before.drop_last());
            if before.len() == 1 {
                assert(joined(before, sep) == before[0]);
                assert(joined(pieces, sep) == grown);
            } else {
                assert(joined(pieces, sep) =~= (joined(before.drop_last(), sep).push(sep)
                    + before.last()).push(c));
            }
            assert(text.drop_last().push(c) =~= text);
            assert forall|k: int| 0 <= k < pieces.len() implies !(#[trigger] pieces[k]).contains(
                sep,
            ) by {
                if k < before.len() - 1 {
                    assert(pieces[k] == before[k]);
                } else {
                    assert(!before[before.len() - 1].contains(sep));
                    if grown.contains(sep) {
                        let i = choose|i: int| 0 <= i < grown.len() && grown[i] == sep;
                        assert(before.last()[i] == sep);
                    }
                }
            }
        }
    }
}

/// Trimming removes whitespace from both ends and nothing else: the
/// trimmed text is a stretch of the text that neither begins nor ends with
/// whitespace, and all that lies before and after it is whitespace. The
/// result gives the two ends of that stretch.
pub proof fn lemma_trimmed(text: Seq<char>) -> (ends: (int, int))
    ensures
        0 <= ends.0 <= ends.1 <= text.len(),
        text.subrange(ends.0, ends.1) == trimmed(text),
        forall|k: int| 0 <= k < ends.0 ==> is_whitespace(text[k]),
        forall|k: int| ends.1 <= k < text.len() ==> is_whitespace(text[k]),
        trimmed(text).len() > 0 ==> !is_whitespace(trimmed(text).first()) && !is_whitespace(
            trimmed(text).last(),
        ),
    decreases text.len(),
{
    if text.len() > 0 && is_whitespace(text.first()) {
        let rest = text.drop_first();
        let (a, b) = lemma_trimmed(rest);
        assert(text.subrange(a + 1, b + 1) =~= rest.subrange(a, b));
        assert forall|k: int| 0 <= k < a + 1 implies is_whitespace(text[k]) by {
            if k > 0 {
                assert(text[k] == rest[k - 1]);
            }
        }
        assert forall|k: int| b + 1 <= k < text.len() implies is_whitespace(text[k]) by {
            assert(text[k] == rest[k - 1]);
        }
        (a + 1, b + 1)
    } else if text.len() > 0 && is_whitespace(text.last()) {
        let rest = text.drop_last();
        let (a, b) = lemma_trimmed(rest);
        assert(text.subrange(a, b) =~= rest.subrange(a, b));
        assert forall|k: int| 0 <= k < a implies is_whitespace(text[k]) by {
            assert(text[k] == rest[k]);
        }
        assert forall|k: int| b <= k < text.len() implies is_whitespace(text[k]) by {
            if k < rest.len() {
                assert(text[k] == rest[k]);
            }
        }
        (a, b)
    } else {
        assert(text.subrange(0, text.len() as int) =~= text);
        (0, text.len() as int)
    }
}

/// A list of alternatives without its repetitions holds no two
/// combinations that ask for the same thing, holds only combinations of
/// the list, and holds for each combination of the list one that asks for
/// the same thing.
pub proof fn lemma_distinct(alternatives: Seq<HotkeyView>)
    ensures
        forall|i: int, j: int|
            0 <= i < j < distinct(alternatives).len() ==> !(#[trigger] distinct(
                alternatives,
            )[i]).same_as(#[trigger] distinct(alternatives)[j]),
        forall|j: int|
            0 <= j < distinct(alternatives).len() ==> alternatives.contains(
                #[trigger] distinct(alternatives)[j],
            ),
        forall|i: int|
            0 <= i < alternatives.len() ==> listed(
                distinct(alternatives),
                #[trigger] alternatives[i],
            ),
        alternatives.len() > 0 ==> distinct(alternatives).len() > 0,
    decreases alternatives.len(),
{
    let kept = distinct(alternatives);
    if alternatives.len() > 0 {
        let front = alternatives.drop_last();
        let before = distinct(front);
        let last = alternatives.last();
        lemma_distinct(front);
        assert forall|i: int, j: int| 0 <= i < j < kept.len() implies !(#[trigger] kept[i]).same_as(
            #[trigger] kept[j],
        ) by {
            if j < before.len() {
                assert(kept[i] == before[i] && kept[j] == before[j]);
            } else {
                assert(kept[i] == before[i]);
                assert(kept[j] == last);
                assert(!listed(before, last));
            }
        }
        assert forall|j: int| 0 <= j < kept.len() implies alternatives.contains(
            #[trigger] kept[j],
        ) by {
            if j < before.len() {
                assert(kept[j] == before[j]);
                assert(front.contains(before[j]));
                let i = choose|i: int| 0 <= i < front.len() && front[i] == before[j];
                assert(alternatives[i] == kept[j]);
            } else {
                assert(alternatives[alternatives.len() - 1] == kept[j]);
            }
        }
        assert forall|i: int| 0 <= i < alternatives.len() implies listed(
            kept,
            #[trigger] alternatives[i],
        ) by {
            if i < front.len() {
                assert(front[i] == alternatives[i]);
                assert(listed(before, front[i]));
                let j = choose|j: int|
                    0 <= j < before.len() && (#[trigger] before[j]).same_as(front[i]);
                assert(kept[j].same_as(alternatives[i]));
            } else if listed(before, last) {
            } else {
                assert(kept[kept.len() - 1].same_as(last));
            }
        }
        if front.len() > 0 {
            assert(before.len() > 0);
        }
    }
}

/// A well-formed spec describes at least one alternative, one for each of
/// its combinations that does not repeat an earlier one, and every
/// alternative requires a modifier or a key.
pub proof fn lemma_alternatives(text: Seq<char>)
    ensures
        1 <= alternatives_of(text).len() <= split(text, ',').len(),
        forall|j: int|
            0 <= j < alternatives_of(text).len() ==> combinations_of(text).contains(
                #[trigger] alternatives_of(text)[j],
            ),
        forall|i: int|
            0 <= i < split(text, ',').len() ==> listed(
                alternatives_of(text),
                combination_of(#[trigger] split(text, ',')[i]),
            ),
{
    lemma_split(text, ',');
    let combinations = combinations_of(text);
    lemma_distinct(combinations);
    lemma_distinct_len(combinations);
    assert forall|i: int| 0 <= i < split(text, ',').len() implies listed(
        alternatives_of(text),
        combination_of(#[trigger] split(text, ',')[i]),
    ) by {
        assert(combinations[i] == combination_of(split(text, ',')[i]));
    }
}

/// Removing repetitions never lengthens a list.
pub proof fn lemma_distinct_len(alternatives: Seq<HotkeyView>)
    ensures
        distinct(alternatives).len() <= alternatives.len(),
    decreases alternatives.len(),
{
    if alternatives.len() > 0 {
        lemma_distinct_len(alternatives.drop_last());
    }
}

/// A combination made of at least one token requires a modifier or a key.
pub proof fn lemma_combination_requires(tokens: Seq<Seq<char>>)
    requires
        tokens.len() > 0,
    ensures
        ({
            let hotkey = HotkeyView::of_tokens(tokens);
            hotkey.modifiers.ctrl || hotkey.modifiers.shift || hotkey.modifiers.alt
                || hotkey.modifiers.meta || hotkey.keys.len() > 0
        }),
    decreases tokens.len(),
{
    if tokens.len() > 1 {
        lemma_combination_requires(tokens.drop_last());
    }
}

/// Combinations that ask for the same thing are satisfied by the same held
/// keys: the order of the keys plays no part in matching.
pub proof fn lemma_same_as_held(one: HotkeyView, other: HotkeyView, pressed: Set<Seq<char>>)
    requires
        one.same_as(other),
    ensures
        one.held_in(pressed) == other.held_in(pressed),
{
    assert forall|a: HotkeyView, b: HotkeyView| a.same_as(b) && a.held_in(pressed) implies b.held_in(
        pressed,
    ) by {
        assert forall|i: int| 0 <= i < b.keys.len() implies pressed.contains(
            #[trigger] b.keys[i],
        ) by {
            assert(b.keys.to_set().contains(b.keys[i]));
            assert(a.keys.to_set().contains(b.keys[i]));
            let j = choose|j: int| 0 <= j < a.keys.len() && a.keys[j] == b.keys[i];
            assert(pressed.contains(a.keys[j]));
        }
    }
    assert(other.same_as(one));
}

/// The alternative at `at` is the first that the held keys satisfy if it is
/// satisfied and none before it is.
pub proof fn lemma_first_held_at(hotkeys: Seq<HotkeyView>, pressed: Set<Seq<char>>, at: int)
    requires
        0 <= at < hotkeys.len(),
        hotkeys[at].held_in(pressed),
        forall|j: int| 0 <= j < at ==> !(#[trigger] hotkeys[j]).held_in(pressed),
    ensures
        first_held(hotkeys, pressed) == Some(at),
{
    lemma_first_held_from(hotkeys, pressed, 0);
}

/// Dropping repeated alternatives changes nothing about what is matched:
/// the first alternative that the held keys satisfy is the same combination
/// before and after.
pub proof fn lemma_distinct_first_held(alternatives: Seq<HotkeyView>, pressed: Set<Seq<char>>)
    ensures
        match first_held(alternatives, pressed) {
            Some(at) => first_held(distinct(alternatives), pressed) is Some && distinct(
                alternatives,
            )[first_held(distinct(alternatives), pressed)->0] == alternatives[at],
            None => first_held(distinct(alternatives), pressed) is None,
        },
    decreases alternatives.len(),
{
    let kept = distinct(alternatives);
    lemma_first_held_from(alternatives, pressed, 0);
    lemma_first_held_from(kept, pressed, 0);
    if alternatives.len() > 0 {
        let front = alternatives.drop_last();
        let before = distinct(front);
        let last = alternatives.last();
        lemma_distinct_first_held(front, pressed);
        lemma_first_held_from(front, pressed, 0);
        lemma_first_held_from(before, pressed, 0);
        assert forall|j: int| 0 <= j < front.len() implies front[j] == alternatives[j] by {}
        assert forall|j: int| 0 <= j < before.len() implies before[j] == kept[j] by {}
        match first_held(front, pressed) {
            Some(at) => {
                lemma_first_held_at(alternatives, pressed, at);
                let found = first_held(before, pressed)->0;
                assert(kept[found].held_in(pressed));
                assert forall|j: int| 0 <= j < found implies !(#[trigger] kept[j]).held_in(
                    pressed,
                ) by {
                    assert(kept[j] == before[j]);
                }
                lemma_first_held_at(kept, pressed, found);
            },
            None => {
                if last.held_in(pressed) {
                    assert forall|j: int| 0 <= j < alternatives.len() - 1 implies !(
                    #[trigger] alternatives[j]).held_in(pressed) by {
                        assert(alternatives[j] == front[j]);
                    }
                    lemma_first_held_at(alternatives, pressed, alternatives.len() - 1);
                    if listed(before, last) {
                        let k = choose|k: int|
                            0 <= k < before.len() && (#[trigger] before[k]).same_as(last);
                        lemma_same_as_held(before[k], last, pressed);
                        assert(false);
                    }
                    assert(kept == before.push(last));
                    assert forall|j: int| 0 <= j < kept.len() - 1 implies !(#[trigger] kept[j]).held_in(
                        pressed,
                    ) by {
                        assert(kept[j] == before[j]);
                    }
                    lemma_first_held_at(kept, pressed, kept.len() - 1);
                } else {
                    assert forall|j: int| 0 <= j < alternatives.len() implies !(
                    #[trigger] alternatives[j]).held_in(pressed) by {
                        if j < front.len() {
                            assert(alternatives[j] == front[j]);
                        }
                    }
                    assert forall|j: int| 0 <= j < kept.len() implies !(#[trigger] kept[j]).held_in(
                        pressed,
                    ) by {
                        if j < before.len() {
                            assert(kept[j] == before[j]);
                        }
                    }
                }
            },
        }
    }
}

} // verus!
