//! Key combinations: their structure, how a textual spec is parsed into
//! them, and when the held keys satisfy one.
use crate::pressed::PressedKeys;
use crate::text::{
    chars_of, lowercase, lowercase_of, marks_pieces, split, split_bounds, text_eq, trim_bounds,
    trimmed,
};
use vstd::prelude::*;
use vstd::std_specs::cmp::PartialEqSpecImpl;

verus! {

/// The modifier keys that a combination requires.
#[derive(Clone, Copy, Debug, PartialEq, Eq, Structural)]
pub struct KeyboardModifiers {
    pub ctrl: bool,
    pub shift: bool,
    pub alt: bool,
    pub meta: bool,
}

impl Default for KeyboardModifiers {
    /// No modifier is required.
    fn default() -> (modifiers: Self)
        ensures
            modifiers == (KeyboardModifiers { ctrl: false, shift: false, alt: false, meta: false }),
    {
        KeyboardModifiers { ctrl: false, shift: false, alt: false, meta: false }
    }
}

/// One key combination: the modifiers and the other keys that must all be
/// held at the same time.
#[derive(Debug)]
pub struct Hotkey {
    pub modifiers: KeyboardModifiers,
    /// The keys other than modifiers, in the order in which the spec named
    /// them. The order matters for display only.
    pub keys: Vec<String>,
}

/// The mathematical content of a [`Hotkey`].
pub struct HotkeyView {
    pub modifiers: KeyboardModifiers,
    pub keys: Seq<Seq<char>>,
}

impl View for Hotkey {
    type V = HotkeyView;

    open spec fn view(&self) -> HotkeyView {
        HotkeyView { modifiers: self.modifiers, keys: self.keys.deep_view() }
    }
}

impl DeepView for Hotkey {
    type V = HotkeyView;

    open spec fn deep_view(&self) -> HotkeyView {
        self@
    }
}

/// A key-combination spec that cannot be parsed: one of its combinations,
/// or one of the tokens of a combination, is empty or only whitespace.
#[derive(Clone, Copy, Debug, PartialEq, Eq, Structural)]
pub struct MalformedSpec;

/// Whether a normalized token names the control modifier.
pub open spec fn names_ctrl(token: Seq<char>) -> bool {
    token == "ctrl"@ || token == "control"@
}

/// Whether a normalized token names the shift modifier.
pub open spec fn names_shift(token: Seq<char>) -> bool {
    token == "shift"@
}

/// Whether a normalized token names the alt modifier.
pub open spec fn names_alt(token: Seq<char>) -> bool {
    token == "alt"@
}

/// Whether a normalized token names the meta modifier.
pub open spec fn names_meta(token: Seq<char>) -> bool {
    token == "meta"@ || token == "cmd"@ || token == "command"@
}

/// A token of a combination as the parser reads it: trimmed, then
/// lowercased.
pub open spec fn normalized(token: Seq<char>) -> Seq<char> {
    lowercase_of(trimmed(token))
}

impl HotkeyView {
    /// The combination that requires nothing.
    pub open spec fn empty() -> HotkeyView {
        HotkeyView {
            modifiers: KeyboardModifiers { ctrl: false, shift: false, alt: false, meta: false },
            keys: Seq::empty(),
        }
    }

    /// This combination with one more normalized token: a reserved name
    /// sets its modifier, any other token is appended to the keys.
    pub open spec fn with_token(self, token: Seq<char>) -> HotkeyView {
        if names_ctrl(token) {
            HotkeyView { modifiers: KeyboardModifiers { ctrl: true, ..self.modifiers }, ..self }
        } else if names_shift(token) {
            HotkeyView { modifiers: KeyboardModifiers { shift: true, ..self.modifiers }, ..self }
        } else if names_alt(token) {
            HotkeyView { modifiers: KeyboardModifiers { alt: true, ..self.modifiers }, ..self }
        } else if names_meta(token) {
            HotkeyView { modifiers: KeyboardModifiers { meta: true, ..self.modifiers }, ..self }
        } else {
            HotkeyView { keys: self.keys.push(token), ..self }
        }
    }

    /// The combination that a list of normalized tokens describes.
    pub open spec fn of_tokens(tokens: Seq<Seq<char>>) -> HotkeyView
        decreases tokens.len(),
    {
        if tokens.len() == 0 {
            HotkeyView::empty()
        } else {
            HotkeyView::of_tokens(tokens.drop_last()).with_token(tokens.last())
        }
    }

    /// Whether two combinations ask for the same thing: the same modifiers
    /// and the same keys, in whatever order.
    pub open spec fn same_as(self, other: HotkeyView) -> bool {
        self.modifiers == other.modifiers && self.keys.to_set() == other.keys.to_set()
    }
}

/// Whether a combination is well formed: none of its `+`-separated tokens
/// is empty or only whitespace.
pub open spec fn well_formed_combination(text: Seq<char>) -> bool {
    forall|i: int|
        0 <= i < split(text, '+').len() ==> trimmed(#[trigger] split(text, '+')[i]).len() > 0
}

/// The normalized tokens of a combination.
pub open spec fn combination_tokens(text: Seq<char>) -> Seq<Seq<char>> {
    split(text, '+').map_values(|token: Seq<char>| normalized(token))
}

/// The combination that a well-formed text describes.
pub open spec fn combination_of(text: Seq<char>) -> HotkeyView {
    HotkeyView::of_tokens(combination_tokens(text))
}

/// Whether `name` occurs in `names`.
fn names_contain(names: &Vec<String>, name: &str) -> (found: bool)
    ensures
        found == names.deep_view().contains(name@),
{
    let mut i: usize = 0;
    while i < names.len()
        invariant
            i <= names.len(),
            forall|j: int| 0 <= j < i ==> names.deep_view()[j] != name@,
        decreases names.len() - i,
    {
        if text_eq(names[i].as_str(), name) {
            assert(names.deep_view()[i as int] == name@);
            return true;
        }
        i += 1;
    }
    false
}

/// Whether every name of `names` occurs in `others`.
fn names_within(names: &Vec<String>, others: &Vec<String>) -> (within: bool)
    ensures
        within == names.deep_view().to_set().subset_of(others.deep_view().to_set()),
{
    let mut i: usize = 0;
    while i < names.len()
        invariant
            i <= names.len(),
            forall|j: int| 0 <= j < i ==> others.deep_view().contains(names.deep_view()[j]),
        decreases names.len() - i,
    {
        if !names_contain(others, names[i].as_str()) {
            assert(names.deep_view()[i as int] == names[i as int]@);
            assert(names.deep_view().to_set().contains(names[i as int]@));
            return false;
        }
        i += 1;
    }
    true
}

impl Hotkey {
    /// Builds the combination that a list of normalized tokens describes.
    pub fn from_tokens(tokens: &Vec<String>) -> (hotkey: Hotkey)
        ensures
            hotkey@ == HotkeyView::of_tokens(tokens.deep_view()),
    {
        let mut modifiers = KeyboardModifiers::default();
        let mut keys: Vec<String> = Vec::new();
        let mut i: usize = 0;
        assert(tokens.deep_view().take(0) =~= Seq::<Seq<char>>::empty());
        assert(keys.deep_view() =~= Seq::<Seq<char>>::empty());
        while i < tokens.len()
            invariant
                i <= tokens.len(),
                (HotkeyView { modifiers, keys: keys.deep_view() }) == HotkeyView::of_tokens(
                    tokens.deep_view().take(i as int),
                ),
            decreases tokens.len() - i,
        {
            let token = tokens[i].as_str();
            let ghost before = keys.deep_view();
            assert(tokens.deep_view().take(i + 1).drop_last() =~= tokens.deep_view().take(
                i as int,
            ));
            assert(tokens.deep_view().take(i + 1).last() == token@);
            if text_eq(token, "ctrl") || text_eq(token, "control") {
                modifiers.ctrl = true;
            } else if text_eq(token, "shift") {
                modifiers.shift = true;
            } else if text_eq(token, "alt") {
                modifiers.alt = true;
            } else if text_eq(token, "meta") || text_eq(token, "cmd") || text_eq(token, "command") {
                modifiers.meta = true;
            } else {
                keys.push(tokens[i].clone());
                assert(keys.deep_view() =~= before.push(token@));
            }
            i += 1;
        }
        assert(tokens.deep_view().take(tokens.len() as int) =~= tokens.deep_view());
        Hotkey { modifiers, keys }
    }

    /// Parses one combination such as `"ctrl+shift+k"`: splits it on `+`,
    /// trims and lowercases each token, and reads the tokens as modifiers
    /// and keys. A combination with an empty or blank token is rejected.
    pub fn new(key_combination: &str) -> (parsed: Result<Hotkey, MalformedSpec>)
        ensures
            parsed is Ok <==> well_formed_combination(key_combination@),
            parsed matches Ok(hotkey) ==> hotkey@ == combination_of(key_combination@),
    {
        let chars = chars_of(key_combination);
        let bounds = split_bounds(&chars, '+');
        let ghost pieces = split(key_combination@, '+');
        let mut tokens: Vec<String> = Vec::new();
        let mut k: usize = 0;
        while k < bounds.len()
            invariant
                k <= bounds.len(),
                chars@ == key_combination@,
                pieces == split(key_combination@, '+'),
                bounds.len() == pieces.len(),
                marks_pieces(bounds@, chars@, pieces),
                tokens.len() == k,
                forall|j: int| 0 <= j < k ==> #[trigger] tokens.deep_view()[j] == normalized(pieces[j]),
                forall|j: int| 0 <= j < k ==> trimmed(#[trigger] pieces[j]).len() > 0,
            decreases bounds.len() - k,
        {
            let (from, to) = bounds[k];
            assert(bounds@[k as int] == (from, to));
            assert(chars@.subrange(from as int, to as int) == pieces[k as int]);
            let (a, b) = trim_bounds(&chars, from, to);
            if a == b {
                assert(trimmed(pieces[k as int]).len() == 0);
                return Err(MalformedSpec);
            }
            let token = lowercase(key_combination.substring_char(a, b));
            let ghost before = tokens.deep_view();
            tokens.push(token);
            assert(tokens.deep_view() =~= before.push(normalized(pieces[k as int])));
            k += 1;
        }
        assert(tokens.deep_view() =~= combination_tokens(key_combination@));
        Ok(Hotkey::from_tokens(&tokens))
    }

    /// Whether two combinations ask for the same thing: the same modifiers
    /// and the same keys, in whatever order.
    pub fn same_as(&self, other: &Hotkey) -> (same: bool)
        ensures
            same == self@.same_as(other@),
    {
        let same_modifiers = self.modifiers.ctrl == other.modifiers.ctrl && self.modifiers.shift
            == other.modifiers.shift && self.modifiers.alt == other.modifiers.alt
            && self.modifiers.meta == other.modifiers.meta;
        if !same_modifiers {
            return false;
        }
        let same_keys = names_within(&self.keys, &other.keys) && names_within(
            &other.keys,
            &self.keys,
        );
        proof {
            let a = self.keys.deep_view().to_set();
            let b = other.keys.deep_view().to_set();
            if same_keys {
                assert(a =~= b);
            }
        }
        same_keys
    }
}

impl PartialEq for Hotkey {
    fn eq(&self, other: &Hotkey) -> (same: bool) {
        self.same_as(other)
    }
}

impl Eq for Hotkey {

}

impl PartialEqSpecImpl for Hotkey {
    open spec fn obeys_eq_spec() -> bool {
        true
    }

    open spec fn eq_spec(&self, other: &Hotkey) -> bool {
        self@.same_as(other@)
    }
}

/// Whether the held keys include the control modifier.
pub open spec fn ctrl_held(pressed: Set<Seq<char>>) -> bool {
    pressed.contains("ctrl"@) || pressed.contains("control"@)
}

/// Whether the held keys include the shift modifier.
pub open spec fn shift_held(pressed: Set<Seq<char>>) -> bool {
    pressed.contains("shift"@)
}

/// Whether the held keys include the alt modifier.
pub open spec fn alt_held(pressed: Set<Seq<char>>) -> bool {
    pressed.contains("alt"@)
}

/// Whether the held keys include the meta modifier.
pub open spec fn meta_held(pressed: Set<Seq<char>>) -> bool {
    pressed.contains("meta"@) || pressed.contains("cmd"@) || pressed.contains("command"@)
}

impl HotkeyView {
    /// Whether the held keys satisfy this combination: every modifier it
    /// requires is held, and so is every one of its keys. Keys and
    /// modifiers that it does not name may be held as well.
    pub open spec fn held_in(self, pressed: Set<Seq<char>>) -> bool {
        &&& self.modifiers.ctrl ==> ctrl_held(pressed)
        &&& self.modifiers.shift ==> shift_held(pressed)
        &&& self.modifiers.alt ==> alt_held(pressed)
        &&& self.modifiers.meta ==> meta_held(pressed)
        &&& forall|i: int| 0 <= i < self.keys.len() ==> pressed.contains(#[trigger] self.keys[i])
    }
}

/// Decides whether the held keys satisfy a combination.
pub fn is_hotkey_match(hotkey: &Hotkey, pressed_keyset: &PressedKeys) -> (matched: bool)
    ensures
        matched == hotkey@.held_in(pressed_keyset@),
{
    if hotkey.modifiers.ctrl && !(pressed_keyset.is_pressed("ctrl") || pressed_keyset.is_pressed(
        "control",
    )) {
        return false;
    }
    if hotkey.modifiers.shift && !pressed_keyset.is_pressed("shift") {
        return false;
    }
    if hotkey.modifiers.alt && !pressed_keyset.is_pressed("alt") {
        return false;
    }
    if hotkey.modifiers.meta && !(pressed_keyset.is_pressed("meta") || pressed_keyset.is_pressed(
        "cmd",
    ) || pressed_keyset.is_pressed("command")) {
        return false;
    }
    let mut i: usize = 0;
    while i < hotkey.keys.len()
        invariant
            i <= hotkey.keys.len(),
            forall|j: int| 0 <= j < i ==> pressed_keyset@.contains(#[trigger] hotkey@.keys[j]),
        decreases hotkey.keys.len() - i,
    {
        if !pressed_keyset.is_pressed(hotkey.keys[i].as_str()) {
            assert(hotkey@.keys[i as int] == hotkey.keys[i as int]@);
            return false;
        }
        assert(hotkey@.keys[i as int] == hotkey.keys[i as int]@);
        i += 1;
    }
    true
}

/// Whether a list of alternatives holds one that asks for the same thing
/// as `hotkey`.
pub open spec fn listed(alternatives: Seq<HotkeyView>, hotkey: HotkeyView) -> bool {
    exists|i: int| 0 <= i < alternatives.len() && (#[trigger] alternatives[i]).same_as(hotkey)
}

/// A list of alternatives without its repetitions: of combinations that ask
/// for the same thing only the first stays, and the order is kept.
pub open spec fn distinct(alternatives: Seq<HotkeyView>) -> Seq<HotkeyView>
    decreases alternatives.len(),
{
    if alternatives.len() == 0 {
        alternatives
    } else {
        let before = distinct(alternatives.drop_last());
        if listed(before, alternatives.last()) {
            before
        } else {
            before.push(alternatives.last())
        }
    }
}

/// Whether a spec is well formed: every one of its `,`-separated
/// combinations is.
pub open spec fn well_formed_spec(text: Seq<char>) -> bool {
    forall|i: int|
        0 <= i < split(text, ',').len() ==> well_formed_combination(#[trigger] split(text, ',')[i])
}

/// The combinations that a spec lists, one after the other.
pub open spec fn combinations_of(text: Seq<char>) -> Seq<HotkeyView> {
    split(text, ',').map_values(|combination: Seq<char>| combination_of(combination))
}

/// The alternatives that a well-formed spec describes: its combinations,
/// without repetitions.
pub open spec fn alternatives_of(text: Seq<char>) -> Seq<HotkeyView> {
    distinct(combinations_of(text))
}

/// Whether `alternatives` holds a combination that asks for the same thing
/// as `hotkey`.
pub fn is_listed(alternatives: &Vec<Hotkey>, hotkey: &Hotkey) -> (found: bool)
    ensures
        found == listed(alternatives.deep_view(), hotkey@),
{
    let mut i: usize = 0;
    while i < alternatives.len()
        invariant
            i <= alternatives.len(),
            forall|j: int| 0 <= j < i ==> !(#[trigger] alternatives.deep_view()[j]).same_as(hotkey@),
        decreases alternatives.len() - i,
    {
        assert(alternatives.deep_view()[i as int] == alternatives[i as int]@);
        if alternatives[i].same_as(hotkey) {
            return true;
        }
        i += 1;
    }
    false
}

/// Parses a spec such as `"ctrl+k,shift+j"`: splits it on `,` into
/// combinations, parses each, and keeps the first of any that ask for the
/// same thing. A spec with a malformed combination is rejected.
pub fn parse_hotkeys(spec: &str) -> (parsed: Result<Vec<Hotkey>, MalformedSpec>)
    ensures
        parsed is Ok <==> well_formed_spec(spec@),
        parsed matches Ok(alternatives) ==> alternatives.deep_view() == alternatives_of(spec@),
{
    let chars = chars_of(spec);
    let bounds = split_bounds(&chars, ',');
    let ghost pieces = split(spec@, ',');
    let ghost listing = combinations_of(spec@);
    let mut alternatives: Vec<Hotkey> = Vec::new();
    let mut k: usize = 0;
    assert(listing.take(0) =~= Seq::<HotkeyView>::empty());
    assert(alternatives.deep_view() =~= Seq::<HotkeyView>::empty());
    while k < bounds.len()
        invariant
            k <= bounds.len(),
            chars@ == spec@,
            pieces == split(spec@, ','),
            listing == combinations_of(spec@),
            bounds.len() == pieces.len(),
            marks_pieces(bounds@, chars@, pieces),
            forall|j: int| 0 <= j < k ==> well_formed_combination(#[trigger] pieces[j]),
            alternatives.deep_view() == distinct(listing.take(k as int)),
        decreases bounds.len() - k,
    {
        let (from, to) = bounds[k];
        assert(bounds@[k as int] == (from, to));
        assert(chars@.subrange(from as int, to as int) == pieces[k as int]);
        match Hotkey::new(spec.substring_char(from, to)) {
            Err(error) => {
                assert(!well_formed_combination(pieces[k as int]));
                return Err(error);
            },
            Ok(hotkey) => {
                assert(listing.take(k + 1).drop_last() =~= listing.take(k as int));
                assert(listing.take(k + 1).last() == hotkey@);
                if !is_listed(&alternatives, &hotkey) {
                    let ghost before = alternatives.deep_view();
                    alternatives.push(hotkey);
                    assert(alternatives.deep_view() =~= before.push(hotkey@));
                }
            },
        }
        k += 1;
    }
    assert(listing.take(k as int) =~= listing);
    Ok(alternatives)
}

} // verus!
