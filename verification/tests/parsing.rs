use leptos_hotkeys::hotkey::{parse_hotkeys, Hotkey, KeyboardModifiers, MalformedSpec};

fn names(list: &[&str]) -> Vec<String> {
    list.iter().map(|name| name.to_string()).collect()
}

fn modifiers(ctrl: bool, shift: bool, alt: bool, meta: bool) -> KeyboardModifiers {
    KeyboardModifiers { ctrl, shift, alt, meta }
}

#[test]
fn parses_modifier_and_key() {
    let parsed = parse_hotkeys("ctrl+k").unwrap();
    assert_eq!(parsed.len(), 1);
    assert_eq!(parsed[0].modifiers, modifiers(true, false, false, false));
    assert_eq!(parsed[0].keys, names(&["k"]));
}

#[test]
fn parses_two_alternatives_in_order() {
    let parsed = parse_hotkeys("ctrl+k,shift+j").unwrap();
    assert_eq!(parsed.len(), 2);
    assert_eq!(parsed[0].modifiers, modifiers(true, false, false, false));
    assert_eq!(parsed[0].keys, names(&["k"]));
    assert_eq!(parsed[1].modifiers, modifiers(false, true, false, false));
    assert_eq!(parsed[1].keys, names(&["j"]));
}

#[test]
fn parsing_ignores_case() {
    let upper = parse_hotkeys("CTRL+K").unwrap();
    let lower = parse_hotkeys("ctrl+k").unwrap();
    assert_eq!(upper, lower);
    assert_eq!(upper[0].keys, names(&["k"]));
    assert!(upper[0].modifiers.ctrl);
}

#[test]
fn parsing_lowercases_beyond_ascii() {
    let parsed = Hotkey::new("\u{c9}").unwrap();
    assert_eq!(parsed.keys, names(&["\u{e9}"]));
}

#[test]
fn parsing_trims_each_token() {
    let parsed = Hotkey::new("  Ctrl +\tShift+  K \n").unwrap();
    assert_eq!(parsed.modifiers, modifiers(true, true, false, false));
    assert_eq!(parsed.keys, names(&["k"]));
}

#[test]
fn every_reserved_name_sets_its_modifier() {
    assert_eq!(Hotkey::new("ctrl").unwrap().modifiers, modifiers(true, false, false, false));
    assert_eq!(Hotkey::new("control").unwrap().modifiers, modifiers(true, false, false, false));
    assert_eq!(Hotkey::new("shift").unwrap().modifiers, modifiers(false, true, false, false));
    assert_eq!(Hotkey::new("alt").unwrap().modifiers, modifiers(false, false, true, false));
    assert_eq!(Hotkey::new("meta").unwrap().modifiers, modifiers(false, false, false, true));
    assert_eq!(Hotkey::new("cmd").unwrap().modifiers, modifiers(false, false, false, true));
    assert_eq!(Hotkey::new("command").unwrap().modifiers, modifiers(false, false, false, true));
    assert!(Hotkey::new("Control+ALT+Command+SHIFT").unwrap().keys.is_empty());
    assert_eq!(
        Hotkey::new("Control+ALT+Command+SHIFT").unwrap().modifiers,
        modifiers(true, true, true, true)
    );
}

#[test]
fn keys_keep_the_order_of_the_spec() {
    let parsed = Hotkey::new("b+ctrl+a+c").unwrap();
    assert_eq!(parsed.keys, names(&["b", "a", "c"]));
    assert!(parsed.modifiers.ctrl);
}

#[test]
fn unknown_key_names_are_kept() {
    let parsed = Hotkey::new("ctrl+NoSuchKey").unwrap();
    assert_eq!(parsed.keys, names(&["nosuchkey"]));
}

#[test]
fn empty_token_is_rejected() {
    assert_eq!(Hotkey::new("ctrl+").unwrap_err(), MalformedSpec);
    assert_eq!(Hotkey::new("+k").unwrap_err(), MalformedSpec);
    assert_eq!(Hotkey::new("ctrl++k").unwrap_err(), MalformedSpec);
    assert_eq!(Hotkey::new("ctrl+ +k").unwrap_err(), MalformedSpec);
    assert_eq!(parse_hotkeys("ctrl+").unwrap_err(), MalformedSpec);
    assert_eq!(parse_hotkeys("g,ctrl+").unwrap_err(), MalformedSpec);
}

#[test]
fn empty_combination_is_rejected() {
    assert_eq!(Hotkey::new("").unwrap_err(), MalformedSpec);
    assert_eq!(Hotkey::new("   ").unwrap_err(), MalformedSpec);
    assert_eq!(parse_hotkeys("").unwrap_err(), MalformedSpec);
    assert_eq!(parse_hotkeys(",").unwrap_err(), MalformedSpec);
    assert_eq!(parse_hotkeys("g,").unwrap_err(), MalformedSpec);
    assert_eq!(parse_hotkeys(",g").unwrap_err(), MalformedSpec);
    assert_eq!(parse_hotkeys("g, ,h").unwrap_err(), MalformedSpec);
}

#[test]
fn repeated_alternatives_are_listed_once() {
    let parsed = parse_hotkeys("g,h,G,ctrl+k+j,j+k+control").unwrap();
    assert_eq!(parsed.len(), 3);
    assert_eq!(parsed[0].keys, names(&["g"]));
    assert_eq!(parsed[1].keys, names(&["h"]));
    assert_eq!(parsed[2].keys, names(&["k", "j"]));
}

#[test]
fn equality_ignores_the_order_of_keys() {
    let one = Hotkey::new("ctrl+a+b").unwrap();
    let other = Hotkey::new("b+a+ctrl").unwrap();
    assert!(one == other);
    assert!(one.same_as(&other));
    assert!(one != Hotkey::new("a+b").unwrap());
    assert!(one != Hotkey::new("ctrl+a").unwrap());
    assert!(one != Hotkey::new("ctrl+a+b+c").unwrap());
    assert!(Hotkey::new("a+a").unwrap() == Hotkey::new("a").unwrap());
}

#[test]
fn tokens_are_read_as_they_are() {
    let built = Hotkey::from_tokens(&names(&["shift", "x", "meta", "y"]));
    assert_eq!(built.modifiers, modifiers(false, true, false, true));
    assert_eq!(built.keys, names(&["x", "y"]));
    let verbatim = Hotkey::from_tokens(&names(&["CTRL", " k"]));
    assert_eq!(verbatim.modifiers, modifiers(false, false, false, false));
    assert_eq!(verbatim.keys, names(&["CTRL", " k"]));
    let nothing = Hotkey::from_tokens(&names(&[]));
    assert_eq!(nothing.modifiers, KeyboardModifiers::default());
    assert!(nothing.keys.is_empty());
}

#[test]
fn comma_inside_one_combination_is_a_key() {
    let parsed = Hotkey::new("ctrl+,").unwrap();
    assert_eq!(parsed.keys, names(&[","]));
}
