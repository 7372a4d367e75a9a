use leptos_hotkeys::name_set::NameSet;
use leptos_hotkeys::pressed::PressedKeys;
use leptos_hotkeys::scopes::ScopeSet;
use leptos_hotkeys::text::normalize_key;

fn held(keys: &PressedKeys) -> Vec<String> {
    (0..keys.len()).map(|at| keys.get(at).unwrap().clone()).collect()
}

fn active(scopes: &ScopeSet) -> Vec<String> {
    (0..scopes.len()).map(|at| scopes.get(at).unwrap().clone()).collect()
}

#[test]
fn pressing_twice_is_pressing_once() {
    let mut once = PressedKeys::new();
    assert!(once.press("k".to_string()));
    let mut twice = PressedKeys::new();
    assert!(twice.press("k".to_string()));
    assert!(!twice.press("k".to_string()));
    assert_eq!(held(&once), held(&twice));
    assert_eq!(twice.len(), 1);
}

#[test]
fn press_then_release_restores_the_set() {
    let mut keys = PressedKeys::new();
    keys.press("shift".to_string());
    let before = held(&keys);
    assert!(keys.press("k".to_string()));
    assert!(keys.is_pressed("k"));
    assert!(keys.release("k"));
    assert_eq!(held(&keys), before);
    assert!(!keys.is_pressed("k"));
}

#[test]
fn releasing_an_absent_key_changes_nothing() {
    let mut keys = PressedKeys::new();
    keys.press("a".to_string());
    assert!(!keys.release("b"));
    assert_eq!(held(&keys), vec!["a".to_string()]);
}

#[test]
fn reset_clears_every_key() {
    let mut keys = PressedKeys::new();
    assert!(keys.is_empty());
    assert!(!keys.reset());
    keys.press("a".to_string());
    keys.press("b".to_string());
    assert_eq!(keys.len(), 2);
    assert!(keys.reset());
    assert!(keys.is_empty());
    assert_eq!(keys.len(), 0);
    assert!(keys.get(0).is_none());
}

#[test]
fn keys_are_listed_in_the_order_they_went_down() {
    let mut keys = PressedKeys::new();
    keys.press("c".to_string());
    keys.press("a".to_string());
    keys.press("b".to_string());
    keys.release("a");
    assert_eq!(held(&keys), vec!["c".to_string(), "b".to_string()]);
    assert!(keys.get(2).is_none());
}

#[test]
fn key_names_are_normalized_to_lowercase() {
    assert_eq!(normalize_key("ArrowUp"), "arrowup");
    assert_eq!(normalize_key("Control"), "control");
    assert_eq!(normalize_key(" "), " ");
    assert_eq!(normalize_key("\u{c4}"), "\u{e4}");
}

#[test]
fn enable_adds_once() {
    let mut scopes = ScopeSet::new();
    assert!(scopes.is_empty());
    assert!(scopes.enable("a".to_string()));
    assert!(!scopes.enable("a".to_string()));
    assert!(scopes.is_active("a"));
    assert_eq!(scopes.len(), 1);
}

#[test]
fn disable_removes_if_present() {
    let mut scopes = ScopeSet::from_names(&vec!["a".to_string(), "b".to_string()]);
    assert!(scopes.disable("a"));
    assert!(!scopes.disable("a"));
    assert!(!scopes.disable("never seen"));
    assert_eq!(active(&scopes), vec!["b".to_string()]);
}

#[test]
fn toggle_flips_membership() {
    let mut scopes = ScopeSet::new();
    assert!(scopes.toggle("a".to_string()));
    assert!(scopes.is_active("a"));
    assert!(!scopes.toggle("a".to_string()));
    assert!(!scopes.is_active("a"));
    assert!(scopes.is_empty());
}

#[test]
fn initial_scopes_are_a_set() {
    let scopes =
        ScopeSet::from_names(&vec!["a".to_string(), "b".to_string(), "a".to_string()]);
    assert_eq!(active(&scopes), vec!["a".to_string(), "b".to_string()]);
    assert!(scopes.is_active("a"));
    assert!(scopes.is_active("b"));
    assert!(!scopes.is_active("c"));
    assert!(!scopes.is_active("A"));
}

#[test]
fn any_text_is_a_scope_name() {
    let mut scopes = ScopeSet::new();
    assert!(scopes.enable(String::new()));
    assert!(scopes.enable(" spaced out ".to_string()));
    assert!(scopes.is_active(""));
    assert!(scopes.is_active(" spaced out "));
    assert!(!scopes.is_active("spaced out"));
}

#[test]
fn name_set_tells_members_apart() {
    let mut set = NameSet::new();
    assert!(set.insert("one".to_string()));
    assert!(set.insert("two".to_string()));
    assert!(!set.insert("one".to_string()));
    assert!(set.contains("one"));
    assert!(set.contains("two"));
    assert!(!set.contains("on"));
    assert!(!set.contains("three"));
    assert_eq!(set.len(), 2);
    assert!(set.remove("one"));
    assert!(!set.remove("one"));
    assert_eq!(set.get(0).unwrap(), "two");
    assert!(set.clear());
    assert!(!set.clear());
    assert!(set.is_empty());
}
