use leptos_hotkeys::binding::{first_match, is_in_scope, Binding};
use leptos_hotkeys::context::HotkeysContext;
use leptos_hotkeys::hotkey::{is_hotkey_match, parse_hotkeys, Hotkey, MalformedSpec};
use leptos_hotkeys::pressed::PressedKeys;
use leptos_hotkeys::registry::{BindingHandle, BindingRegistry, Firing};
use leptos_hotkeys::scopes::ScopeSet;
use leptos_hotkeys::use_hotkeys::{use_hotkeys_ref_scoped, use_hotkeys_scoped};

fn names(list: &[&str]) -> Vec<String> {
    list.iter().map(|name| name.to_string()).collect()
}

fn holding(keys: &[&str]) -> PressedKeys {
    let mut pressed = PressedKeys::new();
    for key in keys {
        pressed.press(key.to_string());
    }
    pressed
}

fn context(scopes: &[&str]) -> HotkeysContext<&'static str> {
    HotkeysContext::new(&names(scopes), true)
}

fn bind(
    context: &mut HotkeysContext<&'static str>,
    spec: &str,
    scopes: &[&str],
    label: &'static str,
) -> BindingHandle {
    use_hotkeys_scoped(context, spec.to_string(), label, names(scopes)).unwrap()
}

fn labels(context: &HotkeysContext<&'static str>, fired: &[Firing]) -> Vec<&'static str> {
    fired.iter().map(|firing| *context.callback(firing.handle).unwrap()).collect()
}

fn press(context: &mut HotkeysContext<&'static str>, key: &str) -> Vec<&'static str> {
    let fired = context.press(key.to_string());
    labels(context, &fired)
}

fn release(context: &mut HotkeysContext<&'static str>, key: &str) -> Vec<&'static str> {
    let fired = context.release(key);
    labels(context, &fired)
}

fn key_down(context: &mut HotkeysContext<&'static str>, key: &str) -> Vec<&'static str> {
    let fired = context.key_down(key);
    labels(context, &fired)
}

fn enable(context: &mut HotkeysContext<&'static str>, scope: &str) -> Vec<&'static str> {
    let fired = context.enable_scope(scope.to_string());
    labels(context, &fired)
}

fn disable(context: &mut HotkeysContext<&'static str>, scope: &str) -> Vec<&'static str> {
    let fired = context.disable_scope(scope);
    labels(context, &fired)
}

fn toggle(context: &mut HotkeysContext<&'static str>, scope: &str) -> Vec<&'static str> {
    let fired = context.toggle_scope(scope.to_string());
    labels(context, &fired)
}

#[test]
fn scoped_binding_waits_for_its_scope() {
    let mut ctx = context(&[]);
    let handle = bind(&mut ctx, "arrowup", &["a"], "up");
    assert!(ctx.press("arrowup".to_string()).is_empty());
    assert!(ctx.press("shift".to_string()).is_empty());
    assert!(ctx.enable_scope("b".to_string()).is_empty());
    let fired = ctx.enable_scope("a".to_string());
    assert_eq!(fired, vec![Firing { handle, keys: names(&["arrowup"]) }]);
    assert!(ctx.enable_scope("a".to_string()).is_empty());
    assert!(ctx.disable_scope("a").is_empty());
    assert!(ctx.release("shift").is_empty());
}

#[test]
fn global_binding_ignores_scopes() {
    let mut ctx = context(&[]);
    let handle = bind(&mut ctx, "t", &[], "theme");
    let fired = ctx.press("t".to_string());
    assert_eq!(fired, vec![Firing { handle, keys: names(&["t"]) }]);
    assert_eq!(enable(&mut ctx, "a"), vec!["theme"]);
    assert_eq!(toggle(&mut ctx, "b"), vec!["theme"]);
    assert_eq!(disable(&mut ctx, "a"), vec!["theme"]);
    assert_eq!(toggle(&mut ctx, "b"), vec!["theme"]);
    assert!(ctx.active_scopes().is_empty());
}

#[test]
fn either_alternative_fires() {
    let mut ctx = context(&[]);
    let handle = bind(&mut ctx, "g,h", &[], "go");
    assert!(ctx.evaluate().is_empty());
    assert!(ctx.press("x".to_string()).is_empty());
    assert_eq!(ctx.press("g".to_string()), vec![Firing { handle, keys: names(&["g"]) }]);
    ctx.reset();
    assert_eq!(ctx.press("h".to_string()), vec![Firing { handle, keys: names(&["h"]) }]);
    assert_eq!(ctx.press("g".to_string()), vec![Firing { handle, keys: names(&["g"]) }]);
    assert!(ctx.reset().is_empty());
}

#[test]
fn required_modifier_must_be_held() {
    let hotkey = Hotkey::new("ctrl+k").unwrap();
    assert!(!is_hotkey_match(&hotkey, &holding(&["k"])));
    assert!(!is_hotkey_match(&hotkey, &holding(&["control"])));
    assert!(!is_hotkey_match(&hotkey, &holding(&["shift", "k"])));
    assert!(is_hotkey_match(&hotkey, &holding(&["control", "k"])));
    assert!(is_hotkey_match(&hotkey, &holding(&["k", "ctrl"])));
    assert!(!is_hotkey_match(&hotkey, &holding(&[])));
}

#[test]
fn extra_modifiers_do_not_block() {
    let hotkey = Hotkey::new("ctrl+k").unwrap();
    assert!(is_hotkey_match(&hotkey, &holding(&["control", "shift", "k"])));
    assert!(is_hotkey_match(&hotkey, &holding(&["control", "shift", "alt", "meta", "k", "j"])));
    let plain = Hotkey::new("k").unwrap();
    assert!(is_hotkey_match(&plain, &holding(&["control", "k"])));
}

#[test]
fn each_modifier_is_recognized_by_its_keys() {
    assert!(is_hotkey_match(&Hotkey::new("shift").unwrap(), &holding(&["shift"])));
    assert!(!is_hotkey_match(&Hotkey::new("shift").unwrap(), &holding(&["alt"])));
    assert!(is_hotkey_match(&Hotkey::new("alt").unwrap(), &holding(&["alt"])));
    assert!(!is_hotkey_match(&Hotkey::new("alt").unwrap(), &holding(&["meta"])));
    assert!(is_hotkey_match(&Hotkey::new("cmd").unwrap(), &holding(&["meta"])));
    assert!(is_hotkey_match(&Hotkey::new("meta").unwrap(), &holding(&["cmd"])));
    assert!(is_hotkey_match(&Hotkey::new("meta").unwrap(), &holding(&["command"])));
    assert!(!is_hotkey_match(&Hotkey::new("meta").unwrap(), &holding(&["control"])));
    assert!(is_hotkey_match(&Hotkey::new("control").unwrap(), &holding(&["ctrl"])));
}

#[test]
fn every_key_of_a_combination_must_be_held() {
    let hotkey = Hotkey::new("a+b").unwrap();
    assert!(!is_hotkey_match(&hotkey, &holding(&["a"])));
    assert!(!is_hotkey_match(&hotkey, &holding(&["b"])));
    assert!(is_hotkey_match(&hotkey, &holding(&["b", "a"])));
}

#[test]
fn blur_resets_when_allowed() {
    let mut ctx: HotkeysContext<&'static str> = HotkeysContext::new(&names(&[]), true);
    assert!(ctx.allows_blur_reset());
    ctx.key_down("k");
    assert!(ctx.pressed_keys().is_pressed("k"));
    ctx.blur();
    assert!(ctx.pressed_keys().is_empty());
}

#[test]
fn blur_keeps_keys_when_opted_out() {
    let mut ctx: HotkeysContext<&'static str> = HotkeysContext::new(&names(&[]), false);
    assert!(!ctx.allows_blur_reset());
    bind(&mut ctx, "k", &[], "k");
    ctx.key_down("k");
    assert!(ctx.blur().is_empty());
    assert!(ctx.pressed_keys().is_pressed("k"));
    assert_eq!(ctx.pressed_keys().len(), 1);
}

#[test]
fn fires_once_per_transition() {
    let mut ctx = context(&[]);
    let handle = bind(&mut ctx, "arrowup", &["a"], "up");
    assert!(ctx.enable_scope("a".to_string()).is_empty());
    let first = ctx.press("arrowup".to_string());
    assert_eq!(first, vec![Firing { handle, keys: names(&["arrowup"]) }]);
    assert!(ctx.press("arrowup".to_string()).is_empty());
    assert!(ctx.press("arrowup".to_string()).is_empty());
    assert!(ctx.release("arrowup").is_empty());
    assert!(ctx.release("arrowup").is_empty());
    let second = ctx.press("arrowup".to_string());
    assert_eq!(second, vec![Firing { handle, keys: names(&["arrowup"]) }]);
}

#[test]
fn all_matching_bindings_fire_in_registration_order() {
    let mut ctx = context(&[]);
    let first = bind(&mut ctx, "k", &[], "first");
    let second = bind(&mut ctx, "k", &[], "second");
    let other = bind(&mut ctx, "j", &[], "other");
    assert!(first != second && second != other && first != other);
    let fired = ctx.press("k".to_string());
    assert_eq!(
        fired,
        vec![
            Firing { handle: first, keys: names(&["k"]) },
            Firing { handle: second, keys: names(&["k"]) },
        ]
    );
    assert_eq!(labels(&ctx, &fired), vec!["first", "second"]);
    assert_eq!(press(&mut ctx, "j"), vec!["first", "second", "other"]);
}

#[test]
fn key_events_are_case_insensitive() {
    let mut ctx = context(&["scope_a"]);
    let handle = bind(&mut ctx, "G+control", &[], "gorillas");
    assert!(ctx.key_down("Control").is_empty());
    assert_eq!(ctx.key_down("G"), vec![Firing { handle, keys: names(&["g"]) }]);
    assert!(ctx.key_down("g").is_empty());
    assert!(ctx.pressed_keys().is_pressed("control"));
    assert!(ctx.pressed_keys().is_pressed("g"));
    assert!(!ctx.pressed_keys().is_pressed("G"));
    assert!(ctx.key_up("g").is_empty());
    assert!(!ctx.pressed_keys().is_pressed("g"));
    assert!(ctx.key_up("CONTROL").is_empty());
    assert!(ctx.pressed_keys().is_empty());
}

#[test]
fn release_of_an_unrelated_key_evaluates_again() {
    let mut ctx = context(&[]);
    bind(&mut ctx, "k", &[], "k");
    assert_eq!(press(&mut ctx, "k"), vec!["k"]);
    assert_eq!(press(&mut ctx, "shift"), vec!["k"]);
    assert_eq!(release(&mut ctx, "shift"), vec!["k"]);
    assert!(ctx.release("shift").is_empty());
}

#[test]
fn suppression_names_the_keys_of_the_first_alternative_held() {
    let mut ctx = context(&[]);
    let handle = bind(&mut ctx, "ctrl+a+b,b", &[], "ab");
    assert_eq!(ctx.press("b".to_string()), vec![Firing { handle, keys: names(&["b"]) }]);
    assert_eq!(ctx.press("a".to_string()), vec![Firing { handle, keys: names(&["b"]) }]);
    assert_eq!(
        ctx.press("control".to_string()),
        vec![Firing { handle, keys: names(&["a", "b"]) }]
    );
}

#[test]
fn malformed_spec_registers_nothing() {
    let mut ctx = context(&[]);
    let rejected = use_hotkeys_scoped(&mut ctx, "ctrl+".to_string(), "bad", names(&[]));
    assert_eq!(rejected, Err(MalformedSpec));
    assert_eq!(ctx.bound_hotkeys().len(), 0);
    let rejected = use_hotkeys_scoped(&mut ctx, ",".to_string(), "bad", names(&[]));
    assert_eq!(rejected, Err(MalformedSpec));
    assert_eq!(ctx.bound_hotkeys().len(), 0);
    assert!(ctx.can_register());
}

#[test]
fn unregister_is_idempotent() {
    let mut ctx = context(&[]);
    let first = bind(&mut ctx, "k", &[], "first");
    let second = bind(&mut ctx, "k", &[], "second");
    let removed = ctx.unregister(first).unwrap();
    assert_eq!(removed.callback, "first");
    assert_eq!(removed.hotkeys, parse_hotkeys("k").unwrap());
    assert!(ctx.unregister(first).is_none());
    assert!(ctx.callback(first).is_none());
    assert_eq!(ctx.bound_hotkeys().len(), 1);
    assert_eq!(press(&mut ctx, "k"), vec!["second"]);
    let third = bind(&mut ctx, "k", &[], "third");
    assert!(third != first && third != second);
    assert!(ctx.unregister(first).is_none());
    assert_eq!(ctx.bound_hotkeys().len(), 2);
}

#[test]
fn registration_and_removal_fire_nothing() {
    let mut ctx = context(&[]);
    ctx.press("k".to_string());
    let handle = ctx.register(parse_hotkeys("k").unwrap(), names(&[]), "late");
    assert_eq!(labels(&ctx, &ctx.evaluate()), vec!["late"]);
    assert!(ctx.press("k".to_string()).is_empty());
    assert!(ctx.unregister(handle).is_some());
    assert!(ctx.evaluate().is_empty());
}

#[test]
fn contexts_are_isolated() {
    let mut one = context(&["a"]);
    let mut other = context(&[]);
    bind(&mut one, "k", &["a"], "one");
    bind(&mut other, "k", &["a"], "other");
    assert_eq!(press(&mut one, "k"), vec!["one"]);
    assert!(other.pressed_keys().is_empty());
    assert!(other.press("k".to_string()).is_empty());
    assert!(!other.active_scopes().is_active("a"));
    assert!(one.active_scopes().is_active("a"));
}

#[test]
fn initial_scopes_gate_from_the_start() {
    let mut ctx = context(&["scope_a"]);
    bind(&mut ctx, "arrowup", &["scope_a"], "inc");
    bind(&mut ctx, "arrowdown", &["scope_b", "scope_a"], "dec");
    bind(&mut ctx, "escape", &["scope_b"], "never");
    assert_eq!(key_down(&mut ctx, "ArrowUp"), vec!["inc"]);
    assert_eq!(key_down(&mut ctx, "ArrowDown"), vec!["inc", "dec"]);
    assert_eq!(key_down(&mut ctx, "Escape"), vec!["inc", "dec"]);
    assert_eq!(toggle(&mut ctx, "scope_a"), Vec::<&str>::new());
    assert_eq!(
        toggle(&mut ctx, "scope_b"),
        vec!["dec", "never"]
    );
}

#[test]
fn detached_binding_is_evaluated_on_demand() {
    let mut ctx = context(&[]);
    let binding =
        use_hotkeys_ref_scoped("Shift+K, j".to_string(), "button", names(&["a"])).unwrap();
    assert_eq!(binding.callback, "button");
    assert_eq!(binding.scopes, names(&["a"]));
    assert_eq!(binding.hotkeys, parse_hotkeys("shift+k,j").unwrap());
    assert!(ctx.press("j".to_string()).is_empty());
    assert_eq!(ctx.evaluate_binding(&binding), None);
    ctx.enable_scope("a".to_string());
    assert_eq!(ctx.evaluate_binding(&binding), Some(names(&["j"])));
    ctx.press("k".to_string());
    ctx.press("shift".to_string());
    assert_eq!(ctx.evaluate_binding(&binding), Some(names(&["k"])));
    assert_eq!(ctx.bound_hotkeys().len(), 0);
    assert_eq!(
        use_hotkeys_ref_scoped("k+".to_string(), "button", names(&[])).err(),
        Some(MalformedSpec)
    );
}

#[test]
fn scope_check_follows_the_rule() {
    let active = ScopeSet::from_names(&names(&["a"]));
    assert!(is_in_scope(&names(&[]), &active));
    assert!(is_in_scope(&names(&["a"]), &active));
    assert!(is_in_scope(&names(&["b", "a"]), &active));
    assert!(!is_in_scope(&names(&["b"]), &active));
    assert!(is_in_scope(&names(&[]), &ScopeSet::new()));
    assert!(!is_in_scope(&names(&["a"]), &ScopeSet::new()));
}

#[test]
fn first_match_takes_the_earliest_alternative() {
    let alternatives = parse_hotkeys("ctrl+k,k,j").unwrap();
    assert_eq!(first_match(&alternatives, &holding(&["j"])), Some(2));
    assert_eq!(first_match(&alternatives, &holding(&["j", "k"])), Some(1));
    assert_eq!(first_match(&alternatives, &holding(&["j", "k", "control"])), Some(0));
    assert_eq!(first_match(&alternatives, &holding(&["control"])), None);
    assert_eq!(first_match(&Vec::new(), &holding(&["k"])), None);
}

#[test]
fn binding_decides_by_scope_and_keys() {
    let binding = Binding::new(parse_hotkeys("g,h").unwrap(), names(&["a"]), 7u32);
    let off = ScopeSet::new();
    let on = ScopeSet::from_names(&names(&["a"]));
    assert_eq!(binding.evaluate(&holding(&["g"]), &off), None);
    assert_eq!(binding.evaluate(&holding(&["g"]), &on), Some(names(&["g"])));
    assert_eq!(binding.evaluate(&holding(&["h"]), &on), Some(names(&["h"])));
    assert_eq!(binding.evaluate(&holding(&[]), &on), None);
}

#[test]
fn registry_keeps_bindings_apart() {
    let mut registry: BindingRegistry<u32> = BindingRegistry::new();
    assert!(registry.can_register());
    let one = registry.register(Binding::new(parse_hotkeys("k").unwrap(), names(&[]), 1));
    let two = registry.register(Binding::new(parse_hotkeys("k").unwrap(), names(&[]), 2));
    assert!(one != two);
    assert_eq!(registry.len(), 2);
    assert_eq!(registry.get(one).unwrap().callback, 1);
    assert_eq!(registry.get(two).unwrap().callback, 2);
    let fired = registry.evaluate(&holding(&["k"]), &ScopeSet::new());
    assert_eq!(
        fired,
        vec![
            Firing { handle: one, keys: names(&["k"]) },
            Firing { handle: two, keys: names(&["k"]) },
        ]
    );
    assert_eq!(registry.unregister(one).unwrap().callback, 1);
    assert!(registry.unregister(one).is_none());
    assert!(registry.get(one).is_none());
    assert_eq!(registry.len(), 1);
    assert_eq!(
        registry.evaluate(&holding(&["k"]), &ScopeSet::new()),
        vec![Firing { handle: two, keys: names(&["k"]) }]
    );
}
