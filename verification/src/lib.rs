//! A hotkey matching and scope engine: parses key-combination specs, tracks
//! the keys that are held and the scopes that are active, and decides which
//! registered bindings fire on each change of that state.
pub mod binding;
pub mod context;
pub mod hotkey;
pub mod laws;
pub mod name_set;
pub mod pressed;
pub mod registry;
pub mod scopes;
pub mod text;
pub mod use_hotkeys;

pub use binding::Binding;
pub use context::HotkeysContext;
pub use hotkey::{is_hotkey_match, parse_hotkeys, Hotkey, KeyboardModifiers, MalformedSpec};
pub use pressed::PressedKeys;
pub use registry::{BindingHandle, BindingRegistry, Firing};
pub use scopes::ScopeSet;
pub use use_hotkeys::{use_hotkeys_ref_scoped, use_hotkeys_scoped};
