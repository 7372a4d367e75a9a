//! Declaring shortcuts from textual specs.
use crate::binding::{Binding, BindingView};
use crate::context::HotkeysContext;
use crate::hotkey::{alternatives_of, parse_hotkeys, well_formed_spec, MalformedSpec};
use crate::registry::{has_handle, BindingHandle};
use vstd::prelude::*;

verus! {

/// Registers a shortcut: parses `key_combination` and registers a binding
/// of its alternatives with `scopes` and `on_triggered`. A malformed spec is
/// rejected, and then nothing is registered.
pub fn use_hotkeys_scoped<C>(
    context: &mut HotkeysContext<C>,
    key_combination: String,
    on_triggered: C,
    scopes: Vec<String>,
) -> (registered: Result<BindingHandle, MalformedSpec>)
    requires
        old(context).has_room(),
    ensures
        registered is Ok <==> well_formed_spec(key_combination@),
        match registered {
            Ok(handle) => {
                &&& final(context)@ == old(context)@.register(
                    handle,
                    BindingView {
                        hotkeys: alternatives_of(key_combination@),
                        scopes: scopes.deep_view(),
                        callback: on_triggered,
                    },
                )
                &&& !has_handle(old(context)@.bindings, handle)
                &&& final(context).issued() == old(context).issued() + 1
            },
            Err(_) => final(context)@ == old(context)@ && final(context).issued() == old(
                context,
            ).issued(),
        },
{
    match parse_hotkeys(key_combination.as_str()) {
        Err(error) => Err(error),
        Ok(hotkeys) => Ok(context.register(hotkeys, scopes, on_triggered)),
    }
}

/// Prepares a shortcut that lives outside the registry, for a caller that
/// evaluates it on events of its own choosing: parses `key_combination`
/// and builds a binding of its alternatives with `scopes` and
/// `on_triggered`. A malformed spec is rejected.
pub fn use_hotkeys_ref_scoped<C>(
    key_combination: String,
    on_triggered: C,
    scopes: Vec<String>,
) -> (prepared: Result<Binding<C>, MalformedSpec>)
    ensures
        prepared is Ok <==> well_formed_spec(key_combination@),
        prepared matches Ok(binding) ==> binding@ == (BindingView {
            hotkeys: alternatives_of(key_combination@),
            scopes: scopes.deep_view(),
            callback: on_triggered,
        }),
{
    match parse_hotkeys(key_combination.as_str()) {
        Err(error) => Err(error),
        Ok(hotkeys) => Ok(Binding::new(hotkeys, scopes, on_triggered)),
    }
}

} // verus!
