//! Terminal session configuration.
use vstd::prelude::*;

verus! {

/// Whether to use the kitty keyboard protocol.
#[derive(Debug, Clone, Copy, PartialEq, Eq, Structural)]
pub enum KittyKeyboardProtocolConfig {
    Auto,
    Disabled,
    Enabled,
}

/// Terminal configuration.
#[derive(Debug, Clone, Copy, PartialEq, Eq, Structural)]
pub struct Config {
    pub enable_mouse_capture: bool,
    pub force_enable_extended_underlines: bool,
    pub kitty_keyboard_protocol: KittyKeyboardProtocolConfig,
}

impl Config {
    /// The terminal configuration that the editor's settings ask for: mouse capture from
    /// the `mouse` setting, extended underlines from `undercurl`, and the keyboard protocol.
    pub fn from_editor(
        mouse: bool,
        undercurl: bool,
        kitty_keyboard_protocol: KittyKeyboardProtocolConfig,
    ) -> (r: Config)
        ensures
            r == (Config {
                enable_mouse_capture: mouse,
                force_enable_extended_underlines: undercurl,
                kitty_keyboard_protocol,
            }),
    {
        Config {
            enable_mouse_capture: mouse,
            force_enable_extended_underlines: undercurl,
            kitty_keyboard_protocol,
        }
    }
}

} // verus!
