use helix_lib::terminal::{Config, KittyKeyboardProtocolConfig};

#[test]
fn config_from_editor_settings() {
    let c = Config::from_editor(true, false, KittyKeyboardProtocolConfig::Auto);
    assert!(c.enable_mouse_capture);
    assert!(!c.force_enable_extended_underlines);
    assert_eq!(c.kitty_keyboard_protocol, KittyKeyboardProtocolConfig::Auto);
}
