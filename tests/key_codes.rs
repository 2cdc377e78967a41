use h3keys::keys::{
    ALT_GR, APPS, BACKSLASH, BACKSPACE, CAPS_LOCK, COMMA, ESCAPE, F1, F12, FWD_SLASH, HOME, K_0,
    K_D, K_J, LEFT, LEFTALT, LEFTCTRL, LWIN, OEM_102, PERIOD, PGDOWN, PGUP, PLUS, RIGHTCTRL,
    SEMICOLON, SPACE, TILDE, UK_TILDE,
};

#[test]
fn codes_follow_the_kernel_numbering() {
    let pairs = [
        (ESCAPE, uinput_sys::KEY_ESC),
        (K_0, uinput_sys::KEY_9 + 1),
        (K_D, uinput_sys::KEY_D),
        (K_J, uinput_sys::KEY_J),
        (PLUS, uinput_sys::KEY_EQUAL),
        (BACKSPACE, uinput_sys::KEY_BACKSPACE),
        (LEFTCTRL, uinput_sys::KEY_LEFTCTRL),
        (SEMICOLON, uinput_sys::KEY_SEMICOLON),
        (TILDE, uinput_sys::KEY_APOSTROPHE),
        (UK_TILDE, uinput_sys::KEY_GRAVE),
        (BACKSLASH, uinput_sys::KEY_BACKSLASH),
        (COMMA, uinput_sys::KEY_COMMA),
        (PERIOD, uinput_sys::KEY_DOT),
        (FWD_SLASH, uinput_sys::KEY_SLASH),
        (LEFTALT, uinput_sys::KEY_LEFTALT),
        (SPACE, uinput_sys::KEY_SPACE),
        (CAPS_LOCK, uinput_sys::KEY_CAPSLOCK),
        (F1, uinput_sys::KEY_F1),
        (F12, uinput_sys::KEY_F12),
        (OEM_102, uinput_sys::KEY_102ND),
        (RIGHTCTRL, uinput_sys::KEY_RIGHTCTRL),
        (ALT_GR, uinput_sys::KEY_RIGHTALT),
        (HOME, uinput_sys::KEY_HOME),
        (PGUP, uinput_sys::KEY_PAGEUP),
        (LEFT, uinput_sys::KEY_LEFT),
        (PGDOWN, uinput_sys::KEY_PAGEDOWN),
        (LWIN, uinput_sys::KEY_LEFTMETA),
        (APPS, uinput_sys::KEY_COMPOSE),
    ];
    for (ours, kernel) in pairs {
        assert_eq!(ours as i32, kernel);
    }
}
