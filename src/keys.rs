//! Raw key codes, in the Linux input-event numbering.
use vstd::prelude::*;

verus! {

pub const ESCAPE: u32 = 1;
pub const K_1: u32 = 2;
pub const K_2: u32 = 3;
pub const K_3: u32 = 4;
pub const K_4: u32 = 5;
pub const K_5: u32 = 6;
pub const K_6: u32 = 7;
pub const K_7: u32 = 8;
pub const K_8: u32 = 9;
pub const K_9: u32 = 10;
pub const K_0: u32 = 11;
pub const MINUS: u32 = 12;
pub const PLUS: u32 = 13;
pub const BACKSPACE: u32 = 14;
pub const K_Q: u32 = 16;
pub const K_W: u32 = 17;
pub const K_E: u32 = 18;
pub const K_R: u32 = 19;
pub const K_T: u32 = 20;
pub const K_Y: u32 = 21;
pub const K_U: u32 = 22;
pub const K_I: u32 = 23;
pub const K_O: u32 = 24;
pub const K_P: u32 = 25;
pub const LSQUARE: u32 = 26;
pub const RSQUARE: u32 = 27;
pub const RETURN: u32 = 28;
pub const LEFTCTRL: u32 = 29;
/// The generic Ctrl key used when a chord is synthesised.
pub const CTRL: u32 = 29;
pub const K_A: u32 = 30;
pub const K_S: u32 = 31;
pub const K_D: u32 = 32;
pub const K_F: u32 = 33;
pub const K_G: u32 = 34;
pub const K_H: u32 = 35;
pub const K_J: u32 = 36;
pub const K_K: u32 = 37;
pub const K_L: u32 = 38;
pub const SEMICOLON: u32 = 39;
/// The apostrophe / tilde key next to Enter.
pub const TILDE: u32 = 40;
/// The grave / tilde key left of 1.
pub const UK_TILDE: u32 = 41;
pub const SHIFT: u32 = 42;
pub const BACKSLASH: u32 = 43;
pub const K_Z: u32 = 44;
pub const K_X: u32 = 45;
pub const K_C: u32 = 46;
pub const K_V: u32 = 47;
pub const K_B: u32 = 48;
pub const K_N: u32 = 49;
pub const K_M: u32 = 50;
pub const COMMA: u32 = 51;
pub const PERIOD: u32 = 52;
pub const FWD_SLASH: u32 = 53;
pub const LEFTALT: u32 = 56;
pub const SPACE: u32 = 57;
/// Trigger of the first layer.
pub const CAPS_LOCK: u32 = 58;
pub const F1: u32 = 59;
pub const F2: u32 = 60;
pub const F3: u32 = 61;
pub const F4: u32 = 62;
pub const F5: u32 = 63;
pub const F6: u32 = 64;
pub const F7: u32 = 65;
pub const F8: u32 = 66;
pub const F9: u32 = 67;
pub const F10: u32 = 68;
/// Trigger of the second layer (the extra key of ISO keyboards).
pub const OEM_102: u32 = 86;
pub const F11: u32 = 87;
pub const F12: u32 = 88;
pub const RIGHTCTRL: u32 = 97;
pub const ALT_GR: u32 = 100;
/// The generic Alt key used when a chord is synthesised.
pub const ALT: u32 = 100;
pub const HOME: u32 = 102;
pub const UP: u32 = 103;
pub const PGUP: u32 = 104;
pub const LEFT: u32 = 105;
pub const RIGHT: u32 = 106;
pub const END: u32 = 107;
pub const DOWN: u32 = 108;
pub const PGDOWN: u32 = 109;
pub const DELETE: u32 = 111;
pub const LWIN: u32 = 125;
/// The context-menu key.
pub const APPS: u32 = 127;

} // verus!
