use h3keys::keys::{
    ALT, ALT_GR, APPS, BACKSLASH, BACKSPACE, CAPS_LOCK, COMMA, CTRL, ESCAPE, F1, F10, F11, F12,
    F4, FWD_SLASH, HOME, K_0, K_1, K_4, K_7, K_8, K_9, K_A, K_B, K_C, K_D, K_E, K_F, K_H, K_I,
    K_J, K_K, K_L, K_M, K_N, K_O, K_P, K_Q, K_S, K_U, K_V, K_X, K_Y, K_Z, LEFT, LEFTALT,
    LEFTCTRL, LSQUARE, LWIN, MINUS, OEM_102, PERIOD, PGDOWN, PGUP, PLUS, RETURN, RIGHTCTRL,
    RSQUARE, SEMICOLON, SHIFT, SPACE, TILDE, UK_TILDE, UP,
};
use h3keys::remap::{
    alt_key, ctrl_key, key, key_down, key_up, mod_key, no_ctrl_key, remap_colemak, remap_key,
    shift_key, KeyAction, KeyEvent, Modifier, RemapSideEffect, RemapState, RemapTarget,
};

fn state_with(mods: &[Modifier]) -> RemapState {
    let mut s = RemapState::new();
    for m in mods {
        s.set_mod(*m, true);
    }
    s
}

fn blind(t: &Option<RemapTarget>) -> Option<u32> {
    match t {
        Some(RemapTarget::BlindKey(k)) => Some(*k),
        _ => None,
    }
}

fn chord_of(t: &Option<RemapTarget>) -> Vec<KeyAction> {
    match t {
        Some(RemapTarget::KeySeq(s)) => s.clone(),
        other => panic!("expected a chord, got {:?}", other),
    }
}

fn is_block(t: &Option<RemapTarget>) -> bool {
    matches!(t, Some(RemapTarget::Block))
}

fn chord(m: u32, k: u32) -> Vec<KeyAction> {
    vec![KeyAction::Down(m), KeyAction::Down(k), KeyAction::Up(k), KeyAction::Up(m)]
}

fn set_mods(effects: &[RemapSideEffect]) -> Vec<(Modifier, bool)> {
    effects
        .iter()
        .filter_map(|e| match e {
            RemapSideEffect::SetModifier(m, v) => Some((*m, *v)),
            _ => None,
        })
        .collect()
}

#[test]
fn helpers_build_actions_and_chords() {
    assert_eq!(key_down(K_A), KeyAction::Down(K_A));
    assert_eq!(key_up(K_A), KeyAction::Up(K_A));
    assert!(matches!(key(K_A), RemapTarget::BlindKey(k) if k == K_A));
    assert_eq!(chord_of(&Some(mod_key(SHIFT, K_A))), chord(SHIFT, K_A));
    assert_eq!(chord_of(&Some(ctrl_key(K_Z))), chord(CTRL, K_Z));
    assert_eq!(chord_of(&Some(shift_key(K_9))), chord(SHIFT, K_9));
    assert_eq!(chord_of(&Some(alt_key(F4))), chord(ALT, F4));
    assert_eq!(
        chord_of(&Some(no_ctrl_key(PGUP))),
        vec![KeyAction::Up(CTRL), KeyAction::Down(PGUP), KeyAction::Up(PGUP), KeyAction::Down(CTRL)]
    );
}

#[test]
fn colemak_table_values() {
    assert_eq!(remap_colemak(K_E as u8), K_F as i32);
    assert_eq!(remap_colemak(K_P as u8), SEMICOLON as i32);
    assert_eq!(remap_colemak(SEMICOLON as u8), K_O as i32);
    assert_eq!(remap_colemak(K_D as u8), 31);
    assert_eq!(remap_colemak(K_A as u8), 0);
    assert_eq!(remap_colemak(255), 0);
}

#[test]
fn state_set_and_query() {
    let mut s = RemapState::default();
    assert_eq!(s, RemapState::new());
    assert!(!s.is_mod_on(Modifier::Mod1));
    s.set_mod(Modifier::Mod1, true);
    assert!(s.is_mod_on(Modifier::Mod1));
    assert!(!s.is_mod_on(Modifier::Mod2));
    s.set_mod(Modifier::Mod1, false);
    assert_eq!(s, RemapState::new());
}

#[test]
fn plain_keys_are_forwarded() {
    let s = RemapState::new();
    for ev in [KeyEvent::Down, KeyEvent::Repeat, KeyEvent::Up] {
        let (t, e) = remap_key(&s, ev, K_A);
        assert!(t.is_none());
        assert!(e.is_empty());
    }
    let (t, _) = remap_key(&s, KeyEvent::Down, 100_000);
    assert!(t.is_none());
}

#[test]
fn layer_triggers_are_consumed() {
    let s = RemapState::new();
    let (t, e) = remap_key(&s, KeyEvent::Down, CAPS_LOCK);
    assert!(is_block(&t));
    assert_eq!(set_mods(&e), vec![(Modifier::Mod1, true)]);
    let (t, e) = remap_key(&state_with(&[Modifier::Mod1]), KeyEvent::Up, CAPS_LOCK);
    assert!(is_block(&t));
    assert_eq!(
        set_mods(&e),
        vec![(Modifier::Ctrl, false), (Modifier::Admin, false), (Modifier::Mod1, false)]
    );
    let (t, e) = remap_key(&s, KeyEvent::Down, OEM_102);
    assert!(is_block(&t));
    assert_eq!(set_mods(&e), vec![(Modifier::Mod2, true)]);
    let (t, e) = remap_key(&s, KeyEvent::Up, OEM_102);
    assert!(is_block(&t));
    assert_eq!(set_mods(&e), vec![(Modifier::Mod2, false)]);
}

#[test]
fn alternate_layout_substitutes_letters() {
    let s = state_with(&[Modifier::Colemak]);
    assert_eq!(blind(&remap_key(&s, KeyEvent::Down, K_E).0), Some(K_F));
    assert_eq!(blind(&remap_key(&s, KeyEvent::Up, K_E).0), Some(K_F));
    assert_eq!(blind(&remap_key(&s, KeyEvent::Down, K_P).0), Some(SEMICOLON));
    assert!(remap_key(&s, KeyEvent::Down, K_Q).0.is_none());
    assert!(remap_key(&RemapState::new(), KeyEvent::Down, K_E).0.is_none());
}

#[test]
fn always_on_overrides() {
    let s = RemapState::new();
    assert_eq!(blind(&remap_key(&s, KeyEvent::Down, TILDE).0), Some(ESCAPE));
    assert_eq!(blind(&remap_key(&s, KeyEvent::Down, UK_TILDE).0), Some(TILDE));
    assert_eq!(blind(&remap_key(&s, KeyEvent::Down, RIGHTCTRL).0), Some(APPS));
    let (t, e) = remap_key(&s, KeyEvent::Down, ALT_GR);
    assert_eq!(blind(&t), Some(LWIN));
    assert_eq!(set_mods(&e), vec![(Modifier::Win, true)]);
    let (_, e) = remap_key(&s, KeyEvent::Up, ALT_GR);
    assert_eq!(set_mods(&e), vec![(Modifier::Win, false)]);
    let (t, e) = remap_key(&s, KeyEvent::Down, LEFTALT);
    assert!(t.is_none());
    assert_eq!(set_mods(&e), vec![(Modifier::LeftAlt, true)]);
    let (t, e) = remap_key(&s, KeyEvent::Down, LEFTCTRL);
    assert!(t.is_none());
    assert_eq!(set_mods(&e), vec![(Modifier::LeftCtrl, true)]);
}

#[test]
fn win_shortcuts_on_press_only() {
    let s = state_with(&[Modifier::Win]);
    let (t, e) = remap_key(&s, KeyEvent::Down, K_U);
    assert!(is_block(&t));
    assert_eq!(e.len(), 2);
    assert!(matches!(e[0], RemapSideEffect::SetModifier(Modifier::Win, false)));
    assert!(matches!(e[1], RemapSideEffect::LockWorkstation));
    let (t, e) = remap_key(&s, KeyEvent::Repeat, K_U);
    assert!(t.is_none());
    assert!(e.is_empty());
    assert_eq!(chord_of(&remap_key(&s, KeyEvent::Down, K_4).0), chord(ALT, F4));
    assert!(remap_key(&s, KeyEvent::Up, K_4).0.is_none());
    assert!(is_block(&remap_key(&s, KeyEvent::Down, K_M).0));
}

#[test]
fn backspace_with_alt_and_ctrl_kills_on_press() {
    let s = state_with(&[Modifier::LeftAlt, Modifier::LeftCtrl]);
    let (t, e) = remap_key(&s, KeyEvent::Down, BACKSPACE);
    assert!(t.is_none());
    assert_eq!(e.len(), 1);
    assert!(matches!(e[0], RemapSideEffect::KillTopWindowProcess));
    assert!(remap_key(&s, KeyEvent::Repeat, BACKSPACE).1.is_empty());
    let only_alt = state_with(&[Modifier::LeftAlt]);
    assert!(remap_key(&only_alt, KeyEvent::Down, BACKSPACE).1.is_empty());
}

#[test]
fn layer1_navigation_and_function_keys() {
    let s = state_with(&[Modifier::Mod1]);
    let cases = [
        (K_J, LEFT),
        (K_U, HOME),
        (K_I, UP),
        (K_H, BACKSPACE),
        (K_D, SHIFT),
        (K_1, F1),
        (K_0, F10),
        (MINUS, F11),
        (PLUS, F12),
        (SEMICOLON, RETURN),
        (FWD_SLASH, BACKSLASH),
        (SPACE, SPACE),
        (ALT_GR, LWIN),
    ];
    for (from, to) in cases {
        assert_eq!(blind(&remap_key(&s, KeyEvent::Down, from).0), Some(to), "code {}", from);
    }
    let (t, e) = remap_key(&s, KeyEvent::Down, K_F);
    assert_eq!(blind(&t), Some(CTRL));
    assert_eq!(set_mods(&e), vec![(Modifier::Ctrl, true)]);
}

#[test]
fn layer1_fails_closed_on_unknown_keys() {
    let s = state_with(&[Modifier::Mod1]);
    for code in [K_Q, K_A, K_B, TILDE, RIGHTCTRL, 200, 100_000] {
        for ev in [KeyEvent::Down, KeyEvent::Repeat, KeyEvent::Up] {
            assert!(is_block(&remap_key(&s, ev, code).0), "code {}", code);
        }
    }
}

#[test]
fn layer1_passes_real_modifiers() {
    let s = state_with(&[Modifier::Mod1]);
    assert!(remap_key(&s, KeyEvent::Down, LEFTALT).0.is_none());
    assert!(remap_key(&s, KeyEvent::Down, CTRL).0.is_none());
}

#[test]
fn layer1_chords_and_their_policies() {
    let s = state_with(&[Modifier::Mod1]);
    assert_eq!(chord_of(&remap_key(&s, KeyEvent::Down, K_X).0), chord(CTRL, K_X));
    assert!(remap_key(&s, KeyEvent::Repeat, K_X).0.is_none());
    assert!(remap_key(&s, KeyEvent::Up, K_X).0.is_none());
    assert_eq!(chord_of(&remap_key(&s, KeyEvent::Down, K_C).0), chord(CTRL, K_C));
    assert_eq!(chord_of(&remap_key(&s, KeyEvent::Down, K_V).0), chord(CTRL, K_V));
    assert_eq!(chord_of(&remap_key(&s, KeyEvent::Down, K_S).0), chord(CTRL, K_S));
    assert_eq!(chord_of(&remap_key(&s, KeyEvent::Down, COMMA).0), chord(SHIFT, K_7));
    assert_eq!(chord_of(&remap_key(&s, KeyEvent::Repeat, K_N).0), chord(CTRL, K_Z));
    assert_eq!(chord_of(&remap_key(&s, KeyEvent::Repeat, K_M).0), chord(CTRL, K_Y));
    assert!(remap_key(&s, KeyEvent::Up, K_N).0.is_none());
    assert_eq!(chord_of(&remap_key(&s, KeyEvent::Down, PERIOD).0), chord(SHIFT, BACKSLASH));
}

#[test]
fn layer1_ctrl_sub_modifier_pages() {
    let s = state_with(&[Modifier::Mod1, Modifier::Ctrl]);
    assert_eq!(
        chord_of(&remap_key(&s, KeyEvent::Down, K_I).0),
        vec![KeyAction::Up(CTRL), KeyAction::Down(PGUP), KeyAction::Up(PGUP), KeyAction::Down(CTRL)]
    );
    assert_eq!(
        chord_of(&remap_key(&s, KeyEvent::Repeat, K_K).0),
        vec![
            KeyAction::Up(CTRL),
            KeyAction::Down(PGDOWN),
            KeyAction::Up(PGDOWN),
            KeyAction::Down(CTRL),
        ]
    );
    assert!(remap_key(&s, KeyEvent::Up, K_I).0.is_none());
}

#[test]
fn layer1_escape_toggles_admin() {
    let s = state_with(&[Modifier::Mod1]);
    let (t, e) = remap_key(&s, KeyEvent::Down, ESCAPE);
    assert!(is_block(&t));
    assert_eq!(set_mods(&e), vec![(Modifier::Admin, true)]);
    let (_, e) = remap_key(&s, KeyEvent::Up, ESCAPE);
    assert_eq!(set_mods(&e), vec![(Modifier::Admin, false)]);
}

#[test]
fn admin_space_release_terminates() {
    let s = state_with(&[Modifier::Mod1, Modifier::Admin]);
    let (t, e) = remap_key(&s, KeyEvent::Down, SPACE);
    assert!(is_block(&t));
    assert!(e.is_empty());
    let (t, e) = remap_key(&s, KeyEvent::Up, SPACE);
    assert!(is_block(&t));
    assert_eq!(e.len(), 2);
    assert!(matches!(&e[0], RemapSideEffect::Notification(n) if n == "Program terminated"));
    assert!(matches!(e[1], RemapSideEffect::Terminate));
}

#[test]
fn admin_layout_toggle_effects() {
    let s = state_with(&[Modifier::Mod1, Modifier::Admin]);
    let (t, e) = remap_key(&s, KeyEvent::Down, K_C);
    assert!(is_block(&t));
    assert_eq!(set_mods(&e), vec![(Modifier::Colemak, true)]);
    assert!(matches!(&e[1], RemapSideEffect::Notification(n) if n == "Colemak"));
    let s = state_with(&[Modifier::Mod1, Modifier::Admin, Modifier::Colemak]);
    let (_, e) = remap_key(&s, KeyEvent::Down, K_C);
    assert_eq!(set_mods(&e), vec![(Modifier::Colemak, false)]);
    assert!(matches!(&e[1], RemapSideEffect::Notification(n) if n == "Qwerty"));
    let (t, e) = remap_key(&s, KeyEvent::Up, K_C);
    assert!(is_block(&t));
    assert!(e.is_empty());
}

#[test]
fn layer2_brackets_and_operators() {
    let s = state_with(&[Modifier::Mod2]);
    assert_eq!(blind(&remap_key(&s, KeyEvent::Down, K_I).0), Some(LSQUARE));
    assert_eq!(blind(&remap_key(&s, KeyEvent::Down, K_O).0), Some(RSQUARE));
    assert_eq!(blind(&remap_key(&s, KeyEvent::Down, K_Y).0), Some(MINUS));
    assert_eq!(blind(&remap_key(&s, KeyEvent::Down, K_M).0), Some(PLUS));
    assert_eq!(blind(&remap_key(&s, KeyEvent::Down, SPACE).0), Some(SPACE));
    assert_eq!(chord_of(&remap_key(&s, KeyEvent::Down, K_H).0), chord(SHIFT, MINUS));
    assert_eq!(chord_of(&remap_key(&s, KeyEvent::Down, K_J).0), chord(SHIFT, K_9));
    assert_eq!(chord_of(&remap_key(&s, KeyEvent::Down, K_K).0), chord(SHIFT, K_0));
    assert_eq!(chord_of(&remap_key(&s, KeyEvent::Down, K_L).0), chord(SHIFT, LSQUARE));
    assert_eq!(chord_of(&remap_key(&s, KeyEvent::Down, SEMICOLON).0), chord(SHIFT, RSQUARE));
    assert_eq!(chord_of(&remap_key(&s, KeyEvent::Down, K_U).0), chord(SHIFT, PLUS));
    assert_eq!(
        chord_of(&remap_key(&s, KeyEvent::Down, PERIOD).0),
        vec![
            KeyAction::Down(FWD_SLASH),
            KeyAction::Up(FWD_SLASH),
            KeyAction::Down(SHIFT),
            KeyAction::Down(K_8),
            KeyAction::Up(K_8),
            KeyAction::Up(SHIFT),
        ]
    );
    assert_eq!(
        chord_of(&remap_key(&s, KeyEvent::Down, FWD_SLASH).0),
        vec![
            KeyAction::Down(SHIFT),
            KeyAction::Down(K_8),
            KeyAction::Up(K_8),
            KeyAction::Up(SHIFT),
            KeyAction::Down(FWD_SLASH),
            KeyAction::Up(FWD_SLASH),
        ]
    );
    assert!(remap_key(&s, KeyEvent::Repeat, PERIOD).0.is_none());
    assert!(remap_key(&s, KeyEvent::Up, K_H).0.is_none());
    assert!(is_block(&remap_key(&s, KeyEvent::Down, K_Q).0));
}

#[test]
fn layer1_wins_over_layer2() {
    let s = state_with(&[Modifier::Mod1, Modifier::Mod2]);
    assert_eq!(blind(&remap_key(&s, KeyEvent::Down, K_I).0), Some(UP));
}
