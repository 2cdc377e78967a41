//! The remap decision table: modifier state, targets, side effects and the
//! layered resolver.
use vstd::prelude::*;
use crate::keys::{
    ESCAPE, K_1, K_2, K_3, K_4, K_5, K_6, K_7, K_8, K_9, K_0, MINUS, PLUS, BACKSPACE,
    K_Q, K_W, K_E, K_R, K_T, K_Y, K_U, K_I, K_O, K_P, LSQUARE, RSQUARE, RETURN,
    LEFTCTRL, CTRL, K_A, K_S, K_D, K_F, K_G, K_H, K_J, K_K, K_L, SEMICOLON, TILDE,
    UK_TILDE, SHIFT, BACKSLASH, K_Z, K_X, K_C, K_V, K_B, K_N, K_M, COMMA, PERIOD,
    FWD_SLASH, LEFTALT, SPACE, CAPS_LOCK, F1, F2, F3, F4, F5, F6, F7, F8, F9, F10,
    OEM_102, F11, F12, RIGHTCTRL, ALT_GR, ALT, HOME, UP, PGUP, LEFT, RIGHT, END, DOWN,
    PGDOWN, DELETE, LWIN, APPS,
};

verus! {

/// The kind of a key event.
#[derive(Debug, Clone, Copy, PartialEq, Eq, Structural)]
pub enum KeyEvent {
    Down,
    Repeat,
    Up,
}

/// One synthetic key transition.
#[derive(Debug, Clone, Copy, PartialEq, Eq, Structural)]
pub enum KeyAction {
    Down(u32),
    Up(u32),
}

/// What a physical key event turns into.
#[derive(Debug)]
pub enum RemapTarget {
    /// One key, with the same kind as the physical event.
    BlindKey(u32),
    /// A self-contained chord.
    KeySeq(Vec<KeyAction>),
    /// Nothing is emitted.
    Block,
}

/// The mathematical value of a `RemapTarget`.
pub enum RemapTargetView {
    BlindKey(u32),
    KeySeq(Seq<KeyAction>),
    Block,
}

impl View for RemapTarget {
    type V = RemapTargetView;

    open spec fn view(&self) -> RemapTargetView {
        match self {
            RemapTarget::BlindKey(k) => RemapTargetView::BlindKey(*k),
            RemapTarget::KeySeq(s) => RemapTargetView::KeySeq(s@),
            RemapTarget::Block => RemapTargetView::Block,
        }
    }
}

pub open spec fn target_opt_view(t: Option<RemapTarget>) -> Option<RemapTargetView> {
    match t {
        Some(t) => Some(t@),
        None => None,
    }
}

/// A named modifier flag.
#[derive(Debug, Clone, Copy, PartialEq, Eq, Structural, Hash)]
pub enum Modifier {
    /// The first layer is held.
    Mod1,
    /// The second layer is held.
    Mod2,
    /// The Ctrl sub-modifier of the first layer.
    Ctrl,
    /// The Win/Super key is held.
    Win,
    /// Admin mode, nested in the first layer.
    Admin,
    /// The physical left Alt is held.
    LeftAlt,
    /// The physical left Ctrl is held.
    LeftCtrl,
    /// The alternate base layout is active.
    Colemak,
}

/// A request for the host, produced alongside a target.
#[derive(Debug)]
pub enum RemapSideEffect {
    KillTopWindowProcess,
    LockWorkstation,
    Notification(String),
    SetModifier(Modifier, bool),
    Terminate,
}

/// The mathematical value of a `RemapSideEffect`.
pub enum SideEffectView {
    KillTopWindowProcess,
    LockWorkstation,
    Notification(Seq<char>),
    SetModifier(Modifier, bool),
    Terminate,
}

impl View for RemapSideEffect {
    type V = SideEffectView;

    open spec fn view(&self) -> SideEffectView {
        match self {
            RemapSideEffect::KillTopWindowProcess => SideEffectView::KillTopWindowProcess,
            RemapSideEffect::LockWorkstation => SideEffectView::LockWorkstation,
            RemapSideEffect::Notification(s) => SideEffectView::Notification(s@),
            RemapSideEffect::SetModifier(m, v) => SideEffectView::SetModifier(*m, *v),
            RemapSideEffect::Terminate => SideEffectView::Terminate,
        }
    }
}

pub open spec fn effects_view(v: Seq<RemapSideEffect>) -> Seq<SideEffectView> {
    v.map_values(|e: RemapSideEffect| e@)
}

/// The set of active modifiers, one flag each.
#[derive(Debug, Clone, Copy, PartialEq, Eq, Structural)]
pub struct RemapState {
    pub mod1: bool,
    pub mod2: bool,
    pub ctrl: bool,
    pub win: bool,
    pub admin: bool,
    pub left_alt: bool,
    pub left_ctrl: bool,
    pub colemak: bool,
}

impl RemapState {
    pub open spec fn flag(&self, m: Modifier) -> bool {
        match m {
            Modifier::Mod1 => self.mod1,
            Modifier::Mod2 => self.mod2,
            Modifier::Ctrl => self.ctrl,
            Modifier::Win => self.win,
            Modifier::Admin => self.admin,
            Modifier::LeftAlt => self.left_alt,
            Modifier::LeftCtrl => self.left_ctrl,
            Modifier::Colemak => self.colemak,
        }
    }

    /// Two states are equal exactly when they hold the same modifiers.
    pub proof fn lemma_view_injective(&self, other: &RemapState)
        ensures
            (self@ == other@) == (*self == *other),
    {
        if self@ == other@ {
            assert(self@.contains(Modifier::Mod1) == other@.contains(Modifier::Mod1));
            assert(self@.contains(Modifier::Mod2) == other@.contains(Modifier::Mod2));
            assert(self@.contains(Modifier::Ctrl) == other@.contains(Modifier::Ctrl));
            assert(self@.contains(Modifier::Win) == other@.contains(Modifier::Win));
            assert(self@.contains(Modifier::Admin) == other@.contains(Modifier::Admin));
            assert(self@.contains(Modifier::LeftAlt) == other@.contains(Modifier::LeftAlt));
            assert(self@.contains(Modifier::LeftCtrl) == other@.contains(Modifier::LeftCtrl));
            assert(self@.contains(Modifier::Colemak) == other@.contains(Modifier::Colemak));
        }
        if *self == *other {
            assert(self@ =~= other@);
        }
    }

    /// The state with no modifier active.
    pub fn new() -> (r: RemapState)
        ensures
            r@ == Set::<Modifier>::empty(),
    {
        let r = RemapState {
            mod1: false,
            mod2: false,
            ctrl: false,
            win: false,
            admin: false,
            left_alt: false,
            left_ctrl: false,
            colemak: false,
        };
        assert(r@ =~= Set::<Modifier>::empty());
        r
    }

    pub fn is_mod_on(&self, m: Modifier) -> (r: bool)
        ensures
            r == self@.contains(m),
    {
        match m {
            Modifier::Mod1 => self.mod1,
            Modifier::Mod2 => self.mod2,
            Modifier::Ctrl => self.ctrl,
            Modifier::Win => self.win,
            Modifier::Admin => self.admin,
            Modifier::LeftAlt => self.left_alt,
            Modifier::LeftCtrl => self.left_ctrl,
            Modifier::Colemak => self.colemak,
        }
    }

    pub fn set_mod(&mut self, m: Modifier, v: bool)
        ensures
            final(self)@ == (if v { old(self)@.insert(m) } else { old(self)@.remove(m) }),
    {
        match m {
            Modifier::Mod1 => self.mod1 = v,
            Modifier::Mod2 => self.mod2 = v,
            Modifier::Ctrl => self.ctrl = v,
            Modifier::Win => self.win = v,
            Modifier::Admin => self.admin = v,
            Modifier::LeftAlt => self.left_alt = v,
            Modifier::LeftCtrl => self.left_ctrl = v,
            Modifier::Colemak => self.colemak = v,
        }
        proof {
            if v {
                assert(self@ =~= old(self)@.insert(m));
            } else {
                assert(self@ =~= old(self)@.remove(m));
            }
        }
    }
}

impl View for RemapState {
    type V = Set<Modifier>;

    open spec fn view(&self) -> Set<Modifier> {
        Set::new(|m: Modifier| self.flag(m))
    }
}

impl Default for RemapState {
    fn default() -> (r: RemapState)
        ensures
            r@ == Set::<Modifier>::empty(),
    {
        RemapState::new()
    }
}

pub fn key_down(kv: u32) -> (r: KeyAction)
    ensures
        r == KeyAction::Down(kv),
{
    KeyAction::Down(kv)
}

pub fn key_up(kv: u32) -> (r: KeyAction)
    ensures
        r == KeyAction::Up(kv),
{
    KeyAction::Up(kv)
}

pub fn key(kv: u32) -> (r: RemapTarget)
    ensures
        r@ == RemapTargetView::BlindKey(kv),
{
    RemapTarget::BlindKey(kv)
}

/// `m` held around one stroke of `k`.
pub open spec fn chord(m: u32, k: u32) -> Seq<KeyAction> {
    seq![KeyAction::Down(m), KeyAction::Down(k), KeyAction::Up(k), KeyAction::Up(m)]
}

/// One stroke of `k` with Ctrl lifted around it.
pub open spec fn chord_without_ctrl(k: u32) -> Seq<KeyAction> {
    seq![KeyAction::Up(CTRL), KeyAction::Down(k), KeyAction::Up(k), KeyAction::Down(CTRL)]
}

pub fn mod_key(modifier: u32, kv: u32) -> (r: RemapTarget)
    ensures
        r@ == RemapTargetView::KeySeq(chord(modifier, kv)),
{
    let v = vec![key_down(modifier), key_down(kv), key_up(kv), key_up(modifier)];
    assert(v@ =~= chord(modifier, kv));
    RemapTarget::KeySeq(v)
}

pub fn ctrl_key(kv: u32) -> (r: RemapTarget)
    ensures
        r@ == RemapTargetView::KeySeq(chord(CTRL, kv)),
{
    mod_key(CTRL, kv)
}

pub fn shift_key(kv: u32) -> (r: RemapTarget)
    ensures
        r@ == RemapTargetView::KeySeq(chord(SHIFT, kv)),
{
    mod_key(SHIFT, kv)
}

pub fn alt_key(kv: u32) -> (r: RemapTarget)
    ensures
        r@ == RemapTargetView::KeySeq(chord(ALT, kv)),
{
    mod_key(ALT, kv)
}

pub fn no_ctrl_key(kv: u32) -> (r: RemapTarget)
    ensures
        r@ == RemapTargetView::KeySeq(chord_without_ctrl(kv)),
{
    let v = vec![key_up(CTRL), key_down(kv), key_up(kv), key_down(CTRL)];
    assert(v@ =~= chord_without_ctrl(kv));
    RemapTarget::KeySeq(v)
}

/// The alternate base layout, as a letter permutation; 0 where it leaves the
/// key alone.
pub open spec fn colemak_of(vk: u32) -> u32 {
    match vk {
        K_E => K_F,
        K_R => K_P,
        K_T => K_G,
        K_Y => K_J,
        K_U => K_L,
        K_I => K_U,
        K_O => K_Y,
        K_S => K_R,
        K_G => K_D,
        K_J => K_N,
        K_K => K_E,
        K_L => K_I,
        K_N => K_K,
        K_P => SEMICOLON,
        K_D => K_S,
        K_F => K_T,
        SEMICOLON => K_O,
        _ => 0,
    }
}

pub fn remap_colemak(vk: u8) -> (r: i32)
    ensures
        r == colemak_of(vk as u32) as i32,
        0 <= r < 256,
{
    let res: u32 = match vk as u32 {
        K_E => K_F,
        K_R => K_P,
        K_T => K_G,
        K_Y => K_J,
        K_U => K_L,
        K_I => K_U,
        K_O => K_Y,
        K_S => K_R,
        K_G => K_D,
        K_J => K_N,
        K_K => K_E,
        K_L => K_I,
        K_N => K_K,
        K_P => SEMICOLON,
        K_D => K_S,
        K_F => K_T,
        SEMICOLON => K_O,
        _ => 0,
    };
    res as i32
}

pub open spec fn pressed_now(ev: KeyEvent) -> bool {
    ev == KeyEvent::Down
}

pub open spec fn pressed_or_held(ev: KeyEvent) -> bool {
    ev != KeyEvent::Up
}

/// The no-op sentinel: the event is forwarded unchanged.
pub open spec fn pass() -> RemapTargetView {
    RemapTargetView::BlindKey(0)
}

pub open spec fn blind(k: u32) -> RemapTargetView {
    RemapTargetView::BlindKey(k)
}

pub open spec fn keyseq(s: Seq<KeyAction>) -> RemapTargetView {
    RemapTargetView::KeySeq(s)
}

/// `t` on the initiating press only.
pub open spec fn down_only_of(ev: KeyEvent, t: RemapTargetView) -> RemapTargetView {
    if pressed_now(ev) { t } else { pass() }
}

/// `t` on press and auto-repeat, nothing of its own on release.
pub open spec fn down_or_held_only_of(ev: KeyEvent, t: RemapTargetView) -> RemapTargetView {
    if ev == KeyEvent::Up { pass() } else { t }
}

pub open spec fn set_mod_effect(m: Modifier, v: bool) -> SideEffectView {
    SideEffectView::SetModifier(m, v)
}

/// Stage of the layer triggers: what a press or release of a trigger sets.
pub open spec fn trigger_effects(ev: KeyEvent, vk: u32) -> Seq<SideEffectView> {
    if vk == CAPS_LOCK {
        if ev == KeyEvent::Up {
            seq![
                set_mod_effect(Modifier::Ctrl, false),
                set_mod_effect(Modifier::Admin, false),
                set_mod_effect(Modifier::Mod1, false),
            ]
        } else {
            seq![set_mod_effect(Modifier::Mod1, true)]
        }
    } else {
        seq![set_mod_effect(Modifier::Mod2, pressed_or_held(ev))]
    }
}

pub open spec fn is_trigger(vk: u32) -> bool {
    vk == CAPS_LOCK || vk == OEM_102
}

/// Stage of the base substitution.
pub open spec fn base_target(s: Set<Modifier>, vk: u32) -> RemapTargetView {
    if s.contains(Modifier::Colemak) {
        blind(colemak_of(vk))
    } else {
        pass()
    }
}

/// Whether the Win-key shortcuts fire on this event.
pub open spec fn win_shortcut(s: Set<Modifier>, ev: KeyEvent) -> bool {
    s.contains(Modifier::Win) && pressed_now(ev)
}

/// Stage of the always-on overrides, on top of the base result `base`.
pub open spec fn override_target(
    s: Set<Modifier>,
    ev: KeyEvent,
    vk: u32,
    base: RemapTargetView,
) -> RemapTargetView {
    match vk {
        TILDE => blind(ESCAPE),
        UK_TILDE => blind(TILDE),
        ALT_GR => blind(LWIN),
        RIGHTCTRL => blind(APPS),
        K_U => if win_shortcut(s, ev) { RemapTargetView::Block } else { base },
        K_4 => if win_shortcut(s, ev) { keyseq(chord(ALT, F4)) } else { base },
        K_M => if win_shortcut(s, ev) { RemapTargetView::Block } else { base },
        _ => base,
    }
}

pub open spec fn override_effects(s: Set<Modifier>, ev: KeyEvent, vk: u32) -> Seq<SideEffectView> {
    match vk {
        ALT_GR => seq![set_mod_effect(Modifier::Win, pressed_or_held(ev))],
        LEFTALT => seq![set_mod_effect(Modifier::LeftAlt, pressed_or_held(ev))],
        LEFTCTRL => seq![set_mod_effect(Modifier::LeftCtrl, pressed_or_held(ev))],
        BACKSPACE => if pressed_now(ev) && s.contains(Modifier::LeftAlt) && s.contains(
            Modifier::LeftCtrl,
        ) {
            seq![SideEffectView::KillTopWindowProcess]
        } else {
            seq![]
        },
        K_U => if win_shortcut(s, ev) {
            seq![set_mod_effect(Modifier::Win, false), SideEffectView::LockWorkstation]
        } else {
            seq![]
        },
        _ => seq![],
    }
}

/// The codes that the first layer's table names.
pub open spec fn in_layer1_table(vk: u32) -> bool {
    match vk {
        ESCAPE | SPACE | K_D | K_F | K_J | K_L | K_U | K_O | K_H | K_1 | K_2 | K_3 | K_4 | K_5
        | K_6 | K_7 | K_8 | K_9 | K_0 | MINUS | PLUS | K_N | K_M | K_C | K_X | K_V | K_S
        | SEMICOLON | K_P | COMMA | PERIOD | FWD_SLASH | K_I | K_K | ALT_GR | LEFTALT | CTRL => true,
        _ => false,
    }
}

/// Stage of the first layer: navigation, function keys, clipboard chords and
/// admin mode.
pub open spec fn layer1_target(s: Set<Modifier>, ev: KeyEvent, vk: u32) -> RemapTargetView {
    match vk {
        ESCAPE => RemapTargetView::Block,
        SPACE => if s.contains(Modifier::Admin) { RemapTargetView::Block } else { blind(SPACE) },
        K_D => blind(SHIFT),
        K_F => blind(CTRL),
        K_J => blind(LEFT),
        K_L => blind(RIGHT),
        K_U => blind(HOME),
        K_O => blind(END),
        K_H => blind(BACKSPACE),
        K_1 => blind(F1),
        K_2 => blind(F2),
        K_3 => blind(F3),
        K_4 => blind(F4),
        K_5 => blind(F5),
        K_6 => blind(F6),
        K_7 => blind(F7),
        K_8 => blind(F8),
        K_9 => blind(F9),
        K_0 => blind(F10),
        MINUS => blind(F11),
        PLUS => blind(F12),
        K_N => down_or_held_only_of(ev, keyseq(chord(CTRL, K_Z))),
        K_M => down_or_held_only_of(ev, keyseq(chord(CTRL, K_Y))),
        K_C => if s.contains(Modifier::Admin) {
            RemapTargetView::Block
        } else {
            down_only_of(ev, keyseq(chord(CTRL, K_C)))
        },
        K_X => down_only_of(ev, keyseq(chord(CTRL, K_X))),
        K_V => down_only_of(ev, keyseq(chord(CTRL, K_V))),
        K_S => down_only_of(ev, keyseq(chord(CTRL, K_S))),
        SEMICOLON => blind(RETURN),
        K_P => blind(DELETE),
        COMMA => down_only_of(ev, keyseq(chord(SHIFT, K_7))),
        PERIOD => down_or_held_only_of(ev, keyseq(chord(SHIFT, BACKSLASH))),
        FWD_SLASH => blind(BACKSLASH),
        K_I => if s.contains(Modifier::Ctrl) {
            down_or_held_only_of(ev, keyseq(chord_without_ctrl(PGUP)))
        } else {
            blind(UP)
        },
        K_K => if s.contains(Modifier::Ctrl) {
            down_or_held_only_of(ev, keyseq(chord_without_ctrl(PGDOWN)))
        } else {
            blind(DOWN)
        },
        ALT_GR => blind(LWIN),
        LEFTALT => pass(),
        CTRL => pass(),
        _ => RemapTargetView::Block,
    }
}

pub open spec fn layer1_effects(s: Set<Modifier>, ev: KeyEvent, vk: u32) -> Seq<SideEffectView> {
    match vk {
        ESCAPE => seq![set_mod_effect(Modifier::Admin, pressed_or_held(ev))],
        SPACE => if s.contains(Modifier::Admin) && ev == KeyEvent::Up {
            seq![SideEffectView::Notification("Program terminated"@), SideEffectView::Terminate]
        } else {
            seq![]
        },
        K_F => seq![set_mod_effect(Modifier::Ctrl, pressed_or_held(ev))],
        K_C => if s.contains(Modifier::Admin) && pressed_now(ev) {
            seq![
                set_mod_effect(Modifier::Colemak, !s.contains(Modifier::Colemak)),
                SideEffectView::Notification(
                    if s.contains(Modifier::Colemak) { "Qwerty"@ } else { "Colemak"@ },
                ),
            ]
        } else {
            seq![]
        },
        ALT_GR => seq![set_mod_effect(Modifier::Win, pressed_or_held(ev))],
        _ => seq![],
    }
}

/// `/*` typed as one chord.
pub open spec fn comment_open() -> Seq<KeyAction> {
    seq![
        KeyAction::Down(FWD_SLASH),
        KeyAction::Up(FWD_SLASH),
        KeyAction::Down(SHIFT),
        KeyAction::Down(K_8),
        KeyAction::Up(K_8),
        KeyAction::Up(SHIFT),
    ]
}

/// `*/` typed as one chord.
pub open spec fn comment_close() -> Seq<KeyAction> {
    seq![
        KeyAction::Down(SHIFT),
        KeyAction::Down(K_8),
        KeyAction::Up(K_8),
        KeyAction::Up(SHIFT),
        KeyAction::Down(FWD_SLASH),
        KeyAction::Up(FWD_SLASH),
    ]
}

/// Stage of the second layer: brackets, braces and operators.
pub open spec fn layer2_target(ev: KeyEvent, vk: u32) -> RemapTargetView {
    match vk {
        SPACE => blind(SPACE),
        K_H => down_or_held_only_of(ev, keyseq(chord(SHIFT, MINUS))),
        K_J => down_or_held_only_of(ev, keyseq(chord(SHIFT, K_9))),
        K_K => down_or_held_only_of(ev, keyseq(chord(SHIFT, K_0))),
        K_I => blind(LSQUARE),
        K_O => blind(RSQUARE),
        K_L => down_or_held_only_of(ev, keyseq(chord(SHIFT, LSQUARE))),
        SEMICOLON => down_or_held_only_of(ev, keyseq(chord(SHIFT, RSQUARE))),
        K_Y => blind(MINUS),
        K_U => down_or_held_only_of(ev, keyseq(chord(SHIFT, PLUS))),
        K_M => blind(PLUS),
        PERIOD => down_only_of(ev, keyseq(comment_open())),
        FWD_SLASH => down_only_of(ev, keyseq(comment_close())),
        _ => RemapTargetView::Block,
    }
}

/// The target that the stages settle on, before the no-op sentinel becomes
/// "forward unchanged".
pub open spec fn layered_target(s: Set<Modifier>, ev: KeyEvent, vk: u32) -> RemapTargetView {
    if s.contains(Modifier::Mod1) {
        layer1_target(s, ev, vk)
    } else if s.contains(Modifier::Mod2) {
        layer2_target(ev, vk)
    } else {
        override_target(s, ev, vk, base_target(s, vk))
    }
}

/// The resolver: the target (`None`: forward the event unchanged) and the side
/// effects, in order, of one event under modifier state `s`.
pub open spec fn remap_spec(s: Set<Modifier>, ev: KeyEvent, vk: u32) -> (
    Option<RemapTargetView>,
    Seq<SideEffectView>,
) {
    if is_trigger(vk) {
        (Some(RemapTargetView::Block), trigger_effects(ev, vk))
    } else {
        let t = layered_target(s, ev, vk);
        (
            if t == pass() { None } else { Some(t) },
            override_effects(s, ev, vk) + if s.contains(Modifier::Mod1) {
                layer1_effects(s, ev, vk)
            } else {
                seq![]
            },
        )
    }
}

fn no_effects() -> (r: Vec<RemapSideEffect>)
    ensures
        effects_view(r@) == Seq::<SideEffectView>::empty(),
{
    let v: Vec<RemapSideEffect> = Vec::new();
    assert(effects_view(v@) =~= Seq::<SideEffectView>::empty());
    v
}

fn one_effect(e: RemapSideEffect) -> (r: Vec<RemapSideEffect>)
    ensures
        effects_view(r@) == seq![e@],
{
    let ghost ev = e@;
    let v = vec![e];
    assert(effects_view(v@) =~= seq![ev]);
    v
}

fn two_effects(a: RemapSideEffect, b: RemapSideEffect) -> (r: Vec<RemapSideEffect>)
    ensures
        effects_view(r@) == seq![a@, b@],
{
    let ghost av = a@;
    let ghost bv = b@;
    let v = vec![a, b];
    assert(effects_view(v@) =~= seq![av, bv]);
    v
}

fn set_mod_to(m: Modifier, v: bool) -> (r: RemapSideEffect)
    ensures
        r@ == set_mod_effect(m, v),
{
    RemapSideEffect::SetModifier(m, v)
}

fn down_only(key_event: KeyEvent, rt: RemapTarget) -> (r: RemapTarget)
    ensures
        r@ == down_only_of(key_event, rt@),
{
    if let KeyEvent::Down = key_event {
        rt
    } else {
        key(0)
    }
}

fn down_or_held_only(key_event: KeyEvent, rt: RemapTarget) -> (r: RemapTarget)
    ensures
        r@ == down_or_held_only_of(key_event, rt@),
{
    if let KeyEvent::Up = key_event {
        key(0)
    } else {
        rt
    }
}

fn trigger_stage(key_event: KeyEvent, vk: u32) -> (r: Vec<RemapSideEffect>)
    requires
        is_trigger(vk),
    ensures
        effects_view(r@) == trigger_effects(key_event, vk),
{
    let held = key_event != KeyEvent::Up;
    if vk == CAPS_LOCK {
        if held {
            one_effect(set_mod_to(Modifier::Mod1, true))
        } else {
            let mut v = two_effects(set_mod_to(Modifier::Ctrl, false), set_mod_to(Modifier::Admin, false));
            let ghost before = v@;
            v.push(set_mod_to(Modifier::Mod1, false));
            assert(effects_view(v@) =~= effects_view(before).push(set_mod_effect(Modifier::Mod1, false)));
            assert(effects_view(v@) =~= trigger_effects(key_event, vk));
            v
        }
    } else {
        one_effect(set_mod_to(Modifier::Mod2, held))
    }
}

fn override_stage(state: &RemapState, key_event: KeyEvent, vk: u32, remap: RemapTarget) -> (r: (
    RemapTarget,
    Vec<RemapSideEffect>,
))
    ensures
        r.0@ == override_target(state@, key_event, vk, remap@),
        effects_view(r.1@) == override_effects(state@, key_event, vk),
{
    let pressed_now = key_event == KeyEvent::Down;
    let pressed_or_held = key_event != KeyEvent::Up;
    let win_shortcut = state.is_mod_on(Modifier::Win) && pressed_now;
    match vk {
        TILDE => (key(ESCAPE), no_effects()),
        UK_TILDE => (key(TILDE), no_effects()),
        ALT_GR => (key(LWIN), one_effect(set_mod_to(Modifier::Win, pressed_or_held))),
        LEFTALT => (remap, one_effect(set_mod_to(Modifier::LeftAlt, pressed_or_held))),
        LEFTCTRL => (remap, one_effect(set_mod_to(Modifier::LeftCtrl, pressed_or_held))),
        BACKSPACE => {
            if pressed_now && state.is_mod_on(Modifier::LeftAlt) && state.is_mod_on(
                Modifier::LeftCtrl,
            ) {
                (remap, one_effect(RemapSideEffect::KillTopWindowProcess))
            } else {
                (remap, no_effects())
            }
        },
        RIGHTCTRL => (key(APPS), no_effects()),
        K_U => {
            if win_shortcut {
                // The lock screen swallows the release of the Win key.
                (
                    RemapTarget::Block,
                    two_effects(set_mod_to(Modifier::Win, false), RemapSideEffect::LockWorkstation),
                )
            } else {
                (remap, no_effects())
            }
        },
        K_4 => {
            if win_shortcut {
                (alt_key(F4), no_effects())
            } else {
                (remap, no_effects())
            }
        },
        K_M => {
            if win_shortcut {
                (remap_minimize(), no_effects())
            } else {
                (remap, no_effects())
            }
        },
        _ => (remap, no_effects()),
    }
}

/// Minimising the foreground window has no key of its own on this host.
fn remap_minimize() -> (r: RemapTarget)
    ensures
        r@ == RemapTargetView::Block,
{
    RemapTarget::Block
}

fn notice(text: &str) -> (r: RemapSideEffect)
    ensures
        r@ == SideEffectView::Notification(text@),
{
    RemapSideEffect::Notification(text.to_owned())
}

fn layer1_stage(state: &RemapState, key_event: KeyEvent, vk: u32) -> (r: (
    RemapTarget,
    Vec<RemapSideEffect>,
))
    ensures
        r.0@ == layer1_target(state@, key_event, vk),
        effects_view(r.1@) == layer1_effects(state@, key_event, vk),
{
    let pressed_now = key_event == KeyEvent::Down;
    let pressed_or_held = key_event != KeyEvent::Up;
    let admin = state.is_mod_on(Modifier::Admin);
    match vk {
        ESCAPE => (RemapTarget::Block, one_effect(set_mod_to(Modifier::Admin, pressed_or_held))),
        SPACE => {
            if admin {
                if let KeyEvent::Up = key_event {
                    (
                        RemapTarget::Block,
                        two_effects(notice("Program terminated"), RemapSideEffect::Terminate),
                    )
                } else {
                    (RemapTarget::Block, no_effects())
                }
            } else {
                (key(SPACE), no_effects())
            }
        },
        K_D => (key(SHIFT), no_effects()),
        K_F => (key(CTRL), one_effect(set_mod_to(Modifier::Ctrl, pressed_or_held))),
        K_J => (key(LEFT), no_effects()),
        K_L => (key(RIGHT), no_effects()),
        K_U => (key(HOME), no_effects()),
        K_O => (key(END), no_effects()),
        K_H => (key(BACKSPACE), no_effects()),
        K_1 => (key(F1), no_effects()),
        K_2 => (key(F2), no_effects()),
        K_3 => (key(F3), no_effects()),
        K_4 => (key(F4), no_effects()),
        K_5 => (key(F5), no_effects()),
        K_6 => (key(F6), no_effects()),
        K_7 => (key(F7), no_effects()),
        K_8 => (key(F8), no_effects()),
        K_9 => (key(F9), no_effects()),
        K_0 => (key(F10), no_effects()),
        MINUS => (key(F11), no_effects()),
        PLUS => (key(F12), no_effects()),
        K_N => (down_or_held_only(key_event, ctrl_key(K_Z)), no_effects()),
        K_M => (down_or_held_only(key_event, ctrl_key(K_Y)), no_effects()),
        K_C => {
            if admin {
                if pressed_now {
                    let colemak_on = !state.is_mod_on(Modifier::Colemak);
                    let text = if colemak_on {
                        notice("Colemak")
                    } else {
                        notice("Qwerty")
                    };
                    (RemapTarget::Block, two_effects(set_mod_to(Modifier::Colemak, colemak_on), text))
                } else {
                    (RemapTarget::Block, no_effects())
                }
            } else {
                (down_only(key_event, ctrl_key(K_C)), no_effects())
            }
        },
        K_X => (down_only(key_event, ctrl_key(K_X)), no_effects()),
        K_V => (down_only(key_event, ctrl_key(K_V)), no_effects()),
        K_S => (down_only(key_event, ctrl_key(K_S)), no_effects()),
        SEMICOLON => (key(RETURN), no_effects()),
        K_P => (key(DELETE), no_effects()),
        COMMA => (down_only(key_event, shift_key(K_7)), no_effects()),
        PERIOD => (down_or_held_only(key_event, shift_key(BACKSLASH)), no_effects()),
        FWD_SLASH => (key(BACKSLASH), no_effects()),
        // Up, or page up while the Ctrl sub-modifier is held.
        K_I => {
            if state.is_mod_on(Modifier::Ctrl) {
                (down_or_held_only(key_event, no_ctrl_key(PGUP)), no_effects())
            } else {
                (key(UP), no_effects())
            }
        },
        // Down, or page down while the Ctrl sub-modifier is held.
        K_K => {
            if state.is_mod_on(Modifier::Ctrl) {
                (down_or_held_only(key_event, no_ctrl_key(PGDOWN)), no_effects())
            } else {
                (key(DOWN), no_effects())
            }
        },
        ALT_GR => (key(LWIN), one_effect(set_mod_to(Modifier::Win, pressed_or_held))),
        // Real modifiers pass through, so that they still combine with the layer.
        LEFTALT => (key(0), no_effects()),
        CTRL => (key(0), no_effects()),
        _ => (RemapTarget::Block, no_effects()),
    }
}

fn comment_chord(open: bool) -> (r: RemapTarget)
    ensures
        r@ == keyseq(if open { comment_open() } else { comment_close() }),
{
    let v = if open {
        vec![
            key_down(FWD_SLASH),
            key_up(FWD_SLASH),
            key_down(SHIFT),
            key_down(K_8),
            key_up(K_8),
            key_up(SHIFT),
        ]
    } else {
        vec![
            key_down(SHIFT),
            key_down(K_8),
            key_up(K_8),
            key_up(SHIFT),
            key_down(FWD_SLASH),
            key_up(FWD_SLASH),
        ]
    };
    assert(v@ =~= (if open { comment_open() } else { comment_close() }));
    RemapTarget::KeySeq(v)
}

fn layer2_stage(key_event: KeyEvent, vk: u32) -> (r: RemapTarget)
    ensures
        r@ == layer2_target(key_event, vk),
{
    match vk {
        SPACE => key(SPACE),
        K_H => down_or_held_only(key_event, shift_key(MINUS)),
        K_J => down_or_held_only(key_event, shift_key(K_9)),
        K_K => down_or_held_only(key_event, shift_key(K_0)),
        K_I => key(LSQUARE),
        K_O => key(RSQUARE),
        K_L => down_or_held_only(key_event, shift_key(LSQUARE)),
        SEMICOLON => down_or_held_only(key_event, shift_key(RSQUARE)),
        K_Y => key(MINUS),
        K_U => down_or_held_only(key_event, shift_key(PLUS)),
        K_M => key(PLUS),
        PERIOD => down_only(key_event, comment_chord(true)),
        FWD_SLASH => down_only(key_event, comment_chord(false)),
        _ => RemapTarget::Block,
    }
}

/// Resolves one key event under `state`: the target (`None`: forward the event
/// unchanged) and the side effects for the host, in order.
pub fn remap_key(state: &RemapState, key_event: KeyEvent, vk: u32) -> (r: (
    Option<RemapTarget>,
    Vec<RemapSideEffect>,
))
    ensures
        target_opt_view(r.0) == remap_spec(state@, key_event, vk).0,
        effects_view(r.1@) == remap_spec(state@, key_event, vk).1,
{
    if vk == CAPS_LOCK || vk == OEM_102 {
        return (Some(RemapTarget::Block), trigger_stage(key_event, vk));
    }
    let remap = if state.is_mod_on(Modifier::Colemak) {
        let code: u32 = if vk <= 255 {
            remap_colemak(vk as u8) as u32
        } else {
            0
        };
        key(code)
    } else {
        key(0)
    };
    let (remap, mut side_effects) = override_stage(state, key_event, vk, remap);
    let ghost first = side_effects@;
    let remap = if state.is_mod_on(Modifier::Mod1) {
        let (mapped, mut more) = layer1_stage(state, key_event, vk);
        let ghost second = more@;
        side_effects.append(&mut more);
        assert(effects_view(side_effects@) =~= effects_view(first) + effects_view(second));
        mapped
    } else if state.is_mod_on(Modifier::Mod2) {
        layer2_stage(key_event, vk)
    } else {
        remap
    };
    proof {
        if !state@.contains(Modifier::Mod1) {
            assert(effects_view(first) + seq![] =~= effects_view(first));
        }
    }
    let remap = match remap {
        RemapTarget::BlindKey(0) => None,
        other => Some(other),
    };
    (remap, side_effects)
}

/// The first layer fails closed: under it, every code that its table does not
/// name resolves to a block, whatever the event.
pub proof fn lemma_layer1_fail_closed(s: Set<Modifier>, ev: KeyEvent, vk: u32)
    requires
        s.contains(Modifier::Mod1),
        !in_layer1_table(vk),
    ensures
        remap_spec(s, ev, vk).0 == Some(RemapTargetView::Block),
{
}

/// The layout toggle key: with the first layer and admin mode active, a press
/// of K_C flips the alternate layout and says which layout is now on; a repeat
/// or release does nothing. The key is blocked either way.
pub proof fn lemma_layout_toggle_key(s: Set<Modifier>, ev: KeyEvent)
    requires
        s.contains(Modifier::Mod1),
        s.contains(Modifier::Admin),
    ensures
        remap_spec(s, ev, K_C) == (if ev == KeyEvent::Down {
            (
                Some(RemapTargetView::Block),
                seq![
                    set_mod_effect(Modifier::Colemak, !s.contains(Modifier::Colemak)),
                    SideEffectView::Notification(
                        if s.contains(Modifier::Colemak) { "Qwerty"@ } else { "Colemak"@ },
                    ),
                ],
            )
        } else {
            (Some(RemapTargetView::Block), Seq::<SideEffectView>::empty())
        }),
{
    let es = remap_spec(s, ev, K_C).1;
    if ev == KeyEvent::Down {
        assert(es =~= seq![
            set_mod_effect(Modifier::Colemak, !s.contains(Modifier::Colemak)),
            SideEffectView::Notification(
                if s.contains(Modifier::Colemak) { "Qwerty"@ } else { "Colemak"@ },
            ),
        ]);
    } else {
        assert(es =~= Seq::<SideEffectView>::empty());
    }
}

} // verus!
