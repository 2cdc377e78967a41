//! The engine: applies the resolver to each event, keeps the modifier state,
//! records which output key each held physical key pressed, and retracts
//! those presses that a change of layer makes stale.
use vstd::prelude::*;
use crate::keys::K_C;
use crate::remap::{
    effects_view, key_down, key_up, remap_key, remap_spec, target_opt_view, KeyAction, KeyEvent,
    Modifier, RemapSideEffect, RemapState, RemapTarget, RemapTargetView, SideEffectView,
};

verus! {

/// The output key that a target presses: the event's own code when it is
/// forwarded, the substitute for a single key, none for a chord or a block.
pub open spec fn target_key(vk: u32, t: Option<RemapTargetView>) -> Option<u32> {
    match t {
        None => Some(vk),
        Some(RemapTargetView::BlindKey(k)) => Some(k),
        _ => None,
    }
}

pub open spec fn pressed_key(s: Set<Modifier>, ev: KeyEvent, vk: u32) -> Option<u32> {
    target_key(vk, remap_spec(s, ev, vk).0)
}

/// The output key that physical key `vk` holds down under state `s`.
pub open spec fn held_key(s: Set<Modifier>, vk: u32) -> Option<u32> {
    pressed_key(s, KeyEvent::Repeat, vk)
}

/// Every record names the output key that its physical key holds under `s`.
pub open spec fn held_consistent(s: Set<Modifier>, h: Seq<(u32, u32)>) -> bool {
    forall|i: int| 0 <= i < h.len() ==> held_key(s, (#[trigger] h[i]).0) == Some(h[i].1)
}

/// What the output sink is sent for target `t` of an event of kind `ev`.
pub open spec fn emission(ev: KeyEvent, t: Option<RemapTargetView>) -> Seq<KeyAction> {
    match t {
        Some(RemapTargetView::BlindKey(k)) => seq![
            if ev == KeyEvent::Up { KeyAction::Up(k) } else { KeyAction::Down(k) },
        ],
        Some(RemapTargetView::KeySeq(s)) => s,
        _ => seq![],
    }
}

/// The records of `h` for other physical keys than `vk`, in order.
pub open spec fn without(h: Seq<(u32, u32)>, vk: u32) -> Seq<(u32, u32)>
    decreases h.len(),
{
    if h.len() == 0 {
        h
    } else {
        let r = without(h.drop_last(), vk);
        if h.last().0 == vk {
            r
        } else {
            r.push(h.last())
        }
    }
}

/// The records after an event on `vk` resolved to `t`: a release drops the
/// key's record, a press or repeat of a single key records what it pressed.
pub open spec fn record(h: Seq<(u32, u32)>, ev: KeyEvent, vk: u32, t: Option<RemapTargetView>) -> Seq<
    (u32, u32),
> {
    match target_key(vk, t) {
        Some(k) => if ev == KeyEvent::Up {
            without(h, vk)
        } else {
            without(h, vk).push((vk, k))
        },
        None => without(h, vk),
    }
}

pub open spec fn apply_effect(s: Set<Modifier>, e: SideEffectView) -> Set<Modifier> {
    match e {
        SideEffectView::SetModifier(m, v) => if v {
            s.insert(m)
        } else {
            s.remove(m)
        },
        _ => s,
    }
}

/// The state after the modifier changes among `es`, in order.
pub open spec fn apply_effects(s: Set<Modifier>, es: Seq<SideEffectView>) -> Set<Modifier>
    decreases es.len(),
{
    if es.len() == 0 {
        s
    } else {
        apply_effect(apply_effects(s, es.drop_last()), es.last())
    }
}

/// The records that still hold what their key holds under `s`.
pub open spec fn reconcile_kept(s: Set<Modifier>, h: Seq<(u32, u32)>) -> Seq<(u32, u32)>
    decreases h.len(),
{
    if h.len() == 0 {
        h
    } else {
        let r = reconcile_kept(s, h.drop_last());
        if held_key(s, h.last().0) == Some(h.last().1) {
            r.push(h.last())
        } else {
            r
        }
    }
}

/// The releases of the output keys whose records went stale under `s`.
pub open spec fn reconcile_ups(s: Set<Modifier>, h: Seq<(u32, u32)>) -> Seq<KeyAction>
    decreases h.len(),
{
    if h.len() == 0 {
        seq![]
    } else {
        let r = reconcile_ups(s, h.drop_last());
        if held_key(s, h.last().0) == Some(h.last().1) {
            r
        } else {
            r.push(KeyAction::Up(h.last().1))
        }
    }
}

/// The codes of the records that went stale under `s`, in order.
pub open spec fn reconcile_dropped(s: Set<Modifier>, h: Seq<(u32, u32)>) -> Seq<u32>
    decreases h.len(),
{
    if h.len() == 0 {
        seq![]
    } else {
        let r = reconcile_dropped(s, h.drop_last());
        if held_key(s, h.last().0) == Some(h.last().1) {
            r
        } else {
            r.push(h.last().0)
        }
    }
}

/// The codes of `m` other than `vk`, in order.
pub open spec fn unmark(m: Seq<u32>, vk: u32) -> Seq<u32>
    decreases m.len(),
{
    if m.len() == 0 {
        m
    } else {
        let r = unmark(m.drop_last(), vk);
        if m.last() == vk {
            r
        } else {
            r.push(m.last())
        }
    }
}

/// The mathematical value of one step of the engine.
pub struct StepView {
    pub state: Set<Modifier>,
    pub held: Seq<(u32, u32)>,
    /// Physical keys whose press was retracted and that stay silent until
    /// they are released or pressed again.
    pub silenced: Seq<u32>,
    pub handled: bool,
    pub emitted: Seq<KeyAction>,
    pub effects: Seq<SideEffectView>,
    pub retracted: Seq<KeyAction>,
}

/// An auto-repeat of a key whose press was retracted: it is swallowed.
pub open spec fn is_silenced(m: Seq<u32>, ev: KeyEvent, vk: u32) -> bool {
    ev == KeyEvent::Repeat && m.contains(vk)
}

/// One event `ev` on `vk` from state `s`, records `h` and silenced keys `m`.
/// A release or a new press of `vk` lifts its silence; every key whose record
/// reconciliation drops is silenced.
pub open spec fn step(
    s: Set<Modifier>,
    h: Seq<(u32, u32)>,
    m: Seq<u32>,
    ev: KeyEvent,
    vk: u32,
) -> StepView {
    if is_silenced(m, ev, vk) {
        StepView {
            state: s,
            held: h,
            silenced: m,
            handled: true,
            emitted: seq![],
            effects: seq![],
            retracted: seq![],
        }
    } else {
        let t = remap_spec(s, ev, vk).0;
        let es = remap_spec(s, ev, vk).1;
        let s1 = apply_effects(s, es);
        let h1 = record(h, ev, vk, t);
        let m1 = unmark(m, vk);
        StepView {
            state: s1,
            held: if s1 == s { h1 } else { reconcile_kept(s1, h1) },
            silenced: if s1 == s { m1 } else { m1 + reconcile_dropped(s1, h1) },
            handled: t != None::<RemapTargetView>,
            emitted: emission(ev, t),
            effects: es,
            retracted: if s1 == s { seq![] } else { reconcile_ups(s1, h1) },
        }
    }
}

/// No silenced key has a record.
pub open spec fn silenced_unheld(h: Seq<(u32, u32)>, m: Seq<u32>) -> bool {
    forall|i: int, j: int| 0 <= i < m.len() && 0 <= j < h.len() ==> #[trigger] m[i] != #[trigger] h[j].0
}

/// The key transition of the physical event itself.
pub open spec fn physical_action(ev: KeyEvent, vk: u32) -> KeyAction {
    if ev == KeyEvent::Up { KeyAction::Up(vk) } else { KeyAction::Down(vk) }
}

/// Everything the output sink observes for one step: the emission, the
/// forwarded event where it is not handled, then the retractions.
pub open spec fn sink_actions(st: StepView, ev: KeyEvent, vk: u32) -> Seq<KeyAction> {
    st.emitted + (if st.handled { seq![] } else { seq![physical_action(ev, vk)] }) + st.retracted
}

/// The result of processing one event.
#[derive(Debug)]
pub struct Outcome {
    /// `false`: the host forwards the physical event unchanged.
    pub handled: bool,
    /// Sent to the output sink first, in order.
    pub emitted: Vec<KeyAction>,
    /// For the host to run after the emission, in order.
    pub effects: Vec<RemapSideEffect>,
    /// Releases of stale presses, sent last.
    pub retracted: Vec<KeyAction>,
}

/// The remapping engine: modifier state and the records of held keys.
#[derive(Debug)]
pub struct Engine {
    pub state: RemapState,
    /// For each physical key held down, the output key it pressed.
    pub held: Vec<(u32, u32)>,
    /// Physical keys still down whose press reconciliation retracted.
    pub silenced: Vec<u32>,
}

fn without_code(held: &Vec<(u32, u32)>, code: u32) -> (r: Vec<(u32, u32)>)
    ensures
        r@ == without(held@, code),
{
    let mut r: Vec<(u32, u32)> = Vec::new();
    let mut i: usize = 0;
    while i < held.len()
        invariant
            i <= held.len(),
            r@ == without(held@.take(i as int), code),
        decreases held.len() - i,
    {
        let e = held[i];
        proof {
            assert(held@.take(i + 1).drop_last() =~= held@.take(i as int));
        }
        if e.0 != code {
            r.push(e);
        }
        i += 1;
    }
    assert(held@.take(held.len() as int) =~= held@);
    r
}

/// Whether physical key `code` still holds output key `out` under `state`.
fn still_holds(state: &RemapState, code: u32, out: u32) -> (r: bool)
    ensures
        r == (held_key(state@, code) == Some(out)),
{
    let (t, _effects) = remap_key(state, KeyEvent::Repeat, code);
    match t {
        None => code == out,
        Some(RemapTarget::BlindKey(k)) => k == out,
        _ => false,
    }
}

fn reconcile(state: &RemapState, held: &Vec<(u32, u32)>) -> (r: (
    Vec<(u32, u32)>,
    Vec<KeyAction>,
    Vec<u32>,
))
    ensures
        r.0@ == reconcile_kept(state@, held@),
        r.1@ == reconcile_ups(state@, held@),
        r.2@ == reconcile_dropped(state@, held@),
{
    let mut kept: Vec<(u32, u32)> = Vec::new();
    let mut ups: Vec<KeyAction> = Vec::new();
    let mut dropped: Vec<u32> = Vec::new();
    let mut i: usize = 0;
    while i < held.len()
        invariant
            i <= held.len(),
            kept@ == reconcile_kept(state@, held@.take(i as int)),
            ups@ == reconcile_ups(state@, held@.take(i as int)),
            dropped@ == reconcile_dropped(state@, held@.take(i as int)),
        decreases held.len() - i,
    {
        let e = held[i];
        proof {
            assert(held@.take(i + 1).drop_last() =~= held@.take(i as int));
        }
        if still_holds(state, e.0, e.1) {
            kept.push(e);
        } else {
            ups.push(key_up(e.1));
            dropped.push(e.0);
        }
        i += 1;
    }
    assert(held@.take(held.len() as int) =~= held@);
    (kept, ups, dropped)
}

fn unmark_code(marks: &Vec<u32>, code: u32) -> (r: Vec<u32>)
    ensures
        r@ == unmark(marks@, code),
{
    let mut r: Vec<u32> = Vec::new();
    let mut i: usize = 0;
    while i < marks.len()
        invariant
            i <= marks.len(),
            r@ == unmark(marks@.take(i as int), code),
        decreases marks.len() - i,
    {
        let c = marks[i];
        proof {
            assert(marks@.take(i + 1).drop_last() =~= marks@.take(i as int));
        }
        if c != code {
            r.push(c);
        }
        i += 1;
    }
    assert(marks@.take(marks.len() as int) =~= marks@);
    r
}

fn contains_code(marks: &Vec<u32>, code: u32) -> (r: bool)
    ensures
        r == marks@.contains(code),
{
    let mut i: usize = 0;
    while i < marks.len()
        invariant
            i <= marks.len(),
            forall|j: int| 0 <= j < i ==> marks@[j] != code,
        decreases marks.len() - i,
    {
        if marks[i] == code {
            return true;
        }
        i += 1;
    }
    false
}

impl Engine {
    pub open spec fn wf(&self) -> bool {
        &&& held_consistent(self.state@, self.held@)
        &&& silenced_unheld(self.held@, self.silenced@)
    }

    /// An engine with no modifier active and no key held.
    pub fn new() -> (r: Engine)
        ensures
            r.wf(),
            r.state@ == Set::<Modifier>::empty(),
            r.held@ == Seq::<(u32, u32)>::empty(),
            r.silenced@ == Seq::<u32>::empty(),
    {
        Engine { state: RemapState::new(), held: Vec::new(), silenced: Vec::new() }
    }

    /// The engine and outcome agree with one step from the engine's earlier
    /// state and records.
    pub open spec fn steps_to(self, st: StepView, r: &Outcome) -> bool {
        &&& self.state@ == st.state
        &&& self.held@ == st.held
        &&& self.silenced@ == st.silenced
        &&& r.handled == st.handled
        &&& r.emitted@ == st.emitted
        &&& effects_view(r.effects@) == st.effects
        &&& r.retracted@ == st.retracted
    }

    /// Processes one physical key event: resolves it, records the key it
    /// holds, applies the modifier changes and retracts stale presses.
    #[verifier::rlimit(40)]
    pub fn process(&mut self, code: u32, key_event: KeyEvent) -> (r: Outcome)
        requires
            old(self).wf(),
        ensures
            final(self).wf(),
            final(self).steps_to(
                step(old(self).state@, old(self).held@, old(self).silenced@, key_event, code),
                &r,
            ),
    {
        let ghost s0 = self.state@;
        let ghost h0 = self.held@;
        let ghost m0 = self.silenced@;
        if key_event == KeyEvent::Repeat && contains_code(&self.silenced, code) {
            // A retracted key stays silent until it is released or pressed again.
            let quiet = Outcome {
                handled: true,
                emitted: Vec::new(),
                effects: Vec::new(),
                retracted: Vec::new(),
            };
            assert(quiet.emitted@ =~= Seq::<KeyAction>::empty());
            assert(quiet.retracted@ =~= Seq::<KeyAction>::empty());
            assert(effects_view(quiet.effects@) =~= Seq::<SideEffectView>::empty());
            return quiet;
        }
        let (target, effects) = remap_key(&self.state, key_event, code);
        let ghost t = target_opt_view(target);
        let pressed: Option<u32> = match &target {
            None => Some(code),
            Some(RemapTarget::BlindKey(k)) => Some(*k),
            Some(_) => None,
        };
        let handled = target.is_some();
        let emitted: Vec<KeyAction> = match target {
            Some(RemapTarget::BlindKey(k)) => {
                if key_event == KeyEvent::Up {
                    vec![key_up(k)]
                } else {
                    vec![key_down(k)]
                }
            },
            Some(RemapTarget::KeySeq(chord)) => chord,
            _ => Vec::new(),
        };
        proof {
            assert(emitted@ =~= emission(key_event, t));
        }
        let mut held = without_code(&self.held, code);
        if key_event != KeyEvent::Up {
            if let Some(k) = pressed {
                held.push((code, k));
            }
        }
        assert(held@ =~= record(h0, key_event, code, t));
        let before = self.state;
        let mut state = self.state;
        let ghost es = effects_view(effects@);
        let mut i: usize = 0;
        while i < effects.len()
            invariant
                i <= effects.len(),
                es == effects_view(effects@),
                state@ == apply_effects(before@, es.take(i as int)),
            decreases effects.len() - i,
        {
            proof {
                assert(es.take(i + 1).drop_last() =~= es.take(i as int));
            }
            if let RemapSideEffect::SetModifier(m, v) = &effects[i] {
                state.set_mod(*m, *v);
            }
            i += 1;
        }
        proof {
            assert(es.take(effects.len() as int) =~= es);
            before.lemma_view_injective(&state);
            lemma_step_consistent(s0, h0, m0, key_event, code);
        }
        self.state = state;
        let mut marks = unmark_code(&self.silenced, code);
        let retracted = if state == before {
            self.held = held;
            Vec::new()
        } else {
            let (kept, ups, mut dropped) = reconcile(&state, &held);
            self.held = kept;
            marks.append(&mut dropped);
            ups
        };
        self.silenced = marks;
        Outcome { handled, emitted, effects, retracted }
    }
}

/// A press that pushes a single key pushes the key that its repeats hold.
pub proof fn lemma_press_matches_repeat(s: Set<Modifier>, vk: u32)
    ensures
        pressed_key(s, KeyEvent::Down, vk) != None::<u32> ==> pressed_key(s, KeyEvent::Down, vk)
            == held_key(s, vk),
{
}

/// A release lets go of the key that the repeats held.
pub proof fn lemma_release_matches_repeat(s: Set<Modifier>, vk: u32)
    ensures
        held_key(s, vk) != None::<u32> ==> pressed_key(s, KeyEvent::Up, vk) == held_key(s, vk),
{
}

/// `without` keeps exactly the records of other keys.
proof fn lemma_without(s: Set<Modifier>, h: Seq<(u32, u32)>, vk: u32)
    ensures
        forall|i: int| 0 <= i < without(h, vk).len() ==> (#[trigger] without(h, vk)[i]).0 != vk,
        forall|i: int|
            0 <= i < without(h, vk).len() ==> h.contains(#[trigger] without(h, vk)[i]),
        forall|j: int| 0 <= j < h.len() && (#[trigger] h[j]).0 != vk ==> without(h, vk).contains(h[j]),
        held_consistent(s, h) ==> held_consistent(s, without(h, vk)),
    decreases h.len(),
{
    if h.len() > 0 {
        let p = h.drop_last();
        let w = without(h, vk);
        let wp = without(p, vk);
        lemma_without(s, p, vk);
        assert forall|i: int| 0 <= i < w.len() implies h.contains(#[trigger] w[i]) by {
            if i < wp.len() {
                assert(w[i] == wp[i]);
                assert(p.contains(wp[i]));
                let k = choose|k: int| 0 <= k < p.len() && p[k] == wp[i];
                assert(h[k] == w[i]);
            } else {
                assert(h[h.len() - 1] == w[i]);
            }
        }
        assert forall|j: int| 0 <= j < h.len() && (#[trigger] h[j]).0 != vk implies w.contains(
            h[j],
        ) by {
            if j < p.len() {
                assert(p[j] == h[j]);
                assert(wp.contains(p[j]));
                let k = choose|k: int| 0 <= k < wp.len() && wp[k] == p[j];
                assert(w[k] == h[j]);
            } else {
                assert(w[w.len() - 1] == h[j]);
            }
        }
        if held_consistent(s, h) {
            assert forall|i: int| 0 <= i < p.len() implies held_key(s, (#[trigger] p[i]).0) == Some(
                p[i].1,
            ) by {
                assert(p[i] == h[i]);
            }
        }
    }
}

/// Reconciliation keeps only live records, and releases every one it drops.
proof fn lemma_reconcile(s: Set<Modifier>, h: Seq<(u32, u32)>)
    ensures
        held_consistent(s, reconcile_kept(s, h)),
        forall|i: int|
            0 <= i < reconcile_kept(s, h).len() ==> h.contains(#[trigger] reconcile_kept(s, h)[i]),
        forall|j: int|
            0 <= j < h.len() ==> reconcile_kept(s, h).contains(#[trigger] h[j]) || reconcile_ups(
                s,
                h,
            ).contains(KeyAction::Up(h[j].1)),
        forall|i: int| 0 <= i < reconcile_ups(s, h).len() ==> (#[trigger] reconcile_ups(s, h)[i]) is Up,
    decreases h.len(),
{
    if h.len() > 0 {
        let p = h.drop_last();
        let k = reconcile_kept(s, h);
        let kp = reconcile_kept(s, p);
        let u = reconcile_ups(s, h);
        let up = reconcile_ups(s, p);
        lemma_reconcile(s, p);
        assert forall|i: int| 0 <= i < k.len() implies h.contains(#[trigger] k[i]) by {
            if i < kp.len() {
                assert(k[i] == kp[i]);
                assert(p.contains(kp[i]));
                let w = choose|w: int| 0 <= w < p.len() && p[w] == kp[i];
                assert(h[w] == k[i]);
            } else {
                assert(h[h.len() - 1] == k[i]);
            }
        }
        assert forall|j: int| 0 <= j < h.len() implies k.contains(#[trigger] h[j]) || u.contains(
            KeyAction::Up(h[j].1),
        ) by {
            if j < p.len() {
                assert(p[j] == h[j]);
                if kp.contains(p[j]) {
                    let w = choose|w: int| 0 <= w < kp.len() && kp[w] == p[j];
                    assert(k[w] == h[j]);
                } else {
                    let w = choose|w: int| 0 <= w < up.len() && up[w] == KeyAction::Up(p[j].1);
                    assert(u[w] == KeyAction::Up(h[j].1));
                }
            } else {
                if held_key(s, h.last().0) == Some(h.last().1) {
                    assert(k[k.len() - 1] == h[j]);
                } else {
                    assert(u[u.len() - 1] == KeyAction::Up(h[j].1));
                }
            }
        }
        assert forall|i: int| 0 <= i < u.len() implies (#[trigger] u[i]) is Up by {
            if i < up.len() {
                assert(u[i] == up[i]);
            }
        }
        assert forall|i: int| 0 <= i < k.len() implies held_key(s, (#[trigger] k[i]).0) == Some(
            k[i].1,
        ) by {
            if i < kp.len() {
                assert(k[i] == kp[i]);
            }
        }
    }
}

/// Two records of one key name the same output key.
pub open spec fn records_agree(h: Seq<(u32, u32)>) -> bool {
    forall|i: int, j: int|
        0 <= i < h.len() && 0 <= j < h.len() && (#[trigger] h[i]).0 == (#[trigger] h[j]).0 ==> h[i].1
            == h[j].1
}

/// Some record of `h` with code `c` went stale under `s`.
pub open spec fn stale_code(s: Set<Modifier>, h: Seq<(u32, u32)>, c: u32) -> bool {
    exists|w: int| 0 <= w < h.len() && (#[trigger] h[w]).0 == c && held_key(s, h[w].0) != Some(h[w].1)
}

/// Reconciliation names the code of every stale record among the dropped, and
/// only those; where records agree, no kept record shares a dropped code.
proof fn lemma_reconcile_dropped(s: Set<Modifier>, h: Seq<(u32, u32)>)
    ensures
        forall|j: int|
            0 <= j < h.len() && held_key(s, (#[trigger] h[j]).0) != Some(h[j].1) ==> reconcile_dropped(
                s,
                h,
            ).contains(h[j].0),
        forall|i: int|
            0 <= i < reconcile_dropped(s, h).len() ==> stale_code(
                s,
                h,
                #[trigger] reconcile_dropped(s, h)[i],
            ),
        records_agree(h) ==> forall|i: int, j: int|
            0 <= i < reconcile_kept(s, h).len() && 0 <= j < reconcile_dropped(s, h).len() ==> (
            #[trigger] reconcile_kept(s, h)[i]).0 != #[trigger] reconcile_dropped(s, h)[j],
    decreases h.len(),
{
    let d = reconcile_dropped(s, h);
    let k = reconcile_kept(s, h);
    if h.len() > 0 {
        let p = h.drop_last();
        let dp = reconcile_dropped(s, p);
        lemma_reconcile_dropped(s, p);
        assert forall|j: int|
            0 <= j < h.len() && held_key(s, (#[trigger] h[j]).0) != Some(h[j].1) implies d.contains(
            h[j].0,
        ) by {
            if j < p.len() {
                assert(p[j] == h[j]);
                let w = choose|w: int| 0 <= w < dp.len() && dp[w] == p[j].0;
                assert(d[w] == h[j].0);
            } else {
                assert(d[d.len() - 1] == h[j].0);
            }
        }
        assert forall|i: int| 0 <= i < d.len() implies stale_code(s, h, #[trigger] d[i]) by {
            if i < dp.len() {
                assert(d[i] == dp[i]);
                let w = choose|w: int|
                    0 <= w < p.len() && (#[trigger] p[w]).0 == dp[i] && held_key(s, p[w].0) != Some(
                        p[w].1,
                    );
                assert(h[w] == p[w]);
            } else {
                assert(h[h.len() - 1].0 == d[i]);
            }
        }
    }
    lemma_reconcile(s, h);
    if records_agree(h) {
        assert forall|i: int, j: int| 0 <= i < k.len() && 0 <= j < d.len() implies (
        #[trigger] k[i]).0 != #[trigger] d[j] by {
            assert(h.contains(k[i]));
            let a = choose|a: int| 0 <= a < h.len() && h[a] == k[i];
            let w = choose|w: int|
                0 <= w < h.len() && (#[trigger] h[w]).0 == d[j] && held_key(s, h[w].0) != Some(
                    h[w].1,
                );
            assert(held_key(s, k[i].0) == Some(k[i].1));
        }
    }
}

/// `unmark` keeps exactly the other codes.
proof fn lemma_unmark(m: Seq<u32>, vk: u32)
    ensures
        forall|i: int| 0 <= i < unmark(m, vk).len() ==> (#[trigger] unmark(m, vk)[i]) != vk,
        forall|i: int| 0 <= i < unmark(m, vk).len() ==> m.contains(#[trigger] unmark(m, vk)[i]),
        forall|j: int| 0 <= j < m.len() && (#[trigger] m[j]) != vk ==> unmark(m, vk).contains(m[j]),
    decreases m.len(),
{
    if m.len() > 0 {
        let p = m.drop_last();
        let u = unmark(m, vk);
        let up = unmark(p, vk);
        lemma_unmark(p, vk);
        assert forall|i: int| 0 <= i < u.len() implies m.contains(#[trigger] u[i]) by {
            if i < up.len() {
                assert(u[i] == up[i]);
                let w = choose|w: int| 0 <= w < p.len() && p[w] == up[i];
                assert(m[w] == u[i]);
            } else {
                assert(m[m.len() - 1] == u[i]);
            }
        }
        assert forall|j: int| 0 <= j < m.len() && (#[trigger] m[j]) != vk implies u.contains(m[j]) by {
            if j < p.len() {
                assert(p[j] == m[j]);
                let w = choose|w: int| 0 <= w < up.len() && up[w] == p[j];
                assert(u[w] == m[j]);
            } else {
                assert(u[u.len() - 1] == m[j]);
            }
        }
    }
}

/// Recording an event keeps the records consistent; its records come from the
/// earlier ones or are the event's own.
proof fn lemma_record(s: Set<Modifier>, h: Seq<(u32, u32)>, ev: KeyEvent, vk: u32)
    requires
        held_consistent(s, h),
    ensures
        held_consistent(s, record(h, ev, vk, remap_spec(s, ev, vk).0)),
        forall|i: int|
            0 <= i < record(h, ev, vk, remap_spec(s, ev, vk).0).len() ==> h.contains(
                #[trigger] record(h, ev, vk, remap_spec(s, ev, vk).0)[i],
            ) || record(h, ev, vk, remap_spec(s, ev, vk).0)[i].0 == vk,
{
    let h1 = record(h, ev, vk, remap_spec(s, ev, vk).0);
    let w = without(h, vk);
    lemma_without(s, h, vk);
    lemma_press_matches_repeat(s, vk);
    assert forall|i: int| 0 <= i < h1.len() implies held_key(s, (#[trigger] h1[i]).0) == Some(
        h1[i].1,
    ) by {
        if i < w.len() {
            assert(h1[i] == w[i]);
        }
    }
    assert forall|i: int| 0 <= i < h1.len() implies h.contains(#[trigger] h1[i]) || h1[i].0 == vk by {
        if i < w.len() {
            assert(h1[i] == w[i]);
        }
    }
}

/// The state and records after one step are consistent again, and silenced
/// keys stay without records.
proof fn lemma_step_consistent(
    s: Set<Modifier>,
    h: Seq<(u32, u32)>,
    m: Seq<u32>,
    ev: KeyEvent,
    vk: u32,
)
    requires
        held_consistent(s, h),
    ensures
        held_consistent(step(s, h, m, ev, vk).state, step(s, h, m, ev, vk).held),
        silenced_unheld(h, m) ==> silenced_unheld(
            step(s, h, m, ev, vk).held,
            step(s, h, m, ev, vk).silenced,
        ),
{
    let st = step(s, h, m, ev, vk);
    if !is_silenced(m, ev, vk) {
        let h1 = record(h, ev, vk, remap_spec(s, ev, vk).0);
        let m1 = unmark(m, vk);
        lemma_record(s, h, ev, vk);
        lemma_unmark(m, vk);
        if st.state != s {
            lemma_reconcile(st.state, h1);
            lemma_reconcile_dropped(st.state, h1);
        }
        if silenced_unheld(h, m) {
            // No record of `h1` bears a code of `m1`.
            assert forall|i: int, j: int| 0 <= i < m1.len() && 0 <= j < h1.len() implies #[trigger] m1[i]
                != #[trigger] h1[j].0 by {
                if h1[j].0 != vk {
                    let a = choose|a: int| 0 <= a < h.len() && h[a] == h1[j];
                    let b = choose|b: int| 0 <= b < m.len() && m[b] == m1[i];
                    assert(m[b] != h[a].0);
                }
            }
            if st.state != s {
                let k = reconcile_kept(st.state, h1);
                let d = reconcile_dropped(st.state, h1);
                assert(records_agree(h1)) by {
                    assert forall|i: int, j: int|
                        0 <= i < h1.len() && 0 <= j < h1.len() && (#[trigger] h1[i]).0 == (
                        #[trigger] h1[j]).0 implies h1[i].1 == h1[j].1 by {
                        assert(held_key(s, h1[i].0) == Some(h1[i].1));
                        assert(held_key(s, h1[j].0) == Some(h1[j].1));
                    }
                }
                assert forall|i: int, j: int|
                    0 <= i < st.silenced.len() && 0 <= j < st.held.len() implies #[trigger] st.silenced[i]
                    != #[trigger] st.held[j].0 by {
                    assert(h1.contains(k[j]));
                    let a = choose|a: int| 0 <= a < h1.len() && h1[a] == k[j];
                    if i < m1.len() {
                        assert(st.silenced[i] == m1[i]);
                        assert(m1[i] != h1[a].0);
                    } else {
                        assert(st.silenced[i] == d[i - m1.len()]);
                        assert(k[j].0 != d[i - m1.len()]);
                    }
                }
            }
        }
    }
}

/// No stuck keys. For a step from consistent records (where a press does not
/// repeat the press of a key already held): every record that the step drops
/// has the release of its output key sent to the sink; a release leaves no
/// record of its key; what a press or repeat of a single key pushes is
/// recorded, or released at once by reconciliation; and no record appears but
/// the event's own.
pub proof fn lemma_no_stuck_keys(
    s: Set<Modifier>,
    h: Seq<(u32, u32)>,
    m: Seq<u32>,
    ev: KeyEvent,
    vk: u32,
)
    requires
        held_consistent(s, h),
        ev == KeyEvent::Down ==> forall|j: int| 0 <= j < h.len() ==> (#[trigger] h[j]).0 != vk,
    ensures
        held_consistent(step(s, h, m, ev, vk).state, step(s, h, m, ev, vk).held),
        forall|j: int|
            0 <= j < h.len() && !step(s, h, m, ev, vk).held.contains(#[trigger] h[j]) ==> sink_actions(
                step(s, h, m, ev, vk),
                ev,
                vk,
            ).contains(KeyAction::Up(h[j].1)),
        ev == KeyEvent::Up ==> forall|i: int|
            0 <= i < step(s, h, m, ev, vk).held.len() ==> (#[trigger] step(s, h, m, ev, vk).held[i]).0
                != vk,
        forall|k: u32|
            ev != KeyEvent::Up && !is_silenced(m, ev, vk) && pressed_key(s, ev, vk) == Some(k) ==> step(
                s,
                h,
                m,
                ev,
                vk,
            ).held.contains((vk, k)) || #[trigger] step(s, h, m, ev, vk).retracted.contains(
                KeyAction::Up(k),
            ),
        forall|i: int|
            0 <= i < step(s, h, m, ev, vk).held.len() ==> h.contains(
                #[trigger] step(s, h, m, ev, vk).held[i],
            ) || (step(s, h, m, ev, vk).held[i].0 == vk && ev != KeyEvent::Up),
{
    let st = step(s, h, m, ev, vk);
    let t = remap_spec(s, ev, vk).0;
    let h1 = record(h, ev, vk, t);
    let w = without(h, vk);
    let sink = sink_actions(st, ev, vk);
    let mid: Seq<KeyAction> = if st.handled { seq![] } else { seq![physical_action(ev, vk)] };
    lemma_step_consistent(s, h, m, ev, vk);
    if is_silenced(m, ev, vk) {
        assert forall|j: int| 0 <= j < h.len() implies st.held.contains(#[trigger] h[j]) by {
            assert(st.held[j] == h[j]);
        }
    } else {
        lemma_without(s, h, vk);
        lemma_release_matches_repeat(s, vk);
        if st.state != s {
            lemma_reconcile(st.state, h1);
        }
        // Each record of `h1` either stays or has its release among the retractions.
        assert forall|x: (u32, u32)| h1.contains(x) && !st.held.contains(x) implies sink.contains(
            KeyAction::Up(x.1),
        ) by {
            let a = choose|a: int| 0 <= a < h1.len() && h1[a] == x;
            assert(st.state != s);
            assert(st.retracted.contains(KeyAction::Up(h1[a].1)));
            let b = choose|b: int| 0 <= b < st.retracted.len() && st.retracted[b] == KeyAction::Up(x.1);
            assert(sink[st.emitted.len() + mid.len() + b] == KeyAction::Up(x.1));
        }
        // `w` lies within `h1`.
        assert forall|x: (u32, u32)| w.contains(x) implies h1.contains(x) by {
            let a = choose|a: int| 0 <= a < w.len() && w[a] == x;
            assert(h1[a] == x);
        }
        assert forall|j: int|
            0 <= j < h.len() && !st.held.contains(#[trigger] h[j]) implies sink.contains(
            KeyAction::Up(h[j].1),
        ) by {
            if h[j].0 != vk {
                assert(w.contains(h[j]));
                assert(h1.contains(h[j]));
            } else if ev == KeyEvent::Repeat {
                assert(held_key(s, h[j].0) == Some(h[j].1));
                assert(h1[h1.len() - 1] == h[j]);
                assert(h1.contains(h[j]));
            } else {
                assert(ev == KeyEvent::Up);
                assert(held_key(s, vk) == Some(h[j].1));
                assert(pressed_key(s, ev, vk) == Some(h[j].1));
                if st.handled {
                    assert(st.emitted == seq![KeyAction::Up(h[j].1)]);
                    assert(sink[0] == KeyAction::Up(h[j].1));
                } else {
                    assert(st.emitted == Seq::<KeyAction>::empty());
                    assert(sink[0] == KeyAction::Up(h[j].1));
                }
            }
        }
        // Every record after the step comes from `h1`.
        assert forall|i: int| 0 <= i < st.held.len() implies h1.contains(#[trigger] st.held[i]) by {
            if st.state == s {
                assert(h1[i] == st.held[i]);
            }
        }
        assert forall|i: int|
            0 <= i < st.held.len() implies h.contains(#[trigger] st.held[i]) || (st.held[i].0 == vk
            && ev != KeyEvent::Up) by {
            let a = choose|a: int| 0 <= a < h1.len() && h1[a] == st.held[i];
            if a < w.len() {
                assert(w.contains(h1[a]));
            }
        }
        assert forall|k: u32|
            ev != KeyEvent::Up && !is_silenced(m, ev, vk) && pressed_key(s, ev, vk) == Some(k) implies st.held.contains((vk, k))
            || #[trigger] st.retracted.contains(KeyAction::Up(k)) by {
            assert(h1[h1.len() - 1] == (vk, k));
            if !st.held.contains((vk, k)) {
                assert(st.state != s);
            }
        }
    }
}

/// Sequences are self-contained: a step whose target is a chord emits the
/// chord (unless it is a silenced repeat) and leaves no record of its key.
pub proof fn lemma_sequence_not_held(
    s: Set<Modifier>,
    h: Seq<(u32, u32)>,
    m: Seq<u32>,
    ev: KeyEvent,
    vk: u32,
    chord: Seq<KeyAction>,
)
    requires
        silenced_unheld(h, m),
        remap_spec(s, ev, vk).0 == Some(RemapTargetView::KeySeq(chord)),
    ensures
        !is_silenced(m, ev, vk) ==> step(s, h, m, ev, vk).emitted == chord,
        forall|i: int|
            0 <= i < step(s, h, m, ev, vk).held.len() ==> (#[trigger] step(
                s,
                h,
                m,
                ev,
                vk,
            ).held[i]).0 != vk,
{
    let st = step(s, h, m, ev, vk);
    let h1 = record(h, ev, vk, remap_spec(s, ev, vk).0);
    lemma_without(s, h, vk);
    if is_silenced(m, ev, vk) {
        let c = choose|c: int| 0 <= c < m.len() && m[c] == vk;
        assert forall|i: int| 0 <= i < st.held.len() implies (#[trigger] st.held[i]).0 != vk by {
            assert(m[c] != h[i].0);
        }
    } else {
        if st.state != s {
            lemma_reconcile(st.state, h1);
        }
        assert forall|i: int| 0 <= i < st.held.len() implies (#[trigger] st.held[i]).0 != vk by {
            if st.state != s {
                let a = choose|a: int| 0 <= a < h1.len() && h1[a] == st.held[i];
            }
        }
    }
}

/// Reconciliation: when a step leaves held key `x` (not the event's own) no
/// longer holding its recorded output `y`, the step sends the release of `y`,
/// keeps no record of `x`, silences `x`, and reconciliation presses nothing.
pub proof fn lemma_reconciliation_retracts(
    s: Set<Modifier>,
    h: Seq<(u32, u32)>,
    m: Seq<u32>,
    ev: KeyEvent,
    vk: u32,
    x: u32,
    y: u32,
)
    requires
        held_consistent(s, h),
        h.contains((x, y)),
        x != vk,
        held_key(step(s, h, m, ev, vk).state, x) != Some(y),
    ensures
        step(s, h, m, ev, vk).retracted.contains(KeyAction::Up(y)),
        step(s, h, m, ev, vk).silenced.contains(x),
        forall|i: int|
            0 <= i < step(s, h, m, ev, vk).held.len() ==> (#[trigger] step(
                s,
                h,
                m,
                ev,
                vk,
            ).held[i]).0 != x,
        forall|i: int|
            0 <= i < step(s, h, m, ev, vk).retracted.len() ==> (#[trigger] step(
                s,
                h,
                m,
                ev,
                vk,
            ).retracted[i]) is Up,
{
    let st = step(s, h, m, ev, vk);
    let t = remap_spec(s, ev, vk).0;
    let h1 = record(h, ev, vk, t);
    let w = without(h, vk);
    let m1 = unmark(m, vk);
    lemma_without(s, h, vk);
    lemma_step_consistent(s, h, m, ev, vk);
    let j = choose|j: int| 0 <= j < h.len() && h[j] == (x, y);
    assert(held_key(s, x) == Some(y));
    assert(!is_silenced(m, ev, vk));
    assert(st.state != s);
    lemma_reconcile(st.state, h1);
    lemma_reconcile_dropped(st.state, h1);
    assert(w.contains(h[j]));
    let a = choose|a: int| 0 <= a < w.len() && w[a] == h[j];
    assert(h1[a] == (x, y));
    let d = reconcile_dropped(st.state, h1);
    let b = choose|b: int| 0 <= b < d.len() && d[b] == h1[a].0;
    assert(st.silenced[m1.len() + b] == x);
    assert forall|i: int| 0 <= i < st.held.len() implies (#[trigger] st.held[i]).0 != x by {
        if st.held[i].0 == x {
            assert(held_key(st.state, x) == Some(st.held[i].1));
            let b = choose|b: int| 0 <= b < h1.len() && h1[b] == st.held[i];
            if b < w.len() {
                assert(h.contains(w[b]));
                let c = choose|c: int| 0 <= c < h.len() && h[c] == w[b];
                assert(held_key(s, h[c].0) == Some(h[c].1));
            }
        }
    }
}

/// A retracted key stays un-held until it is released or pressed again: while
/// `x` is silenced, a step on another key or a repeat of `x` keeps it
/// silenced and without a record, and a repeat of `x` is swallowed whole
/// (nothing is emitted, forwarded, recorded or changed).
pub proof fn lemma_silenced_key_stays_quiet(
    s: Set<Modifier>,
    h: Seq<(u32, u32)>,
    m: Seq<u32>,
    ev: KeyEvent,
    vk: u32,
    x: u32,
)
    requires
        held_consistent(s, h),
        silenced_unheld(h, m),
        m.contains(x),
        vk != x || ev == KeyEvent::Repeat,
    ensures
        step(s, h, m, ev, vk).silenced.contains(x),
        forall|i: int|
            0 <= i < step(s, h, m, ev, vk).held.len() ==> (#[trigger] step(
                s,
                h,
                m,
                ev,
                vk,
            ).held[i]).0 != x,
        vk == x ==> ({
            let st = step(s, h, m, ev, vk);
            &&& st.handled
            &&& st.emitted.len() == 0
            &&& st.effects.len() == 0
            &&& st.retracted.len() == 0
            &&& st.state == s
            &&& st.held == h
            &&& st.silenced == m
        }),
{
    let st = step(s, h, m, ev, vk);
    lemma_step_consistent(s, h, m, ev, vk);
    let c = choose|c: int| 0 <= c < m.len() && m[c] == x;
    if !is_silenced(m, ev, vk) {
        lemma_unmark(m, vk);
        let m1 = unmark(m, vk);
        assert(m1.contains(m[c]));
        let e = choose|e: int| 0 <= e < m1.len() && m1[e] == x;
        assert(st.silenced[e] == x);
        assert forall|i: int| 0 <= i < st.held.len() implies (#[trigger] st.held[i]).0 != x by {
            assert(st.silenced[e] != st.held[i].0);
        }
    } else {
        assert forall|i: int| 0 <= i < st.held.len() implies (#[trigger] st.held[i]).0 != x by {
            assert(m[c] != h[i].0);
        }
    }
}

/// The layout toggle is idempotent: with the first layer and admin mode
/// active, pressing and releasing the toggle key twice restores the modifier
/// state, and with it every later resolution.
pub proof fn lemma_layout_toggle_twice(s: Set<Modifier>, h: Seq<(u32, u32)>, m: Seq<u32>)
    requires
        s.contains(Modifier::Mod1),
        s.contains(Modifier::Admin),
    ensures
        ({
            let e1 = step(s, h, m, KeyEvent::Down, K_C);
            let e2 = step(e1.state, e1.held, e1.silenced, KeyEvent::Up, K_C);
            let e3 = step(e2.state, e2.held, e2.silenced, KeyEvent::Down, K_C);
            let e4 = step(e3.state, e3.held, e3.silenced, KeyEvent::Up, K_C);
            &&& e4.state == s
            &&& forall|ev: KeyEvent, vk: u32| #[trigger] remap_spec(e4.state, ev, vk) == remap_spec(s, ev, vk)
        }),
{
    let e1 = step(s, h, m, KeyEvent::Down, K_C);
    let e2 = step(e1.state, e1.held, e1.silenced, KeyEvent::Up, K_C);
    let e3 = step(e2.state, e2.held, e2.silenced, KeyEvent::Down, K_C);
    let e4 = step(e3.state, e3.held, e3.silenced, KeyEvent::Up, K_C);
    let on = !s.contains(Modifier::Colemak);
    let s1 = if on { s.insert(Modifier::Colemak) } else { s.remove(Modifier::Colemak) };
    let es1 = remap_spec(s, KeyEvent::Down, K_C).1;
    assert(es1 =~= seq![
        SideEffectView::SetModifier(Modifier::Colemak, on),
        SideEffectView::Notification(if on { "Colemak"@ } else { "Qwerty"@ }),
    ]);
    assert(es1.drop_last().drop_last() =~= Seq::<SideEffectView>::empty());
    assert(apply_effects(s, es1.drop_last().drop_last()) == s);
    assert(es1.drop_last().last() == SideEffectView::SetModifier(Modifier::Colemak, on));
    assert(apply_effects(s, es1.drop_last()) == s1);
    assert(e1.state == s1);
    assert(remap_spec(s1, KeyEvent::Up, K_C).1 =~= Seq::<SideEffectView>::empty());
    assert(e2.state == s1);
    let s3 = if on { s1.remove(Modifier::Colemak) } else { s1.insert(Modifier::Colemak) };
    assert(s1.contains(Modifier::Mod1) && s1.contains(Modifier::Admin));
    let es3 = remap_spec(s1, KeyEvent::Down, K_C).1;
    assert(es3 =~= seq![
        SideEffectView::SetModifier(Modifier::Colemak, !on),
        SideEffectView::Notification(if !on { "Colemak"@ } else { "Qwerty"@ }),
    ]);
    assert(es3.drop_last().drop_last() =~= Seq::<SideEffectView>::empty());
    assert(apply_effects(s1, es3.drop_last().drop_last()) == s1);
    assert(es3.drop_last().last() == SideEffectView::SetModifier(Modifier::Colemak, !on));
    assert(apply_effects(s1, es3.drop_last()) == s3);
    assert(e3.state == s3);
    assert(s3 =~= s);
    assert(remap_spec(s, KeyEvent::Up, K_C).1 =~= Seq::<SideEffectView>::empty());
    assert(e4.state == s);
}

/// The physical keys down after `events`.
pub open spec fn physically_down(events: Seq<(u32, KeyEvent)>) -> Set<u32>
    decreases events.len(),
{
    if events.len() == 0 {
        Set::empty()
    } else {
        let before = physically_down(events.drop_last());
        let (vk, ev) = events.last();
        if ev == KeyEvent::Up {
            before.remove(vk)
        } else {
            before.insert(vk)
        }
    }
}

/// No key is pressed again while it is down.
pub open spec fn well_paired(events: Seq<(u32, KeyEvent)>) -> bool {
    forall|i: int|
        0 <= i < events.len() && (#[trigger] events[i]).1 == KeyEvent::Down ==> !physically_down(
            events.take(i),
        ).contains(events[i].0)
}

/// The state, records and silenced keys after running `events` on an engine
/// that starts in state `s` with no key held.
pub open spec fn run(s: Set<Modifier>, events: Seq<(u32, KeyEvent)>) -> (
    Set<Modifier>,
    Seq<(u32, u32)>,
    Seq<u32>,
)
    decreases events.len(),
{
    if events.len() == 0 {
        (s, Seq::empty(), Seq::empty())
    } else {
        let e = run(s, events.drop_last());
        let (vk, ev) = events.last();
        let st = step(e.0, e.1, e.2, ev, vk);
        (st.state, st.held, st.silenced)
    }
}

/// Over a well-paired run, only keys that are physically down have records,
/// and no silenced key has one.
pub proof fn lemma_records_follow_physical_keys(s: Set<Modifier>, events: Seq<(u32, KeyEvent)>)
    requires
        well_paired(events),
    ensures
        held_consistent(run(s, events).0, run(s, events).1),
        silenced_unheld(run(s, events).1, run(s, events).2),
        forall|i: int|
            0 <= i < run(s, events).1.len() ==> physically_down(events).contains(
                (#[trigger] run(s, events).1[i]).0,
            ),
        physically_down(events).is_empty() ==> run(s, events).1.len() == 0,
    decreases events.len(),
{
    if events.len() > 0 {
        let p = events.drop_last();
        assert forall|i: int|
            0 <= i < p.len() && (#[trigger] p[i]).1 == KeyEvent::Down implies !physically_down(
            p.take(i),
        ).contains(p[i].0) by {
            assert(p.take(i) =~= events.take(i));
            assert(p[i] == events[i]);
        }
        lemma_records_follow_physical_keys(s, p);
        let e = run(s, p);
        let (s0, h0, m0) = (e.0, e.1, e.2);
        let (vk, ev) = events.last();
        let down0 = physically_down(p);
        let st = step(s0, h0, m0, ev, vk);
        if ev == KeyEvent::Down {
            assert(events.take(events.len() - 1) =~= p);
            assert(!down0.contains(vk));
            assert forall|j: int| 0 <= j < h0.len() implies (#[trigger] h0[j]).0 != vk by {
                assert(down0.contains(h0[j].0));
            }
        }
        lemma_no_stuck_keys(s0, h0, m0, ev, vk);
        lemma_step_consistent(s0, h0, m0, ev, vk);
        assert forall|i: int| 0 <= i < st.held.len() implies physically_down(events).contains(
            (#[trigger] st.held[i]).0,
        ) by {
            if h0.contains(st.held[i]) {
                let a = choose|a: int| 0 <= a < h0.len() && h0[a] == st.held[i];
                assert(down0.contains(h0[a].0));
            }
        }
        if physically_down(events).is_empty() && st.held.len() > 0 {
            assert(physically_down(events).contains(st.held[0].0));
        }
    }
}

/// Step `i` of a run of `events` from state `s`.
pub open spec fn step_at(s: Set<Modifier>, events: Seq<(u32, KeyEvent)>, i: int) -> StepView {
    let e = run(s, events.take(i));
    step(e.0, e.1, e.2, events[i].1, events[i].0)
}

/// The single output key that step `i` pressed: a forwarded press or repeat,
/// or a substitute's; none for a release or a swallowed repeat.
pub open spec fn pressed_at(s: Set<Modifier>, events: Seq<(u32, KeyEvent)>, i: int) -> Option<u32> {
    let e = run(s, events.take(i));
    let (vk, ev) = events[i];
    if ev == KeyEvent::Up || is_silenced(e.2, ev, vk) {
        None
    } else {
        pressed_key(e.0, ev, vk)
    }
}

/// Step `q` sends the release of output key `k` to the sink.
pub open spec fn released_at(s: Set<Modifier>, events: Seq<(u32, KeyEvent)>, q: int, k: u32) -> bool {
    sink_actions(step_at(s, events, q), events[q].1, events[q].0).contains(KeyAction::Up(k))
}

/// The run after `l + 1` events is step `l` applied to the run after `l`; the
/// records before step `l` are consistent, and hold nothing for a key that
/// step `l` presses.
proof fn lemma_run_prefix(s: Set<Modifier>, events: Seq<(u32, KeyEvent)>, l: int)
    requires
        well_paired(events),
        0 <= l < events.len(),
    ensures
        run(s, events.take(l + 1)) == (
            step_at(s, events, l).state,
            step_at(s, events, l).held,
            step_at(s, events, l).silenced,
        ),
        held_consistent(run(s, events.take(l)).0, run(s, events.take(l)).1),
        events[l].1 == KeyEvent::Down ==> forall|j: int|
            0 <= j < run(s, events.take(l)).1.len() ==> (#[trigger] run(s, events.take(l)).1[j]).0
                != events[l].0,
{
    let pre = events.take(l);
    assert(events.take(l + 1).drop_last() =~= pre);
    assert(events.take(l + 1).last() == events[l]);
    assert forall|i: int|
        0 <= i < pre.len() && (#[trigger] pre[i]).1 == KeyEvent::Down implies !physically_down(
        pre.take(i),
    ).contains(pre[i].0) by {
        assert(pre.take(i) =~= events.take(i));
        assert(pre[i] == events[i]);
    }
    lemma_records_follow_physical_keys(s, pre);
    if events[l].1 == KeyEvent::Down {
        let h = run(s, pre).1;
        assert forall|j: int| 0 <= j < h.len() implies (#[trigger] h[j]).0 != events[l].0 by {
            assert(physically_down(pre).contains(h[j].0));
        }
    }
}

/// Between step `i`, which pressed `k` for key `x`, and step `l` (no release
/// of `x` after `i` up to `l`), either `x` still records `k` or `k` has been
/// released.
proof fn lemma_press_outstanding(
    s: Set<Modifier>,
    events: Seq<(u32, KeyEvent)>,
    i: int,
    l: int,
    k: u32,
)
    requires
        well_paired(events),
        0 <= i <= l < events.len(),
        pressed_at(s, events, i) == Some(k),
        forall|q: int| i < q <= l ==> #[trigger] events[q] != (events[i].0, KeyEvent::Up),
    ensures
        run(s, events.take(l + 1)).1.contains((events[i].0, k)) || exists|q: int|
            i <= q <= l && #[trigger] released_at(s, events, q, k),
    decreases l - i,
{
    lemma_run_prefix(s, events, l);
    let e = run(s, events.take(l));
    let (vk, ev) = events[l];
    let st = step_at(s, events, l);
    lemma_no_stuck_keys(e.0, e.1, e.2, ev, vk);
    let sink = sink_actions(st, ev, vk);
    let mid: Seq<KeyAction> = if st.handled { seq![] } else { seq![physical_action(ev, vk)] };
    if l == i {
        if !st.held.contains((vk, k)) {
            assert(st.retracted.contains(KeyAction::Up(k)));
            let b = choose|b: int| 0 <= b < st.retracted.len() && st.retracted[b] == KeyAction::Up(k);
            assert(sink[st.emitted.len() + mid.len() + b] == KeyAction::Up(k));
            assert(released_at(s, events, l, k));
        }
    } else {
        lemma_press_outstanding(s, events, i, l - 1, k);
        assert(l - 1 + 1 == l);
        let x = events[i].0;
        if e.1.contains((x, k)) {
            let jj = choose|jj: int| 0 <= jj < e.1.len() && e.1[jj] == (x, k);
            if !st.held.contains(e.1[jj]) {
                assert(released_at(s, events, l, k));
            }
        }
    }
}

/// No stuck keys, over a whole run: in a well-paired run, when step `i`
/// presses output key `k` for physical key `x` and step `j` is the next
/// release of `x`, some step from `i` to `j` sends the release of `k`.
pub proof fn lemma_no_stuck_keys_over_run(
    s: Set<Modifier>,
    events: Seq<(u32, KeyEvent)>,
    i: int,
    j: int,
    k: u32,
)
    requires
        well_paired(events),
        0 <= i < j < events.len(),
        pressed_at(s, events, i) == Some(k),
        events[j] == (events[i].0, KeyEvent::Up),
        forall|q: int| i < q < j ==> #[trigger] events[q] != (events[i].0, KeyEvent::Up),
    ensures
        exists|q: int| i <= q <= j && #[trigger] released_at(s, events, q, k),
{
    lemma_press_outstanding(s, events, i, j - 1, k);
    assert(j - 1 + 1 == j);
    lemma_run_prefix(s, events, j);
    let e = run(s, events.take(j));
    let x = events[i].0;
    let st = step_at(s, events, j);
    lemma_no_stuck_keys(e.0, e.1, e.2, KeyEvent::Up, x);
    if e.1.contains((x, k)) {
        let jj = choose|jj: int| 0 <= jj < e.1.len() && e.1[jj] == (x, k);
        if st.held.contains(e.1[jj]) {
            let a = choose|a: int| 0 <= a < st.held.len() && st.held[a] == e.1[jj];
            assert(st.held[a].0 != x);
        }
        assert(released_at(s, events, j, k));
    }
}

} // verus!
