use vstd::prelude::*;

verus! {

/// The state of the keypad: which of the sixteen keys are down, whether a wait
/// for a key is under way, and the key released since it began.
pub struct KeypadState {
    pub pressed: Seq<bool>,
    pub waiting: bool,
    pub last_key: Option<u8>,
}

/// The keypad after key `key` goes down (`is_pressed`) or up. A key going up
/// flips its state, and becomes the awaited key when a wait is under way and no
/// key went up since it began.
pub open spec fn after_key_event(s: KeypadState, key: u8, is_pressed: bool) -> KeypadState {
    if is_pressed {
        KeypadState { pressed: s.pressed.update(key as int, true), ..s }
    } else {
        KeypadState {
            pressed: s.pressed.update(key as int, !s.pressed[key as int]),
            last_key: if s.waiting && s.last_key is None { Some(key) } else { s.last_key },
            ..s
        }
    }
}

/// The keypad after a wait for a key, and what the wait gives back: a wait
/// begins when none is under way; once a key went up, it ends with that key.
pub open spec fn after_wait(s: KeypadState) -> (KeypadState, Option<u8>) {
    if !s.waiting {
        (KeypadState { waiting: true, last_key: None, ..s }, None)
    } else {
        match s.last_key {
            Some(k) => (KeypadState { waiting: false, ..s }, Some(k)),
            None => (s, None),
        }
    }
}

/// A sixteen-key keypad that can wait for a key to be released.
pub struct Cd4515 {
    keys: u16,
    is_waiting: bool,
    last_key: Option<u8>,
}

impl Cd4515 {
    pub closed spec fn view(&self) -> KeypadState {
        KeypadState {
            pressed: Seq::new(16, |k: int| (self.keys >> (k as u16)) & 1 == 1),
            waiting: self.is_waiting,
            last_key: self.last_key,
        }
    }

    /// No key down, no wait under way.
    pub fn new() -> (r: Self)
        ensures
            r@ == (KeypadState { pressed: Seq::new(16, |k: int| false), waiting: false, last_key: None }),
    {
        let r = Cd4515 { keys: 0, is_waiting: false, last_key: None };
        assert forall|k: u16| k < 16 implies (0u16 >> k) & 1 != 1 by {
            assert((0u16 >> k) & 1 == 0) by (bit_vector);
        }
        assert(r@.pressed =~= Seq::new(16, |k: int| false));
        r
    }

    /// A keypad has sixteen keys.
    pub proof fn lemma_sixteen_keys(&self)
        ensures
            self@.pressed.len() == 16,
    {
    }

    /// Whether key `key` is down.
    pub fn key_pressed(&self, key: u8) -> (r: bool)
        requires
            key < 16,
        ensures
            self@.pressed.len() == 16,
            r == self@.pressed[key as int],
    {
        let k = key as u16;
        let keys = self.keys;
        proof {
            assert(keys & (1u16 << k) != 0 <==> (keys >> k) & 1 == 1) by (bit_vector)
                requires k < 16;
        }
        keys & (1 << k) != 0x0
    }

    /// Waits for a key: the first call begins the wait and gives `None`; later
    /// calls give `None` until a key goes up, then that key, which ends the wait.
    pub fn wait_key(&mut self) -> (r: Option<u8>)
        ensures
            old(self)@.pressed.len() == 16,
            (final(self)@, r) == after_wait(old(self)@),
    {
        if !self.is_waiting {
            self.is_waiting = true;
            self.last_key = None;
            None
        } else if let Some(key) = self.last_key {
            self.is_waiting = false;
            Some(key)
        } else {
            None
        }
    }

    /// Key `key` goes down (`is_pressed`) or up.
    pub fn key_event(&mut self, key: u8, is_pressed: bool)
        requires
            key < 16,
        ensures
            old(self)@.pressed.len() == 16,
            final(self)@.pressed.len() == 16,
            final(self)@ == after_key_event(old(self)@, key, is_pressed),
    {
        let ghost old_keys = self.keys;
        let k = key as u16;
        if is_pressed {
            self.keys = self.keys | (1 << k);
            proof {
                assert forall|j: u16| j < 16 implies ((old_keys | (1u16 << k)) >> j) & 1 == 1 <==> (j == k || (old_keys >> j) & 1 == 1) by {
                    assert(((old_keys | (1u16 << k)) >> j) & 1 == 1 <==> (j == k || (old_keys >> j) & 1 == 1)) by (bit_vector)
                        requires j < 16, k < 16;
                }
            }
        } else {
            self.keys = self.keys ^ (1 << k);
            proof {
                assert forall|j: u16| j < 16 implies ((old_keys ^ (1u16 << k)) >> j) & 1 == 1 <==> (if j == k { (old_keys >> j) & 1 != 1 } else { (old_keys >> j) & 1 == 1 }) by {
                    assert(((old_keys ^ (1u16 << k)) >> j) & 1 == 1 <==> (if j == k { (old_keys >> j) & 1 != 1 } else { (old_keys >> j) & 1 == 1 })) by (bit_vector)
                        requires j < 16, k < 16;
                }
            }

            if self.is_waiting && self.last_key.is_none() {
                self.last_key = Some(key);
            }
        }
        assert(self@.pressed =~= after_key_event(old(self)@, key, is_pressed).pressed);
    }
}

impl Default for Cd4515 {
    fn default() -> (r: Self)
        ensures
            r@ == (KeypadState { pressed: Seq::new(16, |k: int| false), waiting: false, last_key: None }),
    {
        Self::new()
    }
}

/// The keypad after the key events `events`, in order; each event is a key and
/// whether it went down.
pub open spec fn after_key_events(s: KeypadState, events: Seq<(u8, bool)>) -> KeypadState
    decreases events.len(),
{
    if events.len() == 0 {
        s
    } else {
        let (key, is_pressed) = events.last();
        after_key_event(after_key_events(s, events.drop_last()), key, is_pressed)
    }
}

/// A key reads as down after it goes down, and as up after it then goes up;
/// a key going up flips its state, so one that was not down reads as down; the
/// other keys keep their state.
pub proof fn law_press_then_release(s: KeypadState, key: u8)
    requires
        key < 16,
        s.pressed.len() == 16,
    ensures
        after_key_event(s, key, true).pressed == s.pressed.update(key as int, true),
        after_key_event(after_key_event(s, key, true), key, false).pressed == s.pressed.update(key as int, false),
        after_key_event(s, key, false).pressed[key as int] == !s.pressed[key as int],
        forall|k: int| 0 <= k < 16 && k != key ==> after_key_event(s, key, false).pressed[k] == s.pressed[k]
            && after_key_event(s, key, true).pressed[k] == s.pressed[k],
{
    assert(after_key_event(after_key_event(s, key, true), key, false).pressed =~= s.pressed.update(key as int, false));
}

/// Key presses leave a wait under way with no key yet.
proof fn lemma_presses_keep_waiting(s: KeypadState, events: Seq<(u8, bool)>)
    requires
        s.waiting,
        s.last_key is None,
        forall|i: int| 0 <= i < events.len() ==> (#[trigger] events[i]).1,
    ensures
        after_key_events(s, events).waiting,
        after_key_events(s, events).last_key is None,
    decreases events.len(),
{
    if events.len() > 0 {
        lemma_presses_keep_waiting(s, events.drop_last());
    }
}

/// Once a wait under way has its key, later key events keep it.
proof fn lemma_awaited_key_stays(s: KeypadState, events: Seq<(u8, bool)>)
    requires
        s.waiting,
        s.last_key is Some,
    ensures
        after_key_events(s, events).waiting,
        after_key_events(s, events).last_key == s.last_key,
    decreases events.len(),
{
    if events.len() > 0 {
        lemma_awaited_key_stays(s, events.drop_last());
    }
}

/// Key events in two parts act as the first part, then the second.
proof fn lemma_after_key_events_append(s: KeypadState, a: Seq<(u8, bool)>, b: Seq<(u8, bool)>)
    ensures
        after_key_events(s, a + b) == after_key_events(after_key_events(s, a), b),
    decreases b.len(),
{
    if b.len() == 0 {
        assert(a + b =~= a);
    } else {
        assert((a + b).drop_last() =~= a + b.drop_last());
        lemma_after_key_events_append(s, a, b.drop_last());
    }
}

/// A wait ends with the first key released after it began, whatever keys were
/// down before and whatever happens after that release; the wait after it
/// begins anew. A wait begins on a call when none is under way, or carries on
/// when one is under way that has seen no release yet.
pub proof fn law_wait_gives_first_release(
    s: KeypadState,
    presses: Seq<(u8, bool)>,
    key: u8,
    later: Seq<(u8, bool)>,
)
    requires
        !s.waiting || s.last_key is None,
        forall|i: int| 0 <= i < presses.len() ==> (#[trigger] presses[i]).1,
    ensures
        ({
            let (waiting, first) = after_wait(s);
            let events = presses + seq![(key, false)] + later;
            let (done, r) = after_wait(after_key_events(waiting, events));
            &&& first is None
            &&& r == Some(key)
            &&& !done.waiting
            &&& after_wait(done).1 is None
        }),
{
    let waiting = after_wait(s).0;
    lemma_presses_keep_waiting(waiting, presses);
    let pressed = after_key_events(waiting, presses);
    let released = after_key_events(waiting, presses + seq![(key, false)]);
    lemma_after_key_events_append(waiting, presses, seq![(key, false)]);
    assert(seq![(key, false)].drop_last() =~= Seq::<(u8, bool)>::empty());
    assert(after_key_events(pressed, Seq::<(u8, bool)>::empty()) == pressed);
    assert(after_key_events(pressed, seq![(key, false)]) == after_key_event(pressed, key, false));
    assert(released.waiting && released.last_key == Some(key));
    lemma_awaited_key_stays(released, later);
    lemma_after_key_events_append(waiting, presses + seq![(key, false)], later);
}

} // verus!
