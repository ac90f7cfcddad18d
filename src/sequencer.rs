use vstd::prelude::*;

use vstd::string::StrSliceExecFns;

use crate::text::{lower_of, lowercase, split_on_plus, split_plus};

verus! {

/// Pause between modifier keys and the other keys of a chord, in milliseconds.
pub const MODIFIER_SETTLE_MS: u64 = 30;

/// Pause after a timed press when the action names none, in milliseconds.
pub const DEFAULT_WAIT_MS: u64 = 100;

/// A keystroke to synthesize. Times are in milliseconds.
#[derive(Debug)]
pub struct ActionSequencerAction {
    pub keys: String,
    /// Hold time; without it the keys are only pressed.
    pub press_time: Option<u64>,
    pub wait_time: Option<u64>,
    /// `Some(true)` only releases the keys.
    pub release: Option<bool>,
}

impl ActionSequencerAction {
    pub fn duplicate(&self) -> (r: Self)
        ensures
            r == *self,
    {
        ActionSequencerAction {
            keys: self.keys.clone(),
            press_time: self.press_time,
            wait_time: self.wait_time,
            release: self.release,
        }
    }
}

/// A key of the host keyboard.
#[derive(PartialEq, Eq, Structural, Clone, Copy, Debug)]
pub enum Key {
    Control,
    Alt,
    Meta,
    Shift,
    Backspace,
    Delete,
    DownArrow,
    UpArrow,
    LeftArrow,
    RightArrow,
    Return,
    Space,
    Tab,
    Escape,
    CapsLock,
    F1,
    F2,
    F3,
    F4,
    F5,
    F6,
    F7,
    F8,
    F9,
    F10,
    F11,
    F12,
    PageUp,
    PageDown,
    Home,
    End,
    Insert,
    Unicode(char),
}

/// One operation of the keystroke sink.
#[derive(PartialEq, Eq, Structural, Clone, Copy, Debug)]
pub enum KeyStep {
    Press(Key),
    Release(Key),
    Sleep(u64),
}

/// The modifier a lowercase token names.
pub open spec fn modifier_of(t: Seq<char>) -> Option<Key> {
    if t == "ctrl"@ || t == "control"@ {
        Some(Key::Control)
    } else if t == "alt"@ {
        Some(Key::Alt)
    } else if t == "meta"@ || t == "cmd"@ || t == "command"@ {
        Some(Key::Meta)
    } else {
        None
    }
}

/// The named key a lowercase token stands for.
pub open spec fn named_key_of(t: Seq<char>) -> Option<Key> {
    if t == "shift"@ {
        Some(Key::Shift)
    } else if t == "backspace"@ {
        Some(Key::Backspace)
    } else if t == "delete"@ {
        Some(Key::Delete)
    } else if t == "arrowdown"@ || t == "down"@ {
        Some(Key::DownArrow)
    } else if t == "arrowup"@ || t == "up"@ {
        Some(Key::UpArrow)
    } else if t == "arrowleft"@ || t == "left"@ {
        Some(Key::LeftArrow)
    } else if t == "arrowright"@ || t == "right"@ {
        Some(Key::RightArrow)
    } else if t == "return"@ || t == "enter"@ {
        Some(Key::Return)
    } else if t == "space"@ || t == "spacebar"@ {
        Some(Key::Space)
    } else if t == "tab"@ {
        Some(Key::Tab)
    } else if t == "escape"@ || t == "esc"@ {
        Some(Key::Escape)
    } else if t == "capslock"@ {
        Some(Key::CapsLock)
    } else if t == "f1"@ {
        Some(Key::F1)
    } else if t == "f2"@ {
        Some(Key::F2)
    } else if t == "f3"@ {
        Some(Key::F3)
    } else if t == "f4"@ {
        Some(Key::F4)
    } else if t == "f5"@ {
        Some(Key::F5)
    } else if t == "f6"@ {
        Some(Key::F6)
    } else if t == "f7"@ {
        Some(Key::F7)
    } else if t == "f8"@ {
        Some(Key::F8)
    } else if t == "f9"@ {
        Some(Key::F9)
    } else if t == "f10"@ {
        Some(Key::F10)
    } else if t == "f11"@ {
        Some(Key::F11)
    } else if t == "f12"@ {
        Some(Key::F12)
    } else if t == "pageup"@ {
        Some(Key::PageUp)
    } else if t == "pagedown"@ {
        Some(Key::PageDown)
    } else if t == "home"@ {
        Some(Key::Home)
    } else if t == "end"@ {
        Some(Key::End)
    } else if t == "insert"@ {
        Some(Key::Insert)
    } else {
        None
    }
}

/// The non-modifier key a lowercase token stands for: a named key, or the
/// character of a one-character token.
pub open spec fn action_key_of(t: Seq<char>) -> Option<Key> {
    match named_key_of(t) {
        Some(k) => Some(k),
        None => if t.len() == 1 {
            Some(Key::Unicode(t[0]))
        } else {
            None
        },
    }
}

/// Modifiers named by the tokens, in order.
pub open spec fn modifiers_in(ts: Seq<Seq<char>>) -> Seq<Key>
    decreases ts.len(),
{
    if ts.len() == 0 {
        seq![]
    } else {
        match modifier_of(lower_of(ts.last())) {
            Some(k) => modifiers_in(ts.drop_last()).push(k),
            None => modifiers_in(ts.drop_last()),
        }
    }
}

/// Non-modifier keys named by the tokens, in order.
pub open spec fn action_keys_in(ts: Seq<Seq<char>>) -> Seq<Key>
    decreases ts.len(),
{
    if ts.len() == 0 {
        seq![]
    } else {
        match action_key_of(lower_of(ts.last())) {
            Some(k) => action_keys_in(ts.drop_last()).push(k),
            None => action_keys_in(ts.drop_last()),
        }
    }
}

/// The modifier that a lowercase token names.
pub fn token_modifier(t: &String) -> (r: Option<Key>)
    ensures
        r == modifier_of(t@),
{
    if *t == String::from_str("ctrl") || *t == String::from_str("control") {
        Some(Key::Control)
    } else if *t == String::from_str("alt") {
        Some(Key::Alt)
    } else if *t == String::from_str("meta") || *t == String::from_str("cmd") || *t == String::from_str(
        "command",
    ) {
        Some(Key::Meta)
    } else {
        None
    }
}

fn is(t: &String, name: &str) -> (r: bool)
    ensures
        r == (t@ == name@),
{
    *t == String::from_str(name)
}

fn token_named_key(t: &String) -> (r: Option<Key>)
    ensures
        r == named_key_of(t@),
{
    if is(t, "shift") {
        Some(Key::Shift)
    } else if is(t, "backspace") {
        Some(Key::Backspace)
    } else if is(t, "delete") {
        Some(Key::Delete)
    } else if is(t, "arrowdown") || is(t, "down") {
        Some(Key::DownArrow)
    } else if is(t, "arrowup") || is(t, "up") {
        Some(Key::UpArrow)
    } else if is(t, "arrowleft") || is(t, "left") {
        Some(Key::LeftArrow)
    } else if is(t, "arrowright") || is(t, "right") {
        Some(Key::RightArrow)
    } else if is(t, "return") || is(t, "enter") {
        Some(Key::Return)
    } else if is(t, "space") || is(t, "spacebar") {
        Some(Key::Space)
    } else if is(t, "tab") {
        Some(Key::Tab)
    } else if is(t, "escape") || is(t, "esc") {
        Some(Key::Escape)
    } else if is(t, "capslock") {
        Some(Key::CapsLock)
    } else if is(t, "f1") {
        Some(Key::F1)
    } else if is(t, "f2") {
        Some(Key::F2)
    } else if is(t, "f3") {
        Some(Key::F3)
    } else if is(t, "f4") {
        Some(Key::F4)
    } else if is(t, "f5") {
        Some(Key::F5)
    } else if is(t, "f6") {
        Some(Key::F6)
    } else if is(t, "f7") {
        Some(Key::F7)
    } else if is(t, "f8") {
        Some(Key::F8)
    } else if is(t, "f9") {
        Some(Key::F9)
    } else if is(t, "f10") {
        Some(Key::F10)
    } else if is(t, "f11") {
        Some(Key::F11)
    } else if is(t, "f12") {
        Some(Key::F12)
    } else if is(t, "pageup") {
        Some(Key::PageUp)
    } else if is(t, "pagedown") {
        Some(Key::PageDown)
    } else if is(t, "home") {
        Some(Key::Home)
    } else if is(t, "end") {
        Some(Key::End)
    } else if is(t, "insert") {
        Some(Key::Insert)
    } else {
        None
    }
}

/// The non-modifier key that a lowercase token names.
pub fn token_action_key(t: &String) -> (r: Option<Key>)
    ensures
        r == action_key_of(t@),
{
    match token_named_key(t) {
        Some(k) => Some(k),
        None => {
            let s = t.as_str();
            if s.unicode_len() == 1 {
                Some(Key::Unicode(s.get_char(0)))
            } else {
                None
            }
        },
    }
}

/// Steps that press the modifiers, settle, then press the other keys.
pub open spec fn press_steps(m: Seq<Key>, a: Seq<Key>) -> Seq<KeyStep> {
    m.map_values(|k: Key| KeyStep::Press(k)) + (if m.len() > 0 {
        seq![KeyStep::Sleep(MODIFIER_SETTLE_MS)]
    } else {
        seq![]
    }) + a.map_values(|k: Key| KeyStep::Press(k))
}

/// Steps that release the other keys, settle, then release the modifiers.
pub open spec fn release_steps(m: Seq<Key>, a: Seq<Key>) -> Seq<KeyStep> {
    a.map_values(|k: Key| KeyStep::Release(k)) + (if m.len() > 0 {
        seq![KeyStep::Sleep(MODIFIER_SETTLE_MS)]
    } else {
        seq![]
    }) + m.map_values(|k: Key| KeyStep::Release(k))
}

/// The steps that carry out an action whose chord has modifiers `m` and
/// other keys `a`.
pub open spec fn dispatch_steps(action: ActionSequencerAction, m: Seq<Key>, a: Seq<Key>) -> Seq<KeyStep> {
    if action.release == Some(true) {
        release_steps(m, a)
    } else {
        match action.press_time {
            Some(p) => press_steps(m, a) + seq![KeyStep::Sleep(p)] + release_steps(m, a) + seq![
                KeyStep::Sleep(
                    match action.wait_time {
                        Some(w) => w,
                        None => DEFAULT_WAIT_MS,
                    },
                ),
            ],
            None => press_steps(m, a),
        }
    }
}

fn push_all(out: &mut Vec<KeyStep>, keys: &Vec<Key>, press: bool)
    ensures
        final(out)@ == old(out)@ + keys@.map_values(
            |k: Key|
                if press {
                    KeyStep::Press(k)
                } else {
                    KeyStep::Release(k)
                },
        ),
{
    let ghost start = out@;
    let mut i: usize = 0;
    while i < keys.len()
        invariant
            i <= keys.len(),
            out@ == start + keys@.subrange(0, i as int).map_values(
                |k: Key|
                    if press {
                        KeyStep::Press(k)
                    } else {
                        KeyStep::Release(k)
                    },
            ),
        decreases keys.len() - i,
    {
        if press {
            out.push(KeyStep::Press(keys[i]));
        } else {
            out.push(KeyStep::Release(keys[i]));
        }
        i = i + 1;
        proof {
            let f = |k: Key|
                if press {
                    KeyStep::Press(k)
                } else {
                    KeyStep::Release(k)
                };
            assert(keys@.subrange(0, i as int).map_values(f) =~= keys@.subrange(0, i - 1).map_values(f).push(
                f(keys@[i - 1]),
            ));
        }
    }
    assert(keys@.subrange(0, keys.len() as int) == keys@);
}

/// FIFO queue of keystroke actions; a single worker drains it.
pub struct ActionSequencer {
    pub actions: std::collections::VecDeque<ActionSequencerAction>,
}

/// The steps that carry out one action.
pub open spec fn steps_of(a: ActionSequencerAction) -> Seq<KeyStep> {
    dispatch_steps(a, modifiers_in(split_plus(a.keys@)), action_keys_in(split_plus(a.keys@)))
}

/// The steps that carry out a queue of actions, one whole action after the
/// other, in queue order.
pub open spec fn queue_steps(q: Seq<ActionSequencerAction>) -> Seq<KeyStep>
    decreases q.len(),
{
    if q.len() == 0 {
        seq![]
    } else {
        queue_steps(q.drop_last()) + steps_of(q.last())
    }
}

/// Taking the front action off a queue and carrying out its steps leaves
/// exactly the steps of the rest of the queue.
pub proof fn lemma_queue_steps_front(q: Seq<ActionSequencerAction>)
    requires
        q.len() > 0,
    ensures
        queue_steps(q) == steps_of(q[0]) + queue_steps(q.drop_first()),
    decreases q.len(),
{
    if q.len() == 1 {
        assert(q.drop_last() =~= Seq::<ActionSequencerAction>::empty());
        assert(q.drop_first() =~= Seq::<ActionSequencerAction>::empty());
        assert(queue_steps(q) =~= steps_of(q[0]) + queue_steps(q.drop_first()));
    } else {
        lemma_queue_steps_front(q.drop_last());
        assert(q.drop_last()[0] == q[0]);
        assert(q.drop_last().drop_first() == q.drop_first().drop_last());
        assert(q.drop_first().last() == q.last());
        assert(queue_steps(q) =~= steps_of(q[0]) + queue_steps(q.drop_first()));
    }
}

/// The queue after `a` is enqueued.
pub open spec fn enqueued(q: Seq<ActionSequencerAction>, a: ActionSequencerAction) -> Seq<ActionSequencerAction> {
    q.push(a)
}

impl ActionSequencer {
    pub fn new() -> (r: ActionSequencer)
        ensures
            r.actions@ == Seq::<ActionSequencerAction>::empty(),
    {
        ActionSequencer { actions: std::collections::VecDeque::new() }
    }

    /// Appends an action to the queue.
    pub fn add_action(&mut self, action: ActionSequencerAction)
        ensures
            final(self).actions@ == enqueued(old(self).actions@, action),
    {
        self.actions.push_back(action);
    }

    /// Takes the oldest action off the queue.
    pub fn next_action(&mut self) -> (r: Option<ActionSequencerAction>)
        ensures
            old(self).actions@.len() == 0 ==> r is None && final(self).actions@ == old(self).actions@,
            old(self).actions@.len() > 0 ==> r == Some(old(self).actions@[0]) && final(self).actions@
                == old(self).actions@.drop_first(),
    {
        let a = self.actions.pop_front();
        proof {
            if a is Some {
                assert(self.actions@ =~= old(self).actions@.drop_first());
            }
        }
        a
    }

    /// Takes the oldest action off the queue and returns all of its steps;
    /// a single worker carrying them out before asking again performs the
    /// queued actions one whole action at a time, in order.
    pub fn next_steps(&mut self) -> (r: Option<Vec<KeyStep>>)
        ensures
            old(self).actions@.len() == 0 ==> r is None && final(self).actions@ == old(self).actions@,
            old(self).actions@.len() > 0 ==> (r matches Some(st) && st@ == steps_of(old(self).actions@[0])
                && final(self).actions@ == old(self).actions@.drop_first() && queue_steps(old(self).actions@) == st@
                + queue_steps(final(self).actions@)),
    {
        match self.next_action() {
            Some(a) => {
                proof {
                    lemma_queue_steps_front(old(self).actions@);
                }
                Some(ActionSequencer::action_steps(&a))
            },
            None => None,
        }
    }

    /// The modifier keys and the other keys that a `+`-separated chord
    /// names, each in order; tokens are case-insensitive, unknown ones are
    /// skipped.
    pub fn parse_keys(input: &str) -> (r: (Vec<Key>, Vec<Key>))
        ensures
            r.0@ == modifiers_in(split_plus(input@)),
            r.1@ == action_keys_in(split_plus(input@)),
    {
        let tokens = split_on_plus(input);
        let ghost ts = split_plus(input@);
        let mut modifier_keys: Vec<Key> = Vec::new();
        let mut action_keys: Vec<Key> = Vec::new();
        let mut i: usize = 0;
        while i < tokens.len()
            invariant
                i <= tokens.len(),
                tokens@.len() == ts.len(),
                forall|k: int| 0 <= k < tokens@.len() ==> (#[trigger] tokens@[k])@ == ts[k],
                modifier_keys@ == modifiers_in(ts.subrange(0, i as int)),
                action_keys@ == action_keys_in(ts.subrange(0, i as int)),
            decreases tokens.len() - i,
        {
            proof {
                assert(ts.subrange(0, i + 1).drop_last() == ts.subrange(0, i as int));
                assert(ts.subrange(0, i + 1).last() == ts[i as int]);
            }
            let lower = lowercase(tokens[i].as_str());
            if let Some(k) = token_modifier(&lower) {
                modifier_keys.push(k);
            }
            if let Some(k) = token_action_key(&lower) {
                action_keys.push(k);
            }
            i = i + 1;
        }
        assert(ts.subrange(0, tokens.len() as int) == ts);
        (modifier_keys, action_keys)
    }

    /// The steps that press (`press == true`) or release the keys of a chord.
    pub fn press_or_release_keys(keys: &str, press: bool) -> (r: Vec<KeyStep>)
        ensures
            press ==> r@ == press_steps(modifiers_in(split_plus(keys@)), action_keys_in(split_plus(keys@))),
            !press ==> r@ == release_steps(modifiers_in(split_plus(keys@)), action_keys_in(split_plus(keys@))),
    {
        let (modifier_keys, action_keys) = ActionSequencer::parse_keys(keys);
        let mut out: Vec<KeyStep> = Vec::new();
        if press {
            push_all(&mut out, &modifier_keys, true);
            if modifier_keys.len() > 0 {
                out.push(KeyStep::Sleep(MODIFIER_SETTLE_MS));
            }
            push_all(&mut out, &action_keys, true);
        } else {
            push_all(&mut out, &action_keys, false);
            if modifier_keys.len() > 0 {
                out.push(KeyStep::Sleep(MODIFIER_SETTLE_MS));
            }
            push_all(&mut out, &modifier_keys, false);
        }
        proof {
            let m = modifier_keys@;
            let a = action_keys@;
            if press {
                assert(out@ =~= press_steps(m, a));
            } else {
                assert(out@ =~= release_steps(m, a));
            }
        }
        out
    }

    /// The steps that carry out one action: release only; press, hold,
    /// release and wait; or press only.
    pub fn action_steps(action: &ActionSequencerAction) -> (r: Vec<KeyStep>)
        ensures
            r@ == dispatch_steps(
                *action,
                modifiers_in(split_plus(action.keys@)),
                action_keys_in(split_plus(action.keys@)),
            ),
    {
        let keys = action.keys.as_str();
        if action.release == Some(true) {
            ActionSequencer::press_or_release_keys(keys, false)
        } else {
            match action.press_time {
                Some(p) => {
                    let mut out = ActionSequencer::press_or_release_keys(keys, true);
                    out.push(KeyStep::Sleep(p));
                    let mut rel = ActionSequencer::press_or_release_keys(keys, false);
                    out.append(&mut rel);
                    let w = match action.wait_time {
                        Some(w) => w,
                        None => DEFAULT_WAIT_MS,
                    };
                    out.push(KeyStep::Sleep(w));
                    out
                },
                None => ActionSequencer::press_or_release_keys(keys, true),
            }
        }
    }
}

/// Whole actions run one after the other: carrying out a queue in which
/// `a` was enqueued before `b` performs every step of `a` before the first
/// step of `b`.
pub proof fn lemma_actions_do_not_interleave(q: Seq<ActionSequencerAction>, a: ActionSequencerAction, b: ActionSequencerAction)
    ensures
        queue_steps(enqueued(enqueued(q, a), b)) == queue_steps(q) + steps_of(a) + steps_of(b),
{
    assert(enqueued(enqueued(q, a), b).drop_last() == enqueued(q, a));
    assert(enqueued(q, a).drop_last() == q);
    assert(queue_steps(enqueued(q, a)) == queue_steps(q) + steps_of(a));
    assert(queue_steps(enqueued(enqueued(q, a), b)) == queue_steps(enqueued(q, a)) + steps_of(b));
    assert(queue_steps(enqueued(enqueued(q, a), b)) =~= queue_steps(q) + steps_of(a) + steps_of(b));
}

/// Actions leave the queue in the order they were enqueued: after `a` and
/// then `b` are enqueued behind `q`, draining `q` leaves `a` at the front,
/// and taking `a` leaves `b` at the front.
pub proof fn lemma_queue_order(q: Seq<ActionSequencerAction>, a: ActionSequencerAction, b: ActionSequencerAction)
    ensures
        enqueued(enqueued(q, a), b).subrange(q.len() as int, q.len() as int + 2) == seq![a, b],
        enqueued(enqueued(q, a), b).skip(q.len() as int)[0] == a,
        enqueued(enqueued(q, a), b).skip(q.len() as int).drop_first()[0] == b,
{
    assert(enqueued(enqueued(q, a), b).subrange(q.len() as int, q.len() as int + 2) =~= seq![a, b]);
}

} // verus!
