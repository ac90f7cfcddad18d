use vstd::prelude::*;

use vstd::string::StringExecFns;

use crate::text::{append_decimal, decimal};
use crate::value::in_limit;

verus! {

/// A value for a remote control component, fanned out to every client.
#[derive(Debug)]
pub struct DirectControlCommand {
    pub controls: String,
    pub input_value: i64,
    /// Adjust relative to the current value instead of setting it.
    pub relative: Option<bool>,
    /// Hold the value instead of sending it once.
    pub hold: Option<bool>,
}

/// The flag segment: `hold` and `relative` when set, joined by `|`.
pub open spec fn flags_text(hold: Option<bool>, relative: Option<bool>) -> Seq<char> {
    if hold == Some(true) && relative == Some(true) {
        "hold|relative"@
    } else if hold == Some(true) {
        "hold"@
    } else if relative == Some(true) {
        "relative"@
    } else {
        seq![]
    }
}

/// `<controls>,<value>,<flags>`.
pub open spec fn command_text(controls: Seq<char>, value: int, hold: Option<bool>, relative: Option<bool>) -> Seq<char> {
    controls + ","@ + decimal(value) + ","@ + flags_text(hold, relative)
}

/// Builds `<controls>,<value>,<flags>`.
pub fn format_command(controls: &String, value: i64, hold: Option<bool>, relative: Option<bool>) -> (r: String)
    requires
        in_limit(value as int),
    ensures
        r@ == command_text(controls@, value as int, hold, relative),
{
    let mut s = controls.clone();
    s.append(",");
    append_decimal(&mut s, value);
    s.append(",");
    let h = match hold {
        Some(true) => true,
        _ => false,
    };
    let rel = match relative {
        Some(true) => true,
        _ => false,
    };
    if h && rel {
        s.append("hold|relative");
    } else if h {
        s.append("hold");
    } else if rel {
        s.append("relative");
    }
    proof {
        if !h && !rel {
            assert(s@ =~= command_text(controls@, value as int, hold, relative));
        }
    }
    s
}

/// The prefix of every frame sent to direct-control clients.
pub open spec fn frame_prefix() -> Seq<char> {
    "direct_control,"@
}

impl DirectControlCommand {
    pub open spec fn wf(&self) -> bool {
        in_limit(self.input_value as int)
    }

    pub open spec fn spec_text(&self) -> Seq<char> {
        command_text(self.controls@, self.input_value as int, self.hold, self.relative)
    }

    pub fn duplicate(&self) -> (r: Self)
        ensures
            r == *self,
    {
        DirectControlCommand {
            controls: self.controls.clone(),
            input_value: self.input_value,
            relative: self.relative,
            hold: self.hold,
        }
    }

    /// `<controls>,<input_value>,<flags>`.
    pub fn to_text(&self) -> (r: String)
        requires
            self.wf(),
        ensures
            r@ == self.spec_text(),
    {
        format_command(&self.controls, self.input_value, self.hold, self.relative)
    }

    /// The text frame sent to clients: `direct_control,<controls>,<input_value>,<flags>`.
    pub fn frame(&self) -> (r: String)
        requires
            self.wf(),
        ensures
            r@ == frame_prefix() + self.spec_text(),
    {
        let t = self.to_text();
        let s = String::from_str("direct_control,");
        s.concat(t.as_str())
    }
}

/// Frames waiting for one connected client.
pub struct ClientQueue {
    pub id: u64,
    pub pending: Vec<String>,
}

/// Fan-out of frames to the connected clients. A client sees the frames
/// broadcast while it is connected, in broadcast order.
pub struct DirectControlBroadcaster {
    pub clients: Vec<ClientQueue>,
    pub next_id: u64,
}

/// What a client holds after the frames `msgs` are broadcast, one by one,
/// onto its queue `p`.
pub open spec fn delivered(p: Seq<String>, msgs: Seq<String>) -> Seq<String>
    decreases msgs.len(),
{
    if msgs.len() == 0 {
        p
    } else {
        delivered(p, msgs.drop_last()).push(msgs.last())
    }
}

/// A client sees the frames in the order they were broadcast, and none from
/// before it connected.
pub proof fn lemma_delivery_order(msgs: Seq<String>)
    ensures
        delivered(seq![], msgs) == msgs,
    decreases msgs.len(),
{
    if msgs.len() > 0 {
        lemma_delivery_order(msgs.drop_last());
        assert(msgs.drop_last().push(msgs.last()) =~= msgs);
    }
}

/// The clients other than `id`, in order.
pub open spec fn without_client(cs: Seq<ClientQueue>, id: u64) -> Seq<ClientQueue>
    decreases cs.len(),
{
    if cs.len() == 0 {
        seq![]
    } else if cs[0].id == id {
        without_client(cs.drop_first(), id)
    } else {
        seq![cs[0]] + without_client(cs.drop_first(), id)
    }
}

/// The ids ascend strictly and lie below `hi`.
pub open spec fn ids_ascending_below(cs: Seq<ClientQueue>, hi: int) -> bool {
    &&& forall|i: int| 0 <= i < cs.len() ==> (#[trigger] cs[i]).id < hi
    &&& forall|i: int, j: int| 0 <= i < j < cs.len() ==> (#[trigger] cs[i]).id < (#[trigger] cs[j]).id
}

proof fn lemma_without_ascending(cs: Seq<ClientQueue>, id: u64, lo: int, hi: int)
    requires
        ids_ascending_below(cs, hi),
        forall|i: int| 0 <= i < cs.len() ==> lo < (#[trigger] cs[i]).id,
    ensures
        ids_ascending_below(without_client(cs, id), hi),
        forall|i: int| 0 <= i < without_client(cs, id).len() ==> lo < (#[trigger] without_client(cs, id)[i]).id,
    decreases cs.len(),
{
    if cs.len() > 0 {
        let rest = cs.drop_first();
        assert forall|i: int| 0 <= i < rest.len() implies cs[0].id < (#[trigger] rest[i]).id by {
            assert(rest[i] == cs[i + 1]);
        }
        assert(ids_ascending_below(rest, hi)) by {
            assert forall|i: int, j: int| 0 <= i < j < rest.len() implies (#[trigger] rest[i]).id < (#[trigger] rest[j]).id by {
                assert(rest[i] == cs[i + 1] && rest[j] == cs[j + 1]);
            }
        }
        lemma_without_ascending(rest, id, cs[0].id as int, hi);
        let w = without_client(rest, id);
        if cs[0].id != id {
            let r = seq![cs[0]] + w;
            assert forall|i: int| 0 <= i < r.len() implies lo < (#[trigger] r[i]).id && r[i].id < hi by {
                if i > 0 {
                    assert(r[i] == w[i - 1]);
                }
            }
            assert forall|i: int, j: int| 0 <= i < j < r.len() implies (#[trigger] r[i]).id < (#[trigger] r[j]).id by {
                assert(r[j] == w[j - 1]);
                if i > 0 {
                    assert(r[i] == w[i - 1]);
                }
            }
        } else {
            assert forall|i: int| 0 <= i < w.len() implies lo < (#[trigger] w[i]).id by {
            }
        }
    }
}

impl DirectControlBroadcaster {
    /// Client ids ascend strictly, so each is unique, and all lie below
    /// the next id to hand out.
    pub open spec fn wf(&self) -> bool {
        ids_ascending_below(self.clients@, self.next_id as int)
    }

    pub fn new() -> (r: Self)
        ensures
            r.wf(),
            r.clients@.len() == 0,
    {
        DirectControlBroadcaster { clients: Vec::new(), next_id: 0 }
    }

    /// Registers a client with an empty queue and returns its id.
    pub fn connect(&mut self) -> (r: Option<u64>)
        requires
            old(self).wf(),
        ensures
            final(self).wf(),
            old(self).next_id == u64::MAX ==> r is None && *final(self) == *old(self),
            old(self).next_id < u64::MAX ==> r == Some(old(self).next_id) && final(self).next_id == old(self).next_id + 1
                && final(self).clients@.len() == old(self).clients@.len() + 1
                && (forall|i: int| 0 <= i < old(self).clients@.len() ==> #[trigger] final(self).clients@[i] == old(self).clients@[i])
                && final(self).clients@.last().id == old(self).next_id
                && final(self).clients@.last().pending@ == Seq::<String>::empty(),
    {
        if self.next_id == u64::MAX {
            return None;
        }
        let id = self.next_id;
        self.clients.push(ClientQueue { id, pending: Vec::new() });
        self.next_id = id + 1;
        Some(id)
    }

    /// Drops a client and whatever it had not taken.
    pub fn disconnect(&mut self, id: u64)
        requires
            old(self).wf(),
        ensures
            final(self).wf(),
            final(self).next_id == old(self).next_id,
            final(self).clients@ == without_client(old(self).clients@, id),
    {
        let mut kept: Vec<ClientQueue> = Vec::new();
        while self.clients.len() > 0
            invariant
                self.next_id == old(self).next_id,
                without_client(old(self).clients@, id) == kept@ + without_client(self.clients@, id),
            decreases self.clients.len(),
        {
            let ghost cur = self.clients@;
            let c = self.clients.remove(0);
            proof {
                assert(self.clients@ =~= cur.drop_first());
            }
            if c.id != id {
                kept.push(c);
                proof {
                    assert(kept@ + without_client(self.clients@, id) =~= kept@.drop_last() + without_client(cur, id));
                }
            }
        }
        proof {
            assert(kept@ + without_client(self.clients@, id) =~= kept@);
            lemma_without_ascending(old(self).clients@, id, -1, old(self).next_id as int);
        }
        self.clients = kept;
    }

    /// Appends a frame to the queue of every connected client.
    pub fn broadcast(&mut self, frame: &String)
        requires
            old(self).wf(),
        ensures
            final(self).wf(),
            final(self).next_id == old(self).next_id,
            final(self).clients@.len() == old(self).clients@.len(),
            forall|i: int| 0 <= i < old(self).clients@.len() ==> (#[trigger] final(self).clients@[i]).id == old(self).clients@[i].id
                && final(self).clients@[i].pending@ == old(self).clients@[i].pending@.push(*frame),
    {
        let mut done: Vec<ClientQueue> = Vec::new();
        let ghost before = self.clients@;
        let n = self.clients.len();
        let mut i: usize = 0;
        while i < n
            invariant
                self.next_id == old(self).next_id,
                n == before.len(),
                i <= n,
                self.clients@ == before.skip(i as int),
                done@.len() == i,
                forall|j: int| 0 <= j < i ==> (#[trigger] done@[j]).id == before[j].id && done@[j].pending@
                    == before[j].pending@.push(*frame),
            decreases n - i,
        {
            let mut c = self.clients.remove(0);
            proof {
                assert(self.clients@ =~= before.skip(i + 1));
            }
            c.pending.push(frame.clone());
            done.push(c);
            i = i + 1;
        }
        self.clients = done;
    }

    /// Takes every frame waiting for a client, oldest first.
    pub fn take_pending(&mut self, id: u64) -> (r: Vec<String>)
        requires
            old(self).wf(),
        ensures
            final(self).next_id == old(self).next_id,
            final(self).clients@.len() == old(self).clients@.len(),
            forall|i: int| 0 <= i < old(self).clients@.len() ==> (#[trigger] final(self).clients@[i]).id == old(self).clients@[i].id,
            forall|i: int| 0 <= i < old(self).clients@.len() && old(self).clients@[i].id != id ==> (#[trigger] final(self).clients@[i]) == old(self).clients@[i],
            forall|i: int| 0 <= i < old(self).clients@.len() && old(self).clients@[i].id == id ==> (#[trigger] final(self).clients@[i]).pending@.len() == 0,
            final(self).wf(),
            (exists|i: int| 0 <= i < old(self).clients@.len() && (#[trigger] old(self).clients@[i]).id == id) ==> exists|i: int|
                0 <= i < old(self).clients@.len() && (#[trigger] old(self).clients@[i]).id == id && r@ == old(self).clients@[i].pending@,
            !(exists|i: int| 0 <= i < old(self).clients@.len() && (#[trigger] old(self).clients@[i]).id == id) ==> r@.len() == 0,
    {
        let mut out: Vec<String> = Vec::new();
        let mut done: Vec<ClientQueue> = Vec::new();
        let ghost before = self.clients@;
        let n = self.clients.len();
        let mut found = false;
        let mut i: usize = 0;
        while i < n
            invariant
                self.next_id == old(self).next_id,
                n == before.len(),
                i <= n,
                self.clients@ == before.skip(i as int),
                done@.len() == i,
                forall|j: int| 0 <= j < i ==> (#[trigger] done@[j]).id == before[j].id,
                forall|j: int| 0 <= j < i && before[j].id != id ==> (#[trigger] done@[j]) == before[j],
                forall|j: int| 0 <= j < i && before[j].id == id ==> (#[trigger] done@[j]).pending@.len() == 0,
                found == exists|j: int| 0 <= j < i && (#[trigger] before[j]).id == id,
                !found ==> out@.len() == 0,
                found ==> exists|j: int| 0 <= j < i && (#[trigger] before[j]).id == id && (forall|k: int| 0 <= k < j ==> (#[trigger] before[k]).id != id) && out@ == before[j].pending@,
            decreases n - i,
        {
            let c = self.clients.remove(0);
            proof {
                assert(c == before[i as int]);
                assert(self.clients@ =~= before.skip(i + 1));
            }
            if c.id == id {
                let ClientQueue { id: cid, pending } = c;
                if !found {
                    out = pending;
                    found = true;
                }
                done.push(ClientQueue { id: cid, pending: Vec::new() });
            } else {
                done.push(c);
            }
            i = i + 1;
        }
        self.clients = done;
        out
    }
}

} // verus!
