//! Ground station, cube satellites and the mailbox through which they talk.
use vstd::prelude::*;

verus! {

/// A satellite, known by its identifier.
#[derive(Debug)]
pub struct CubeSat {
    pub id: u64,
}

/// A message addressed to one satellite.
#[derive(Debug)]
pub struct Message {
    pub to: u64,
    pub content: String,
}

/// Messages waiting for delivery, in the order in which they were posted.
#[derive(Debug)]
pub struct Mailbox {
    pub messages: Vec<Message>,
}

/// The station that connects to satellites and posts their messages.
pub struct GroundStation;

/// Index of the first message in `msgs` addressed to `to`, if any.
pub open spec fn first_for(msgs: Seq<Message>, to: u64) -> Option<int>
    decreases msgs.len(),
{
    if msgs.len() == 0 {
        None
    } else if msgs[0].to == to {
        Some(0)
    } else {
        match first_for(msgs.drop_first(), to) {
            Some(i) => Some(i + 1),
            None => None,
        }
    }
}

proof fn lemma_first_for(msgs: Seq<Message>, to: u64)
    ensures
        match first_for(msgs, to) {
            Some(i) => 0 <= i < msgs.len() && msgs[i].to == to && forall|j: int|
                0 <= j < i ==> msgs[j].to != to,
            None => forall|j: int| 0 <= j < msgs.len() ==> msgs[j].to != to,
        },
    decreases msgs.len(),
{
    if msgs.len() > 0 && msgs[0].to != to {
        let rest = msgs.drop_first();
        lemma_first_for(rest, to);
        assert forall|j: int| 1 <= j < msgs.len() implies msgs[j] == rest[j - 1] by {}
    }
}

proof fn lemma_first_for_unique(msgs: Seq<Message>, to: u64, i: int)
    requires
        0 <= i < msgs.len(),
        msgs[i].to == to,
        forall|j: int| 0 <= j < i ==> msgs[j].to != to,
    ensures
        first_for(msgs, to) == Some(i),
{
    lemma_first_for(msgs, to);
}

impl CubeSat {
    /// Takes this satellite's earliest waiting message out of the mailbox.
    pub fn recv(&self, mailbox: &mut Mailbox) -> (r: Option<Message>)
        ensures
            match first_for(old(mailbox).messages@, self.id) {
                Some(i) => r == Some(old(mailbox).messages@[i]) && final(mailbox).messages@
                    == old(mailbox).messages@.remove(i),
                None => r is None && final(mailbox).messages@ == old(mailbox).messages@,
            },
    {
        mailbox.deliver(self)
    }
}

impl Mailbox {
    /// Appends a message to the end of the queue.
    pub fn post(&mut self, msg: Message)
        ensures
            final(self).messages@ == old(self).messages@.push(msg),
    {
        self.messages.push(msg);
    }

    /// Removes and returns the first message addressed to `recipient`.
    pub fn deliver(&mut self, recipient: &CubeSat) -> (r: Option<Message>)
        ensures
            match first_for(old(self).messages@, recipient.id) {
                Some(i) => r == Some(old(self).messages@[i]) && final(self).messages@
                    == old(self).messages@.remove(i),
                None => r is None && final(self).messages@ == old(self).messages@,
            },
    {
        let n = self.messages.len();
        let mut i: usize = 0;
        while i < n
            invariant
                n == self.messages.len(),
                self.messages@ == old(self).messages@,
                i <= n,
                forall|j: int| 0 <= j < i ==> self.messages@[j].to != recipient.id,
            decreases n - i,
        {
            if self.messages[i].to == recipient.id {
                proof {
                    lemma_first_for_unique(self.messages@, recipient.id, i as int);
                }
                let msg = self.messages.remove(i);
                return Some(msg);
            }
            i = i + 1;
        }
        proof {
            lemma_first_for(self.messages@, recipient.id);
        }
        None
    }
}

impl GroundStation {
    /// Opens a link to the satellite with the given identifier.
    pub fn connect(&self, sat_id: u64) -> (r: CubeSat)
        ensures
            r.id == sat_id,
    {
        CubeSat { id: sat_id }
    }

    /// Posts a message to the mailbox on a satellite's behalf.
    pub fn send(&self, mailbox: &mut Mailbox, msg: Message)
        ensures
            final(mailbox).messages@ == old(mailbox).messages@.push(msg),
    {
        mailbox.post(msg);
    }
}

/// The identifiers of the satellites in the constellation.
pub fn fetch_sat_ids() -> (r: Vec<u64>)
    ensures
        r@ == seq![1u64, 2, 3],
{
    vec![1, 2, 3]
}

} // verus!
