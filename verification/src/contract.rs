//! The contract that a replay runs on.

use vstd::prelude::*;

use crate::engine::{ContractCall, Reply};

verus! {

/// The calls that were made on a contract, in order, each with its reply.
pub type Transcript = Seq<(ContractCall, Reply)>;

/// A contract that carries out one call at a time. What it replies may depend on
/// every call before.
pub trait Contract {
    /// The calls made so far. Only proofs speak of it.
    spec fn made(&self) -> Transcript;

    /// Carries out the call.
    fn carry_out(&mut self, call: ContractCall) -> (reply: Reply)
        ensures
            final(self).made() == old(self).made().push((call, reply)),
    ;
}

/// A contract that replies by a script, and with `Done` once the script is over.
/// It keeps the calls it got.
pub struct Script {
    pending: Vec<Reply>,
    calls: Vec<ContractCall>,
    made: Ghost<Transcript>,
}

impl Script {
    /// The replies that are left.
    pub closed spec fn pending(&self) -> Seq<Reply> {
        self.pending@
    }

    /// The calls it got.
    pub closed spec fn spec_calls(&self) -> Seq<ContractCall> {
        self.calls@
    }

    pub fn new(replies: Vec<Reply>) -> (script: Self)
        ensures
            script.pending() == replies@,
            script.spec_calls() == Seq::<ContractCall>::empty(),
            script.made() == Seq::<(ContractCall, Reply)>::empty(),
    {
        Script { pending: replies, calls: Vec::new(), made: Ghost(Seq::empty()) }
    }

    /// The calls it got, in order.
    pub fn calls(&self) -> (calls: &Vec<ContractCall>)
        ensures
            calls@ == self.spec_calls(),
    {
        &self.calls
    }
}

impl Contract for Script {
    closed spec fn made(&self) -> Transcript {
        self.made@
    }

    fn carry_out(&mut self, call: ContractCall) -> (reply: Reply)
        ensures
            reply == (if old(self).pending().len() > 0 {
                old(self).pending()[0]
            } else {
                Reply::Done
            }),
            final(self).pending() == (if old(self).pending().len() > 0 {
                old(self).pending().drop_first()
            } else {
                Seq::empty()
            }),
            final(self).spec_calls() == old(self).spec_calls().push(call),
    {
        let reply: Reply = if self.pending.len() > 0 {
            self.pending.remove(0)
        } else {
            Reply::Done
        };
        self.made = Ghost(self.made@.push((call, reply)));
        self.calls.push(call);
        reply
    }
}

} // verus!
