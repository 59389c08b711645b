//! The envelope in which a deliverable travels.

use vstd::prelude::*;
use crate::models::meta::Meta;
use crate::order::turned;

verus! {

/// A deliverable in its written form, with the record of the tool that made
/// it.
#[derive(Debug)]
pub struct Payload {
    /// Version and description.
    pub meta: Meta,
    /// The deliverable, as bytes.
    pub deliverable: Vec<u8>,
}

impl Clone for Payload {
    fn clone(&self) -> (p: Self)
        ensures
            p.meta == self.meta,
            p.deliverable@ == self.deliverable@,
    {
        Payload { meta: self.meta.clone(), deliverable: self.deliverable.clone() }
    }
}

impl Payload {
    /// An envelope of `meta` round the written deliverable `deliverable`.
    pub fn new(meta: Meta, deliverable: Vec<u8>) -> (p: Self)
        ensures
            p.meta == meta,
            p.deliverable == deliverable,
    {
        Payload { meta: meta, deliverable: deliverable }
    }

    /// Whether the envelope was made by a tool of version `ver`.
    pub fn made_by(&self, ver: &String) -> (b: bool)
        ensures
            b == (self.meta.ver@ == ver@),
    {
        self.meta.ver == *ver
    }
}

/// Those of `payloads` that were made by a tool of version `ver`, in order.
pub open spec fn compatible(payloads: Seq<Payload>, ver: Seq<char>) -> Seq<Payload>
    decreases payloads.len(),
{
    if payloads.len() == 0 {
        payloads
    } else if payloads.last().meta.ver@ == ver {
        compatible(payloads.drop_last(), ver).push(payloads.last())
    } else {
        compatible(payloads.drop_last(), ver)
    }
}

/// Keeps those of `payloads` that were made by a tool of version `ver`, in
/// order, and skips the others.
pub fn keep_compatible(payloads: Vec<Payload>, ver: &String) -> (kept: Vec<Payload>)
    ensures
        kept@ == compatible(payloads@, ver@),
{
    let ghost all = payloads@;
    let mut kept: Vec<Payload> = Vec::new();
    let mut back: Vec<Payload> = turned(payloads);
    let ghost mut done: int = 0;
    proof {
        assert(all.take(0) =~= Seq::<Payload>::empty());
    }
    while back.len() > 0
        invariant
            0 <= done,
            done + back@.len() == all.len(),
            forall|i: int| 0 <= i < back@.len() ==> #[trigger] back@[i] == all[all.len() - 1 - i],
            kept@ == compatible(all.take(done), ver@),
        decreases back@.len(),
    {
        proof {
            assert(all.take(done + 1).drop_last() =~= all.take(done));
            assert(all.take(done + 1).last() == all[done]);
            assert(back@[back@.len() - 1] == all[done]);
        }
        match back.pop() {
            Some(payload) => {
                if payload.made_by(ver) {
                    kept.push(payload);
                }
            },
            None => {},
        }
        proof {
            done = done + 1;
        }
    }
    proof {
        assert(all.take(all.len() as int) =~= all);
    }
    kept
}

} // verus!
