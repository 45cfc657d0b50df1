//! A lazy, single-pass walker over a chain's learned transitions.
//!
//! A [`ChainIterator`] holds an immutable reference to a [`Chain`] and
//! its own cursor state.  Each step samples a successor of the current
//! state; the successor is yielded and becomes the newest atom of the
//! cursor.  When the current state has never been observed, the walk
//! terminates for good.

use vstd::prelude::*;

use crate::chain::clone_atoms;
use crate::chain::Chain;
use crate::chain::ChainError;

verus! {

/// A lazy, non-restartable producer of atoms sampled from a chain.
/// `state` is `None` once the walk is exhausted.
pub struct ChainIterator<'c> {
    pub chain: &'c Chain,
    pub state: Option<Vec<usize>>,
}

impl Chain {
    /// Returns a walker seeded with `initial`.  The seed is not
    /// validated here: a seed of the wrong length is rejected lazily,
    /// on the first step of the walk.
    pub fn sample_seq<'c>(&'c self, initial: &Vec<usize>) -> (it: ChainIterator<'c>)
        ensures
            it.chain == self,
            it.state is Some,
            it.state->0@ == initial@,
    {
        ChainIterator { chain: self, state: Some(clone_atoms(initial)) }
    }
}

impl<'c> ChainIterator<'c> {
    /// Advances the walk by one step.  An exhausted walker keeps
    /// yielding the empty outcome; a cursor of the wrong length is
    /// rejected and left in place; an unseen cursor exhausts the walk;
    /// otherwise a recorded destination of the cursor is yielded and
    /// becomes the cursor's newest atom, evicting the oldest.
    pub fn next(&mut self) -> (r: Result<Option<usize>, ChainError>)
        requires
            old(self).chain.wf(),
        ensures
            final(self).chain == old(self).chain,
            match r {
                Err(e) => {
                    &&& e == ChainError::PreconditionViolation
                    &&& old(self).state is Some
                    &&& old(self).state->0@.len() != old(self).chain.order
                    &&& final(self).state == old(self).state
                },
                Ok(None) => {
                    &&& final(self).state is None
                    &&& (old(self).state is Some ==> old(self).state->0@.len()
                        == old(self).chain.order && !old(self).chain.seen(old(self).state->0@))
                },
                Ok(Some(a)) => {
                    &&& old(self).state is Some
                    &&& old(self).state->0@.len() == old(self).chain.order
                    &&& old(self).chain.seen(old(self).state->0@)
                    &&& old(self).chain.count_of(old(self).state->0@, a) >= 1
                    &&& final(self).state is Some
                    &&& final(self).state->0@ == seq![a] + old(self).state->0@.drop_last()
                },
            },
    {
        let cur = self.state.take();
        match cur {
            None => Ok(None),
            Some(st) => {
                match self.chain.sample(&st) {
                    Err(e) => {
                        self.state = Some(st);
                        Err(e)
                    },
                    Ok(None) => Ok(None),
                    Ok(Some(a)) => {
                        let ghost st0 = st@;
                        let mut st2 = st;
                        st2.pop();
                        st2.insert(0, a);
                        proof {
                            assert(st2@ =~= seq![a] + st0.drop_last());
                        }
                        self.state = Some(st2);
                        Ok(Some(a))
                    },
                }
            },
        }
    }
}

} // verus!
