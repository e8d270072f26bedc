//! A filter, and what it has been asked.

use crate::answer::{can_answer, lemma_can_answer_lent, Questions};
use crate::tokens::{FilterOp, ParkToken};
use vstd::prelude::*;

verus! {

/// A filter that can only be asked in a way that is taken down.
pub struct Asking<F> {
    filter: F,
    questions: Questions,
}

impl<F: FnMut(ParkToken) -> FilterOp> Asking<F> {
    /// Whether the filter can be asked about the tokens that it may be asked about.
    pub closed spec fn wf(self) -> bool {
        can_answer(self.filter, self.questions.tokens())
    }

    /// The filter.
    pub closed spec fn filter(self) -> F {
        self.filter
    }

    /// The tokens that the filter may be asked about.
    pub closed spec fn tokens(self) -> Seq<ParkToken> {
        self.questions.tokens()
    }

    /// All calls of the filter so far, each with its answer, in turn.
    pub closed spec fn calls(self) -> Seq<(ParkToken, FilterOp)> {
        self.questions.calls()
    }

    /// A filter that has not been asked yet, and may be asked about the given tokens.
    pub fn new(filter: F, Ghost(tokens): Ghost<Seq<ParkToken>>) -> (asking: Asking<F>)
        requires
            forall|i: int| 0 <= i < tokens.len() ==> filter.requires((#[trigger] tokens[i],)),
        ensures
            asking.wf(),
            asking.filter() == filter,
            asking.tokens() == tokens,
            asking.calls() == Seq::<(ParkToken, FilterOp)>::empty(),
    {
        let questions = Questions::new(&filter, Ghost(tokens));
        Asking { filter, questions }
    }

    /// Asks the filter about `token`.
    pub fn ask(&mut self, token: ParkToken) -> (op: FilterOp)
        requires
            old(self).wf(),
            old(self).tokens().contains(token),
        ensures
            final(self).wf(),
            final(self).filter() == old(self).filter(),
            final(self).tokens() == old(self).tokens(),
            old(self).filter().ensures((token,), op),
            final(self).calls() == old(self).calls().push((token, op)),
    {
        broadcast use lemma_can_answer_lent;

        self.questions.ask_once(&mut self.filter, token)
    }
}

} // verus!
