//! One question to a filter.

use crate::tokens::{FilterOp, ParkToken};
use vstd::prelude::*;

verus! {

/// What a filter may be asked about, and what it has been asked. Every question goes through here,
/// and none can be taken back.
pub struct Questions {
    tokens: Ghost<Seq<ParkToken>>,
    calls: Ghost<Seq<(ParkToken, FilterOp)>>,
}

/// Whether a filter can be asked about all of `tokens`.
pub closed spec fn can_answer<G: FnOnce(ParkToken) -> FilterOp>(
    filter: G,
    tokens: Seq<ParkToken>,
) -> bool {
    forall|i: int| 0 <= i < tokens.len() ==> filter.requires((#[trigger] tokens[i],))
}

/// A filter that is lent can be asked what the filter itself can be asked.
pub broadcast proof fn lemma_can_answer_lent<F: FnMut(ParkToken) -> FilterOp>(
    filter: &mut F,
    tokens: Seq<ParkToken>,
)
    requires
        can_answer(*filter, tokens),
    ensures
        #[trigger] can_answer::<&mut F>(filter, tokens),
{
}

impl Questions {
    /// The tokens that the filter may be asked about.
    pub closed spec fn tokens(self) -> Seq<ParkToken> {
        self.tokens@
    }

    /// All questions so far, each with its answer, in turn.
    pub closed spec fn calls(self) -> Seq<(ParkToken, FilterOp)> {
        self.calls@
    }

    /// No question yet, to a filter that accepts each of the given tokens.
    pub fn new<F: FnMut(ParkToken) -> FilterOp>(
        filter: &F,
        Ghost(tokens): Ghost<Seq<ParkToken>>,
    ) -> (questions: Questions)
        requires
            forall|i: int| 0 <= i < tokens.len() ==> filter.requires((#[trigger] tokens[i],)),
        ensures
            can_answer(*filter, tokens),
            questions.tokens() == tokens,
            questions.calls() == Seq::<(ParkToken, FilterOp)>::empty(),
    {
        Questions { tokens: Ghost(tokens), calls: Ghost(Seq::empty()) }
    }

    /// Asks a filter, which is used up by it, about `token`.
    pub fn ask_once<G: FnOnce(ParkToken) -> FilterOp>(
        &mut self,
        filter: G,
        token: ParkToken,
    ) -> (op: FilterOp)
        requires
            can_answer(filter, old(self).tokens()),
            old(self).tokens().contains(token),
        ensures
            filter.ensures((token,), op),
            final(self).tokens() == old(self).tokens(),
            final(self).calls() == old(self).calls().push((token, op)),
    {
        let op = filter(token);
        self.calls = Ghost(self.calls@.push((token, op)));
        op
    }
}

} // verus!
