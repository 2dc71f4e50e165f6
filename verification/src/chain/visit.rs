//! Handing the blocks of a chain to a visitor, one by one.
//!
//! The visitor answers to each block whether it wants more. The first answer
//! that it does not ends the visit.

use crate::chain::stream::RawBlock;
use vstd::prelude::*;

verus! {

/// A visit to the blocks of a chain.
#[derive(Debug)]
pub struct Visit {
    /// The blocks; those that were handed out are empty.
    pub blocks: Vec<RawBlock>,
    /// How many were handed out.
    pub next: usize,
    /// Whether the visitor wants no more.
    pub stopped: bool,
}

impl View for Visit {
    type V = Seq<RawBlock>;

    /// The blocks that are still to be handed out.
    open spec fn view(&self) -> Seq<RawBlock> {
        if !self.stopped && self.next < self.blocks@.len() {
            self.blocks@.skip(self.next as int)
        } else {
            seq![]
        }
    }
}

impl Visit {
    /// A visit to the blocks of `chain` that has not begun.
    pub fn new(chain: Vec<RawBlock>) -> (visit: Self)
        ensures
            visit@ == chain@,
            visit.next == 0,
            !visit.stopped,
    {
        let visit = Visit { blocks: chain, next: 0, stopped: false };
        assert(visit@ =~= chain@);
        visit
    }

    /// The block to hand out next, if there is one.
    pub fn next_block(&mut self) -> (block: Option<RawBlock>)
        ensures
            block is Some <==> !old(self).stopped && old(self).next < old(self).blocks@.len(),
            block is Some <==> old(self)@.len() > 0,
            block matches Some(b) ==> {
                &&& b == old(self).blocks@[old(self).next as int]
                &&& b == old(self)@[0]
                &&& final(self)@ == old(self)@.drop_first()
                &&& final(self).next == old(self).next + 1
                &&& final(self).stopped == old(self).stopped
            },
            block is None ==> *final(self) == *old(self),
    {
        if self.stopped || self.next >= self.blocks.len() {
            return None;
        }
        let mut block = RawBlock { height: 0, hash: String::new(), data: Vec::new() };
        std::mem::swap(&mut self.blocks[self.next], &mut block);
        self.next = self.next + 1;
        assert(self@ =~= old(self)@.drop_first());
        Some(block)
    }

    /// Takes the visitor's answer: whether it wants more.
    pub fn answered(&mut self, go_on: bool)
        ensures
            final(self).blocks == old(self).blocks,
            final(self).next == old(self).next,
            final(self).stopped == (old(self).stopped || !go_on),
            final(self)@ == (if go_on {
                old(self)@
            } else {
                seq![]
            }),
    {
        if !go_on {
            self.stopped = true;
        }
    }
}

/// What is left to hand out of `chain` after the given answers.
pub open spec fn left_after(chain: Seq<RawBlock>, answers: Seq<bool>) -> Seq<RawBlock>
    decreases answers.len(),
{
    if answers.len() == 0 {
        chain
    } else if answers.last() {
        left_after(chain, answers.drop_last()).drop_first()
    } else {
        seq![]
    }
}

/// Whether a visitor of `chain` can have given these answers: before each of
/// them there was a block to hand out.
pub open spec fn can_have_answered(chain: Seq<RawBlock>, answers: Seq<bool>) -> bool {
    forall|i: int|
        0 <= i < answers.len() ==> (#[trigger] left_after(chain, answers.take(i))).len() > 0
}

/// As long as the visitor wants more, the rest of the chain is left.
proof fn lemma_left_after(chain: Seq<RawBlock>, answers: Seq<bool>)
    requires
        answers.len() <= chain.len(),
        forall|i: int| 0 <= i < answers.len() ==> #[trigger] answers[i],
    ensures
        left_after(chain, answers) == chain.skip(answers.len() as int),
    decreases answers.len(),
{
    if answers.len() > 0 {
        let init = answers.drop_last();
        assert forall|i: int| 0 <= i < init.len() implies #[trigger] init[i] by {
            assert(answers[i]);
        }
        lemma_left_after(chain, init);
        assert(answers[answers.len() - 1]);
        assert(chain.skip(init.len() as int).drop_first() =~= chain.skip(answers.len() as int));
    } else {
        assert(chain.skip(0) =~= chain);
    }
}

/// Before an answer, all answers were that the visitor wants more.
proof fn lemma_wanted_more(chain: Seq<RawBlock>, answers: Seq<bool>, i: int)
    requires
        can_have_answered(chain, answers),
        0 <= i < answers.len(),
    ensures
        i < chain.len(),
        forall|j: int| 0 <= j < i ==> #[trigger] answers[j],
    decreases i,
{
    assert(left_after(chain, answers.take(i)).len() > 0);
    if i > 0 {
        lemma_wanted_more(chain, answers, i - 1);
        assert(answers.take(i).last() == answers[i - 1]);
    }
    lemma_left_after(chain, answers.take(i));
}

/// A visitor is handed the blocks of the chain from its start, in order, until
/// it wants no more or none is left: every answer but the last is that it
/// wants more, there are no more answers than blocks, and the block before
/// each answer is the one at its place in the chain.
pub proof fn law_blocks_are_handed_out_until_the_visitor_stops(
    chain: Seq<RawBlock>,
    answers: Seq<bool>,
)
    ensures
        can_have_answered(chain, answers) <==> {
            &&& answers.len() <= chain.len()
            &&& forall|i: int| 0 <= i < answers.len() - 1 ==> #[trigger] answers[i]
        },
        can_have_answered(chain, answers) ==> forall|i: int|
            0 <= i < answers.len() ==> (#[trigger] left_after(chain, answers.take(i)))[0]
                == chain[i],
        can_have_answered(chain, answers) && answers.len() > 0 && !answers.last() ==> left_after(
            chain,
            answers,
        ).len() == 0,
{
    if can_have_answered(chain, answers) && answers.len() > 0 {
        lemma_wanted_more(chain, answers, answers.len() - 1);
    }
    if answers.len() <= chain.len() && forall|i: int|
        0 <= i < answers.len() - 1 ==> #[trigger] answers[i] {
        assert forall|i: int| 0 <= i < answers.len() implies (#[trigger] left_after(
            chain,
            answers.take(i),
        )).len() > 0 && left_after(chain, answers.take(i))[0] == chain[i] by {
            lemma_left_after(chain, answers.take(i));
        }
    }
}

} // verus!
