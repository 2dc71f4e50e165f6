//! One epoch of a trial: what it is made of, and what is recorded of it.
//!
//! The droplets of an epoch arrive one by one. After each of them decoding is
//! tried with all that have arrived, and a row is recorded. The first success
//! ends the epoch.

use crate::chain::error::ChainError;
use crate::chain::header;
use crate::chain::header::{BlockHeader, HEADER_SIZE};
use crate::chain::stream::RawBlock;
use crate::text;
use crate::text::append_decimal;
use crate::trial::table::Row;
use vstd::prelude::*;
use vstd::slice::slice_subrange;

verus! {

/// Successive blocks of the chain that are coded together.
#[derive(Clone, Debug, PartialEq, Eq)]
pub struct EpochBatch {
    /// Number of the epoch.
    pub index: usize,
    /// The blocks, in the order of their heights.
    pub blocks: Vec<RawBlock>,
}

/// What an epoch is coded from and checked against.
#[derive(Clone, Debug)]
pub struct EpochPlan {
    /// Number of the epoch.
    pub index: usize,
    /// Hash of the first block, as it is displayed.
    pub first_hash: String,
    /// The blocks.
    pub source_blocks: Vec<Vec<u8>>,
    /// The header of each block.
    pub trusted_headers: Vec<BlockHeader>,
}

/// Whether block `i` is the first that is too short for a header.
pub open spec fn is_first_short(blocks: Seq<RawBlock>, i: int) -> bool {
    &&& 0 <= i < blocks.len()
    &&& blocks[i].data@.len() < HEADER_SIZE
    &&& forall|j: int| 0 <= j < i ==> (#[trigger] blocks[j]).data@.len() >= HEADER_SIZE
}

/// What is said of a block that is too short for a header.
pub open spec fn short_block_text(epoch: nat, block: nat) -> Seq<char> {
    "epoch "@ + text::decimal(epoch) + " block "@ + text::decimal(block)
        + ": tamanho < 80 bytes"@
}

/// Says that a block is too short for a header.
fn short_block(epoch: usize, block: usize) -> (error: ChainError)
    ensures
        error matches ChainError::Parse(text) && text@ == short_block_text(
            epoch as nat,
            block as nat,
        ),
{
    let mut text = "epoch ".to_string();
    append_decimal(&mut text, epoch);
    text.append(" block ");
    append_decimal(&mut text, block);
    text.append(": tamanho < 80 bytes");
    ChainError::Parse(text)
}

impl EpochPlan {
    /// Whether this is the plan for the given blocks.
    pub open spec fn is_for(&self, index: usize, blocks: Seq<RawBlock>) -> bool {
        &&& self.index == index
        &&& self.first_hash@ == blocks[0].hash@
        &&& self.source_blocks@.len() == blocks.len()
        &&& self.trusted_headers@.len() == blocks.len()
        &&& forall|i: int|
            0 <= i < blocks.len() ==> (#[trigger] self.source_blocks@[i])@ == blocks[i].data@
        &&& forall|i: int|
            0 <= i < blocks.len() ==> (#[trigger] self.trusted_headers@[i])@
                == blocks[i].data@.subrange(0, HEADER_SIZE as int)
    }
}

/// Takes an epoch apart for coding.
///
/// An epoch of fewer than two blocks is passed over. Fails at the first block
/// that is too short for a header.
pub fn prepare_epoch(batch: EpochBatch) -> (r: Result<Option<EpochPlan>, ChainError>)
    ensures
        match r {
            Ok(None) => batch.blocks@.len() < 2,
            Ok(Some(plan)) => {
                &&& batch.blocks@.len() >= 2
                &&& forall|i: int|
                    0 <= i < batch.blocks@.len() ==> (#[trigger] batch.blocks@[i]).data@.len()
                        >= HEADER_SIZE
                &&& plan.is_for(batch.index, batch.blocks@)
                &&& plan.source_blocks@.len() == batch.blocks@.len()
                &&& forall|i: int|
                    0 <= i < batch.blocks@.len() ==> (#[trigger] plan.source_blocks@[i])@
                        == batch.blocks@[i].data@
            },
            Err(ChainError::Parse(text)) => {
                &&& batch.blocks@.len() >= 2
                &&& exists|i: int| #[trigger]
                    is_first_short(batch.blocks@, i) && text@ == short_block_text(
                        batch.index as nat,
                        i as nat,
                    )
            },
        },
{
    let ghost all = batch.blocks@;
    let index = batch.index;
    let mut blocks = batch.blocks;
    let k = blocks.len();
    if k < 2 {
        return Ok(None);
    }
    let mut first_hash = String::new();
    std::mem::swap(&mut blocks[0].hash, &mut first_hash);
    let mut source_blocks: Vec<Vec<u8>> = Vec::new();
    let mut trusted_headers: Vec<BlockHeader> = Vec::new();
    for i in 0..k
        invariant
            k == all.len(),
            k >= 2,
            all == batch.blocks@,
            index == batch.index,
            blocks@.len() == k,
            source_blocks@.len() == i,
            trusted_headers@.len() == i,
            forall|j: int| i <= j < k ==> (#[trigger] blocks@[j]).data@ == all[j].data@,
            forall|j: int| 0 <= j < i ==> (#[trigger] all[j]).data@.len() >= HEADER_SIZE,
            forall|j: int| 0 <= j < i ==> (#[trigger] source_blocks@[j])@ == all[j].data@,
            forall|j: int|
                0 <= j < i ==> (#[trigger] trusted_headers@[j])@ == all[j].data@.subrange(
                    0,
                    HEADER_SIZE as int,
                ),
    {
        let mut data: Vec<u8> = Vec::new();
        std::mem::swap(&mut blocks[i].data, &mut data);
        if data.len() < HEADER_SIZE {
            assert(is_first_short(all, i as int));
            return Err(short_block(index, i));
        }
        let header = BlockHeader::decode(
            slice_subrange(data.as_slice(), 0, HEADER_SIZE),
        ).unwrap();
        trusted_headers.push(header);
        source_blocks.push(data);
    }
    Ok(Some(EpochPlan { index, first_hash, source_blocks, trusted_headers }))
}

/// How many droplets are made for an epoch of `k` blocks: as many as asked for,
/// or ten for each block where none are asked for.
pub fn max_droplets(requested: usize, k: usize) -> (n: usize)
    requires
        requested == 0 ==> 10 * k <= usize::MAX,
    ensures
        n == (if requested == 0 {
            10 * k
        } else {
            requested as int
        }),
{
    if requested == 0 {
        10 * k
    } else {
        requested
    }
}

/// The arrival of the droplets of one epoch.
#[derive(Debug)]
pub struct EpochRun {
    /// Number of the epoch.
    pub epoch_idx: usize,
    /// Number of source blocks.
    pub k: usize,
    /// Number of the trial.
    pub trial: usize,
    /// The droplets in the order of their arrival.
    pub order: Vec<u64>,
    /// How many of them have arrived.
    pub n_collected: usize,
    /// Whether decoding has succeeded.
    pub succeeded: bool,
}

/// How far the arrival of the droplets of an epoch has come.
pub struct Progress {
    /// How many have arrived.
    pub n_collected: nat,
    /// Whether decoding has succeeded.
    pub succeeded: bool,
}

impl Progress {
    /// Nothing has arrived.
    pub open spec fn start() -> Self {
        Progress { n_collected: 0, succeeded: false }
    }

    /// The droplet that arrives next, if any does.
    pub open spec fn next(self, order: Seq<u64>) -> Option<u64> {
        if !self.succeeded && self.n_collected < order.len() {
            Some(order[self.n_collected as int])
        } else {
            None
        }
    }

    /// One more has arrived, and decoding was tried.
    pub open spec fn with(self, ok: bool) -> Self {
        Progress { n_collected: self.n_collected + 1, succeeded: ok }
    }
}

impl View for EpochRun {
    type V = Progress;

    open spec fn view(&self) -> Progress {
        Progress { n_collected: self.n_collected as nat, succeeded: self.succeeded }
    }
}

impl EpochRun {
    /// Whether the run belongs to the same epoch as another one.
    pub open spec fn same_epoch(&self, other: &Self) -> bool {
        &&& self.epoch_idx == other.epoch_idx
        &&& self.k == other.k
        &&& self.trial == other.trial
        &&& self.order@ == other.order@
    }

    /// A run in which nothing has arrived.
    pub fn new(epoch_idx: usize, k: usize, trial: usize, order: Vec<u64>) -> (run: Self)
        ensures
            run.epoch_idx == epoch_idx,
            run.k == k,
            run.trial == trial,
            run.order@ == order@,
            run@ == Progress::start(),
    {
        EpochRun { epoch_idx, k, trial, order, n_collected: 0, succeeded: false }
    }

    /// The droplet that arrives next, if any does.
    pub fn next_droplet(&self) -> (id: Option<u64>)
        ensures
            id == self@.next(self.order@),
    {
        if !self.succeeded && self.n_collected < self.order.len() {
            Some(self.order[self.n_collected])
        } else {
            None
        }
    }

    /// Records that the next droplet has arrived, and whether decoding
    /// succeeded with it.
    pub fn record(&mut self, ok: bool) -> (row: Row)
        requires
            old(self)@.next(old(self).order@) is Some,
        ensures
            final(self).same_epoch(old(self)),
            final(self)@ == old(self)@.with(ok),
            row == (Row {
                epoch_idx: old(self).epoch_idx,
                k: old(self).k,
                n_collected: (old(self).n_collected + 1) as usize,
                decode_success: ok,
                trial: old(self).trial,
            }),
    {
        assert(self.n_collected < self.order.len());
        self.n_collected = self.n_collected + 1;
        self.succeeded = ok;
        Row {
            epoch_idx: self.epoch_idx,
            k: self.k,
            n_collected: self.n_collected,
            decode_success: ok,
            trial: self.trial,
        }
    }
}

/// The progress after decoding was tried as often as there are outcomes.
pub open spec fn after(outcomes: Seq<bool>) -> Progress
    decreases outcomes.len(),
{
    if outcomes.len() == 0 {
        Progress::start()
    } else {
        after(outcomes.drop_last()).with(outcomes.last())
    }
}

/// Whether a run can have had these outcomes: before each of them there was a
/// droplet to come.
pub open spec fn can_have(order: Seq<u64>, outcomes: Seq<bool>) -> bool {
    forall|i: int|
        0 <= i < outcomes.len() ==> (#[trigger] after(outcomes.take(i))).next(order) is Some
}

/// The progress counts the outcomes and keeps the last of them.
proof fn lemma_after(outcomes: Seq<bool>)
    ensures
        after(outcomes).n_collected == outcomes.len(),
        after(outcomes).succeeded == (outcomes.len() > 0 && outcomes.last()),
    decreases outcomes.len(),
{
    if outcomes.len() > 0 {
        lemma_after(outcomes.drop_last());
    }
}

/// A run goes on until decoding succeeds or no droplet is left: every outcome
/// but the last is a failure, and there are no more outcomes than droplets.
pub proof fn law_run_ends_with_the_first_success(order: Seq<u64>, outcomes: Seq<bool>)
    ensures
        can_have(order, outcomes) <==> {
            &&& outcomes.len() <= order.len()
            &&& forall|i: int| 0 <= i < outcomes.len() - 1 ==> !#[trigger] outcomes[i]
        },
{
    assert forall|i: int| 0 <= i <= outcomes.len() implies (#[trigger] after(
        outcomes.take(i),
    )).n_collected == i && after(outcomes.take(i)).succeeded == (i > 0 && outcomes[i - 1]) by {
        lemma_after(outcomes.take(i));
    }
    if can_have(order, outcomes) {
        assert forall|i: int| 0 <= i < outcomes.len() - 1 implies !#[trigger] outcomes[i] by {
            assert(after(outcomes.take(i + 1)).next(order) is Some);
        }
        if outcomes.len() > 0 {
            assert(after(outcomes.take(outcomes.len() - 1)).next(order) is Some);
        }
    }
}

/// Droplets arrive in the order of their delivery, and after a success none
/// does.
pub proof fn law_droplets_arrive_in_order(order: Seq<u64>, outcomes: Seq<bool>)
    requires
        can_have(order, outcomes),
    ensures
        forall|i: int|
            0 <= i < outcomes.len() ==> (#[trigger] after(outcomes.take(i))).next(order) == Some(
                order[i],
            ),
        outcomes.len() > 0 && outcomes.last() ==> after(outcomes).next(order) is None,
{
    assert forall|i: int| 0 <= i < outcomes.len() implies (#[trigger] after(
        outcomes.take(i),
    )).next(order) == Some(order[i]) by {
        lemma_after(outcomes.take(i));
    }
    lemma_after(outcomes);
}

/// A plan for an epoch holds its blocks whole and in their order, the hash of
/// the first of them, and of each block the header that its first eighty bytes
/// encode.
pub proof fn law_plan_holds_the_blocks_whole(
    plan: EpochPlan,
    index: usize,
    blocks: Seq<RawBlock>,
    i: int,
)
    requires
        plan.is_for(index, blocks),
        0 <= i < blocks.len(),
    ensures
        plan.index == index,
        plan.first_hash@ == blocks[0].hash@,
        plan.source_blocks@.len() == blocks.len(),
        plan.source_blocks@[i]@.len() == blocks[i].data@.len(),
        plan.source_blocks@[i]@ == blocks[i].data@,
        plan.trusted_headers@.len() == blocks.len(),
        plan.trusted_headers@[i]@ == blocks[i].data@.subrange(0, 80),
        blocks[i].data@.len() >= 80 ==> plan.trusted_headers@[i].prev_blockhash@
            == blocks[i].data@.subrange(4, 36) && plan.trusted_headers@[i].merkle_root@
            == blocks[i].data@.subrange(36, 68),
{
    assert(plan.source_blocks@[i]@ == blocks[i].data@);
    assert(plan.trusted_headers@[i]@ == blocks[i].data@.subrange(0, HEADER_SIZE as int));
    if blocks[i].data@.len() >= 80 {
        header::law_fields_stand_in_the_encoding(plan.trusted_headers@[i]);
        lemma_within_block(blocks[i].data@, plan.trusted_headers@[i]@);
    }
}

/// What stands in the first eighty bytes of a block stands in the block.
proof fn lemma_within_block(data: Seq<u8>, first: Seq<u8>)
    requires
        data.len() >= 80,
        first == data.subrange(0, 80),
    ensures
        first.subrange(4, 36) == data.subrange(4, 36),
        first.subrange(36, 68) == data.subrange(36, 68),
{
    assert(first.subrange(4, 36) =~= data.subrange(4, 36));
    assert(first.subrange(36, 68) =~= data.subrange(36, 68));
}

/// The block that is refused has fewer than eighty bytes, and all before it
/// have as many or more.
pub proof fn law_refused_block_is_the_first_below_eighty_bytes(blocks: Seq<RawBlock>, i: int)
    ensures
        is_first_short(blocks, i) <==> {
            &&& 0 <= i < blocks.len()
            &&& blocks[i].data@.len() < 80
            &&& forall|j: int| 0 <= j < i ==> 80 <= (#[trigger] blocks[j]).data@.len()
        },
{
}

/// The text on a block that is too short names the epoch and the block.
pub proof fn law_refusal_names_epoch_and_block(epoch: nat, block: nat)
    ensures
        exists|a: Seq<char>, b: Seq<char>|
            {
                &&& #[trigger] refusal(a, b) == short_block_text(epoch, block)
                &&& text::is_digits(a) && text::number(a) == epoch
                &&& text::is_digits(b) && text::number(b) == block
            },
{
    text::law_decimal_reads_back(epoch);
    text::law_decimal_reads_back(block);
    assert(refusal(text::decimal(epoch), text::decimal(block)) == short_block_text(epoch, block));
}

/// The words around the two numbers of a refusal.
pub open spec fn refusal(a: Seq<char>, b: Seq<char>) -> Seq<char> {
    "epoch "@ + a + " block "@ + b + ": tamanho < 80 bytes"@
}

/// The next droplet of a run is the one in the order of delivery behind those
/// that have arrived; there is none after a success or at the end.
pub proof fn law_next_droplet_follows_those_that_arrived(run: EpochRun)
    ensures
        !run.succeeded && run.n_collected < run.order@.len() ==> run@.next(run.order@) == Some(
            run.order@[run.n_collected as int],
        ),
        run.succeeded || run.n_collected >= run.order@.len() ==> run@.next(run.order@) is None,
{
}

/// A run starts with no droplet and no success.
pub proof fn law_run_starts_with_nothing(run: EpochRun)
    ensures
        run@ == Progress::start() <==> run.n_collected == 0 && !run.succeeded,
{
}

/// Recording an outcome counts one droplet, keeps the outcome, and changes
/// nothing else of the run.
pub proof fn law_recording_counts_one_droplet(before: EpochRun, after: EpochRun, ok: bool)
    requires
        after.same_epoch(&before),
        after@ == before@.with(ok),
    ensures
        after.n_collected == before.n_collected + 1,
        after.succeeded == ok,
        after.epoch_idx == before.epoch_idx,
        after.k == before.k,
        after.trial == before.trial,
        after.order@ == before.order@,
{
    assert(after@.n_collected == before@.n_collected + 1);
}

} // verus!
