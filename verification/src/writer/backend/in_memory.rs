//! A tree built into one buffer in memory.
//!
//! The buffer starts with a magic number and the tree's shape. The first pass
//! measures the blocks, the second puts each block in its place: the levels
//! follow the header, root first, and the blocks of a level follow one
//! another. Items hold what the caller writes, and behind it the offset of
//! the block below, if there is one.
//!
//! The machine tells in spec functions where it stands: `walk` is the state
//! of the walk, `measures` what was measured of each level, `reach` where
//! the next block of a level goes, `block_of` what a level's open block
//! holds. `answers` and `failure` say what `next` gives in terms of them.

use vstd::prelude::*;
use vstd::bytes::{spec_u32_to_le_bytes, spec_u64_to_le_bytes};
use crate::sketch;
use crate::writer::fold;
use crate::writer::plan;
use crate::writer::two_pass::markup;
use crate::writer::fold::{LevelState, Visit};
use crate::writer::folding::{in_step, in_step_but, lemma_filled_in_step, lemma_visit_in_step, state_fits};
use crate::writer::plan::{next_event, next_state, valid, BlockCursor};
use crate::writer::two_pass::write::{fits, level_offset, levels_before, total_before};
use crate::writer::script::{indexed, lemma_steady_end, lemma_steady_start, lemma_steady_step, lemma_step_works, steady, work};
use crate::writer::two_pass::LevelCoords;

verus! {

/// The number that a tree in memory starts with.
pub const MAGIC: u64 = 0x680f9a7a8b7a680d;

/// The bytes that stand in for the offset of a block below an item while
/// the blocks are measured.
pub const PLACEHOLDER: usize = 0;

/// The kinds of failure that `bincode` reports.
#[verifier::external_type_specification]
#[verifier::external_body]
pub struct ExErrorKind(bincode::ErrorKind);

/// Calls `bincode::serialize_into` on the buffer and a `u64`. With its
/// default configuration `bincode` sets no limit to what it writes, and
/// writes an integer in its full width, the low byte first, by `write_all`
/// on the buffer, which for a `Vec<u8>` appends and does not fail: the call
/// succeeds, and those eight bytes were added behind what the buffer held.
#[verifier::external_body]
fn put_u64(buffer: &mut Vec<u8>, value: u64) -> (done: Result<(), Box<bincode::ErrorKind>>)
    ensures
        done is Ok,
        final(buffer)@ == old(buffer)@ + spec_u64_to_le_bytes(value),
{
    bincode::serialize_into(buffer, &value)
}

/// Calls `bincode::serialize_into` on the buffer and a `u32`: the call
/// succeeds, as it does for a `u64`, and the four bytes of the value, the
/// low byte first, were added behind what the buffer held.
#[verifier::external_body]
fn put_u32(buffer: &mut Vec<u8>, value: u32) -> (done: Result<(), Box<bincode::ErrorKind>>)
    ensures
        done is Ok,
        final(buffer)@ == old(buffer)@ + spec_u32_to_le_bytes(value),
{
    bincode::serialize_into(buffer, &value)
}

/// Calls `bincode::serialize_into` on a cursor at the start of the buffer
/// and a `u32`. A cursor over a `Vec<u8>` writes over what is there and
/// lets the buffer grow where it ends, so the call succeeds: the four bytes
/// of the value, the low byte first, stand in place of the buffer's first
/// four, or of all it held if that was less, and the rest is as it was.
#[verifier::external_body]
fn set_u32(buffer: &mut Vec<u8>, value: u32) -> (done: Result<(), Box<bincode::ErrorKind>>)
    ensures
        done is Ok,
        final(buffer)@ == spec_u32_to_le_bytes(value) + if old(buffer)@.len() > 4 {
            old(buffer)@.skip(4)
        } else {
            Seq::empty()
        },
{
    bincode::serialize_into(std::io::Cursor::new(buffer), &value)
}

/// The bytes that `bincode` writes for an offset that may be missing: one
/// byte that says whether it is there, and the offset as a `u64`.
pub open spec fn child_bytes(child: Option<usize>) -> Seq<u8> {
    match child {
        None => seq![0u8],
        Some(offset) => seq![1u8] + spec_u64_to_le_bytes(offset as u64),
    }
}

/// Calls `bincode::serialize_into` on the buffer and an `Option<usize>`:
/// the call succeeds, as it does for a `u64`, and `child_bytes` of the value
/// were added behind what the buffer held.
#[verifier::external_body]
fn put_child(buffer: &mut Vec<u8>, child: Option<usize>) -> (done: Result<
    (),
    Box<bincode::ErrorKind>,
>)
    ensures
        done is Ok,
        final(buffer)@ == old(buffer)@ + child_bytes(child),
{
    bincode::serialize_into(buffer, &child)
}

/// What can go wrong while a tree is built in memory.
#[derive(Debug)]
pub enum Error {
    /// `bincode` could not write a value. It writes the integers of a
    /// tree into a buffer in memory, which does not fail: no function
    /// here ends in this.
    Encode,
    /// The tree is too large for its offsets to be held.
    TooLarge,
    /// A block has more items than its header can say.
    BlockTooLong { items_count: usize },
    /// A block is flushed in a size that is not due: in the first pass
    /// less than the block holds, in the second not what the first has
    /// measured of it.
    BlockSizeMismatch { block_size: usize, place_size: usize },
    /// A block's place is not inside the buffer.
    BlockOutside { block_end_offset: usize, memory_size: usize },
    /// A block is smaller than it was before an item was written into it.
    BlockShrunk { block_size: usize, size_before: usize },
}

/// The bytes of the levels `levels` as `bincode` writes them: for each level
/// its index, its number of blocks and its number of items.
pub open spec fn levels_bytes(levels: Seq<sketch::Level>) -> Seq<u8>
    decreases levels.len(),
{
    if levels.len() == 0 {
        Seq::empty()
    } else {
        levels_bytes(levels.drop_last()) + spec_u64_to_le_bytes(levels.last().index as u64)
            + spec_u64_to_le_bytes(levels.last().blocks_count as u64) + spec_u64_to_le_bytes(
            levels.last().items_count as u64,
        )
    }
}

/// The bytes that a tree in memory starts with: the magic number, and the
/// tree's shape as `bincode` writes it, which is the number of levels, the
/// levels, the block size and the number of items.
pub open spec fn header_bytes(levels: Seq<sketch::Level>, block_size: usize, items_total: usize) -> Seq<
    u8,
> {
    spec_u64_to_le_bytes(MAGIC) + spec_u64_to_le_bytes(levels.len() as u64) + levels_bytes(levels)
        + spec_u64_to_le_bytes(block_size as u64) + spec_u64_to_le_bytes(items_total as u64)
}

/// A block that is being filled: four bytes for the number of its items,
/// then the items.
pub struct BlockWriter {
    bytes: Vec<u8>,
    header_size: usize,
    items_count: usize,
}

impl View for BlockWriter {
    type V = Seq<u8>;

    closed spec fn view(&self) -> Seq<u8> {
        self.bytes@
    }
}

impl BlockWriter {
    /// The number of items that were written into the block.
    pub closed spec fn items_count(&self) -> usize {
        self.items_count
    }

    /// The size of the block's header.
    pub closed spec fn header_size(&self) -> usize {
        self.header_size
    }

    /// An empty block in the buffer `block`: its header says that it has no
    /// items. What `block` held before is dropped.
    fn new(block: Vec<u8>) -> (result: Result<BlockWriter, Error>)
        ensures
            result matches Ok(writer) && writer@ == spec_u32_to_le_bytes(0) && writer.items_count()
                == 0 && writer.header_size() == 4,
    {
        let mut bytes = block;
        bytes.clear();
        match put_u32(&mut bytes, 0) {
            Ok(()) => {
                proof {
                    vstd::bytes::lemma_auto_spec_u32_to_from_le_bytes();
                    assert(bytes@ =~= spec_u32_to_le_bytes(0));
                }
                let header_size = bytes.len();
                Ok(BlockWriter { bytes, header_size, items_count: 0 })
            },
            Err(_) => Err(Error::Encode),
        }
    }

    /// The bytes of the block so far.
    pub fn get_ref(&self) -> (bytes: &[u8])
        ensures
            bytes@ == self@,
    {
        self.bytes.as_slice()
    }

    /// The block's buffer.
    pub fn into_inner(self) -> (bytes: Vec<u8>)
        ensures
            bytes@ == self@,
    {
        self.bytes
    }

    /// Adds `bytes` behind what the block holds.
    pub fn write(&mut self, bytes: &[u8])
        ensures
            final(self)@ == old(self)@ + bytes@,
            final(self).items_count() == old(self).items_count(),
            final(self).header_size() == old(self).header_size(),
    {
        let mut i: usize = 0;
        while i < bytes.len()
            invariant
                i <= bytes.len(),
                self.bytes@ == old(self).bytes@ + bytes@.subrange(0, i as int),
                self.items_count == old(self).items_count,
                self.header_size == old(self).header_size,
            decreases bytes.len() - i,
        {
            self.bytes.push(bytes[i]);
            assert(self.bytes@ =~= old(self).bytes@ + bytes@.subrange(0, i + 1));
            i = i + 1;
        }
        assert(bytes@.subrange(0, bytes.len() as int) =~= bytes@);
    }

    /// The block's buffer, its header rewritten to say how many items the
    /// block has.
    fn seal(self) -> (result: Result<Vec<u8>, Error>)
        ensures
            result matches Ok(bytes) ==> {
                &&& self.items_count() <= u32::MAX
                &&& self@.len() >= 4 ==> bytes@ == spec_u32_to_le_bytes(self.items_count() as u32)
                    + self@.skip(4) && bytes@.len() == self@.len()
            },
            result matches Err(error) ==> error == (Error::BlockTooLong {
                items_count: self.items_count(),
            }),
            result is Err <==> self.items_count() > u32::MAX,
    {
        if self.items_count > u32::MAX as usize {
            return Err(Error::BlockTooLong { items_count: self.items_count });
        }
        let items_total = self.items_count as u32;
        let mut bytes = self.bytes;
        match set_u32(&mut bytes, items_total) {
            Ok(()) => {
                proof {
                    vstd::bytes::lemma_auto_spec_u32_to_from_le_bytes();
                }
                Ok(bytes)
            },
            Err(_) => Err(Error::Encode),
        }
    }
}

/// What the first pass keeps of a level.
pub type MarkupSeed = markup::LevelSeed<BlockWriter>;

/// What the second pass keeps of a level.
pub type WriteSeed = crate::writer::two_pass::write::LevelSeed<BlockWriter>;

/// The context of the first pass.
pub type MarkupContext = markup::Context<BlockWriter>;

/// The context of the second pass.
pub type WriteContext = crate::writer::two_pass::write::Context<BlockWriter>;

/// A continuation of the second pass.
pub type WriteContinue = crate::writer::two_pass::write::Continue<BlockWriter>;

/// An instruction of the second pass.
pub type WriteInstruction = crate::writer::two_pass::write::Instruction<BlockWriter>;

/// What the second pass asks for.
pub type WriteOp = crate::writer::two_pass::write::Op<BlockWriter>;

/// What a continuation of the second pass holds of the fold.
pub type WriteFoldAction = crate::writer::two_pass::write::FoldAction<BlockWriter>;

/// A level of the first pass is as the backend leaves it: levels have no
/// headers, and a block that is open is there.
pub open spec fn markup_state_ok(state: Option<LevelState<MarkupSeed>>) -> bool {
    match state {
        Some(LevelState::SeenVisitBlockStart { level_seed, .. }) => {
            &&& level_seed.level_header_size == 0
            &&& level_seed.active_block matches Some(block)
            &&& block@.len() >= 4
        },
        Some(LevelState::SeenVisitBlockFinish { level_seed }) => level_seed.level_header_size == 0,
        Some(LevelState::SeenVisitLevel { level_seed }) => level_seed.level_header_size == 0,
        _ => true,
    }
}

/// The block that is open on a level of the first pass in state `state`.
pub open spec fn markup_block_in(state: Option<LevelState<MarkupSeed>>) -> Option<BlockWriter> {
    match state {
        Some(LevelState::SeenVisitBlockStart { level_seed, .. }) => level_seed.active_block,
        _ => None,
    }
}

/// The block that is open on a level of the second pass in state `state`.
pub open spec fn write_block_in(state: Option<LevelState<WriteSeed>>) -> Option<BlockWriter> {
    match state {
        Some(LevelState::SeenVisitBlockStart { level_seed, .. }) => level_seed.active_block,
        _ => None,
    }
}

/// The block that is open on level `level_index` of the first pass.
pub open spec fn markup_block_of(context: MarkupContext, level_index: usize) -> Option<BlockWriter> {
    if level_index < context.fold().levels().len() {
        markup_block_in(context.fold().levels()[level_index as int])
    } else {
        None
    }
}

/// The block that is open on level `level_index` of the second pass.
pub open spec fn write_block_of(context: WriteContext, level_index: usize) -> Option<BlockWriter> {
    if level_index < context.fold().levels().len() {
        write_block_in(context.fold().levels()[level_index as int])
    } else {
        None
    }
}

/// What the first pass writes behind the next item as the offset of the
/// block below it.
pub open spec fn markup_child(context: MarkupContext) -> Option<usize> {
    if context.child_pending() {
        Some(PLACEHOLDER)
    } else {
        None
    }
}

/// A block that was just made: it holds its header, which says that it has
/// no items.
pub open spec fn fresh_block(block: BlockWriter) -> bool {
    block@ == spec_u32_to_le_bytes(0) && block.items_count() == 0
}

/// The levels `after` are the levels `before` but for level `level_index`.
pub open spec fn others_same<S>(
    before: Seq<Option<LevelState<S>>>,
    after: Seq<Option<LevelState<S>>>,
    level_index: usize,
) -> bool {
    &&& before.len() == after.len()
    &&& forall|i: int| 0 <= i < before.len() && i != level_index ==> #[trigger] after[i] == before[i]
}

/// A level of the second pass is as the backend leaves it: levels have no
/// headers, a block that is open is there and as long as was written of it,
/// and a block that is not begun starts where the level is written up to.
pub open spec fn write_state_ok(state: Option<LevelState<WriteSeed>>) -> bool {
    match state {
        Some(LevelState::SeenVisitBlockStart { level_seed, .. }) => {
            &&& level_seed.level_header_size == 0
            &&& level_seed.active_block matches Some(block)
            &&& block@.len() >= 4
            &&& level_seed.cursor == level_seed.block_offset + block@.len()
        },
        Some(LevelState::SeenVisitBlockFinish { level_seed }) => level_seed.level_header_size == 0
            && level_seed.cursor == level_seed.block_offset,
        Some(LevelState::SeenVisitLevel { level_seed }) => level_seed.level_header_size == 0
            && level_seed.cursor == level_seed.block_offset,
        _ => true,
    }
}

/// The first pass is in step with the walk, but for the level `hole`, whose
/// seed is out, if there is one.
pub open spec fn markup_in_step(context: MarkupContext, hole: Option<usize>) -> bool {
    let s = context.fold().plan()@;
    let levels = context.fold().levels();
    &&& valid(s)
    &&& indexed(s)
    &&& match hole {
        Some(hole) => in_step_but(levels, s, hole as int),
        None => in_step(levels, s),
    }
    &&& forall|i: int| 0 <= i < levels.len() ==> markup_state_ok(#[trigger] levels[i])
}

/// The levels were measured without headers.
pub open spec fn headers_none(coords: Seq<LevelCoords<usize>>) -> bool {
    forall|i: int| 0 <= i < coords.len() ==> (#[trigger] coords[i]).header_size == 0
}

/// The second pass is in step with the walk, but for the level `hole`,
/// whose seed is out, if there is one.
pub open spec fn write_in_step(context: WriteContext, hole: Option<usize>) -> bool {
    let s = context.fold().plan()@;
    let levels = context.fold().levels();
    &&& context.wf()
    &&& context.tree_header_written()
    &&& headers_none(context.coords())
    &&& indexed(s)
    &&& match hole {
        Some(hole) => in_step_but(levels, s, hole as int),
        None => in_step(levels, s),
    }
    &&& forall|i: int| 0 <= i < levels.len() ==> write_state_ok(#[trigger] levels[i])
}

/// The walk's cursor on level `level_index`.
pub open spec fn cursor_of(s: plan::State, level_index: usize) -> plan::LevelCursor {
    s.cursors[s.cursors.len() - 1 - level_index]
}

/// The first pass under way.
struct MarkupPass {
    context: MarkupContext,
    kont: markup::Continue<BlockWriter>,
}

/// The second pass under way.
struct WritePass {
    context: WriteContext,
    kont: WriteContinue,
    /// The step of the walk behind the visit that waits in `kont`.
    event: Ghost<Option<plan::Event>>,
}

/// The continuation lets the walk take a step.
pub open spec fn markup_stepping(kont: markup::Continue<BlockWriter>) -> bool {
    kont.fold_action matches markup::FoldAction::Step(fold_kont) && fold_kont.plan_action is Step
}

/// The second pass can go on: the walk takes a step when it does, or the
/// visit of a level that waited for the tree's header is due, and belongs
/// to the step `event` of the walk.
pub open spec fn write_ready(
    context: WriteContext,
    kont: WriteContinue,
    event: Option<plan::Event>,
) -> bool {
    match kont.fold_action {
        WriteFoldAction::Idle(op) => {
            &&& op.linked(event)
            &&& op.visit() matches Visit::Level { level_index }
            &&& event matches Some(ev)
            &&& ev.op is BlockStart
            &&& ev.level_index == level_index
            &&& ev.block_index == 0
            &&& write_in_step(context, Some(level_index))
            &&& !(cursor_of(context.fold().plan()@, level_index).block_cursor is Begin)
            &&& cursor_of(context.fold().plan()@, level_index).block_index == 0
            &&& context.fold().plan()@.level_curr < context.fold().plan()@.cursors.len()
            &&& context.fold().plan()@.cursors[context.fold().plan()@.level_curr
                as int].block_cursor is Write
            &&& context.fold().plan()@.cursors[context.fold().plan()@.level_curr
                as int].level_index == level_index
        },
        WriteFoldAction::Step(fold_kont) => fold_kont.plan_action
            is Step && write_in_step(context, None),
    }
}

/// The pass that is under way.
enum Pass {
    Markup(MarkupPass),
    Write(WritePass),
}

/// The buffer of the tree, and block buffers to use again.
struct Inner {
    memory: Vec<u8>,
    available_blocks: Vec<Vec<u8>>,
    /// The sizes of the blocks as the first pass has flushed them, in
    /// order.
    sizes: Vec<usize>,
    /// How many blocks the second pass has flushed.
    flushed: usize,
}

/// The sizes that are kept and not yet used: of the blocks that the first
/// pass has flushed, in order, without those that the second pass has
/// flushed again.
closed spec fn sizes_kept(inner: Inner) -> Seq<usize> {
    if inner.flushed <= inner.sizes@.len() {
        inner.sizes@.skip(inner.flushed as int)
    } else {
        Seq::empty()
    }
}

/// A tree in memory that is being built.
pub struct InMemory<'s> {
    sketch: &'s sketch::Tree,
    pass: Pass,
    inner: Inner,
}

/// What the caller is asked to do: to go on with the first pass or with the
/// second, to write an item into a block, to flush a block, or to take the
/// finished tree.
pub enum Instruction<'s> {
    PassMarkup(InMemory<'s>),
    PassWrite(InMemory<'s>),
    WriteItem(WriteItem<'s>),
    FlushBlock(FlushBlockNext<'s>),
    Done(Vec<u8>),
}

/// The request to write an item into the block.
pub struct WriteItem<'s> {
    pub block_writer: BlockWriter,
    pub next: WriteItemNext<'s>,
}

/// What is to be done once the caller has written an item.
enum WriteItemPass {
    Markup { context: MarkupContext, next: markup::WriteItemNext<BlockWriter>, child_pending: bool },
    Write {
        context: WriteContext,
        next: crate::writer::two_pass::write::WriteItemNext<BlockWriter>,
        child_block_offset: Option<usize>,
    },
}

/// The way on once the item is written.
pub struct WriteItemNext<'s> {
    sketch: &'s sketch::Tree,
    pass: WriteItemPass,
    size_before: usize,
    inner: Inner,
}

/// What is to be done once the caller has dealt with a block's bytes.
enum FlushBlockPass {
    Markup { context: MarkupContext, next: markup::FinishBlockNext<BlockWriter> },
    Write {
        context: WriteContext,
        next: crate::writer::two_pass::write::FlushBlockNext<BlockWriter>,
        block_start_offset: usize,
        block_end_offset: usize,
    },
}

/// The request to flush a block, and the way on.
pub struct FlushBlockNext<'s> {
    sketch: &'s sketch::Tree,
    pass: FlushBlockPass,
    block_index: usize,
    block: Vec<u8>,
    inner: Inner,
}

/// The walk over a tree starts in step with a fold that has visited
/// nothing.
proof fn lemma_fresh_in_step<S>(sketch_levels: Seq<sketch::Level>, items_total: usize, block_size: usize)
    requires
        block_size >= 1,
        sketch_levels == sketch::layout(items_total as nat, block_size as nat, 0),
    ensures
        valid(plan::initial(sketch_levels, block_size)),
        indexed(plan::initial(sketch_levels, block_size)),
        in_step(
            Seq::new(sketch_levels.len(), |i: int| Some(LevelState::<S>::Bootstrap)),
            plan::initial(sketch_levels, block_size),
        ),
{
    let s = plan::initial(sketch_levels, block_size);
    crate::writer::script::lemma_layout_shaped(items_total, block_size);
    crate::writer::script::lemma_initial_on_course(sketch_levels, block_size);
    assert forall|j: int| 0 <= j < s.cursors.len() implies (#[trigger] s.cursors[j]).level_index
        == s.cursors.len() - 1 - j by {
        assert(sketch_levels[sketch_levels.len() - 1 - j].index == sketch_levels.len() - 1 - j);
    }
}

/// Starts a tree in memory: the buffer gets its magic number and the shape
/// of the tree, and the first pass can begin, with its walk at the start.
/// This does not fail.
pub fn build<'s>(sketch: &'s sketch::Tree) -> (result: Result<Instruction<'s>, Error>)
    ensures
        result matches Ok(Instruction::PassMarkup(fsm)) && {
            &&& !fsm.writing()
            &&& fsm.shape() == *sketch
            &&& fsm.walk() == plan::initial(sketch.spec_levels(), sketch.spec_block_size())
            &&& fsm.measures() == measures_none(sketch.spec_levels().len())
            &&& fsm.sizes().len() == 0
            &&& fsm.memory() == header_bytes(
                sketch.spec_levels(),
                sketch.spec_block_size(),
                sketch.spec_items_total(),
            )
            &&& fsm.child_due() is None
            &&& forall|level: usize| (#[trigger] fsm.block_of(level)) is None
        },
{
    let mut memory: Vec<u8> = Vec::new();
    let levels = sketch.levels();
    if put_u64(&mut memory, MAGIC).is_err() {
        return Err(Error::Encode);
    }
    assert(memory@ =~= spec_u64_to_le_bytes(MAGIC));
    if put_u64(&mut memory, levels.len() as u64).is_err() {
        return Err(Error::Encode);
    }
    let ghost front = memory@;
    let mut i: usize = 0;
    while i < levels.len()
        invariant
            i <= levels.len(),
            memory@ == front + levels_bytes(levels@.subrange(0, i as int)),
        decreases levels.len() - i,
    {
        let ghost done = levels@.subrange(0, i as int);
        let ghost more = levels@.subrange(0, i + 1);
        proof {
            assert(more.drop_last() =~= done);
            assert(more.last() == levels@[i as int]);
        }
        if put_u64(&mut memory, levels[i].index as u64).is_err() {
            return Err(Error::Encode);
        }
        if put_u64(&mut memory, levels[i].blocks_count as u64).is_err() {
            return Err(Error::Encode);
        }
        if put_u64(&mut memory, levels[i].items_count as u64).is_err() {
            return Err(Error::Encode);
        }
        assert(memory@ =~= front + levels_bytes(more));
        i = i + 1;
    }
    assert(levels@.subrange(0, levels.len() as int) =~= levels@);
    let block_size = sketch.block_size();
    if put_u64(&mut memory, block_size as u64).is_err() {
        return Err(Error::Encode);
    }
    if put_u64(&mut memory, sketch.items_total() as u64).is_err() {
        return Err(Error::Encode);
    }
    assert(memory@ =~= header_bytes(
        sketch.spec_levels(),
        sketch.spec_block_size(),
        sketch.spec_items_total(),
    ));
    proof {
        lemma_fresh_in_step::<MarkupSeed>(
            sketch.spec_levels(),
            sketch.spec_items_total(),
            sketch.spec_block_size(),
        );
        lemma_steady_start(
            sketch.spec_levels(),
            sketch.spec_items_total(),
            sketch.spec_block_size(),
        );
    }
    let context = markup::Context::new(fold::Context::new(plan::Context::new(sketch), sketch));
    Ok(
        Instruction::PassMarkup(
            InMemory {
                sketch,
                pass: Pass::Markup(MarkupPass { context, kont: markup::Script::boot() }),
                inner: Inner { memory, available_blocks: Vec::new(), sizes: Vec::new(), flushed: 0 },
            },
        ),
    )
}

impl Inner {
    /// A block buffer: the one that was put aside last, which is then no
    /// longer kept, or an empty new one where none is kept.
    fn take_block(&mut self) -> (block: Vec<u8>)
        ensures
            final(self).memory@ == old(self).memory@,
            final(self).sizes == old(self).sizes,
            final(self).flushed == old(self).flushed,
            old(self).available_blocks@.len() > 0 ==> {
                &&& block == old(self).available_blocks@.last()
                &&& final(self).available_blocks@ == old(self).available_blocks@.drop_last()
            },
            old(self).available_blocks@.len() == 0 ==> {
                &&& block@.len() == 0
                &&& final(self).available_blocks@.len() == 0
            },
    {
        match self.available_blocks.pop() {
            Some(block) => block,
            None => Vec::new(),
        }
    }
}

/// What the first pass has measured of a level in state `state`: the sizes
/// of its finished blocks, added up.
pub open spec fn markup_measured(state: Option<LevelState<MarkupSeed>>) -> usize {
    match state {
        Some(LevelState::SeenVisitLevel { level_seed }) => level_seed.level_size,
        Some(LevelState::SeenVisitBlockStart { level_seed, .. }) => level_seed.level_size,
        Some(LevelState::SeenVisitBlockFinish { level_seed }) => level_seed.level_size,
        _ => 0,
    }
}

/// The measures that the first pass has taken of the levels `levels`, root
/// first; `out` is the level whose seed is out, if one is, with what was
/// measured of it.
pub open spec fn markup_measures(
    levels: Seq<Option<LevelState<MarkupSeed>>>,
    out: Option<(usize, usize)>,
) -> Seq<LevelCoords<usize>> {
    Seq::new(
        levels.len(),
        |i: int|
            LevelCoords {
                index: i as usize,
                header_size: 0,
                total_size: match out {
                    Some((hole, size)) => if i == hole {
                        size
                    } else {
                        markup_measured(levels[i])
                    },
                    None => markup_measured(levels[i]),
                },
            },
    )
}

/// The measures before any block is finished: every level is empty.
pub open spec fn measures_none(levels: nat) -> Seq<LevelCoords<usize>> {
    Seq::new(levels, |i: int| LevelCoords { index: i as usize, header_size: 0, total_size: 0 })
}

/// What the caller is asked for next when the walk stands at `s`: the
/// walk's next step, or the one behind it where the next one starts a
/// block, which the backend does by itself.
pub open spec fn due(s: plan::State) -> Option<plan::Event> {
    match next_event(s) {
        Some(event) => if event.op is BlockStart {
            next_event(next_state(s))
        } else {
            Some(event)
        },
        None => None,
    }
}

/// Where the walk stands once the caller was asked for what is due at `s`.
pub open spec fn past_due(s: plan::State) -> plan::State {
    match next_event(s) {
        Some(event) => if event.op is BlockStart {
            next_state(next_state(s))
        } else {
            next_state(s)
        },
        None => s,
    }
}

/// Where in the second pass the block of level `level_index` starts that is
/// open, or that comes next: a level that has no block yet starts behind
/// the tree's header and the levels before it.
pub open spec fn write_reach(context: WriteContext, level_index: usize) -> int {
    let levels = context.fold().levels();
    if level_index < levels.len() {
        match levels[level_index as int] {
            Some(LevelState::SeenVisitLevel { level_seed }) => level_seed.block_offset as int,
            Some(LevelState::SeenVisitBlockStart { level_seed, .. }) => level_seed.block_offset as int,
            Some(LevelState::SeenVisitBlockFinish { level_seed }) => level_seed.block_offset as int,
            _ => level_offset(
                context.tree_offset(),
                context.tree_header_size(),
                context.coords(),
                level_index,
            ),
        }
    } else {
        0
    }
}

/// The failure that `next` ends in, if it does: the tree is too large for
/// its offsets at the end of the first pass, a block of the second pass
/// would start too far out for its header, a block that is to be flushed
/// has more items than its header can say, or in the second pass it was
/// not measured, or measured smaller than it is now, or its place ends
/// beyond the range of offsets.
pub open spec fn failure<'s>(before: InMemory<'s>) -> Option<Error> {
    match due(before.walk()) {
        None => if !before.writing() && before.measures().len() > 0
            && before.shape().spec_levels().len() > 0 && !fits(
            0,
            before.memory().len() as usize,
            before.measures(),
        ) {
            Some(Error::TooLarge)
        } else {
            None
        },
        Some(event) => match event.op {
            plan::Op::BlockItem { .. } => if before.writing() && before.block_of(event.level_index)
                is None && before.reach(event.level_index) > usize::MAX - 4 {
                Some(Error::TooLarge)
            } else {
                None
            },
            plan::Op::BlockFinish => match before.block_of(event.level_index) {
                Some(block) => if block.items_count() > u32::MAX {
                    Some(Error::BlockTooLong { items_count: block.items_count() })
                } else if !before.writing() {
                    None
                } else if before.sizes().len() == 0 {
                    Some(Error::BlockSizeMismatch { block_size: block@.len() as usize, place_size: 0 })
                } else if before.sizes()[0] < block@.len() {
                    Some(
                        Error::BlockSizeMismatch {
                            block_size: block@.len() as usize,
                            place_size: before.sizes()[0],
                        },
                    )
                } else if before.reach(event.level_index) + before.sizes()[0] > usize::MAX {
                    Some(Error::TooLarge)
                } else {
                    None
                },
                None => None,
            },
            plan::Op::BlockStart { .. } => None,
        },
    }
}

/// What `next` answers with: the instruction is the one that is due in the
/// walk, and a failure is the one that `failure` names.
pub open spec fn answers<'s>(before: InMemory<'s>, result: Result<Instruction<'s>, Error>) -> bool {
    let walk = before.walk();
    match result {
        Ok(Instruction::PassMarkup(_)) => false,
        Ok(Instruction::PassWrite(fsm)) => {
            &&& !before.writing()
            &&& due(walk) is None
            &&& before.measures().len() > 0
            &&& before.shape().spec_levels().len() > 0
            &&& fits(0, before.memory().len() as usize, before.measures())
            &&& fsm.writing()
            &&& fsm.shape() == before.shape()
            &&& fsm.measures() == before.measures()
            &&& fsm.sizes() == before.sizes()
            &&& fsm.walk() == next_state(
                plan::initial(before.shape().spec_levels(), before.shape().spec_block_size()),
            )
            &&& fsm.memory().len() == before.memory().len() + total_before(
                before.measures(),
                before.measures().len() as int,
            )
            &&& fsm.memory().subrange(0, before.memory().len() as int) == before.memory()
            &&& forall|i: int|
                before.memory().len() <= i < fsm.memory().len() ==> fsm.memory()[i] == 0xff
            &&& fsm.child_due() is None
            &&& forall|level: usize| (#[trigger] fsm.block_of(level)) is None
            &&& forall|level: usize|
                level < before.shape().spec_levels().len() ==> #[trigger] fsm.reach(level)
                    == level_offset(0, before.memory().len() as usize, before.measures(), level)
        },
        Ok(Instruction::WriteItem(item)) => {
            &&& due(walk) matches Some(event)
            &&& event.op is BlockItem
            &&& event.level_index == item.next.level_index()
            &&& event.block_index == item.next.block_index()
            &&& item.next.walk() == past_due(walk)
            &&& item.next.shape() == before.shape()
            &&& item.next.measures() == before.measures()
            &&& item.next.sizes() == before.sizes()
            &&& item.next.memory() == before.memory()
            &&& item.next.writing() == before.writing()
            &&& item.next.size_before() == item.block_writer@.len()
            &&& item.next.child() == before.child_due()
            &&& match before.block_of(item.next.level_index()) {
                Some(block) => item.block_writer == block,
                None => fresh_block(item.block_writer),
            }
            &&& forall|other: usize|
                other != item.next.level_index() ==> #[trigger] item.next.block_of(other)
                    == before.block_of(other)
            &&& forall|level: usize| #[trigger] item.next.reach(level) == before.reach(level)
        },
        Ok(Instruction::FlushBlock(flush)) => {
            &&& due(walk) matches Some(event)
            &&& event.op is BlockFinish
            &&& event.level_index == flush.level_index()
            &&& event.block_index == flush.block_index()
            &&& flush.walk() == past_due(walk)
            &&& flush.shape() == before.shape()
            &&& flush.measures() == before.measures()
            &&& !before.writing() ==> flush.measured() == before.measures()[flush.level_index() as int].total_size
            &&& flush.memory() == before.memory()
            &&& flush.writing() == before.writing()
            &&& flush.sizes() == before.sizes()
            &&& flush.writing() ==> {
                &&& before.sizes().len() > 0
                &&& flush.place().0 == before.reach(flush.level_index())
                &&& flush.place().1 == flush.place().0 + before.sizes()[0]
                &&& flush.block().len() <= before.sizes()[0]
            }
            &&& before.block_of(flush.level_index()) matches Some(block)
            &&& flush.block() == spec_u32_to_le_bytes(block.items_count() as u32) + block@.skip(4)
            &&& flush.block().len() == block@.len()
            &&& forall|other: usize|
                other != flush.level_index() ==> #[trigger] flush.block_of(other)
                    == before.block_of(other)
            &&& forall|level: usize| #[trigger] flush.reach(level) == before.reach(level)
        },
        Ok(Instruction::Done(memory)) => {
            &&& due(walk) is None
            &&& before.writing() || before.measures().len() == 0
                || before.shape().spec_levels().len() == 0
            &&& memory@ == before.memory()
        },
        Err(error) => failure(before) == Some(error),
    }
}

impl<'s> InMemory<'s> {
    /// The buffer of the tree.
    pub closed spec fn memory(&self) -> Seq<u8> {
        self.inner.memory@
    }

    /// Whether the second pass is under way.
    pub closed spec fn writing(&self) -> bool {
        self.pass is Write
    }

    /// The shape of the tree that is built.
    pub closed spec fn shape(&self) -> sketch::Tree {
        *self.sketch
    }

    /// The sizes of the blocks as the first pass has flushed them, in
    /// order; in the second pass, of those that it has yet to flush.
    pub closed spec fn sizes(&self) -> Seq<usize> {
        sizes_kept(self.inner)
    }

    /// Where the walk of the pass that is under way stands.
    pub closed spec fn walk(&self) -> plan::State {
        match self.pass {
            Pass::Markup(pass) => pass.context.fold().plan()@,
            Pass::Write(pass) => pass.context.fold().plan()@,
        }
    }

    /// The measures of the levels, root first: for each its index and the
    /// sum of the sizes of the blocks that were flushed on it in the first
    /// pass. The second pass keeps them as the first one took them.
    pub closed spec fn measures(&self) -> Seq<LevelCoords<usize>> {
        match self.pass {
            Pass::Markup(pass) => markup_measures(pass.context.fold().levels(), None),
            Pass::Write(pass) => pass.context.coords(),
        }
    }

    /// Where in the buffer the block of level `level_index` starts that is
    /// open, or that comes next. The first pass has no places.
    pub closed spec fn reach(&self, level_index: usize) -> int {
        match self.pass {
            Pass::Markup(_) => 0,
            Pass::Write(pass) => write_reach(pass.context, level_index),
        }
    }

    /// The block that is open on level `level_index`, if one is.
    pub closed spec fn block_of(&self, level_index: usize) -> Option<BlockWriter> {
        match self.pass {
            Pass::Markup(pass) => markup_block_of(pass.context, level_index),
            Pass::Write(pass) => write_block_of(pass.context, level_index),
        }
    }

    /// What is written behind the next item as the offset of the block
    /// below it: the place of the block that was flushed since the last
    /// item, if one was; in the first pass a placeholder for it.
    pub closed spec fn child_due(&self) -> Option<usize> {
        match self.pass {
            Pass::Markup(pass) => markup_child(pass.context),
            Pass::Write(pass) => pass.context.recent_block_offset(),
        }
    }

    /// The pass is in step with the walk.
    #[verifier::type_invariant]
    closed spec fn well_formed(&self) -> bool {
        &&& !self.writing() ==> steady(self.walk(), self.sketch.spec_levels())
        &&& self.inner.flushed <= self.inner.sizes@.len()
        &&& !self.writing() ==> self.inner.flushed == 0
        &&& match self.pass {
            Pass::Markup(pass) => markup_in_step(pass.context, None) && markup_stepping(pass.kont),
            Pass::Write(pass) => write_ready(pass.context, pass.kont, pass.event@),
        }
    }

    /// Goes on until the caller has something to do, which is what is due
    /// in the walk: an item to write, a block to flush, or, where the walk
    /// is over, to take note that the second pass begins or that the tree
    /// is complete. A block that starts is made on the way. The buffer is
    /// left alone but where the second pass begins: there it grows to the
    /// size of the tree, filled up with `0xff`. The passes themselves do
    /// not fail: it takes a tree or a block that is too large.
    pub fn next(self) -> (result: Result<Instruction<'s>, Error>)
        ensures
            answers(self, result),
            result is Err <==> failure(self) is Some,
    {
        proof {
            use_type_invariant(&self);
        }
        let InMemory { sketch, pass, inner } = self;
        match pass {
            Pass::Markup(pass) => InMemory::next_markup(sketch, pass, inner),
            Pass::Write(pass) => InMemory::next_write(sketch, pass, inner),
        }
    }

    /// Gives the first pass a block for the level that waits for one.
    fn markup_block(
        task: markup::AllocBlock<BlockWriter>,
        context: &mut MarkupContext,
        store: &mut Inner,
    ) -> (result: Result<markup::Continue<BlockWriter>, Error>)
        requires
            markup_in_step(*old(context), Some(task.next.fold_next().level_index())),
            !(cursor_of(
                old(context).fold().plan()@,
                task.next.fold_next().level_index(),
            ).block_cursor is Begin),
            cursor_of(
                old(context).fold().plan()@,
                task.next.fold_next().level_index(),
            ).block_index == task.next.fold_next().block_index(),
            task.next.level_seed().level_header_size == 0,
        ensures
            final(store).memory@ == old(store).memory@,
            final(store).sizes == old(store).sizes,
            final(store).flushed == old(store).flushed,
            final(context).fold().plan() == old(context).fold().plan(),
            final(context).child_pending() == old(context).child_pending(),
            result is Ok,
            result matches Ok(kont) ==> {
                &&& markup_in_step(*final(context), None)
                &&& markup_stepping(kont)
                &&& others_same(
                    old(context).fold().levels(),
                    final(context).fold().levels(),
                    task.next.fold_next().level_index(),
                )
                &&& markup_block_of(*final(context), task.next.fold_next().level_index())
                    matches Some(block)
                &&& fresh_block(block)
                &&& markup_measured(
                    final(context).fold().levels()[task.next.fold_next().level_index() as int],
                ) == task.next.level_seed().level_size
            },
    {
        proof {
            vstd::bytes::lemma_auto_spec_u32_to_from_le_bytes();
        }
        let block_writer = match BlockWriter::new(store.take_block()) {
            Ok(block_writer) => block_writer,
            Err(error) => {
                return Err(error);
            },
        };
        let ghost levels = context.fold().levels();
        let ghost hole = task.next.fold_next().level_index();
        let ghost state = LevelState::SeenVisitBlockStart {
            level_seed: markup::LevelSeed {
                active_block: Some(block_writer),
                ..task.next.level_seed()
            },
            block_index: task.next.fold_next().block_index(),
        };
        proof {
            lemma_filled_in_step(levels, context.fold().plan()@, hole, state);
        }
        match task.next.block_ready(block_writer, context) {
            Ok(kont) => {
                proof {
                    let after = context.fold().levels();
                    assert forall|i: int| 0 <= i < after.len() implies markup_state_ok(
                        #[trigger] after[i],
                    ) by {
                        if i != hole {
                            assert(markup_state_ok(levels[i]));
                        }
                    }
                }
                Ok(kont)
            },
            Err(_) => {
                proof {
                    assert(false);
                }
                return vstd::pervasive::unreached();
            },
        }
    }

    /// The first pass, until the caller has something to do or the pass is
    /// over and the second one begins.
    fn next_markup(sketch: &'s sketch::Tree, pass: MarkupPass, inner: Inner) -> (result: Result<
        Instruction<'s>,
        Error,
    >)
        requires
            markup_in_step(pass.context, None),
            markup_stepping(pass.kont),
            steady(pass.context.fold().plan()@, sketch.spec_levels()),
            inner.flushed == 0,
        ensures
            answers(InMemory { sketch, pass: Pass::Markup(pass), inner }, result),
            result is Err <==> failure(InMemory { sketch, pass: Pass::Markup(pass), inner }) is Some,
    {
        let MarkupPass { context, kont } = pass;
        let mut context = context;
        let mut kont = kont;
        let mut store = inner;
        let ghost first = pass.context.fold().levels();
        let ghost start = pass.context.fold().plan()@;
        let ghost mut made: Option<usize> = None;
        loop
            invariant
                markup_in_step(context, None),
                markup_stepping(kont),
                steady(context.fold().plan()@, sketch.spec_levels()),
                store.memory@ == inner.memory@,
                store.sizes == inner.sizes,
                store.flushed == inner.flushed,
                inner.flushed == 0,
                first == pass.context.fold().levels(),
                start == pass.context.fold().plan()@,
                markup_measures(context.fold().levels(), None) == markup_measures(first, None),
                context.child_pending() == pass.context.child_pending(),
                match made {
                    None => context.fold().levels() == first && context.fold().plan()@ == start,
                    Some(level) => {
                        let s = context.fold().plan()@;
                        &&& next_event(start) matches Some(event)
                        &&& event.op is BlockStart
                        &&& s == next_state(start)
                        &&& others_same(first, context.fold().levels(), level)
                        &&& level < first.len()
                        &&& markup_block_in(first[level as int]) is None
                        &&& markup_block_of(context, level) matches Some(block)
                        &&& fresh_block(block)
                        &&& s.level_curr < s.cursors.len()
                        &&& s.cursors[s.level_curr as int].block_cursor is Write
                        &&& s.cursors[s.level_curr as int].level_index == level
                    },
                },
            decreases work(context.fold().plan()@.cursors),
        {
            let ghost s = context.fold().plan()@;
            let ghost event = next_event(s);
            let ghost levels = context.fold().levels();
            proof {
                if s.level_curr < s.cursors.len() {
                    lemma_step_works(s);
                    lemma_steady_step(s, sketch.spec_levels());
                    lemma_visit_in_step(levels, s);
                    assert(markup_state_ok(levels[event.unwrap().level_index as int]));
                }
                assert(kont.links(context.fold(), event));
            }
            match kont.step_rec(&mut context) {
                Err(_) => {
                    proof {
                        assert(false);
                    }
                    return vstd::pervasive::unreached();
                },
                Ok(markup::Instruction::Op(markup::Op::LevelHeaderSize(task))) => {
                    let ghost hole = task.level_index;
                    let ready = match task.next.level_header_size(0, &mut context) {
                        Ok(ready) => ready,
                        Err(_) => {
                            proof {
                                assert(false);
                            }
                            return vstd::pervasive::unreached();
                        },
                    };
                    assert(ready.links(context.fold(), event));
                    match ready.step_rec(&mut context) {
                        Ok(markup::Instruction::Op(markup::Op::AllocBlock(task))) => {
                            proof {
                                let after = context.fold().levels();
                                assert(after =~= levels.update(hole as int, None));
                                assert forall|i: int| 0 <= i < after.len() implies markup_state_ok(
                                    #[trigger] after[i],
                                ) by {
                                    if i != hole {
                                        assert(markup_state_ok(levels[i]));
                                    }
                                }
                            }
                            match InMemory::markup_block(task, &mut context, &mut store) {
                                Ok(next) => {
                                    kont = next;
                                    proof {
                                        assert(made is None);
                                        made = Some(hole);
                                    }
                                },
                                Err(error) => {
                                    return Err(error);
                                },
                            }
                        },
                        _ => {
                            proof {
                                assert(false);
                            }
                            return vstd::pervasive::unreached();
                        },
                    }
                },
                Ok(markup::Instruction::Op(markup::Op::AllocBlock(task))) => {
                    proof {
                        let after = context.fold().levels();
                        assert forall|i: int| 0 <= i < after.len() implies markup_state_ok(
                            #[trigger] after[i],
                        ) by {
                            if i != task.level_index {
                                assert(markup_state_ok(levels[i]));
                            }
                        }
                    }
                    let ghost hole = task.level_index;
                    match InMemory::markup_block(task, &mut context, &mut store) {
                        Ok(next) => {
                            kont = next;
                            proof {
                                assert(made is None);
                                made = Some(hole);
                            }
                        },
                        Err(error) => {
                            return Err(error);
                        },
                    }
                },
                Ok(markup::Instruction::Op(markup::Op::WriteItem(task))) => {
                    proof {
                        let after = context.fold().levels();
                        assert forall|i: int| 0 <= i < after.len() implies markup_state_ok(
                            #[trigger] after[i],
                        ) by {
                            if i != task.level_index {
                                assert(markup_state_ok(levels[i]));
                            }
                        }
                    }
                    proof {
                        assert(markup_measures(
                            context.fold().levels(),
                            Some((task.level_index, task.next.level_seed().level_size)),
                        ) =~= markup_measures(first, None));
                    }
                    let size_before = task.block.get_ref().len();
                    return Ok(
                        Instruction::WriteItem(
                            WriteItem {
                                block_writer: task.block,
                                next: WriteItemNext {
                                    sketch,
                                    pass: WriteItemPass::Markup {
                                        context,
                                        next: task.next,
                                        child_pending: task.child_pending,
                                    },
                                    size_before,
                                    inner: store,
                                },
                            },
                        ),
                    );
                },
                Ok(markup::Instruction::Op(markup::Op::FinishBlock(task))) => {
                    proof {
                        let after = context.fold().levels();
                        assert forall|i: int| 0 <= i < after.len() implies markup_state_ok(
                            #[trigger] after[i],
                        ) by {
                            if i != task.level_index {
                                assert(markup_state_ok(levels[i]));
                            }
                        }
                    }
                    proof {
                        assert(markup_measures(
                            context.fold().levels(),
                            Some((task.level_index, task.next.level_seed().level_size)),
                        ) =~= markup_measures(first, None));
                    }
                    let block = match task.block.seal() {
                        Ok(block) => block,
                        Err(error) => {
                            return Err(error);
                        },
                    };
                    return Ok(
                        Instruction::FlushBlock(
                            FlushBlockNext {
                                sketch,
                                pass: FlushBlockPass::Markup { context, next: task.next },
                                block_index: task.block_index,
                                block,
                                inner: store,
                            },
                        ),
                    );
                },
                Ok(markup::Instruction::Done) => {
                    return InMemory::begin_write(
                        sketch,
                        MarkupPass { context, kont: markup::Script::boot() },
                        store,
                    );
                },
            }
        }
    }

    /// The step from the first pass to the second: with the levels
    /// measured, the buffer grows to the size of the tree, and its header
    /// counts as written. A tree without levels is complete as it is.
    fn begin_write(sketch: &'s sketch::Tree, pass: MarkupPass, inner: Inner) -> (result: Result<
        Instruction<'s>,
        Error,
    >)
        requires
            markup_in_step(pass.context, None),
            next_event(pass.context.fold().plan()@) is None,
            steady(pass.context.fold().plan()@, sketch.spec_levels()),
            inner.flushed == 0,
        ensures
            answers(InMemory { sketch, pass: Pass::Markup(pass), inner }, result),
            result is Err <==> failure(InMemory { sketch, pass: Pass::Markup(pass), inner }) is Some,
    {
        let ghost before = InMemory { sketch, pass: Pass::Markup(pass), inner };
        let MarkupPass { context, kont: _ } = pass;
        let mut inner = inner;
        let ghost memory = inner.memory@;
        let ghost measured = context.fold().levels();
        let coords = context.into_level_coords_iter();
        proof {
            lemma_flushed_headers(measured);
            let s = context.fold().plan()@;
            assert forall|i: int| 0 <= i < measured.len() implies (#[trigger] measured[i]) matches Some(
                LevelState::SeenVisitBlockFinish { .. },
            ) by {
                let k = measured.len() - 1 - i;
                lemma_steady_end(s, sketch.spec_levels(), k);
                assert(state_fits(measured[measured.len() - 1 - k], s.cursors[k]));
            }
            crate::writer::folding::lemma_flushed_all(measured);
            assert forall|i: int| 0 <= i < measured.len() implies markup::coords_of(
                fold::flushed_seeds(measured),
            )[i] == markup_measures(measured, None)[i] by {
                assert(markup_state_ok(measured[i]));
                assert(fold::flushed_seeds(measured)[i] == (
                    i as usize,
                    crate::writer::folding::seed_of(measured[i]).unwrap(),
                ));
            }
            assert(coords@ =~= markup_measures(measured, None));
        }
        let block_size = sketch.block_size();
        if coords.len() == 0 || sketch.levels().len() == 0 {
            return Ok(Instruction::Done(inner.memory));
        }
        let tree_header_size = inner.memory.len();
        if !WriteContext::fits_in(0, tree_header_size, &coords) {
            return Err(Error::TooLarge);
        }
        proof {
            lemma_fresh_in_step::<WriteSeed>(
                sketch.spec_levels(),
                sketch.spec_items_total(),
                sketch.spec_block_size(),
            );
        }
        let fold_ctx = fold::Context::new(plan::Context::new(sketch), sketch);
        let mut context = match WriteContext::new(fold_ctx, 0, tree_header_size, coords) {
            Ok(context) => context,
            Err(_) => {
                proof {
                    assert(false);
                }
                return vstd::pervasive::unreached();
            },
        };
        let kont = crate::writer::two_pass::write::Script::boot();
        let ghost s = context.fold().plan()@;
        let ghost levels = context.fold().levels();
        let ghost event = next_event(s);
        proof {
            assert(kont.links(context.fold(), event));
            if s.level_curr < s.cursors.len() {
                lemma_visit_in_step(levels, s);
            }
        }
        let header = match kont.step_rec(&mut context) {
            Ok(
                WriteInstruction::Op(
                    WriteOp::WriteTreeHeader(header),
                ),
            ) => header,
            _ => {
                proof {
                    assert(false);
                }
                return vstd::pervasive::unreached();
            },
        };
        proof {
            crate::writer::two_pass::write::lemma_total_before_grows(
                context.coords(),
                0,
                context.coords().len() as int,
            );
        }
        assert(header.tree_total_size == memory.len() + total_before(
            context.coords(),
            context.coords().len() as int,
        ));
        while inner.memory.len() < header.tree_total_size
            invariant
                memory.len() <= inner.memory@.len(),
                inner.memory@.len() <= header.tree_total_size,
                memory.len() <= header.tree_total_size,
                inner.memory@.subrange(0, memory.len() as int) == memory,
                inner.sizes == before.inner.sizes,
                inner.flushed == 0,
                forall|i: int| memory.len() <= i < inner.memory@.len() ==> inner.memory@[i] == 0xff,
            decreases header.tree_total_size - inner.memory.len(),
        {
            let ghost before = inner.memory@;
            inner.memory.push(0xff);
            assert(inner.memory@.subrange(0, memory.len() as int) =~= before.subrange(
                0,
                memory.len() as int,
            ));
        }
        let ghost waiting = header.next.fold_next();
        let kont = match header.next.tree_header_written(tree_header_size, &mut context) {
            Ok(kont) => kont,
            Err(_) => {
                proof {
                    assert(false);
                }
                return vstd::pervasive::unreached();
            },
        };
        proof {
            // a walk with levels starts on its deepest level, which was
            // never visited
            assert(s.level_curr < s.cursors.len());
            let after = context.fold().levels();
            assert forall|i: int| 0 <= i < after.len() implies write_state_ok(
                #[trigger] after[i],
            ) by {
                if i != event.unwrap().level_index {
                    assert(levels[i] == Some(LevelState::<WriteSeed>::Bootstrap));
                }
            }
        }
        let fsm = InMemory {
            sketch,
            pass: Pass::Write(WritePass { context, kont, event: Ghost(event) }),
            inner,
        };
        proof {
            assert(fsm.measures() == before.measures());
            assert(fsm.walk() == next_state(
                plan::initial(sketch.spec_levels(), sketch.spec_block_size()),
            ));
            assert(fsm.memory().len() == before.memory().len() + total_before(
                before.measures(),
                before.measures().len() as int,
            ));
            assert(fsm.child_due() is None);
            assert forall|level: usize| (#[trigger] fsm.block_of(level)) is None by {}
            assert forall|level: usize| level < sketch.spec_levels().len() implies #[trigger] fsm.reach(
                level,
            ) == level_offset(0, before.memory().len() as usize, before.measures(), level) by {}
        }
        Ok(Instruction::PassWrite(fsm))
    }

    /// Gives the second pass a block for the level that waits for one, with
    /// its header in it.
    fn write_block(
        task: crate::writer::two_pass::write::WriteBlockHeader<BlockWriter>,
        context: &mut WriteContext,
        store: &mut Inner,
    ) -> (result: Result<WriteContinue, Error>)
        requires
            write_in_step(*old(context), Some(task.next.fold_next().level_index())),
            !(cursor_of(
                old(context).fold().plan()@,
                task.next.fold_next().level_index(),
            ).block_cursor is Begin),
            cursor_of(
                old(context).fold().plan()@,
                task.next.fold_next().level_index(),
            ).block_index == task.next.fold_next().block_index(),
            task.next.level_seed().level_header_size == 0,
            task.next.level_seed().cursor == task.next.level_seed().block_offset,
        ensures
            final(store).memory@ == old(store).memory@,
            final(store).sizes == old(store).sizes,
            final(store).flushed == old(store).flushed,
            final(context).fold().plan() == old(context).fold().plan(),
            final(context).recent_block_offset() == old(context).recent_block_offset(),
            final(context).same_place(old(context)),
            result is Err <==> task.next.level_seed().cursor > usize::MAX - 4,
            result matches Ok(kont) ==> {
                &&& write_ready(*final(context), kont, None)
                &&& write_reach(*final(context), task.next.fold_next().level_index())
                    == task.next.level_seed().block_offset
                &&& others_same(
                    old(context).fold().levels(),
                    final(context).fold().levels(),
                    task.next.fold_next().level_index(),
                )
                &&& write_block_of(*final(context), task.next.fold_next().level_index())
                    matches Some(block)
                &&& fresh_block(block)
            },
            result matches Err(error) ==> error is TooLarge,
    {
        let block_writer = match BlockWriter::new(store.take_block()) {
            Ok(block_writer) => block_writer,
            Err(error) => {
                return Err(error);
            },
        };
        proof {
            vstd::bytes::lemma_auto_spec_u32_to_from_le_bytes();
        }
        let header_size: usize = 4;
        if header_size > usize::MAX - task.next.cursor() {
            return Err(Error::TooLarge);
        }
        let ghost levels = context.fold().levels();
        let ghost hole = task.next.fold_next().level_index();
        let ghost state = LevelState::SeenVisitBlockStart {
            level_seed: WriteSeed {
                cursor: (task.next.level_seed().cursor + header_size) as usize,
                active_block: Some(block_writer),
                ..task.next.level_seed()
            },
            block_index: task.next.fold_next().block_index(),
        };
        proof {
            lemma_filled_in_step(levels, context.fold().plan()@, hole, state);
        }
        match task.next.block_header_written(block_writer, header_size, context) {
            Ok(kont) => {
                proof {
                    let after = context.fold().levels();
                    assert forall|i: int| 0 <= i < after.len() implies write_state_ok(
                        #[trigger] after[i],
                    ) by {
                        if i != hole {
                            assert(write_state_ok(levels[i]));
                        }
                    }
                }
                Ok(kont)
            },
            Err(_) => {
                proof {
                    assert(false);
                }
                return vstd::pervasive::unreached();
            },
        }
    }

    /// The second pass, until the caller has something to do or the tree is
    /// complete.
    fn next_write(sketch: &'s sketch::Tree, pass: WritePass, inner: Inner) -> (result: Result<
        Instruction<'s>,
        Error,
    >)
        requires
            write_ready(pass.context, pass.kont, pass.event@),
            inner.flushed <= inner.sizes@.len(),
        ensures
            answers(InMemory { sketch, pass: Pass::Write(pass), inner }, result),
            result is Err <==> failure(InMemory { sketch, pass: Pass::Write(pass), inner }) is Some,
    {
        let WritePass { context, kont, event } = pass;
        let mut context = context;
        let mut kont = kont;
        let mut store = inner;
        let ghost mut event = event@;
        let ghost first = pass.context.fold().levels();
        let ghost start = pass.context.fold().plan()@;
        let ghost mut made: Option<usize> = None;
        loop
            invariant
                write_ready(context, kont, event),
                store.memory@ == inner.memory@,
                store.sizes == inner.sizes,
                store.flushed == inner.flushed,
                inner.flushed <= inner.sizes@.len(),
                first == pass.context.fold().levels(),
                start == pass.context.fold().plan()@,
                context.same_place(&pass.context),
                match made {
                    None => context.fold().levels() == first && context.fold().plan()@ == start,
                    Some(level) => {
                        let s = context.fold().plan()@;
                        &&& due(start) == next_event(s)
                        &&& past_due(start) == next_state(s)
                        &&& write_block_of(pass.context, level) is None
                        &&& write_reach(context, level) == write_reach(pass.context, level)
                        &&& others_same(first, context.fold().levels(), level)
                        &&& level < first.len()
                        &&& write_block_in(first[level as int]) is None
                        &&& write_block_of(context, level) matches Some(block)
                        &&& fresh_block(block)
                        &&& kont.fold_action is Step
                        &&& s.level_curr < s.cursors.len()
                        &&& s.cursors[s.level_curr as int].block_cursor is Write
                        &&& s.cursors[s.level_curr as int].level_index == level
                    },
                },
            decreases
                    work(context.fold().plan()@.cursors),
                    if kont.fold_action is Idle {
                        1int
                    } else {
                        0int
                    },
        {
            let ghost s = context.fold().plan()@;
            let ghost levels = context.fold().levels();
            let ghost waited = kont.fold_action is Idle;
            proof {
                if kont.fold_action is Step {
                    event = next_event(s);
                    if s.level_curr < s.cursors.len() {
                        lemma_step_works(s);
                        lemma_visit_in_step(levels, s);
                        assert(write_state_ok(levels[event.unwrap().level_index as int]));
                    }
                }
                assert(kont.links(context.fold(), event));
            }
            match kont.step_rec(&mut context) {
                Ok(
                    WriteInstruction::Op(
                        WriteOp::WriteLevelHeader(task),
                    ),
                ) => {
                    let ghost hole = task.level_index;
                    proof {
                        crate::writer::two_pass::sizes::lemma_headers_none(
                            context.coords(),
                            task.level_index,
                        );
                        lemma_level_start(
                            context.tree_offset(),
                            context.tree_header_size(),
                            context.coords(),
                            task.level_index,
                        );
                    }
                    let ready = match task.next.level_header_written(0, &mut context) {
                        Ok(ready) => ready,
                        Err(_) => {
                            proof {
                                assert(false);
                            }
                            return vstd::pervasive::unreached();
                        },
                    };
                    assert(ready.links(context.fold(), event));
                    match ready.step_rec(&mut context) {
                        Ok(
                            WriteInstruction::Op(
                                WriteOp::WriteBlockHeader(task),
                            ),
                        ) => {
                            proof {
                                let after = context.fold().levels();
                                assert forall|i: int| 0 <= i < after.len() implies write_state_ok(
                                    #[trigger] after[i],
                                ) by {
                                    if i != hole {
                                        assert(write_state_ok(levels[i]));
                                    }
                                }
                            }
                            proof {
                                let seed = task.next.level_seed();
                                assert(made is None);
                                assert(task.next.fold_next().level_index() == hole);
                                assert(seed.cursor == seed.block_offset);
                                assert(write_block_of(pass.context, hole) is None);
                                assert(write_reach(pass.context, hole) == seed.block_offset);
                                assert(due(start) matches Some(ev) && ev.op is BlockItem
                                    && ev.level_index == hole);
                                assert(due(start) == next_event(context.fold().plan()@));
                                assert(past_due(start) == next_state(context.fold().plan()@));
                            }
                            match InMemory::write_block(task, &mut context, &mut store) {
                                Ok(next) => {
                                    kont = next;
                                    proof {
                                        event = None;
                                        made = Some(hole);
                                    }
                                },
                                Err(error) => {
                                    return Err(error);
                                },
                            }
                        },
                        _ => {
                            proof {
                                assert(false);
                            }
                            return vstd::pervasive::unreached();
                        },
                    }
                },
                Ok(
                    WriteInstruction::Op(
                        WriteOp::WriteBlockHeader(task),
                    ),
                ) => {
                    proof {
                        let after = context.fold().levels();
                        assert forall|i: int| 0 <= i < after.len() implies write_state_ok(
                            #[trigger] after[i],
                        ) by {
                            if i != task.level_index {
                                assert(write_state_ok(levels[i]));
                            }
                        }
                    }
                    let ghost hole = task.level_index;
                    proof {
                        let seed = task.next.level_seed();
                        assert(made is None);
                        assert(task.next.fold_next().level_index() == hole);
                        assert(seed.cursor == seed.block_offset);
                        assert(write_block_of(pass.context, hole) is None);
                        assert(write_reach(pass.context, hole) == seed.block_offset);
                        assert(due(start) matches Some(ev) && ev.op is BlockItem && ev.level_index
                            == hole);
                        assert(due(start) == next_event(context.fold().plan()@));
                        assert(past_due(start) == next_state(context.fold().plan()@));
                    }
                    match InMemory::write_block(task, &mut context, &mut store) {
                        Ok(next) => {
                            kont = next;
                            proof {
                                event = None;
                                made = Some(hole);
                            }
                        },
                        Err(error) => {
                            return Err(error);
                        },
                    }
                },
                Ok(
                    WriteInstruction::Op(
                        WriteOp::WriteItem(task),
                    ),
                ) => {
                    proof {
                        let after = context.fold().levels();
                        assert forall|i: int| 0 <= i < after.len() implies write_state_ok(
                            #[trigger] after[i],
                        ) by {
                            if i != task.level_index {
                                assert(write_state_ok(levels[i]));
                            }
                        }
                    }
                    let size_before = task.block_meta.get_ref().len();
                    return Ok(
                        Instruction::WriteItem(
                            WriteItem {
                                block_writer: task.block_meta,
                                next: WriteItemNext {
                                    sketch,
                                    pass: WriteItemPass::Write {
                                        context,
                                        next: task.next,
                                        child_block_offset: task.child_block_offset,
                                    },
                                    size_before,
                                    inner: store,
                                },
                            },
                        ),
                    );
                },
                Ok(
                    WriteInstruction::Op(
                        WriteOp::FlushBlock(task),
                    ),
                ) => {
                    proof {
                        let after = context.fold().levels();
                        assert forall|i: int| 0 <= i < after.len() implies write_state_ok(
                            #[trigger] after[i],
                        ) by {
                            if i != task.level_index {
                                assert(write_state_ok(levels[i]));
                            }
                        }
                        vstd::bytes::lemma_auto_spec_u32_to_from_le_bytes();
                    }
                    let block = match task.block_meta.seal() {
                        Ok(block) => block,
                        Err(error) => {
                            return Err(error);
                        },
                    };
                    if store.flushed >= store.sizes.len() {
                        return Err(
                            Error::BlockSizeMismatch { block_size: block.len(), place_size: 0 },
                        );
                    }
                    let place_size = store.sizes[store.flushed];
                    if place_size < block.len() {
                        return Err(Error::BlockSizeMismatch { block_size: block.len(), place_size });
                    }
                    if place_size > usize::MAX - task.block_start_offset {
                        return Err(Error::TooLarge);
                    }
                    return Ok(
                        Instruction::FlushBlock(
                            FlushBlockNext {
                                sketch,
                                pass: FlushBlockPass::Write {
                                    context,
                                    next: task.next,
                                    block_start_offset: task.block_start_offset,
                                    block_end_offset: task.block_start_offset + place_size,
                                },
                                block_index: task.block_index,
                                block,
                                inner: store,
                            },
                        ),
                    );
                },
                Ok(WriteInstruction::Done) => {
                    return Ok(Instruction::Done(store.memory));
                },
                _ => {
                    proof {
                        assert(false);
                    }
                    return vstd::pervasive::unreached();
                },
            }
        }
    }
}

/// A level of a tree whose offsets can be held starts within their range.
proof fn lemma_level_start(
    tree_offset: usize,
    tree_header_size: usize,
    coords: Seq<LevelCoords<usize>>,
    level_index: usize,
)
    requires
        fits(tree_offset, tree_header_size, coords),
    ensures
        0 <= level_offset(tree_offset, tree_header_size, coords, level_index) <= usize::MAX,
{
    crate::writer::two_pass::sizes::lemma_levels_before_within(coords, level_index, 0);
    let at = levels_before(coords, level_index, 0);
    crate::writer::two_pass::write::lemma_total_before_grows(coords, at, coords.len() as int);
}

/// The levels that a first pass in step has flushed were measured without
/// headers.
proof fn lemma_flushed_headers(levels: Seq<Option<LevelState<MarkupSeed>>>)
    requires
        forall|i: int| 0 <= i < levels.len() ==> markup_state_ok(#[trigger] levels[i]),
    ensures
        headers_none(markup::coords_of(fold::flushed_seeds(levels))),
    decreases levels.len(),
{
    if levels.len() > 0 {
        let front = levels.drop_last();
        assert forall|i: int| 0 <= i < front.len() implies markup_state_ok(#[trigger] front[i]) by {
            assert(front[i] == levels[i]);
        }
        lemma_flushed_headers(front);
        assert(markup_state_ok(levels[levels.len() - 1]));
        let seeds = fold::flushed_seeds(levels);
        let coords = markup::coords_of(seeds);
        assert forall|i: int| 0 <= i < coords.len() implies (#[trigger] coords[i]).header_size
            == 0 by {
            if i < fold::flushed_seeds(front).len() {
                assert(seeds[i] == fold::flushed_seeds(front)[i]);
                assert(markup::coords_of(fold::flushed_seeds(front))[i].header_size == 0);
            }
        }
    }
}

/// The failure that `item_written` ends in, if it does: the block is
/// smaller than it was handed out, it cannot count one item more, or in the
/// second pass it ends beyond the range of offsets.
pub open spec fn item_failure<'s>(next: WriteItemNext<'s>, block: BlockWriter) -> Option<Error> {
    if block@.len() < next.size_before() {
        Some(
            Error::BlockShrunk {
                block_size: block@.len() as usize,
                size_before: next.size_before(),
            },
        )
    } else if block.items_count() == usize::MAX {
        Some(Error::BlockTooLong { items_count: block.items_count() })
    } else if next.writing() && next.reach(next.level_index()) + block@.len() + child_bytes(
        next.child(),
    ).len() > usize::MAX {
        Some(Error::TooLarge)
    } else {
        None
    }
}

impl<'s> WriteItemNext<'s> {
    /// The buffer of the tree.
    pub closed spec fn memory(&self) -> Seq<u8> {
        self.inner.memory@
    }

    /// Whether the second pass is under way.
    pub closed spec fn writing(&self) -> bool {
        self.pass is Write
    }

    /// The size of the block when it was handed out.
    pub closed spec fn size_before(&self) -> usize {
        self.size_before
    }

    /// The level of the item.
    pub closed spec fn level_index(&self) -> usize {
        match self.pass {
            WriteItemPass::Markup { next, .. } => next.fold_next().level_index(),
            WriteItemPass::Write { next, .. } => next.fold_next().level_index(),
        }
    }

    /// The block of the item, counted on its level.
    pub closed spec fn block_index(&self) -> usize {
        match self.pass {
            WriteItemPass::Markup { next, .. } => next.fold_next().block_index(),
            WriteItemPass::Write { next, .. } => next.fold_next().block_index(),
        }
    }

    /// The shape of the tree that is built.
    pub closed spec fn shape(&self) -> sketch::Tree {
        *self.sketch
    }

    /// The sizes of the blocks as the first pass has flushed them, in
    /// order; in the second pass, of those that it has yet to flush.
    pub closed spec fn sizes(&self) -> Seq<usize> {
        sizes_kept(self.inner)
    }

    /// Where the walk of the pass that is under way stands.
    pub closed spec fn walk(&self) -> plan::State {
        match self.pass {
            WriteItemPass::Markup { context, .. } => context.fold().plan()@,
            WriteItemPass::Write { context, .. } => context.fold().plan()@,
        }
    }

    /// The measures of the levels: the sizes of the blocks that were
    /// flushed in the first pass, added up for each level.
    pub closed spec fn measures(&self) -> Seq<LevelCoords<usize>> {
        match self.pass {
            WriteItemPass::Markup { context, next, .. } => markup_measures(
                context.fold().levels(),
                Some((next.fold_next().level_index(), next.level_seed().level_size)),
            ),
            WriteItemPass::Write { context, .. } => context.coords(),
        }
    }

    /// Where in the buffer the block of level `level_index` starts that is
    /// open, or that comes next.
    pub closed spec fn reach(&self, level_index: usize) -> int {
        match self.pass {
            WriteItemPass::Markup { .. } => 0,
            WriteItemPass::Write { context, next, .. } => if level_index
                == next.fold_next().level_index() {
                next.level_seed().block_offset as int
            } else {
                write_reach(context, level_index)
            },
        }
    }

    /// The block that is open on level `level_index`, if one is; the block
    /// of the item is out.
    pub closed spec fn block_of(&self, level_index: usize) -> Option<BlockWriter> {
        match self.pass {
            WriteItemPass::Markup { context, .. } => markup_block_of(context, level_index),
            WriteItemPass::Write { context, .. } => write_block_of(context, level_index),
        }
    }

    /// The offset of the block below the item, as it is written behind the
    /// item: in the first pass a placeholder where there is such a block.
    pub closed spec fn child(&self) -> Option<usize> {
        match self.pass {
            WriteItemPass::Markup { child_pending, .. } => if child_pending {
                Some(PLACEHOLDER)
            } else {
                None
            },
            WriteItemPass::Write { child_block_offset, .. } => child_block_offset,
        }
    }

    /// The pass is in step with the walk but for the level of the item,
    /// whose block is out.
    #[verifier::type_invariant]
    closed spec fn well_formed(&self) -> bool {
        &&& !self.writing() ==> steady(self.walk(), self.sketch.spec_levels())
        &&& self.inner.flushed <= self.inner.sizes@.len()
        &&& !self.writing() ==> self.inner.flushed == 0
        &&& match self.pass {
            WriteItemPass::Markup { context, next, .. } => {
                let hole = next.fold_next().level_index();
                &&& markup_in_step(context, Some(hole))
                &&& !(cursor_of(context.fold().plan()@, hole).block_cursor is Begin)
                &&& cursor_of(context.fold().plan()@, hole).block_index
                    == next.fold_next().block_index()
                &&& next.level_seed().level_header_size == 0
                &&& self.size_before >= 4
            },
            WriteItemPass::Write { context, next, .. } => {
                let hole = next.fold_next().level_index();
                &&& write_in_step(context, Some(hole))
                &&& !(cursor_of(context.fold().plan()@, hole).block_cursor is Begin)
                &&& cursor_of(context.fold().plan()@, hole).block_index
                    == next.fold_next().block_index()
                &&& next.level_seed().level_header_size == 0
                &&& self.size_before >= 4
                &&& next.level_seed().cursor == next.level_seed().block_offset + self.size_before
            },
        }
    }

    /// Takes the block back with the item in it, and writes behind the
    /// item the offset of the block below it, or that there is none. The
    /// buffer of the tree is left alone. This fails only where the block
    /// has shrunk, or where the block or the tree is too large.
    pub fn item_written(self, block_writer: BlockWriter) -> (result: Result<InMemory<'s>, Error>)
        ensures
            result matches Ok(fsm) ==> {
                &&& fsm.memory() == self.memory()
                &&& fsm.writing() == self.writing()
                &&& fsm.walk() == self.walk()
                &&& fsm.shape() == self.shape()
                &&& fsm.measures() == self.measures()
                &&& fsm.sizes() == self.sizes()
                &&& fsm.child_due() is None
                &&& fsm.block_of(self.level_index()) matches Some(block)
                &&& block@ == block_writer@ + child_bytes(self.child())
                &&& block.items_count() == block_writer.items_count() + 1
                &&& forall|other: usize|
                    other != self.level_index() ==> #[trigger] fsm.block_of(other)
                        == self.block_of(other)
                &&& forall|level: usize| #[trigger] fsm.reach(level) == self.reach(level)
            },
            result matches Err(error) ==> item_failure(self, block_writer) == Some(error),
            result is Err <==> item_failure(self, block_writer) is Some,
    {
        proof {
            use_type_invariant(&self);
        }
        let WriteItemNext { sketch, pass, size_before, inner } = self;
        let mut block_writer = block_writer;
        if block_writer.bytes.len() < size_before {
            return Err(
                Error::BlockShrunk { block_size: block_writer.bytes.len(), size_before },
            );
        }
        if block_writer.items_count == usize::MAX {
            return Err(Error::BlockTooLong { items_count: block_writer.items_count });
        }
        match pass {
            WriteItemPass::Markup { context, next, child_pending } => {
                let mut context = context;
                let child = if child_pending {
                    Some(PLACEHOLDER)
                } else {
                    None
                };
                if put_child(&mut block_writer.bytes, child).is_err() {
                    return Err(Error::Encode);
                }
                block_writer.items_count = block_writer.items_count + 1;
                let ghost levels = context.fold().levels();
                let ghost hole = next.fold_next().level_index();
                let ghost state = LevelState::SeenVisitBlockStart {
                    level_seed: markup::LevelSeed {
                        active_block: Some(block_writer),
                        ..next.level_seed()
                    },
                    block_index: next.fold_next().block_index(),
                };
                proof {
                    lemma_filled_in_step(levels, context.fold().plan()@, hole, state);
                }
                match next.item_written(block_writer, &mut context) {
                    Ok(kont) => {
                        proof {
                            let after = context.fold().levels();
                            assert forall|i: int| 0 <= i < after.len() implies markup_state_ok(
                                #[trigger] after[i],
                            ) by {
                                if i != hole {
                                    assert(markup_state_ok(levels[i]));
                                }
                            }
                        }
                        Ok(
                            InMemory {
                                sketch,
                                pass: Pass::Markup(MarkupPass { context, kont }),
                                inner,
                            },
                        )
                    },
                    Err(_) => {
                        proof {
                            assert(false);
                        }
                        return vstd::pervasive::unreached();
                    },
                }
            },
            WriteItemPass::Write { context, next, child_block_offset } => {
                let mut context = context;
                let ghost before = block_writer.bytes@;
                if put_child(&mut block_writer.bytes, child_block_offset).is_err() {
                    return Err(Error::Encode);
                }
                proof {
                    vstd::bytes::lemma_auto_spec_u64_to_from_le_bytes();
                    assert(block_writer.bytes@.len() >= before.len());
                }
                let written = block_writer.bytes.len() - size_before;
                block_writer.items_count = block_writer.items_count + 1;
                if written > usize::MAX - next.cursor() {
                    return Err(Error::TooLarge);
                }
                let ghost levels = context.fold().levels();
                let ghost hole = next.fold_next().level_index();
                let ghost state = LevelState::SeenVisitBlockStart {
                    level_seed: WriteSeed {
                        cursor: (next.level_seed().cursor + written) as usize,
                        active_block: Some(block_writer),
                        ..next.level_seed()
                    },
                    block_index: next.fold_next().block_index(),
                };
                proof {
                    lemma_filled_in_step(levels, context.fold().plan()@, hole, state);
                }
                match next.item_written(block_writer, written, &mut context) {
                    Ok(kont) => {
                        proof {
                            let after = context.fold().levels();
                            assert forall|i: int| 0 <= i < after.len() implies write_state_ok(
                                #[trigger] after[i],
                            ) by {
                                if i != hole {
                                    assert(write_state_ok(levels[i]));
                                }
                            }
                        }
                        Ok(
                            InMemory {
                                sketch,
                                pass: Pass::Write(WritePass { context, kont, event: Ghost(None) }),
                                inner,
                            },
                        )
                    },
                    Err(_) => {
                        proof {
                            assert(false);
                        }
                        return vstd::pervasive::unreached();
                    },
                }
            },
        }
    }
}

/// The failure that a flush of `size` bytes ends in, if it does. The first
/// pass takes no less than the block, and cannot add to a level that is
/// too large to be measured. The second pass takes what the first has
/// measured of the block and no other size, and the block's place must lie
/// inside the buffer.
pub open spec fn flush_failure<'s>(flush: FlushBlockNext<'s>, size: int) -> Option<Error> {
    if !flush.writing() {
        if size < flush.block().len() {
            Some(
                Error::BlockSizeMismatch {
                    block_size: size as usize,
                    place_size: flush.block().len() as usize,
                },
            )
        } else if flush.measured() + size > usize::MAX {
            Some(Error::TooLarge)
        } else {
            None
        }
    } else if size != flush.place().1 - flush.place().0 {
        Some(
            Error::BlockSizeMismatch {
                block_size: size as usize,
                place_size: (flush.place().1 - flush.place().0) as usize,
            },
        )
    } else if flush.place().1 > flush.memory().len() {
        Some(
            Error::BlockOutside {
                block_end_offset: flush.place().1,
                memory_size: flush.memory().len() as usize,
            },
        )
    } else {
        None
    }
}

/// What a flush of `bytes` leads to: the first pass has taken their number
/// and keeps it for the second, which has put them in the block's place in
/// the buffer. The level's next block starts behind them, and the next
/// item refers to where they start.
pub open spec fn flushed<'s>(flush: FlushBlockNext<'s>, bytes: Seq<u8>, fsm: InMemory<'s>) -> bool {
    &&& fsm.writing() == flush.writing()
    &&& fsm.walk() == flush.walk()
    &&& fsm.shape() == flush.shape()
    &&& fsm.measures() == if flush.writing() {
        flush.measures()
    } else {
        flush.measures().update(
            flush.level_index() as int,
            LevelCoords {
                index: flush.level_index(),
                header_size: 0,
                total_size: (flush.measured() + bytes.len()) as usize,
            },
        )
    }
    &&& fsm.sizes() == if flush.writing() {
        flush.sizes().skip(1)
    } else {
        flush.sizes().push(bytes.len() as usize)
    }
    &&& !flush.writing() ==> fsm.memory() == flush.memory()
    &&& flush.writing() ==> fsm.memory() == placed(flush.memory(), flush.place().0 as int, bytes)
    &&& fsm.child_due() == flush.child_after()
    &&& fsm.block_of(flush.level_index()) is None
    &&& forall|other: usize|
        other != flush.level_index() ==> #[trigger] fsm.block_of(other) == flush.block_of(other)
    &&& flush.writing() ==> fsm.reach(flush.level_index()) == flush.place().0 + bytes.len()
    &&& forall|other: usize|
        other != flush.level_index() ==> #[trigger] fsm.reach(other) == flush.reach(other)
}

/// `memory` with the bytes from `start` on replaced by `block`.
pub open spec fn placed(memory: Seq<u8>, start: int, block: Seq<u8>) -> Seq<u8> {
    memory.subrange(0, start) + block + memory.subrange(
        start + block.len(),
        memory.len() as int,
    )
}

/// The pass of a block that waits to be flushed is in step with the walk
/// but for the level of the block, whose seed is out.
pub closed spec fn flush_ready(pass: FlushBlockPass) -> bool {
    match pass {
        FlushBlockPass::Markup { context, next } => {
            let hole = next.fold_next().level_index();
            &&& markup_in_step(context, Some(hole))
            &&& cursor_of(context.fold().plan()@, hole).block_cursor is Begin
            &&& cursor_of(context.fold().plan()@, hole).block_index >= 1
            &&& next.level_seed().level_header_size == 0
        },
        FlushBlockPass::Write { context, next, block_start_offset, block_end_offset } => {
            let hole = next.fold_next().level_index();
            &&& write_in_step(context, Some(hole))
            &&& cursor_of(context.fold().plan()@, hole).block_cursor is Begin
            &&& cursor_of(context.fold().plan()@, hole).block_index >= 1
            &&& next.level_seed().level_header_size == 0
            &&& next.level_seed().block_offset == block_start_offset
            &&& block_start_offset <= block_end_offset
        },
    }
}

impl<'s> FlushBlockNext<'s> {
    /// The buffer of the tree.
    pub closed spec fn memory(&self) -> Seq<u8> {
        self.inner.memory@
    }

    /// Whether the second pass is under way.
    pub closed spec fn writing(&self) -> bool {
        self.pass is Write
    }

    /// The bytes of the block.
    pub closed spec fn block(&self) -> Seq<u8> {
        self.block@
    }

    /// The level of the block.
    pub closed spec fn level_index(&self) -> usize {
        match self.pass {
            FlushBlockPass::Markup { next, .. } => next.fold_next().level_index(),
            FlushBlockPass::Write { next, .. } => next.fold_next().level_index(),
        }
    }

    /// The block, counted on its level.
    pub closed spec fn block_index(&self) -> usize {
        self.block_index
    }

    /// The shape of the tree that is built.
    pub closed spec fn shape(&self) -> sketch::Tree {
        *self.sketch
    }

    /// The sizes of the blocks as the first pass has flushed them, in
    /// order; in the second pass, of those that it has yet to flush.
    pub closed spec fn sizes(&self) -> Seq<usize> {
        sizes_kept(self.inner)
    }

    /// Where the walk of the pass that is under way stands.
    pub closed spec fn walk(&self) -> plan::State {
        match self.pass {
            FlushBlockPass::Markup { context, .. } => context.fold().plan()@,
            FlushBlockPass::Write { context, .. } => context.fold().plan()@,
        }
    }

    /// The measures of the levels: the sizes of the blocks that were
    /// flushed in the first pass, added up for each level; the block that
    /// waits is not counted yet.
    pub closed spec fn measures(&self) -> Seq<LevelCoords<usize>> {
        match self.pass {
            FlushBlockPass::Markup { context, next } => markup_measures(
                context.fold().levels(),
                Some((next.fold_next().level_index(), next.level_seed().level_size)),
            ),
            FlushBlockPass::Write { context, .. } => context.coords(),
        }
    }

    /// Where in the buffer the block of level `level_index` starts that is
    /// open, or that comes next; for the block that waits, its place.
    pub closed spec fn reach(&self, level_index: usize) -> int {
        match self.pass {
            FlushBlockPass::Markup { .. } => 0,
            FlushBlockPass::Write { context, next, block_start_offset, .. } => if level_index
                == next.fold_next().level_index() {
                block_start_offset as int
            } else {
                write_reach(context, level_index)
            },
        }
    }

    /// The block that is open on level `level_index`, if one is; the block
    /// to flush is out.
    pub closed spec fn block_of(&self, level_index: usize) -> Option<BlockWriter> {
        match self.pass {
            FlushBlockPass::Markup { context, .. } => markup_block_of(context, level_index),
            FlushBlockPass::Write { context, .. } => write_block_of(context, level_index),
        }
    }

    /// What is written behind the next item as the offset of the block
    /// below it once this block is flushed: the start of the block's place,
    /// in the first pass a placeholder for it.
    pub open spec fn child_after(&self) -> Option<usize> {
        Some(
            if self.writing() {
                self.place().0
            } else {
                PLACEHOLDER
            },
        )
    }

    /// The size that the first pass has measured of the block's level so
    /// far.
    pub closed spec fn measured(&self) -> usize {
        match self.pass {
            FlushBlockPass::Markup { next, .. } => next.level_seed().level_size,
            FlushBlockPass::Write { .. } => 0,
        }
    }

    /// Where the block's place starts and ends in the second pass.
    pub closed spec fn place(&self) -> (usize, usize) {
        match self.pass {
            FlushBlockPass::Markup { .. } => (0, 0),
            FlushBlockPass::Write { block_start_offset, block_end_offset, .. } => (
                block_start_offset,
                block_end_offset,
            ),
        }
    }

    /// The pass is in step with the walk but for the level of the block,
    /// and in the second pass the block is as large as its place.
    #[verifier::type_invariant]
    closed spec fn well_formed(&self) -> bool {
        &&& !self.writing() ==> steady(self.walk(), self.sketch.spec_levels())
        &&& self.inner.flushed <= self.inner.sizes@.len()
        &&& !self.writing() ==> self.inner.flushed == 0
        &&& flush_ready(self.pass)
        &&& self.pass matches FlushBlockPass::Write { next, block_start_offset, block_end_offset, .. }
            ==> {
            &&& next.level_seed().cursor == block_start_offset + self.block@.len()
            &&& block_start_offset + self.block@.len() <= block_end_offset
            &&& self.inner.flushed < self.inner.sizes@.len()
            &&& self.inner.sizes@[self.inner.flushed as int] == block_end_offset
                - block_start_offset
        }
    }

    /// The bytes of the block, its header filled in.
    pub fn block_bytes(&self) -> (bytes: &[u8])
        ensures
            bytes@ == self.block(),
    {
        self.block.as_slice()
    }

    /// Flushes the block as it is: the first pass takes its size, the
    /// second puts it in its place in the buffer. The place is as large as
    /// the first pass has measured the block: this fails where the block is
    /// not of that size, because other items were written than were
    /// measured or because the block was flushed in another form then.
    pub fn block_flushed(self) -> (result: Result<InMemory<'s>, Error>)
        ensures
            result matches Ok(fsm) ==> flushed(self, self.block(), fsm),
            result matches Err(error) ==> flush_failure(self, self.block().len() as int) == Some(
                error,
            ),
            result is Err <==> flush_failure(self, self.block().len() as int) is Some,
    {
        self.flush(None)
    }

    /// Flushes `modified_memory` in place of the block. The first pass
    /// takes its size, which must not be less than the block's. The second
    /// puts it in the block's place in the buffer, which is as large as
    /// the first pass has measured it: a size that differs is refused.
    pub fn modified_block_flushed(self, modified_memory: &[u8]) -> (result: Result<
        InMemory<'s>,
        Error,
    >)
        ensures
            result matches Ok(fsm) ==> flushed(self, modified_memory@, fsm),
            result matches Err(error) ==> flush_failure(self, modified_memory@.len() as int)
                == Some(error),
            result is Err <==> flush_failure(self, modified_memory@.len() as int) is Some,
    {
        self.flush(Some(modified_memory))
    }

    /// Flushes the bytes `modified`, or the block where there are none: the
    /// first pass takes their number and keeps it, the second puts them in
    /// the block's place in the buffer.
    fn flush(self, modified: Option<&[u8]>) -> (result: Result<InMemory<'s>, Error>)
        ensures
            ({
                let bytes = match modified {
                    Some(modified) => modified@,
                    None => self.block(),
                };
                &&& result matches Ok(fsm) ==> flushed(self, bytes, fsm)
                &&& result matches Err(error) ==> flush_failure(self, bytes.len() as int) == Some(
                    error,
                )
                &&& result is Err <==> flush_failure(self, bytes.len() as int) is Some
            }),
    {
        proof {
            use_type_invariant(&self);
        }
        let FlushBlockNext { sketch, pass, block_index, block, inner } = self;
        let ghost old_inner = inner;
        let mut inner = inner;
        let bytes: &[u8] = match modified {
            Some(modified) => modified,
            None => block.as_slice(),
        };
        let block_size = bytes.len();
        let ghost flush = self;
        let after = match pass {
            FlushBlockPass::Markup { context, next } => {
                let mut context = context;
                if block_size < block.len() {
                    return Err(Error::BlockSizeMismatch { block_size, place_size: block.len() });
                }
                if block_size > usize::MAX - next.level_size() {
                    return Err(Error::TooLarge);
                }
                let ghost levels = context.fold().levels();
                let ghost hole = next.fold_next().level_index();
                let ghost state = LevelState::SeenVisitBlockFinish {
                    level_seed: markup::LevelSeed {
                        level_header_size: next.level_seed().level_header_size,
                        level_size: (next.level_seed().level_size + block_size) as usize,
                        active_block: None,
                    },
                };
                proof {
                    lemma_filled_in_step(levels, context.fold().plan()@, hole, state);
                }
                match next.block_finished(block_size, &mut context) {
                    Ok(kont) => {
                        proof {
                            let after = context.fold().levels();
                            assert forall|i: int| 0 <= i < after.len() implies markup_state_ok(
                                #[trigger] after[i],
                            ) by {
                                if i != hole {
                                    assert(markup_state_ok(levels[i]));
                                }
                            }
                        }
                        inner.sizes.push(block_size);
                        let after = Pass::Markup(MarkupPass { context, kont });
                        proof {
                            let fsm = InMemory { sketch, pass: after, inner };
                            assert(fsm.walk() == flush.walk());
                            assert(fsm.measures() =~= flush.measures().update(
                                flush.level_index() as int,
                                LevelCoords {
                                    index: flush.level_index(),
                                    header_size: 0,
                                    total_size: (flush.measured() + bytes@.len()) as usize,
                                },
                            ));
                            assert(old_inner.sizes@.skip(0) =~= old_inner.sizes@);
                            assert(inner.sizes@.skip(0) =~= inner.sizes@);
                            assert(fsm.sizes() =~= flush.sizes().push(bytes@.len() as usize));
                            assert(fsm.memory() == flush.memory());
                            assert(fsm.child_due() == flush.child_after());
                            assert(fsm.block_of(flush.level_index()) is None);
                            assert forall|other: usize| other != flush.level_index() implies #[trigger] fsm.block_of(
                                other,
                            ) == flush.block_of(other) by {}
                        }
                        after
                    },
                    Err(_) => {
                        proof {
                            assert(false);
                        }
                        return vstd::pervasive::unreached();
                    },
                }
            },
            FlushBlockPass::Write { context, next, block_start_offset, block_end_offset } => {
                let mut context = context;
                let place_size = block_end_offset - block_start_offset;
                if block_size != place_size {
                    return Err(Error::BlockSizeMismatch { block_size, place_size });
                }
                if block_end_offset > inner.memory.len() {
                    return Err(
                        Error::BlockOutside { block_end_offset, memory_size: inner.memory.len() },
                    );
                }
                let ghost memory = inner.memory@;
                let mut i: usize = 0;
                while i < block_size
                    invariant
                        i <= block_size,
                        block_size == bytes@.len(),
                        block_start_offset + block_size == block_end_offset,
                        block_end_offset <= memory.len(),
                        inner.memory@.len() == memory.len(),
                        inner.memory@ == placed(
                            memory,
                            block_start_offset as int,
                            bytes@.subrange(0, i as int),
                        ),
                        inner.available_blocks == old_inner.available_blocks,
                        inner.sizes == old_inner.sizes,
                        inner.flushed == old_inner.flushed,
                        old_inner.flushed < old_inner.sizes@.len(),
                    decreases block_size - i,
                {
                    inner.memory.set(block_start_offset + i, bytes[i]);
                    assert(inner.memory@ =~= placed(
                        memory,
                        block_start_offset as int,
                        bytes@.subrange(0, i + 1),
                    ));
                    i = i + 1;
                }
                assert(bytes@.subrange(0, block_size as int) =~= bytes@);
                let written = block.len();
                let growth = block_size - written;
                let ghost levels = context.fold().levels();
                let ghost hole = next.fold_next().level_index();
                let ghost state = LevelState::SeenVisitBlockFinish {
                    level_seed: WriteSeed {
                        block_offset: block_end_offset,
                        cursor: block_end_offset,
                        ..next.level_seed()
                    },
                };
                proof {
                    lemma_filled_in_step(levels, context.fold().plan()@, hole, state);
                }
                match next.block_flushed_grown(written, growth, &mut context) {
                    Ok(kont) => {
                        proof {
                            let after = context.fold().levels();
                            assert forall|i: int| 0 <= i < after.len() implies write_state_ok(
                                #[trigger] after[i],
                            ) by {
                                if i != hole {
                                    assert(write_state_ok(levels[i]));
                                }
                            }
                        }
                        let measured_blocks = inner.sizes.len();
                        assert(inner.flushed < measured_blocks);
                        inner.flushed = inner.flushed + 1;
                        let after = Pass::Write(WritePass { context, kont, event: Ghost(None) });
                        proof {
                            let fsm = InMemory { sketch, pass: after, inner };
                            assert(fsm.walk() == flush.walk());
                            assert(fsm.measures() == flush.measures());
                            assert(fsm.sizes() =~= flush.sizes().skip(1));
                            assert(fsm.memory() == placed(
                                flush.memory(),
                                flush.place().0 as int,
                                bytes@,
                            ));
                            assert(fsm.child_due() == flush.child_after());
                            assert(fsm.block_of(flush.level_index()) is None);
                            assert(fsm.reach(flush.level_index()) == flush.place().0 + bytes@.len());
                            assert forall|other: usize| other != flush.level_index() implies #[trigger] fsm.block_of(
                                other,
                            ) == flush.block_of(other) by {}
                            assert forall|other: usize| other != flush.level_index() implies #[trigger] fsm.reach(
                                other,
                            ) == flush.reach(other) by {}
                        }
                        after
                    },
                    Err(_) => {
                        proof {
                            assert(false);
                        }
                        return vstd::pervasive::unreached();
                    },
                }
            },
        };
        let ghost flushed_to = InMemory { sketch, pass: after, inner };
        inner.available_blocks.push(block);
        let fsm = InMemory { sketch, pass: after, inner };
        proof {
            assert forall|level: usize| #[trigger] fsm.block_of(level) == flushed_to.block_of(level) by {}
            assert forall|level: usize| #[trigger] fsm.reach(level) == flushed_to.reach(level) by {}
        }
        Ok(fsm)
    }
}

} // verus!
