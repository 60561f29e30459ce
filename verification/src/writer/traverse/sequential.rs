//! A driver that leads a caller with one buffer through the building of a
//! tree: the tree's header first, then the measuring pass block by block.
//!
//! Every instruction hands the caller the buffer that is in use, and its
//! continuation hands the context back to the script. The driver knows how
//! to start a level and how to give a block its header. No instruction asks
//! the caller for an item: a block is measured as its header, and the
//! driver goes by itself from item to item and from block to block until
//! the measuring pass is over.
//!
//! The driver's work ends there, with `Done`. It has no instruction for a
//! writing pass: the caller takes the measures out of the context with
//! `into_measures` and leads the writing pass itself.

use vstd::prelude::*;
use crate::writer::fold;
use crate::writer::two_pass::markup;

verus! {

/// What the driver asks for next: something for the caller to do, a step
/// that it has taken by itself, or nothing more.
pub enum Instruction<'ctx> {
    Op(Op<'ctx>),
    Noop(Continue),
    Done,
}

/// What the caller is asked to do.
pub enum Op<'ctx> {
    MarkupStart(MarkupStart),
    WriteTreeHeader(WriteTreeHeader<'ctx>),
    FinishTreeHeader(FinishTreeHeader<'ctx>),
    WriteBlockHeader(WriteBlockHeader<'ctx>),
    FinishBlockHeader(FinishBlockHeader<'ctx>),
}

/// The way on from an instruction.
pub struct Continue {
    pub underlying_action: UnderlyingAction,
    pub next: Script,
}

/// What a continuation holds of the pass: an instruction of it to look at,
/// or a continuation of it to follow.
pub enum UnderlyingAction {
    Idle(UnderlyingOp),
    Step(UnderlyingActionStep),
}

/// The failures of the driver: calls that are out of turn, and the failures
/// of the passes.
#[derive(Clone, PartialEq, Debug)]
pub enum Error {
    ContinuationFinishRequired,
    ContextModesOutOfSync,
    ScriptStepRequired,
    InvalidContextForStepMarkup,
    InvalidContextForStepWrite,
    InvalidContextModeForUnderlyingAction,
    InvalidContextMarkupStateForUnderlyingAction,
    InvalidContextWriteStateForUnderlyingAction,
    InvalidContextModeForMarkupStart,
    InvalidContextModeForWriteTreeHeader,
    InvalidContextModeForFinishTreeHeader,
    InvalidContextModeForWriteBlockHeader,
    InvalidContextModeForFinishBlockHeader,
    LevelTooLarge,
    Markup(markup::Error),
    ContinueMarkup(markup::Error),
    ContinueWrite(crate::writer::two_pass::write::Error),
    StepRecMarkup(markup::Error),
    StepRecWrite(crate::writer::two_pass::write::Error),
}

/// One thing for the measuring pass, another for the writing pass.
pub enum Pass<M, W> {
    Markup(M),
    Write(W),
}

/// The offsets and sizes of the driver.
pub type Offset = usize;

/// A continuation of the measuring pass.
pub type ContinueMarkup = markup::Continue<BlockWriter>;

/// A continuation of the writing pass.
pub type ContinueWrite = crate::writer::two_pass::write::Continue<BlockWriter>;

/// The context of the measuring pass.
pub type ContextMarkup = markup::Context<BlockWriter>;

/// The context of the writing pass.
pub type ContextWrite = crate::writer::two_pass::write::Context<BlockWriter>;

/// An instruction of the measuring pass.
pub type InstructionMarkup = markup::Instruction<BlockWriter>;

/// An instruction of the writing pass.
pub type InstructionWrite = crate::writer::two_pass::write::Instruction<BlockWriter>;

/// A buffer that is written from its start.
pub struct BlockWriter {
    bytes: Vec<u8>,
}

impl View for BlockWriter {
    type V = Seq<u8>;

    closed spec fn view(&self) -> Seq<u8> {
        self.bytes@
    }
}

impl BlockWriter {
    /// A writer that goes on behind what `block` holds.
    fn new(block: Vec<u8>) -> (writer: BlockWriter)
        ensures
            writer == (BlockWriter { bytes: block }),
    {
        BlockWriter { bytes: block }
    }

    /// A writer that starts `block` afresh.
    fn new_blank(block: Vec<u8>) -> (writer: BlockWriter)
        ensures
            writer@.len() == 0,
    {
        let mut block = block;
        block.clear();
        BlockWriter::new(block)
    }

    /// The buffer with what was written.
    fn into_inner(self) -> (block: Vec<u8>)
        ensures
            block@ == self@,
    {
        self.bytes
    }

    /// Adds `bytes` behind what was written.
    pub fn write(&mut self, bytes: &[u8])
        ensures
            final(self)@ == old(self)@ + bytes@,
    {
        let mut i: usize = 0;
        while i < bytes.len()
            invariant
                i <= bytes.len(),
                self.bytes@ == old(self).bytes@ + bytes@.subrange(0, i as int),
            decreases bytes.len() - i,
        {
            self.bytes.push(bytes[i]);
            assert(self.bytes@ =~= old(self).bytes@ + bytes@.subrange(0, i + 1));
            i = i + 1;
        }
        assert(bytes@.subrange(0, bytes.len() as int) =~= bytes@);
    }
}

/// The measuring pass with the size of what was written so far.
struct ModeMarkup {
    context: ContextMarkup,
    total_size: usize,
}

/// The measuring pass while the caller writes into a buffer.
struct ModeMarkupWrite {
    total_size: usize,
    markup_context: ContextMarkup,
    active_block_writer: BlockWriter,
}

/// The measuring pass while the caller writes a block's header.
struct ModeMarkupWriteBlockHeader {
    base: ModeMarkupWrite,
    items_count: usize,
    next: markup::AllocBlockNext<BlockWriter>,
}

/// The measuring pass while the caller looks over what was written.
struct ModeMarkupFinish {
    total_size: usize,
    markup_context: ContextMarkup,
    active_block: Vec<u8>,
}

/// The measuring pass while the caller looks over a block's header.
struct ModeMarkupFinishBlockHeader {
    base: ModeMarkupFinish,
    next: markup::AllocBlockNext<BlockWriter>,
}

/// What the script does at its next step.
enum ModeScript {
    Boot,
    TreeHeaderWrite(ContextMarkup),
    TreeHeaderFinish(ModeMarkupFinish),
    Step(ModeMarkup),
    BlockHeaderFinish(ModeMarkupFinishBlockHeader),
}

/// What the caller is busy with.
enum ModeContinue {
    MarkupStart,
    TreeHeaderWrite(ModeMarkupWrite),
    TreeHeaderFinish(ModeMarkupFinish),
    BlockHeaderWrite(ModeMarkupWriteBlockHeader),
    BlockHeaderFinish(ModeMarkupFinishBlockHeader),
}

/// What the driver knows: what is due, and buffers to use again.
pub struct Context {
    mode_script: Option<ModeScript>,
    mode_continue: Option<ModeContinue>,
    available_blocks: Vec<Vec<u8>>,
}

/// Where the driver stands.
pub enum Mode {
    /// Nothing was done yet: the script's first step is due.
    Boot,
    /// The caller makes the context of the measuring pass.
    MarkupStart,
    /// The measuring pass has its context: the script's step is due.
    TreeHeaderReady,
    /// The caller writes the tree's header.
    TreeHeaderWrite,
    /// The tree's header is written: the script's step is due.
    TreeHeaderWritten,
    /// The caller looks over the tree's header.
    TreeHeaderFinish,
    /// The measuring pass goes on: the script's step is due.
    Step,
    /// The caller writes a block's header.
    BlockHeaderWrite,
    /// The block's header is written: the script's step is due.
    BlockHeaderWritten,
    /// The caller looks over the block's header.
    BlockHeaderFinish,
    /// A call has failed in the middle: nothing can be done any more.
    Lost,
}

impl Context {
    /// Where the driver stands.
    pub closed spec fn mode(&self) -> Mode {
        match (self.mode_script, self.mode_continue) {
            (Some(ModeScript::Boot), None) => Mode::Boot,
            (Some(ModeScript::TreeHeaderWrite(_)), None) => Mode::TreeHeaderReady,
            (Some(ModeScript::TreeHeaderFinish(_)), None) => Mode::TreeHeaderWritten,
            (Some(ModeScript::Step(_)), None) => Mode::Step,
            (Some(ModeScript::BlockHeaderFinish(_)), None) => Mode::BlockHeaderWritten,
            (None, Some(ModeContinue::MarkupStart)) => Mode::MarkupStart,
            (None, Some(ModeContinue::TreeHeaderWrite(_))) => Mode::TreeHeaderWrite,
            (None, Some(ModeContinue::TreeHeaderFinish(_))) => Mode::TreeHeaderFinish,
            (None, Some(ModeContinue::BlockHeaderWrite(_))) => Mode::BlockHeaderWrite,
            (None, Some(ModeContinue::BlockHeaderFinish(_))) => Mode::BlockHeaderFinish,
            _ => Mode::Lost,
        }
    }

    /// Whether the script's step is due, and not a continuation of the
    /// caller's.
    pub open spec fn step_due(&self) -> bool {
        self.mode() is Boot || self.mode() is TreeHeaderReady || self.mode() is TreeHeaderWritten
            || self.mode() is Step || self.mode() is BlockHeaderWritten
    }

    /// The measuring pass, once the caller has made its context.
    pub closed spec fn markup(&self) -> Option<ContextMarkup> {
        match (self.mode_script, self.mode_continue) {
            (Some(ModeScript::TreeHeaderWrite(context)), None) => Some(context),
            (Some(ModeScript::TreeHeaderFinish(mode)), None) => Some(mode.markup_context),
            (Some(ModeScript::Step(mode)), None) => Some(mode.context),
            (Some(ModeScript::BlockHeaderFinish(mode)), None) => Some(mode.base.markup_context),
            (None, Some(ModeContinue::TreeHeaderWrite(mode))) => Some(mode.markup_context),
            (None, Some(ModeContinue::TreeHeaderFinish(mode))) => Some(mode.markup_context),
            (None, Some(ModeContinue::BlockHeaderWrite(mode))) => Some(mode.base.markup_context),
            (None, Some(ModeContinue::BlockHeaderFinish(mode))) => Some(mode.base.markup_context),
            _ => None,
        }
    }

    /// The size of the headers that were finished so far.
    pub closed spec fn total_size(&self) -> usize {
        match (self.mode_script, self.mode_continue) {
            (Some(ModeScript::TreeHeaderFinish(mode)), None) => mode.total_size,
            (Some(ModeScript::Step(mode)), None) => mode.total_size,
            (Some(ModeScript::BlockHeaderFinish(mode)), None) => mode.base.total_size,
            (None, Some(ModeContinue::TreeHeaderWrite(mode))) => mode.total_size,
            (None, Some(ModeContinue::TreeHeaderFinish(mode))) => mode.total_size,
            (None, Some(ModeContinue::BlockHeaderWrite(mode))) => mode.base.total_size,
            (None, Some(ModeContinue::BlockHeaderFinish(mode))) => mode.base.total_size,
            _ => 0,
        }
    }

    /// The bytes of the buffer that is in use.
    pub closed spec fn active_block(&self) -> Seq<u8> {
        match (self.mode_script, self.mode_continue) {
            (Some(ModeScript::TreeHeaderFinish(mode)), None) => mode.active_block@,
            (Some(ModeScript::BlockHeaderFinish(mode)), None) => mode.base.active_block@,
            (None, Some(ModeContinue::TreeHeaderWrite(mode))) => mode.active_block_writer@,
            (None, Some(ModeContinue::TreeHeaderFinish(mode))) => mode.active_block@,
            (None, Some(ModeContinue::BlockHeaderWrite(mode))) => mode.base.active_block_writer@,
            (None, Some(ModeContinue::BlockHeaderFinish(mode))) => mode.base.active_block@,
            _ => Seq::empty(),
        }
    }

    /// The buffer that is in use, as the writer that the measuring pass
    /// gets once a block's header is finished.
    pub closed spec fn active_writer(&self) -> Option<BlockWriter> {
        match (self.mode_script, self.mode_continue) {
            (Some(ModeScript::TreeHeaderFinish(mode)), None) => Some(
                BlockWriter { bytes: mode.active_block },
            ),
            (Some(ModeScript::BlockHeaderFinish(mode)), None) => Some(
                BlockWriter { bytes: mode.base.active_block },
            ),
            (None, Some(ModeContinue::TreeHeaderWrite(mode))) => Some(mode.active_block_writer),
            (None, Some(ModeContinue::TreeHeaderFinish(mode))) => Some(
                BlockWriter { bytes: mode.active_block },
            ),
            (None, Some(ModeContinue::BlockHeaderWrite(mode))) => Some(
                mode.base.active_block_writer,
            ),
            (None, Some(ModeContinue::BlockHeaderFinish(mode))) => Some(
                BlockWriter { bytes: mode.base.active_block },
            ),
            _ => None,
        }
    }

    /// The continuation of the measuring pass that waits for the block
    /// whose header is being written.
    pub closed spec fn block_next(&self) -> Option<markup::AllocBlockNext<BlockWriter>> {
        match (self.mode_script, self.mode_continue) {
            (Some(ModeScript::BlockHeaderFinish(mode)), None) => Some(mode.next),
            (None, Some(ModeContinue::BlockHeaderWrite(mode))) => Some(mode.next),
            (None, Some(ModeContinue::BlockHeaderFinish(mode))) => Some(mode.next),
            _ => None,
        }
    }

    /// The buffers that were put aside to be used again, the one that is
    /// taken next last.
    pub closed spec fn spare(&self) -> Seq<Seq<u8>> {
        Seq::new(self.available_blocks@.len(), |i: int| self.available_blocks@[i]@)
    }

    /// A step of the script is noted as due, whether or not the context is
    /// in order.
    pub closed spec fn script_set(&self) -> bool {
        self.mode_script is Some
    }

    /// A step of the script is noted as due in every mode in which one is
    /// due, and in none in which a continuation of the caller's is.
    pub proof fn lemma_script_set(&self)
        ensures
            self.step_due() ==> self.script_set(),
            self.mode_is_script_free() ==> !self.script_set(),
    {
    }

    /// The measuring pass, where there is one, can go on.
    pub open spec fn wf(&self) -> bool {
        self.markup() matches Some(context) ==> context.wf()
    }

    /// The context of a driver that has not started.
    pub fn new() -> (context: Context)
        ensures
            context.mode() is Boot,
            context.spare().len() == 0,
            context.wf(),
    {
        Context { mode_script: Some(ModeScript::Boot), mode_continue: None, available_blocks: Vec::new() }
    }

    /// Ends the driver's work: what the measuring pass has measured of
    /// each level whose last block is finished, root first, and the size of
    /// the headers. With them a writing pass can be set up, which the
    /// caller leads itself. They can be had while the measuring pass goes
    /// on and a step of the script is due, and in no other mode.
    pub fn into_measures(self) -> (result: Result<
        (Vec<crate::writer::two_pass::LevelCoords<usize>>, usize),
        Error,
    >)
        ensures
            match result {
                Ok((coords, total_size)) => {
                    &&& self.mode() is Step
                    &&& self.markup() matches Some(context)
                    &&& coords@ == markup::coords_of(fold::flushed_seeds(context.fold().levels()))
                    &&& total_size == self.total_size()
                },
                Err(error) => !(self.mode() is Step) && error
                    == Error::InvalidContextForStepMarkup,
            },
    {
        if self.mode_continue.is_some() {
            return Err(Error::InvalidContextForStepMarkup);
        }
        match self.mode_script {
            Some(ModeScript::Step(ModeMarkup { context, total_size })) => Ok(
                (context.into_level_coords_iter(), total_size),
            ),
            _ => Err(Error::InvalidContextForStepMarkup),
        }
    }

    /// A buffer: the one that was put aside last, which is then no longer
    /// kept, or an empty new one where none is kept.
    fn take_block(&mut self) -> (block: Vec<u8>)
        ensures
            final(self).mode_script == old(self).mode_script,
            final(self).mode_continue == old(self).mode_continue,
            old(self).available_blocks@.len() > 0 ==> {
                &&& block == old(self).available_blocks@.last()
                &&& final(self).available_blocks@ == old(self).available_blocks@.drop_last()
            },
            old(self).available_blocks@.len() == 0 ==> {
                &&& block@.len() == 0
                &&& final(self).available_blocks@.len() == 0
            },
            final(self).spare() == spare_taken(old(self).spare()),
    {
        proof {
            if self.available_blocks@.len() > 0 {
                assert(spare_taken(self.spare()) =~= Seq::new(
                    (self.available_blocks@.len() - 1) as nat,
                    |i: int| self.available_blocks@[i]@,
                ));
            }
        }
        let block = match self.available_blocks.pop() {
            Some(block) => block,
            None => Vec::new(),
        };
        proof {
            assert(self.spare() =~= spare_taken(old(self).spare()));
        }
        block
    }
}

/// The spare buffers once the last of them was taken; where there is none,
/// a new buffer is made and none is missing.
pub open spec fn spare_taken(spare: Seq<Seq<u8>>) -> Seq<Seq<u8>> {
    if spare.len() > 0 {
        spare.drop_last()
    } else {
        spare
    }
}

/// The spare buffers after a step of the script on `op`: a header that is
/// to be written takes the last of them, and a block that was finished
/// gives its buffer back where the step went well, which `done` says.
pub open spec fn spare_after(before: &Context, op: UnderlyingOp, done: bool) -> Seq<Seq<u8>> {
    match before.mode() {
        Mode::TreeHeaderReady => spare_taken(before.spare()),
        Mode::Step => match op.op() {
            Some(Pass::Markup(markup::Instruction::Op(markup::Op::AllocBlock(_)))) => spare_taken(
                before.spare(),
            ),
            Some(Pass::Markup(markup::Instruction::Op(markup::Op::FinishBlock(block)))) => if done {
                before.spare().push(block.block@)
            } else {
                before.spare()
            },
            _ => before.spare(),
        },
        _ => before.spare(),
    }
}

/// The driver itself: it holds nothing, all that it knows is in its
/// context.
pub struct Script(());

/// An instruction of one of the passes, or none.
pub struct UnderlyingOp(Option<Pass<InstructionMarkup, InstructionWrite>>);

impl UnderlyingOp {
    /// The instruction, if there is one.
    pub closed spec fn op(&self) -> Option<Pass<InstructionMarkup, InstructionWrite>> {
        self.0
    }
}

impl From<InstructionMarkup> for UnderlyingOp {
    fn from(op: InstructionMarkup) -> (underlying: UnderlyingOp)
        ensures
            underlying.op() == Some(Pass::<InstructionMarkup, InstructionWrite>::Markup(op)),
    {
        UnderlyingOp(Some(Pass::Markup(op)))
    }
}

impl vstd::std_specs::convert::FromSpecImpl<InstructionMarkup> for UnderlyingOp {
    open spec fn obeys_from_spec() -> bool {
        true
    }

    closed spec fn from_spec(op: InstructionMarkup) -> UnderlyingOp {
        UnderlyingOp(Some(Pass::Markup(op)))
    }
}

impl From<InstructionWrite> for UnderlyingOp {
    fn from(op: InstructionWrite) -> (underlying: UnderlyingOp)
        ensures
            underlying.op() == Some(Pass::<InstructionMarkup, InstructionWrite>::Write(op)),
    {
        UnderlyingOp(Some(Pass::Write(op)))
    }
}

impl vstd::std_specs::convert::FromSpecImpl<InstructionWrite> for UnderlyingOp {
    open spec fn obeys_from_spec() -> bool {
        true
    }

    closed spec fn from_spec(op: InstructionWrite) -> UnderlyingOp {
        UnderlyingOp(Some(Pass::Write(op)))
    }
}

impl Script {
    /// The continuation that starts the driver.
    pub fn boot() -> (kont: Continue)
        ensures
            kont.underlying_action matches UnderlyingAction::Idle(op) && op.op() is None,
    {
        Continue { underlying_action: UnderlyingAction::Idle(UnderlyingOp(None)), next: Script(()) }
    }

    /// Takes the driver's next step: hands the caller what is due, or deals
    /// itself with the instruction `op` of the measuring pass. A step is
    /// due when no continuation of the caller's is.
    pub fn step<'ctx>(self, context: &'ctx mut Context, op: UnderlyingOp) -> (result: Result<
        Instruction<'ctx>,
        Error,
    >)
        requires
            old(context).wf(),
        ensures
            final(context).spare() == spare_after(old(context), op, result is Ok),
            !old(context).step_due() ==> result matches Err(Error::ContinuationFinishRequired),
            !old(context).step_due() ==> final(context).mode() == (if old(context).mode_is_script_free() {
                old(context).mode()
            } else {
                Mode::Lost
            }),
            old(context).mode() is Boot ==> {
                &&& result matches Ok(Instruction::Op(Op::MarkupStart(_)))
                &&& final(context).mode() is MarkupStart
            },
            old(context).mode() is TreeHeaderReady ==> {
                &&& result matches Ok(Instruction::Op(Op::WriteTreeHeader(task)))
                &&& task.block_writer@.len() == 0
                &&& final(context).mode() is TreeHeaderWrite
                &&& final(context).markup() == old(context).markup()
                &&& final(context).total_size() == 0
                &&& final(context).active_block() == final(task.block_writer)@
            },
            old(context).mode() is TreeHeaderWritten ==> {
                &&& result matches Ok(Instruction::Op(Op::FinishTreeHeader(task)))
                &&& task.block@ == old(context).active_block()
                &&& final(context).mode() is TreeHeaderFinish
                &&& final(context).markup() == old(context).markup()
                &&& final(context).total_size() == old(context).total_size()
                &&& final(context).active_block() == final(task.block)@
            },
            old(context).mode() is BlockHeaderWritten ==> {
                &&& result matches Ok(Instruction::Op(Op::FinishBlockHeader(task)))
                &&& task.block@ == old(context).active_block()
                &&& final(context).mode() is BlockHeaderFinish
                &&& final(context).markup() == old(context).markup()
                &&& final(context).total_size() == old(context).total_size()
                &&& final(context).block_next() == old(context).block_next()
                &&& final(context).active_block() == final(task.block)@
            },
            old(context).mode() is Step ==> match op.op() {
                Some(Pass::Markup(markup::Instruction::Op(markup::Op::LevelHeaderSize(level)))) => {
                    let before = old(context).markup().unwrap();
                    let failure = markup::wrapped(
                        fold::give_back_error(
                            before.fold().levels(),
                            level.next.fold_next().level_index(),
                            fold::Error::InvalidLevelIndexForVisitLevel {
                                level_index: level.next.fold_next().level_index(),
                            },
                            fold::Error::AlreadyInitializedLevelForVisitLevel,
                        ),
                        |e: fold::Error| markup::Error::LevelHeaderSize(e),
                    );
                    match failure {
                        Some(error) => {
                            &&& result matches Err(Error::Markup(e)) && e == error
                            &&& final(context).mode() is Lost
                        },
                        None => {
                            &&& result matches Ok(Instruction::Noop(kont))
                            &&& kont.underlying_action matches UnderlyingAction::Step(step)
                            &&& step.pass() matches Pass::Markup(markup_kont)
                            &&& markup_kont.fold_action matches markup::FoldAction::Step(fold_kont)
                            &&& fold_kont.plan_action == fold::PlanAction::Idle(
                                level.next.fold_next().plan_next(),
                            )
                            &&& final(context).mode() is Step
                            &&& final(context).total_size() == old(context).total_size()
                            &&& final(context).markup() matches Some(after)
                            &&& after.child_pending() == before.child_pending()
                            &&& after.fold().plan() == before.fold().plan()
                            &&& after.fold().levels() == fold::given_back(
                                before.fold().levels(),
                                level.next.fold_next().level_index(),
                                fold::LevelState::SeenVisitLevel {
                                    level_seed: markup::LevelSeed {
                                        level_header_size: 0,
                                        level_size: 0,
                                        active_block: None,
                                    },
                                },
                            )
                        },
                    }
                },
                Some(Pass::Markup(markup::Instruction::Op(markup::Op::AllocBlock(block)))) => {
                    &&& result matches Ok(Instruction::Op(Op::WriteBlockHeader(task)))
                    &&& task.items_count == block.items_count
                    &&& task.block_writer@.len() == 0
                    &&& final(context).mode() is BlockHeaderWrite
                    &&& final(context).markup() == old(context).markup()
                    &&& final(context).total_size() == old(context).total_size()
                    &&& final(context).block_next() == Some(block.next)
                    &&& final(context).active_block() == final(task.block_writer)@
                },
                Some(Pass::Markup(markup::Instruction::Op(markup::Op::WriteItem(item)))) => {
                    let before = old(context).markup().unwrap();
                    let failure = markup::wrapped(
                        fold::give_back_error(
                            before.fold().levels(),
                            item.next.fold_next().level_index(),
                            fold::Error::InvalidLevelIndexForVisitItem {
                                level_index: item.next.fold_next().level_index(),
                            },
                            fold::Error::AlreadyInitializedLevelForVisitItem,
                        ),
                        |e: fold::Error| markup::Error::WriteItem(e),
                    );
                    match failure {
                        Some(error) => {
                            &&& result matches Err(Error::Markup(e)) && e == error
                            &&& final(context).mode() is Lost
                        },
                        None => {
                            &&& result matches Ok(Instruction::Noop(kont))
                            &&& kont.underlying_action matches UnderlyingAction::Step(step)
                            &&& step.pass() matches Pass::Markup(markup_kont)
                            &&& markup_kont.fold_action matches markup::FoldAction::Step(fold_kont)
                            &&& fold_kont.plan_action is Step
                            &&& final(context).mode() is Step
                            &&& final(context).total_size() == old(context).total_size()
                            &&& final(context).markup() matches Some(after)
                            &&& !after.child_pending()
                            &&& after.fold().plan() == before.fold().plan()
                            &&& after.fold().levels() == fold::given_back(
                                before.fold().levels(),
                                item.next.fold_next().level_index(),
                                fold::LevelState::SeenVisitBlockStart {
                                    level_seed: markup::LevelSeed {
                                        active_block: Some(item.block),
                                        ..item.next.level_seed()
                                    },
                                    block_index: item.next.fold_next().block_index(),
                                },
                            )
                        },
                    }
                },
                Some(Pass::Markup(markup::Instruction::Op(markup::Op::FinishBlock(block)))) => {
                    let before = old(context).markup().unwrap();
                    let measured = block.next.level_seed().level_size + block.block@.len();
                    let failure = markup::wrapped(
                        fold::give_back_error(
                            before.fold().levels(),
                            block.next.fold_next().level_index(),
                            fold::Error::InvalidLevelIndexForVisitBlockFinish {
                                level_index: block.next.fold_next().level_index(),
                            },
                            fold::Error::AlreadyInitializedLevelForVisitBlockFinish,
                        ),
                        |e: fold::Error| markup::Error::FinishBlock(e),
                    );
                    if measured > usize::MAX {
                        &&& result matches Err(Error::LevelTooLarge)
                        &&& final(context).mode() is Lost
                    } else {
                        match failure {
                            Some(error) => {
                                &&& result matches Err(Error::Markup(e)) && e == error
                                &&& final(context).mode() is Lost
                            },
                            None => {
                                &&& result matches Ok(Instruction::Noop(kont))
                                &&& kont.underlying_action matches UnderlyingAction::Step(step)
                                &&& step.pass() matches Pass::Markup(markup_kont)
                                &&& markup_kont.fold_action matches markup::FoldAction::Step(fold_kont)
                                &&& fold_kont.plan_action is Step
                                &&& final(context).mode() is Step
                                &&& final(context).total_size() == old(context).total_size()
                                &&& final(context).markup() matches Some(after)
                                &&& after.child_pending()
                                &&& after.fold().plan() == before.fold().plan()
                                &&& after.fold().levels() == fold::given_back(
                                    before.fold().levels(),
                                    block.next.fold_next().level_index(),
                                    fold::LevelState::SeenVisitBlockFinish {
                                        level_seed: markup::LevelSeed {
                                            level_header_size: block.next.level_seed().level_header_size,
                                            level_size: measured as usize,
                                            active_block: None,
                                        },
                                    },
                                )
                            },
                        }
                    }
                },
                Some(Pass::Markup(markup::Instruction::Done)) => {
                    &&& result matches Ok(Instruction::Done)
                    &&& final(context).mode() is Step
                    &&& final(context).markup() == old(context).markup()
                    &&& final(context).total_size() == old(context).total_size()
                },
                _ => {
                    &&& result matches Err(Error::InvalidContextModeForUnderlyingAction)
                    &&& final(context).mode() is Lost
                },
            },
            final(context).wf(),
    {
        if context.mode_continue.is_some() {
            return Err(Error::ContinuationFinishRequired);
        }
        let mode = context.mode_script.take();
        let next_mode = match mode {
            None => {
                return Err(Error::ContinuationFinishRequired);
            },
            Some(ModeScript::Boot) => ModeContinue::MarkupStart,
            Some(ModeScript::TreeHeaderWrite(markup_context)) => {
                let block = context.take_block();
                ModeContinue::TreeHeaderWrite(
                    ModeMarkupWrite {
                        total_size: 0,
                        markup_context,
                        active_block_writer: BlockWriter::new_blank(block),
                    },
                )
            },
            Some(ModeScript::TreeHeaderFinish(mode)) => ModeContinue::TreeHeaderFinish(mode),
            Some(ModeScript::BlockHeaderFinish(mode)) => ModeContinue::BlockHeaderFinish(mode),
            Some(ModeScript::Step(ModeMarkup { context: markup_context, total_size })) => {
                let mut markup_context = markup_context;
                match op.0 {
                    None => {
                        return Err(Error::InvalidContextModeForUnderlyingAction);
                    },
                    Some(Pass::Write(_)) => {
                        return Err(Error::InvalidContextModeForUnderlyingAction);
                    },
                    Some(
                        Pass::Markup(
                            markup::Instruction::Op(markup::Op::LevelHeaderSize(level)),
                        ),
                    ) => {
                        let markup_next = match level.next.level_header_size(
                            0,
                            &mut markup_context,
                        ) {
                            Ok(markup_next) => markup_next,
                            Err(error) => {
                                return Err(Error::Markup(error));
                            },
                        };
                        context.mode_script = Some(
                            ModeScript::Step(ModeMarkup { context: markup_context, total_size }),
                        );
                        return Ok(
                            Instruction::Noop(
                                Continue {
                                    underlying_action: UnderlyingAction::Step(
                                        UnderlyingActionStep(Pass::Markup(markup_next)),
                                    ),
                                    next: self,
                                },
                            ),
                        );
                    },
                    Some(Pass::Markup(markup::Instruction::Op(markup::Op::AllocBlock(block)))) => {
                        let buffer = context.take_block();
                        ModeContinue::BlockHeaderWrite(
                            ModeMarkupWriteBlockHeader {
                                base: ModeMarkupWrite {
                                    total_size,
                                    markup_context,
                                    active_block_writer: BlockWriter::new_blank(buffer),
                                },
                                items_count: block.items_count,
                                next: block.next,
                            },
                        )
                    },
                    Some(Pass::Markup(markup::Instruction::Op(markup::Op::WriteItem(item)))) => {
                        let markup_next = match item.next.item_written(
                            item.block,
                            &mut markup_context,
                        ) {
                            Ok(markup_next) => markup_next,
                            Err(error) => {
                                return Err(Error::Markup(error));
                            },
                        };
                        context.mode_script = Some(
                            ModeScript::Step(ModeMarkup { context: markup_context, total_size }),
                        );
                        return Ok(
                            Instruction::Noop(
                                Continue {
                                    underlying_action: UnderlyingAction::Step(
                                        UnderlyingActionStep(Pass::Markup(markup_next)),
                                    ),
                                    next: self,
                                },
                            ),
                        );
                    },
                    Some(Pass::Markup(markup::Instruction::Op(markup::Op::FinishBlock(block)))) => {
                        let buffer = block.block.into_inner();
                        let block_size = buffer.len();
                        if block_size > usize::MAX - block.next.level_size() {
                            return Err(Error::LevelTooLarge);
                        }
                        let markup_next = match block.next.block_finished(
                            block_size,
                            &mut markup_context,
                        ) {
                            Ok(markup_next) => markup_next,
                            Err(error) => {
                                return Err(Error::Markup(error));
                            },
                        };
                        context.available_blocks.push(buffer);
                        proof {
                            assert(context.spare() =~= old(context).spare().push(block.block@));
                        }
                        context.mode_script = Some(
                            ModeScript::Step(ModeMarkup { context: markup_context, total_size }),
                        );
                        return Ok(
                            Instruction::Noop(
                                Continue {
                                    underlying_action: UnderlyingAction::Step(
                                        UnderlyingActionStep(Pass::Markup(markup_next)),
                                    ),
                                    next: self,
                                },
                            ),
                        );
                    },
                    Some(Pass::Markup(markup::Instruction::Done)) => {
                        context.mode_script = Some(
                            ModeScript::Step(ModeMarkup { context: markup_context, total_size }),
                        );
                        return Ok(Instruction::Done);
                    },
                }
            },
        };
        context.mode_continue = Some(next_mode);
        match &mut context.mode_continue {
            None => Err(Error::ContextModesOutOfSync),
            Some(ModeContinue::MarkupStart) => Ok(
                Instruction::Op(Op::MarkupStart(MarkupStart { next: self })),
            ),
            Some(ModeContinue::TreeHeaderWrite(ModeMarkupWrite { active_block_writer, .. })) => Ok(
                Instruction::Op(
                    Op::WriteTreeHeader(
                        WriteTreeHeader {
                            block_writer: active_block_writer,
                            next: WriteTreeHeaderNext { script: self },
                        },
                    ),
                ),
            ),
            Some(ModeContinue::TreeHeaderFinish(ModeMarkupFinish { active_block, .. })) => Ok(
                Instruction::Op(
                    Op::FinishTreeHeader(
                        FinishTreeHeader {
                            block: active_block,
                            next: FinishTreeHeaderNext { script: self },
                        },
                    ),
                ),
            ),
            Some(
                ModeContinue::BlockHeaderWrite(
                    ModeMarkupWriteBlockHeader {
                        base: ModeMarkupWrite { active_block_writer, .. },
                        items_count,
                        ..
                    },
                ),
            ) => Ok(
                Instruction::Op(
                    Op::WriteBlockHeader(
                        WriteBlockHeader {
                            items_count: *items_count,
                            block_writer: active_block_writer,
                            next: WriteBlockHeaderNext { script: self },
                        },
                    ),
                ),
            ),
            Some(
                ModeContinue::BlockHeaderFinish(
                    ModeMarkupFinishBlockHeader { base: ModeMarkupFinish { active_block, .. }, .. },
                ),
            ) => Ok(
                Instruction::Op(
                    Op::FinishBlockHeader(
                        FinishBlockHeader {
                            block: active_block,
                            next: FinishBlockHeaderNext { script: self },
                        },
                    ),
                ),
            ),
        }
    }
}

impl Context {
    /// A continuation of the caller's is due.
    pub open spec fn mode_is_script_free(&self) -> bool {
        self.mode() is MarkupStart || self.mode() is TreeHeaderWrite || self.mode()
            is TreeHeaderFinish || self.mode() is BlockHeaderWrite || self.mode()
            is BlockHeaderFinish
    }
}

/// A continuation of one of the passes, to be followed in the pass's own
/// context.
pub struct UnderlyingActionStep(Pass<ContinueMarkup, ContinueWrite>);

/// The measuring pass's context, with the continuation to follow in it.
pub struct ActionMarkup<'a> {
    pub context: &'a mut ContextMarkup,
    pub next: ContinueMarkup,
}

/// The writing pass's context, with the continuation to follow in it.
pub struct ActionWrite<'a> {
    pub context: &'a mut ContextWrite,
    pub next: ContinueWrite,
}

impl UnderlyingActionStep {
    /// The continuation, and the pass that it belongs to.
    pub closed spec fn pass(&self) -> Pass<ContinueMarkup, ContinueWrite> {
        self.0
    }

    /// Hands out the pass's own context with the continuation. Only the
    /// measuring pass has one, and only while it goes on.
    pub fn action<'a>(self, context: &'a mut Context) -> (result: Result<
        Pass<ActionMarkup<'a>, ActionWrite<'a>>,
        Error,
    >)
        requires
            old(context).wf(),
        ensures
            match (self.pass(), old(context).mode()) {
                (Pass::Markup(kont), Mode::Step) => {
                    &&& result matches Ok(Pass::Markup(action))
                    &&& action.next == kont
                    &&& Some(*action.context) == old(context).markup()
                    &&& final(context).mode() is Step
                    &&& final(context).total_size() == old(context).total_size()
                    &&& final(context).markup() == Some(*final(action.context))
                    &&& final(context).spare() == old(context).spare()
                },
                _ => {
                    &&& result matches Err(Error::InvalidContextModeForUnderlyingAction)
                    &&& *final(context) == *old(context)
                },
            },
    {
        match self.0 {
            Pass::Markup(continue_markup) => {
                if context.mode_continue.is_some() {
                    return Err(Error::InvalidContextModeForUnderlyingAction);
                }
                match &mut context.mode_script {
                    Some(ModeScript::Step(ModeMarkup { context: markup_context, .. })) => Ok(
                        Pass::Markup(ActionMarkup { context: markup_context, next: continue_markup }),
                    ),
                    _ => Err(Error::InvalidContextModeForUnderlyingAction),
                }
            },
            Pass::Write(_) => Err(Error::InvalidContextModeForUnderlyingAction),
        }
    }
}

/// The request to make the context of the measuring pass.
pub struct MarkupStart {
    next: Script,
}

impl MarkupStart {
    /// Hands in the context of the measuring pass.
    pub fn created_context(self, markup_context: ContextMarkup, context: &mut Context) -> (result:
        Result<Continue, Error>)
        requires
            old(context).wf(),
            markup_context.wf(),
        ensures
            final(context).wf(),
            old(context).mode() is MarkupStart ==> {
                &&& result matches Ok(kont)
                &&& kont.underlying_action matches UnderlyingAction::Idle(op) && op.op() is None
                &&& final(context).mode() is TreeHeaderReady
                &&& final(context).markup() == Some(markup_context)
            },
            old(context).script_set() ==> {
                &&& result matches Err(Error::ScriptStepRequired)
                &&& *final(context) == *old(context)
            },
            !old(context).script_set() && !(old(context).mode() is MarkupStart) ==> {
                &&& result matches Err(Error::InvalidContextModeForMarkupStart)
                &&& final(context).mode() is Lost
            },
            final(context).spare() == old(context).spare(),
    {
        if context.mode_script.is_some() {
            return Err(Error::ScriptStepRequired);
        }
        match context.mode_continue.take() {
            Some(ModeContinue::MarkupStart) => {
                context.mode_script = Some(ModeScript::TreeHeaderWrite(markup_context));
                Ok(
                    Continue {
                        underlying_action: UnderlyingAction::Idle(UnderlyingOp(None)),
                        next: self.next,
                    },
                )
            },
            _ => Err(Error::InvalidContextModeForMarkupStart),
        }
    }
}

/// The request to write the tree's header into the buffer.
pub struct WriteTreeHeader<'ctx> {
    pub block_writer: &'ctx mut BlockWriter,
    pub next: WriteTreeHeaderNext,
}

/// The way on once the tree's header is written.
pub struct WriteTreeHeaderNext {
    script: Script,
}

impl WriteTreeHeaderNext {
    /// Says that the tree's header is written.
    pub fn tree_header_written(self, context: &mut Context) -> (result: Result<Continue, Error>)
        requires
            old(context).wf(),
        ensures
            final(context).wf(),
            old(context).mode() is TreeHeaderWrite ==> {
                &&& result matches Ok(kont)
                &&& kont.underlying_action matches UnderlyingAction::Idle(op) && op.op() is None
                &&& final(context).mode() is TreeHeaderWritten
                &&& final(context).markup() == old(context).markup()
                &&& final(context).total_size() == old(context).total_size()
                &&& final(context).active_block() == old(context).active_block()
            },
            old(context).script_set() ==> {
                &&& result matches Err(Error::ScriptStepRequired)
                &&& *final(context) == *old(context)
            },
            !old(context).script_set() && !(old(context).mode() is TreeHeaderWrite) ==> {
                &&& result matches Err(Error::InvalidContextModeForWriteTreeHeader)
                &&& final(context).mode() is Lost
            },
            final(context).spare() == old(context).spare(),
    {
        if context.mode_script.is_some() {
            return Err(Error::ScriptStepRequired);
        }
        match context.mode_continue.take() {
            Some(
                ModeContinue::TreeHeaderWrite(
                    ModeMarkupWrite { total_size, markup_context, active_block_writer },
                ),
            ) => {
                context.mode_script = Some(
                    ModeScript::TreeHeaderFinish(
                        ModeMarkupFinish {
                            total_size,
                            markup_context,
                            active_block: active_block_writer.into_inner(),
                        },
                    ),
                );
                Ok(
                    Continue {
                        underlying_action: UnderlyingAction::Idle(UnderlyingOp(None)),
                        next: self.script,
                    },
                )
            },
            _ => Err(Error::InvalidContextModeForWriteTreeHeader),
        }
    }
}

/// The request to look over the tree's header.
pub struct FinishTreeHeader<'ctx> {
    pub block: &'ctx mut Vec<u8>,
    pub next: FinishTreeHeaderNext,
}

/// The way on once the tree's header is as it shall be.
pub struct FinishTreeHeaderNext {
    script: Script,
}

impl FinishTreeHeaderNext {
    /// Says that the tree's header is as it shall be: its size counts, and
    /// the measuring pass begins.
    pub fn tree_header_finished(self, context: &mut Context) -> (result: Result<Continue, Error>)
        requires
            old(context).wf(),
            old(context).mode() is TreeHeaderFinish ==> old(context).total_size() + old(context).active_block().len() <= usize::MAX,
        ensures
            final(context).wf(),
            old(context).mode() is TreeHeaderFinish ==> {
                &&& result matches Ok(kont)
                &&& kont.underlying_action matches UnderlyingAction::Step(step)
                &&& step.pass() matches Pass::Markup(markup_kont)
                &&& markup_kont.fold_action matches markup::FoldAction::Step(fold_kont)
                &&& fold_kont.plan_action is Step
                &&& final(context).mode() is Step
                &&& final(context).markup() == old(context).markup()
                &&& final(context).total_size() == old(context).total_size() + old(context).active_block().len()
                &&& final(context).spare() == old(context).spare().push(old(context).active_block())
            },
            !(old(context).mode() is TreeHeaderFinish) ==> final(context).spare() == old(context).spare(),
            old(context).script_set() ==> {
                &&& result matches Err(Error::ScriptStepRequired)
                &&& *final(context) == *old(context)
            },
            !old(context).script_set() && !(old(context).mode() is TreeHeaderFinish) ==> {
                &&& result matches Err(Error::InvalidContextModeForFinishTreeHeader)
                &&& final(context).mode() is Lost
            },
    {
        if context.mode_script.is_some() {
            return Err(Error::ScriptStepRequired);
        }
        match context.mode_continue.take() {
            Some(
                ModeContinue::TreeHeaderFinish(
                    ModeMarkupFinish { total_size, markup_context, active_block },
                ),
            ) => {
                let tree_header_size = active_block.len();
                context.mode_script = Some(
                    ModeScript::Step(
                        ModeMarkup {
                            context: markup_context,
                            total_size: total_size + tree_header_size,
                        },
                    ),
                );
                context.available_blocks.push(active_block);
                proof {
                    assert(context.spare() =~= old(context).spare().push(old(context).active_block()));
                }
                Ok(
                    Continue {
                        underlying_action: UnderlyingAction::Step(
                            UnderlyingActionStep(Pass::Markup(markup::Script::boot())),
                        ),
                        next: self.script,
                    },
                )
            },
            _ => Err(Error::InvalidContextModeForFinishTreeHeader),
        }
    }
}

/// The request to write the header of a block of `items_count` items into
/// the buffer.
pub struct WriteBlockHeader<'ctx> {
    pub items_count: usize,
    pub block_writer: &'ctx mut BlockWriter,
    pub next: WriteBlockHeaderNext,
}

/// The way on once a block's header is written.
pub struct WriteBlockHeaderNext {
    script: Script,
}

impl WriteBlockHeaderNext {
    /// Says that the block's header is written.
    pub fn block_header_written(self, context: &mut Context) -> (result: Result<Continue, Error>)
        requires
            old(context).wf(),
        ensures
            final(context).wf(),
            old(context).mode() is BlockHeaderWrite ==> {
                &&& result matches Ok(kont)
                &&& kont.underlying_action matches UnderlyingAction::Idle(op) && op.op() is None
                &&& final(context).mode() is BlockHeaderWritten
                &&& final(context).markup() == old(context).markup()
                &&& final(context).total_size() == old(context).total_size()
                &&& final(context).active_block() == old(context).active_block()
                &&& final(context).block_next() == old(context).block_next()
            },
            old(context).script_set() ==> {
                &&& result matches Err(Error::ScriptStepRequired)
                &&& *final(context) == *old(context)
            },
            !old(context).script_set() && !(old(context).mode() is BlockHeaderWrite) ==> {
                &&& result matches Err(Error::InvalidContextModeForWriteBlockHeader)
                &&& final(context).mode() is Lost
            },
            final(context).spare() == old(context).spare(),
    {
        if context.mode_script.is_some() {
            return Err(Error::ScriptStepRequired);
        }
        match context.mode_continue.take() {
            Some(
                ModeContinue::BlockHeaderWrite(
                    ModeMarkupWriteBlockHeader {
                        base: ModeMarkupWrite { total_size, markup_context, active_block_writer },
                        next,
                        ..
                    },
                ),
            ) => {
                context.mode_script = Some(
                    ModeScript::BlockHeaderFinish(
                        ModeMarkupFinishBlockHeader {
                            base: ModeMarkupFinish {
                                total_size,
                                markup_context,
                                active_block: active_block_writer.into_inner(),
                            },
                            next,
                        },
                    ),
                );
                Ok(
                    Continue {
                        underlying_action: UnderlyingAction::Idle(UnderlyingOp(None)),
                        next: self.script,
                    },
                )
            },
            _ => Err(Error::InvalidContextModeForWriteBlockHeader),
        }
    }
}

/// The request to look over a block's header.
pub struct FinishBlockHeader<'ctx> {
    pub block: &'ctx mut Vec<u8>,
    pub next: FinishBlockHeaderNext,
}

/// The way on once a block's header is as it shall be.
pub struct FinishBlockHeaderNext {
    script: Script,
}

impl FinishBlockHeaderNext {
    /// Says that the block's header is as it shall be: its size counts, and
    /// the measuring pass gets the block with the header in it.
    pub fn block_header_finished(self, context: &mut Context) -> (result: Result<Continue, Error>)
        requires
            old(context).wf(),
            old(context).mode() is BlockHeaderFinish ==> old(context).total_size() + old(context).active_block().len() <= usize::MAX,
        ensures
            final(context).wf() || final(context).mode() is Lost,
            old(context).mode() is BlockHeaderFinish ==> {
                let before = old(context).markup().unwrap();
                let next = old(context).block_next().unwrap();
                let failure = markup::wrapped(
                    fold::give_back_error(
                        before.fold().levels(),
                        next.fold_next().level_index(),
                        fold::Error::InvalidLevelIndexForVisitBlockStart {
                            level_index: next.fold_next().level_index(),
                        },
                        fold::Error::AlreadyInitializedLevelForVisitBlockStart,
                    ),
                    |e: fold::Error| markup::Error::BlockReady(e),
                );
                match failure {
                    Some(error) => {
                        &&& result matches Err(Error::ContinueMarkup(e)) && e == error
                        &&& final(context).mode() is Lost
                    },
                    None => {
                        &&& result matches Ok(kont)
                        &&& kont.underlying_action matches UnderlyingAction::Step(step)
                        &&& step.pass() matches Pass::Markup(markup_kont)
                        &&& markup_kont.fold_action matches markup::FoldAction::Step(fold_kont)
                        &&& fold_kont.plan_action is Step
                        &&& final(context).mode() is Step
                        &&& final(context).total_size() == old(context).total_size() + old(
                            context,
                        ).active_block().len()
                        &&& final(context).markup() matches Some(after)
                        &&& after.child_pending() == before.child_pending()
                        &&& after.fold().plan() == before.fold().plan()
                        &&& after.fold().levels() == fold::given_back(
                            before.fold().levels(),
                            next.fold_next().level_index(),
                            fold::LevelState::SeenVisitBlockStart {
                                level_seed: markup::LevelSeed {
                                    active_block: old(context).active_writer(),
                                    ..next.level_seed()
                                },
                                block_index: next.fold_next().block_index(),
                            },
                        )
                    },
                }
            },
            old(context).script_set() ==> {
                &&& result matches Err(Error::ScriptStepRequired)
                &&& *final(context) == *old(context)
            },
            !old(context).script_set() && !(old(context).mode() is BlockHeaderFinish) ==> {
                &&& result matches Err(Error::InvalidContextModeForFinishBlockHeader)
                &&& final(context).mode() is Lost
            },
            final(context).spare() == old(context).spare(),
    {
        if context.mode_script.is_some() {
            return Err(Error::ScriptStepRequired);
        }
        match context.mode_continue.take() {
            Some(
                ModeContinue::BlockHeaderFinish(
                    ModeMarkupFinishBlockHeader {
                        base: ModeMarkupFinish { total_size, markup_context, active_block },
                        next,
                    },
                ),
            ) => {
                let mut markup_context = markup_context;
                let block_header_size = active_block.len();
                let block = BlockWriter::new(active_block);
                let markup_next = match next.block_ready(block, &mut markup_context) {
                    Ok(markup_next) => markup_next,
                    Err(error) => {
                        return Err(Error::ContinueMarkup(error));
                    },
                };
                context.mode_script = Some(
                    ModeScript::Step(
                        ModeMarkup {
                            context: markup_context,
                            total_size: total_size + block_header_size,
                        },
                    ),
                );
                Ok(
                    Continue {
                        underlying_action: UnderlyingAction::Step(
                            UnderlyingActionStep(Pass::Markup(markup_next)),
                        ),
                        next: self.script,
                    },
                )
            },
            _ => Err(Error::InvalidContextModeForFinishBlockHeader),
        }
    }
}

/// What the measuring pass asks for when `kont` is followed in `context`,
/// or its failure.
pub open spec fn markup_outcome(kont: ContinueMarkup, context: ContextMarkup) -> Result<
    markup::Task<BlockWriter>,
    markup::Error,
> {
    match kont.fold_visit(context.fold()) {
        Ok(visit) => markup::task_for(visit, context.child_pending()),
        Err(error) => Err(markup::Error::StepRec(error)),
    }
}

/// What the driver makes of a task of the measuring pass that it deals
/// with by itself, once `kont` was followed in `before`: the levels of the
/// fold with the level's seed given back, and whether a finished block
/// waits for the item above it; or the failure. A level gets no header, an
/// item leaves its block as it is, and a finished block is measured as it
/// stands.
pub open spec fn dealt(
    kont: ContinueMarkup,
    before: ContextMarkup,
    task: markup::Task<BlockWriter>,
) -> Result<(Seq<Option<fold::LevelState<markup::LevelSeed<BlockWriter>>>>, bool), Error> {
    let out = kont.levels_after(before.fold());
    let seed = match kont.fold_visit(before.fold()) {
        Ok(visit) => markup::seed_kept(visit),
        Err(_) => None,
    };
    match task {
        markup::Task::LevelHeaderSize { level_index } => match fold::give_back_error(
            out,
            level_index,
            fold::Error::InvalidLevelIndexForVisitLevel { level_index },
            fold::Error::AlreadyInitializedLevelForVisitLevel,
        ) {
            Some(error) => Err(Error::Markup(markup::Error::LevelHeaderSize(error))),
            None => Ok(
                (
                    fold::given_back(
                        out,
                        level_index,
                        fold::LevelState::SeenVisitLevel {
                            level_seed: markup::LevelSeed {
                                level_header_size: 0,
                                level_size: 0,
                                active_block: None,
                            },
                        },
                    ),
                    before.child_pending(),
                ),
            ),
        },
        markup::Task::WriteItem { level_index, block_index, block, .. } => match fold::give_back_error(
            out,
            level_index,
            fold::Error::InvalidLevelIndexForVisitItem { level_index },
            fold::Error::AlreadyInitializedLevelForVisitItem,
        ) {
            Some(error) => Err(Error::Markup(markup::Error::WriteItem(error))),
            None => Ok(
                (
                    fold::given_back(
                        out,
                        level_index,
                        fold::LevelState::SeenVisitBlockStart {
                            level_seed: markup::LevelSeed {
                                active_block: Some(block),
                                ..seed.unwrap()
                            },
                            block_index,
                        },
                    ),
                    false,
                ),
            ),
        },
        markup::Task::FinishBlock { level_index, block, .. } => if seed.unwrap().level_size
            + block@.len() > usize::MAX {
            Err(Error::LevelTooLarge)
        } else {
            match fold::give_back_error(
                out,
                level_index,
                fold::Error::InvalidLevelIndexForVisitBlockFinish { level_index },
                fold::Error::AlreadyInitializedLevelForVisitBlockFinish,
            ) {
                Some(error) => Err(Error::Markup(markup::Error::FinishBlock(error))),
                None => Ok(
                    (
                        fold::given_back(
                            out,
                            level_index,
                            fold::LevelState::SeenVisitBlockFinish {
                                level_seed: markup::LevelSeed {
                                    level_header_size: seed.unwrap().level_header_size,
                                    level_size: (seed.unwrap().level_size + block@.len()) as usize,
                                    active_block: None,
                                },
                            },
                        ),
                        true,
                    ),
                ),
            }
        },
        _ => Err(Error::InvalidContextModeForUnderlyingAction),
    }
}

impl Continue {
    /// Follows a continuation of the measuring pass where one is due, and
    /// takes the driver's next step on what it gives.
    pub fn step_rec<'ctx>(self, sequential_context: &'ctx mut Context) -> (result: Result<
        Instruction<'ctx>,
        Error,
    >)
        requires
            old(sequential_context).wf(),
        ensures
            final(sequential_context).wf(),
            final(sequential_context).spare() == match self.underlying_action {
                UnderlyingAction::Idle(op) => spare_after(old(sequential_context), op, result is Ok),
                UnderlyingAction::Step(step) => match (step.pass(), old(sequential_context).mode()) {
                    (Pass::Markup(kont), Mode::Step) => match markup_outcome(
                        kont,
                        old(sequential_context).markup().unwrap(),
                    ) {
                        Ok(markup::Task::AllocBlock { .. }) => spare_taken(
                            old(sequential_context).spare(),
                        ),
                        Ok(markup::Task::FinishBlock { block, .. }) => if result is Ok {
                            old(sequential_context).spare().push(block@)
                        } else {
                            old(sequential_context).spare()
                        },
                        _ => old(sequential_context).spare(),
                    },
                    _ => old(sequential_context).spare(),
                },
            },
            match self.underlying_action {
                UnderlyingAction::Idle(op) => {
                    &&& !old(sequential_context).step_due() ==> (result matches Err(
                        Error::ContinuationFinishRequired,
                    ))
                    &&& old(sequential_context).mode() is Boot ==> {
                        &&& result matches Ok(Instruction::Op(Op::MarkupStart(_)))
                        &&& final(sequential_context).mode() is MarkupStart
                    }
                    &&& old(sequential_context).mode() is TreeHeaderReady ==> {
                        &&& result matches Ok(Instruction::Op(Op::WriteTreeHeader(task)))
                        &&& task.block_writer@.len() == 0
                        &&& final(sequential_context).mode() is TreeHeaderWrite
                    }
                    &&& old(sequential_context).mode() is TreeHeaderWritten ==> {
                        &&& result matches Ok(Instruction::Op(Op::FinishTreeHeader(task)))
                        &&& task.block@ == old(sequential_context).active_block()
                        &&& final(sequential_context).mode() is TreeHeaderFinish
                    }
                    &&& old(sequential_context).mode() is BlockHeaderWritten ==> {
                        &&& result matches Ok(Instruction::Op(Op::FinishBlockHeader(task)))
                        &&& task.block@ == old(sequential_context).active_block()
                        &&& final(sequential_context).mode() is BlockHeaderFinish
                    }
                },
                UnderlyingAction::Step(step) => match (step.pass(), old(sequential_context).mode()) {
                    (Pass::Markup(kont), Mode::Step) => match markup_outcome(
                        kont,
                        old(sequential_context).markup().unwrap(),
                    ) {
                        Err(error) => {
                            &&& result matches Err(Error::StepRecMarkup(e)) && e == error
                            &&& final(sequential_context).mode() is Step
                        },
                        Ok(markup::Task::AllocBlock { items_count, .. }) => {
                            &&& result matches Ok(Instruction::Op(Op::WriteBlockHeader(task)))
                            &&& task.items_count == items_count
                            &&& task.block_writer@.len() == 0
                            &&& final(sequential_context).mode() is BlockHeaderWrite
                            &&& final(sequential_context).total_size() == old(sequential_context).total_size()
                        },
                        Ok(markup::Task::Done) => {
                            &&& result matches Ok(Instruction::Done)
                            &&& final(sequential_context).mode() is Step
                            &&& final(sequential_context).total_size() == old(sequential_context).total_size()
                        },
                        Ok(task) => (exists|event: Option<crate::writer::plan::Event>|
                            kont.links(old(sequential_context).markup().unwrap().fold(), event))
                            ==> {
                            let before = old(sequential_context).markup().unwrap();
                            match dealt(kont, before, task) {
                                Err(error) => {
                                    &&& result matches Err(e) && e == error
                                    &&& final(sequential_context).mode() is Lost
                                },
                                Ok((levels, child_pending)) => {
                                    &&& result matches Ok(Instruction::Noop(_))
                                    &&& final(sequential_context).mode() is Step
                                    &&& final(sequential_context).total_size() == old(sequential_context).total_size()
                                    &&& final(sequential_context).markup() matches Some(after)
                                    &&& after.child_pending() == child_pending
                                    &&& after.fold().plan()@ == kont.plan_after(before.fold())
                                    &&& after.fold().levels() == levels
                                },
                            }
                        },
                    },
                    _ => {
                        &&& result matches Err(Error::InvalidContextModeForUnderlyingAction)
                        &&& *final(sequential_context) == *old(sequential_context)
                    },
                },
            },
    {
        let underlying_op = match self.underlying_action {
            UnderlyingAction::Idle(underlying_op) => underlying_op,
            UnderlyingAction::Step(underlying_step) => {
                match underlying_step.action(sequential_context) {
                    Err(error) => {
                        return Err(error);
                    },
                    Ok(Pass::Markup(ActionMarkup { context: markup_ctx, next: markup_continue })) => {
                        match markup_continue.step_rec(markup_ctx) {
                            Ok(instruction) => UnderlyingOp::from(instruction),
                            Err(error) => {
                                return Err(Error::StepRecMarkup(error));
                            },
                        }
                    },
                    Ok(Pass::Write(_)) => {
                        proof {
                            assert(false);
                        }
                        return vstd::pervasive::unreached();
                    },
                }
            },
        };
        self.next.step(sequential_context, underlying_op)
    }
}

} // verus!
