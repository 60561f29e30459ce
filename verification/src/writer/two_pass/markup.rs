//! The measuring pass: blocks are filled with placeholders, and only their
//! sizes are kept.

use vstd::prelude::*;
use crate::writer::fold;
use crate::writer::plan;
use crate::writer::two_pass::LevelCoords;

verus! {

/// What the pass asks for next: a task, or nothing more.
pub enum Instruction<B> {
    Op(Op<B>),
    Done,
}

/// The tasks of the pass: to say how large a level's header is, to make a
/// block, to write an item into it, and to finish it and say how large it is.
pub enum Op<B> {
    LevelHeaderSize(LevelHeaderSize),
    AllocBlock(AllocBlock<B>),
    WriteItem(WriteItem<B>),
    FinishBlock(FinishBlock<B>),
}

/// The way on from a task: the fold's instruction to look at, or the step of
/// the fold to take.
pub struct Continue<B> {
    pub fold_action: FoldAction<B>,
    pub next: Script,
}

/// What a continuation holds of the fold.
pub enum FoldAction<B> {
    Idle(fold::Instruction<LevelSeed<B>>),
    Step(fold::Continue),
}

/// The failures of the pass: those of the fold, named after the call that met
/// them, and a level that has no block where one is due.
#[derive(Clone, PartialEq, Debug)]
pub enum Error {
    LevelHeaderSize(fold::Error),
    BlockReady(fold::Error),
    WriteItem(fold::Error),
    FinishBlock(fold::Error),
    NoActiveBlockWhileWriteItem,
    NoActiveBlockWhileBlockFinish,
    StepRec(fold::Error),
}

/// What the pass knows: the fold, and whether a block was finished since the
/// last item.
pub struct Context<B> {
    fold_ctx: fold::Context<LevelSeed<B>>,
    child_pending: bool,
}

/// The pass itself: it holds nothing, all that it knows is in its context.
pub struct Script(());

/// What the pass keeps of a level: the size of its header, the size of the
/// level so far, and the block that is being filled.
pub struct LevelSeed<B> {
    pub level_header_size: usize,
    pub level_size: usize,
    pub active_block: Option<B>,
}

/// A task without its continuation.
pub enum Task<B> {
    LevelHeaderSize { level_index: usize },
    AllocBlock { level_index: usize, block_index: usize, items_count: usize },
    WriteItem {
        level_index: usize,
        block_index: usize,
        block_item_index: usize,
        block: B,
        child_pending: bool,
    },
    FinishBlock { level_index: usize, block_index: usize, block: B },
    Done,
}

/// The task that a visit leads to, or the error that it meets; `child_pending`
/// says whether a block was finished since the last item.
pub open spec fn task_for<B>(visit: fold::Visit<LevelSeed<B>>, child_pending: bool) -> Result<
    Task<B>,
    Error,
> {
    match visit {
        fold::Visit::Level { level_index } => Ok(Task::LevelHeaderSize { level_index }),
        fold::Visit::BlockStart { level_index, block_index, items_count, .. } => Ok(
            Task::AllocBlock { level_index, block_index, items_count },
        ),
        fold::Visit::Item { level_index, level_seed, block_index, block_item_index } => {
            match level_seed.active_block {
                Some(block) => Ok(
                    Task::WriteItem {
                        level_index,
                        block_index,
                        block_item_index,
                        block,
                        child_pending,
                    },
                ),
                None => Err(Error::NoActiveBlockWhileWriteItem),
            }
        },
        fold::Visit::BlockFinish { level_index, level_seed, block_index } => {
            match level_seed.active_block {
                Some(block) => Ok(Task::FinishBlock { level_index, block_index, block }),
                None => Err(Error::NoActiveBlockWhileBlockFinish),
            }
        },
        fold::Visit::Done => Ok(Task::Done),
    }
}

/// The seed that a task's continuation keeps while the caller works on the
/// task: that of the visit, with the block handed out.
pub open spec fn seed_kept<B>(visit: fold::Visit<LevelSeed<B>>) -> Option<LevelSeed<B>> {
    match visit {
        fold::Visit::BlockStart { level_seed, .. } => Some(level_seed),
        fold::Visit::Item { level_seed, .. } => Some(
            LevelSeed { active_block: None, ..level_seed },
        ),
        fold::Visit::BlockFinish { level_seed, .. } => Some(
            LevelSeed { active_block: None, ..level_seed },
        ),
        _ => None,
    }
}

/// The measures that the seeds of finished levels give.
pub open spec fn coords_of<B>(seeds: Seq<(usize, LevelSeed<B>)>) -> Seq<LevelCoords<usize>> {
    Seq::new(
        seeds.len(),
        |i: int|
            LevelCoords {
                index: seeds[i].0,
                header_size: seeds[i].1.level_header_size,
                total_size: seeds[i].1.level_size,
            },
    )
}

impl<B> Instruction<B> {
    /// The task that the instruction asks for, without its continuation.
    pub open spec fn task(self) -> Task<B> {
        match self {
            Instruction::Op(Op::LevelHeaderSize(t)) => Task::LevelHeaderSize {
                level_index: t.level_index,
            },
            Instruction::Op(Op::AllocBlock(t)) => Task::AllocBlock {
                level_index: t.level_index,
                block_index: t.block_index,
                items_count: t.items_count,
            },
            Instruction::Op(Op::WriteItem(t)) => Task::WriteItem {
                level_index: t.level_index,
                block_index: t.block_index,
                block_item_index: t.block_item_index,
                block: t.block,
                child_pending: t.child_pending,
            },
            Instruction::Op(Op::FinishBlock(t)) => Task::FinishBlock {
                level_index: t.level_index,
                block_index: t.block_index,
                block: t.block,
            },
            Instruction::Done => Task::Done,
        }
    }

    /// The continuation belongs to the instruction: it names the same level
    /// and block and holds the seed `seed`; that of a level's header holds
    /// `event` for the fold to look at again.
    pub open spec fn linked(self, seed: Option<LevelSeed<B>>, event: Option<plan::Event>) -> bool {
        match self {
            Instruction::Op(Op::LevelHeaderSize(t)) => {
                &&& t.next.fold_next().level_index() == t.level_index
                &&& t.next.fold_next().plan_next().event() == event
            },
            Instruction::Op(Op::AllocBlock(t)) => {
                &&& t.next.fold_next().level_index() == t.level_index
                &&& t.next.fold_next().block_index() == t.block_index
                &&& Some(t.next.level_seed()) == seed
            },
            Instruction::Op(Op::WriteItem(t)) => {
                &&& t.next.fold_next().level_index() == t.level_index
                &&& t.next.fold_next().block_index() == t.block_index
                &&& Some(t.next.level_seed()) == seed
            },
            Instruction::Op(Op::FinishBlock(t)) => {
                &&& t.next.fold_next().level_index() == t.level_index
                &&& Some(t.next.level_seed()) == seed
            },
            Instruction::Done => true,
        }
    }
}

/// What a step returns, without the continuations.
pub open spec fn outcome<B>(result: Result<Instruction<B>, Error>) -> Result<Task<B>, Error> {
    match result {
        Ok(instruction) => Ok(instruction.task()),
        Err(error) => Err(error),
    }
}

/// The error of a continuation's result: that of the fold under `wrap`.
pub open spec fn wrapped(error: Option<fold::Error>, wrap: spec_fn(fold::Error) -> Error) -> Option<
    Error,
> {
    match error {
        Some(e) => Some(wrap(e)),
        None => None,
    }
}

/// The error of a result, if it is one.
pub open spec fn error_of<T>(result: Result<T, Error>) -> Option<Error> {
    match result {
        Ok(_) => None,
        Err(error) => Some(error),
    }
}

impl<B> Context<B> {
    /// The fold that the pass follows.
    pub closed spec fn fold(&self) -> fold::Context<LevelSeed<B>> {
        self.fold_ctx
    }

    /// Whether a block was finished since the last item was written.
    pub closed spec fn child_pending(&self) -> bool {
        self.child_pending
    }

    /// The walk can go on.
    pub open spec fn wf(&self) -> bool {
        self.fold().wf()
    }

    /// A measuring pass over the fold `fold_ctx`.
    pub fn new(fold_ctx: fold::Context<LevelSeed<B>>) -> (context: Context<B>)
        ensures
            context.fold() == fold_ctx,
            !context.child_pending(),
    {
        Context { fold_ctx, child_pending: false }
    }

    /// The fold, to take its next step.
    pub fn fold_ctx(&mut self) -> (fold_ctx: &mut fold::Context<LevelSeed<B>>)
        ensures
            *fold_ctx == old(self).fold(),
            final(self).fold() == *final(fold_ctx),
            final(self).child_pending() == old(self).child_pending(),
    {
        &mut self.fold_ctx
    }

    /// Ends the pass: the measures of each level whose last block is
    /// finished, root first.
    pub fn into_level_coords_iter(self) -> (coords: Vec<LevelCoords<usize>>)
        ensures
            coords@ == coords_of(fold::flushed_seeds(self.fold().levels())),
    {
        let (_plan_ctx, seeds) = self.fold_ctx.into_levels_iter();
        let mut seeds = seeds;
        let ghost all = seeds@;
        let mut reversed: Vec<LevelCoords<usize>> = Vec::new();
        while seeds.len() > 0
            invariant
                seeds@ == all.subrange(0, seeds@.len() as int),
                seeds@.len() <= all.len(),
                reversed@.len() + seeds@.len() == all.len(),
                forall|i: int|
                    0 <= i < reversed@.len() ==> reversed@[i] == coords_of(all)[all.len() - 1 - i],
            decreases seeds.len(),
        {
            let ghost before = seeds@;
            match seeds.pop() {
                Some((index, seed)) => {
                    reversed.push(
                        LevelCoords {
                            index,
                            header_size: seed.level_header_size,
                            total_size: seed.level_size,
                        },
                    );
                },
                None => {},
            }
            assert(seeds@ =~= all.subrange(0, seeds@.len() as int));
        }
        let mut coords: Vec<LevelCoords<usize>> = Vec::new();
        while reversed.len() > 0
            invariant
                reversed@.len() + coords@.len() == all.len(),
                forall|i: int|
                    0 <= i < reversed@.len() ==> reversed@[i] == coords_of(all)[all.len() - 1 - i],
                forall|i: int| 0 <= i < coords@.len() ==> coords@[i] == coords_of(all)[i],
            decreases reversed.len(),
        {
            match reversed.pop() {
                Some(level) => {
                    coords.push(level);
                },
                None => {},
            }
        }
        assert(coords@ =~= coords_of(all));
        coords
    }
}

impl Script {
    /// The continuation that starts a measuring pass.
    pub fn boot<B>() -> (kont: Continue<B>)
        ensures
            kont.fold_action matches FoldAction::Step(fold_kont) && fold_kont.plan_action is Step,
    {
        Continue { fold_action: FoldAction::Step(fold::Script::boot()), next: Script(()) }
    }

    /// Turns the fold's instruction `op` into a task for the caller.
    pub fn step<B>(self, context: &mut Context<B>, op: fold::Instruction<LevelSeed<B>>) -> (result:
        Result<Instruction<B>, Error>)
        ensures
            *final(context) == *old(context),
            outcome(result) == task_for(op.visit(), old(context).child_pending()),
            result matches Ok(instruction) ==> forall|event: Option<plan::Event>| #[trigger]
                op.linked(event) ==> instruction.linked(seed_kept(op.visit()), event),
    {
        match op {
            fold::Instruction::Op(fold::Op::VisitLevel(fold::VisitLevel { level_index, next })) => {
                Ok(
                    Instruction::Op(
                        Op::LevelHeaderSize(
                            LevelHeaderSize {
                                level_index,
                                next: LevelHeaderSizeNext { script: self, fold_next: next },
                            },
                        ),
                    ),
                )
            },
            fold::Instruction::Op(
                fold::Op::VisitBlockStart(
                    fold::VisitBlockStart { level_index, level_seed, block_index, items_count, next },
                ),
            ) => {
                Ok(
                    Instruction::Op(
                        Op::AllocBlock(
                            AllocBlock {
                                level_index,
                                block_index,
                                items_count,
                                next: AllocBlockNext { level_seed, script: self, fold_next: next },
                            },
                        ),
                    ),
                )
            },
            fold::Instruction::Op(
                fold::Op::VisitItem(
                    fold::VisitItem { level_index, level_seed, block_index, block_item_index, next },
                ),
            ) => {
                let LevelSeed { level_header_size, level_size, active_block } = level_seed;
                match active_block {
                    Some(block) => Ok(
                        Instruction::Op(
                            Op::WriteItem(
                                WriteItem {
                                    level_index,
                                    block_index,
                                    block_item_index,
                                    block,
                                    child_pending: context.child_pending,
                                    next: WriteItemNext {
                                        level_seed: LevelSeed {
                                            level_header_size,
                                            level_size,
                                            active_block: None,
                                        },
                                        script: self,
                                        fold_next: next,
                                    },
                                },
                            ),
                        ),
                    ),
                    None => Err(Error::NoActiveBlockWhileWriteItem),
                }
            },
            fold::Instruction::Op(
                fold::Op::VisitBlockFinish(
                    fold::VisitBlockFinish { level_index, level_seed, block_index, next },
                ),
            ) => {
                let LevelSeed { level_header_size, level_size, active_block } = level_seed;
                match active_block {
                    Some(block) => Ok(
                        Instruction::Op(
                            Op::FinishBlock(
                                FinishBlock {
                                    level_index,
                                    block_index,
                                    block,
                                    next: FinishBlockNext {
                                        level_seed: LevelSeed {
                                            level_header_size,
                                            level_size,
                                            active_block: None,
                                        },
                                        script: self,
                                        fold_next: next,
                                    },
                                },
                            ),
                        ),
                    ),
                    None => Err(Error::NoActiveBlockWhileBlockFinish),
                }
            },
            fold::Instruction::Done => Ok(Instruction::Done),
        }
    }
}

/// The task to say how large the header of a level is.
pub struct LevelHeaderSize {
    pub level_index: usize,
    pub next: LevelHeaderSizeNext,
}

/// The way on once the size of a level's header is known.
pub struct LevelHeaderSizeNext {
    script: Script,
    fold_next: fold::VisitLevelNext,
}

impl LevelHeaderSizeNext {
    /// The fold's continuation.
    pub closed spec fn fold_next(&self) -> fold::VisitLevelNext {
        self.fold_next
    }

    /// Says how large the level's header is; the level starts at that size.
    pub fn level_header_size<B>(self, level_header_size: usize, context: &mut Context<B>) -> (result:
        Result<Continue<B>, Error>)
        ensures
            final(context).child_pending() == old(context).child_pending(),
            final(context).fold().plan() == old(context).fold().plan(),
            final(context).fold().levels() == fold::given_back(
                old(context).fold().levels(),
                self.fold_next().level_index(),
                fold::LevelState::SeenVisitLevel {
                    level_seed: LevelSeed {
                        level_header_size,
                        level_size: level_header_size,
                        active_block: None,
                    },
                },
            ),
            error_of(result) == wrapped(
                fold::give_back_error(
                    old(context).fold().levels(),
                    self.fold_next().level_index(),
                    fold::Error::InvalidLevelIndexForVisitLevel {
                        level_index: self.fold_next().level_index(),
                    },
                    fold::Error::AlreadyInitializedLevelForVisitLevel,
                ),
                |e: fold::Error| Error::LevelHeaderSize(e),
            ),
            result matches Ok(kont) ==> {
                &&& kont.fold_action matches FoldAction::Step(fold_kont)
                &&& fold_kont.plan_action == fold::PlanAction::Idle(self.fold_next().plan_next())
            },
    {
        let seed = LevelSeed {
            level_header_size,
            level_size: level_header_size,
            active_block: None,
        };
        match self.fold_next.level_ready(seed, context.fold_ctx()) {
            Ok(fold_continue) => Ok(
                Continue { fold_action: FoldAction::Step(fold_continue), next: self.script },
            ),
            Err(error) => Err(Error::LevelHeaderSize(error)),
        }
    }
}

/// The task to make a block for the items that it will hold.
pub struct AllocBlock<B> {
    pub level_index: usize,
    pub block_index: usize,
    pub items_count: usize,
    pub next: AllocBlockNext<B>,
}

/// The way on once a block is made.
pub struct AllocBlockNext<B> {
    level_seed: LevelSeed<B>,
    script: Script,
    fold_next: fold::VisitBlockStartNext,
}

impl<B> AllocBlockNext<B> {
    /// The level's seed, kept while the caller makes the block.
    pub closed spec fn level_seed(&self) -> LevelSeed<B> {
        self.level_seed
    }

    /// The fold's continuation.
    pub closed spec fn fold_next(&self) -> fold::VisitBlockStartNext {
        self.fold_next
    }

    /// Hands in the block to fill.
    pub fn block_ready(self, block: B, context: &mut Context<B>) -> (result: Result<
        Continue<B>,
        Error,
    >)
        ensures
            final(context).child_pending() == old(context).child_pending(),
            final(context).fold().plan() == old(context).fold().plan(),
            final(context).fold().levels() == fold::given_back(
                old(context).fold().levels(),
                self.fold_next().level_index(),
                fold::LevelState::SeenVisitBlockStart {
                    level_seed: LevelSeed { active_block: Some(block), ..self.level_seed() },
                    block_index: self.fold_next().block_index(),
                },
            ),
            error_of(result) == wrapped(
                fold::give_back_error(
                    old(context).fold().levels(),
                    self.fold_next().level_index(),
                    fold::Error::InvalidLevelIndexForVisitBlockStart {
                        level_index: self.fold_next().level_index(),
                    },
                    fold::Error::AlreadyInitializedLevelForVisitBlockStart,
                ),
                |e: fold::Error| Error::BlockReady(e),
            ),
            result matches Ok(kont) ==> {
                &&& kont.fold_action matches FoldAction::Step(fold_kont)
                &&& fold_kont.plan_action is Step
            },
    {
        let seed = LevelSeed {
            level_header_size: self.level_seed.level_header_size,
            level_size: self.level_seed.level_size,
            active_block: Some(block),
        };
        match self.fold_next.block_ready(seed, context.fold_ctx()) {
            Ok(fold_continue) => Ok(
                Continue { fold_action: FoldAction::Step(fold_continue), next: self.script },
            ),
            Err(error) => Err(Error::BlockReady(error)),
        }
    }
}

/// The task to write an item into its block; `child_pending` says whether
/// the item has a block below it.
pub struct WriteItem<B> {
    pub level_index: usize,
    pub block_index: usize,
    pub block_item_index: usize,
    pub block: B,
    pub child_pending: bool,
    pub next: WriteItemNext<B>,
}

/// The way on once an item is written.
pub struct WriteItemNext<B> {
    level_seed: LevelSeed<B>,
    script: Script,
    fold_next: fold::VisitItemNext,
}

impl<B> WriteItemNext<B> {
    /// The level's seed, kept while the caller writes the item.
    pub closed spec fn level_seed(&self) -> LevelSeed<B> {
        self.level_seed
    }

    /// The fold's continuation.
    pub closed spec fn fold_next(&self) -> fold::VisitItemNext {
        self.fold_next
    }

    /// Hands the block back with the item in it. The next item has no
    /// finished block below it until one is finished.
    pub fn item_written(self, block: B, context: &mut Context<B>) -> (result: Result<
        Continue<B>,
        Error,
    >)
        ensures
            final(context).child_pending() == (old(context).child_pending() && result is Err),
            final(context).fold().plan() == old(context).fold().plan(),
            final(context).fold().levels() == fold::given_back(
                old(context).fold().levels(),
                self.fold_next().level_index(),
                fold::LevelState::SeenVisitBlockStart {
                    level_seed: LevelSeed { active_block: Some(block), ..self.level_seed() },
                    block_index: self.fold_next().block_index(),
                },
            ),
            error_of(result) == wrapped(
                fold::give_back_error(
                    old(context).fold().levels(),
                    self.fold_next().level_index(),
                    fold::Error::InvalidLevelIndexForVisitItem {
                        level_index: self.fold_next().level_index(),
                    },
                    fold::Error::AlreadyInitializedLevelForVisitItem,
                ),
                |e: fold::Error| Error::WriteItem(e),
            ),
            result matches Ok(kont) ==> {
                &&& kont.fold_action matches FoldAction::Step(fold_kont)
                &&& fold_kont.plan_action is Step
            },
    {
        let seed = LevelSeed {
            level_header_size: self.level_seed.level_header_size,
            level_size: self.level_seed.level_size,
            active_block: Some(block),
        };
        match self.fold_next.item_ready(seed, context.fold_ctx()) {
            Ok(fold_continue) => {
                context.child_pending = false;
                Ok(Continue { fold_action: FoldAction::Step(fold_continue), next: self.script })
            },
            Err(error) => Err(Error::WriteItem(error)),
        }
    }
}

/// The task to finish a block and say how large it is.
pub struct FinishBlock<B> {
    pub level_index: usize,
    pub block_index: usize,
    pub block: B,
    pub next: FinishBlockNext<B>,
}

/// The way on once a block is finished.
pub struct FinishBlockNext<B> {
    level_seed: LevelSeed<B>,
    script: Script,
    fold_next: fold::VisitBlockFinishNext,
}

impl<B> FinishBlockNext<B> {
    /// The level's seed, kept while the caller finishes the block.
    pub closed spec fn level_seed(&self) -> LevelSeed<B> {
        self.level_seed
    }

    /// The fold's continuation.
    pub closed spec fn fold_next(&self) -> fold::VisitBlockFinishNext {
        self.fold_next
    }

    /// The size of the level so far.
    pub fn level_size(&self) -> (size: usize)
        ensures
            size == self.level_seed().level_size,
    {
        self.level_seed.level_size
    }

    /// Says how large the finished block is; the level grows by that size,
    /// and the next item has a finished block below it.
    pub fn block_finished(self, block_size: usize, context: &mut Context<B>) -> (result: Result<
        Continue<B>,
        Error,
    >)
        requires
            self.level_seed().level_size + block_size <= usize::MAX,
        ensures
            final(context).child_pending() == (old(context).child_pending() || result is Ok),
            final(context).fold().plan() == old(context).fold().plan(),
            final(context).fold().levels() == fold::given_back(
                old(context).fold().levels(),
                self.fold_next().level_index(),
                fold::LevelState::SeenVisitBlockFinish {
                    level_seed: LevelSeed {
                        level_header_size: self.level_seed().level_header_size,
                        level_size: (self.level_seed().level_size + block_size) as usize,
                        active_block: None,
                    },
                },
            ),
            error_of(result) == wrapped(
                fold::give_back_error(
                    old(context).fold().levels(),
                    self.fold_next().level_index(),
                    fold::Error::InvalidLevelIndexForVisitBlockFinish {
                        level_index: self.fold_next().level_index(),
                    },
                    fold::Error::AlreadyInitializedLevelForVisitBlockFinish,
                ),
                |e: fold::Error| Error::FinishBlock(e),
            ),
            result matches Ok(kont) ==> {
                &&& kont.fold_action matches FoldAction::Step(fold_kont)
                &&& fold_kont.plan_action is Step
            },
    {
        let seed = LevelSeed {
            level_header_size: self.level_seed.level_header_size,
            level_size: self.level_seed.level_size + block_size,
            active_block: None,
        };
        match self.fold_next.block_flushed(seed, context.fold_ctx()) {
            Ok(fold_continue) => {
                context.child_pending = true;
                Ok(Continue { fold_action: FoldAction::Step(fold_continue), next: self.script })
            },
            Err(error) => Err(Error::FinishBlock(error)),
        }
    }
}

impl<B> Continue<B> {
    /// The visit that this continuation leads to, or the fold's error: the
    /// visit that it holds, or the one that the fold's next step gives.
    pub open spec fn fold_visit(self, context: fold::Context<LevelSeed<B>>) -> Result<
        fold::Visit<LevelSeed<B>>,
        fold::Error,
    > {
        match self.fold_action {
            FoldAction::Idle(op) => Ok(op.visit()),
            FoldAction::Step(kont) => fold::visit(
                context.levels(),
                kont.plan_event(context.plan()),
            ),
        }
    }

    /// `event` is the walk's instruction behind the visit that this
    /// continuation leads to.
    pub open spec fn links(
        self,
        context: fold::Context<LevelSeed<B>>,
        event: Option<plan::Event>,
    ) -> bool {
        match self.fold_action {
            FoldAction::Idle(op) => op.linked(event),
            FoldAction::Step(kont) => event == kont.plan_event(context.plan()),
        }
    }

    /// The fold's levels after this continuation was followed.
    pub open spec fn levels_after(self, context: fold::Context<LevelSeed<B>>) -> Seq<
        Option<fold::LevelState<LevelSeed<B>>>,
    > {
        match self.fold_action {
            FoldAction::Idle(_) => context.levels(),
            FoldAction::Step(kont) => fold::taken(
                context.levels(),
                kont.plan_event(context.plan()),
            ),
        }
    }

    /// The state of the walk after this continuation was followed.
    pub open spec fn plan_after(self, context: fold::Context<LevelSeed<B>>) -> plan::State {
        match self.fold_action {
            FoldAction::Idle(_) => context.plan()@,
            FoldAction::Step(kont) => kont.plan_after(context.plan()),
        }
    }

    /// Takes the fold's next step where one is due, and turns its visit
    /// into a task.
    pub fn step_rec(self, markup_context: &mut Context<B>) -> (result: Result<
        Instruction<B>,
        Error,
    >)
        requires
            old(markup_context).wf(),
        ensures
            final(markup_context).wf(),
            final(markup_context).child_pending() == old(markup_context).child_pending(),
            final(markup_context).fold().plan()@ == self.plan_after(old(markup_context).fold()),
            final(markup_context).fold().levels() == self.levels_after(
                old(markup_context).fold(),
            ),
            outcome(result) == match self.fold_visit(old(markup_context).fold()) {
                Ok(visit) => task_for(visit, old(markup_context).child_pending()),
                Err(error) => Err(Error::StepRec(error)),
            },
            result matches Ok(instruction) ==> forall|event: Option<plan::Event>| #[trigger]
                self.links(old(markup_context).fold(), event) ==> {
                    &&& self.fold_visit(old(markup_context).fold()) matches Ok(visit)
                    &&& instruction.linked(seed_kept(visit), event)
                },
    {
        match self {
            Continue { fold_action: FoldAction::Idle(fold_op), next: markup_next } => {
                markup_next.step(markup_context, fold_op)
            },
            Continue { fold_action: FoldAction::Step(fold_continue), next: markup_next } => {
                let ghost event = fold_continue.plan_event(markup_context.fold().plan());
                match fold_continue.step_rec(markup_context.fold_ctx()) {
                    Ok(fold_op) => {
                        assert(fold_op.linked(event));
                        markup_next.step(markup_context, fold_op)
                    },
                    Err(error) => Err(Error::StepRec(error)),
                }
            },
        }
    }
}

} // verus!
