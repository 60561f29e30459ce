//! The writing pass: with every level measured, each header, block and item
//! has its place, and each item learns where the block below it went.

use vstd::prelude::*;
use crate::writer::fold;
use crate::writer::plan;
use crate::writer::two_pass::LevelCoords;

verus! {

/// What the pass asks for next: a task, or nothing more.
pub enum Instruction<B> {
    Op(Op<B>),
    Done,
}

/// The tasks of the pass: to write the header of the tree, of a level and of
/// a block, to write an item, and to flush a block to its place.
pub enum Op<B> {
    WriteTreeHeader(WriteTreeHeader<B>),
    WriteLevelHeader(WriteLevelHeader<B>),
    WriteBlockHeader(WriteBlockHeader<B>),
    WriteItem(WriteItem<B>),
    FlushBlock(FlushBlock<B>),
}

/// The way on from a task: the fold's instruction to look at, or the step of
/// the fold to take.
pub struct Continue<B> {
    pub fold_action: FoldAction<B>,
    pub next: Script,
}

/// What a continuation holds of the fold.
pub enum FoldAction<B> {
    Idle(fold::Instruction<LevelSeed<B>>),
    Step(fold::Continue),
}

/// The failures of the pass: those of the fold, named after the call that met
/// them, a level that has no block where one is due, and sizes that are not
/// what was measured or written.
#[derive(Clone, PartialEq, Debug)]
pub enum Error {
    LevelsCoordsEmpty,
    WriteTreeHeaderSizeMismatch { written: usize, expected: usize },
    WriteLevelHeader(fold::Error),
    WriteLevelHeaderSizeMismatch { written: usize, expected: usize },
    WriteBlockHeader(fold::Error),
    NoActiveBlockWhileWriteItem,
    WriteItem(fold::Error),
    NoActiveBlockWhileFlushBlock,
    FlushBlock(fold::Error),
    FlushBlockSizeMismatch { written: usize, expected: usize },
    FlushBlockOutOfRange { block_offset: usize, block_size: usize, growth: usize },
    StepRec(fold::Error),
}

/// What the pass knows: the fold, where the tree lies and what its levels
/// measure, and where the block that was finished last went.
pub struct Context<B> {
    fold_ctx: fold::Context<LevelSeed<B>>,
    tree_offset: usize,
    tree_header_size: usize,
    tree_header_written: bool,
    recent_block_offset: Option<usize>,
    levels_coords: Vec<LevelCoords<usize>>,
}

/// The pass itself: it holds nothing, all that it knows is in its context.
pub struct Script(());

/// What the pass keeps of a level: the size of its header, where the
/// current block starts, how far it is written, and the block itself.
pub struct LevelSeed<B> {
    pub level_header_size: usize,
    pub block_offset: usize,
    pub cursor: usize,
    pub active_block: Option<B>,
}

/// A task without its continuation.
pub enum Task<B> {
    WriteTreeHeader { tree_offset: usize, tree_header_size: usize, tree_total_size: usize },
    WriteLevelHeader { level_index: usize, level_offset: usize },
    WriteBlockHeader { level_index: usize, block_index: usize, block_offset: usize, items_count: usize },
    WriteItem {
        level_index: usize,
        block_index: usize,
        block_item_index: usize,
        block_meta: B,
        item_offset: usize,
        child_block_offset: Option<usize>,
    },
    FlushBlock {
        level_index: usize,
        block_index: usize,
        block_meta: B,
        block_start_offset: usize,
        block_end_offset: usize,
    },
    Done,
}

/// The size of the first `count` of the measured levels together.
pub open spec fn total_before(coords: Seq<LevelCoords<usize>>, count: int) -> int
    decreases count,
{
    if count <= 0 {
        0
    } else {
        total_before(coords, count - 1) + coords[count - 1].total_size
    }
}

/// How many of the measured levels from `from` on come before level
/// `level_index`: the place of the first whose index is not below it.
pub open spec fn levels_before(coords: Seq<LevelCoords<usize>>, level_index: usize, from: int) -> int
    decreases coords.len() - from,
{
    if from < 0 || from >= coords.len() {
        coords.len() as int
    } else if coords[from].index >= level_index {
        from
    } else {
        levels_before(coords, level_index, from + 1)
    }
}

/// The size of the header of level `level_index`: that of the first of the
/// measured levels whose index is not below it. A level behind all the
/// measured ones has no header.
pub open spec fn header_size_for(coords: Seq<LevelCoords<usize>>, level_index: usize) -> usize {
    let at = levels_before(coords, level_index, 0);
    if 0 <= at < coords.len() {
        coords[at].header_size
    } else {
        0
    }
}

/// Where level `level_index` starts: behind the tree's header and the
/// levels before it.
pub open spec fn level_offset(
    tree_offset: usize,
    tree_header_size: usize,
    coords: Seq<LevelCoords<usize>>,
    level_index: usize,
) -> int {
    tree_offset + tree_header_size + total_before(coords, levels_before(coords, level_index, 0))
}

/// Every offset of the tree can be held: the tree ends within the range
/// of offsets, and so does the header of each of its levels.
pub open spec fn fits(
    tree_offset: usize,
    tree_header_size: usize,
    coords: Seq<LevelCoords<usize>>,
) -> bool {
    &&& tree_offset + tree_header_size + total_before(coords, coords.len() as int) <= usize::MAX
    &&& forall|count: int|
        0 <= count < coords.len() ==> tree_offset + tree_header_size + #[trigger] total_before(
            coords,
            count,
        ) + coords[count].header_size <= usize::MAX
}

/// The seed that a task's continuation keeps while the caller works on the
/// task.
pub open spec fn seed_kept<B>(
    visit: fold::Visit<LevelSeed<B>>,
    tree_offset: usize,
    tree_header_size: usize,
    coords: Seq<LevelCoords<usize>>,
) -> Option<LevelSeed<B>> {
    match visit {
        fold::Visit::Level { level_index } => {
            let header = header_size_for(coords, level_index);
            let start = (level_offset(tree_offset, tree_header_size, coords, level_index)
                + header) as usize;
            Some(
                LevelSeed {
                    level_header_size: header,
                    block_offset: start,
                    cursor: start,
                    active_block: None,
                },
            )
        },
        fold::Visit::BlockStart { level_seed, .. } => Some(level_seed),
        fold::Visit::Item { level_seed, .. } => Some(
            LevelSeed { active_block: None, ..level_seed },
        ),
        fold::Visit::BlockFinish { level_seed, .. } => Some(
            LevelSeed { active_block: None, ..level_seed },
        ),
        fold::Visit::Done => None,
    }
}

/// The task that a visit leads to once the tree's header is written, or the
/// error that it meets; `recent` is where the block finished last went, if
/// no item was written since.
pub open spec fn task_for<B>(
    visit: fold::Visit<LevelSeed<B>>,
    tree_offset: usize,
    tree_header_size: usize,
    coords: Seq<LevelCoords<usize>>,
    recent: Option<usize>,
) -> Result<Task<B>, Error> {
    match visit {
        fold::Visit::Level { level_index } => Ok(
            Task::WriteLevelHeader {
                level_index,
                level_offset: level_offset(
                    tree_offset,
                    tree_header_size,
                    coords,
                    level_index,
                ) as usize,
            },
        ),
        fold::Visit::BlockStart { level_index, level_seed, block_index, items_count } => Ok(
            Task::WriteBlockHeader {
                level_index,
                block_index,
                block_offset: level_seed.block_offset,
                items_count,
            },
        ),
        fold::Visit::Item { level_index, level_seed, block_index, block_item_index } => {
            match level_seed.active_block {
                Some(block_meta) => Ok(
                    Task::WriteItem {
                        level_index,
                        block_index,
                        block_item_index,
                        block_meta,
                        item_offset: level_seed.cursor,
                        child_block_offset: recent,
                    },
                ),
                None => Err(Error::NoActiveBlockWhileWriteItem),
            }
        },
        fold::Visit::BlockFinish { level_index, level_seed, block_index } => {
            match level_seed.active_block {
                Some(block_meta) => Ok(
                    Task::FlushBlock {
                        level_index,
                        block_index,
                        block_meta,
                        block_start_offset: level_seed.block_offset,
                        block_end_offset: level_seed.cursor,
                    },
                ),
                None => Err(Error::NoActiveBlockWhileFlushBlock),
            }
        },
        fold::Visit::Done => Ok(Task::Done),
    }
}

impl<B> Instruction<B> {
    /// The task that the instruction asks for, without its continuation.
    pub open spec fn task(self) -> Task<B> {
        match self {
            Instruction::Op(Op::WriteTreeHeader(t)) => Task::WriteTreeHeader {
                tree_offset: t.tree_offset,
                tree_header_size: t.tree_header_size,
                tree_total_size: t.tree_total_size,
            },
            Instruction::Op(Op::WriteLevelHeader(t)) => Task::WriteLevelHeader {
                level_index: t.level_index,
                level_offset: t.level_offset,
            },
            Instruction::Op(Op::WriteBlockHeader(t)) => Task::WriteBlockHeader {
                level_index: t.level_index,
                block_index: t.block_index,
                block_offset: t.block_offset,
                items_count: t.items_count,
            },
            Instruction::Op(Op::WriteItem(t)) => Task::WriteItem {
                level_index: t.level_index,
                block_index: t.block_index,
                block_item_index: t.block_item_index,
                block_meta: t.block_meta,
                item_offset: t.item_offset,
                child_block_offset: t.child_block_offset,
            },
            Instruction::Op(Op::FlushBlock(t)) => Task::FlushBlock {
                level_index: t.level_index,
                block_index: t.block_index,
                block_meta: t.block_meta,
                block_start_offset: t.block_start_offset,
                block_end_offset: t.block_end_offset,
            },
            Instruction::Done => Task::Done,
        }
    }

    /// The continuation belongs to the instruction: it names the same level
    /// and block and holds the seed `seed`; that of a level's header holds
    /// `event` for the fold to look at again.
    pub open spec fn linked(self, seed: Option<LevelSeed<B>>, event: Option<plan::Event>) -> bool {
        match self {
            Instruction::Op(Op::WriteTreeHeader(t)) => true,
            Instruction::Op(Op::WriteLevelHeader(t)) => {
                &&& t.next.fold_next().level_index() == t.level_index
                &&& t.next.fold_next().plan_next().event() == event
                &&& Some(t.next.level_seed()) == seed
            },
            Instruction::Op(Op::WriteBlockHeader(t)) => {
                &&& t.next.fold_next().level_index() == t.level_index
                &&& t.next.fold_next().block_index() == t.block_index
                &&& Some(t.next.level_seed()) == seed
            },
            Instruction::Op(Op::WriteItem(t)) => {
                &&& t.next.fold_next().level_index() == t.level_index
                &&& t.next.fold_next().block_index() == t.block_index
                &&& Some(t.next.level_seed()) == seed
            },
            Instruction::Op(Op::FlushBlock(t)) => {
                &&& t.next.fold_next().level_index() == t.level_index
                &&& Some(t.next.level_seed()) == seed
            },
            Instruction::Done => true,
        }
    }
}

/// What a step returns, without the continuations.
pub open spec fn outcome<B>(result: Result<Instruction<B>, Error>) -> Result<Task<B>, Error> {
    match result {
        Ok(instruction) => Ok(instruction.task()),
        Err(error) => Err(error),
    }
}

/// The error of a continuation's result: that of the fold under `wrap`.
pub open spec fn wrapped(error: Option<fold::Error>, wrap: spec_fn(fold::Error) -> Error) -> Option<
    Error,
> {
    match error {
        Some(e) => Some(wrap(e)),
        None => None,
    }
}

/// The error of a result, if it is one.
pub open spec fn error_of<T>(result: Result<T, Error>) -> Option<Error> {
    match result {
        Ok(_) => None,
        Err(error) => Some(error),
    }
}

/// `total_before` grows with the count.
pub proof fn lemma_total_before_grows(coords: Seq<LevelCoords<usize>>, low: int, high: int)
    requires
        0 <= low <= high,
    ensures
        0 <= total_before(coords, low) <= total_before(coords, high),
    decreases high,
{
    if low < high {
        lemma_total_before_grows(coords, low, high - 1);
    } else if low > 0 {
        lemma_total_before_grows(coords, low - 1, low - 1);
    }
}

impl<B> Context<B> {
    /// The fold that the pass follows.
    pub closed spec fn fold(&self) -> fold::Context<LevelSeed<B>> {
        self.fold_ctx
    }

    /// Where the tree starts.
    pub closed spec fn tree_offset(&self) -> usize {
        self.tree_offset
    }

    /// The size of the tree's header.
    pub closed spec fn tree_header_size(&self) -> usize {
        self.tree_header_size
    }

    /// Whether the tree's header is written.
    pub closed spec fn tree_header_written(&self) -> bool {
        self.tree_header_written
    }

    /// Where the block finished last went, if no item was written since.
    pub closed spec fn recent_block_offset(&self) -> Option<usize> {
        self.recent_block_offset
    }

    /// The measures of the levels.
    pub closed spec fn coords(&self) -> Seq<LevelCoords<usize>> {
        self.levels_coords@
    }

    /// The walk can go on, and every offset of the tree can be held.
    pub open spec fn wf(&self) -> bool {
        &&& self.fold().wf()
        &&& self.coords().len() > 0
        &&& fits(self.tree_offset(), self.tree_header_size(), self.coords())
    }

    /// The context but for its fold: the fold may have gone on.
    pub open spec fn same_place(&self, other: &Context<B>) -> bool {
        &&& self.tree_offset() == other.tree_offset()
        &&& self.tree_header_size() == other.tree_header_size()
        &&& self.tree_header_written() == other.tree_header_written()
        &&& self.recent_block_offset() == other.recent_block_offset()
        &&& self.coords() == other.coords()
    }

    /// Whether every offset of a tree at `tree_offset` can be held, with a
    /// header of `tree_header_size` and levels that measure `levels_coords`.
    pub fn fits_in(
        tree_offset: usize,
        tree_header_size: usize,
        levels_coords: &Vec<LevelCoords<usize>>,
    ) -> (fits_in: bool)
        ensures
            fits_in == (levels_coords@.len() > 0 ==> fits(
                tree_offset,
                tree_header_size,
                levels_coords@,
            )),
    {
        let count = levels_coords.len();
        if count == 0 {
            return true;
        }
        if tree_header_size > usize::MAX - tree_offset {
            proof {
                lemma_total_before_grows(levels_coords@, 0, count as int);
            }
            return false;
        }
        let mut offset = tree_offset + tree_header_size;
        let mut i: usize = 0;
        while i < count
            invariant
                count == levels_coords@.len(),
                i <= count,
                offset == tree_offset + tree_header_size + total_before(levels_coords@, i as int),
                forall|n: int|
                    0 <= n < i ==> tree_offset + tree_header_size + #[trigger] total_before(
                        levels_coords@,
                        n,
                    ) + levels_coords@[n].header_size <= usize::MAX,
            decreases count - i,
        {
            if levels_coords[i].header_size > usize::MAX - offset {
                return false;
            }
            if levels_coords[i].total_size > usize::MAX - offset {
                proof {
                    lemma_total_before_grows(levels_coords@, i + 1, count as int);
                }
                return false;
            }
            offset = offset + levels_coords[i].total_size;
            i = i + 1;
        }
        true
    }

    /// A writing pass over the fold `fold_ctx` for a tree at `tree_offset`
    /// whose levels measure `levels_coords`.
    pub fn new(
        fold_ctx: fold::Context<LevelSeed<B>>,
        tree_offset: usize,
        tree_header_size: usize,
        levels_coords: Vec<LevelCoords<usize>>,
    ) -> (result: Result<Context<B>, Error>)
        ensures
            levels_coords@.len() == 0 <==> result is Err,
            result matches Err(error) ==> error == Error::LevelsCoordsEmpty,
            result matches Ok(context) ==> {
                &&& context.fold() == fold_ctx
                &&& context.tree_offset() == tree_offset
                &&& context.tree_header_size() == tree_header_size
                &&& !context.tree_header_written()
                &&& context.recent_block_offset() is None
                &&& context.coords() == levels_coords@
            },
    {
        if levels_coords.len() == 0 {
            Err(Error::LevelsCoordsEmpty)
        } else {
            Ok(
                Context {
                    fold_ctx,
                    tree_offset,
                    tree_header_size,
                    tree_header_written: false,
                    recent_block_offset: None,
                    levels_coords,
                },
            )
        }
    }

    /// The fold, to take its next step.
    pub fn fold_ctx(&mut self) -> (fold_ctx: &mut fold::Context<LevelSeed<B>>)
        ensures
            *fold_ctx == old(self).fold(),
            final(self).fold() == *final(fold_ctx),
            final(self).same_place(old(self)),
    {
        &mut self.fold_ctx
    }

    /// The size of the tree: its header and all its levels.
    fn tree_total_size(&self) -> (size: usize)
        requires
            self.wf(),
        ensures
            size == self.tree_header_size() + total_before(self.coords(), self.coords().len() as int),
    {
        let mut size = self.tree_header_size;
        let mut i: usize = 0;
        while i < self.levels_coords.len()
            invariant
                i <= self.levels_coords.len(),
                self.wf(),
                size == self.tree_header_size + total_before(self.levels_coords@, i as int),
            decreases self.levels_coords.len() - i,
        {
            proof {
                lemma_total_before_grows(
                    self.levels_coords@,
                    i + 1,
                    self.levels_coords@.len() as int,
                );
            }
            size = size + self.levels_coords[i].total_size;
            i = i + 1;
        }
        size
    }

    /// Where level `level_index` starts, and the size of its header.
    fn locate(&self, level_index: usize) -> (place: (usize, usize))
        requires
            self.wf(),
        ensures
            place.0 == level_offset(
                self.tree_offset(),
                self.tree_header_size(),
                self.coords(),
                level_index,
            ),
            place.1 == header_size_for(self.coords(), level_index),
            place.0 + place.1 <= usize::MAX,
    {
        proof {
            lemma_total_before_grows(self.levels_coords@, 0, self.levels_coords@.len() as int);
        }
        let mut offset = self.tree_header_size + self.tree_offset;
        let mut i: usize = 0;
        while i < self.levels_coords.len() && self.levels_coords[i].index < level_index
            invariant
                i <= self.levels_coords.len(),
                self.wf(),
                offset == self.tree_offset + self.tree_header_size + total_before(
                    self.levels_coords@,
                    i as int,
                ),
                levels_before(self.levels_coords@, level_index, i as int) == levels_before(
                    self.levels_coords@,
                    level_index,
                    0,
                ),
            decreases self.levels_coords.len() - i,
        {
            proof {
                lemma_total_before_grows(
                    self.levels_coords@,
                    i + 1,
                    self.levels_coords@.len() as int,
                );
            }
            offset = offset + self.levels_coords[i].total_size;
            i = i + 1;
        }
        if i < self.levels_coords.len() {
            (offset, self.levels_coords[i].header_size)
        } else {
            (offset, 0)
        }
    }
}

impl Script {
    /// The continuation that starts a writing pass.
    pub fn boot<B>() -> (kont: Continue<B>)
        ensures
            kont.fold_action matches FoldAction::Step(fold_kont) && fold_kont.plan_action is Step,
    {
        Continue { fold_action: FoldAction::Step(fold::Script::boot()), next: Script(()) }
    }

    /// Turns the fold's instruction `op` into a task for the caller. Before
    /// anything else the tree's header is due, and `op` is kept for later.
    pub fn step<B>(self, context: &mut Context<B>, op: fold::Instruction<LevelSeed<B>>) -> (result:
        Result<Instruction<B>, Error>)
        requires
            old(context).wf(),
        ensures
            final(context).wf(),
            final(context).fold() == old(context).fold(),
            final(context).tree_offset() == old(context).tree_offset(),
            final(context).tree_header_size() == old(context).tree_header_size(),
            final(context).tree_header_written() == old(context).tree_header_written(),
            final(context).coords() == old(context).coords(),
            !old(context).tree_header_written() ==> {
                &&& final(context).recent_block_offset() == old(context).recent_block_offset()
                &&& result matches Ok(Instruction::Op(Op::WriteTreeHeader(t)))
                &&& t.tree_offset == old(context).tree_offset()
                &&& t.tree_header_size == old(context).tree_header_size()
                &&& t.tree_total_size == old(context).tree_header_size() + total_before(
                    old(context).coords(),
                    old(context).coords().len() as int,
                )
                &&& t.next.fold_next() == op
            },
            old(context).tree_header_written() ==> {
                &&& final(context).recent_block_offset() == if outcome(result) matches Ok(
                    Task::WriteItem { .. },
                ) {
                    None
                } else {
                    old(context).recent_block_offset()
                }
                &&& outcome(result) == task_for(
                    op.visit(),
                    old(context).tree_offset(),
                    old(context).tree_header_size(),
                    old(context).coords(),
                    old(context).recent_block_offset(),
                )
                &&& result matches Ok(instruction) ==> forall|event: Option<plan::Event>| #[trigger]
                    op.linked(event) ==> instruction.linked(
                        seed_kept(
                            op.visit(),
                            old(context).tree_offset(),
                            old(context).tree_header_size(),
                            old(context).coords(),
                        ),
                        event,
                    )
            },
    {
        if !context.tree_header_written {
            let tree_total_size = context.tree_total_size();
            return Ok(
                Instruction::Op(
                    Op::WriteTreeHeader(
                        WriteTreeHeader {
                            tree_offset: context.tree_offset,
                            tree_header_size: context.tree_header_size,
                            tree_total_size,
                            next: WriteTreeHeaderNext { script: self, fold_next: op },
                        },
                    ),
                ),
            );
        }
        match op {
            fold::Instruction::Op(fold::Op::VisitLevel(fold::VisitLevel { level_index, next })) => {
                let (level_offset, level_header_size) = context.locate(level_index);
                let block_offset = level_offset + level_header_size;
                Ok(
                    Instruction::Op(
                        Op::WriteLevelHeader(
                            WriteLevelHeader {
                                level_index,
                                level_offset,
                                next: WriteLevelHeaderNext {
                                    level_seed: LevelSeed {
                                        level_header_size,
                                        block_offset,
                                        cursor: block_offset,
                                        active_block: None,
                                    },
                                    script: self,
                                    fold_next: next,
                                },
                            },
                        ),
                    ),
                )
            },
            fold::Instruction::Op(
                fold::Op::VisitBlockStart(
                    fold::VisitBlockStart { level_index, level_seed, block_index, items_count, next },
                ),
            ) => {
                Ok(
                    Instruction::Op(
                        Op::WriteBlockHeader(
                            WriteBlockHeader {
                                level_index,
                                block_index,
                                block_offset: level_seed.block_offset,
                                items_count,
                                next: WriteBlockHeaderNext {
                                    level_seed,
                                    script: self,
                                    fold_next: next,
                                },
                            },
                        ),
                    ),
                )
            },
            fold::Instruction::Op(
                fold::Op::VisitItem(
                    fold::VisitItem { level_index, level_seed, block_index, block_item_index, next },
                ),
            ) => {
                let LevelSeed { level_header_size, block_offset, cursor, active_block } = level_seed;
                match active_block {
                    Some(block_meta) => {
                        let child_block_offset = context.recent_block_offset.take();
                        Ok(
                            Instruction::Op(
                                Op::WriteItem(
                                    WriteItem {
                                        level_index,
                                        block_index,
                                        block_item_index,
                                        block_meta,
                                        item_offset: cursor,
                                        child_block_offset,
                                        next: WriteItemNext {
                                            level_seed: LevelSeed {
                                                level_header_size,
                                                block_offset,
                                                cursor,
                                                active_block: None,
                                            },
                                            script: self,
                                            fold_next: next,
                                        },
                                    },
                                ),
                            ),
                        )
                    },
                    None => Err(Error::NoActiveBlockWhileWriteItem),
                }
            },
            fold::Instruction::Op(
                fold::Op::VisitBlockFinish(
                    fold::VisitBlockFinish { level_index, level_seed, block_index, next },
                ),
            ) => {
                let LevelSeed { level_header_size, block_offset, cursor, active_block } = level_seed;
                match active_block {
                    Some(block_meta) => Ok(
                        Instruction::Op(
                            Op::FlushBlock(
                                FlushBlock {
                                    level_index,
                                    block_index,
                                    block_meta,
                                    block_start_offset: block_offset,
                                    block_end_offset: cursor,
                                    next: FlushBlockNext {
                                        level_seed: LevelSeed {
                                            level_header_size,
                                            block_offset,
                                            cursor,
                                            active_block: None,
                                        },
                                        script: self,
                                        fold_next: next,
                                    },
                                },
                            ),
                        ),
                    ),
                    None => Err(Error::NoActiveBlockWhileFlushBlock),
                }
            },
            fold::Instruction::Done => Ok(Instruction::Done),
        }
    }
}

/// The task to write the header of the tree.
pub struct WriteTreeHeader<B> {
    pub tree_offset: usize,
    pub tree_header_size: usize,
    pub tree_total_size: usize,
    pub next: WriteTreeHeaderNext<B>,
}

/// The way on once the tree's header is written.
pub struct WriteTreeHeaderNext<B> {
    script: Script,
    fold_next: fold::Instruction<LevelSeed<B>>,
}

impl<B> WriteTreeHeaderNext<B> {
    /// The fold's instruction that waits for the header.
    pub closed spec fn fold_next(&self) -> fold::Instruction<LevelSeed<B>> {
        self.fold_next
    }

    /// Says how much was written as the tree's header; it must be what the
    /// pass was told the header takes.
    pub fn tree_header_written(self, written: usize, context: &mut Context<B>) -> (result: Result<
        Continue<B>,
        Error,
    >)
        ensures
            final(context).fold() == old(context).fold(),
            final(context).tree_offset() == old(context).tree_offset(),
            final(context).tree_header_size() == old(context).tree_header_size(),
            final(context).recent_block_offset() == old(context).recent_block_offset(),
            final(context).coords() == old(context).coords(),
            final(context).tree_header_written() == (old(context).tree_header_written()
                || written == old(context).tree_header_size()),
            written != old(context).tree_header_size() ==> result == Err::<Continue<B>, Error>(
                Error::WriteTreeHeaderSizeMismatch {
                    written,
                    expected: old(context).tree_header_size(),
                },
            ),
            written == old(context).tree_header_size() ==> {
                &&& result matches Ok(kont)
                &&& kont.fold_action == FoldAction::Idle(self.fold_next())
            },
    {
        if written != context.tree_header_size {
            return Err(
                Error::WriteTreeHeaderSizeMismatch { written, expected: context.tree_header_size },
            );
        }
        context.tree_header_written = true;
        Ok(Continue { fold_action: FoldAction::Idle(self.fold_next), next: self.script })
    }
}

/// The task to write the header of a level at its offset.
pub struct WriteLevelHeader<B> {
    pub level_index: usize,
    pub level_offset: usize,
    pub next: WriteLevelHeaderNext<B>,
}

/// The way on once a level's header is written.
pub struct WriteLevelHeaderNext<B> {
    level_seed: LevelSeed<B>,
    script: Script,
    fold_next: fold::VisitLevelNext,
}

impl<B> WriteLevelHeaderNext<B> {
    /// The level's first seed: its first block starts behind the header.
    pub closed spec fn level_seed(&self) -> LevelSeed<B> {
        self.level_seed
    }

    /// The fold's continuation.
    pub closed spec fn fold_next(&self) -> fold::VisitLevelNext {
        self.fold_next
    }

    /// Says how much was written as the level's header; it must be what the
    /// level's header measured.
    pub fn level_header_written(self, written: usize, context: &mut Context<B>) -> (result: Result<
        Continue<B>,
        Error,
    >)
        ensures
            final(context).same_place(old(context)),
            final(context).fold().plan() == old(context).fold().plan(),
            final(context).fold().levels() == if written == self.level_seed().level_header_size {
                fold::given_back(
                    old(context).fold().levels(),
                    self.fold_next().level_index(),
                    fold::LevelState::SeenVisitLevel { level_seed: self.level_seed() },
                )
            } else {
                old(context).fold().levels()
            },
            error_of(result) == if written == self.level_seed().level_header_size {
                wrapped(
                    fold::give_back_error(
                        old(context).fold().levels(),
                        self.fold_next().level_index(),
                        fold::Error::InvalidLevelIndexForVisitLevel {
                            level_index: self.fold_next().level_index(),
                        },
                        fold::Error::AlreadyInitializedLevelForVisitLevel,
                    ),
                    |e: fold::Error| Error::WriteLevelHeader(e),
                )
            } else {
                Some(
                    Error::WriteLevelHeaderSizeMismatch {
                        written,
                        expected: self.level_seed().level_header_size,
                    },
                )
            },
            result matches Ok(kont) ==> {
                &&& kont.fold_action matches FoldAction::Step(fold_kont)
                &&& fold_kont.plan_action == fold::PlanAction::Idle(self.fold_next().plan_next())
            },
    {
        if written != self.level_seed.level_header_size {
            return Err(
                Error::WriteLevelHeaderSizeMismatch {
                    written,
                    expected: self.level_seed.level_header_size,
                },
            );
        }
        match self.fold_next.level_ready(self.level_seed, context.fold_ctx()) {
            Ok(fold_continue) => Ok(
                Continue { fold_action: FoldAction::Step(fold_continue), next: self.script },
            ),
            Err(error) => Err(Error::WriteLevelHeader(error)),
        }
    }
}

/// The task to write the header of a block at its offset.
pub struct WriteBlockHeader<B> {
    pub level_index: usize,
    pub block_index: usize,
    pub block_offset: usize,
    pub items_count: usize,
    pub next: WriteBlockHeaderNext<B>,
}

/// The way on once a block's header is written.
pub struct WriteBlockHeaderNext<B> {
    level_seed: LevelSeed<B>,
    script: Script,
    fold_next: fold::VisitBlockStartNext,
}

impl<B> WriteBlockHeaderNext<B> {
    /// The level's seed, kept while the caller writes the block's header.
    pub closed spec fn level_seed(&self) -> LevelSeed<B> {
        self.level_seed
    }

    /// The fold's continuation.
    pub closed spec fn fold_next(&self) -> fold::VisitBlockStartNext {
        self.fold_next
    }

    /// How far the level is written.
    pub fn cursor(&self) -> (cursor: usize)
        ensures
            cursor == self.level_seed().cursor,
    {
        self.level_seed.cursor
    }

    /// Hands in the block, and says how much its header took.
    pub fn block_header_written(self, block_meta: B, written: usize, context: &mut Context<B>) -> (result:
        Result<Continue<B>, Error>)
        requires
            self.level_seed().cursor + written <= usize::MAX,
        ensures
            final(context).same_place(old(context)),
            final(context).fold().plan() == old(context).fold().plan(),
            final(context).fold().levels() == fold::given_back(
                old(context).fold().levels(),
                self.fold_next().level_index(),
                fold::LevelState::SeenVisitBlockStart {
                    level_seed: LevelSeed {
                        cursor: (self.level_seed().cursor + written) as usize,
                        active_block: Some(block_meta),
                        ..self.level_seed()
                    },
                    block_index: self.fold_next().block_index(),
                },
            ),
            error_of(result) == wrapped(
                fold::give_back_error(
                    old(context).fold().levels(),
                    self.fold_next().level_index(),
                    fold::Error::InvalidLevelIndexForVisitBlockStart {
                        level_index: self.fold_next().level_index(),
                    },
                    fold::Error::AlreadyInitializedLevelForVisitBlockStart,
                ),
                |e: fold::Error| Error::WriteBlockHeader(e),
            ),
            result matches Ok(kont) ==> {
                &&& kont.fold_action matches FoldAction::Step(fold_kont)
                &&& fold_kont.plan_action is Step
            },
    {
        let seed = LevelSeed {
            level_header_size: self.level_seed.level_header_size,
            block_offset: self.level_seed.block_offset,
            cursor: self.level_seed.cursor + written,
            active_block: Some(block_meta),
        };
        match self.fold_next.block_ready(seed, context.fold_ctx()) {
            Ok(fold_continue) => Ok(
                Continue { fold_action: FoldAction::Step(fold_continue), next: self.script },
            ),
            Err(error) => Err(Error::WriteBlockHeader(error)),
        }
    }
}

/// The task to write an item at its offset, with the offset of the block
/// below it, if it has one.
pub struct WriteItem<B> {
    pub level_index: usize,
    pub block_index: usize,
    pub block_item_index: usize,
    pub block_meta: B,
    pub item_offset: usize,
    pub child_block_offset: Option<usize>,
    pub next: WriteItemNext<B>,
}

/// The way on once an item is written.
pub struct WriteItemNext<B> {
    level_seed: LevelSeed<B>,
    script: Script,
    fold_next: fold::VisitItemNext,
}

impl<B> WriteItemNext<B> {
    /// The level's seed, kept while the caller writes the item.
    pub closed spec fn level_seed(&self) -> LevelSeed<B> {
        self.level_seed
    }

    /// The fold's continuation.
    pub closed spec fn fold_next(&self) -> fold::VisitItemNext {
        self.fold_next
    }

    /// How far the level is written.
    pub fn cursor(&self) -> (cursor: usize)
        ensures
            cursor == self.level_seed().cursor,
    {
        self.level_seed.cursor
    }

    /// Hands the block back, and says how much the item took.
    pub fn item_written(self, block_meta: B, written: usize, context: &mut Context<B>) -> (result:
        Result<Continue<B>, Error>)
        requires
            self.level_seed().cursor + written <= usize::MAX,
        ensures
            final(context).tree_offset() == old(context).tree_offset(),
            final(context).tree_header_size() == old(context).tree_header_size(),
            final(context).tree_header_written() == old(context).tree_header_written(),
            final(context).coords() == old(context).coords(),
            final(context).recent_block_offset() == if result is Ok {
                None
            } else {
                old(context).recent_block_offset()
            },
            final(context).fold().plan() == old(context).fold().plan(),
            final(context).fold().levels() == fold::given_back(
                old(context).fold().levels(),
                self.fold_next().level_index(),
                fold::LevelState::SeenVisitBlockStart {
                    level_seed: LevelSeed {
                        cursor: (self.level_seed().cursor + written) as usize,
                        active_block: Some(block_meta),
                        ..self.level_seed()
                    },
                    block_index: self.fold_next().block_index(),
                },
            ),
            error_of(result) == wrapped(
                fold::give_back_error(
                    old(context).fold().levels(),
                    self.fold_next().level_index(),
                    fold::Error::InvalidLevelIndexForVisitItem {
                        level_index: self.fold_next().level_index(),
                    },
                    fold::Error::AlreadyInitializedLevelForVisitItem,
                ),
                |e: fold::Error| Error::WriteItem(e),
            ),
            result matches Ok(kont) ==> {
                &&& kont.fold_action matches FoldAction::Step(fold_kont)
                &&& fold_kont.plan_action is Step
            },
    {
        let seed = LevelSeed {
            level_header_size: self.level_seed.level_header_size,
            block_offset: self.level_seed.block_offset,
            cursor: self.level_seed.cursor + written,
            active_block: Some(block_meta),
        };
        match self.fold_next.item_ready(seed, context.fold_ctx()) {
            Ok(fold_continue) => {
                context.recent_block_offset = None;
                Ok(Continue { fold_action: FoldAction::Step(fold_continue), next: self.script })
            },
            Err(error) => Err(Error::WriteItem(error)),
        }
    }
}

/// The task to flush a block to its place.
pub struct FlushBlock<B> {
    pub level_index: usize,
    pub block_index: usize,
    pub block_meta: B,
    pub block_start_offset: usize,
    pub block_end_offset: usize,
    pub next: FlushBlockNext<B>,
}

/// The way on once a block is flushed.
pub struct FlushBlockNext<B> {
    level_seed: LevelSeed<B>,
    script: Script,
    fold_next: fold::VisitBlockFinishNext,
}

/// The size that a block has when it is flushed: what was written of it,
/// from its start to the cursor.
pub open spec fn written_size<B>(seed: LevelSeed<B>) -> usize {
    if seed.cursor >= seed.block_offset {
        (seed.cursor - seed.block_offset) as usize
    } else {
        0
    }
}

/// Why a flush is refused, if it is, that reports a block of
/// `actual_block_size` with `growth` more bytes behind it: the size is not
/// what was written of the block, or the bytes would end beyond the range
/// of offsets.
pub open spec fn flush_refused<B>(
    seed: LevelSeed<B>,
    actual_block_size: usize,
    growth: usize,
) -> Option<Error> {
    if actual_block_size != written_size(seed) {
        Some(
            Error::FlushBlockSizeMismatch {
                written: actual_block_size,
                expected: written_size(seed),
            },
        )
    } else if seed.block_offset + actual_block_size + growth > usize::MAX {
        Some(
            Error::FlushBlockOutOfRange {
                block_offset: seed.block_offset,
                block_size: actual_block_size,
                growth,
            },
        )
    } else {
        None
    }
}

impl<B> FlushBlockNext<B> {
    /// The level's seed, kept while the caller flushes the block.
    pub closed spec fn level_seed(&self) -> LevelSeed<B> {
        self.level_seed
    }

    /// The fold's continuation.
    pub closed spec fn fold_next(&self) -> fold::VisitBlockFinishNext {
        self.fold_next
    }

    /// Says how large the flushed block is; it must be what was written of
    /// it, and any other size is refused. The level's next block starts
    /// behind it, and the next item refers to it.
    pub fn block_flushed(self, actual_block_size: usize, context: &mut Context<B>) -> (result:
        Result<Continue<B>, Error>)
        ensures
            final(context).tree_offset() == old(context).tree_offset(),
            final(context).tree_header_size() == old(context).tree_header_size(),
            final(context).tree_header_written() == old(context).tree_header_written(),
            final(context).coords() == old(context).coords(),
            final(context).fold().plan() == old(context).fold().plan(),
            actual_block_size != written_size(self.level_seed()) <==> result == Err::<
                Continue<B>,
                Error,
            >(
                Error::FlushBlockSizeMismatch {
                    written: actual_block_size,
                    expected: written_size(self.level_seed()),
                },
            ),
            actual_block_size != written_size(self.level_seed()) ==> {
                &&& final(context).recent_block_offset() == old(context).recent_block_offset()
                &&& final(context).fold().levels() == old(context).fold().levels()
            },
            actual_block_size == written_size(self.level_seed()) ==> {
                &&& final(context).recent_block_offset() == Some(self.level_seed().block_offset)
                &&& final(context).fold().levels() == fold::given_back(
                    old(context).fold().levels(),
                    self.fold_next().level_index(),
                    fold::LevelState::SeenVisitBlockFinish {
                        level_seed: LevelSeed {
                            block_offset: (self.level_seed().block_offset
                                + actual_block_size) as usize,
                            cursor: (self.level_seed().block_offset + actual_block_size) as usize,
                            ..self.level_seed()
                        },
                    },
                )
                &&& error_of(result) == wrapped(
                    fold::give_back_error(
                        old(context).fold().levels(),
                        self.fold_next().level_index(),
                        fold::Error::InvalidLevelIndexForVisitBlockFinish {
                            level_index: self.fold_next().level_index(),
                        },
                        fold::Error::AlreadyInitializedLevelForVisitBlockFinish,
                    ),
                    |e: fold::Error| Error::FlushBlock(e),
                )
                &&& result matches Ok(kont) ==> {
                    &&& kont.fold_action matches FoldAction::Step(fold_kont)
                    &&& fold_kont.plan_action is Step
                }
            },
    {
        self.block_flushed_grown(actual_block_size, 0, context)
    }

    /// Says how large the flushed block is, and that the caller has put
    /// `growth` more bytes behind it, as it did when the block was
    /// measured. The size of the block itself must be what was written of
    /// it, and any other is refused; so is a block that ends with its
    /// growth beyond the range of offsets. The level's next block starts
    /// behind the growth, and the next item refers to the block.
    pub fn block_flushed_grown(
        self,
        actual_block_size: usize,
        growth: usize,
        context: &mut Context<B>,
    ) -> (result: Result<Continue<B>, Error>)
        ensures
            final(context).tree_offset() == old(context).tree_offset(),
            final(context).tree_header_size() == old(context).tree_header_size(),
            final(context).tree_header_written() == old(context).tree_header_written(),
            final(context).coords() == old(context).coords(),
            final(context).fold().plan() == old(context).fold().plan(),
            flush_refused(self.level_seed(), actual_block_size, growth) matches Some(error) ==> {
                &&& result == Err::<Continue<B>, Error>(error)
                &&& final(context).recent_block_offset() == old(context).recent_block_offset()
                &&& final(context).fold().levels() == old(context).fold().levels()
            },
            flush_refused(self.level_seed(), actual_block_size, growth) is None ==> {
                &&& final(context).recent_block_offset() == Some(self.level_seed().block_offset)
                &&& final(context).fold().levels() == fold::given_back(
                    old(context).fold().levels(),
                    self.fold_next().level_index(),
                    fold::LevelState::SeenVisitBlockFinish {
                        level_seed: LevelSeed {
                            block_offset: (self.level_seed().block_offset + actual_block_size
                                + growth) as usize,
                            cursor: (self.level_seed().block_offset + actual_block_size
                                + growth) as usize,
                            ..self.level_seed()
                        },
                    },
                )
                &&& error_of(result) == wrapped(
                    fold::give_back_error(
                        old(context).fold().levels(),
                        self.fold_next().level_index(),
                        fold::Error::InvalidLevelIndexForVisitBlockFinish {
                            level_index: self.fold_next().level_index(),
                        },
                        fold::Error::AlreadyInitializedLevelForVisitBlockFinish,
                    ),
                    |e: fold::Error| Error::FlushBlock(e),
                )
                &&& result matches Ok(kont) ==> {
                    &&& kont.fold_action matches FoldAction::Step(fold_kont)
                    &&& fold_kont.plan_action is Step
                }
            },
    {
        let start = self.level_seed.block_offset;
        let end = self.level_seed.cursor;
        let expected = if end >= start {
            end - start
        } else {
            0
        };
        if actual_block_size != expected {
            return Err(Error::FlushBlockSizeMismatch { written: actual_block_size, expected });
        }
        if growth > usize::MAX - start - actual_block_size {
            return Err(
                Error::FlushBlockOutOfRange {
                    block_offset: start,
                    block_size: actual_block_size,
                    growth,
                },
            );
        }
        context.recent_block_offset = Some(start);
        let seed = LevelSeed {
            level_header_size: self.level_seed.level_header_size,
            block_offset: start + actual_block_size + growth,
            cursor: start + actual_block_size + growth,
            active_block: self.level_seed.active_block,
        };
        match self.fold_next.block_flushed(seed, context.fold_ctx()) {
            Ok(fold_continue) => Ok(
                Continue { fold_action: FoldAction::Step(fold_continue), next: self.script },
            ),
            Err(error) => Err(Error::FlushBlock(error)),
        }
    }
}

impl<B> Continue<B> {
    /// `event` is the walk's instruction behind the visit that this
    /// continuation leads to.
    pub open spec fn links(
        self,
        context: fold::Context<LevelSeed<B>>,
        event: Option<plan::Event>,
    ) -> bool {
        match self.fold_action {
            FoldAction::Idle(op) => op.linked(event),
            FoldAction::Step(kont) => event == kont.plan_event(context.plan()),
        }
    }

    /// The visit that this continuation leads to, or the fold's error: the
    /// visit that it holds, or the one that the fold's next step gives.
    pub open spec fn fold_visit(self, context: fold::Context<LevelSeed<B>>) -> Result<
        fold::Visit<LevelSeed<B>>,
        fold::Error,
    > {
        match self.fold_action {
            FoldAction::Idle(op) => Ok(op.visit()),
            FoldAction::Step(kont) => fold::visit(
                context.levels(),
                kont.plan_event(context.plan()),
            ),
        }
    }

    /// The fold's levels after this continuation was followed.
    pub open spec fn levels_after(self, context: fold::Context<LevelSeed<B>>) -> Seq<
        Option<fold::LevelState<LevelSeed<B>>>,
    > {
        match self.fold_action {
            FoldAction::Idle(_) => context.levels(),
            FoldAction::Step(kont) => fold::taken(
                context.levels(),
                kont.plan_event(context.plan()),
            ),
        }
    }

    /// The state of the walk after this continuation was followed.
    pub open spec fn plan_after(self, context: fold::Context<LevelSeed<B>>) -> plan::State {
        match self.fold_action {
            FoldAction::Idle(_) => context.plan()@,
            FoldAction::Step(kont) => kont.plan_after(context.plan()),
        }
    }

    /// Takes the fold's next step where one is due, and turns its visit
    /// into a task.
    pub fn step_rec(self, write_context: &mut Context<B>) -> (result: Result<Instruction<B>, Error>)
        requires
            old(write_context).wf(),
        ensures
            final(write_context).wf(),
            final(write_context).tree_offset() == old(write_context).tree_offset(),
            final(write_context).tree_header_size() == old(write_context).tree_header_size(),
            final(write_context).tree_header_written() == old(write_context).tree_header_written(),
            final(write_context).coords() == old(write_context).coords(),
            final(write_context).fold().plan()@ == self.plan_after(old(write_context).fold()),
            final(write_context).fold().levels() == self.levels_after(old(write_context).fold()),
            self.fold_visit(old(write_context).fold()) matches Err(error) ==> {
                &&& result == Err::<Instruction<B>, Error>(Error::StepRec(error))
                &&& final(write_context).recent_block_offset() == old(
                    write_context,
                ).recent_block_offset()
            },
            self.fold_visit(old(write_context).fold()) matches Ok(visit) ==> {
                &&& !old(write_context).tree_header_written() ==> {
                    &&& final(write_context).recent_block_offset() == old(
                        write_context,
                    ).recent_block_offset()
                    &&& result matches Ok(Instruction::Op(Op::WriteTreeHeader(t)))
                    &&& t.tree_offset == old(write_context).tree_offset()
                    &&& t.tree_header_size == old(write_context).tree_header_size()
                    &&& t.tree_total_size == old(write_context).tree_header_size() + total_before(
                        old(write_context).coords(),
                        old(write_context).coords().len() as int,
                    )
                    &&& t.next.fold_next().visit() == visit
                    &&& forall|event: Option<plan::Event>| #[trigger]
                        self.links(old(write_context).fold(), event)
                            ==> t.next.fold_next().linked(event)
                }
                &&& old(write_context).tree_header_written() ==> {
                    &&& final(write_context).recent_block_offset() == if outcome(result) matches Ok(
                        Task::WriteItem { .. },
                    ) {
                        None
                    } else {
                        old(write_context).recent_block_offset()
                    }
                    &&& outcome(result) == task_for(
                        visit,
                        old(write_context).tree_offset(),
                        old(write_context).tree_header_size(),
                        old(write_context).coords(),
                        old(write_context).recent_block_offset(),
                    )
                    &&& result matches Ok(instruction) ==> forall|event: Option<plan::Event>| #[trigger]
                        self.links(old(write_context).fold(), event) ==> instruction.linked(
                            seed_kept(
                                visit,
                                old(write_context).tree_offset(),
                                old(write_context).tree_header_size(),
                                old(write_context).coords(),
                            ),
                            event,
                        )
                }
            },
    {
        match self {
            Continue { fold_action: FoldAction::Idle(fold_op), next: write_next } => {
                write_next.step(write_context, fold_op)
            },
            Continue { fold_action: FoldAction::Step(fold_continue), next: write_next } => {
                let ghost event = fold_continue.plan_event(write_context.fold().plan());
                match fold_continue.step_rec(write_context.fold_ctx()) {
                    Ok(fold_op) => {
                        assert(fold_op.linked(event));
                        write_next.step(write_context, fold_op)
                    },
                    Err(error) => Err(Error::StepRec(error)),
                }
            },
        }
    }
}

} // verus!
