//! A fold over the walk: each level carries a seed of the caller's from one
//! visit to the next.
//!
//! Every visit takes the level's seed out of the context and hands it to the
//! caller, who gives it back, updated, through the continuation that came
//! with the visit. A level whose seed is out cannot be visited again.

use vstd::prelude::*;
use crate::sketch;
use crate::writer::plan;

verus! {

/// What the fold asks for next: a visit, or nothing more.
pub enum Instruction<S> {
    Op(Op<S>),
    Done,
}

/// The visits of the fold: of a level that is met for the first time, of a
/// block that starts, of an item, and of a block that is finished.
pub enum Op<S> {
    VisitLevel(VisitLevel),
    VisitBlockStart(VisitBlockStart<S>),
    VisitItem(VisitItem<S>),
    VisitBlockFinish(VisitBlockFinish<S>),
}

/// The way on from a visit: the walk's instruction to look at, or the step of
/// the walk to take.
pub struct Continue {
    pub plan_action: PlanAction,
    pub next: Script,
}

/// What a continuation holds of the walk.
pub enum PlanAction {
    Idle(plan::Instruction),
    Step(plan::Continue),
}

/// The ways in which the fold and the walk can be out of step.
#[derive(Clone, PartialEq, Debug)]
pub enum Error {
    UnexpectedNonZeroBlockIndexForLevelState,
    UnexpectedZeroBlockIndexForLevelState,
    InvalidLevelStateForBlockStart,
    InvalidLevelStateForWriteItem,
    InvalidLevelStateForBlockFinish,
    InvalidPlanBlockStartLevelIndex { level_index: usize },
    UnexpectedLevelStateForPlanBlockStart {
        level_index: usize,
        block_index: usize,
        prev_block_index: usize,
    },
    InvalidPlanBlockItemLevelIndex { level_index: usize },
    WritingItemBeforeLevelInitialize,
    WritingItemBeforeBlockInitialize,
    WritingItemAfterBlockFlush,
    WritingItemInWrongBlock { block_index: usize, active_block_index: usize },
    InvalidPlanBlockFinisLevelIndex { level_index: usize },
    FinishingBlockBeforeLevelInitialize,
    FinishingBlockBeforeBlockInitialize,
    FinishingTheWrongBlock { block_index: usize, active_block_index: usize },
    FinishingBlockAfterBlockFlush,
    InvalidLevelIndexForVisitLevel { level_index: usize },
    AlreadyInitializedLevelForVisitLevel,
    InvalidLevelIndexForVisitBlockStart { level_index: usize },
    AlreadyInitializedLevelForVisitBlockStart,
    InvalidLevelIndexForVisitItem { level_index: usize },
    AlreadyInitializedLevelForVisitItem,
    InvalidLevelIndexForVisitBlockFinish { level_index: usize },
    AlreadyInitializedLevelForVisitBlockFinish,
}

/// The fold itself: it holds nothing, all that it knows is in its context.
pub struct Script(());

/// What the fold knows: the walk, and the state of each level.
pub struct Context<S> {
    plan_ctx: plan::Context,
    levels: Vec<Option<LevelState<S>>>,
}

/// How far a level has come, with its seed.
pub enum LevelState<S> {
    Bootstrap,
    SeenVisitLevel { level_seed: S },
    SeenVisitBlockStart { level_seed: S, block_index: usize },
    SeenVisitBlockFinish { level_seed: S },
}

/// A visit without its continuation.
pub enum Visit<S> {
    Level { level_index: usize },
    BlockStart { level_index: usize, level_seed: S, block_index: usize, items_count: usize },
    Item { level_index: usize, level_seed: S, block_index: usize, block_item_index: usize },
    BlockFinish { level_index: usize, level_seed: S, block_index: usize },
    Done,
}

/// The visit that a block's start leads to on a level in state `state`.
pub open spec fn visit_block_start<S>(
    state: Option<LevelState<S>>,
    level_index: usize,
    block_index: usize,
    items_count: usize,
) -> Result<Visit<S>, Error> {
    match state {
        None => Err(Error::InvalidLevelStateForBlockStart),
        Some(LevelState::Bootstrap) => if block_index == 0 {
            Ok(Visit::Level { level_index })
        } else {
            Err(Error::UnexpectedNonZeroBlockIndexForLevelState)
        },
        Some(LevelState::SeenVisitLevel { level_seed }) => if block_index == 0 {
            Ok(Visit::BlockStart { level_index, level_seed, block_index: 0, items_count })
        } else {
            Err(Error::UnexpectedNonZeroBlockIndexForLevelState)
        },
        Some(LevelState::SeenVisitBlockStart { block_index: prev_block_index, .. }) => Err(
            Error::UnexpectedLevelStateForPlanBlockStart {
                level_index,
                block_index,
                prev_block_index,
            },
        ),
        Some(LevelState::SeenVisitBlockFinish { level_seed }) => if block_index > 0 {
            Ok(Visit::BlockStart { level_index, level_seed, block_index, items_count })
        } else {
            Err(Error::UnexpectedZeroBlockIndexForLevelState)
        },
    }
}

/// The visit that an item leads to on a level in state `state`.
pub open spec fn visit_block_item<S>(
    state: Option<LevelState<S>>,
    level_index: usize,
    block_index: usize,
    block_item_index: usize,
) -> Result<Visit<S>, Error> {
    match state {
        None => Err(Error::InvalidLevelStateForWriteItem),
        Some(LevelState::Bootstrap) => Err(Error::WritingItemBeforeLevelInitialize),
        Some(LevelState::SeenVisitLevel { .. }) => Err(Error::WritingItemBeforeBlockInitialize),
        Some(
            LevelState::SeenVisitBlockStart { level_seed, block_index: active_block_index },
        ) => if active_block_index == block_index {
            Ok(Visit::Item { level_index, level_seed, block_index, block_item_index })
        } else {
            Err(Error::WritingItemInWrongBlock { block_index, active_block_index })
        },
        Some(LevelState::SeenVisitBlockFinish { .. }) => Err(Error::WritingItemAfterBlockFlush),
    }
}

/// The visit that a block's end leads to on a level in state `state`.
pub open spec fn visit_block_finish<S>(
    state: Option<LevelState<S>>,
    level_index: usize,
    block_index: usize,
) -> Result<Visit<S>, Error> {
    match state {
        None => Err(Error::InvalidLevelStateForBlockFinish),
        Some(LevelState::Bootstrap) => Err(Error::FinishingBlockBeforeLevelInitialize),
        Some(LevelState::SeenVisitLevel { .. }) => Err(Error::FinishingBlockBeforeBlockInitialize),
        Some(
            LevelState::SeenVisitBlockStart { level_seed, block_index: active_block_index },
        ) => if active_block_index == block_index {
            Ok(Visit::BlockFinish { level_index, level_seed, block_index })
        } else {
            Err(Error::FinishingTheWrongBlock { block_index, active_block_index })
        },
        Some(LevelState::SeenVisitBlockFinish { .. }) => Err(Error::FinishingBlockAfterBlockFlush),
    }
}

/// The visit that `event` leads to, or the error that it meets, when the
/// levels stand as in `levels`.
pub open spec fn visit<S>(levels: Seq<Option<LevelState<S>>>, event: Option<plan::Event>) -> Result<
    Visit<S>,
    Error,
> {
    match event {
        None => Ok(Visit::Done),
        Some(ev) => {
            let level_index = ev.level_index;
            let block_index = ev.block_index;
            match ev.op {
                plan::Op::BlockStart { items_count } => if level_index >= levels.len() {
                    Err(Error::InvalidPlanBlockStartLevelIndex { level_index })
                } else {
                    visit_block_start(
                        levels[level_index as int],
                        level_index,
                        block_index,
                        items_count,
                    )
                },
                plan::Op::BlockItem { index } => if level_index >= levels.len() {
                    Err(Error::InvalidPlanBlockItemLevelIndex { level_index })
                } else {
                    visit_block_item(levels[level_index as int], level_index, block_index, index)
                },
                plan::Op::BlockFinish => if level_index >= levels.len() {
                    Err(Error::InvalidPlanBlockFinisLevelIndex { level_index })
                } else {
                    visit_block_finish(levels[level_index as int], level_index, block_index)
                },
            }
        },
    }
}

/// The levels after `event` was looked at: the seed of the level that it
/// names is out.
pub open spec fn taken<S>(levels: Seq<Option<LevelState<S>>>, event: Option<plan::Event>) -> Seq<
    Option<LevelState<S>>,
> {
    match event {
        Some(ev) if ev.level_index < levels.len() => levels.update(ev.level_index as int, None),
        _ => levels,
    }
}

/// The levels after a seed was given back for level `level_index` in state
/// `state`; unchanged where the level does not exist or its seed is not out.
pub open spec fn given_back<S>(
    levels: Seq<Option<LevelState<S>>>,
    level_index: usize,
    state: LevelState<S>,
) -> Seq<Option<LevelState<S>>> {
    if level_index < levels.len() && levels[level_index as int] is None {
        levels.update(level_index as int, Some(state))
    } else {
        levels
    }
}

/// The error that giving a seed back for level `level_index` meets:
/// `missing` where there is no such level, `present` where its seed is not
/// out, none otherwise.
pub open spec fn give_back_error<S>(
    levels: Seq<Option<LevelState<S>>>,
    level_index: usize,
    missing: Error,
    present: Error,
) -> Option<Error> {
    if level_index >= levels.len() {
        Some(missing)
    } else if levels[level_index as int] is Some {
        Some(present)
    } else {
        None
    }
}

/// The error of a continuation's result, if it is one.
pub open spec fn error_of<T>(result: Result<T, Error>) -> Option<Error> {
    match result {
        Ok(_) => None,
        Err(error) => Some(error),
    }
}

/// The seeds of the levels whose last block is flushed, each with its
/// level's index, root first.
pub open spec fn flushed_seeds<S>(levels: Seq<Option<LevelState<S>>>) -> Seq<(usize, S)>
    decreases levels.len(),
{
    if levels.len() == 0 {
        Seq::empty()
    } else {
        let front = flushed_seeds(levels.drop_last());
        match levels.last() {
            Some(LevelState::SeenVisitBlockFinish { level_seed }) => front.push(
                ((levels.len() - 1) as usize, level_seed),
            ),
            _ => front,
        }
    }
}

impl<S> Instruction<S> {
    /// The visit that the instruction asks for, without its continuation.
    pub open spec fn visit(self) -> Visit<S> {
        match self {
            Instruction::Op(Op::VisitLevel(v)) => Visit::Level { level_index: v.level_index },
            Instruction::Op(Op::VisitBlockStart(v)) => Visit::BlockStart {
                level_index: v.level_index,
                level_seed: v.level_seed,
                block_index: v.block_index,
                items_count: v.items_count,
            },
            Instruction::Op(Op::VisitItem(v)) => Visit::Item {
                level_index: v.level_index,
                level_seed: v.level_seed,
                block_index: v.block_index,
                block_item_index: v.block_item_index,
            },
            Instruction::Op(Op::VisitBlockFinish(v)) => Visit::BlockFinish {
                level_index: v.level_index,
                level_seed: v.level_seed,
                block_index: v.block_index,
            },
            Instruction::Done => Visit::Done,
        }
    }

    /// The continuation belongs to this visit: it names the visit's level
    /// and block, and that of a level's first visit holds `event` to look
    /// at again.
    pub open spec fn linked(self, event: Option<plan::Event>) -> bool {
        match self {
            Instruction::Op(Op::VisitLevel(v)) => {
                &&& v.next.level_index() == v.level_index
                &&& v.next.plan_next().event() == event
            },
            Instruction::Op(Op::VisitBlockStart(v)) => {
                &&& v.next.level_index() == v.level_index
                &&& v.next.block_index() == v.block_index
            },
            Instruction::Op(Op::VisitItem(v)) => {
                &&& v.next.level_index() == v.level_index
                &&& v.next.block_index() == v.block_index
            },
            Instruction::Op(Op::VisitBlockFinish(v)) => v.next.level_index() == v.level_index,
            Instruction::Done => true,
        }
    }
}

/// What a step returns, without the continuations.
pub open spec fn outcome<S>(result: Result<Instruction<S>, Error>) -> Result<Visit<S>, Error> {
    match result {
        Ok(instruction) => Ok(instruction.visit()),
        Err(error) => Err(error),
    }
}

impl<S> Context<S> {
    /// The state of the walk that the fold follows.
    pub closed spec fn plan(&self) -> plan::Context {
        self.plan_ctx
    }

    /// The state of each level, root first; `None` while its seed is out.
    pub closed spec fn levels(&self) -> Seq<Option<LevelState<S>>> {
        self.levels@
    }

    /// The walk can go on.
    pub open spec fn wf(&self) -> bool {
        self.plan().wf()
    }

    /// A fold over the walk `plan_ctx` of `sketch`, with no level visited yet.
    pub fn new(plan_ctx: plan::Context, sketch: &sketch::Tree) -> (context: Context<S>)
        ensures
            context.plan() == plan_ctx,
            context.levels() == Seq::new(
                sketch.spec_levels().len(),
                |i: int| Some(LevelState::<S>::Bootstrap),
            ),
    {
        let count = sketch.levels().len();
        let mut levels: Vec<Option<LevelState<S>>> = Vec::new();
        let mut i: usize = 0;
        while i < count
            invariant
                i <= count,
                levels@.len() == i,
                forall|j: int| 0 <= j < i ==> levels@[j] == Some(LevelState::<S>::Bootstrap),
            decreases count - i,
        {
            levels.push(Some(LevelState::Bootstrap));
            i = i + 1;
        }
        assert(levels@ =~= Seq::new(
            sketch.spec_levels().len(),
            |i: int| Some(LevelState::<S>::Bootstrap),
        ));
        Context { plan_ctx, levels }
    }

    /// The walk, to take its next step.
    pub fn plan_ctx(&mut self) -> (plan_ctx: &mut plan::Context)
        ensures
            *plan_ctx == old(self).plan(),
            final(self).plan() == *final(plan_ctx),
            final(self).levels() == old(self).levels(),
    {
        &mut self.plan_ctx
    }

    /// Takes the state of level `level_index` out, leaving `None`.
    fn take_level(&mut self, level_index: usize) -> (state: Option<LevelState<S>>)
        requires
            level_index < old(self).levels().len(),
        ensures
            state == old(self).levels()[level_index as int],
            final(self).levels() == old(self).levels().update(level_index as int, None),
            final(self).plan() == old(self).plan(),
    {
        self.levels.push(None);
        let state = self.levels.swap_remove(level_index);
        assert(self.levels@ =~= old(self).levels@.update(level_index as int, None));
        state
    }

    /// Puts `state` in for level `level_index`, whose seed is out.
    fn give_back(&mut self, level_index: usize, state: LevelState<S>) -> (done: Result<(), bool>)
        ensures
            final(self).plan() == old(self).plan(),
            final(self).levels() == given_back(old(self).levels(), level_index, state),
            done == if level_index >= old(self).levels().len() {
                Err::<(), bool>(false)
            } else if old(self).levels()[level_index as int] is Some {
                Err::<(), bool>(true)
            } else {
                Ok::<(), bool>(())
            },
    {
        if level_index >= self.levels.len() {
            return Err(false);
        }
        if self.levels[level_index].is_some() {
            return Err(true);
        }
        self.levels.set(level_index, Some(state));
        Ok(())
    }

    /// Ends the fold: the walk, and the seed of each level whose last block
    /// is flushed, with the level's index, root first.
    pub fn into_levels_iter(self) -> (parts: (plan::Context, Vec<(usize, S)>))
        ensures
            parts.0 == self.plan(),
            parts.1@ == flushed_seeds(self.levels()),
    {
        let Context { plan_ctx, levels } = self;
        let mut levels = levels;
        let ghost all = levels@;
        let mut reversed: Vec<(usize, S)> = Vec::new();
        while levels.len() > 0
            invariant
                levels@ == all.subrange(0, levels@.len() as int),
                levels@.len() <= all.len(),
                flushed_seeds(all) == flushed_seeds(levels@) + reversed@.reverse(),
            decreases levels.len(),
        {
            let ghost before = levels@;
            let ghost collected = reversed@;
            let level_index = levels.len() - 1;
            let state = levels.pop();
            assert(levels@ == before.drop_last());
            match state {
                Some(Some(LevelState::SeenVisitBlockFinish { level_seed })) => {
                    reversed.push((level_index, level_seed));
                    assert(reversed@.reverse() =~= seq![(level_index, level_seed)]
                        + collected.reverse());
                    assert(flushed_seeds(before) + collected.reverse() =~= flushed_seeds(levels@)
                        + reversed@.reverse());
                },
                _ => {},
            }
            assert(levels@ =~= all.subrange(0, levels@.len() as int));
        }
        assert(flushed_seeds(levels@) =~= Seq::<(usize, S)>::empty());
        let mut seeds: Vec<(usize, S)> = Vec::new();
        let ghost target = reversed@.reverse();
        while reversed.len() > 0
            invariant
                reversed@.len() + seeds@.len() == target.len(),
                seeds@ + reversed@.reverse() == target,
            decreases reversed.len(),
        {
            let ghost before = reversed@;
            let ghost built = seeds@;
            let seed = reversed.pop();
            match seed {
                Some(seed) => {
                    seeds.push(seed);
                    assert(before.reverse() =~= seq![seed] + reversed@.reverse());
                    assert(seeds@ + reversed@.reverse() =~= built + before.reverse());
                },
                None => {},
            }
        }
        assert(seeds@ =~= target);
        (plan_ctx, seeds)
    }
}

impl Script {
    /// The continuation that starts a fold.
    pub fn boot() -> (kont: Continue)
        ensures
            kont.plan_action is Step,
    {
        Continue { plan_action: PlanAction::Step(plan::Script::boot()), next: Script(()) }
    }

    /// Turns the walk's instruction `op` into a visit of the level that it
    /// names, and takes that level's seed out for it.
    pub fn step<S>(self, context: &mut Context<S>, op: plan::Instruction) -> (result: Result<
        Instruction<S>,
        Error,
    >)
        ensures
            outcome(result) == visit(old(context).levels(), op.event()),
            result matches Ok(instruction) ==> instruction.linked(op.event()),
            final(context).levels() == taken(old(context).levels(), op.event()),
            final(context).plan() == old(context).plan(),
    {
        match op {
            plan::Instruction::Perform(
                plan::Perform { op: plan::Op::BlockStart { items_count }, level_index, block_index, next },
            ) => {
                if level_index >= context.levels.len() {
                    return Err(Error::InvalidPlanBlockStartLevelIndex { level_index });
                }
                match context.take_level(level_index) {
                    None => Err(Error::InvalidLevelStateForBlockStart),
                    Some(LevelState::Bootstrap) => {
                        if block_index == 0 {
                            Ok(
                                Instruction::Op(
                                    Op::VisitLevel(
                                        VisitLevel {
                                            level_index,
                                            next: VisitLevelNext {
                                                level_index,
                                                script: self,
                                                plan_next: plan::Instruction::Perform(
                                                    plan::Perform {
                                                        op: plan::Op::BlockStart { items_count },
                                                        level_index,
                                                        block_index,
                                                        next,
                                                    },
                                                ),
                                            },
                                        },
                                    ),
                                ),
                            )
                        } else {
                            Err(Error::UnexpectedNonZeroBlockIndexForLevelState)
                        }
                    },
                    Some(LevelState::SeenVisitLevel { level_seed }) => {
                        if block_index == 0 {
                            Ok(
                                Instruction::Op(
                                    Op::VisitBlockStart(
                                        VisitBlockStart {
                                            level_index,
                                            level_seed,
                                            block_index: 0,
                                            items_count,
                                            next: VisitBlockStartNext {
                                                level_index,
                                                block_index,
                                                script: self,
                                                plan_next: next,
                                            },
                                        },
                                    ),
                                ),
                            )
                        } else {
                            Err(Error::UnexpectedNonZeroBlockIndexForLevelState)
                        }
                    },
                    Some(LevelState::SeenVisitBlockStart { block_index: prev_block_index, .. }) => {
                        Err(
                            Error::UnexpectedLevelStateForPlanBlockStart {
                                level_index,
                                block_index,
                                prev_block_index,
                            },
                        )
                    },
                    Some(LevelState::SeenVisitBlockFinish { level_seed }) => {
                        if block_index > 0 {
                            Ok(
                                Instruction::Op(
                                    Op::VisitBlockStart(
                                        VisitBlockStart {
                                            level_index,
                                            level_seed,
                                            block_index,
                                            items_count,
                                            next: VisitBlockStartNext {
                                                level_index,
                                                block_index,
                                                script: self,
                                                plan_next: next,
                                            },
                                        },
                                    ),
                                ),
                            )
                        } else {
                            Err(Error::UnexpectedZeroBlockIndexForLevelState)
                        }
                    },
                }
            },
            plan::Instruction::Perform(
                plan::Perform {
                    op: plan::Op::BlockItem { index: block_item_index },
                    level_index,
                    block_index,
                    next,
                },
            ) => {
                if level_index >= context.levels.len() {
                    return Err(Error::InvalidPlanBlockItemLevelIndex { level_index });
                }
                match context.take_level(level_index) {
                    None => Err(Error::InvalidLevelStateForWriteItem),
                    Some(LevelState::Bootstrap) => Err(Error::WritingItemBeforeLevelInitialize),
                    Some(LevelState::SeenVisitLevel { .. }) => Err(
                        Error::WritingItemBeforeBlockInitialize,
                    ),
                    Some(
                        LevelState::SeenVisitBlockStart {
                            level_seed,
                            block_index: active_block_index,
                        },
                    ) => {
                        if active_block_index == block_index {
                            Ok(
                                Instruction::Op(
                                    Op::VisitItem(
                                        VisitItem {
                                            level_index,
                                            level_seed,
                                            block_index,
                                            block_item_index,
                                            next: VisitItemNext {
                                                level_index,
                                                block_index,
                                                script: self,
                                                plan_next: next,
                                            },
                                        },
                                    ),
                                ),
                            )
                        } else {
                            Err(Error::WritingItemInWrongBlock { block_index, active_block_index })
                        }
                    },
                    Some(LevelState::SeenVisitBlockFinish { .. }) => Err(
                        Error::WritingItemAfterBlockFlush,
                    ),
                }
            },
            plan::Instruction::Perform(
                plan::Perform { op: plan::Op::BlockFinish, level_index, block_index, next },
            ) => {
                if level_index >= context.levels.len() {
                    return Err(Error::InvalidPlanBlockFinisLevelIndex { level_index });
                }
                match context.take_level(level_index) {
                    None => Err(Error::InvalidLevelStateForBlockFinish),
                    Some(LevelState::Bootstrap) => Err(Error::FinishingBlockBeforeLevelInitialize),
                    Some(LevelState::SeenVisitLevel { .. }) => Err(
                        Error::FinishingBlockBeforeBlockInitialize,
                    ),
                    Some(
                        LevelState::SeenVisitBlockStart {
                            level_seed,
                            block_index: active_block_index,
                        },
                    ) => {
                        if active_block_index == block_index {
                            Ok(
                                Instruction::Op(
                                    Op::VisitBlockFinish(
                                        VisitBlockFinish {
                                            level_index,
                                            level_seed,
                                            block_index,
                                            next: VisitBlockFinishNext {
                                                level_index,
                                                script: self,
                                                plan_next: next,
                                            },
                                        },
                                    ),
                                ),
                            )
                        } else {
                            Err(Error::FinishingTheWrongBlock { block_index, active_block_index })
                        }
                    },
                    Some(LevelState::SeenVisitBlockFinish { .. }) => Err(
                        Error::FinishingBlockAfterBlockFlush,
                    ),
                }
            },
            plan::Instruction::Done => Ok(Instruction::Done),
        }
    }
}

impl Continue {
    /// The walk's instruction that this continuation leads to: the one that
    /// it holds, or the one that the walk's next step gives.
    pub open spec fn plan_event(self, context: plan::Context) -> Option<plan::Event> {
        match self.plan_action {
            PlanAction::Idle(op) => op.event(),
            PlanAction::Step(_) => plan::next_event(context@),
        }
    }

    /// The state of the walk after this continuation was followed.
    pub open spec fn plan_after(self, context: plan::Context) -> plan::State {
        match self.plan_action {
            PlanAction::Idle(_) => context@,
            PlanAction::Step(_) => plan::next_state(context@),
        }
    }

    /// Takes the walk's next step where one is due, and turns its
    /// instruction into a visit.
    pub fn step_rec<S>(self, fold_ctx: &mut Context<S>) -> (result: Result<Instruction<S>, Error>)
        requires
            old(fold_ctx).wf(),
        ensures
            final(fold_ctx).wf(),
            final(fold_ctx).plan()@ == self.plan_after(old(fold_ctx).plan()),
            outcome(result) == visit(
                old(fold_ctx).levels(),
                self.plan_event(old(fold_ctx).plan()),
            ),
            final(fold_ctx).levels() == taken(
                old(fold_ctx).levels(),
                self.plan_event(old(fold_ctx).plan()),
            ),
            result matches Ok(instruction) ==> instruction.linked(
                self.plan_event(old(fold_ctx).plan()),
            ),
    {
        match self {
            Continue { plan_action: PlanAction::Idle(plan_op), next } => next.step(
                fold_ctx,
                plan_op,
            ),
            Continue { plan_action: PlanAction::Step(plan_continue), next } => {
                let plan_op = plan_continue.next.step(fold_ctx.plan_ctx());
                next.step(fold_ctx, plan_op)
            },
        }
    }
}

/// The visit of a level that the walk meets for the first time: the caller
/// gives the level its first seed.
pub struct VisitLevel {
    pub level_index: usize,
    pub next: VisitLevelNext,
}

/// The way on from the first visit of a level.
pub struct VisitLevelNext {
    level_index: usize,
    script: Script,
    plan_next: plan::Instruction,
}

impl VisitLevelNext {
    /// The level that was visited.
    pub closed spec fn level_index(&self) -> usize {
        self.level_index
    }

    /// The walk's instruction that led to the visit; it is looked at again
    /// once the level has its seed.
    pub closed spec fn plan_next(&self) -> plan::Instruction {
        self.plan_next
    }

    /// Gives the level its first seed.
    pub fn level_ready<S>(self, level_seed: S, context: &mut Context<S>) -> (result: Result<
        Continue,
        Error,
    >)
        ensures
            final(context).plan() == old(context).plan(),
            final(context).levels() == given_back(
                old(context).levels(),
                self.level_index(),
                LevelState::SeenVisitLevel { level_seed },
            ),
            error_of(result) == give_back_error(
                old(context).levels(),
                self.level_index(),
                Error::InvalidLevelIndexForVisitLevel { level_index: self.level_index() },
                Error::AlreadyInitializedLevelForVisitLevel,
            ),
            result matches Ok(kont) ==> kont.plan_action == PlanAction::Idle(self.plan_next()),
    {
        let level_index = self.level_index;
        match context.give_back(level_index, LevelState::SeenVisitLevel { level_seed }) {
            Err(false) => Err(Error::InvalidLevelIndexForVisitLevel { level_index }),
            Err(true) => Err(Error::AlreadyInitializedLevelForVisitLevel),
            Ok(()) => Ok(
                Continue { plan_action: PlanAction::Idle(self.plan_next), next: self.script },
            ),
        }
    }
}

/// The visit of a block that starts.
pub struct VisitBlockStart<S> {
    pub level_index: usize,
    pub level_seed: S,
    pub block_index: usize,
    pub items_count: usize,
    pub next: VisitBlockStartNext,
}

/// The way on from the visit of a block that starts.
pub struct VisitBlockStartNext {
    level_index: usize,
    block_index: usize,
    script: Script,
    plan_next: plan::Continue,
}

impl VisitBlockStartNext {
    /// The level that was visited.
    pub closed spec fn level_index(&self) -> usize {
        self.level_index
    }

    /// The block that starts.
    pub closed spec fn block_index(&self) -> usize {
        self.block_index
    }

    /// The walk's continuation.
    pub closed spec fn plan_next(&self) -> plan::Continue {
        self.plan_next
    }

    /// Gives the level's seed back; the block is now open.
    pub fn block_ready<S>(self, level_seed: S, context: &mut Context<S>) -> (result: Result<
        Continue,
        Error,
    >)
        ensures
            final(context).plan() == old(context).plan(),
            final(context).levels() == given_back(
                old(context).levels(),
                self.level_index(),
                LevelState::SeenVisitBlockStart { level_seed, block_index: self.block_index() },
            ),
            error_of(result) == give_back_error(
                old(context).levels(),
                self.level_index(),
                Error::InvalidLevelIndexForVisitBlockStart { level_index: self.level_index() },
                Error::AlreadyInitializedLevelForVisitBlockStart,
            ),
            result matches Ok(kont) ==> kont.plan_action == PlanAction::Step(self.plan_next()),
    {
        let level_index = self.level_index;
        match context.give_back(
            level_index,
            LevelState::SeenVisitBlockStart { level_seed, block_index: self.block_index },
        ) {
            Err(false) => Err(Error::InvalidLevelIndexForVisitBlockStart { level_index }),
            Err(true) => Err(Error::AlreadyInitializedLevelForVisitBlockStart),
            Ok(()) => Ok(
                Continue { plan_action: PlanAction::Step(self.plan_next), next: self.script },
            ),
        }
    }
}

/// The visit of an item.
pub struct VisitItem<S> {
    pub level_index: usize,
    pub level_seed: S,
    pub block_index: usize,
    pub block_item_index: usize,
    pub next: VisitItemNext,
}

/// The way on from the visit of an item.
pub struct VisitItemNext {
    level_index: usize,
    block_index: usize,
    script: Script,
    plan_next: plan::Continue,
}

impl VisitItemNext {
    /// The level that was visited.
    pub closed spec fn level_index(&self) -> usize {
        self.level_index
    }

    /// The block that the item belongs to.
    pub closed spec fn block_index(&self) -> usize {
        self.block_index
    }

    /// The walk's continuation.
    pub closed spec fn plan_next(&self) -> plan::Continue {
        self.plan_next
    }

    /// Gives the level's seed back; the block stays open.
    pub fn item_ready<S>(self, level_seed: S, context: &mut Context<S>) -> (result: Result<
        Continue,
        Error,
    >)
        ensures
            final(context).plan() == old(context).plan(),
            final(context).levels() == given_back(
                old(context).levels(),
                self.level_index(),
                LevelState::SeenVisitBlockStart { level_seed, block_index: self.block_index() },
            ),
            error_of(result) == give_back_error(
                old(context).levels(),
                self.level_index(),
                Error::InvalidLevelIndexForVisitItem { level_index: self.level_index() },
                Error::AlreadyInitializedLevelForVisitItem,
            ),
            result matches Ok(kont) ==> kont.plan_action == PlanAction::Step(self.plan_next()),
    {
        let level_index = self.level_index;
        match context.give_back(
            level_index,
            LevelState::SeenVisitBlockStart { level_seed, block_index: self.block_index },
        ) {
            Err(false) => Err(Error::InvalidLevelIndexForVisitItem { level_index }),
            Err(true) => Err(Error::AlreadyInitializedLevelForVisitItem),
            Ok(()) => Ok(
                Continue { plan_action: PlanAction::Step(self.plan_next), next: self.script },
            ),
        }
    }
}

/// The visit of a block that is finished.
pub struct VisitBlockFinish<S> {
    pub level_index: usize,
    pub level_seed: S,
    pub block_index: usize,
    pub next: VisitBlockFinishNext,
}

/// The way on from the visit of a block that is finished.
pub struct VisitBlockFinishNext {
    level_index: usize,
    script: Script,
    plan_next: plan::Continue,
}

impl VisitBlockFinishNext {
    /// The level that was visited.
    pub closed spec fn level_index(&self) -> usize {
        self.level_index
    }

    /// The walk's continuation.
    pub closed spec fn plan_next(&self) -> plan::Continue {
        self.plan_next
    }

    /// Gives the level's seed back; the block is closed.
    pub fn block_flushed<S>(self, level_seed: S, context: &mut Context<S>) -> (result: Result<
        Continue,
        Error,
    >)
        ensures
            final(context).plan() == old(context).plan(),
            final(context).levels() == given_back(
                old(context).levels(),
                self.level_index(),
                LevelState::SeenVisitBlockFinish { level_seed },
            ),
            error_of(result) == give_back_error(
                old(context).levels(),
                self.level_index(),
                Error::InvalidLevelIndexForVisitBlockFinish { level_index: self.level_index() },
                Error::AlreadyInitializedLevelForVisitBlockFinish,
            ),
            result matches Ok(kont) ==> kont.plan_action == PlanAction::Step(self.plan_next()),
    {
        let level_index = self.level_index;
        match context.give_back(level_index, LevelState::SeenVisitBlockFinish { level_seed }) {
            Err(false) => Err(Error::InvalidLevelIndexForVisitBlockFinish { level_index }),
            Err(true) => Err(Error::AlreadyInitializedLevelForVisitBlockFinish),
            Ok(()) => Ok(
                Continue { plan_action: PlanAction::Step(self.plan_next), next: self.script },
            ),
        }
    }
}

} // verus!
