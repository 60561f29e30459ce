use ntree::sketch;
use ntree::writer::fold;
use ntree::writer::plan;

fn interpret_fold_count_items(sketch: &sketch::Tree) -> Vec<(usize, usize)> {
    let mut fold_ctx = fold::Context::new(plan::Context::new(sketch), sketch);

    let mut kont = fold::Script::boot();
    loop {
        let plan_op = match kont.plan_action {
            fold::PlanAction::Idle(plan_op) => plan_op,
            fold::PlanAction::Step(plan::Continue { next: plan_script }) =>
                plan_script.step(fold_ctx.plan_ctx()),
        };
        kont = match kont.next.step(&mut fold_ctx, plan_op).unwrap() {
            fold::Instruction::Op(fold::Op::VisitLevel(fold::VisitLevel { next, .. })) =>
                next.level_ready(0, &mut fold_ctx).unwrap(),
            fold::Instruction::Op(fold::Op::VisitBlockStart(fold::VisitBlockStart { level_seed, next, .. })) =>
                next.block_ready(level_seed, &mut fold_ctx).unwrap(),
            fold::Instruction::Op(fold::Op::VisitItem(fold::VisitItem { level_seed, next, .. })) =>
                next.item_ready(level_seed + 1, &mut fold_ctx).unwrap(),
            fold::Instruction::Op(fold::Op::VisitBlockFinish(fold::VisitBlockFinish { level_seed, next, .. })) =>
                next.block_flushed(level_seed, &mut fold_ctx).unwrap(),
            fold::Instruction::Done => {
                let (_plan_ctx, fold_iter) = fold_ctx.into_levels_iter();
                return fold_iter.into_iter().collect();
            },
        };
    }
}

#[test]
fn fold_tree17_4() {
    let sketch = sketch::Tree::new(17, 4);
    assert_eq!(interpret_fold_count_items(&sketch), vec![(0, 4), (1, 13)]);
}

#[test]
fn fold_tree17_3() {
    let sketch = sketch::Tree::new(17, 3);
    assert_eq!(interpret_fold_count_items(&sketch), vec![(0, 3), (1, 9), (2, 5)]);
}

#[test]
fn fold_step_rec_counts_like_manual_stepping() {
    let sketch = sketch::Tree::new(22, 3);
    let mut fold_ctx = fold::Context::new(plan::Context::new(&sketch), &sketch);
    let mut kont = fold::Script::boot();
    loop {
        kont = match kont.step_rec(&mut fold_ctx).unwrap() {
            fold::Instruction::Op(fold::Op::VisitLevel(fold::VisitLevel { next, .. })) =>
                next.level_ready((0, 0), &mut fold_ctx).unwrap(),
            fold::Instruction::Op(fold::Op::VisitBlockStart(fold::VisitBlockStart { level_seed, next, .. })) =>
                next.block_ready(level_seed, &mut fold_ctx).unwrap(),
            fold::Instruction::Op(fold::Op::VisitItem(fold::VisitItem { level_seed: (items, blocks), next, .. })) =>
                next.item_ready((items + 1, blocks), &mut fold_ctx).unwrap(),
            fold::Instruction::Op(fold::Op::VisitBlockFinish(fold::VisitBlockFinish { level_seed: (items, blocks), next, .. })) =>
                next.block_flushed((items, blocks + 1), &mut fold_ctx).unwrap(),
            fold::Instruction::Done => break,
        };
    }
    let (_plan_ctx, seeds) = fold_ctx.into_levels_iter();
    assert_eq!(seeds, vec![(0, (3, 1)), (1, (9, 3)), (2, (10, 4))]);
}

#[test]
fn fold_rejects_item_before_level() {
    let sketch = sketch::Tree::new(17, 4);
    let mut fold_ctx: fold::Context<usize> = fold::Context::new(plan::Context::new(&sketch), &sketch);
    let plan::Continue { next } = plan::Script::boot();
    let op = plan::Instruction::Perform(plan::Perform {
        op: plan::Op::BlockItem { index: 0 },
        level_index: 1,
        block_index: 0,
        next: plan::Continue { next },
    });
    let kont = fold::Script::boot();
    match kont.next.step(&mut fold_ctx, op) {
        Err(error) => assert_eq!(error, fold::Error::WritingItemBeforeLevelInitialize),
        Ok(_) => panic!("an item was accepted on a level that was never visited"),
    }
}

#[test]
fn fold_rejects_unknown_level() {
    let sketch = sketch::Tree::new(17, 4);
    let mut fold_ctx: fold::Context<usize> = fold::Context::new(plan::Context::new(&sketch), &sketch);
    let plan::Continue { next } = plan::Script::boot();
    let op = plan::Instruction::Perform(plan::Perform {
        op: plan::Op::BlockFinish,
        level_index: 7,
        block_index: 0,
        next: plan::Continue { next },
    });
    let kont = fold::Script::boot();
    match kont.next.step(&mut fold_ctx, op) {
        Err(error) => assert_eq!(error, fold::Error::InvalidPlanBlockFinisLevelIndex { level_index: 7 }),
        Ok(_) => panic!("a level that does not exist was visited"),
    }
}

#[test]
fn fold_rejects_second_seed() {
    let sketch = sketch::Tree::new(17, 4);
    let mut fold_ctx: fold::Context<usize> = fold::Context::new(plan::Context::new(&sketch), &sketch);
    let kont = fold::Script::boot();
    let first = match kont.step_rec(&mut fold_ctx).unwrap() {
        fold::Instruction::Op(fold::Op::VisitLevel(fold::VisitLevel { level_index, next })) => {
            assert_eq!(level_index, 1);
            next
        },
        _ => panic!("the first visit is that of the deepest level"),
    };
    let kont = first.level_ready(5, &mut fold_ctx).unwrap();
    let start = match kont.step_rec(&mut fold_ctx).unwrap() {
        fold::Instruction::Op(fold::Op::VisitBlockStart(fold::VisitBlockStart { level_seed, block_index, items_count, next, .. })) => {
            assert_eq!((level_seed, block_index, items_count), (5, 0, 4));
            next
        },
        _ => panic!("the level's first block starts once the level has its seed"),
    };
    let kont = start.block_ready(6, &mut fold_ctx).unwrap();
    match kont.step_rec(&mut fold_ctx).unwrap() {
        fold::Instruction::Op(fold::Op::VisitItem(fold::VisitItem { level_seed, .. })) => {
            assert_eq!(level_seed, 6);
        },
        _ => panic!("an item follows the block's start"),
    }
    // the seed is out: the walk's next item meets a level without state
    match fold::Script::boot().step_rec(&mut fold_ctx) {
        Err(error) => assert_eq!(error, fold::Error::InvalidLevelStateForWriteItem),
        Ok(_) => panic!("a level was visited while its seed was out"),
    }
}

fn perform(op: plan::Op, level_index: usize, block_index: usize) -> plan::Instruction {
    plan::Instruction::Perform(plan::Perform { op, level_index, block_index, next: plan::Script::boot() })
}

fn fold_context(sketch: &sketch::Tree) -> fold::Context<usize> {
    fold::Context::new(plan::Context::new(sketch), sketch)
}

fn error_of(result: Result<fold::Instruction<usize>, fold::Error>) -> fold::Error {
    match result {
        Err(error) => error,
        Ok(_) => panic!("the fold took a step that is out of turn"),
    }
}

fn next_of(kont: fold::Continue) -> fold::Script {
    kont.next
}

#[test]
fn fold_tells_steps_that_are_out_of_turn() {
    let sketch = sketch::Tree::new(17, 4);

    // on a level that was never visited
    let mut ctx = fold_context(&sketch);
    assert_eq!(
        error_of(next_of(fold::Script::boot()).step(&mut ctx, perform(plan::Op::BlockStart { items_count: 4 }, 1, 2))),
        fold::Error::UnexpectedNonZeroBlockIndexForLevelState,
    );
    let mut ctx = fold_context(&sketch);
    assert_eq!(
        error_of(next_of(fold::Script::boot()).step(&mut ctx, perform(plan::Op::BlockFinish, 1, 0))),
        fold::Error::FinishingBlockBeforeLevelInitialize,
    );
    let mut ctx = fold_context(&sketch);
    assert_eq!(
        error_of(next_of(fold::Script::boot()).step(&mut ctx, perform(plan::Op::BlockStart { items_count: 4 }, 2, 0))),
        fold::Error::InvalidPlanBlockStartLevelIndex { level_index: 2 },
    );
    let mut ctx = fold_context(&sketch);
    assert_eq!(
        error_of(next_of(fold::Script::boot()).step(&mut ctx, perform(plan::Op::BlockItem { index: 0 }, 2, 0))),
        fold::Error::InvalidPlanBlockItemLevelIndex { level_index: 2 },
    );

    // on a level that has its seed, and no block yet
    let mut ctx = fold_context(&sketch);
    let kont = match fold::Script::boot().step_rec(&mut ctx).unwrap() {
        fold::Instruction::Op(fold::Op::VisitLevel(visit)) => visit.next.level_ready(0, &mut ctx).unwrap(),
        _ => panic!("the first visit is that of the deepest level"),
    };
    assert_eq!(
        error_of(next_of(fold::Script::boot()).step(&mut ctx, perform(plan::Op::BlockItem { index: 0 }, 1, 0))),
        fold::Error::WritingItemBeforeBlockInitialize,
    );

    // in a block that is open
    let mut ctx = fold_context(&sketch);
    let kont2 = match fold::Script::boot().step_rec(&mut ctx).unwrap() {
        fold::Instruction::Op(fold::Op::VisitLevel(visit)) => visit.next.level_ready(0, &mut ctx).unwrap(),
        _ => panic!("the first visit is that of the deepest level"),
    };
    match kont2.step_rec(&mut ctx).unwrap() {
        fold::Instruction::Op(fold::Op::VisitBlockStart(visit)) => visit.next.block_ready(0, &mut ctx).unwrap(),
        _ => panic!("the level's first block starts once the level has its seed"),
    };
    assert_eq!(
        error_of(next_of(fold::Script::boot()).step(&mut ctx, perform(plan::Op::BlockItem { index: 0 }, 1, 3))),
        fold::Error::WritingItemInWrongBlock { block_index: 3, active_block_index: 0 },
    );
    // the failed step has taken the level's seed out
    assert_eq!(
        error_of(next_of(fold::Script::boot()).step(&mut ctx, perform(plan::Op::BlockFinish, 1, 0))),
        fold::Error::InvalidLevelStateForBlockFinish,
    );
    drop(kont);
}

#[test]
fn fold_tells_a_block_that_starts_in_an_open_one_or_finishes_twice() {
    let sketch = sketch::Tree::new(17, 4);
    let mut ctx = fold_context(&sketch);
    let kont = match fold::Script::boot().step_rec(&mut ctx).unwrap() {
        fold::Instruction::Op(fold::Op::VisitLevel(visit)) => visit.next.level_ready(0, &mut ctx).unwrap(),
        _ => panic!("the first visit is that of the deepest level"),
    };
    match kont.step_rec(&mut ctx).unwrap() {
        fold::Instruction::Op(fold::Op::VisitBlockStart(visit)) => visit.next.block_ready(0, &mut ctx).unwrap(),
        _ => panic!("the level's first block starts once the level has its seed"),
    };
    assert_eq!(
        error_of(next_of(fold::Script::boot()).step(&mut ctx, perform(plan::Op::BlockStart { items_count: 4 }, 1, 1))),
        fold::Error::UnexpectedLevelStateForPlanBlockStart { level_index: 1, block_index: 1, prev_block_index: 0 },
    );

    let mut ctx = fold_context(&sketch);
    let kont = match fold::Script::boot().step_rec(&mut ctx).unwrap() {
        fold::Instruction::Op(fold::Op::VisitLevel(visit)) => visit.next.level_ready(0, &mut ctx).unwrap(),
        _ => panic!("the first visit is that of the deepest level"),
    };
    match kont.step_rec(&mut ctx).unwrap() {
        fold::Instruction::Op(fold::Op::VisitBlockStart(visit)) => visit.next.block_ready(0, &mut ctx).unwrap(),
        _ => panic!("the level's first block starts once the level has its seed"),
    };
    match next_of(fold::Script::boot()).step(&mut ctx, perform(plan::Op::BlockFinish, 1, 0)).unwrap() {
        fold::Instruction::Op(fold::Op::VisitBlockFinish(visit)) => visit.next.block_flushed(0, &mut ctx).unwrap(),
        _ => panic!("the open block can be finished"),
    };
    assert_eq!(
        error_of(next_of(fold::Script::boot()).step(&mut ctx, perform(plan::Op::BlockFinish, 1, 0))),
        fold::Error::FinishingBlockAfterBlockFlush,
    );
    let mut ctx2 = fold_context(&sketch);
    let _ = ctx2.plan_ctx();
    assert_eq!(
        error_of(next_of(fold::Script::boot()).step(&mut ctx, perform(plan::Op::BlockStart { items_count: 4 }, 1, 0))),
        fold::Error::InvalidLevelStateForBlockStart,
    );
}

#[test]
fn fold_takes_no_seed_twice() {
    let sketch = sketch::Tree::new(17, 4);
    let mut ctx = fold_context(&sketch);
    let mut other = fold_context(&sketch);
    let visit = match fold::Script::boot().step_rec(&mut ctx).unwrap() {
        fold::Instruction::Op(fold::Op::VisitLevel(visit)) => visit,
        _ => panic!("the first visit is that of the deepest level"),
    };
    // the seed of the level is not out in the other fold
    match visit.next.level_ready(0, &mut other) {
        Err(error) => assert_eq!(error, fold::Error::AlreadyInitializedLevelForVisitLevel),
        Ok(_) => panic!("a level got a seed that it has"),
    }
}

/// A fold over `sketch` that stands in the first block of the deepest level.
fn fold_in_first_block(sketch: &sketch::Tree) -> fold::Context<usize> {
    let mut ctx = fold_context(sketch);
    let kont = match fold::Script::boot().step_rec(&mut ctx).unwrap() {
        fold::Instruction::Op(fold::Op::VisitLevel(visit)) => visit.next.level_ready(0, &mut ctx).unwrap(),
        _ => panic!("the first visit is that of the deepest level"),
    };
    match kont.step_rec(&mut ctx).unwrap() {
        fold::Instruction::Op(fold::Op::VisitBlockStart(visit)) => visit.next.block_ready(0, &mut ctx).unwrap(),
        _ => panic!("the level's first block starts once the level has its seed"),
    };
    ctx
}

/// A fold over `sketch` whose deepest level has its first block flushed.
fn fold_behind_first_block(sketch: &sketch::Tree) -> fold::Context<usize> {
    let mut ctx = fold_in_first_block(sketch);
    let deepest = sketch.levels().len() - 1;
    match next_of(fold::Script::boot()).step(&mut ctx, perform(plan::Op::BlockFinish, deepest, 0)).unwrap() {
        fold::Instruction::Op(fold::Op::VisitBlockFinish(visit)) => visit.next.block_flushed(0, &mut ctx).unwrap(),
        _ => panic!("the open block can be finished"),
    };
    ctx
}

#[test]
fn fold_tells_what_does_not_fit_a_level_with_a_seed_and_no_block() {
    let sketch = sketch::Tree::new(17, 4);
    let visited = || {
        let mut ctx = fold_context(&sketch);
        match fold::Script::boot().step_rec(&mut ctx).unwrap() {
            fold::Instruction::Op(fold::Op::VisitLevel(visit)) => visit.next.level_ready(0, &mut ctx).unwrap(),
            _ => panic!("the first visit is that of the deepest level"),
        };
        ctx
    };
    assert_eq!(
        error_of(next_of(fold::Script::boot()).step(&mut visited(), perform(plan::Op::BlockFinish, 1, 0))),
        fold::Error::FinishingBlockBeforeBlockInitialize,
    );
    assert_eq!(
        error_of(next_of(fold::Script::boot()).step(&mut visited(), perform(plan::Op::BlockStart { items_count: 4 }, 1, 1))),
        fold::Error::UnexpectedNonZeroBlockIndexForLevelState,
    );
}

#[test]
fn fold_tells_what_does_not_fit_an_open_or_a_flushed_block() {
    let sketch = sketch::Tree::new(17, 4);
    assert_eq!(
        error_of(next_of(fold::Script::boot()).step(&mut fold_in_first_block(&sketch), perform(plan::Op::BlockFinish, 1, 2))),
        fold::Error::FinishingTheWrongBlock { block_index: 2, active_block_index: 0 },
    );
    assert_eq!(
        error_of(next_of(fold::Script::boot()).step(&mut fold_behind_first_block(&sketch), perform(plan::Op::BlockItem { index: 0 }, 1, 0))),
        fold::Error::WritingItemAfterBlockFlush,
    );
    assert_eq!(
        error_of(next_of(fold::Script::boot()).step(&mut fold_behind_first_block(&sketch), perform(plan::Op::BlockStart { items_count: 4 }, 1, 0))),
        fold::Error::UnexpectedZeroBlockIndexForLevelState,
    );
    // a level whose seed is out takes no item
    let mut ctx = fold_in_first_block(&sketch);
    match next_of(fold::Script::boot()).step(&mut ctx, perform(plan::Op::BlockItem { index: 0 }, 1, 0)).unwrap() {
        fold::Instruction::Op(fold::Op::VisitItem(_)) => {},
        _ => panic!("the open block takes an item"),
    }
    assert_eq!(
        error_of(next_of(fold::Script::boot()).step(&mut ctx, perform(plan::Op::BlockItem { index: 1 }, 1, 0))),
        fold::Error::InvalidLevelStateForWriteItem,
    );
}

#[test]
fn fold_tells_a_seed_that_comes_back_to_the_wrong_fold() {
    let sketch = sketch::Tree::new(17, 4);
    let small = sketch::Tree::new(3, 4);

    // the first seed of a level
    let mut ctx = fold_context(&sketch);
    let visit = match fold::Script::boot().step_rec(&mut ctx).unwrap() {
        fold::Instruction::Op(fold::Op::VisitLevel(visit)) => visit,
        _ => panic!("the first visit is that of the deepest level"),
    };
    assert_eq!(
        visit.next.level_ready(0, &mut fold_context(&small)).err(),
        Some(fold::Error::InvalidLevelIndexForVisitLevel { level_index: 1 }),
    );

    // the seed of a block that starts
    let mut ctx = fold_context(&sketch);
    let kont = match fold::Script::boot().step_rec(&mut ctx).unwrap() {
        fold::Instruction::Op(fold::Op::VisitLevel(visit)) => visit.next.level_ready(0, &mut ctx).unwrap(),
        _ => panic!("the first visit is that of the deepest level"),
    };
    let start = || match next_of(fold::Script::boot()).step(
        &mut fold_behind_first_block(&sketch),
        perform(plan::Op::BlockStart { items_count: 4 }, 1, 1),
    ).unwrap() {
        fold::Instruction::Op(fold::Op::VisitBlockStart(visit)) => visit.next,
        _ => panic!("a block starts behind the one that was flushed"),
    };
    assert_eq!(
        start().block_ready(0, &mut fold_context(&small)).err(),
        Some(fold::Error::InvalidLevelIndexForVisitBlockStart { level_index: 1 }),
    );
    assert_eq!(
        start().block_ready(0, &mut fold_context(&sketch)).err(),
        Some(fold::Error::AlreadyInitializedLevelForVisitBlockStart),
    );
    drop(kont);

    // the seed of an item
    let item = || match next_of(fold::Script::boot()).step(
        &mut fold_in_first_block(&sketch),
        perform(plan::Op::BlockItem { index: 0 }, 1, 0),
    ).unwrap() {
        fold::Instruction::Op(fold::Op::VisitItem(visit)) => visit.next,
        _ => panic!("the open block takes an item"),
    };
    assert_eq!(
        item().item_ready(0, &mut fold_context(&small)).err(),
        Some(fold::Error::InvalidLevelIndexForVisitItem { level_index: 1 }),
    );
    assert_eq!(
        item().item_ready(0, &mut fold_context(&sketch)).err(),
        Some(fold::Error::AlreadyInitializedLevelForVisitItem),
    );

    // the seed of a block that is finished
    let finish = || match next_of(fold::Script::boot()).step(
        &mut fold_in_first_block(&sketch),
        perform(plan::Op::BlockFinish, 1, 0),
    ).unwrap() {
        fold::Instruction::Op(fold::Op::VisitBlockFinish(visit)) => visit.next,
        _ => panic!("the open block can be finished"),
    };
    assert_eq!(
        finish().block_flushed(0, &mut fold_context(&small)).err(),
        Some(fold::Error::InvalidLevelIndexForVisitBlockFinish { level_index: 1 }),
    );
    assert_eq!(
        finish().block_flushed(0, &mut fold_context(&sketch)).err(),
        Some(fold::Error::AlreadyInitializedLevelForVisitBlockFinish),
    );
}
