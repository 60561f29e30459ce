use ntree::sketch;
use ntree::writer::folding;
use ntree::writer::plan;
use ntree::writer::script;

#[derive(Clone, PartialEq, Eq, Debug)]
struct Instruction<'s> {
    level: &'s sketch::Level,
    block_index: usize,
    op: Op,
}

#[derive(Clone, PartialEq, Eq, Debug)]
enum Op {
    BlockStart,
    WriteItem { block_item_index: usize },
    BlockFinish,
}

fn build<'s>(sketch: &'s sketch::Tree) -> Vec<Instruction<'s>> {
    script::run(sketch)
        .into_iter()
        .map(|event| Instruction {
            level: &sketch.levels()[event.level_index],
            block_index: event.block_index,
            op: match event.op {
                plan::Op::BlockStart { .. } => Op::BlockStart,
                plan::Op::BlockItem { index } => Op::WriteItem { block_item_index: index },
                plan::Op::BlockFinish => Op::BlockFinish,
            },
        })
        .collect()
}

fn fold_identity<'s>(sketch: &'s sketch::Tree) -> Vec<(&'s sketch::Level, (usize, usize))> {
    folding::census(sketch)
        .into_iter()
        .map(|(level_index, seed)| (&sketch.levels()[level_index], seed))
        .collect()
}

#[test]
fn writer_tree17_4() {
    let sketch = sketch::Tree::new(17, 4);
    assert_eq!(
        sketch.levels(),
        &[
            sketch::Level { index: 0, blocks_count: 1, items_count: 4 },
            sketch::Level { index: 1, blocks_count: 4, items_count: 13 },
        ]
    );

    let script: Vec<_> = build(&sketch);
    assert_eq!(
        script,
        vec![
            Instruction { level: &sketch.levels()[1], block_index: 0, op: Op::BlockStart },
            Instruction { level: &sketch.levels()[1], block_index: 0, op: Op::WriteItem { block_item_index: 0 } },
            Instruction { level: &sketch.levels()[1], block_index: 0, op: Op::WriteItem { block_item_index: 1 } },
            Instruction { level: &sketch.levels()[1], block_index: 0, op: Op::WriteItem { block_item_index: 2 } },
            Instruction { level: &sketch.levels()[1], block_index: 0, op: Op::WriteItem { block_item_index: 3 } },
            Instruction { level: &sketch.levels()[1], block_index: 0, op: Op::BlockFinish },
            Instruction { level: &sketch.levels()[0], block_index: 0, op: Op::BlockStart },
            Instruction { level: &sketch.levels()[0], block_index: 0, op: Op::WriteItem { block_item_index: 0 } },
            Instruction { level: &sketch.levels()[1], block_index: 1, op: Op::BlockStart },
            Instruction { level: &sketch.levels()[1], block_index: 1, op: Op::WriteItem { block_item_index: 0 } },
            Instruction { level: &sketch.levels()[1], block_index: 1, op: Op::WriteItem { block_item_index: 1 } },
            Instruction { level: &sketch.levels()[1], block_index: 1, op: Op::WriteItem { block_item_index: 2 } },
            Instruction { level: &sketch.levels()[1], block_index: 1, op: Op::WriteItem { block_item_index: 3 } },
            Instruction { level: &sketch.levels()[1], block_index: 1, op: Op::BlockFinish },
            Instruction { level: &sketch.levels()[0], block_index: 0, op: Op::WriteItem { block_item_index: 1 } },
            Instruction { level: &sketch.levels()[1], block_index: 2, op: Op::BlockStart },
            Instruction { level: &sketch.levels()[1], block_index: 2, op: Op::WriteItem { block_item_index: 0 } },
            Instruction { level: &sketch.levels()[1], block_index: 2, op: Op::WriteItem { block_item_index: 1 } },
            Instruction { level: &sketch.levels()[1], block_index: 2, op: Op::WriteItem { block_item_index: 2 } },
            Instruction { level: &sketch.levels()[1], block_index: 2, op: Op::WriteItem { block_item_index: 3 } },
            Instruction { level: &sketch.levels()[1], block_index: 2, op: Op::BlockFinish },
            Instruction { level: &sketch.levels()[0], block_index: 0, op: Op::WriteItem { block_item_index: 2 } },
            Instruction { level: &sketch.levels()[1], block_index: 3, op: Op::BlockStart },
            Instruction { level: &sketch.levels()[1], block_index: 3, op: Op::WriteItem { block_item_index: 0 } },
            Instruction { level: &sketch.levels()[1], block_index: 3, op: Op::BlockFinish },
            Instruction { level: &sketch.levels()[0], block_index: 0, op: Op::WriteItem { block_item_index: 3 } },
            Instruction { level: &sketch.levels()[0], block_index: 0, op: Op::BlockFinish },
        ],
    );

    assert_eq!(
        fold_identity(&sketch),
        vec![
            (&sketch.levels()[0], (sketch.levels()[0].items_count, sketch.levels()[0].blocks_count)),
            (&sketch.levels()[1], (sketch.levels()[1].items_count, sketch.levels()[1].blocks_count)),
        ],
    );
}

#[test]
fn writer_tree17_3() {
    let sketch = sketch::Tree::new(17, 3);
    assert_eq!(
        sketch.levels(),
        &[
            sketch::Level { index: 0, blocks_count: 1, items_count: 3 },
            sketch::Level { index: 1, blocks_count: 3, items_count: 9 },
            sketch::Level { index: 2, blocks_count: 2, items_count: 5 },
        ]
    );

    let script: Vec<_> = build(&sketch);
    assert_eq!(
        script,
        vec![
            Instruction { level: &sketch.levels()[2], block_index: 0, op: Op::BlockStart },
            Instruction { level: &sketch.levels()[2], block_index: 0, op: Op::WriteItem { block_item_index: 0 } },
            Instruction { level: &sketch.levels()[2], block_index: 0, op: Op::WriteItem { block_item_index: 1 } },
            Instruction { level: &sketch.levels()[2], block_index: 0, op: Op::WriteItem { block_item_index: 2 } },
            Instruction { level: &sketch.levels()[2], block_index: 0, op: Op::BlockFinish },
            Instruction { level: &sketch.levels()[1], block_index: 0, op: Op::BlockStart },
            Instruction { level: &sketch.levels()[1], block_index: 0, op: Op::WriteItem { block_item_index: 0 } },
            Instruction { level: &sketch.levels()[2], block_index: 1, op: Op::BlockStart },
            Instruction { level: &sketch.levels()[2], block_index: 1, op: Op::WriteItem { block_item_index: 0 } },
            Instruction { level: &sketch.levels()[2], block_index: 1, op: Op::WriteItem { block_item_index: 1 } },
            Instruction { level: &sketch.levels()[2], block_index: 1, op: Op::BlockFinish },
            Instruction { level: &sketch.levels()[1], block_index: 0, op: Op::WriteItem { block_item_index: 1 } },
            Instruction { level: &sketch.levels()[1], block_index: 0, op: Op::WriteItem { block_item_index: 2 } },
            Instruction { level: &sketch.levels()[1], block_index: 0, op: Op::BlockFinish },
            Instruction { level: &sketch.levels()[0], block_index: 0, op: Op::BlockStart },
            Instruction { level: &sketch.levels()[0], block_index: 0, op: Op::WriteItem { block_item_index: 0 } },
            Instruction { level: &sketch.levels()[1], block_index: 1, op: Op::BlockStart },
            Instruction { level: &sketch.levels()[1], block_index: 1, op: Op::WriteItem { block_item_index: 0 } },
            Instruction { level: &sketch.levels()[1], block_index: 1, op: Op::WriteItem { block_item_index: 1 } },
            Instruction { level: &sketch.levels()[1], block_index: 1, op: Op::WriteItem { block_item_index: 2 } },
            Instruction { level: &sketch.levels()[1], block_index: 1, op: Op::BlockFinish },
            Instruction { level: &sketch.levels()[0], block_index: 0, op: Op::WriteItem { block_item_index: 1 } },
            Instruction { level: &sketch.levels()[1], block_index: 2, op: Op::BlockStart },
            Instruction { level: &sketch.levels()[1], block_index: 2, op: Op::WriteItem { block_item_index: 0 } },
            Instruction { level: &sketch.levels()[1], block_index: 2, op: Op::WriteItem { block_item_index: 1 } },
            Instruction { level: &sketch.levels()[1], block_index: 2, op: Op::WriteItem { block_item_index: 2 } },
            Instruction { level: &sketch.levels()[1], block_index: 2, op: Op::BlockFinish },
            Instruction { level: &sketch.levels()[0], block_index: 0, op: Op::WriteItem { block_item_index: 2 } },
            Instruction { level: &sketch.levels()[0], block_index: 0, op: Op::BlockFinish },
        ],
    );

    assert_eq!(
        fold_identity(&sketch),
        vec![
            (&sketch.levels()[0], (sketch.levels()[0].items_count, sketch.levels()[0].blocks_count)),
            (&sketch.levels()[1], (sketch.levels()[1].items_count, sketch.levels()[1].blocks_count)),
            (&sketch.levels()[2], (sketch.levels()[2].items_count, sketch.levels()[2].blocks_count)),
        ],
    );
}

#[test]
fn replaying_the_walk_gives_the_same_script() {
    for (items_total, block_size) in [(17, 4), (17, 3), (22, 3), (1000, 7), (5, 1), (0, 3)] {
        let sketch = sketch::Tree::new(items_total, block_size);
        assert_eq!(build(&sketch), build(&sketch));
    }
}

#[test]
fn the_walk_writes_every_item_and_finishes_every_block() {
    for (items_total, block_size) in [(17, 4), (17, 3), (22, 3), (1000, 7), (5, 1), (1, 9), (64, 2)] {
        let sketch = sketch::Tree::new(items_total, block_size);
        let script = build(&sketch);
        for level in sketch.levels() {
            let items = script.iter()
                .filter(|step| step.level == level && matches!(step.op, Op::WriteItem { .. }))
                .count();
            let starts = script.iter()
                .filter(|step| step.level == level && step.op == Op::BlockStart)
                .count();
            let finishes = script.iter()
                .filter(|step| step.level == level && step.op == Op::BlockFinish)
                .count();
            assert_eq!(items, level.items_count);
            assert_eq!(starts, level.blocks_count);
            assert_eq!(finishes, level.blocks_count);
        }
        let counted: Vec<(usize, usize)> = fold_identity(&sketch).into_iter().map(|(_, seed)| seed).collect();
        let shaped: Vec<(usize, usize)> = sketch.levels().iter()
            .map(|level| (level.items_count, level.blocks_count))
            .collect();
        assert_eq!(counted, shaped);
    }
}

#[test]
fn the_walk_of_a_tree_without_items_has_no_steps() {
    let sketch = sketch::Tree::new(0, 4);
    assert!(script::run(&sketch).is_empty());
    assert!(folding::census(&sketch).is_empty());
}
