use ntree::sketch;
use ntree::writer::fold;
use ntree::writer::plan;
use ntree::writer::two_pass;

#[derive(Clone, Copy, PartialEq, Debug)]
struct BlockMeta;

#[derive(Clone, PartialEq, Debug)]
pub enum Instr {
    WriteTreeHeader { tree_offset: usize, tree_header_size: usize, tree_total_size: usize },
    WriteLevelHeader { level_index: usize, level_offset: usize },
    WriteBlockHeader { level_index: usize, block_index: usize, block_offset: usize },
    WriteItem { level_index: usize, block_index: usize, block_item_index: usize, child_block_offset: Option<usize> },
    FlushBlock { level_index: usize, block_index: usize, block_start_offset: usize, block_end_offset: usize },
    Done,
}

pub fn interpret(sketch: &sketch::Tree, levels_coords: Vec<two_pass::LevelCoords<usize>>, mut script: Vec<Instr>) {
    script.reverse();

    let mut write_ctx =
        two_pass::write::Context::new(
            fold::Context::new(plan::Context::new(sketch), sketch),
            1000,
            3,
            levels_coords,
        ).unwrap();

    let mut kont = two_pass::write::Script::boot();
    loop {
        kont = match kont.step_rec(&mut write_ctx).unwrap() {
            two_pass::write::Instruction::Op(two_pass::write::Op::WriteTreeHeader(
                two_pass::write::WriteTreeHeader { tree_offset, tree_header_size, tree_total_size, next },
            )) => {
                assert_eq!(script.pop(), Some(Instr::WriteTreeHeader { tree_offset, tree_header_size, tree_total_size }));
                next.tree_header_written(3, &mut write_ctx).unwrap()
            },
            two_pass::write::Instruction::Op(two_pass::write::Op::WriteLevelHeader(
                two_pass::write::WriteLevelHeader { level_index, level_offset, next },
            )) => {
                assert_eq!(script.pop(), Some(Instr::WriteLevelHeader { level_index, level_offset }));
                next.level_header_written(5, &mut write_ctx).unwrap()
            },
            two_pass::write::Instruction::Op(two_pass::write::Op::WriteBlockHeader(
                two_pass::write::WriteBlockHeader { level_index, block_index, block_offset, next, .. },
            )) => {
                assert_eq!(script.pop(), Some(Instr::WriteBlockHeader { level_index, block_index, block_offset }));
                next.block_header_written(BlockMeta, 0, &mut write_ctx).unwrap()
            },
            two_pass::write::Instruction::Op(two_pass::write::Op::WriteItem(
                two_pass::write::WriteItem { level_index, block_index, block_item_index, block_meta: BlockMeta, child_block_offset, next, .. },
            )) => {
                assert_eq!(script.pop(), Some(Instr::WriteItem { level_index, block_index, block_item_index, child_block_offset }));
                next.item_written(BlockMeta, 1, &mut write_ctx).unwrap()
            },
            two_pass::write::Instruction::Op(two_pass::write::Op::FlushBlock(
                two_pass::write::FlushBlock { level_index, block_index, block_meta: BlockMeta, block_start_offset, block_end_offset, next },
            )) => {
                assert_eq!(script.pop(), Some(Instr::FlushBlock { level_index, block_index, block_start_offset, block_end_offset }));
                next.block_flushed(block_end_offset - block_start_offset, &mut write_ctx).unwrap()
            },
            two_pass::write::Instruction::Done => {
                assert_eq!(script.pop(), Some(Instr::Done));
                break;
            },
        };
    }
    assert_eq!(script.pop(), None);
}

#[test]
fn tree17_4_write() {
    let sketch = sketch::Tree::new(17, 4);

    let levels_coords = vec![
        two_pass::LevelCoords { index: 0, header_size: 5, total_size: 9 },
        two_pass::LevelCoords { index: 1, header_size: 5, total_size: 18 },
    ];
    interpret(&sketch, levels_coords, vec![
        Instr::WriteTreeHeader { tree_offset: 1000, tree_header_size: 3, tree_total_size: 30 },
        Instr::WriteLevelHeader { level_index: 1, level_offset: 1012 },
        Instr::WriteBlockHeader { level_index: 1, block_index: 0, block_offset: 1017 },
        Instr::WriteItem { level_index: 1, block_index: 0, block_item_index: 0, child_block_offset: None },
        Instr::WriteItem { level_index: 1, block_index: 0, block_item_index: 1, child_block_offset: None },
        Instr::WriteItem { level_index: 1, block_index: 0, block_item_index: 2, child_block_offset: None },
        Instr::WriteItem { level_index: 1, block_index: 0, block_item_index: 3, child_block_offset: None },
        Instr::FlushBlock { level_index: 1, block_index: 0, block_start_offset: 1017, block_end_offset: 1021 },
        Instr::WriteLevelHeader { level_index: 0, level_offset: 1003 },
        Instr::WriteBlockHeader { level_index: 0, block_index: 0, block_offset: 1008 },
        Instr::WriteItem { level_index: 0, block_index: 0, block_item_index: 0, child_block_offset: Some(1017) },
        Instr::WriteBlockHeader { level_index: 1, block_index: 1, block_offset: 1021 },
        Instr::WriteItem { level_index: 1, block_index: 1, block_item_index: 0, child_block_offset: None },
        Instr::WriteItem { level_index: 1, block_index: 1, block_item_index: 1, child_block_offset: None },
        Instr::WriteItem { level_index: 1, block_index: 1, block_item_index: 2, child_block_offset: None },
        Instr::WriteItem { level_index: 1, block_index: 1, block_item_index: 3, child_block_offset: None },
        Instr::FlushBlock { level_index: 1, block_index: 1, block_start_offset: 1021, block_end_offset: 1025 },
        Instr::WriteItem { level_index: 0, block_index: 0, block_item_index: 1, child_block_offset: Some(1021) },
        Instr::WriteBlockHeader { level_index: 1, block_index: 2, block_offset: 1025 },
        Instr::WriteItem { level_index: 1, block_index: 2, block_item_index: 0, child_block_offset: None },
        Instr::WriteItem { level_index: 1, block_index: 2, block_item_index: 1, child_block_offset: None },
        Instr::WriteItem { level_index: 1, block_index: 2, block_item_index: 2, child_block_offset: None },
        Instr::WriteItem { level_index: 1, block_index: 2, block_item_index: 3, child_block_offset: None },
        Instr::FlushBlock { level_index: 1, block_index: 2, block_start_offset: 1025, block_end_offset: 1029 },
        Instr::WriteItem { level_index: 0, block_index: 0, block_item_index: 2, child_block_offset: Some(1025) },
        Instr::WriteBlockHeader { level_index: 1, block_index: 3, block_offset: 1029 },
        Instr::WriteItem { level_index: 1, block_index: 3, block_item_index: 0, child_block_offset: None },
        Instr::FlushBlock { level_index: 1, block_index: 3, block_start_offset: 1029, block_end_offset: 1030 },
        Instr::WriteItem { level_index: 0, block_index: 0, block_item_index: 3, child_block_offset: Some(1029) },
        Instr::FlushBlock { level_index: 0, block_index: 0, block_start_offset: 1008, block_end_offset: 1012 },
        Instr::Done,
    ]);
}

#[test]
fn tree17_3_write() {
    let sketch = sketch::Tree::new(17, 3);

    let levels_coords = vec![
        two_pass::LevelCoords { index: 0, header_size: 5, total_size: 8 },
        two_pass::LevelCoords { index: 1, header_size: 5, total_size: 14 },
        two_pass::LevelCoords { index: 2, header_size: 5, total_size: 10 }
    ];
    interpret(&sketch, levels_coords, vec![
        Instr::WriteTreeHeader { tree_offset: 1000, tree_header_size: 3, tree_total_size: 35 },
        Instr::WriteLevelHeader { level_index: 2, level_offset: 1025 },
        Instr::WriteBlockHeader { level_index: 2, block_index: 0, block_offset: 1030 },
        Instr::WriteItem { level_index: 2, block_index: 0, block_item_index: 0, child_block_offset: None },
        Instr::WriteItem { level_index: 2, block_index: 0, block_item_index: 1, child_block_offset: None },
        Instr::WriteItem { level_index: 2, block_index: 0, block_item_index: 2, child_block_offset: None },
        Instr::FlushBlock { level_index: 2, block_index: 0, block_start_offset: 1030, block_end_offset: 1033 },
        Instr::WriteLevelHeader { level_index: 1, level_offset: 1011 },
        Instr::WriteBlockHeader { level_index: 1, block_index: 0, block_offset: 1016 },
        Instr::WriteItem { level_index: 1, block_index: 0, block_item_index: 0, child_block_offset: Some(1030) },
        Instr::WriteBlockHeader { level_index: 2, block_index: 1, block_offset: 1033 },
        Instr::WriteItem { level_index: 2, block_index: 1, block_item_index: 0, child_block_offset: None },
        Instr::WriteItem { level_index: 2, block_index: 1, block_item_index: 1, child_block_offset: None },
        Instr::FlushBlock { level_index: 2, block_index: 1, block_start_offset: 1033, block_end_offset: 1035 },
        Instr::WriteItem { level_index: 1, block_index: 0, block_item_index: 1, child_block_offset: Some(1033) },
        Instr::WriteItem { level_index: 1, block_index: 0, block_item_index: 2, child_block_offset: None },
        Instr::FlushBlock { level_index: 1, block_index: 0, block_start_offset: 1016, block_end_offset: 1019 },
        Instr::WriteLevelHeader { level_index: 0, level_offset: 1003 },
        Instr::WriteBlockHeader { level_index: 0, block_index: 0, block_offset: 1008 },
        Instr::WriteItem { level_index: 0, block_index: 0, block_item_index: 0, child_block_offset: Some(1016) },
        Instr::WriteBlockHeader { level_index: 1, block_index: 1, block_offset: 1019 },
        Instr::WriteItem { level_index: 1, block_index: 1, block_item_index: 0, child_block_offset: None },
        Instr::WriteItem { level_index: 1, block_index: 1, block_item_index: 1, child_block_offset: None },
        Instr::WriteItem { level_index: 1, block_index: 1, block_item_index: 2, child_block_offset: None },
        Instr::FlushBlock { level_index: 1, block_index: 1, block_start_offset: 1019, block_end_offset: 1022 },
        Instr::WriteItem { level_index: 0, block_index: 0, block_item_index: 1, child_block_offset: Some(1019) },
        Instr::WriteBlockHeader { level_index: 1, block_index: 2, block_offset: 1022 },
        Instr::WriteItem { level_index: 1, block_index: 2, block_item_index: 0, child_block_offset: None },
        Instr::WriteItem { level_index: 1, block_index: 2, block_item_index: 1, child_block_offset: None },
        Instr::WriteItem { level_index: 1, block_index: 2, block_item_index: 2, child_block_offset: None },
        Instr::FlushBlock { level_index: 1, block_index: 2, block_start_offset: 1022, block_end_offset: 1025 },
        Instr::WriteItem { level_index: 0, block_index: 0, block_item_index: 2, child_block_offset: Some(1022) },
        Instr::FlushBlock { level_index: 0, block_index: 0, block_start_offset: 1008, block_end_offset: 1011 },
        Instr::Done,
    ]);
}

fn write_context(sketch: &sketch::Tree, levels_coords: Vec<two_pass::LevelCoords<usize>>) -> two_pass::write::Context<BlockMeta> {
    two_pass::write::Context::new(
        fold::Context::new(plan::Context::new(sketch), sketch),
        1000,
        3,
        levels_coords,
    ).unwrap()
}

fn coords17_4() -> Vec<two_pass::LevelCoords<usize>> {
    vec![
        two_pass::LevelCoords { index: 0, header_size: 5, total_size: 9 },
        two_pass::LevelCoords { index: 1, header_size: 5, total_size: 18 },
    ]
}

#[test]
fn write_needs_measured_levels() {
    let sketch = sketch::Tree::new(17, 4);
    let result: Result<two_pass::write::Context<BlockMeta>, _> = two_pass::write::Context::new(
        fold::Context::new(plan::Context::new(&sketch), &sketch),
        1000,
        3,
        vec![],
    );
    match result {
        Err(error) => assert_eq!(error, two_pass::write::Error::LevelsCoordsEmpty),
        Ok(_) => panic!("a tree without levels was taken"),
    }
}

#[test]
fn write_checks_the_size_of_the_tree_header() {
    let sketch = sketch::Tree::new(17, 4);
    let mut write_ctx = write_context(&sketch, coords17_4());
    match two_pass::write::Script::boot().step_rec(&mut write_ctx).unwrap() {
        two_pass::write::Instruction::Op(two_pass::write::Op::WriteTreeHeader(header)) => {
            match header.next.tree_header_written(4, &mut write_ctx) {
                Err(error) => assert_eq!(
                    error,
                    two_pass::write::Error::WriteTreeHeaderSizeMismatch { written: 4, expected: 3 },
                ),
                Ok(_) => panic!("a tree header of another size was taken"),
            }
        },
        _ => panic!("the tree's header comes first"),
    }
}

#[test]
fn write_checks_the_size_of_a_level_header() {
    let sketch = sketch::Tree::new(17, 4);
    let mut write_ctx = write_context(&sketch, coords17_4());
    let kont = match two_pass::write::Script::boot().step_rec(&mut write_ctx).unwrap() {
        two_pass::write::Instruction::Op(two_pass::write::Op::WriteTreeHeader(header)) =>
            header.next.tree_header_written(3, &mut write_ctx).unwrap(),
        _ => panic!("the tree's header comes first"),
    };
    match kont.step_rec(&mut write_ctx).unwrap() {
        two_pass::write::Instruction::Op(two_pass::write::Op::WriteLevelHeader(level)) => {
            assert_eq!((level.level_index, level.level_offset), (1, 1012));
            match level.next.level_header_written(6, &mut write_ctx) {
                Err(error) => assert_eq!(
                    error,
                    two_pass::write::Error::WriteLevelHeaderSizeMismatch { written: 6, expected: 5 },
                ),
                Ok(_) => panic!("a level header of another size was taken"),
            }
        },
        _ => panic!("the deepest level's header comes behind the tree's"),
    }
}

#[test]
fn write_checks_the_size_of_a_block_and_names_the_place_of_each_item() {
    let sketch = sketch::Tree::new(17, 4);
    let mut write_ctx = write_context(&sketch, coords17_4());
    let mut kont = two_pass::write::Script::boot();
    let mut item_offsets = Vec::new();
    loop {
        kont = match kont.step_rec(&mut write_ctx).unwrap() {
            two_pass::write::Instruction::Op(two_pass::write::Op::WriteTreeHeader(header)) =>
                header.next.tree_header_written(3, &mut write_ctx).unwrap(),
            two_pass::write::Instruction::Op(two_pass::write::Op::WriteLevelHeader(level)) =>
                level.next.level_header_written(5, &mut write_ctx).unwrap(),
            two_pass::write::Instruction::Op(two_pass::write::Op::WriteBlockHeader(header)) => {
                assert_eq!(header.items_count, 4);
                assert_eq!(header.next.cursor(), 1017);
                header.next.block_header_written(BlockMeta, 2, &mut write_ctx).unwrap()
            },
            two_pass::write::Instruction::Op(two_pass::write::Op::WriteItem(item)) => {
                item_offsets.push(item.item_offset);
                item.next.item_written(BlockMeta, 3, &mut write_ctx).unwrap()
            },
            two_pass::write::Instruction::Op(two_pass::write::Op::FlushBlock(flush)) => {
                assert_eq!(item_offsets, vec![1019, 1022, 1025, 1028]);
                assert_eq!((flush.block_start_offset, flush.block_end_offset), (1017, 1031));
                match flush.next.block_flushed(13, &mut write_ctx) {
                    Err(error) => assert_eq!(
                        error,
                        two_pass::write::Error::FlushBlockSizeMismatch { written: 13, expected: 14 },
                    ),
                    Ok(_) => panic!("a block of another size was taken"),
                }
                return;
            },
            two_pass::write::Instruction::Done =>
                panic!("the first block was not flushed"),
        };
    }
}

#[test]
fn write_puts_the_next_block_behind_what_was_flushed() {
    let sketch = sketch::Tree::new(17, 4);
    let mut write_ctx = write_context(&sketch, coords17_4());
    let mut kont = two_pass::write::Script::boot();
    let mut flushed = 0;
    let mut starts = Vec::new();
    loop {
        kont = match kont.step_rec(&mut write_ctx).unwrap() {
            two_pass::write::Instruction::Op(two_pass::write::Op::WriteTreeHeader(header)) =>
                header.next.tree_header_written(3, &mut write_ctx).unwrap(),
            two_pass::write::Instruction::Op(two_pass::write::Op::WriteLevelHeader(level)) =>
                level.next.level_header_written(5, &mut write_ctx).unwrap(),
            two_pass::write::Instruction::Op(two_pass::write::Op::WriteBlockHeader(header)) =>
                header.next.block_header_written(BlockMeta, 2, &mut write_ctx).unwrap(),
            two_pass::write::Instruction::Op(two_pass::write::Op::WriteItem(item)) =>
                item.next.item_written(BlockMeta, 3, &mut write_ctx).unwrap(),
            two_pass::write::Instruction::Op(two_pass::write::Op::FlushBlock(flush)) => {
                if flush.level_index == 1 {
                    starts.push(flush.block_start_offset);
                    flushed += 1;
                    if flushed == 2 {
                        break;
                    }
                }
                // one byte more than was written goes out behind each block
                let size = flush.block_end_offset - flush.block_start_offset;
                flush.next.block_flushed_grown(size, 1, &mut write_ctx).unwrap()
            },
            two_pass::write::Instruction::Done =>
                panic!("the second leaf was not flushed"),
        };
    }
    assert_eq!(starts, vec![1017, 1017 + 15]);
}

#[test]
fn write_refuses_a_block_beyond_the_range_of_offsets() {
    let sketch = sketch::Tree::new(17, 4);
    let mut write_ctx = write_context(&sketch, coords17_4());
    let mut kont = two_pass::write::Script::boot();
    loop {
        kont = match kont.step_rec(&mut write_ctx).unwrap() {
            two_pass::write::Instruction::Op(two_pass::write::Op::WriteTreeHeader(header)) =>
                header.next.tree_header_written(3, &mut write_ctx).unwrap(),
            two_pass::write::Instruction::Op(two_pass::write::Op::WriteLevelHeader(level)) =>
                level.next.level_header_written(5, &mut write_ctx).unwrap(),
            two_pass::write::Instruction::Op(two_pass::write::Op::WriteBlockHeader(header)) =>
                header.next.block_header_written(BlockMeta, 2, &mut write_ctx).unwrap(),
            two_pass::write::Instruction::Op(two_pass::write::Op::WriteItem(item)) =>
                item.next.item_written(BlockMeta, 3, &mut write_ctx).unwrap(),
            two_pass::write::Instruction::Op(two_pass::write::Op::FlushBlock(flush)) => {
                assert_eq!(
                    flush.next.block_flushed_grown(14, usize::MAX - 1030, &mut write_ctx).err(),
                    Some(two_pass::write::Error::FlushBlockOutOfRange {
                        block_offset: 1017,
                        block_size: 14,
                        growth: usize::MAX - 1030,
                    }),
                );
                return;
            },
            two_pass::write::Instruction::Done =>
                panic!("the first block was not flushed"),
        };
    }
}

#[test]
fn write_refuses_a_block_that_is_larger_than_was_written() {
    let sketch = sketch::Tree::new(17, 4);
    let mut write_ctx = write_context(&sketch, coords17_4());
    let mut kont = two_pass::write::Script::boot();
    loop {
        kont = match kont.step_rec(&mut write_ctx).unwrap() {
            two_pass::write::Instruction::Op(two_pass::write::Op::WriteTreeHeader(header)) =>
                header.next.tree_header_written(3, &mut write_ctx).unwrap(),
            two_pass::write::Instruction::Op(two_pass::write::Op::WriteLevelHeader(level)) =>
                level.next.level_header_written(5, &mut write_ctx).unwrap(),
            two_pass::write::Instruction::Op(two_pass::write::Op::WriteBlockHeader(header)) =>
                header.next.block_header_written(BlockMeta, 2, &mut write_ctx).unwrap(),
            two_pass::write::Instruction::Op(two_pass::write::Op::WriteItem(item)) =>
                item.next.item_written(BlockMeta, 3, &mut write_ctx).unwrap(),
            two_pass::write::Instruction::Op(two_pass::write::Op::FlushBlock(flush)) => {
                assert_eq!(
                    flush.next.block_flushed(15, &mut write_ctx).err(),
                    Some(two_pass::write::Error::FlushBlockSizeMismatch { written: 15, expected: 14 }),
                );
                return;
            },
            two_pass::write::Instruction::Done =>
                panic!("the first block was not flushed"),
        };
    }
}

#[test]
fn write_refuses_a_grown_block_of_another_size() {
    let sketch = sketch::Tree::new(17, 4);
    let mut write_ctx = write_context(&sketch, coords17_4());
    let mut kont = two_pass::write::Script::boot();
    loop {
        kont = match kont.step_rec(&mut write_ctx).unwrap() {
            two_pass::write::Instruction::Op(two_pass::write::Op::WriteTreeHeader(header)) =>
                header.next.tree_header_written(3, &mut write_ctx).unwrap(),
            two_pass::write::Instruction::Op(two_pass::write::Op::WriteLevelHeader(level)) =>
                level.next.level_header_written(5, &mut write_ctx).unwrap(),
            two_pass::write::Instruction::Op(two_pass::write::Op::WriteBlockHeader(header)) =>
                header.next.block_header_written(BlockMeta, 2, &mut write_ctx).unwrap(),
            two_pass::write::Instruction::Op(two_pass::write::Op::WriteItem(item)) =>
                item.next.item_written(BlockMeta, 3, &mut write_ctx).unwrap(),
            two_pass::write::Instruction::Op(two_pass::write::Op::FlushBlock(flush)) => {
                assert_eq!(
                    flush.next.block_flushed_grown(15, 1, &mut write_ctx).err(),
                    Some(two_pass::write::Error::FlushBlockSizeMismatch { written: 15, expected: 14 }),
                );
                return;
            },
            two_pass::write::Instruction::Done =>
                panic!("the first block was not flushed"),
        };
    }
}

#[test]
fn write_tells_whether_the_offsets_fit() {
    assert!(two_pass::write::Context::<BlockMeta>::fits_in(1000, 3, &coords17_4()));
    // the 3 + 9 + 18 bytes of the tree end at the last offset
    assert!(two_pass::write::Context::<BlockMeta>::fits_in(usize::MAX - 30, 3, &coords17_4()));
    assert!(!two_pass::write::Context::<BlockMeta>::fits_in(usize::MAX - 29, 3, &coords17_4()));
    assert!(!two_pass::write::Context::<BlockMeta>::fits_in(usize::MAX, 3, &coords17_4()));
    assert!(two_pass::write::Context::<BlockMeta>::fits_in(usize::MAX, usize::MAX, &vec![]));
}

#[test]
fn write_passes_the_folds_failure_on() {
    // levels measured for a tree of one level, and a walk over two
    let sketch = sketch::Tree::new(17, 4);
    let small = sketch::Tree::new(3, 4);
    let mut write_ctx: two_pass::write::Context<BlockMeta> = two_pass::write::Context::new(
        fold::Context::new(plan::Context::new(&sketch), &small),
        1000,
        3,
        coords17_4(),
    ).unwrap();
    match two_pass::write::Script::boot().step_rec(&mut write_ctx) {
        Err(error) => assert_eq!(
            error,
            two_pass::write::Error::StepRec(fold::Error::InvalidPlanBlockStartLevelIndex { level_index: 1 }),
        ),
        Ok(_) => panic!("a level that the fold does not have was visited"),
    }
}

/// The tasks of the writing pass over `sketch` up to the first that `stop` holds of.
fn write_until(
    context: &mut two_pass::write::Context<BlockMeta>,
    stop: fn(&two_pass::write::Instruction<BlockMeta>) -> bool,
) -> two_pass::write::Instruction<BlockMeta> {
    let mut kont = two_pass::write::Script::boot();
    loop {
        let instruction = kont.step_rec(context).unwrap();
        if stop(&instruction) {
            return instruction;
        }
        kont = match instruction {
            two_pass::write::Instruction::Op(two_pass::write::Op::WriteTreeHeader(task)) =>
                task.next.tree_header_written(3, context).unwrap(),
            two_pass::write::Instruction::Op(two_pass::write::Op::WriteLevelHeader(task)) =>
                task.next.level_header_written(5, context).unwrap(),
            two_pass::write::Instruction::Op(two_pass::write::Op::WriteBlockHeader(task)) =>
                task.next.block_header_written(BlockMeta, 0, context).unwrap(),
            two_pass::write::Instruction::Op(two_pass::write::Op::WriteItem(task)) =>
                task.next.item_written(BlockMeta, 1, context).unwrap(),
            two_pass::write::Instruction::Op(two_pass::write::Op::FlushBlock(task)) =>
                task.next.block_flushed(task.block_end_offset - task.block_start_offset, context).unwrap(),
            two_pass::write::Instruction::Done =>
                panic!("the pass is over"),
        };
    }
}

#[test]
fn write_names_the_call_that_met_the_folds_failure() {
    let sketch = sketch::Tree::new(17, 4);
    let small = sketch::Tree::new(3, 4);
    let other = |sketch: &sketch::Tree| write_context(sketch, coords17_4());

    match write_until(&mut other(&sketch), |task| matches!(task, two_pass::write::Instruction::Op(two_pass::write::Op::WriteLevelHeader(_)))) {
        two_pass::write::Instruction::Op(two_pass::write::Op::WriteLevelHeader(task)) => assert_eq!(
            task.next.level_header_written(5, &mut other(&small)).err(),
            Some(two_pass::write::Error::WriteLevelHeader(fold::Error::InvalidLevelIndexForVisitLevel { level_index: 1 })),
        ),
        _ => panic!("the header of the deepest level is due"),
    }
    match write_until(&mut other(&sketch), |task| matches!(task, two_pass::write::Instruction::Op(two_pass::write::Op::WriteBlockHeader(_)))) {
        two_pass::write::Instruction::Op(two_pass::write::Op::WriteBlockHeader(task)) => assert_eq!(
            task.next.block_header_written(BlockMeta, 0, &mut other(&small)).err(),
            Some(two_pass::write::Error::WriteBlockHeader(fold::Error::InvalidLevelIndexForVisitBlockStart { level_index: 1 })),
        ),
        _ => panic!("the header of a block is due"),
    }
    match write_until(&mut other(&sketch), |task| matches!(task, two_pass::write::Instruction::Op(two_pass::write::Op::WriteItem(_)))) {
        two_pass::write::Instruction::Op(two_pass::write::Op::WriteItem(task)) => assert_eq!(
            task.next.item_written(BlockMeta, 1, &mut other(&sketch)).err(),
            Some(two_pass::write::Error::WriteItem(fold::Error::AlreadyInitializedLevelForVisitItem)),
        ),
        _ => panic!("an item is due"),
    }
    match write_until(&mut other(&sketch), |task| matches!(task, two_pass::write::Instruction::Op(two_pass::write::Op::FlushBlock(_)))) {
        two_pass::write::Instruction::Op(two_pass::write::Op::FlushBlock(task)) => assert_eq!(
            task.next.block_flushed(4, &mut other(&sketch)).err(),
            Some(two_pass::write::Error::FlushBlock(fold::Error::AlreadyInitializedLevelForVisitBlockFinish)),
        ),
        _ => panic!("a block is to be flushed"),
    }
}

#[test]
fn write_needs_a_block_for_an_item_and_for_a_flush() {
    let sketch = sketch::Tree::new(17, 4);
    let seed = || two_pass::write::LevelSeed::<BlockMeta> {
        level_header_size: 5,
        block_offset: 1017,
        cursor: 1017,
        active_block: None,
    };
    let fold_in_block = || {
        let mut fold_ctx: fold::Context<two_pass::write::LevelSeed<BlockMeta>> =
            fold::Context::new(plan::Context::new(&sketch), &sketch);
        let kont = match fold::Script::boot().step_rec(&mut fold_ctx).unwrap() {
            fold::Instruction::Op(fold::Op::VisitLevel(visit)) => visit.next.level_ready(seed(), &mut fold_ctx).unwrap(),
            _ => panic!("the first visit is that of the deepest level"),
        };
        match kont.step_rec(&mut fold_ctx).unwrap() {
            fold::Instruction::Op(fold::Op::VisitBlockStart(visit)) => visit.next.block_ready(seed(), &mut fold_ctx).unwrap(),
            _ => panic!("the level's first block starts once the level has its seed"),
        };
        fold_ctx
    };
    let perform = |op: plan::Op| plan::Instruction::Perform(plan::Perform {
        op,
        level_index: 1,
        block_index: 0,
        next: plan::Script::boot(),
    });
    let written = |fold_ctx: fold::Context<two_pass::write::LevelSeed<BlockMeta>>, op: plan::Op| {
        let mut write_ctx = two_pass::write::Context::new(fold_ctx, 1000, 3, coords17_4()).unwrap();
        let visit = fold::Script::boot().next.step(write_ctx.fold_ctx(), perform(op)).unwrap();
        // the visit waits for the tree's header
        let kont = match two_pass::write::Script::boot::<BlockMeta>().next.step(&mut write_ctx, visit).unwrap() {
            two_pass::write::Instruction::Op(two_pass::write::Op::WriteTreeHeader(task)) =>
                task.next.tree_header_written(3, &mut write_ctx).unwrap(),
            _ => panic!("the tree's header comes first"),
        };
        kont.step_rec(&mut write_ctx).err()
    };
    assert_eq!(
        written(fold_in_block(), plan::Op::BlockItem { index: 0 }),
        Some(two_pass::write::Error::NoActiveBlockWhileWriteItem),
    );
    assert_eq!(
        written(fold_in_block(), plan::Op::BlockFinish),
        Some(two_pass::write::Error::NoActiveBlockWhileFlushBlock),
    );
}
