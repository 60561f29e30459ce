use ntree::sketch;
use ntree::writer::backend::in_memory;

fn build_tree(items_total: usize, block_size: usize) -> Vec<u8> {
    let sketch = sketch::Tree::new(items_total, block_size);
    let mut instruction = in_memory::build(&sketch).unwrap();
    let mut source = 0..items_total as i32;
    loop {
        match instruction {
            in_memory::Instruction::PassMarkup(fsm) =>
                instruction = fsm.next().unwrap(),
            in_memory::Instruction::PassWrite(fsm) => {
                source = 0..items_total as i32;
                instruction = fsm.next().unwrap();
            },
            in_memory::Instruction::WriteItem(in_memory::WriteItem { mut block_writer, next }) => {
                let item = source.next().unwrap();
                block_writer.write(&bincode::serialize(&item).unwrap());
                instruction = next.item_written(block_writer).unwrap().next().unwrap();
            },
            in_memory::Instruction::FlushBlock(next) =>
                instruction = next.block_flushed().unwrap().next().unwrap(),
            in_memory::Instruction::Done(memory) =>
                return memory,
        }
    }
}

#[test]
fn tree17_4_in_memory() {
    assert_eq!(build_tree(17, 4), vec![
        13, 104, 122, 139, 122, 154, 15, 104, 2, 0, 0, 0, 0, 0, 0, 0,
        0, 0, 0, 0, 0, 0, 0, 0, 1, 0, 0, 0, 0, 0, 0, 0,
        4, 0, 0, 0, 0, 0, 0, 0, 1, 0, 0, 0, 0, 0, 0, 0,
        4, 0, 0, 0, 0, 0, 0, 0, 13, 0, 0, 0, 0, 0, 0, 0,
        4, 0, 0, 0, 0, 0, 0, 0, 17, 0, 0, 0, 0, 0, 0, 0,
        4, 0, 0, 0, 4, 0, 0, 0, 1, 136, 0, 0, 0, 0, 0, 0,
        0, 9, 0, 0, 0, 1, 160, 0, 0, 0, 0, 0, 0, 0, 14, 0,
        0, 0, 1, 184, 0, 0, 0, 0, 0, 0, 0, 16, 0, 0, 0, 1,
        208, 0, 0, 0, 0, 0, 0, 0, 4, 0, 0, 0, 0, 0, 0, 0,
        0, 1, 0, 0, 0, 0, 2, 0, 0, 0, 0, 3, 0, 0, 0, 0,
        4, 0, 0, 0, 5, 0, 0, 0, 0, 6, 0, 0, 0, 0, 7, 0,
        0, 0, 0, 8, 0, 0, 0, 0, 4, 0, 0, 0, 10, 0, 0, 0,
        0, 11, 0, 0, 0, 0, 12, 0, 0, 0, 0, 13, 0, 0, 0, 0,
        1, 0, 0, 0, 15, 0, 0, 0, 0,
    ]);
}

#[test]
fn in_memory_of_no_items_is_the_header() {
    assert_eq!(build_tree(0, 4), vec![
        13, 104, 122, 139, 122, 154, 15, 104, 0, 0, 0, 0, 0, 0, 0, 0,
        4, 0, 0, 0, 0, 0, 0, 0, 0, 0, 0, 0, 0, 0, 0, 0,
    ]);
}

#[test]
fn in_memory_of_one_block() {
    // header of 56 bytes, then the root block: 3 items of 5 bytes behind 4
    let memory = build_tree(3, 4);
    assert_eq!(memory.len(), 8 + 8 + 24 + 16 + 4 + 3 * 5);
    assert_eq!(&memory[56..], &[3, 0, 0, 0, 0, 0, 0, 0, 0, 1, 0, 0, 0, 0, 2, 0, 0, 0, 0]);
}

#[test]
fn tree17_4_in_memory_modif() {
    let sketch = sketch::Tree::new(17, 4);
    let mut instruction = in_memory::build(&sketch).unwrap();
    let mut source = 0..17;
    loop {
        match instruction {
            in_memory::Instruction::PassMarkup(fsm) =>
                instruction = fsm.next().unwrap(),
            in_memory::Instruction::PassWrite(fsm) => {
                source = 0..17;
                instruction = fsm.next().unwrap();
            },
            in_memory::Instruction::WriteItem(in_memory::WriteItem { mut block_writer, next }) => {
                let item: i32 = source.next().unwrap();
                block_writer.write(&bincode::serialize(&item).unwrap());
                instruction = next.item_written(block_writer).unwrap().next().unwrap();
            },
            in_memory::Instruction::FlushBlock(next) => {
                let mut modified = next.block_bytes().to_owned();
                modified.push(0x77);
                instruction = next.modified_block_flushed(&modified).unwrap().next().unwrap();
            },
            in_memory::Instruction::Done(memory) => {
                assert_eq!(memory, vec![
                    13, 104, 122, 139, 122, 154, 15, 104, 2, 0, 0, 0, 0, 0, 0, 0,
                    0, 0, 0, 0, 0, 0, 0, 0, 1, 0, 0, 0, 0, 0, 0, 0,
                    4, 0, 0, 0, 0, 0, 0, 0, 1, 0, 0, 0, 0, 0, 0, 0,
                    4, 0, 0, 0, 0, 0, 0, 0, 13, 0, 0, 0, 0, 0, 0, 0,
                    4, 0, 0, 0, 0, 0, 0, 0, 17, 0, 0, 0, 0, 0, 0, 0,
                    4, 0, 0, 0, 4, 0, 0, 0, 1, 137, 0, 0, 0, 0, 0, 0,
                    0, 9, 0, 0, 0, 1, 162, 0, 0, 0, 0, 0, 0, 0, 14, 0,
                    0, 0, 1, 187, 0, 0, 0, 0, 0, 0, 0, 16, 0, 0, 0, 1,
                    212, 0, 0, 0, 0, 0, 0, 0, 119, 4, 0, 0, 0, 0, 0, 0,
                    0, 0, 1, 0, 0, 0, 0, 2, 0, 0, 0, 0, 3, 0, 0, 0,
                    0, 119, 4, 0, 0, 0, 5, 0, 0, 0, 0, 6, 0, 0, 0, 0,
                    7, 0, 0, 0, 0, 8, 0, 0, 0, 0, 119, 4, 0, 0, 0, 10,
                    0, 0, 0, 0, 11, 0, 0, 0, 0, 12, 0, 0, 0, 0, 13, 0,
                    0, 0, 0, 119, 1, 0, 0, 0, 15, 0, 0, 0, 0, 119,
                ]);
                break;
            },
        }
    }
}

#[test]
fn in_memory_rejects_a_block_that_is_cut_short() {
    let sketch = sketch::Tree::new(17, 4);
    let mut instruction = in_memory::build(&sketch).unwrap();
    let mut source = 0..17;
    let mut writing = false;
    loop {
        match instruction {
            in_memory::Instruction::PassMarkup(fsm) =>
                instruction = fsm.next().unwrap(),
            in_memory::Instruction::PassWrite(fsm) => {
                source = 0..17;
                writing = true;
                instruction = fsm.next().unwrap();
            },
            in_memory::Instruction::WriteItem(in_memory::WriteItem { mut block_writer, next }) => {
                let item: i32 = source.next().unwrap();
                block_writer.write(&bincode::serialize(&item).unwrap());
                instruction = next.item_written(block_writer).unwrap().next().unwrap();
            },
            in_memory::Instruction::FlushBlock(next) => {
                if writing {
                    let mut modified = next.block_bytes().to_owned();
                    modified.pop();
                    match next.modified_block_flushed(&modified) {
                        Err(in_memory::Error::BlockSizeMismatch { block_size, place_size }) => {
                            assert_eq!((block_size, place_size), (23, 24));
                            return;
                        },
                        _ => panic!("a block that lost a byte was taken"),
                    }
                }
                instruction = next.block_flushed().unwrap().next().unwrap();
            },
            in_memory::Instruction::Done(_) =>
                panic!("the tree was completed"),
        }
    }
}

#[test]
fn in_memory_rejects_a_block_that_is_larger_than_it_was_measured() {
    let sketch = sketch::Tree::new(3, 4);
    let mut instruction = in_memory::build(&sketch).unwrap();
    let mut writing = false;
    loop {
        instruction = match instruction {
            in_memory::Instruction::PassMarkup(fsm) => fsm.next().unwrap(),
            in_memory::Instruction::PassWrite(fsm) => {
                writing = true;
                fsm.next().unwrap()
            },
            in_memory::Instruction::WriteItem(in_memory::WriteItem { mut block_writer, next }) => {
                block_writer.write(&[7, 7, 7, 7]);
                next.item_written(block_writer).unwrap().next().unwrap()
            },
            in_memory::Instruction::FlushBlock(next) => {
                if writing {
                    let mut modified = next.block_bytes().to_owned();
                    modified.push(0x77);
                    match next.modified_block_flushed(&modified) {
                        Err(in_memory::Error::BlockSizeMismatch { block_size, place_size }) => {
                            assert_eq!((block_size, place_size), (20, 19));
                            return;
                        },
                        _ => panic!("a block that is larger than its place was taken"),
                    }
                }
                next.block_flushed().unwrap().next().unwrap()
            },
            in_memory::Instruction::Done(_) => panic!("the tree was completed"),
        };
    }
}

/// Reads a `u64` that is written low byte first.
fn u64_at(memory: &[u8], at: usize) -> usize {
    memory[at..at + 8].iter().rev().fold(0, |n, &byte| n * 256 + byte as usize)
}

/// Reads a `u32` that is written low byte first.
fn u32_at(memory: &[u8], at: usize) -> u32 {
    memory[at..at + 4].iter().rev().fold(0, |n, &byte| n * 256 + byte as u32)
}

/// The items of the block at `offset` and of the blocks below it, in order.
fn read_block(memory: &[u8], offset: usize, items: &mut Vec<u32>, blocks: &mut usize) {
    *blocks += 1;
    let count = u32_at(memory, offset);
    let mut at = offset + 4;
    for _ in 0..count {
        let item = u32_at(memory, at);
        at += 4;
        match memory[at] {
            0 => at += 1,
            1 => {
                read_block(memory, u64_at(memory, at + 1), items, blocks);
                at += 9;
            },
            _ => panic!("an item says neither that it has a block below nor that it has none"),
        }
        items.push(item);
    }
}

#[test]
fn in_memory_trees_read_as_their_items() {
    for (items_total, block_size) in [(1usize, 1usize), (5, 1), (17, 4), (17, 3), (22, 3), (100, 7), (84, 4), (1000, 10)] {
        let memory = build_tree(items_total, block_size);
        assert_eq!(u64_at(&memory, 0), 0x680f9a7a8b7a680d);
        let levels = u64_at(&memory, 8);
        let header = 16 + levels * 24 + 16;
        assert_eq!(u64_at(&memory, header - 16), block_size);
        assert_eq!(u64_at(&memory, header - 8), items_total);
        let mut items = Vec::new();
        let mut blocks = 0;
        read_block(&memory, header, &mut items, &mut blocks);
        assert_eq!(items, (0..items_total as u32).collect::<Vec<u32>>());
        assert_eq!(blocks, (items_total + block_size - 1) / block_size);
        // every byte of the buffer was written
        assert_eq!(memory.len(), header + blocks * 4 + items_total * 5 + (blocks - 1) * 8);
    }
}

/// The first item to write of the tree of `sketch`.
fn first_item(sketch: &sketch::Tree) -> in_memory::WriteItem<'_> {
    match in_memory::build(sketch).unwrap() {
        in_memory::Instruction::PassMarkup(fsm) => match fsm.next().unwrap() {
            in_memory::Instruction::WriteItem(item) => item,
            _ => panic!("the first pass starts with an item"),
        },
        _ => panic!("the first pass comes first"),
    }
}

#[test]
fn in_memory_rejects_a_block_that_has_shrunk() {
    let sketch = sketch::Tree::new(17, 4);
    let in_memory::WriteItem { mut block_writer, next } = first_item(&sketch);
    block_writer.write(&[1, 2, 3, 4]);
    let second = match next.item_written(block_writer).unwrap().next().unwrap() {
        in_memory::Instruction::WriteItem(item) => item,
        _ => panic!("the block takes a second item"),
    };
    // the block of another tree, with nothing but its header
    let fresh = first_item(&sketch).block_writer;
    match second.next.item_written(fresh) {
        Err(in_memory::Error::BlockShrunk { block_size, size_before }) =>
            assert_eq!((block_size, size_before), (4, 9)),
        _ => panic!("a block that has lost bytes was taken"),
    }
}

#[test]
fn in_memory_rejects_a_block_that_has_outgrown_its_measure() {
    let sketch = sketch::Tree::new(3, 4);
    let mut instruction = in_memory::build(&sketch).unwrap();
    let mut writing = false;
    let mut written = 0;
    loop {
        instruction = match instruction {
            in_memory::Instruction::PassMarkup(fsm) => fsm.next().unwrap(),
            in_memory::Instruction::PassWrite(fsm) => {
                writing = true;
                fsm.next().unwrap()
            },
            in_memory::Instruction::WriteItem(in_memory::WriteItem { mut block_writer, next }) => {
                // the items are longer when they are written than when they were measured
                block_writer.write(if writing { &[7, 7, 7, 7, 7, 7] } else { &[7, 7, 7, 7] });
                let fsm = next.item_written(block_writer).unwrap();
                if writing {
                    written += 1;
                    if written == 3 {
                        match fsm.next() {
                            Err(in_memory::Error::BlockSizeMismatch { block_size, place_size }) => {
                                assert_eq!((block_size, place_size), (4 + 3 * 7, 4 + 3 * 5));
                                return;
                            },
                            _ => panic!("a block that is larger than it was measured goes on"),
                        }
                    }
                }
                fsm.next().unwrap()
            },
            in_memory::Instruction::FlushBlock(next) => next.block_flushed().unwrap().next().unwrap(),
            in_memory::Instruction::Done(_) => panic!("the tree was completed"),
        };
    }
}

#[test]
fn in_memory_rejects_a_block_that_is_flushed_as_less_than_it_is() {
    let sketch = sketch::Tree::new(3, 4);
    let mut instruction = in_memory::build(&sketch).unwrap();
    loop {
        instruction = match instruction {
            in_memory::Instruction::PassMarkup(fsm) => fsm.next().unwrap(),
            in_memory::Instruction::WriteItem(in_memory::WriteItem { mut block_writer, next }) => {
                block_writer.write(&[7, 7, 7, 7]);
                next.item_written(block_writer).unwrap().next().unwrap()
            },
            in_memory::Instruction::FlushBlock(next) => {
                let cut = next.block_bytes()[..18].to_owned();
                match next.modified_block_flushed(&cut) {
                    Err(in_memory::Error::BlockSizeMismatch { block_size, place_size }) => {
                        assert_eq!((block_size, place_size), (18, 19));
                        return;
                    },
                    _ => panic!("less than the block was measured as the block"),
                }
            },
            _ => panic!("the first pass ends with its only block"),
        };
    }
}

#[test]
fn in_memory_rejects_a_block_that_grew_in_the_first_pass_only() {
    let sketch = sketch::Tree::new(3, 4);
    let mut instruction = in_memory::build(&sketch).unwrap();
    let mut writing = false;
    loop {
        instruction = match instruction {
            in_memory::Instruction::PassMarkup(fsm) => fsm.next().unwrap(),
            in_memory::Instruction::PassWrite(fsm) => {
                writing = true;
                fsm.next().unwrap()
            },
            in_memory::Instruction::WriteItem(in_memory::WriteItem { mut block_writer, next }) => {
                block_writer.write(&[7, 7, 7, 7]);
                next.item_written(block_writer).unwrap().next().unwrap()
            },
            in_memory::Instruction::FlushBlock(next) => {
                if writing {
                    match next.block_flushed() {
                        Err(in_memory::Error::BlockSizeMismatch { block_size, place_size }) => {
                            assert_eq!((block_size, place_size), (19, 20));
                            return;
                        },
                        _ => panic!("a block that is smaller than its place was taken"),
                    }
                }
                let mut modified = next.block_bytes().to_owned();
                modified.push(0x77);
                next.modified_block_flushed(&modified).unwrap().next().unwrap()
            },
            in_memory::Instruction::Done(_) => panic!("the tree was completed"),
        };
    }
}

#[test]
fn in_memory_takes_a_block_that_is_changed_and_fills_its_place() {
    let sketch = sketch::Tree::new(3, 4);
    let mut instruction = in_memory::build(&sketch).unwrap();
    loop {
        instruction = match instruction {
            in_memory::Instruction::PassMarkup(fsm) => fsm.next().unwrap(),
            in_memory::Instruction::PassWrite(fsm) => fsm.next().unwrap(),
            in_memory::Instruction::WriteItem(in_memory::WriteItem { mut block_writer, next }) => {
                block_writer.write(&[7, 7, 7, 7]);
                next.item_written(block_writer).unwrap().next().unwrap()
            },
            in_memory::Instruction::FlushBlock(next) => {
                let modified: Vec<u8> = next.block_bytes().iter().map(|byte| byte ^ 0xff).collect();
                next.modified_block_flushed(&modified).unwrap().next().unwrap()
            },
            in_memory::Instruction::Done(memory) => {
                assert_eq!(&memory[56..], &[
                    0xfc, 0xff, 0xff, 0xff,
                    0xf8, 0xf8, 0xf8, 0xf8, 0xff,
                    0xf8, 0xf8, 0xf8, 0xf8, 0xff,
                    0xf8, 0xf8, 0xf8, 0xf8, 0xff,
                ]);
                return;
            },
        };
    }
}
