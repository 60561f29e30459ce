use ntree::reader::{InOrderTraverse, LookupBatch, Place, Probe, Reader};
use ntree::{build, build_block, BuildError, ItemSource, NTreeWriter};

/// A writer that keeps the blocks in memory.
struct Memory {
    blocks: Vec<Vec<(u32, Option<usize>)>>,
    fail_at_block: Option<usize>,
}

/// A tree in memory, with the place of its root block.
struct Tree {
    blocks: Vec<Vec<(u32, Option<usize>)>>,
    root: Option<usize>,
}

impl NTreeWriter for Memory {
    type Item = u32;
    type Error = String;
    type Position = Option<usize>;
    type Block = Vec<(u32, Option<usize>)>;
    type Result = Tree;

    fn empty_pos(&self) -> Option<usize> {
        None
    }

    fn make_block(&self) -> Result<Self::Block, String> {
        Ok(Vec::new())
    }

    fn write_item(&mut self, block: &mut Self::Block, item: u32, child_block_pos: Option<usize>) -> Result<(), String> {
        block.push((item, child_block_pos));
        Ok(())
    }

    fn flush_block(&mut self, block: Self::Block) -> Result<Option<usize>, String> {
        if self.fail_at_block == Some(self.blocks.len()) {
            return Err(format!("no room for block {}", self.blocks.len()));
        }
        self.blocks.push(block);
        Ok(Some(self.blocks.len() - 1))
    }

    fn finish(self, root_block_pos: Option<usize>) -> Result<Tree, String> {
        Ok(Tree { blocks: self.blocks, root: root_block_pos })
    }
}

/// A source that gives the things of a vector.
struct Items {
    items: std::vec::IntoIter<Result<u32, String>>,
}

impl ItemSource for Items {
    type Item = u32;
    type Error = String;

    fn next(&mut self) -> Option<Result<u32, String>> {
        self.items.next()
    }
}

fn numbers(count: u32) -> Items {
    Items { items: (0..count).map(Ok).collect::<Vec<_>>().into_iter() }
}

#[derive(Clone, Copy, PartialEq, Debug)]
struct At {
    block: usize,
    item: usize,
}

impl Reader for Tree {
    type Item = u32;
    type Error = ();
    type Cursor = At;

    fn root(&self) -> Result<Option<At>, ()> {
        Ok(self.root.filter(|&block| !self.blocks[block].is_empty()).map(|block| At { block, item: 0 }))
    }

    fn access<'a>(&'a self, cursor: &At) -> &'a u32 {
        &self.blocks[cursor.block][cursor.item].0
    }

    fn advance(&mut self, cursor: At) -> Result<Option<At>, ()> {
        if cursor.item + 1 < self.blocks[cursor.block].len() {
            Ok(Some(At { block: cursor.block, item: cursor.item + 1 }))
        } else {
            Ok(None)
        }
    }

    fn jump(&mut self, cursor: At) -> Result<Option<At>, ()> {
        Ok(self.blocks[cursor.block][cursor.item].1.map(|block| At { block, item: 0 }))
    }

    fn precedes(&self, a: &At, b: &At) -> bool {
        (a.block, a.item) < (b.block, b.item)
    }
}

struct Key(u32);

impl Probe<u32> for Key {
    fn probe(&self, item: &u32) -> Place {
        if self.0 < *item {
            Place::Before
        } else if self.0 == *item {
            Place::At
        } else {
            Place::After
        }
    }
}

#[test]
fn build_lays_17_items_out_in_blocks_of_4() {
    let tree = build(Memory { blocks: vec![], fail_at_block: None }, &mut numbers(17), 17, 4).unwrap();
    assert_eq!(tree.blocks, vec![
        vec![(0, None), (1, None), (2, None), (3, None)],
        vec![(5, None), (6, None), (7, None)],
        vec![(9, None), (10, None), (11, None)],
        vec![(13, None), (14, None), (15, None)],
        vec![(4, Some(0)), (8, Some(1)), (12, Some(2)), (16, Some(3))],
    ]);
    assert_eq!(tree.root, Some(4));
}

#[test]
fn build_then_read_in_order_gives_the_source() {
    for (count, block_size) in [(0u32, 4usize), (1, 4), (17, 4), (17, 3), (22, 3), (100, 7), (9, 1)] {
        let tree = build(Memory { blocks: vec![], fail_at_block: None }, &mut numbers(count), count as usize, block_size).unwrap();
        let mut iterator = InOrderTraverse::new(tree).iter();
        let mut items = Vec::new();
        while let Some(item) = iterator.next() {
            items.push(item.unwrap());
        }
        assert_eq!(items, (0..count).collect::<Vec<u32>>());
    }
}

#[test]
fn build_then_lookup_finds_the_keys() {
    let mut tree = build(Memory { blocks: vec![], fail_at_block: None }, &mut numbers(100), 100, 7).unwrap();
    let keys: Vec<Key> = vec![Key(99), Key(0), Key(100), Key(50), Key(7), Key(1000), Key(49)];
    let mut batch = LookupBatch::new(&mut tree, keys.iter().collect()).unwrap();
    let mut hits = Vec::new();
    while let Some((key, item)) = batch.next().unwrap() {
        assert_eq!(key.0, *item);
        hits.push(*item);
    }
    hits.sort();
    assert_eq!(hits, vec![0, 7, 49, 50, 99]);
}

#[test]
fn build_stops_at_the_sources_failure() {
    let mut source = Items {
        items: vec![Ok(0), Ok(1), Err(format!("torn")), Ok(3)].into_iter(),
    };
    match build(Memory { blocks: vec![], fail_at_block: None }, &mut source, 4, 4) {
        Err(BuildError::Iter(error)) => assert_eq!(error, "torn"),
        _ => panic!("the source's failure was passed over"),
    }
    assert_eq!(source.next(), Some(Ok(3)));
}

#[test]
fn build_stops_at_the_writers_failure() {
    match build(Memory { blocks: vec![], fail_at_block: Some(1) }, &mut numbers(17), 17, 4) {
        Err(BuildError::NTree(error)) => assert_eq!(error, "no room for block 1"),
        _ => panic!("the writer's failure was passed over"),
    }
}

#[test]
fn build_takes_what_the_source_has() {
    let mut writer = Memory { blocks: vec![], fail_at_block: None };
    let position = build_block(&mut numbers(3), 0, 10, 4, &mut writer).unwrap();
    let written: Vec<u32> = writer.blocks.iter().flatten().map(|&(item, _)| item).collect();
    assert_eq!(written, vec![0, 1, 2]);
    assert_eq!(position, Some(writer.blocks.len() - 1));
}

#[test]
fn build_keeps_the_items_up_to_the_last_of_the_root_block() {
    // of 10 items in blocks of 4 the root takes the items 3, 5, 7 and 9
    let mut writer = Memory { blocks: vec![], fail_at_block: None };
    let position = build_block(&mut numbers(5), 0, 10, 4, &mut writer).unwrap();
    assert_eq!(writer.blocks, vec![
        vec![(0, None), (1, None), (2, None)],
        vec![(4, None)],
        vec![(3, Some(0))],
    ]);
    assert_eq!(position, Some(2));
    let tree = writer.finish(position).unwrap();
    let mut iterator = InOrderTraverse::new(tree).iter();
    let mut items = Vec::new();
    while let Some(item) = iterator.next() {
        items.push(item.unwrap());
    }
    // the item 4 lies in a block that no item refers to
    assert_eq!(items, vec![0, 1, 2, 3]);
}

#[test]
fn build_gives_the_root_block_no_item_where_the_source_ends_before_its_first() {
    let mut writer = Memory { blocks: vec![], fail_at_block: None };
    let position = build_block(&mut numbers(3), 0, 10, 4, &mut writer).unwrap();
    assert_eq!(writer.blocks, vec![vec![(0, None), (1, None), (2, None)], vec![]]);
    assert_eq!(position, Some(1));
}

#[test]
fn build_fills_the_root_block_where_the_source_suffices() {
    for (count, block_size) in [(17usize, 4usize), (10, 4), (3, 4), (100, 7), (64, 2), (5, 1)] {
        let mut writer = Memory { blocks: vec![], fail_at_block: None };
        let position = build_block(&mut numbers(count as u32), 0, count, block_size, &mut writer).unwrap();
        let root = &writer.blocks[position.unwrap()];
        assert_eq!(root.len(), count.min(block_size));
        for block in &writer.blocks {
            assert!(block.len() <= block_size);
        }
    }
}
