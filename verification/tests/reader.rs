use ntree::reader::{InOrderTraverse, LookupBatch, Place, Probe, Reader};
use std::cell::RefCell;

/// A tree in memory: blocks of items, each item with the block below it.
struct Blocks {
    blocks: Vec<Vec<(u32, Option<usize>)>>,
}

#[derive(Clone, Copy, PartialEq, Debug)]
struct At {
    block: usize,
    item: usize,
}

impl Reader for Blocks {
    type Item = u32;
    type Error = ();
    type Cursor = At;

    fn root(&self) -> Result<Option<At>, ()> {
        if self.blocks.is_empty() || self.blocks[0].is_empty() {
            Ok(None)
        } else {
            Ok(Some(At { block: 0, item: 0 }))
        }
    }

    fn access<'a>(&'a self, cursor: &At) -> &'a u32 {
        &self.blocks[cursor.block][cursor.item].0
    }

    fn advance(&mut self, cursor: At) -> Result<Option<At>, ()> {
        if cursor.item + 1 < self.blocks[cursor.block].len() {
            Ok(Some(At { block: cursor.block, item: cursor.item + 1 }))
        } else {
            Ok(None)
        }
    }

    fn jump(&mut self, cursor: At) -> Result<Option<At>, ()> {
        Ok(self.blocks[cursor.block][cursor.item].1.map(|block| At { block, item: 0 }))
    }

    fn precedes(&self, a: &At, b: &At) -> bool {
        (a.block, a.item) < (b.block, b.item)
    }
}

struct Key(u32);

impl Probe<u32> for Key {
    fn probe(&self, item: &u32) -> Place {
        if self.0 < *item {
            Place::Before
        } else if self.0 == *item {
            Place::At
        } else {
            Place::After
        }
    }
}

//                 (4 9 14 16)
// (0 1 2 3) (5 6 7 8) (10 11 12 13) (15)
fn tree17_4() -> Blocks {
    Blocks {
        blocks: vec![
            vec![(4, Some(1)), (9, Some(2)), (14, Some(3)), (16, Some(4))],
            vec![(0, None), (1, None), (2, None), (3, None)],
            vec![(5, None), (6, None), (7, None), (8, None)],
            vec![(10, None), (11, None), (12, None), (13, None)],
            vec![(15, None)],
        ],
    }
}

#[test]
fn in_order_gives_the_sorted_items() {
    let mut iterator = InOrderTraverse::new(tree17_4()).iter();
    let mut items = Vec::new();
    while let Some(item) = iterator.next() {
        items.push(item.unwrap());
    }
    assert_eq!(items, (0..17).collect::<Vec<u32>>());
    assert_eq!(iterator.next(), None);
}

#[test]
fn in_order_of_an_empty_tree_gives_nothing() {
    let mut iterator = InOrderTraverse::new(Blocks { blocks: vec![] }).iter();
    assert_eq!(iterator.next(), None);
}

#[test]
fn lookup_finds_every_key_once_and_no_other() {
    let mut tree = tree17_4();
    let keys: Vec<Key> = vec![Key(13), Key(0), Key(40), Key(16), Key(9), Key(5)];
    let mut batch = LookupBatch::new(&mut tree, keys.iter().collect()).unwrap();
    let mut hits = Vec::new();
    while let Some((key, item)) = batch.next().unwrap() {
        assert_eq!(key.0, *item);
        hits.push(*item);
    }
    hits.sort();
    assert_eq!(hits, vec![0, 5, 9, 13, 16]);
    assert_eq!(batch.next().unwrap().map(|(key, item)| (key.0, *item)), None);
}

#[test]
fn lookup_in_an_empty_tree_finds_nothing() {
    let mut tree = Blocks { blocks: vec![] };
    let keys: Vec<Key> = vec![Key(1), Key(2)];
    let mut batch = LookupBatch::new(&mut tree, keys.iter().collect()).unwrap();
    assert_eq!(batch.next().unwrap().map(|(key, item)| (key.0, *item)), None);
}

/// A reader that fails when it is to go below a given item.
struct Torn {
    blocks: Blocks,
    torn_below: u32,
}

impl Reader for Torn {
    type Item = u32;
    type Error = String;
    type Cursor = At;

    fn root(&self) -> Result<Option<At>, String> {
        Ok(self.blocks.root().unwrap())
    }

    fn access<'a>(&'a self, cursor: &At) -> &'a u32 {
        self.blocks.access(cursor)
    }

    fn advance(&mut self, cursor: At) -> Result<Option<At>, String> {
        Ok(self.blocks.advance(cursor).unwrap())
    }

    fn jump(&mut self, cursor: At) -> Result<Option<At>, String> {
        if *self.blocks.access(&cursor) == self.torn_below {
            Err(format!("torn below {}", self.torn_below))
        } else {
            Ok(self.blocks.jump(cursor).unwrap())
        }
    }

    fn precedes(&self, a: &At, b: &At) -> bool {
        self.blocks.precedes(a, b)
    }
}

#[test]
fn in_order_goes_on_behind_what_it_cannot_reach() {
    let mut iterator = InOrderTraverse::new(Torn { blocks: tree17_4(), torn_below: 9 }).iter();
    let mut items = Vec::new();
    let mut failures = Vec::new();
    while let Some(item) = iterator.next() {
        match item {
            Ok(item) => items.push(item),
            Err(error) => failures.push(error),
        }
    }
    assert_eq!(items, vec![0, 1, 2, 3, 4, 9, 10, 11, 12, 13, 14, 15, 16]);
    assert_eq!(failures, vec![format!("torn below 9")]);
}

#[test]
fn lookup_drops_the_key_that_the_reader_fails() {
    let mut tree = Torn { blocks: tree17_4(), torn_below: 9 };
    let keys: Vec<Key> = vec![Key(7), Key(12), Key(2)];
    let mut batch = LookupBatch::new(&mut tree, keys.iter().collect()).unwrap();
    let mut hits = Vec::new();
    let mut failures = Vec::new();
    loop {
        match batch.next() {
            Ok(Some((_, item))) => hits.push(*item),
            Ok(None) => break,
            Err(error) => failures.push(error),
        }
    }
    hits.sort();
    assert_eq!(hits, vec![2, 12]);
    assert_eq!(failures, vec![format!("torn below 9")]);
}

#[test]
fn lookup_finds_the_items_in_the_order_of_storage() {
    let mut tree = tree17_4();
    let keys: Vec<Key> = vec![Key(15), Key(6), Key(14), Key(1), Key(4)];
    let mut batch = LookupBatch::new(&mut tree, keys.iter().collect()).unwrap();
    let mut hits = Vec::new();
    while let Some((_, item)) = batch.next().unwrap() {
        hits.push(*item);
    }
    // the root block lies first, then the blocks below it from left to right
    assert_eq!(hits, vec![4, 14, 1, 6, 15]);
}

#[test]
fn blocks_are_visited_level_by_level() {
    let mut iterator = ntree::reader::BlocksBfsTraverse::new(tree17_4()).iter();
    let mut blocks = Vec::new();
    while let Some(block) = iterator.next() {
        blocks.push(block.unwrap());
    }
    assert_eq!(blocks, vec![
        vec![4, 9, 14, 16],
        vec![0, 1, 2, 3],
        vec![5, 6, 7, 8],
        vec![10, 11, 12, 13],
        vec![15],
    ]);
    assert_eq!(iterator.next(), None);
}

#[test]
fn blocks_of_an_empty_tree_are_none() {
    let mut iterator = ntree::reader::BlocksBfsTraverse::new(Blocks { blocks: vec![] }).iter();
    assert_eq!(iterator.next(), None);
}

#[test]
fn numbers_are_keys_of_numbers() {
    assert_eq!(3u64.probe(&5), Place::Before);
    assert_eq!(5u64.probe(&5), Place::At);
    assert_eq!(7u64.probe(&5), Place::After);
    assert_eq!(3u32.probe(&5), Place::Before);
    assert_eq!(5usize.probe(&5), Place::At);
    assert_eq!(usize::MAX.probe(&0), Place::After);
}

/// A reader of blocks that notes the cursors at which it is asked for an
/// item.
struct Noting {
    tree: Blocks,
    seen: RefCell<Vec<(usize, usize)>>,
}

impl Reader for Noting {
    type Item = u32;
    type Error = ();
    type Cursor = At;

    fn root(&self) -> Result<Option<At>, ()> {
        self.tree.root()
    }

    fn access<'a>(&'a self, cursor: &At) -> &'a u32 {
        self.seen.borrow_mut().push((cursor.block, cursor.item));
        self.tree.access(cursor)
    }

    fn advance(&mut self, cursor: At) -> Result<Option<At>, ()> {
        self.tree.advance(cursor)
    }

    fn jump(&mut self, cursor: At) -> Result<Option<At>, ()> {
        self.tree.jump(cursor)
    }

    fn precedes(&self, a: &At, b: &At) -> bool {
        self.tree.precedes(a, b)
    }
}

#[test]
fn lookup_serves_the_lookup_that_stands_first_in_the_tree() {
    let mut reader = Noting { tree: tree17_4(), seen: RefCell::new(Vec::new()) };
    let keys: Vec<Key> = vec![Key(15), Key(1)];
    let mut batch = LookupBatch::new(&mut reader, keys.iter().collect()).unwrap();
    let first = batch.next().unwrap().map(|(key, item)| (key.0, *item));
    // both lookups start at the root; the one for 1 goes down at once and is
    // left alone while the one for 15 stands before it in the root block
    assert_eq!(first, Some((1, 1)));
    let second = batch.next().unwrap().map(|(key, item)| (key.0, *item));
    assert_eq!(second, Some((15, 15)));
    assert_eq!(batch.next().unwrap().map(|(key, item)| (key.0, *item)), None);
    let seen: Vec<(usize, usize)> = reader.seen.borrow().iter()
        .fold(Vec::new(), |mut seen, &at| {
            if seen.last() != Some(&at) {
                seen.push(at);
            }
            seen
        });
    assert_eq!(seen, vec![
        (0, 0), (0, 1), (0, 2), (0, 3),
        (1, 0), (1, 1),
        (4, 0),
    ]);
}
