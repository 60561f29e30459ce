use ntree::reader::{BlocksBfsTraverse, InOrderTraverse, LookupBatch};
use ntree::store::{Entry, Store, Tree};
use ntree::{build, BuildError, ItemSource, NTreeWriter, VecSource};

fn in_order(tree: Tree<u32>) -> Vec<u32> {
    let mut iterator = InOrderTraverse::new(tree).iter();
    let mut items = Vec::new();
    while let Some(item) = iterator.next() {
        items.push(item.unwrap());
    }
    items
}

#[test]
fn a_tree_of_items_reads_as_the_items() {
    for (count, block_size) in [(0u32, 1usize), (1, 1), (7, 1), (17, 4), (17, 3), (22, 3), (1000, 10), (64, 2)] {
        let items: Vec<u32> = (0..count).map(|item| item * 3).collect();
        assert_eq!(in_order(Tree::from_items(items.clone(), block_size)), items);
    }
}

#[test]
fn a_tree_of_items_finds_its_items_and_no_others() {
    let items: Vec<u32> = (0..100).map(|item| item * 2).collect();
    let mut tree = Tree::from_items(items, 5);
    let keys: Vec<u32> = vec![198, 0, 7, 100, 199, 42, 43, 1000];
    let mut batch = LookupBatch::new(&mut tree, keys.iter().collect()).unwrap();
    let mut hits = Vec::new();
    while let Some((key, item)) = batch.next().unwrap() {
        assert_eq!(key, item);
        hits.push(*item);
    }
    hits.sort();
    assert_eq!(hits, vec![0, 42, 100, 198]);
}

#[test]
fn the_store_keeps_the_blocks_in_the_order_in_which_they_are_flushed() {
    let mut store: Store<u32> = Store::new();
    assert_eq!(store.empty_pos(), None);
    let mut leaf = store.make_block().unwrap();
    store.write_item(&mut leaf, 1, None).unwrap();
    store.write_item(&mut leaf, 2, None).unwrap();
    let below = store.flush_block(leaf).unwrap();
    assert_eq!(below, Some(0));
    let mut root = store.make_block().unwrap();
    store.write_item(&mut root, 3, below).unwrap();
    store.write_item(&mut root, 4, None).unwrap();
    let top = store.flush_block(root).unwrap();
    assert_eq!(top, Some(1));
    let tree = store.finish(top).unwrap();
    assert_eq!(in_order(tree), vec![1, 2, 3, 4]);
}

#[test]
fn the_blocks_of_a_tree_of_items_level_by_level() {
    let tree = Tree::from_items((0..17).collect::<Vec<u32>>(), 4);
    let mut iterator = BlocksBfsTraverse::new(tree).iter();
    let mut blocks = Vec::new();
    while let Some(block) = iterator.next() {
        blocks.push(block.unwrap());
    }
    assert_eq!(blocks, vec![
        vec![4, 8, 12, 16],
        vec![0, 1, 2, 3],
        vec![5, 6, 7],
        vec![9, 10, 11],
        vec![13, 14, 15],
    ]);
}

#[test]
fn a_source_gives_what_its_vector_holds() {
    let mut source: VecSource<u32, String> = VecSource::new(vec![Ok(1), Err(format!("torn")), Ok(3)]);
    assert_eq!(source.next(), Some(Ok(1)));
    assert_eq!(source.next(), Some(Err(format!("torn"))));
    assert_eq!(source.next(), Some(Ok(3)));
    assert_eq!(source.next(), None);
    assert_eq!(source.next(), None);

    let mut source: VecSource<u32, String> = VecSource::of_items(vec![5, 6]);
    assert_eq!(source.next(), Some(Ok(5)));
    assert_eq!(source.next(), Some(Ok(6)));
    assert_eq!(source.next(), None);
}

#[test]
fn a_build_into_the_store_stops_at_the_sources_failure() {
    let mut source: VecSource<u32, String> = VecSource::new(vec![Ok(1), Ok(2), Err(format!("torn")), Ok(4)]);
    match build(Store::new(), &mut source, 4, 2) {
        Err(BuildError::Iter(error)) => assert_eq!(error, "torn"),
        _ => panic!("the source's failure was passed over"),
    }
}

#[test]
fn an_entry_names_its_item_and_the_block_below() {
    let entry = Entry { item: 7u32, child: Some(3) };
    assert_eq!((entry.item, entry.child), (7, Some(3)));
}
