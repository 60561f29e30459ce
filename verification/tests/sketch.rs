use ntree::sketch;

#[test]
fn it_works() {
    assert_eq!(2 + 2, 4);
}

#[test]
fn tests_tree17_4() {
    let sketch = sketch::Tree::new(17, 4);
    assert_eq!(
        sketch.levels(),
        &[
            sketch::Level { index: 0, blocks_count: 1, items_count: 4 },
            sketch::Level { index: 1, blocks_count: 4, items_count: 13 },
        ]
    );
}

#[test]
fn tests_tree17_3() {
    let sketch = sketch::Tree::new(17, 3);
    assert_eq!(
        sketch.levels(),
        &[
            sketch::Level { index: 0, blocks_count: 1, items_count: 3 },
            sketch::Level { index: 1, blocks_count: 3, items_count: 9 },
            sketch::Level { index: 2, blocks_count: 2, items_count: 5 },
        ]
    );
}

#[test]
fn sketch_of_no_items_has_no_levels() {
    let sketch = sketch::Tree::new(0, 4);
    assert_eq!(sketch.levels(), &[]);
    assert_eq!(sketch.items_total(), 0);
    assert_eq!(sketch.block_size(), 4);
}

#[test]
fn sketch_levels_hold_all_items_in_the_blocks_they_need() {
    for (items_total, block_size) in [(1usize, 1usize), (17, 4), (17, 3), (22, 3), (64, 4), (1000, 7), (5, 1), (3, 100)] {
        let sketch = sketch::Tree::new(items_total, block_size);
        let items: usize = sketch.levels().iter().map(|level| level.items_count).sum();
        let blocks: usize = sketch.levels().iter().map(|level| level.blocks_count).sum();
        assert_eq!(items, items_total);
        assert_eq!(blocks, (items_total + block_size - 1) / block_size);
        assert_eq!(sketch.levels()[0].blocks_count, 1);
        for (index, level) in sketch.levels().iter().enumerate() {
            assert_eq!(level.index, index);
        }
    }
}

#[test]
fn sketch_of_blocks_of_one_item_is_a_chain() {
    let sketch = sketch::Tree::new(3, 1);
    assert_eq!(
        sketch.levels(),
        &[
            sketch::Level { index: 0, blocks_count: 1, items_count: 1 },
            sketch::Level { index: 1, blocks_count: 1, items_count: 1 },
            sketch::Level { index: 2, blocks_count: 1, items_count: 1 },
        ]
    );
}

#[test]
fn sketch_of_a_full_tree() {
    // 4 + 16 + 64 items in 1 + 4 + 16 blocks
    let sketch = sketch::Tree::new(84, 4);
    assert_eq!(
        sketch.levels(),
        &[
            sketch::Level { index: 0, blocks_count: 1, items_count: 4 },
            sketch::Level { index: 1, blocks_count: 4, items_count: 16 },
            sketch::Level { index: 2, blocks_count: 16, items_count: 64 },
        ]
    );
}

#[test]
fn sketch_with_a_huge_block_size_is_one_block() {
    let sketch = sketch::Tree::new(10, usize::MAX);
    assert_eq!(sketch.levels(), &[sketch::Level { index: 0, blocks_count: 1, items_count: 10 }]);
}

#[test]
fn sketch_refuses_blocks_without_items() {
    assert!(sketch::Tree::checked_new(17, 0).is_none());
    assert_eq!(sketch::Tree::checked_new(17, 4).unwrap().levels().len(), 2);
}
