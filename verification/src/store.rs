//! A tree kept in memory as a list of blocks: a writer that a builder can
//! fill, and the reader of what it has built.
//!
//! A block is stored behind the blocks below its items, so that an item
//! refers to a block that comes before its own. What an item says of a
//! block that does not come before its own is not looked at.

use vstd::prelude::*;
use crate::reader::{Reader, Shape};
use crate::{build, lemma_items_of_items, BuildError, ItemSource, NTreeWriter, VecSource};

verus! {

/// An item of a block, and the block below it, if there is one.
pub struct Entry<T> {
    pub item: T,
    pub child: Option<usize>,
}

/// The blocks that were stored so far.
pub struct Store<T> {
    blocks: Vec<Vec<Entry<T>>>,
}

/// A tree of stored blocks.
pub struct Tree<T> {
    blocks: Vec<Vec<Entry<T>>>,
    root: Option<usize>,
}

/// A place in a tree of stored blocks.
#[derive(Clone, Copy, PartialEq, Eq, Debug)]
pub struct Cursor {
    pub block: usize,
    pub item: usize,
}

/// The blocks of `blocks` as sequences.
pub open spec fn blocks_view<T>(blocks: Vec<Vec<Entry<T>>>) -> Seq<Seq<Entry<T>>> {
    Seq::new(blocks@.len(), |i: int| blocks@[i]@)
}

/// The item refers to no block, or to one before `bound`.
pub open spec fn refers_below<T>(entry: Entry<T>, bound: int) -> bool {
    match entry.child {
        Some(c) => c < bound,
        None => true,
    }
}

/// Every item of `entries` refers to a block before `bound`.
pub open spec fn below<T>(entries: Seq<Entry<T>>, bound: int) -> bool {
    forall|j: int| 0 <= j < entries.len() ==> refers_below(#[trigger] entries[j], bound)
}

/// The items of `entries` in order, each behind the items of the tree
/// below it. Blocks from `bound` on are not looked at.
pub open spec fn content<T>(blocks: Seq<Seq<Entry<T>>>, entries: Seq<Entry<T>>, bound: int) -> Seq<
    T,
>
    decreases bound, entries.len(),
{
    if entries.len() == 0 {
        Seq::empty()
    } else {
        let last = entries.last();
        content(blocks, entries.drop_last(), bound) + match last.child {
            Some(c) => if 0 <= c < bound {
                content(blocks, blocks[c as int], c as int)
            } else {
                Seq::empty()
            },
            None => Seq::empty(),
        } + seq![last.item]
    }
}

/// The items of the tree whose root is block `position`, in order.
pub open spec fn content_at<T>(blocks: Seq<Seq<Entry<T>>>, position: Option<usize>) -> Seq<T> {
    match position {
        Some(i) => content(blocks, blocks[i as int], i as int),
        None => Seq::empty(),
    }
}

/// The content of entries that refer to blocks before `bound` is the same
/// in all lists of blocks that are the same before `bound`, and does not
/// depend on how far behind `bound` one looks.
pub proof fn lemma_content_stable<T>(
    first: Seq<Seq<Entry<T>>>,
    second: Seq<Seq<Entry<T>>>,
    entries: Seq<Entry<T>>,
    bound: int,
    further: int,
)
    requires
        bound <= further,
        bound <= first.len(),
        bound <= second.len(),
        forall|i: int| 0 <= i < bound ==> #[trigger] first[i] == second[i],
        below(entries, bound),
    ensures
        content(first, entries, bound) == content(second, entries, further),
    decreases bound, entries.len(),
{
    if entries.len() > 0 {
        let last = entries.last();
        assert(last == entries[entries.len() - 1]);
        assert(below(entries.drop_last(), bound)) by {
            assert forall|j: int| 0 <= j < entries.drop_last().len() implies refers_below(
                #[trigger] entries.drop_last()[j],
                bound,
            ) by {
                assert(entries.drop_last()[j] == entries[j]);
            }
        }
        assert(refers_below(last, bound));
        lemma_content_stable(first, second, entries.drop_last(), bound, further);
        match last.child {
            Some(c) => {
                lemma_content_stable_at(first, second, c as int, bound);
            },
            None => {},
        }
    }
}

/// The content of a block before `bound` is the same in all lists of
/// layered blocks that are the same before `bound`.
pub proof fn lemma_content_stable_at<T>(
    first: Seq<Seq<Entry<T>>>,
    second: Seq<Seq<Entry<T>>>,
    at: int,
    bound: int,
)
    requires
        0 <= at < bound,
        bound <= first.len(),
        bound <= second.len(),
        forall|i: int| 0 <= i < bound ==> #[trigger] first[i] == second[i],
    ensures
        content(first, first[at], at) == content(second, second[at], at),
    decreases bound, first[at].len() + 1,
{
    lemma_content_same(first, second, first[at], at, bound);
}

/// The content of entries up to `bound` is the same in all lists of blocks
/// that are the same before a later bound.
pub proof fn lemma_content_same<T>(
    first: Seq<Seq<Entry<T>>>,
    second: Seq<Seq<Entry<T>>>,
    entries: Seq<Entry<T>>,
    bound: int,
    same: int,
)
    requires
        0 <= bound <= same,
        same <= first.len(),
        same <= second.len(),
        forall|i: int| 0 <= i < same ==> #[trigger] first[i] == second[i],
    ensures
        content(first, entries, bound) == content(second, entries, bound),
    decreases bound, entries.len(),
{
    if entries.len() > 0 {
        let last = entries.last();
        lemma_content_same(first, second, entries.drop_last(), bound, same);
        match last.child {
            Some(c) => {
                if 0 <= c < bound {
                    lemma_content_same(first, second, first[c as int], c as int, same);
                }
            },
            None => {},
        }
    }
}

/// The content of entries one after the other is the content of the first
/// and then that of the others.
pub proof fn lemma_content_join<T>(
    blocks: Seq<Seq<Entry<T>>>,
    front: Seq<Entry<T>>,
    back: Seq<Entry<T>>,
    bound: int,
)
    ensures
        content(blocks, front + back, bound) == content(blocks, front, bound) + content(
            blocks,
            back,
            bound,
        ),
    decreases back.len(),
{
    if back.len() == 0 {
        assert(front + back =~= front);
        assert(content(blocks, front, bound) + Seq::<T>::empty() =~= content(blocks, front, bound));
    } else {
        let all = front + back;
        assert(all.drop_last() =~= front + back.drop_last());
        assert(all.last() == back.last());
        lemma_content_join(blocks, front, back.drop_last(), bound);
        let below_last = match back.last().child {
            Some(c) => if 0 <= c < bound {
                content(blocks, blocks[c as int], c as int)
            } else {
                Seq::empty()
            },
            None => Seq::empty(),
        };
        assert(content(blocks, all, bound) =~= content(blocks, front, bound) + (content(
            blocks,
            back.drop_last(),
            bound,
        ) + below_last + seq![back.last().item]));
    }
}

impl<T> Store<T> {
    /// The blocks that were stored so far.
    pub closed spec fn blocks(&self) -> Seq<Seq<Entry<T>>> {
        blocks_view(self.blocks)
    }

    /// A store without blocks.
    pub fn new() -> (store: Store<T>)
        ensures
            store.blocks().len() == 0,
    {
        Store { blocks: Vec::new() }
    }
}

impl<T> NTreeWriter for Store<T> {
    type Item = T;

    type Error = ();

    type Position = Option<usize>;

    type Block = Vec<Entry<T>>;

    type Result = Tree<T>;

    open spec fn known(&self, position: Option<usize>) -> bool {
        match position {
            Some(i) => i < self.blocks().len(),
            None => true,
        }
    }

    open spec fn items_at(&self, position: Option<usize>) -> Seq<T> {
        content_at(self.blocks(), position)
    }

    open spec fn sound(&self, block: Vec<Entry<T>>) -> bool {
        below(block@, self.blocks().len() as int)
    }

    open spec fn items_in(&self, block: Vec<Entry<T>>) -> Seq<T> {
        content(self.blocks(), block@, self.blocks().len() as int)
    }

    open spec fn items_of_result(result: Tree<T>) -> Seq<T> {
        result.items()
    }

    open spec fn width_at(&self, position: Option<usize>) -> nat {
        match position {
            Some(i) => self.blocks()[i as int].len(),
            None => 0,
        }
    }

    open spec fn width_in(&self, block: Vec<Entry<T>>) -> nat {
        block@.len()
    }

    open spec fn unfailing() -> bool {
        true
    }

    fn empty_pos(&self) -> (position: Option<usize>) {
        None
    }

    fn make_block(&self) -> (block: Result<Vec<Entry<T>>, ()>) {
        Ok(Vec::new())
    }

    fn write_item(&mut self, block: &mut Vec<Entry<T>>, item: T, child_block_pos: Option<usize>) -> (done:
        Result<(), ()>)
        ensures
            done is Ok,
    {
        let ghost before = block@;
        block.push(Entry { item, child: child_block_pos });
        proof {
            assert(block@.drop_last() =~= before);
            assert forall|j: int| 0 <= j < block@.len() implies refers_below(
                #[trigger] block@[j],
                self.blocks().len() as int,
            ) by {
                if j < before.len() {
                    assert(block@[j] == before[j]);
                }
            }
        }
        Ok(())
    }

    fn flush_block(&mut self, block: Vec<Entry<T>>) -> (position: Result<Option<usize>, ()>)
        ensures
            position is Ok,
    {
        let ghost before = self.blocks();
        let ghost entries = block@;
        let position = self.blocks.len();
        self.blocks.push(block);
        proof {
            let after = blocks_view(self.blocks);
            assert(after =~= before.push(entries));
            lemma_content_stable(before, after, entries, position as int, position as int);
            assert forall|stored: Option<usize>| #[trigger]
                old(self).known(stored) implies self.known(stored) && self.items_at(stored) == old(
                self,
            ).items_at(stored) && self.width_at(stored) == old(self).width_at(stored) by {
                if let Some(i) = stored {
                    lemma_content_same(before, after, before[i as int], i as int, position as int);
                    assert(after[i as int] == before[i as int]);
                }
            }
            assert forall|other: Vec<Entry<T>>| #[trigger]
                old(self).sound(other) implies self.sound(other) && self.items_in(other) == old(
                self,
            ).items_in(other) by {
                lemma_content_stable(before, after, other@, position as int, position + 1);
            }
        }
        Ok(Some(position))
    }

    fn finish(self, root_block_pos: Option<usize>) -> (result: Result<Tree<T>, ()>)
        ensures
            result is Ok,
    {
        Ok(Tree { blocks: self.blocks, root: root_block_pos })
    }
}

/// The size of the blocks before block `block`, with one more for each.
pub open spec fn rank_before<T>(blocks: Seq<Seq<Entry<T>>>, block: int) -> nat
    decreases block,
{
    if block <= 0 {
        0
    } else {
        rank_before(blocks, block - 1) + blocks[block - 1].len() + 1
    }
}

/// The blocks before a later block are at least as large as those before
/// an earlier one.
pub proof fn lemma_rank_before_grows<T>(blocks: Seq<Seq<Entry<T>>>, low: int, high: int)
    requires
        0 <= low <= high,
    ensures
        rank_before(blocks, low) <= rank_before(blocks, high),
    decreases high,
{
    if low < high {
        lemma_rank_before_grows(blocks, low, high - 1);
    }
}

/// `cursor` stands on an item of `blocks`.
pub open spec fn stands<T>(blocks: Seq<Seq<Entry<T>>>, cursor: Cursor) -> bool {
    cursor.block < blocks.len() && cursor.item < blocks[cursor.block as int].len()
}

/// The cursor on the first item of the block below the item under `cursor`,
/// if there is a block with items before the item's own.
pub open spec fn below_of<T>(blocks: Seq<Seq<Entry<T>>>, cursor: Cursor) -> Option<Cursor> {
    match blocks[cursor.block as int][cursor.item as int].child {
        Some(c) => if c < cursor.block && blocks[c as int].len() > 0 {
            Some(Cursor { block: c, item: 0 })
        } else {
            None
        },
        None => None,
    }
}

/// The tree of `blocks` with the root block `root` as a reader sees it.
pub open spec fn shape_of<T>(blocks: Seq<Seq<Entry<T>>>, root: Option<usize>) -> Shape<Cursor, T> {
    Shape {
        root: match root {
            Some(r) => if r < blocks.len() && blocks[r as int].len() > 0 {
                Some(Cursor { block: r, item: 0 })
            } else {
                None
            },
            None => None,
        },
        items: Map::new(
            |c: Cursor| stands(blocks, c),
            |c: Cursor| blocks[c.block as int][c.item as int].item,
        ),
        next: Map::new(
            |c: Cursor|
                stands(blocks, c) && c.item + 1 < blocks[c.block as int].len() && c.item
                    < usize::MAX,
            |c: Cursor| Cursor { block: c.block, item: (c.item + 1) as usize },
        ),
        down: Map::new(
            |c: Cursor| stands(blocks, c) && below_of(blocks, c) is Some,
            |c: Cursor| below_of(blocks, c).unwrap(),
        ),
        rank: Map::new(
            |c: Cursor| stands(blocks, c),
            |c: Cursor|
                (rank_before(blocks, c.block as int) + blocks[c.block as int].len()
                    - c.item) as nat,
        ),
        position: Map::new(
            |c: Cursor| stands(blocks, c),
            |c: Cursor| (rank_before(blocks, c.block as int) + c.item) as nat,
        ),
    }
}

/// The tree of stored blocks is well-formed.
pub proof fn lemma_shape_wf<T>(blocks: Seq<Seq<Entry<T>>>, root: Option<usize>)
    ensures
        shape_of(blocks, root).wf(),
{
    let shape = shape_of(blocks, root);
    assert forall|c: Cursor| #[trigger] shape.holds(c) implies {
        &&& shape.sibling(c) matches Some(n) ==> shape.holds(n) && shape.rank[n] < shape.rank[c]
        &&& shape.child(c) matches Some(n) ==> shape.holds(n) && shape.rank[n] < shape.rank[c]
    } by {
        assert(stands(blocks, c));
        if let Some(n) = shape.sibling(c) {
            assert(n == Cursor { block: c.block, item: (c.item + 1) as usize });
            assert(stands(blocks, n));
        }
        if let Some(n) = shape.child(c) {
            assert(Some(n) == below_of(blocks, c));
            assert(stands(blocks, n));
            lemma_rank_before_grows(blocks, n.block + 1, c.block as int);
            assert(rank_before(blocks, n.block + 1) == rank_before(blocks, n.block as int)
                + blocks[n.block as int].len() + 1);
        }
    }
}

/// The items from the item `from` of block `block` on, each behind the
/// items of the tree below it.
pub open spec fn content_from<T>(blocks: Seq<Seq<Entry<T>>>, block: int, from: int) -> Seq<T> {
    content(blocks, blocks[block].subrange(from, blocks[block].len() as int), block)
}

/// No block is larger than a block can be in memory.
pub open spec fn sized<T>(blocks: Seq<Seq<Entry<T>>>) -> bool {
    forall|i: int| 0 <= i < blocks.len() ==> (#[trigger] blocks[i]).len() <= usize::MAX
}

/// A reader sees in a block, from an item on, what the block holds from
/// that item on.
pub proof fn lemma_in_order_is_content<T>(blocks: Seq<Seq<Entry<T>>>, root: Option<usize>, c: Cursor)
    requires
        sized(blocks),
        stands(blocks, c),
    ensures
        shape_of(blocks, root).in_order(Some(c)) == content_from(
            blocks,
            c.block as int,
            c.item as int,
        ),
    decreases shape_of(blocks, root).rank[c],
{
    let shape = shape_of(blocks, root);
    lemma_shape_wf(blocks, root);
    let block = blocks[c.block as int];
    assert(block.len() <= usize::MAX);
    let entry = block[c.item as int];
    let rest = block.subrange(c.item + 1, block.len() as int);
    let from_here = block.subrange(c.item as int, block.len() as int);
    assert(shape.holds(c));
    assert(from_here =~= seq![entry] + rest);
    lemma_content_join(blocks, seq![entry], rest, c.block as int);
    let one = seq![entry];
    assert(one.drop_last() =~= Seq::<Entry<T>>::empty());
    assert(one.last() == entry);
    assert(content(blocks, one.drop_last(), c.block as int) =~= Seq::<T>::empty());
    let below_entry = match entry.child {
        Some(d) => if 0 <= d < c.block {
            content(blocks, blocks[d as int], d as int)
        } else {
            Seq::empty()
        },
        None => Seq::empty(),
    };
    assert(content(blocks, one, c.block as int) =~= below_entry + seq![entry.item]);
    // what lies below the item
    match shape.child(c) {
        Some(n) => {
            lemma_in_order_is_content(blocks, root, n);
            assert(blocks[n.block as int].subrange(0, blocks[n.block as int].len() as int)
                =~= blocks[n.block as int]);
        },
        None => {
            assert(shape.in_order(None) =~= Seq::<T>::empty());
            if let Some(d) = entry.child {
                if d < c.block {
                    assert(blocks[d as int].len() == 0);
                    assert(content(blocks, blocks[d as int], d as int) =~= Seq::<T>::empty());
                }
            }
        },
    }
    // what follows the item in its block
    match shape.sibling(c) {
        Some(n) => {
            lemma_in_order_is_content(blocks, root, n);
        },
        None => {
            assert(shape.in_order(None) =~= Seq::<T>::empty());
            assert(rest =~= Seq::<Entry<T>>::empty());
            assert(content(blocks, rest, c.block as int) =~= Seq::<T>::empty());
        },
    }
    assert(shape.in_order(Some(c)) == shape.in_order(shape.child(c)) + seq![shape.items[c]]
        + shape.in_order(shape.sibling(c)));
}

impl<T> Tree<T> {
    /// The blocks of the tree.
    pub closed spec fn blocks(&self) -> Seq<Seq<Entry<T>>> {
        blocks_view(self.blocks)
    }

    /// The root block, if the tree has one.
    pub closed spec fn root_block(&self) -> Option<usize> {
        self.root
    }

    /// The items of the tree, in order.
    pub open spec fn items(&self) -> Seq<T> {
        match self.root_block() {
            Some(root) => if root < self.blocks().len() {
                content_at(self.blocks(), Some(root))
            } else {
                Seq::empty()
            },
            None => Seq::empty(),
        }
    }

    /// The tree of `items`, with blocks of about `block_size` items: a
    /// reader of it sees `items`, in order.
    pub fn from_items(items: Vec<T>, block_size: usize) -> (tree: Tree<T>)
        requires
            block_size >= 1,
        ensures
            tree.items() == items@,
            tree.shape().wf(),
            tree.shape().in_order(tree.shape().root) == items@,
    {
        let count = items.len();
        let mut source: VecSource<T, ()> = VecSource::of_items(items);
        let ghost pending = source.pending();
        proof {
            lemma_items_of_items::<T, ()>(items@, count as int);
            assert(items@.subrange(0, count as int) =~= items@);
            crate::lemma_marks(count as int, block_size as int, count as int);
        }
        match build(Store::new(), &mut source, count, block_size) {
            Ok(tree) => {
                proof {
                    tree.lemma_reads_items();
                }
                tree
            },
            Err(_) => {
                proof {
                    assert(false);
                }
                vstd::pervasive::unreached()
            },
        }
    }

    /// A reader of the tree sees the tree's items, in order.
    pub proof fn lemma_reads_items(&self)
        ensures
            self.shape().wf(),
            self.shape().in_order(self.shape().root) == self.items(),
    {
        let blocks = self.blocks();
        lemma_shape_wf(blocks, self.root_block());
        assert forall|i: int| 0 <= i < blocks.len() implies (#[trigger] blocks[i]).len()
            <= usize::MAX by {
            assert(blocks[i].len() == self.blocks@[i].len());
        }
        match self.shape().root {
            Some(c) => {
                lemma_in_order_is_content(blocks, self.root_block(), c);
                assert(blocks[c.block as int].subrange(0, blocks[c.block as int].len() as int)
                    =~= blocks[c.block as int]);
            },
            None => {
                assert(self.shape().in_order(None) =~= Seq::<T>::empty());
                if let Some(root) = self.root_block() {
                    if root < blocks.len() {
                        assert(content(blocks, blocks[root as int], root as int) =~= Seq::<
                            T,
                        >::empty());
                    }
                }
            },
        }
    }
}

impl<T> Reader for Tree<T> {
    type Item = T;

    type Error = ();

    type Cursor = Cursor;

    closed spec fn shape(&self) -> Shape<Cursor, T> {
        shape_of(blocks_view(self.blocks), self.root)
    }

    open spec fn reliable() -> bool {
        true
    }

    fn root(&self) -> (root: Result<Option<Cursor>, ()>)
        ensures
            root is Ok,
    {
        proof {
            lemma_shape_wf(blocks_view(self.blocks), self.root);
        }
        match self.root {
            Some(block) => {
                if block < self.blocks.len() && self.blocks[block].len() > 0 {
                    Ok(Some(Cursor { block, item: 0 }))
                } else {
                    Ok(None)
                }
            },
            None => Ok(None),
        }
    }

    fn access<'a>(&'a self, cursor: &Cursor) -> (item: &'a T) {
        assert(stands(blocks_view(self.blocks), *cursor));
        &self.blocks[cursor.block][cursor.item].item
    }

    fn advance(&mut self, cursor: Cursor) -> (next: Result<Option<Cursor>, ()>)
        ensures
            next is Ok,
    {
        assert(stands(blocks_view(self.blocks), cursor));
        if cursor.item < self.blocks[cursor.block].len() - 1 {
            Ok(Some(Cursor { block: cursor.block, item: cursor.item + 1 }))
        } else {
            Ok(None)
        }
    }

    fn jump(&mut self, cursor: Cursor) -> (next: Result<Option<Cursor>, ()>)
        ensures
            next is Ok,
    {
        assert(stands(blocks_view(self.blocks), cursor));
        match self.blocks[cursor.block][cursor.item].child {
            Some(block) => {
                if block < cursor.block && self.blocks[block].len() > 0 {
                    Ok(Some(Cursor { block, item: 0 }))
                } else {
                    Ok(None)
                }
            },
            None => Ok(None),
        }
    }

    fn precedes(&self, a: &Cursor, b: &Cursor) -> (before: bool) {
        proof {
            let blocks = blocks_view(self.blocks);
            assert(stands(blocks, *a) && stands(blocks, *b));
            assert(rank_before(blocks, a.block + 1) == rank_before(blocks, a.block as int)
                + blocks[a.block as int].len() + 1);
            assert(rank_before(blocks, b.block + 1) == rank_before(blocks, b.block as int)
                + blocks[b.block as int].len() + 1);
            if a.block < b.block {
                lemma_rank_before_grows(blocks, a.block + 1, b.block as int);
            }
            if b.block < a.block {
                lemma_rank_before_grows(blocks, b.block + 1, a.block as int);
            }
        }
        a.block < b.block || (a.block == b.block && a.item < b.item)
    }
}

} // verus!
