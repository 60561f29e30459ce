//! A static, read-optimised n-ary search tree laid out block by block.
//!
//! The tree indexes a sorted sequence whose length is known up front. Building
//! it is split into small state machines that never perform I/O themselves:
//! every step hands the caller an instruction, and the caller resumes the
//! machine through the continuation that came with it.

use vstd::prelude::*;

pub mod reader;
pub mod sketch;
pub mod store;
pub mod writer;

verus! {

/// Why a tree could not be built: the source of the items failed, or the
/// writer did.
#[derive(Debug)]
pub enum BuildError<IE, TE> {
    Iter(IE),
    NTree(TE),
}

/// Where the blocks of a tree go, one at a time.
///
/// A block is a value of its own: what it holds does not change while
/// another block is written or flushed.
pub trait NTreeWriter: Sized {
    type Item;

    type Error;

    type Position;

    type Block;

    type Result;

    /// `position` is the empty one, or one at which the writer has stored a
    /// block.
    open spec fn known(&self, position: Self::Position) -> bool {
        arbitrary()
    }

    /// The items of the tree whose root block lies at `position`, in order.
    open spec fn items_at(&self, position: Self::Position) -> Seq<Self::Item> {
        arbitrary()
    }

    /// `block` can be written and flushed: the blocks below its items are
    /// stored.
    open spec fn sound(&self, block: Self::Block) -> bool {
        arbitrary()
    }

    /// The items of `block` in order, each behind the items of the tree
    /// below it.
    open spec fn items_in(&self, block: Self::Block) -> Seq<Self::Item> {
        arbitrary()
    }

    /// The items of a completed tree, in order.
    open spec fn items_of_result(result: Self::Result) -> Seq<Self::Item> {
        arbitrary()
    }

    /// The number of items that the block at `position` holds itself,
    /// without those of the blocks below it.
    open spec fn width_at(&self, position: Self::Position) -> nat {
        arbitrary()
    }

    /// The number of items that were written into `block` itself.
    open spec fn width_in(&self, block: Self::Block) -> nat {
        arbitrary()
    }

    /// The writer never fails.
    open spec fn unfailing() -> bool {
        false
    }

    /// The position that stands for no block.
    fn empty_pos(&self) -> (position: Self::Position)
        ensures
            self.known(position),
            self.items_at(position).len() == 0,
    ;

    /// A new block without items.
    fn make_block(&self) -> (block: Result<Self::Block, Self::Error>)
        ensures
            block matches Ok(block) ==> self.sound(block) && self.items_in(block).len() == 0
                && self.width_in(block) == 0,
            Self::unfailing() ==> block is Ok,
    ;

    /// Writes `item` into `block`; the block below the item lies at
    /// `child_block_pos`.
    fn write_item(
        &mut self,
        block: &mut Self::Block,
        item: Self::Item,
        child_block_pos: Self::Position,
    ) -> (done: Result<(), Self::Error>)
        requires
            old(self).sound(*old(block)),
            old(self).known(child_block_pos),
        ensures
            done is Ok ==> {
                &&& forall|position: Self::Position| #[trigger]
                    old(self).known(position) ==> final(self).known(position) && final(self).items_at(position) == old(self).items_at(position) && final(self).width_at(position) == old(self).width_at(position)
                &&& forall|other: Self::Block| #[trigger]
                    old(self).sound(other) ==> final(self).sound(other) && final(self).items_in(
                        other,
                    ) == old(self).items_in(other) && final(self).width_in(other) == old(self).width_in(other)
                &&& final(self).sound(*final(block))
                &&& final(self).items_in(*final(block)) == old(self).items_in(*old(block)) + old(self).items_at(child_block_pos) + seq![item]
                &&& final(self).width_in(*final(block)) == old(self).width_in(*old(block)) + 1
            },
            Self::unfailing() ==> done is Ok,
    ;

    /// Stores `block`, and says where it lies.
    fn flush_block(&mut self, block: Self::Block) -> (position: Result<Self::Position, Self::Error>)
        requires
            old(self).sound(block),
        ensures
            position matches Ok(position) ==> {
                &&& forall|stored: Self::Position| #[trigger]
                    old(self).known(stored) ==> final(self).known(stored) && final(self).items_at(stored) == old(self).items_at(stored) && final(self).width_at(stored) == old(self).width_at(stored)
                &&& forall|other: Self::Block| #[trigger]
                    old(self).sound(other) ==> final(self).sound(other) && final(self).items_in(
                        other,
                    ) == old(self).items_in(other) && final(self).width_in(other) == old(self).width_in(other)
                &&& final(self).known(position)
                &&& final(self).items_at(position) == old(self).items_in(block)
                &&& final(self).width_at(position) == old(self).width_in(block)
            },
            Self::unfailing() ==> position is Ok,
    ;

    /// Completes the tree whose root block lies at `root_block_pos`.
    fn finish(self, root_block_pos: Self::Position) -> (result: Result<Self::Result, Self::Error>)
        requires
            self.known(root_block_pos),
        ensures
            result matches Ok(result) ==> Self::items_of_result(result) == self.items_at(
                root_block_pos,
            ),
            Self::unfailing() ==> result is Ok,
    ;
}

/// What a writer has stored stays as it is, and so does every block that
/// can be written.
pub open spec fn persists<W: NTreeWriter>(before: W, after: W) -> bool {
    &&& forall|position: W::Position| #[trigger]
        before.known(position) ==> after.known(position) && after.items_at(position)
            == before.items_at(position) && after.width_at(position) == before.width_at(position)
    &&& forall|block: W::Block| #[trigger]
        before.sound(block) ==> after.sound(block) && after.items_in(block) == before.items_in(
            block,
        ) && after.width_in(block) == before.width_in(block)
}

/// What persists through one change and then another persists through both.
pub proof fn lemma_persists_on<W: NTreeWriter>(first: W, second: W, third: W)
    requires
        persists(first, second),
        persists(second, third),
    ensures
        persists(first, third),
{
    assert forall|position: W::Position| #[trigger] first.known(position) implies third.known(
        position,
    ) && third.items_at(position) == first.items_at(position) && third.width_at(position)
        == first.width_at(position) by {
        assert(second.known(position));
    }
    assert forall|block: W::Block| #[trigger] first.sound(block) implies third.sound(block)
        && third.items_in(block) == first.items_in(block) && third.width_in(block)
        == first.width_in(block) by {
        assert(second.sound(block));
    }
}

/// Where the items of a tree come from, in order.
pub trait ItemSource {
    type Item;

    type Error;

    /// What the source has still to give, the next thing first.
    open spec fn pending(&self) -> Seq<Result<Self::Item, Self::Error>> {
        arbitrary()
    }

    /// The next item, or the source's failure; none when the source is
    /// exhausted.
    fn next(&mut self) -> (item: Option<Result<Self::Item, Self::Error>>)
        ensures
            match item {
                Some(item) => old(self).pending().len() > 0 && item == old(self).pending()[0]
                    && final(self).pending() == old(self).pending().skip(1),
                None => old(self).pending().len() == 0 && final(self).pending().len() == 0,
            },
    ;
}

/// A source that gives what a vector holds, from its start.
pub struct VecSource<T, E> {
    /// What is left to give, the next thing last.
    rest: Vec<Result<T, E>>,
}

impl<T, E> VecSource<T, E> {
    /// A source that gives `items` in order.
    pub fn new(items: Vec<Result<T, E>>) -> (source: VecSource<T, E>)
        ensures
            source.pending() == items@,
    {
        let mut items = items;
        let ghost all = items@;
        let mut rest: Vec<Result<T, E>> = Vec::new();
        while items.len() > 0
            invariant
                items@.len() + rest@.len() == all.len(),
                items@ == all.subrange(0, items@.len() as int),
                rest@.reverse() == all.subrange(items@.len() as int, all.len() as int),
            decreases items.len(),
        {
            let ghost before = items@;
            let ghost held = rest@;
            match items.pop() {
                Some(item) => {
                    rest.push(item);
                    assert(items@ =~= all.subrange(0, items@.len() as int));
                    assert(rest@.reverse() =~= seq![item] + held.reverse());
                    assert(rest@.reverse() =~= all.subrange(items@.len() as int, all.len() as int));
                },
                None => {},
            }
        }
        assert(rest@.reverse() =~= all);
        VecSource { rest }
    }
}

impl<T, E> VecSource<T, E> {
    /// A source that gives `items` in order, and never fails.
    pub fn of_items(items: Vec<T>) -> (source: VecSource<T, E>)
        ensures
            source.pending() == items@.map(|i: int, item: T| Ok::<T, E>(item)),
    {
        let mut items = items;
        let ghost all = items@;
        let mut rest: Vec<Result<T, E>> = Vec::new();
        while items.len() > 0
            invariant
                items@.len() + rest@.len() == all.len(),
                items@ == all.subrange(0, items@.len() as int),
                rest@.reverse() == all.subrange(items@.len() as int, all.len() as int).map(
                    |i: int, item: T| Ok::<T, E>(item),
                ),
            decreases items.len(),
        {
            let ghost held = rest@;
            match items.pop() {
                Some(item) => {
                    rest.push(Ok(item));
                    assert(items@ =~= all.subrange(0, items@.len() as int));
                    assert(rest@.reverse() =~= seq![Ok::<T, E>(item)] + held.reverse());
                    assert(rest@.reverse() =~= all.subrange(
                        items@.len() as int,
                        all.len() as int,
                    ).map(|i: int, item: T| Ok::<T, E>(item)));
                },
                None => {},
            }
        }
        assert(all.subrange(0, all.len() as int) =~= all);
        VecSource { rest }
    }
}

/// The items of a source that gives `items` and never fails are `items`.
pub proof fn lemma_items_of_items<T, E>(items: Seq<T>, count: int)
    requires
        0 <= count <= items.len(),
    ensures
        items_of(items.map(|i: int, item: T| Ok::<T, E>(item)), count) == items.subrange(0, count),
        all_items(items.map(|i: int, item: T| Ok::<T, E>(item)), count),
    decreases count,
{
    if count > 0 {
        lemma_items_of_items::<T, E>(items, count - 1);
        assert(items.subrange(0, count - 1).push(items[count - 1]) =~= items.subrange(0, count));
    } else {
        assert(items.subrange(0, 0) =~= Seq::<T>::empty());
    }
}

impl<T, E> ItemSource for VecSource<T, E> {
    type Item = T;

    type Error = E;

    closed spec fn pending(&self) -> Seq<Result<T, E>> {
        self.rest@.reverse()
    }

    fn next(&mut self) -> (item: Option<Result<T, E>>) {
        let ghost before = self.rest@;
        let item = self.rest.pop();
        proof {
            if before.len() > 0 {
                assert(before.reverse()[0] == before[before.len() - 1]);
                assert(self.rest@.reverse() =~= before.reverse().skip(1));
            }
        }
        item
    }
}

/// The items that the first `count` things of `pending` are, where none of
/// them is a failure.
pub open spec fn items_of<T, E>(pending: Seq<Result<T, E>>, count: int) -> Seq<T>
    decreases count,
{
    if count <= 0 {
        Seq::empty()
    } else {
        items_of(pending, count - 1).push(pending[count - 1]->Ok_0)
    }
}

/// The first `count` things of `pending` are items.
pub open spec fn all_items<T, E>(pending: Seq<Result<T, E>>, count: int) -> bool {
    forall|i: int| 0 <= i < count ==> (#[trigger] pending[i]) is Ok
}

/// The smaller of `a` and `b`.
pub open spec fn least(a: int, b: int) -> int {
    if a <= b {
        a
    } else {
        b
    }
}

/// Where the first item stands that a block over `interval` items takes
/// for itself: a block over more items than it holds leaves the items
/// before it to the block below.
pub open spec fn first_mark(interval: int, block_size: int) -> int {
    if interval > block_size {
        interval - (interval / block_size) * (block_size - 1) - 1
    } else {
        0
    }
}

/// How far apart the items stand that a block over `interval` items takes
/// for itself.
pub open spec fn mark_step(interval: int, block_size: int) -> int {
    if interval > block_size {
        interval / block_size
    } else {
        1
    }
}

/// How many items a block over `interval` items takes for itself where the
/// source gives `given` items: those of its marks that stand among the
/// items that are given.
pub open spec fn marks(interval: int, block_size: int, given: int) -> int {
    let most = least(given, interval);
    if most <= first_mark(interval, block_size) {
        0
    } else {
        (most - 1 - first_mark(interval, block_size)) / mark_step(interval, block_size) + 1
    }
}

/// How many of the `given` items stay in the tree of a block over
/// `interval` items: those up to the last of the block's own. The items
/// behind it went into a block that no item refers to.
pub open spec fn stay(interval: int, block_size: int, given: int) -> int {
    if marks(interval, block_size, given) == 0 {
        0
    } else {
        first_mark(interval, block_size) + (marks(interval, block_size, given) - 1) * mark_step(
            interval,
            block_size,
        ) + 1
    }
}

/// The marks of a block stand within its items, a block has no more marks
/// than it can hold, and where all its items are given they all stay.
pub proof fn lemma_marks(interval: int, block_size: int, given: int)
    requires
        0 <= interval,
        1 <= block_size,
        0 <= given,
    ensures
        0 <= first_mark(interval, block_size) < interval || interval == 0,
        1 <= mark_step(interval, block_size),
        0 <= marks(interval, block_size, given) <= least(interval, block_size),
        0 <= stay(interval, block_size, given) <= least(given, interval),
        given >= interval ==> stay(interval, block_size, given) == interval && marks(
            interval,
            block_size,
            given,
        ) == least(interval, block_size),
{
    let start = first_mark(interval, block_size);
    let step = mark_step(interval, block_size);
    let most = least(given, interval);
    if interval > block_size {
        let q = interval / block_size;
        vstd::arithmetic::div_mod::lemma_fundamental_div_mod(interval, block_size);
        vstd::arithmetic::div_mod::lemma_mod_bound(interval, block_size);
        assert(q >= 1 && q * (block_size - 1) <= interval - q) by (nonlinear_arith)
            requires
                interval == block_size * q + interval % block_size,
                0 <= interval % block_size < block_size,
                interval > block_size,
                block_size >= 1,
        ;
        assert(interval - 1 - start == q * (block_size - 1));
    } else {
        assert(interval - 1 - start == interval - 1);
    }
    if most > start {
        let d = most - 1 - start;
        let m = d / step;
        vstd::arithmetic::div_mod::lemma_fundamental_div_mod(d, step);
        vstd::arithmetic::div_mod::lemma_mod_bound(d, step);
        assert(m >= 0 && m * step <= d) by (nonlinear_arith)
            requires
                d == step * m + d % step,
                0 <= d % step < step,
                d >= 0,
                step >= 1,
        ;
        if interval > block_size {
            let q = interval / block_size;
            assert(m <= block_size - 1) by (nonlinear_arith)
                requires
                    m * q <= d,
                    d <= q * (block_size - 1),
                    q >= 1,
            ;
            if given >= interval {
                assert(d == q * (block_size - 1));
                vstd::arithmetic::div_mod::lemma_fundamental_div_mod_converse(
                    d,
                    q,
                    block_size - 1,
                    0,
                );
            }
        } else {
            assert(m == d) by (nonlinear_arith)
                requires
                    d == step * m + d % step,
                    0 <= d % step < step,
                    step == 1,
            ;
        }
    }
}

/// The items that stay tell how many of them are the block's own.
pub proof fn lemma_stay_marks(interval: int, block_size: int, given: int, own: int)
    requires
        0 <= interval,
        1 <= block_size,
        0 <= given,
        0 <= own,
        stay(interval, block_size, given) == if own == 0 {
            0
        } else {
            first_mark(interval, block_size) + (own - 1) * mark_step(interval, block_size) + 1
        },
    ensures
        own == marks(interval, block_size, given),
{
    lemma_marks(interval, block_size, given);
    let first = first_mark(interval, block_size);
    let step = mark_step(interval, block_size);
    let m = marks(interval, block_size, given);
    if interval == 0 {
        if own >= 1 {
            assert((own - 1) * step >= 0) by (nonlinear_arith)
                requires
                    own >= 1,
                    step >= 1,
            ;
        }
    } else if m == 0 {
        if own >= 1 {
            assert((own - 1) * step >= 0) by (nonlinear_arith)
                requires
                    own >= 1,
                    step >= 1,
            ;
        }
    } else {
        assert((m - 1) * step >= 0) by (nonlinear_arith)
            requires
                m >= 1,
                step >= 1,
        ;
        if own >= 1 {
            assert(own == m) by (nonlinear_arith)
                requires
                    (own - 1) * step == (m - 1) * step,
                    step >= 1,
            ;
        }
    }
}

/// Where `given` items end between two marks of a block, or before its
/// first, the block has taken the marks before them for itself.
pub proof fn lemma_marks_between(interval: int, block_size: int, given: int, taken: int)
    requires
        0 <= interval,
        1 <= block_size,
        0 <= taken,
        0 <= given < interval,
        taken == 0 ==> 0 <= given <= first_mark(interval, block_size),
        taken >= 1 ==> first_mark(interval, block_size) + (taken - 1) * mark_step(
            interval,
            block_size,
        ) + 1 <= given <= first_mark(interval, block_size) + taken * mark_step(
            interval,
            block_size,
        ),
    ensures
        marks(interval, block_size, given) == taken,
{
    lemma_marks(interval, block_size, given);
    let start = first_mark(interval, block_size);
    let step = mark_step(interval, block_size);
    if taken >= 1 {
        let d = given - 1 - start;
        let r = d - (taken - 1) * step;
        assert(0 <= r < step) by (nonlinear_arith)
            requires
                r == given - 1 - start - (taken - 1) * step,
                start + (taken - 1) * step + 1 <= given <= start + taken * step,
        ;
        assert(d == step * (taken - 1) + r) by (nonlinear_arith)
            requires
                r == d - (taken - 1) * step,
        ;
        vstd::arithmetic::div_mod::lemma_fundamental_div_mod_converse(d, step, taken - 1, r);
    }
}

/// What a builder has done that was to take `wanted` items from a source
/// that had `pending` to give and has `rest` left, for blocks of
/// `block_size`: it has taken the items, as many as were wanted or as there
/// were, and stored a tree that holds them in order, and has left what the
/// writer had stored before as it was; or it has met the source's first
/// failure among them; or the writer has failed. Where the source had fewer
/// items than were wanted, the tree holds those that `stay`: the items
/// behind the last one that the root block has taken for itself are
/// missing.
pub open spec fn built<W: NTreeWriter, E>(
    result: Result<W::Position, BuildError<E, W::Error>>,
    wanted: int,
    block_size: int,
    pending: Seq<Result<W::Item, E>>,
    rest: Seq<Result<W::Item, E>>,
    before: W,
    after: W,
) -> bool {
    let count = least(wanted, pending.len() as int);
    match result {
        Ok(position) => {
            &&& all_items(pending, count)
            &&& rest == pending.skip(count)
            &&& persists(before, after)
            &&& after.known(position)
            &&& after.items_at(position) == items_of(
                pending,
                stay(wanted, block_size, pending.len() as int),
            )
            &&& after.width_at(position) == marks(wanted, block_size, pending.len() as int)
        },
        Err(BuildError::Iter(error)) => exists|at: int|
            0 <= at < count && all_items(pending, at) && #[trigger] pending[at] == Err::<
                W::Item,
                E,
            >(error),
        Err(BuildError::NTree(_)) => true,
    }
}

/// Joining the items of two runs.
pub proof fn lemma_items_of_join<T, E>(pending: Seq<Result<T, E>>, first: int, second: int)
    requires
        0 <= first,
        0 <= second,
        first + second <= pending.len(),
    ensures
        items_of(pending, first) + items_of(pending.skip(first), second) == items_of(
            pending,
            first + second,
        ),
    decreases second,
{
    if second == 0 {
        assert(items_of(pending, first) + Seq::<T>::empty() =~= items_of(pending, first));
    } else {
        lemma_items_of_join(pending, first, second - 1);
        assert(pending.skip(first)[second - 1] == pending[first + second - 1]);
        assert(items_of(pending, first) + items_of(pending.skip(first), second - 1).push(
            pending[first + second - 1]->Ok_0,
        ) =~= (items_of(pending, first) + items_of(pending.skip(first), second - 1)).push(
            pending[first + second - 1]->Ok_0,
        ));
    }
}

/// Builds the block that indexes the items from `block_start` up to
/// `block_end`, with the blocks below it, and says where it lies. The items
/// come from `src` in order. The block takes for itself the items at its
/// marks, which are evenly spaced and of which the last is the last item
/// of the range: no more than `block_size`, and as many where the range
/// has as many. Each of them has below it the block of the items between
/// it and the mark before. Where the source ends before the range does,
/// the items behind the last mark that it gave are in a block below that
/// no item refers to.
pub fn build_block<W: NTreeWriter, S: ItemSource<Item = W::Item>>(
    src: &mut S,
    block_start: usize,
    block_end: usize,
    block_size: usize,
    dst: &mut W,
) -> (result: Result<W::Position, BuildError<S::Error, W::Error>>)
    requires
        block_start <= block_end,
        block_size >= 1,
    ensures
        built(
            result,
            block_end - block_start,
            block_size as int,
            old(src).pending(),
            final(src).pending(),
            *old(dst),
            *final(dst),
        ),
        W::unfailing() ==> !(result matches Err(BuildError::NTree(_))),
    decreases block_end - block_start,
{
    let interval = block_end - block_start;
    let ghost pending = src.pending();
    let ghost before = *dst;
    let ghost count = least(interval as int, pending.len() as int);
    let mut index_start: usize = 0;
    let mut index_inc: usize = 1;
    if interval > block_size {
        let quotient = interval / block_size;
        proof {
            vstd::arithmetic::div_mod::lemma_fundamental_div_mod(
                interval as int,
                block_size as int,
            );
            vstd::arithmetic::div_mod::lemma_mod_bound(interval as int, block_size as int);
            assert(quotient * (block_size - 1) <= interval - quotient) by (nonlinear_arith)
                requires
                    interval == block_size * quotient + interval % block_size,
                    0 <= interval % block_size,
                    quotient >= 0,
                    block_size >= 1,
            ;
            assert(quotient >= 1) by (nonlinear_arith)
                requires
                    interval == block_size * quotient + interval % block_size,
                    interval % block_size < block_size,
                    interval > block_size,
                    block_size >= 1,
            ;
        }
        index_start = interval - quotient * (block_size - 1) - 1;
        index_inc = quotient;
    }
    let mut block = match dst.make_block() {
        Ok(block) => block,
        Err(error) => {
            return Err(BuildError::NTree(error));
        },
    };
    let mut node_block_start = block_start;
    let mut node_block_end = block_start + index_start;
    let ghost mut taken: int = 0;
    let ghost mut kept: int = 0;
    let ghost mut own: int = 0;
    let ghost first = first_mark(interval as int, block_size as int);
    let ghost step = mark_step(interval as int, block_size as int);
    proof {
        lemma_marks(interval as int, block_size as int, pending.len() as int);
        assert(index_start == first);
        assert(index_inc == step);
        assert(0 * step == 0) by (nonlinear_arith);
    }
    let ghost mut steps: int = if interval > block_size {
        block_size - 1
    } else {
        interval - 1
    };
    proof {
        assert(pending.skip(0) =~= pending);
        assert(dst.items_in(block) =~= items_of(pending, 0));
        if interval > block_size {
            assert(steps * index_inc == index_inc * (block_size - 1)) by (nonlinear_arith)
                requires
                    steps == block_size - 1,
            ;
        } else {
            assert(steps * index_inc == steps) by (nonlinear_arith)
                requires
                    index_inc == 1,
            ;
        }
    }
    while node_block_end < block_end
        invariant_except_break
            block_start <= node_block_start <= node_block_end <= block_end,
            node_block_end < block_end ==> {
                &&& steps >= 0
                &&& block_end - 1 - node_block_end == steps * index_inc
                &&& node_block_end - node_block_start < interval
            },
            node_block_end == block_end ==> node_block_start == block_end,
            taken == least(node_block_start - block_start, pending.len() as int),
            node_block_start - block_start <= pending.len(),
            kept == taken,
            kept == node_block_start - block_start,
            node_block_end < block_end ==> node_block_end - block_start == first + own * step,
        invariant
            first == first_mark(interval as int, block_size as int),
            step == mark_step(interval as int, block_size as int),
            index_inc == step,
            pending.len() >= interval ==> stay(
                interval as int,
                block_size as int,
                pending.len() as int,
            ) == interval,
            marks(interval as int, block_size as int, pending.len() as int) >= 0,
            own >= 0,
            kept == if own == 0 {
                0
            } else {
                first + (own - 1) * step + 1
            },
            index_inc >= 1,
            block_size >= 1,
            interval == block_end - block_start,
            pending == old(src).pending(),
            before == *old(dst),
            count == least(interval as int, pending.len() as int),
            0 <= kept <= taken <= count,
            all_items(pending, taken),
            persists(before, *dst),
            dst.sound(block),
            dst.items_in(block) == items_of(pending, kept),
            dst.width_in(block) == own,
            src.pending() == pending.skip(taken),
        ensures
            taken == count,
            kept == stay(interval as int, block_size as int, pending.len() as int),
        decreases block_end - node_block_end,
    {
        let ghost at_child = src.pending();
        let ghost at_loop = *dst;
        let ghost wanted = node_block_end - node_block_start;
        let child_block_pos = if node_block_start < node_block_end {
            match build_block(src, node_block_start, node_block_end, block_size, dst) {
                Ok(position) => position,
                Err(error) => {
                    let ghost failure = error;
                    proof {
                        if let BuildError::Iter(e) = failure {
                            let at = choose|at: int|
                                0 <= at < least(wanted, at_child.len() as int) && all_items(
                                    at_child,
                                    at,
                                ) && #[trigger] at_child[at] == Err::<W::Item, S::Error>(e);
                            assert(pending[taken + at] == at_child[at]);
                            assert forall|i: int| 0 <= i < taken + at implies (
                            #[trigger] pending[i]) is Ok by {
                                if i >= taken {
                                    assert(at_child[i - taken] == pending[i]);
                                }
                            }
                        }
                    }
                    return Err(error);
                },
            }
        } else {
            dst.empty_pos()
        };
        let ghost below = least(wanted, at_child.len() as int);
        let ghost below_kept = if node_block_start < node_block_end {
            stay(wanted as int, block_size as int, at_child.len() as int)
        } else {
            0
        };
        proof {
            lemma_marks(wanted as int, block_size as int, at_child.len() as int);
        }
        proof {
            assert forall|i: int| 0 <= i < taken + below implies (#[trigger] pending[i]) is Ok by {
                if i >= taken {
                    assert(at_child[i - taken] == pending[i]);
                }
            }
            if node_block_start < node_block_end {
                assert(pending.skip(taken).skip(below) =~= pending.skip(taken + below));
                lemma_persists_on(before, at_loop, *dst);
                assert(at_loop.sound(block));
            } else {
                assert(pending.skip(taken).skip(0) =~= pending.skip(taken));
                assert(items_of(at_child, 0) =~= Seq::<W::Item>::empty());
                assert(dst.items_at(child_block_pos) =~= items_of(at_child, 0));
            }
            taken = taken + below;
        }
        let ghost at_item = *dst;
        match src.next() {
            Some(Ok(item)) => {
                proof {
                    assert(pending[taken] == Ok::<S::Item, S::Error>(item));
                    assert(below == wanted);
                    assert(below_kept == below);
                    lemma_items_of_join(pending, kept, below);
                    assert(dst.items_in(block) + dst.items_at(child_block_pos) =~= items_of(
                        pending,
                        taken,
                    ));
                }
                match dst.write_item(&mut block, item, child_block_pos) {
                    Ok(()) => {},
                    Err(error) => {
                        return Err(BuildError::NTree(error));
                    },
                }
                proof {
                    assert(pending.skip(taken).skip(1) =~= pending.skip(taken + 1));
                    lemma_persists_on(before, at_item, *dst);
                    assert(dst.items_in(block) =~= items_of(pending, taken + 1));
                    taken = taken + 1;
                    kept = taken;
                    assert((own + 1 - 1) * step == own * step);
                    assert((own + 1) * step == own * step + step) by (nonlinear_arith);
                    own = own + 1;
                }
            },
            Some(Err(error)) => {
                proof {
                    assert(pending[taken] == Err::<S::Item, S::Error>(error));
                }
                return Err(BuildError::Iter(error));
            },
            None => {
                proof {
                    assert(taken == pending.len());
                    assert(taken == count);
                    lemma_marks_between(
                        interval as int,
                        block_size as int,
                        pending.len() as int,
                        own,
                    );
                }
                break ;
            },
        }
        proof {
            assert((steps - 1) * index_inc == steps * index_inc - index_inc) by (nonlinear_arith);
            if steps >= 1 {
                assert(steps * index_inc >= index_inc) by (nonlinear_arith)
                    requires
                        steps >= 1,
                        index_inc >= 1,
                ;
            } else {
                assert(steps * index_inc == 0) by (nonlinear_arith)
                    requires
                        steps == 0,
                ;
            }
            steps = steps - 1;
        }
        node_block_start = node_block_end + 1;
        node_block_end = if index_inc >= block_end - node_block_end {
            block_end
        } else {
            node_block_end + index_inc
        };
    }
    proof {
        lemma_stay_marks(interval as int, block_size as int, pending.len() as int, own);
    }
    let ghost at_flush = *dst;
    match dst.flush_block(block) {
        Ok(position) => {
            proof {
                lemma_persists_on(before, at_flush, *dst);
                assert(dst.items_at(position) == items_of(pending, kept));
            }
            Ok(position)
        },
        Err(error) => Err(BuildError::NTree(error)),
    }
}

/// Builds the tree of the first `src_len` items of `src` into `dst`, with
/// blocks of about `index_block_size` items, and completes it.
pub fn build<W: NTreeWriter, S: ItemSource<Item = W::Item>>(
    dst: W,
    src: &mut S,
    src_len: usize,
    index_block_size: usize,
) -> (result: Result<W::Result, BuildError<S::Error, W::Error>>)
    requires
        index_block_size >= 1,
    ensures
        match result {
            Ok(tree) => {
                let count = least(src_len as int, old(src).pending().len() as int);
                &&& all_items(old(src).pending(), count)
                &&& final(src).pending() == old(src).pending().skip(count)
                &&& W::items_of_result(tree) == items_of(
                    old(src).pending(),
                    stay(src_len as int, index_block_size as int, old(src).pending().len() as int),
                )
            },
            Err(BuildError::Iter(error)) => exists|at: int|
                0 <= at < least(src_len as int, old(src).pending().len() as int) && all_items(
                    old(src).pending(),
                    at,
                ) && #[trigger] old(src).pending()[at] == Err::<S::Item, S::Error>(error),
            Err(BuildError::NTree(_)) => !W::unfailing(),
        },
{
    let mut dst = dst;
    let root_block_pos = match build_block(src, 0, src_len, index_block_size, &mut dst) {
        Ok(position) => position,
        Err(error) => {
            return Err(error);
        },
    };
    match dst.finish(root_block_pos) {
        Ok(result) => Ok(result),
        Err(error) => Err(BuildError::NTree(error)),
    }
}

} // verus!
