//! Reading a tree through cursors: lookups of many keys at once, and walks
//! over all its items.
//!
//! `Reader` is the one interface through which a tree is read: a cursor
//! stands on an item, `advance` moves it along the block and `jump` takes
//! it down to the block below. Lookups and walks are written against it and
//! against nothing else, so a store of blocks that can load a block and
//! step through it has only this trait to implement.

use vstd::prelude::*;

verus! {

/// Where a key lies with respect to an item.
#[derive(Clone, Copy, PartialEq, Eq, Debug)]
pub enum Place {
    /// The key is smaller than the item's.
    Before,
    /// The key is the item's.
    At,
    /// The key is larger than the item's.
    After,
}

/// A key that can be held against the items of a tree.
pub trait Probe<Item> {
    /// Where the key lies with respect to `item`.
    open spec fn place(&self, item: &Item) -> Place {
        arbitrary()
    }

    /// Holds the key against `item`.
    fn probe(&self, item: &Item) -> (place: Place)
        ensures
            place == self.place(item),
    ;
}

/// Where the number `key` lies with respect to the number `item`.
pub open spec fn place_of(key: int, item: int) -> Place {
    if key < item {
        Place::Before
    } else if key == item {
        Place::At
    } else {
        Place::After
    }
}

/// A number is a key of an item that is a number.
impl Probe<u64> for u64 {
    open spec fn place(&self, item: &u64) -> Place {
        place_of(*self as int, *item as int)
    }

    fn probe(&self, item: &u64) -> (place: Place) {
        if *self < *item {
            Place::Before
        } else if *self == *item {
            Place::At
        } else {
            Place::After
        }
    }
}

/// A number is a key of an item that is a number.
impl Probe<u32> for u32 {
    open spec fn place(&self, item: &u32) -> Place {
        place_of(*self as int, *item as int)
    }

    fn probe(&self, item: &u32) -> (place: Place) {
        if *self < *item {
            Place::Before
        } else if *self == *item {
            Place::At
        } else {
            Place::After
        }
    }
}

/// A number is a key of an item that is a number.
impl Probe<usize> for usize {
    open spec fn place(&self, item: &usize) -> Place {
        place_of(*self as int, *item as int)
    }

    fn probe(&self, item: &usize) -> (place: Place) {
        if *self < *item {
            Place::Before
        } else if *self == *item {
            Place::At
        } else {
            Place::After
        }
    }
}

/// A tree as its reader sees it: a cursor stands on an item, and leads to the
/// next item of the same block and to the first item of the block below.
#[verifier::reject_recursive_types(C)]
#[verifier::reject_recursive_types(I)]
pub struct Shape<C, I> {
    /// The cursor on the first item of the root block, if the tree has items.
    pub root: Option<C>,
    /// The item that each cursor stands on.
    pub items: Map<C, I>,
    /// The cursor on the next item of the same block.
    pub next: Map<C, C>,
    /// The cursor on the first item of the block below the item.
    pub down: Map<C, C>,
    /// A number that falls along `next` and `down`.
    pub rank: Map<C, nat>,
    /// Where the item lies in storage.
    pub position: Map<C, nat>,
}

impl<C, I> Shape<C, I> {
    /// `cursor` stands on an item.
    pub open spec fn holds(self, cursor: C) -> bool {
        self.items.dom().contains(cursor)
    }

    /// The cursor on the next item of the same block, if there is one.
    pub open spec fn sibling(self, cursor: C) -> Option<C> {
        if self.next.dom().contains(cursor) {
            Some(self.next[cursor])
        } else {
            None
        }
    }

    /// The cursor on the first item of the block below, if there is one.
    pub open spec fn child(self, cursor: C) -> Option<C> {
        if self.down.dom().contains(cursor) {
            Some(self.down[cursor])
        } else {
            None
        }
    }

    /// Cursors lead to cursors that stand on items, and the rank falls along
    /// the way, so that every way ends.
    pub open spec fn wf(self) -> bool {
        &&& self.root matches Some(root) ==> self.holds(root)
        &&& forall|c: C| #[trigger]
            self.holds(c) ==> {
                &&& self.sibling(c) matches Some(n) ==> self.holds(n) && self.rank[n]
                    < self.rank[c]
                &&& self.child(c) matches Some(n) ==> self.holds(n) && self.rank[n] < self.rank[c]
            }
    }

    /// How far the ways from `from` can lead.
    pub open spec fn height(self, from: Option<C>) -> nat {
        match from {
            Some(c) => if self.holds(c) {
                self.rank[c] + 1
            } else {
                0
            },
            None => 0,
        }
    }

    /// The items from `from` on in order: for each item of the block, what
    /// lies below it, then the item itself.
    pub open spec fn in_order(self, from: Option<C>) -> Seq<I>
        decreases self.height(from),
        when self.wf()
    {
        match from {
            Some(c) => if self.holds(c) {
                self.in_order(self.child(c)) + seq![self.items[c]] + self.in_order(
                    self.sibling(c),
                )
            } else {
                Seq::empty()
            },
            None => Seq::empty(),
        }
    }

    /// The cursor on which a lookup of `key` from `from` ends, if it finds
    /// the key: it goes down where the key is smaller than the item, and on
    /// along the block where it is larger.
    pub open spec fn search<Q: Probe<I>>(self, from: Option<C>, key: &Q) -> Option<C>
        decreases self.height(from),
        when self.wf()
    {
        match from {
            Some(c) => if self.holds(c) {
                match key.place(&self.items[c]) {
                    Place::At => Some(c),
                    Place::Before => self.search(self.child(c), key),
                    Place::After => self.search(self.sibling(c), key),
                }
            } else {
                None
            },
            None => None,
        }
    }
}

/// A lookup that stands on an item ends there, or goes on from the block
/// below or from the next item.
pub proof fn lemma_search_step<C, I, Q: Probe<I>>(shape: Shape<C, I>, cursor: C, key: &Q)
    requires
        shape.wf(),
        shape.holds(cursor),
    ensures
        shape.search(Some(cursor), key) == match key.place(&shape.items[cursor]) {
            Place::At => Some(cursor),
            Place::Before => shape.search(shape.child(cursor), key),
            Place::After => shape.search(shape.sibling(cursor), key),
        },
        shape.search(None, key) is None,
{
}

/// What a tree must offer to be read.
pub trait Reader {
    type Item;

    type Error;

    type Cursor: Copy;

    /// The tree that is read.
    open spec fn shape(&self) -> Shape<Self::Cursor, Self::Item> {
        arbitrary()
    }

    /// The reader never fails.
    open spec fn reliable() -> bool {
        false
    }

    /// The cursor on the first item of the root block; none in an empty
    /// tree. A tree that can be entered is well-formed.
    fn root(&self) -> (root: Result<Option<Self::Cursor>, Self::Error>)
        ensures
            root matches Ok(cursor) ==> cursor == self.shape().root && self.shape().wf(),
            Self::reliable() ==> root is Ok,
    ;

    /// The item that `cursor` stands on.
    fn access<'a>(&'a self, cursor: &Self::Cursor) -> (item: &'a Self::Item)
        requires
            self.shape().holds(*cursor),
        ensures
            *item == self.shape().items[*cursor],
    ;

    /// Moves on to the next item of the same block; none behind the last.
    fn advance(&mut self, cursor: Self::Cursor) -> (next: Result<
        Option<Self::Cursor>,
        Self::Error,
    >)
        requires
            old(self).shape().holds(cursor),
        ensures
            final(self).shape() == old(self).shape(),
            next matches Ok(n) ==> n == old(self).shape().sibling(cursor),
            Self::reliable() ==> next is Ok,
    ;

    /// Goes down to the first item of the block below the item; none where
    /// the item has no block below it.
    fn jump(&mut self, cursor: Self::Cursor) -> (next: Result<Option<Self::Cursor>, Self::Error>)
        requires
            old(self).shape().holds(cursor),
        ensures
            final(self).shape() == old(self).shape(),
            next matches Ok(n) ==> n == old(self).shape().child(cursor),
            Self::reliable() ==> next is Ok,
    ;

    /// Whether `a` lies before `b` in storage.
    fn precedes(&self, a: &Self::Cursor, b: &Self::Cursor) -> (before: bool)
        requires
            self.shape().holds(*a),
            self.shape().holds(*b),
        ensures
            before == (self.shape().position[*a] < self.shape().position[*b]),
    ;
}

/// A key on its way through the tree.
pub struct Pos<C, Q> {
    pub cursor: C,
    pub key: Q,
}

/// The keys of `queue` that their lookups find, each with the cursor on
/// which its lookup ends, in the order of the queue.
pub open spec fn found<'q, C, I, Q: Probe<I>>(shape: Shape<C, I>, queue: Seq<Pos<C, &'q Q>>) -> Seq<
    (&'q Q, C),
>
    decreases queue.len(),
{
    if queue.len() == 0 {
        Seq::empty()
    } else {
        let front = found(shape, queue.drop_last());
        match shape.search(Some(queue.last().cursor), queue.last().key) {
            Some(hit) => front.push((queue.last().key, hit)),
            None => front,
        }
    }
}

/// How many steps the lookups of `queue` can still take.
pub open spec fn queue_height<C, I, Q>(shape: Shape<C, I>, queue: Seq<Pos<C, Q>>) -> nat
    decreases queue.len(),
{
    if queue.len() == 0 {
        0
    } else {
        queue_height(shape, queue.drop_last()) + shape.height(Some(queue.last().cursor))
    }
}

/// Replacing an entry changes the height by the difference of the entries'.
pub proof fn lemma_queue_height_update<C, I, Q>(
    shape: Shape<C, I>,
    queue: Seq<Pos<C, Q>>,
    at: int,
    pos: Pos<C, Q>,
)
    requires
        0 <= at < queue.len(),
    ensures
        queue_height(shape, queue.update(at, pos)) == queue_height(shape, queue) - shape.height(
            Some(queue[at].cursor),
        ) + shape.height(Some(pos.cursor)),
        queue_height(shape, queue.remove(at)) == queue_height(shape, queue) - shape.height(
            Some(queue[at].cursor),
        ),
    decreases queue.len(),
{
    let updated = queue.update(at, pos);
    let removed = queue.remove(at);
    if at == queue.len() - 1 {
        assert(updated.drop_last() =~= queue.drop_last());
        assert(removed =~= queue.drop_last());
    } else {
        lemma_queue_height_update(shape, queue.drop_last(), at, pos);
        assert(updated.drop_last() =~= queue.drop_last().update(at, pos));
        assert(removed.drop_last() =~= queue.drop_last().remove(at));
        assert(removed.last() == queue.last());
    }
}

/// An entry that takes a step of its lookup is found where it was found
/// before; one whose lookup has ended without a hit is not missed.
pub proof fn lemma_found_update<'q, C, I, Q: Probe<I>>(
    shape: Shape<C, I>,
    queue: Seq<Pos<C, &'q Q>>,
    at: int,
    pos: Pos<C, &'q Q>,
)
    requires
        0 <= at < queue.len(),
        pos.key == queue[at].key,
    ensures
        shape.search(Some(pos.cursor), pos.key) == shape.search(
            Some(queue[at].cursor),
            queue[at].key,
        ) ==> found(shape, queue.update(at, pos)) == found(shape, queue),
        shape.search(Some(queue[at].cursor), queue[at].key) is None ==> found(
            shape,
            queue.remove(at),
        ) == found(shape, queue),
    decreases queue.len(),
{
    let updated = queue.update(at, pos);
    let removed = queue.remove(at);
    if at == queue.len() - 1 {
        assert(updated.drop_last() =~= queue.drop_last());
        assert(removed =~= queue.drop_last());
    } else {
        lemma_found_update(shape, queue.drop_last(), at, pos);
        assert(updated.drop_last() =~= queue.drop_last().update(at, pos));
        assert(removed.drop_last() =~= queue.drop_last().remove(at));
        assert(removed.last() == queue.last());
    }
}

/// Taking out an entry whose lookup has hit takes its key out of the found
/// ones, and nothing else.
pub proof fn lemma_found_remove<'q, C, I, Q: Probe<I>>(
    shape: Shape<C, I>,
    queue: Seq<Pos<C, &'q Q>>,
    at: int,
) -> (j: int)
    requires
        0 <= at < queue.len(),
        shape.search(Some(queue[at].cursor), queue[at].key) is Some,
    ensures
        0 <= j < found(shape, queue).len(),
        found(shape, queue)[j] == (
            queue[at].key,
            shape.search(Some(queue[at].cursor), queue[at].key).unwrap(),
        ),
        found(shape, queue.remove(at)) == found(shape, queue).remove(j),
    decreases queue.len(),
{
    let removed = queue.remove(at);
    if at == queue.len() - 1 {
        assert(removed =~= queue.drop_last());
        let j = found(shape, queue.drop_last()).len() as int;
        assert(found(shape, queue).remove(j) =~= found(shape, queue.drop_last()));
        j
    } else {
        let j = lemma_found_remove(shape, queue.drop_last(), at);
        assert(removed.drop_last() =~= queue.drop_last().remove(at));
        assert(removed.last() == queue.last());
        let front = found(shape, queue.drop_last());
        match shape.search(Some(queue.last().cursor), queue.last().key) {
            Some(hit) => {
                assert(front.push((queue.last().key, hit)).remove(j) =~= front.remove(j).push(
                    (queue.last().key, hit),
                ));
            },
            None => {},
        }
        j
    }
}

/// The place in `queue` of the lookup that is served next: the first of
/// those that no other lies before in storage.
pub open spec fn served<C, I, K>(shape: Shape<C, I>, queue: Seq<Pos<C, K>>) -> int
    decreases queue.len(),
{
    if queue.len() <= 1 {
        0
    } else {
        let front = served(shape, queue.drop_last());
        if shape.position[queue.last().cursor] < shape.position[queue[front].cursor] {
            queue.len() - 1
        } else {
            front
        }
    }
}

/// The lookup that is served next is one of the queue, and none lies
/// before it in storage.
pub proof fn lemma_served<C, I, K>(shape: Shape<C, I>, queue: Seq<Pos<C, K>>)
    requires
        queue.len() > 0,
    ensures
        0 <= served(shape, queue) < queue.len(),
        forall|i: int|
            0 <= i < queue.len() ==> shape.position[queue[served(shape, queue)].cursor]
                <= shape.position[(#[trigger] queue[i]).cursor],
    decreases queue.len(),
{
    if queue.len() > 1 {
        lemma_served(shape, queue.drop_last());
        assert forall|i: int| 0 <= i < queue.len() implies shape.position[queue[served(
            shape,
            queue,
        )].cursor] <= shape.position[(#[trigger] queue[i]).cursor] by {
            if i < queue.len() - 1 {
                assert(queue.drop_last()[i] == queue[i]);
            }
        }
    }
}

/// Where the key of the lookup that is served next lies with respect to
/// the item at which the lookup stands.
pub open spec fn examined<'q, C, I, Q: Probe<I>>(shape: Shape<C, I>, queue: Seq<Pos<C, &'q Q>>) -> Place {
    let pos = queue[served(shape, queue)];
    pos.key.place(&shape.items[pos.cursor])
}

/// The queue once the lookup that is served next has taken a step without
/// a hit: a smaller key goes down to the block below the item, a larger
/// one on to the next item, and the lookup takes the place that it had in
/// the queue; where there is nothing to go to, it leaves the queue.
pub open spec fn moved<'q, C, I, Q: Probe<I>>(shape: Shape<C, I>, queue: Seq<Pos<C, &'q Q>>) -> Seq<
    Pos<C, &'q Q>,
> {
    let at = served(shape, queue);
    let pos = queue[at];
    let to = match examined(shape, queue) {
        Place::Before => shape.child(pos.cursor),
        Place::After => shape.sibling(pos.cursor),
        Place::At => None,
    };
    match to {
        Some(cursor) => queue.update(at, Pos { cursor, key: pos.key }),
        None => queue.remove(at),
    }
}

/// The queue after `turns` steps without a hit.
pub open spec fn after_turns<'q, C, I, Q: Probe<I>>(
    shape: Shape<C, I>,
    queue: Seq<Pos<C, &'q Q>>,
    turns: nat,
) -> Seq<Pos<C, &'q Q>>
    decreases turns,
{
    if turns == 0 {
        queue
    } else {
        moved(shape, after_turns(shape, queue, (turns - 1) as nat))
    }
}

/// The first `turns` steps from `queue` on are all without a hit: each
/// time a lookup is under way, and the one that is served does not stand on
/// its key.
pub open spec fn misses<'q, C, I, Q: Probe<I>>(
    shape: Shape<C, I>,
    queue: Seq<Pos<C, &'q Q>>,
    turns: nat,
) -> bool {
    forall|k: nat|
        k < turns ==> (#[trigger] after_turns(shape, queue, k)).len() > 0 && !(examined(
            shape,
            after_turns(shape, queue, k),
        ) is At)
}

/// The lookups of `queue` end at once: with the hit `hit` of the lookup
/// that is served next, which leaves the queue `after` behind; or without
/// one, when no lookup is under way any more.
pub open spec fn ends<'q, C, I, Q: Probe<I>>(
    shape: Shape<C, I>,
    queue: Seq<Pos<C, &'q Q>>,
    hit: Option<(&'q Q, I)>,
    after: Seq<Pos<C, &'q Q>>,
) -> bool {
    match hit {
        Some((key, item)) => {
            &&& queue.len() > 0
            &&& examined(shape, queue) is At
            &&& key == queue[served(shape, queue)].key
            &&& item == shape.items[queue[served(shape, queue)].cursor]
            &&& after == queue.remove(served(shape, queue))
        },
        None => queue.len() == 0 && after.len() == 0,
    }
}

/// The lookups of a batch of keys, served in the order in which the items
/// that they look at lie in storage.
pub struct LookupBatch<'r, 'q, R: Reader, Q> {
    tree_reader: &'r mut R,
    queue: Vec<Pos<R::Cursor, &'q Q>>,
}

impl<'r, 'q, R: Reader, Q: Probe<R::Item>> LookupBatch<'r, 'q, R, Q> {
    /// The tree that the batch reads.
    pub closed spec fn shape(&self) -> Shape<R::Cursor, R::Item> {
        self.tree_reader.shape()
    }

    /// The lookups that are under way, each with the cursor that it has
    /// reached.
    pub closed spec fn queue(&self) -> Seq<Pos<R::Cursor, &'q Q>> {
        self.queue@
    }

    /// Every lookup stands on an item of a well-formed tree.
    pub open spec fn wf(&self) -> bool {
        &&& self.queue().len() > 0 ==> self.shape().wf()
        &&& forall|i: int|
            0 <= i < self.queue().len() ==> self.shape().holds((#[trigger] self.queue()[i]).cursor)
    }

    /// Starts the lookups of `keys` at the root. In an empty tree there is
    /// nothing to look at, and no lookup starts.
    pub fn new(tree_reader: &'r mut R, keys: Vec<&'q Q>) -> (result: Result<
        LookupBatch<'r, 'q, R, Q>,
        R::Error,
    >)
        ensures
            result matches Ok(batch) ==> {
                &&& batch.wf()
                &&& batch.shape() == old(tree_reader).shape()
                &&& match batch.shape().root {
                    Some(root) => batch.queue() == Seq::new(
                        keys@.len(),
                        |i: int| Pos { cursor: root, key: keys@[i] },
                    ),
                    None => batch.queue().len() == 0,
                }
            },
            R::reliable() ==> result is Ok,
            keys@.len() == 0 ==> result is Ok,
    {
        let mut queue: Vec<Pos<R::Cursor, &'q Q>> = Vec::new();
        let mut i: usize = 0;
        while i < keys.len()
            invariant
                i <= keys.len(),
                queue@.len() > 0 ==> tree_reader.shape().wf(),
                match tree_reader.shape().root {
                    Some(root) => queue@ == Seq::new(
                        i as nat,
                        |j: int| Pos { cursor: root, key: keys@[j] },
                    ),
                    None => queue@.len() == 0,
                },
            decreases keys.len() - i,
        {
            match tree_reader.root() {
                Ok(Some(cursor)) => {
                    let ghost before = queue@;
                    queue.push(Pos { cursor, key: keys[i] });
                    assert(queue@ =~= Seq::new(
                        (i + 1) as nat,
                        |j: int| Pos { cursor, key: keys@[j] },
                    ));
                },
                Ok(None) => {},
                Err(error) => {
                    return Err(error);
                },
            }
            i = i + 1;
        }
        Ok(LookupBatch { tree_reader, queue })
    }

    /// The place in the queue of a lookup that no other lies before in
    /// storage.
    fn first(&self) -> (at: usize)
        requires
            self.wf(),
            self.queue().len() > 0,
        ensures
            at < self.queue().len(),
            at == served(self.shape(), self.queue()),
            forall|i: int|
                0 <= i < self.queue().len() ==> self.shape().position[self.queue()[at as int].cursor]
                    <= self.shape().position[(#[trigger] self.queue()[i]).cursor],
    {
        let mut at: usize = 0;
        let mut i: usize = 1;
        proof {
            assert(self.queue().take(1).len() == 1);
        }
        while i < self.queue.len()
            invariant
                self.wf(),
                at < i <= self.queue.len(),
                at == served(self.shape(), self.queue().take(i as int)),
                forall|j: int|
                    0 <= j < i ==> self.shape().position[self.queue()[at as int].cursor]
                        <= self.shape().position[(#[trigger] self.queue()[j]).cursor],
            decreases self.queue.len() - i,
        {
            assert(self.shape().holds(self.queue()[i as int].cursor));
            assert(self.shape().holds(self.queue()[at as int].cursor));
            proof {
                let longer = self.queue().take(i + 1);
                assert(longer.drop_last() =~= self.queue().take(i as int));
                assert(longer.last() == self.queue()[i as int]);
                assert(longer[at as int] == self.queue()[at as int]);
            }
            if self.tree_reader.precedes(&self.queue[i].cursor, &self.queue[at].cursor) {
                at = i;
            }
            i = i + 1;
        }
        proof {
            assert(self.queue().take(self.queue().len() as int) =~= self.queue());
        }
        at
    }

    /// The next key that is found, with its item; none when every lookup has
    /// ended. Each time the lookup is served that `served` names, the first
    /// of those that stand first in storage: it is held against its item,
    /// and goes down, goes on or leaves the queue as `moved` says, until
    /// one stands on its key. So the item that is found lies before all
    /// the items at which the other lookups stand. A lookup that ends
    /// without a hit leaves no trace, and so does one that the reader
    /// fails.
    pub fn next<'s>(&'s mut self) -> (result: Result<Option<(&'q Q, &'s R::Item)>, R::Error>)
        requires
            old(self).wf(),
        ensures
            final(self).wf(),
            final(self).shape() == old(self).shape(),
            R::reliable() ==> result is Ok,
            old(self).queue().len() == 0 ==> result matches Ok(None),
            match result {
                Ok(Some((key, item))) => exists|turns: nat| #[trigger]
                    misses(old(self).shape(), old(self).queue(), turns) && ends(
                        old(self).shape(),
                        after_turns(old(self).shape(), old(self).queue(), turns),
                        Some((key, *item)),
                        final(self).queue(),
                    ),
                Ok(None) => exists|turns: nat| #[trigger]
                    misses(old(self).shape(), old(self).queue(), turns) && ends(
                        old(self).shape(),
                        after_turns(old(self).shape(), old(self).queue(), turns),
                        None,
                        final(self).queue(),
                    ),
                Err(_) => true,
            },
            match result {
                Ok(Some((key, item))) => exists|j: int|
                    {
                        &&& 0 <= j < found(old(self).shape(), old(self).queue()).len()
                        &&& (#[trigger] found(old(self).shape(), old(self).queue())[j]).0 == key
                        &&& *item == old(self).shape().items[found(
                            old(self).shape(),
                            old(self).queue(),
                        )[j].1]
                        &&& found(final(self).shape(), final(self).queue()) == found(
                            old(self).shape(),
                            old(self).queue(),
                        ).remove(j)
                        &&& forall|i: int|
                            0 <= i < final(self).queue().len() ==> old(self).shape().position[found(
                                old(self).shape(),
                                old(self).queue(),
                            )[j].1] <= old(self).shape().position[(#[trigger] final(self).queue()[i]).cursor]
                    },
                Ok(None) => {
                    &&& found(old(self).shape(), old(self).queue()).len() == 0
                    &&& final(self).queue().len() == 0
                },
                Err(_) => {
                    ||| found(final(self).shape(), final(self).queue()) == found(
                        old(self).shape(),
                        old(self).queue(),
                    )
                    ||| exists|j: int|
                        0 <= j < found(old(self).shape(), old(self).queue()).len() && found(
                            final(self).shape(),
                            final(self).queue(),
                        ) == #[trigger] found(old(self).shape(), old(self).queue()).remove(j)
                },
            },
    {
        let ghost shape = self.shape();
        let ghost hits = found(shape, self.queue());
        let ghost mut turns: nat = 0;
        loop
            invariant
                self.wf(),
                self.queue() == after_turns(shape, old(self).queue(), turns),
                misses(shape, old(self).queue(), turns),
                shape == old(self).shape(),
                hits == found(old(self).shape(), old(self).queue()),
                self.shape() == shape,
                found(shape, self.queue()) == hits,
                old(self).queue().len() == 0 ==> self.queue().len() == 0,
            decreases queue_height(shape, self.queue()) + self.queue().len(),
        {
            let ghost start = old(self).queue();
            if self.queue.len() == 0 {
                return Ok(None);
            }
            let at = self.first();
            let cursor = self.queue[at].cursor;
            let key = self.queue[at].key;
            let ghost queue = self.queue();
            assert(shape.holds(queue[at as int].cursor));
            let place = key.probe(self.tree_reader.access(&cursor));
            proof {
                lemma_queue_height_update(shape, queue, at as int, queue[at as int]);
                lemma_search_step(shape, cursor, key);
            }
            let gone = match place {
                Place::At => {
                    let ghost j = lemma_found_remove(shape, queue, at as int);
                    self.queue.remove(at);
                    assert(self.queue() =~= queue.remove(at as int));
                    assert forall|i: int| 0 <= i < self.queue().len() implies shape.position[cursor]
                        <= shape.position[(#[trigger] self.queue()[i]).cursor] by {
                        if i < at {
                            assert(self.queue()[i] == queue[i]);
                        } else {
                            assert(self.queue()[i] == queue[i + 1]);
                        }
                    }
                    assert(examined(shape, queue) is At);
                    let item = self.tree_reader.access(&cursor);
                    assert(ends(shape, queue, Some((key, *item)), self.queue()));
                    return Ok(Some((key, item)));
                },
                Place::Before => self.tree_reader.jump(cursor),
                Place::After => self.tree_reader.advance(cursor),
            };
            match gone {
                Ok(Some(cursor_next)) => {
                    proof {
                        lemma_found_update(
                            shape,
                            queue,
                            at as int,
                            Pos { cursor: cursor_next, key },
                        );
                        lemma_queue_height_update(
                            shape,
                            queue,
                            at as int,
                            Pos { cursor: cursor_next, key },
                        );
                    }
                    self.queue.set(at, Pos { cursor: cursor_next, key });
                    assert(self.queue() =~= queue.update(at as int, Pos { cursor: cursor_next, key }));
                    proof {
                        assert(self.queue() == moved(shape, queue));
                        assert(after_turns(shape, start, turns + 1) == moved(
                            shape,
                            after_turns(shape, start, turns),
                        ));
                        assert forall|k: nat| k < turns + 1 implies (#[trigger] after_turns(
                            shape,
                            start,
                            k,
                        )).len() > 0 && !(examined(shape, after_turns(shape, start, k)) is At) by {}
                        turns = turns + 1;
                    }
                },
                Ok(None) => {
                    proof {
                        lemma_found_update(shape, queue, at as int, queue[at as int]);
                    }
                    self.queue.remove(at);
                    assert(self.queue() =~= queue.remove(at as int));
                    proof {
                        assert(self.queue() == moved(shape, queue));
                        assert(after_turns(shape, start, turns + 1) == moved(
                            shape,
                            after_turns(shape, start, turns),
                        ));
                        assert forall|k: nat| k < turns + 1 implies (#[trigger] after_turns(
                            shape,
                            start,
                            k,
                        )).len() > 0 && !(examined(shape, after_turns(shape, start, k)) is At) by {}
                        turns = turns + 1;
                    }
                },
                Err(error) => {
                    proof {
                        if shape.search(Some(cursor), key) is Some {
                            let j = lemma_found_remove(shape, queue, at as int);
                        } else {
                            lemma_found_update(shape, queue, at as int, queue[at as int]);
                        }
                    }
                    self.queue.remove(at);
                    assert(self.queue() =~= queue.remove(at as int));
                    return Err(error);
                },
            }
        }
    }
}

/// The value of a place in the order in which a key meets the items of a
/// sorted sequence: the smaller ones first, then its own, then the larger.
pub open spec fn turn(place: Place) -> int {
    match place {
        Place::After => 0,
        Place::At => 1,
        Place::Before => 2,
    }
}

/// `items` are sorted as `key` sees them.
pub open spec fn sorted_for<I, Q: Probe<I>>(items: Seq<I>, key: &Q) -> bool {
    forall|i: int, j: int|
        0 <= i < j < items.len() ==> turn(key.place(&items[i])) <= turn(key.place(&items[j]))
}

/// In a tree whose items are sorted in order, a lookup finds a key if and
/// only if an item has it: it ends on an item with that key that lies in
/// the tree, or no item of the tree has the key.
pub proof fn lemma_search_finds<C, I, Q: Probe<I>>(shape: Shape<C, I>, from: Option<C>, key: &Q)
    requires
        shape.wf(),
        sorted_for(shape.in_order(from), key),
    ensures
        match shape.search(from, key) {
            Some(hit) => {
                &&& shape.holds(hit)
                &&& key.place(&shape.items[hit]) == Place::At
                &&& shape.in_order(from).contains(shape.items[hit])
            },
            None => forall|i: int|
                0 <= i < shape.in_order(from).len() ==> key.place(
                    &#[trigger] shape.in_order(from)[i],
                ) != Place::At,
        },
    decreases shape.height(from),
{
    match from {
        Some(c) => {
            if shape.holds(c) {
                let below = shape.in_order(shape.child(c));
                let beyond = shape.in_order(shape.sibling(c));
                let all = shape.in_order(from);
                let own = shape.items[c];
                assert(all =~= below + seq![own] + beyond);
                assert(all[below.len() as int] == own);
                assert forall|i: int| 0 <= i < below.len() implies all[i] == below[i] by {}
                assert forall|i: int| 0 <= i < beyond.len() implies all[below.len() + 1 + i]
                    == beyond[i] by {}
                assert(sorted_for(below, key)) by {
                    assert forall|i: int, j: int| 0 <= i < j < below.len() implies turn(
                        key.place(&below[i]),
                    ) <= turn(key.place(&below[j])) by {
                        assert(all[i] == below[i] && all[j] == below[j]);
                    }
                }
                assert(sorted_for(beyond, key)) by {
                    assert forall|i: int, j: int| 0 <= i < j < beyond.len() implies turn(
                        key.place(&beyond[i]),
                    ) <= turn(key.place(&beyond[j])) by {
                        assert(all[below.len() + 1 + i] == beyond[i]);
                        assert(all[below.len() + 1 + j] == beyond[j]);
                    }
                }
                lemma_search_step(shape, c, key);
                match key.place(&own) {
                    Place::At => {
                        assert(all[below.len() as int] == own);
                    },
                    Place::Before => {
                        lemma_search_finds(shape, shape.child(c), key);
                        match shape.search(shape.child(c), key) {
                            Some(hit) => {
                                let i = choose|i: int|
                                    0 <= i < below.len() && below[i] == shape.items[hit];
                                assert(all[i] == shape.items[hit]);
                            },
                            None => {
                                assert forall|i: int| 0 <= i < all.len() implies key.place(
                                    &#[trigger] all[i],
                                ) != Place::At by {
                                    if i < below.len() {
                                        assert(all[i] == below[i]);
                                    } else if i > below.len() {
                                        assert(turn(key.place(&all[below.len() as int])) <= turn(
                                            key.place(&all[i]),
                                        ));
                                    }
                                }
                            },
                        }
                    },
                    Place::After => {
                        lemma_search_finds(shape, shape.sibling(c), key);
                        match shape.search(shape.sibling(c), key) {
                            Some(hit) => {
                                let i = choose|i: int|
                                    0 <= i < beyond.len() && beyond[i] == shape.items[hit];
                                assert(all[below.len() + 1 + i] == shape.items[hit]);
                            },
                            None => {
                                assert forall|i: int| 0 <= i < all.len() implies key.place(
                                    &#[trigger] all[i],
                                ) != Place::At by {
                                    if i < below.len() {
                                        assert(turn(key.place(&all[i])) <= turn(
                                            key.place(&all[below.len() as int]),
                                        ));
                                    } else if i > below.len() {
                                        assert(all[i] == beyond[i - below.len() - 1]);
                                    }
                                }
                            },
                        }
                    },
                }
            } else {
                assert(shape.in_order(from) =~= Seq::<I>::empty());
            }
        },
        None => {
            assert(shape.in_order(from) =~= Seq::<I>::empty());
        },
    }
}

/// A walk over all items of a tree in order.
pub struct InOrderTraverse<R> {
    tree_reader: R,
}

/// What a walk in order has still to do, the next thing last.
pub enum TraverseAction<C, E> {
    /// Look at what a move of the reader gave.
    Inspect(Result<Option<C>, E>),
    /// Give out the item under the cursor, then move on along the block.
    Return(C),
}

/// The items that `action` stands for.
pub open spec fn items_due<C, I, E>(shape: Shape<C, I>, action: TraverseAction<C, E>) -> Seq<I> {
    match action {
        TraverseAction::Inspect(Ok(Some(c))) => shape.in_order(Some(c)),
        TraverseAction::Return(c) => seq![shape.items[c]] + shape.in_order(shape.sibling(c)),
        _ => Seq::empty(),
    }
}

/// The items that the actions `script` stand for, those of the last action
/// first.
pub open spec fn items_pending<C, I, E>(shape: Shape<C, I>, script: Seq<TraverseAction<C, E>>) -> Seq<
    I,
>
    decreases script.len(),
{
    if script.len() == 0 {
        Seq::empty()
    } else {
        items_due(shape, script.last()) + items_pending(shape, script.drop_last())
    }
}

/// How many times the walk may have to go down before it gives out an item.
pub open spec fn descent<C, I, E>(shape: Shape<C, I>, script: Seq<TraverseAction<C, E>>) -> nat {
    if script.len() == 0 {
        0
    } else {
        match script.last() {
            TraverseAction::Inspect(Ok(from)) => shape.height(from) + 1,
            _ => 0,
        }
    }
}

impl<R> InOrderTraverse<R> {
    /// The reader that the walk goes over.
    pub closed spec fn reader(&self) -> R {
        self.tree_reader
    }

    /// A walk over the tree of `tree_reader`.
    pub fn new(tree_reader: R) -> (traverse: InOrderTraverse<R>)
        ensures
            traverse.reader() == tree_reader,
    {
        InOrderTraverse { tree_reader }
    }

    /// Starts the walk at the root: the reader is asked for its root, and
    /// for nothing else, and what it gave is all that the walk has to look
    /// at.
    pub fn iter(self) -> (iterator: InOrderIterator<R>) where R: Reader
        ensures
            iterator.wf(),
            iterator.shape() == self.reader().shape(),
            iterator.script().len() == 1,
            iterator.script()[0] is Inspect,
            !iterator.faulted() ==> iterator.pending() == iterator.shape().in_order(
                iterator.shape().root,
            ),
            R::reliable() ==> !iterator.faulted(),
    {
        let root = self.tree_reader.root();
        let ghost first = root;
        let mut script: Vec<TraverseAction<R::Cursor, R::Error>> = Vec::new();
        script.push(TraverseAction::Inspect(root));
        let iterator = InOrderIterator { tree_reader: self.tree_reader, script };
        proof {
            let shape = iterator.shape();
            assert(iterator.script@.drop_last() =~= Seq::empty());
            assert(items_pending(shape, iterator.script@.drop_last()) =~= Seq::<R::Item>::empty());
            assert(items_pending(shape, iterator.script@) =~= items_due(
                shape,
                iterator.script@.last(),
            ));
            if let Ok(None) = first {
                assert(shape.in_order(None) =~= Seq::<R::Item>::empty());
            }
        }
        iterator
    }
}

/// A walk in order that is under way.
pub struct InOrderIterator<R: Reader> {
    tree_reader: R,
    script: Vec<TraverseAction<R::Cursor, R::Error>>,
}

impl<R: Reader> InOrderIterator<R> {
    /// The tree that the walk goes over.
    pub closed spec fn shape(&self) -> Shape<R::Cursor, R::Item> {
        self.tree_reader.shape()
    }

    /// What the walk has still to do, the next thing last.
    pub closed spec fn script(&self) -> Seq<TraverseAction<R::Cursor, R::Error>> {
        self.script@
    }

    /// The items that the walk has still to give out if the reader does not
    /// fail, in order.
    pub open spec fn pending(&self) -> Seq<R::Item> {
        items_pending(self.shape(), self.script())
    }

    /// The reader has failed, and the walk has yet to say so.
    pub open spec fn faulted(&self) -> bool {
        self.script().len() > 0 && self.script().last() matches TraverseAction::Inspect(Err(_))
    }

    /// The walk stands on items of a well-formed tree, and only its next
    /// action looks at a move.
    pub open spec fn wf(&self) -> bool {
        forall|i: int|
            0 <= i < self.script().len() ==> match #[trigger] self.script()[i] {
                TraverseAction::Inspect(Ok(Some(c))) => self.shape().wf() && self.shape().holds(c)
                    && i == self.script().len() - 1,
                TraverseAction::Inspect(Ok(None)) => self.shape().wf() && i == self.script().len()
                    - 1,
                TraverseAction::Inspect(Err(_)) => i == self.script().len() - 1,
                TraverseAction::Return(c) => self.shape().wf() && self.shape().holds(c),
            }
    }

    /// The next item in order, or the reader's failure; none when the walk
    /// is over, and then none ever after. A failure that the reader has
    /// met is given out by the next call, which does nothing else. After a
    /// failure the walk goes on behind what it could not reach.
    pub fn next(&mut self) -> (result: Option<Result<R::Item, R::Error>>) where R::Item: Clone
        requires
            old(self).wf(),
        ensures
            final(self).wf(),
            final(self).shape() == old(self).shape(),
            old(self).faulted() ==> {
                &&& result matches Some(Err(error))
                &&& old(self).script().last() == TraverseAction::<R::Cursor, R::Error>::Inspect(
                    Err(error),
                )
                &&& final(self).script() == old(self).script().drop_last()
            },
            !old(self).faulted() && old(self).pending().len() == 0 ==> result is None,
            R::reliable() && !old(self).faulted() ==> !(result matches Some(Err(_))) && !final(self).faulted(),
            match result {
                None => old(self).pending().len() == 0 && final(self).script().len() == 0,
                Some(Ok(item)) => {
                    &&& old(self).pending().len() > 0
                    &&& cloned(old(self).pending()[0], item)
                    &&& exists|k: int|
                        1 <= k <= old(self).pending().len() && final(self).pending() == #[trigger]
                        old(self).pending().skip(k)
                    &&& !final(self).faulted() ==> final(self).pending() == old(self).pending().skip(1)
                },
                Some(Err(_)) => {
                    &&& !final(self).faulted()
                    &&& exists|k: int|
                        0 <= k <= old(self).pending().len() && final(self).pending() == #[trigger]
                        old(self).pending().skip(k)
                },
            },
    {
        let ghost shape = self.shape();
        let ghost all = self.pending();
        let ghost mut lost: int = 0;
        proof {
            assert(all.skip(0) =~= all);
        }
        loop
            invariant
                self.wf(),
                shape == old(self).shape(),
                all == old(self).pending(),
                self.shape() == shape,
                0 <= lost <= all.len(),
                self.pending() == all.skip(lost),
                lost > 0 ==> self.faulted(),
                R::reliable() && !old(self).faulted() ==> !self.faulted(),
                old(self).faulted() ==> self.script() == old(self).script(),
                all.len() == 0 && !old(self).faulted() ==> !self.faulted(),
            decreases descent(shape, self.script()),
        {
            let ghost script = self.script();
            let command = self.script.pop();
            proof {
                if script.len() > 0 {
                    assert(self.script() =~= script.drop_last());
                    assert(items_pending(shape, script) == items_due(shape, script.last())
                        + items_pending(shape, script.drop_last()));
                }
            }
            match command {
                None => {
                    proof {
                        assert(script.len() == 0);
                        assert(lost == 0);
                        assert(items_pending(shape, script) =~= Seq::<R::Item>::empty());
                        assert(all.skip(0) =~= all);
                    }
                    return None;
                },
                Some(TraverseAction::Inspect(Err(error))) => {
                    return Some(Err(error));
                },
                Some(TraverseAction::Inspect(Ok(None))) => {
                    assert(items_due(shape, script.last()) =~= Seq::<R::Item>::empty());
                    assert(self.pending() =~= all.skip(lost));
                },
                Some(TraverseAction::Inspect(Ok(Some(cursor)))) => {
                    let ghost rest = self.script();
                    proof {
                        assert(shape.in_order(Some(cursor)) == shape.in_order(shape.child(cursor))
                            + seq![shape.items[cursor]] + shape.in_order(shape.sibling(cursor)));
                        assert(items_due(shape, script.last()).len() > 0);
                        assert(all.len() > 0);
                    }
                    self.script.push(TraverseAction::Return(cursor));
                    let ghost held = self.script();
                    let below = self.tree_reader.jump(cursor);
                    let ghost moved = below;
                    self.script.push(TraverseAction::Inspect(below));
                    proof {
                        let now = self.script();
                        assert(now.drop_last() =~= held);
                        assert(held.drop_last() =~= rest);
                        assert(items_pending(shape, held) == items_due(shape, held.last())
                            + items_pending(shape, rest));
                        assert(items_pending(shape, now) == items_due(shape, now.last())
                            + items_pending(shape, held));
                        let own = seq![shape.items[cursor]] + shape.in_order(shape.sibling(cursor));
                        assert(shape.in_order(Some(cursor)) == shape.in_order(shape.child(cursor))
                            + seq![shape.items[cursor]] + shape.in_order(shape.sibling(cursor)));
                        match moved {
                            Ok(Some(child)) => {
                                assert(items_pending(shape, now) =~= shape.in_order(Some(cursor))
                                    + items_pending(shape, rest));
                            },
                            Ok(None) => {
                                assert(shape.in_order(None) =~= Seq::<R::Item>::empty());
                                assert(items_pending(shape, now) =~= shape.in_order(Some(cursor))
                                    + items_pending(shape, rest));
                            },
                            Err(_) => {
                                let skipped = shape.in_order(shape.child(cursor)).len();
                                let before = shape.in_order(Some(cursor)) + items_pending(
                                    shape,
                                    rest,
                                );
                                assert(before == all.skip(lost));
                                assert(items_pending(shape, now) =~= before.skip(skipped as int));
                                assert(all.skip(lost).skip(skipped as int) =~= all.skip(
                                    lost + skipped,
                                ));
                                lost = lost + skipped;
                            },
                        }
                    }
                },
                Some(TraverseAction::Return(cursor)) => {
                    let ghost rest = self.script();
                    let item = self.tree_reader.access(&cursor).clone();
                    let beyond = self.tree_reader.advance(cursor);
                    let ghost moved = beyond;
                    self.script.push(TraverseAction::Inspect(beyond));
                    proof {
                        let now = self.script();
                        assert(now.drop_last() =~= rest);
                        assert(items_pending(shape, now) == items_due(shape, now.last())
                            + items_pending(shape, rest));
                        let due = seq![shape.items[cursor]] + shape.in_order(shape.sibling(cursor));
                        assert(all == due + items_pending(shape, rest));
                        assert(all[0] == shape.items[cursor]);
                        match moved {
                            Ok(Some(n)) => {
                                assert(items_pending(shape, now) =~= all.skip(1));
                            },
                            Ok(None) => {
                                assert(shape.in_order(None) =~= Seq::<R::Item>::empty());
                                assert(items_pending(shape, now) =~= all.skip(1));
                            },
                            Err(_) => {
                                assert(items_pending(shape, now) =~= all.skip(due.len() as int));
                            },
                        }
                    }
                    return Some(Ok(item));
                },
            }
        }
    }
}

/// The cursors on the items of a block from `from` on.
pub open spec fn block_from<C, I>(shape: Shape<C, I>, from: Option<C>) -> Seq<C>
    decreases shape.height(from),
    when shape.wf()
{
    match from {
        Some(c) => if shape.holds(c) {
            seq![c] + block_from(shape, shape.sibling(c))
        } else {
            Seq::empty()
        },
        None => Seq::empty(),
    }
}

/// The cursors on the first items of the blocks below the items under
/// `cursors`, in order.
pub open spec fn blocks_below<C, I>(shape: Shape<C, I>, cursors: Seq<C>) -> Seq<C>
    decreases cursors.len(),
{
    if cursors.len() == 0 {
        Seq::empty()
    } else {
        let front = blocks_below(shape, cursors.drop_last());
        match shape.child(cursors.last()) {
            Some(below) => front.push(below),
            None => front,
        }
    }
}

/// A walk over the blocks of a tree, level by level.
pub struct BlocksBfsTraverse<R> {
    tree_reader: R,
}

impl<R> BlocksBfsTraverse<R> {
    /// The reader that the walk goes over.
    pub closed spec fn reader(&self) -> R {
        self.tree_reader
    }

    /// A walk over the tree of `tree_reader`.
    pub fn new(tree_reader: R) -> (traverse: BlocksBfsTraverse<R>)
        ensures
            traverse.reader() == tree_reader,
    {
        BlocksBfsTraverse { tree_reader }
    }

    /// Starts the walk at the root block.
    pub fn iter(self) -> (iterator: BlocksBfsIterator<R>) where R: Reader
        ensures
            iterator.wf(),
            iterator.shape() == self.reader().shape(),
            !iterator.faulted() ==> iterator.blocks() == match iterator.shape().root {
                Some(root) => seq![root],
                None => Seq::empty(),
            },
            R::reliable() ==> !iterator.faulted(),
    {
        let mut blocks: Vec<R::Cursor> = Vec::new();
        let mut failure: Option<R::Error> = None;
        match self.tree_reader.root() {
            Ok(Some(root)) => {
                blocks.push(root);
            },
            Ok(None) => {},
            Err(error) => {
                failure = Some(error);
            },
        }
        BlocksBfsIterator { tree_reader: self.tree_reader, blocks, failure }
    }
}

/// A walk over the blocks of a tree that is under way.
pub struct BlocksBfsIterator<R: Reader> {
    tree_reader: R,
    blocks: Vec<R::Cursor>,
    failure: Option<R::Error>,
}

impl<R: Reader> BlocksBfsIterator<R> {
    /// The tree that the walk goes over.
    pub closed spec fn shape(&self) -> Shape<R::Cursor, R::Item> {
        self.tree_reader.shape()
    }

    /// The blocks that the walk knows of and has yet to visit, each by the
    /// cursor on its first item, the next one first.
    pub closed spec fn blocks(&self) -> Seq<R::Cursor> {
        self.blocks@
    }

    /// The reader has failed, and the walk has yet to say so.
    pub closed spec fn faulted(&self) -> bool {
        self.failure is Some
    }

    /// The walk stands on items of a well-formed tree.
    pub open spec fn wf(&self) -> bool {
        &&& self.blocks().len() > 0 ==> self.shape().wf()
        &&& forall|i: int|
            0 <= i < self.blocks().len() ==> self.shape().holds(#[trigger] self.blocks()[i])
    }

    /// The items of the next block, or the reader's failure; none when
    /// every block was visited. The blocks below the items of a block are
    /// visited after all the blocks that were known before, in the order of
    /// the items. A block that the reader fails on is left, and the blocks
    /// below the items that were read of it until then are still visited.
    pub fn next(&mut self) -> (result: Option<Result<Vec<R::Item>, R::Error>>) where R::Item: Clone
        requires
            old(self).wf(),
        ensures
            final(self).wf(),
            final(self).shape() == old(self).shape(),
            !final(self).faulted(),
            R::reliable() && !old(self).faulted() ==> !(result matches Some(Err(_))),
            old(self).faulted() ==> (result matches Some(Err(_))) && final(self).blocks() == old(self).blocks(),
            !old(self).faulted() ==> match result {
                None => old(self).blocks().len() == 0 && final(self).blocks().len() == 0,
                Some(Ok(items)) => {
                    let block = block_from(old(self).shape(), Some(old(self).blocks()[0]));
                    &&& old(self).blocks().len() > 0
                    &&& items@.len() == block.len()
                    &&& forall|i: int|
                        0 <= i < block.len() ==> cloned(
                            old(self).shape().items[block[i]],
                            #[trigger] items@[i],
                        )
                    &&& final(self).blocks() == old(self).blocks().skip(1) + blocks_below(
                        old(self).shape(),
                        block,
                    )
                },
                Some(Err(_)) => {
                    let block = block_from(old(self).shape(), Some(old(self).blocks()[0]));
                    &&& old(self).blocks().len() > 0
                    &&& exists|k: int|
                        0 <= k <= block.len() && final(self).blocks() == old(self).blocks().skip(1)
                            + blocks_below(old(self).shape(), #[trigger] block.subrange(0, k))
                },
            },
    {
        match self.failure.take() {
            Some(error) => {
                return Some(Err(error));
            },
            None => {},
        }
        if self.blocks.len() == 0 {
            return None;
        }
        let ghost shape = self.shape();
        let ghost queue = self.blocks();
        let first = self.blocks.remove(0);
        assert(self.blocks() =~= queue.skip(1));
        let ghost block = block_from(shape, Some(first));
        let mut items: Vec<R::Item> = Vec::new();
        let mut cursor = first;
        let ghost mut seen: Seq<R::Cursor> = Seq::empty();
        proof {
            assert(blocks_below(shape, seen) =~= Seq::<R::Cursor>::empty());
            assert(self.blocks() =~= queue.skip(1) + blocks_below(shape, seen));
        }
        loop
            invariant
                shape.wf(),
                shape == old(self).shape(),
                queue == old(self).blocks(),
                !old(self).faulted(),
                self.shape() == shape,
                self.failure is None,
                queue.len() > 0,
                block == block_from(shape, Some(queue[0])),
                shape.holds(cursor),
                block == seen + block_from(shape, Some(cursor)),
                items@.len() == seen.len(),
                forall|i: int|
                    0 <= i < seen.len() ==> cloned(shape.items[seen[i]], #[trigger] items@[i]),
                self.blocks() == queue.skip(1) + blocks_below(shape, seen),
                forall|i: int|
                    0 <= i < self.blocks().len() ==> shape.holds(#[trigger] self.blocks()[i]),
            decreases shape.height(Some(cursor)),
        {
            let ghost known = self.blocks();
            let ghost below_seen = blocks_below(shape, seen);
            items.push(self.tree_reader.access(&cursor).clone());
            proof {
                assert(seen.push(cursor).drop_last() =~= seen);
                assert(block_from(shape, Some(cursor)) == seq![cursor] + block_from(
                    shape,
                    shape.sibling(cursor),
                ));
            }
            match self.tree_reader.jump(cursor) {
                Ok(Some(below)) => {
                    self.blocks.push(below);
                    assert(self.blocks() =~= queue.skip(1) + blocks_below(shape, seen.push(cursor)));
                },
                Ok(None) => {
                    assert(self.blocks() =~= queue.skip(1) + blocks_below(shape, seen.push(cursor)));
                },
                Err(error) => {
                    proof {
                        assert(block.subrange(0, seen.len() as int) =~= seen);
                    }
                    return Some(Err(error));
                },
            }
            proof {
                seen = seen.push(cursor);
            }
            match self.tree_reader.advance(cursor) {
                Ok(Some(next)) => {
                    proof {
                        assert(block =~= seen + block_from(shape, Some(next)));
                    }
                    cursor = next;
                },
                Ok(None) => {
                    proof {
                        assert(block_from(shape, None) =~= Seq::<R::Cursor>::empty());
                        assert(block =~= seen);
                    }
                    return Some(Ok(items));
                },
                Err(error) => {
                    proof {
                        assert(block.subrange(0, seen.len() as int) =~= seen);
                    }
                    return Some(Err(error));
                },
            }
        }
    }
}

} // verus!
