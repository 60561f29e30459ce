//! Level sizes of a tree with a known number of items and a fixed fan-out.

use vstd::prelude::*;

verus! {

/// One depth of the tree. Level 0 is the root.
#[derive(Clone, PartialEq, Eq, Debug)]
pub struct Level {
    pub index: usize,
    pub blocks_count: usize,
    pub items_count: usize,
}

/// The shape of a tree: how many blocks and items each level holds.
pub struct Tree {
    levels: Vec<Level>,
    block_size: usize,
    items_total: usize,
}

/// `base` raised to `exp`.
pub open spec fn power(base: nat, exp: nat) -> nat
    decreases exp,
{
    if exp == 0 {
        1
    } else {
        base * power(base, (exp - 1) as nat)
    }
}

/// The number of blocks of `block_size` items that `items` items fill,
/// the last one possibly in part.
pub open spec fn blocks_for(items: nat, block_size: nat) -> nat {
    if block_size == 0 {
        0
    } else {
        ((items + block_size - 1) / (block_size as int)) as nat
    }
}

/// The smaller of `a` and `b`.
pub open spec fn min_nat(a: nat, b: nat) -> nat {
    if a <= b {
        a
    } else {
        b
    }
}

/// Blocks that layer `layer` takes when `items` items are still unplaced:
/// a full fan-out of `block_size^layer`, or all that is left.
pub open spec fn layer_blocks(items: nat, block_size: nat, layer: nat) -> nat {
    min_nat(power(block_size, layer), blocks_for(items, block_size))
}

/// Items that layer `layer` takes when `items` items are still unplaced.
pub open spec fn layer_items(items: nat, block_size: nat, layer: nat) -> nat {
    min_nat(layer_blocks(items, block_size, layer) * block_size, items)
}

/// The levels from `layer` downwards for `items` unplaced items.
pub open spec fn layout(items: nat, block_size: nat, layer: nat) -> Seq<Level>
    decreases items,
{
    if items == 0 || block_size == 0 {
        Seq::empty()
    } else {
        let taken = layer_items(items, block_size, layer);
        if taken == 0 || taken > items {
            Seq::empty()
        } else {
            seq![
                Level {
                    index: layer as usize,
                    blocks_count: layer_blocks(items, block_size, layer) as usize,
                    items_count: taken as usize,
                },
            ] + layout((items - taken) as nat, block_size, layer + 1)
        }
    }
}

/// Sum of `items_count` over `levels`.
pub open spec fn items_sum(levels: Seq<Level>) -> nat
    decreases levels.len(),
{
    if levels.len() == 0 {
        0
    } else {
        levels[0].items_count as nat + items_sum(levels.subrange(1, levels.len() as int))
    }
}

/// Sum of `blocks_count` over `levels`.
pub open spec fn blocks_sum(levels: Seq<Level>) -> nat
    decreases levels.len(),
{
    if levels.len() == 0 {
        0
    } else {
        levels[0].blocks_count as nat + blocks_sum(levels.subrange(1, levels.len() as int))
    }
}

/// Removing one block's worth of items removes one block.
pub proof fn lemma_blocks_for_step(items: nat, block_size: nat)
    requires
        block_size >= 1,
        items >= block_size,
    ensures
        blocks_for(items, block_size) == blocks_for((items - block_size) as nat, block_size) + 1,
{
    let d = block_size as int;
    assert((items + d - 1) / d == (items - d + d - 1) / d + 1) by {
        vstd::arithmetic::div_mod::lemma_div_plus_one(items - d + d - 1, d);
    }
}

/// `blocks_for` counts the blocks exactly: it is the one `b` with
/// `(b - 1) * block_size < items <= b * block_size`.
pub proof fn lemma_blocks_for_bounds(items: nat, block_size: nat)
    requires
        block_size >= 1,
    ensures
        items <= blocks_for(items, block_size) * block_size,
        items > 0 ==> (blocks_for(items, block_size) - 1) * block_size < items,
        items > 0 ==> blocks_for(items, block_size) >= 1,
        items == 0 ==> blocks_for(items, block_size) == 0,
        blocks_for(items, block_size) <= items,
{
    let d = block_size as int;
    let x = items + d - 1;
    vstd::arithmetic::div_mod::lemma_fundamental_div_mod(x, d);
    vstd::arithmetic::div_mod::lemma_mod_bound(x, d);
    let q = x / d;
    assert(x == d * q + x % d);
    assert(d * q == q * d) by (nonlinear_arith);
    assert((q - 1) * d == q * d - d) by (nonlinear_arith);
    if items == 0 {
        assert(q == 0) by (nonlinear_arith)
            requires
                d >= 1,
                d * q + x % d == d - 1,
                0 <= x % d < d,
        ;
    } else {
        assert(q >= 1) by (nonlinear_arith)
            requires
                d >= 1,
                d * q + x % d >= d,
                0 <= x % d < d,
        ;
    }
    assert(q <= items) by (nonlinear_arith)
        requires
            d >= 1,
            q >= 0,
            q * d <= items + d - 1,
            items >= 0,
            items == 0 ==> q == 0,
    ;
}

/// Taking `blocks` whole blocks, fewer than all, leaves the rest of the blocks.
pub proof fn lemma_blocks_for_take(items: nat, block_size: nat, blocks: nat)
    requires
        block_size >= 1,
        blocks < blocks_for(items, block_size),
    ensures
        blocks * block_size < items,
        blocks_for((items - blocks * block_size) as nat, block_size) == blocks_for(
            items,
            block_size,
        ) - blocks,
    decreases blocks,
{
    lemma_blocks_for_bounds(items, block_size);
    let total = blocks_for(items, block_size);
    assert(blocks * block_size <= (total - 1) * block_size) by (nonlinear_arith)
        requires
            blocks <= total - 1,
            block_size >= 1,
    ;
    if blocks > 0 {
        assert(items >= block_size) by (nonlinear_arith)
            requires
                (total - 1) * block_size < items,
                total >= 2,
                block_size >= 1,
        ;
        lemma_blocks_for_step(items, block_size);
        let rest = (items - block_size) as nat;
        lemma_blocks_for_take(rest, block_size, (blocks - 1) as nat);
        assert((blocks - 1) * block_size + block_size == blocks * block_size)
            by (nonlinear_arith);
        assert((rest - (blocks - 1) * block_size) as nat == (items - blocks * block_size) as nat);
    } else {
        assert(blocks * block_size == 0) by (nonlinear_arith)
            requires
                blocks == 0,
        ;
    }
}

/// The levels of a layout hold all the items between them, in exactly the
/// blocks that the items need.
pub proof fn lemma_layout_sums(items: nat, block_size: nat, layer: nat)
    requires
        block_size >= 1,
        items <= usize::MAX,
    ensures
        items_sum(layout(items, block_size, layer)) == items,
        blocks_sum(layout(items, block_size, layer)) == blocks_for(items, block_size),
    decreases items,
{
    lemma_blocks_for_bounds(items, block_size);
    if items > 0 {
        lemma_layer_take(items, block_size, layer);
        let taken = layer_items(items, block_size, layer);
        let blocks = layer_blocks(items, block_size, layer);
        let rest = layout((items - taken) as nat, block_size, layer + 1);
        let all = layout(items, block_size, layer);
        lemma_layout_sums((items - taken) as nat, block_size, layer + 1);
        assert(all.subrange(1, all.len() as int) =~= rest);
    }
}

/// `base^exp` is at least 1 for a base of at least 1.
pub proof fn lemma_power_positive(base: nat, exp: nat)
    requires
        base >= 1,
    ensures
        power(base, exp) >= 1,
    decreases exp,
{
    if exp > 0 {
        lemma_power_positive(base, (exp - 1) as nat);
        assert(base * power(base, (exp - 1) as nat) >= 1) by (nonlinear_arith)
            requires
                base >= 1,
                power(base, (exp - 1) as nat) >= 1,
        ;
    }
}

/// What one layer takes, and what it leaves.
pub proof fn lemma_layer_take(items: nat, block_size: nat, layer: nat)
    requires
        block_size >= 1,
        items > 0,
    ensures
        ({
            let blocks = layer_blocks(items, block_size, layer);
            let taken = layer_items(items, block_size, layer);
            &&& 1 <= blocks <= blocks_for(items, block_size)
            &&& 1 <= taken <= items
            &&& taken <= blocks * block_size
            &&& (blocks - 1) * block_size < taken
            &&& blocks < blocks_for(items, block_size) ==> taken == blocks * block_size
            &&& blocks == blocks_for(items, block_size) ==> taken == items
            &&& blocks_for((items - taken) as nat, block_size) == blocks_for(items, block_size)
                - blocks
        }),
{
    lemma_blocks_for_bounds(items, block_size);
    lemma_power_positive(block_size, layer);
    let blocks = layer_blocks(items, block_size, layer);
    let total = blocks_for(items, block_size);
    assert((blocks - 1) * block_size == blocks * block_size - block_size) by (nonlinear_arith);
    if blocks < total {
        lemma_blocks_for_take(items, block_size, blocks);
        assert(blocks * block_size >= 1) by (nonlinear_arith)
            requires
                blocks >= 1,
                block_size >= 1,
        ;
    } else {
        assert(blocks == total);
        assert(blocks_for(0, block_size) == 0) by {
            lemma_blocks_for_bounds(0, block_size);
        }
    }
}

/// What holds of each level of a layout: levels are numbered in order, none
/// is empty, each but the last is full, and a level has no more blocks than
/// the level above it has items.
pub proof fn lemma_layout_levels(items: nat, block_size: nat, layer: nat)
    requires
        block_size >= 1,
        layer + items <= usize::MAX,
    ensures
        ({
            let levels = layout(items, block_size, layer);
            &&& levels.len() <= items
            &&& forall|i: int|
                0 <= i < levels.len() ==> {
                    &&& (#[trigger] levels[i]).index == layer + i
                    &&& 1 <= levels[i].blocks_count <= power(block_size, (layer + i) as nat)
                    &&& 1 <= levels[i].items_count <= levels[i].blocks_count * block_size
                    &&& (levels[i].blocks_count - 1) * block_size < levels[i].items_count
                    &&& i + 1 < levels.len() ==> {
                        &&& levels[i].blocks_count == power(block_size, (layer + i) as nat)
                        &&& levels[i].items_count == levels[i].blocks_count * block_size
                    }
                }
        }),
    decreases items,
{
    if items > 0 {
        lemma_layer_take(items, block_size, layer);
        lemma_blocks_for_bounds(items, block_size);
        let taken = layer_items(items, block_size, layer);
        let blocks = layer_blocks(items, block_size, layer);
        let rest = layout((items - taken) as nat, block_size, layer + 1);
        let levels = layout(items, block_size, layer);
        lemma_layout_levels((items - taken) as nat, block_size, layer + 1);
        assert forall|i: int| 0 <= i < levels.len() implies {
            &&& (#[trigger] levels[i]).index == layer + i
            &&& 1 <= levels[i].blocks_count <= power(block_size, (layer + i) as nat)
            &&& 1 <= levels[i].items_count <= levels[i].blocks_count * block_size
            &&& (levels[i].blocks_count - 1) * block_size < levels[i].items_count
            &&& i + 1 < levels.len() ==> {
                &&& levels[i].blocks_count == power(block_size, (layer + i) as nat)
                &&& levels[i].items_count == levels[i].blocks_count * block_size
            }
        } by {
            if i == 0 {
                if 1 < levels.len() {
                    assert(rest.len() > 0);
                    assert(taken < items);
                }
            } else {
                assert(levels[i] == rest[i - 1]);
            }
        }
    }
}

impl Tree {
    /// The levels, root first.
    pub closed spec fn spec_levels(&self) -> Seq<Level> {
        self.levels@
    }

    /// The most items that a block holds.
    pub closed spec fn spec_block_size(&self) -> usize {
        self.block_size
    }

    /// The number of items that the tree indexes.
    pub closed spec fn spec_items_total(&self) -> usize {
        self.items_total
    }

    /// A tree's levels are the layout of its items.
    #[verifier::type_invariant]
    pub closed spec fn well_formed(&self) -> bool {
        &&& self.block_size >= 1
        &&& self.levels@ == layout(self.items_total as nat, self.block_size as nat, 0)
    }

    /// Lays `items_total` items out in blocks of at most `block_size`.
    pub fn new(items_total: usize, block_size: usize) -> (tree: Tree)
        requires
            block_size >= 1,
        ensures
            tree.spec_items_total() == items_total,
            tree.spec_block_size() == block_size,
            tree.spec_levels() == layout(items_total as nat, block_size as nat, 0),
            items_sum(tree.spec_levels()) == items_total,
            blocks_sum(tree.spec_levels()) == blocks_for(items_total as nat, block_size as nat),
    {
        proof {
            lemma_layout_sums(items_total as nat, block_size as nat, 0);
        }
        let mut levels: Vec<Level> = Vec::new();
        let mut items_remain: usize = items_total;
        proof {
            lemma_ceil_quotient(items_total as nat, block_size as nat);
            lemma_blocks_for_bounds(items_total as nat, block_size as nat);
        }
        let mut blocks_remain: usize = items_total / block_size;
        if items_total % block_size != 0 {
            blocks_remain = blocks_remain + 1;
        }
        let mut layer: usize = 0;
        let mut layer_max_blocks: usize = 1;
        while items_remain > 0
            invariant
                block_size >= 1,
                items_remain <= items_total,
                layer + items_remain <= items_total,
                blocks_remain == blocks_for(items_remain as nat, block_size as nat),
                layer_max_blocks == min_nat(power(block_size as nat, layer as nat), usize::MAX as nat),
                levels@ + layout(items_remain as nat, block_size as nat, layer as nat) == layout(
                    items_total as nat,
                    block_size as nat,
                    0,
                ),
            decreases items_remain,
        {
            proof {
                lemma_layer_take(items_remain as nat, block_size as nat, layer as nat);
                lemma_power_positive(block_size as nat, layer as nat);
            }
            let blocks: usize = if layer_max_blocks < blocks_remain {
                layer_max_blocks
            } else {
                blocks_remain
            };
            assert(blocks == layer_blocks(items_remain as nat, block_size as nat, layer as nat));
            let items: usize = if blocks < blocks_remain {
                blocks * block_size
            } else {
                items_remain
            };
            assert(items == layer_items(items_remain as nat, block_size as nat, layer as nat));
            let ghost rest = layout(
                (items_remain - items) as nat,
                block_size as nat,
                (layer + 1) as nat,
            );
            let ghost before = levels@;
            levels.push(Level { index: layer, blocks_count: blocks, items_count: items });
            assert(levels@ + rest =~= before + layout(
                items_remain as nat,
                block_size as nat,
                layer as nat,
            ));
            blocks_remain = blocks_remain - blocks;
            items_remain = items_remain - items;
            proof {
                lemma_saturating_step(
                    layer_max_blocks,
                    block_size,
                    power(block_size as nat, layer as nat),
                );
            }
            layer_max_blocks = if layer_max_blocks <= usize::MAX / block_size {
                layer_max_blocks * block_size
            } else {
                usize::MAX
            };
            layer = layer + 1;
        }
        assert(levels@ + Seq::<Level>::empty() =~= levels@);
        Tree { levels, block_size, items_total }
    }

    /// As `new`, but refuses a block size of 0, which no tree can have.
    pub fn checked_new(items_total: usize, block_size: usize) -> (tree: Option<Tree>)
        ensures
            block_size == 0 <==> tree is None,
            tree matches Some(t) ==> {
                &&& t.spec_items_total() == items_total
                &&& t.spec_block_size() == block_size
                &&& t.spec_levels() == layout(items_total as nat, block_size as nat, 0)
            },
    {
        if block_size == 0 {
            None
        } else {
            Some(Tree::new(items_total, block_size))
        }
    }

    /// The levels, root first.
    pub fn levels(&self) -> (levels: &[Level])
        ensures
            levels@ == self.spec_levels(),
            self.spec_levels() == layout(
                self.spec_items_total() as nat,
                self.spec_block_size() as nat,
                0,
            ),
    {
        proof {
            use_type_invariant(self);
        }
        self.levels.as_slice()
    }

    /// The most items that a block holds.
    pub fn block_size(&self) -> (block_size: usize)
        ensures
            block_size == self.spec_block_size(),
            block_size >= 1,
    {
        proof {
            use_type_invariant(self);
        }
        self.block_size
    }

    /// The number of items that the tree indexes.
    pub fn items_total(&self) -> (items_total: usize)
        ensures
            items_total == self.spec_items_total(),
    {
        self.items_total
    }
}

/// One more factor of `block_size` on a power that is kept capped at the
/// largest `usize`.
proof fn lemma_saturating_step(capped: usize, block_size: usize, p: nat)
    requires
        block_size >= 1,
        capped == min_nat(p, usize::MAX as nat),
    ensures
        capped <= usize::MAX / block_size ==> capped * block_size == min_nat(
            block_size as nat * p,
            usize::MAX as nat,
        ),
        capped > usize::MAX / block_size ==> min_nat(block_size as nat * p, usize::MAX as nat)
            == usize::MAX,
{
    let max = usize::MAX as int;
    let d = block_size as int;
    let k = max / d;
    let m = capped as int;
    vstd::arithmetic::div_mod::lemma_fundamental_div_mod(max, d);
    vstd::arithmetic::div_mod::lemma_mod_bound(max, d);
    assert(d * k == k * d) by (nonlinear_arith);
    assert(d * p == p * d) by (nonlinear_arith);
    if m <= k {
        assert(m * d <= k * d) by (nonlinear_arith)
            requires
                m <= k,
                d >= 1,
        ;
        if p > max {
            assert(d == 1) by (nonlinear_arith)
                requires
                    k * d <= max,
                    k >= max,
                    d >= 1,
                    max >= 1,
            ;
        }
    } else {
        assert(m * d >= (k + 1) * d) by (nonlinear_arith)
            requires
                m >= k + 1,
                d >= 1,
        ;
        assert((k + 1) * d == k * d + d) by (nonlinear_arith);
        assert(p * d >= m * d) by (nonlinear_arith)
            requires
                p >= m,
                d >= 1,
        ;
    }
}

/// The quotient rounded up is the quotient plus one where a remainder is left.
proof fn lemma_ceil_quotient(items: nat, block_size: nat)
    requires
        block_size >= 1,
    ensures
        blocks_for(items, block_size) == items / block_size + if items % block_size != 0 {
            1nat
        } else {
            0nat
        },
{
    let d = block_size as int;
    let q = items as int / d;
    let r = items as int % d;
    vstd::arithmetic::div_mod::lemma_fundamental_div_mod(items as int, d);
    vstd::arithmetic::div_mod::lemma_mod_bound(items as int, d);
    assert(items == d * q + r);
    assert(d * q == q * d) by (nonlinear_arith);
    assert((q + 1) * d == q * d + d) by (nonlinear_arith);
    if r == 0 {
        vstd::arithmetic::div_mod::lemma_fundamental_div_mod_converse(
            items + d - 1,
            d,
            q,
            d - 1,
        );
    } else {
        vstd::arithmetic::div_mod::lemma_fundamental_div_mod_converse(
            items + d - 1,
            d,
            q + 1,
            r - 1,
        );
    }
}

} // verus!
