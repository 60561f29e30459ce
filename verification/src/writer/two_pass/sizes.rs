//! How the two passes agree: what the first measures of a level is what the
//! second writes of it.

use vstd::prelude::*;
use crate::writer::two_pass::markup;
use crate::writer::two_pass::write::{header_size_for, level_offset, levels_before, total_before, written_size};
use crate::writer::two_pass::LevelCoords;

verus! {

/// The sum of `sizes`.
pub open spec fn sizes_sum(sizes: Seq<usize>) -> int
    decreases sizes.len(),
{
    if sizes.len() == 0 {
        0
    } else {
        sizes_sum(sizes.drop_last()) + sizes.last()
    }
}

/// The seed with which the measuring pass starts a level whose header takes
/// `header_size`.
pub open spec fn measure_start<B>(header_size: usize) -> markup::LevelSeed<B> {
    markup::LevelSeed { level_header_size: header_size, level_size: header_size, active_block: None }
}

/// The seed of the measuring pass after a block of size `block_size` was
/// finished.
pub open spec fn measure_block<B>(seed: markup::LevelSeed<B>, block_size: usize) -> markup::LevelSeed<
    B,
> {
    markup::LevelSeed {
        level_header_size: seed.level_header_size,
        level_size: (seed.level_size + block_size) as usize,
        active_block: None,
    }
}

/// The seed of the measuring pass after blocks of sizes `block_sizes` were
/// finished one after the other.
pub open spec fn measure_blocks<B>(seed: markup::LevelSeed<B>, block_sizes: Seq<usize>) -> markup::LevelSeed<
    B,
>
    decreases block_sizes.len(),
{
    if block_sizes.len() == 0 {
        seed
    } else {
        measure_block(measure_blocks(seed, block_sizes.drop_last()), block_sizes.last())
    }
}

/// The seed with which the writing pass starts a level at `level_offset`
/// whose header takes `header_size`.
pub open spec fn write_start<B>(level_offset: usize, header_size: usize) -> crate::writer::two_pass::write::LevelSeed<B> {
    crate::writer::two_pass::write::LevelSeed {
        level_header_size: header_size,
        block_offset: (level_offset + header_size) as usize,
        cursor: (level_offset + header_size) as usize,
        active_block: None,
    }
}

/// The seed of the writing pass after `written` more bytes went into the
/// block.
pub open spec fn write_more<B>(seed: crate::writer::two_pass::write::LevelSeed<B>, written: usize) -> crate::writer::two_pass::write::LevelSeed<B> {
    crate::writer::two_pass::write::LevelSeed { cursor: (seed.cursor + written) as usize, ..seed }
}

/// The seed of the writing pass after the block was flushed: the next block
/// starts where this one ends.
pub open spec fn write_flushed<B>(seed: crate::writer::two_pass::write::LevelSeed<B>) -> crate::writer::two_pass::write::LevelSeed<B> {
    crate::writer::two_pass::write::LevelSeed { block_offset: seed.cursor, ..seed }
}

/// The seed of the writing pass after blocks of sizes `block_sizes` were
/// written and flushed one after the other.
pub open spec fn write_blocks<B>(seed: crate::writer::two_pass::write::LevelSeed<B>, block_sizes: Seq<usize>) -> crate::writer::two_pass::write::LevelSeed<
    B,
>
    decreases block_sizes.len(),
{
    if block_sizes.len() == 0 {
        seed
    } else {
        write_flushed(
            write_more(write_blocks(seed, block_sizes.drop_last()), block_sizes.last()),
        )
    }
}

/// What was written of a block since its start is what a flush of it must
/// report: the end that the pass names for it lies that far behind its
/// start, and no other size is taken.
pub proof fn lemma_block_size_checked<B>(seed: crate::writer::two_pass::write::LevelSeed<B>, parts: Seq<usize>)
    requires
        seed.cursor == seed.block_offset,
        seed.cursor + sizes_sum(parts) <= usize::MAX,
    ensures
        ({
            let end = write_parts(seed, parts);
            &&& end.block_offset == seed.block_offset
            &&& end.cursor - end.block_offset == sizes_sum(parts)
            &&& written_size(end) == sizes_sum(parts)
        }),
    decreases parts.len(),
{
    lemma_sizes_sum_nonnegative(parts);
    if parts.len() > 0 {
        lemma_sizes_sum_nonnegative(parts.drop_last());
        lemma_block_size_checked(seed, parts.drop_last());
    }
}

/// The seed of the writing pass after the parts of a block, its header and
/// its items, went into the block one after the other.
pub open spec fn write_parts<B>(seed: crate::writer::two_pass::write::LevelSeed<B>, parts: Seq<usize>) -> crate::writer::two_pass::write::LevelSeed<B>
    decreases parts.len(),
{
    if parts.len() == 0 {
        seed
    } else {
        write_more(write_parts(seed, parts.drop_last()), parts.last())
    }
}

/// A sum of sizes is not negative.
pub proof fn lemma_sizes_sum_nonnegative(sizes: Seq<usize>)
    ensures
        sizes_sum(sizes) >= 0,
    decreases sizes.len(),
{
    if sizes.len() > 0 {
        lemma_sizes_sum_nonnegative(sizes.drop_last());
    }
}

/// The two passes agree on a level: told the same header size and the same
/// block sizes, the size that the first pass measures for the level is the
/// number of bytes from the level's start to the end of its last block in
/// the second.
pub proof fn lemma_level_size_agrees<B>(
    level_offset: usize,
    header_size: usize,
    block_sizes: Seq<usize>,
)
    requires
        level_offset + header_size + sizes_sum(block_sizes) <= usize::MAX,
    ensures
        ({
            let measured = measure_blocks(measure_start::<B>(header_size), block_sizes);
            let written = write_blocks(write_start::<B>(level_offset, header_size), block_sizes);
            &&& measured.level_size == header_size + sizes_sum(block_sizes)
            &&& written.block_offset == level_offset + measured.level_size
            &&& written.cursor == written.block_offset
        }),
    decreases block_sizes.len(),
{
    lemma_sizes_sum_nonnegative(block_sizes);
    if block_sizes.len() > 0 {
        lemma_sizes_sum_nonnegative(block_sizes.drop_last());
        lemma_level_size_agrees::<B>(level_offset, header_size, block_sizes.drop_last());
    }
}

/// The measures of the levels in order, each under its own index.
pub open spec fn in_order(coords: Seq<LevelCoords<usize>>) -> bool {
    forall|i: int| 0 <= i < coords.len() ==> (#[trigger] coords[i]).index == i
}

/// With the levels measured in order, each level starts where the one before
/// it ends, the first behind the tree's header, and has its own header.
pub proof fn lemma_levels_adjoin(
    tree_offset: usize,
    tree_header_size: usize,
    coords: Seq<LevelCoords<usize>>,
    level_index: usize,
)
    requires
        in_order(coords),
        level_index < coords.len() <= usize::MAX,
    ensures
        header_size_for(coords, level_index) == coords[level_index as int].header_size,
        level_offset(tree_offset, tree_header_size, coords, level_index) == tree_offset
            + tree_header_size + total_before(coords, level_index as int),
        level_index + 1 < coords.len() ==> level_offset(
            tree_offset,
            tree_header_size,
            coords,
            (level_index + 1) as usize,
        ) == level_offset(tree_offset, tree_header_size, coords, level_index)
            + coords[level_index as int].total_size,
{
    lemma_levels_before_in_order(coords, level_index, 0);
    if level_index + 1 < coords.len() {
        lemma_levels_before_in_order(coords, (level_index + 1) as usize, 0);
        assert(total_before(coords, level_index + 1) == total_before(coords, level_index as int)
            + coords[level_index as int].total_size);
    }
}

/// With the levels measured in order, the levels before level `level_index`
/// are the first `level_index` of them.
pub proof fn lemma_levels_before_in_order(
    coords: Seq<LevelCoords<usize>>,
    level_index: usize,
    from: int,
)
    requires
        in_order(coords),
        0 <= from <= level_index < coords.len(),
    ensures
        levels_before(coords, level_index, from) == level_index,
    decreases level_index - from,
{
    if from < level_index {
        assert(coords[from].index == from);
        lemma_levels_before_in_order(coords, level_index, from + 1);
    } else {
        assert(coords[from].index == from);
    }
}

/// Where no level has a header, the measures that stand for a level say
/// so.
pub proof fn lemma_headers_none(coords: Seq<LevelCoords<usize>>, level_index: usize)
    requires
        forall|i: int| 0 <= i < coords.len() ==> (#[trigger] coords[i]).header_size == 0,
    ensures
        header_size_for(coords, level_index) == 0,
{
    lemma_levels_before_within(coords, level_index, 0);
}

/// `levels_before` stops within the measured levels.
pub proof fn lemma_levels_before_within(coords: Seq<LevelCoords<usize>>, level_index: usize, from: int)
    requires
        0 <= from <= coords.len(),
    ensures
        from <= levels_before(coords, level_index, from) <= coords.len(),
    decreases coords.len() - from,
{
    if from < coords.len() && coords[from].index < level_index {
        lemma_levels_before_within(coords, level_index, from + 1);
    }
}

} // verus!
