//! The walk as a whole: the sequence of all its steps, and what it adds up to.

use vstd::prelude::*;
use crate::sketch;
use crate::sketch::Level;
use crate::writer::plan::{next_event, next_state, valid, fall, lemma_fall, lemma_step_valid, initial};
use crate::writer::plan::{BlockCursor, Event, LevelCursor, Op, State};

verus! {

/// The steps that a cursor still has before it, counted generously.
pub open spec fn weight(c: LevelCursor) -> nat {
    3 * (c.items_remain as nat) + match c.block_cursor {
        BlockCursor::Begin => 1nat,
        BlockCursor::Write { .. } => 0nat,
        BlockCursor::Commit => 2nat,
    }
}

/// The sum of the cursors' weights.
pub open spec fn work(cursors: Seq<LevelCursor>) -> nat
    decreases cursors.len(),
{
    if cursors.len() == 0 {
        0
    } else {
        work(cursors.drop_last()) + weight(cursors.last())
    }
}

/// Replacing one cursor changes the work by the difference of the weights.
pub proof fn lemma_work_update(cursors: Seq<LevelCursor>, at: int, c: LevelCursor)
    requires
        0 <= at < cursors.len(),
    ensures
        work(cursors.update(at, c)) == work(cursors) - weight(cursors[at]) + weight(c),
    decreases cursors.len(),
{
    let updated = cursors.update(at, c);
    if at == cursors.len() - 1 {
        assert(updated.drop_last() =~= cursors.drop_last());
    } else {
        lemma_work_update(cursors.drop_last(), at, c);
        assert(updated.drop_last() =~= cursors.drop_last().update(at, c));
    }
}

/// Every step of a walk that is not over takes work away.
pub proof fn lemma_step_works(s: State)
    requires
        valid(s),
        s.level_curr < s.cursors.len(),
    ensures
        work(next_state(s).cursors) < work(s.cursors),
{
    let at = s.level_curr as int;
    let t = next_state(s);
    lemma_work_update(s.cursors, at, t.cursors[at]);
    assert(t.cursors =~= s.cursors.update(at, t.cursors[at]));
}

/// All the steps of the walk from `s` on, in order.
pub open spec fn script(s: State) -> Seq<Event>
    decreases work(s.cursors),
{
    if valid(s) && s.level_curr < s.cursors.len() {
        proof {
            lemma_step_works(s);
        }
        seq![next_event(s).unwrap()] + script(next_state(s))
    } else {
        Seq::empty()
    }
}

/// Takes the walk over `sketch` from its first step to its last, and gives
/// all its steps in order: they are those of `script`, which depends on
/// the shape of the tree and on nothing else.
pub fn run(sketch: &sketch::Tree) -> (events: Vec<Event>)
    ensures
        events@ == script(initial(sketch.spec_levels(), sketch.spec_block_size())),
{
    let mut context = crate::writer::plan::Context::new(sketch);
    let mut kont = crate::writer::plan::Script::boot();
    let mut events: Vec<Event> = Vec::new();
    let ghost all = script(context@);
    proof {
        assert(events@ + script(context@) =~= all);
    }
    loop
        invariant
            context.wf(),
            all == script(initial(sketch.spec_levels(), sketch.spec_block_size())),
            all == events@ + script(context@),
        decreases work(context@.cursors),
    {
        let ghost s = context@;
        let ghost before = events@;
        proof {
            if s.level_curr < s.cursors.len() {
                lemma_step_works(s);
            }
        }
        match kont.next.step(&mut context) {
            crate::writer::plan::Instruction::Perform(perform) => {
                events.push(
                    Event {
                        op: perform.op,
                        level_index: perform.level_index,
                        block_index: perform.block_index,
                    },
                );
                kont = perform.next;
                proof {
                    assert(script(s) == seq![next_event(s).unwrap()] + script(next_state(s)));
                    assert(events@ + script(context@) =~= before + script(s));
                }
            },
            crate::writer::plan::Instruction::Done => {
                proof {
                    assert(script(s) =~= Seq::<Event>::empty());
                    assert(before + script(s) =~= before);
                }
                return events;
            },
        }
    }
}

/// The state in which the walk from `s` ends.
pub open spec fn finish(s: State) -> State
    decreases work(s.cursors),
{
    if valid(s) && s.level_curr < s.cursors.len() {
        proof {
            lemma_step_works(s);
        }
        finish(next_state(s))
    } else {
        s
    }
}

/// How many items of level `level_index` the steps `events` write.
pub open spec fn items_written(events: Seq<Event>, level_index: usize) -> nat
    decreases events.len(),
{
    if events.len() == 0 {
        0
    } else {
        items_written(events.subrange(1, events.len() as int), level_index) + if events[0].op
            is BlockItem && events[0].level_index == level_index {
            1nat
        } else {
            0nat
        }
    }
}

/// How many blocks of level `level_index` the steps `events` finish.
pub open spec fn blocks_finished(events: Seq<Event>, level_index: usize) -> nat
    decreases events.len(),
{
    if events.len() == 0 {
        0
    } else {
        blocks_finished(events.subrange(1, events.len() as int), level_index) + if events[0].op
            is BlockFinish && events[0].level_index == level_index {
            1nat
        } else {
            0nat
        }
    }
}

/// How many blocks of level `level_index` the steps `events` start.
pub open spec fn blocks_started(events: Seq<Event>, level_index: usize) -> nat
    decreases events.len(),
{
    if events.len() == 0 {
        0
    } else {
        blocks_started(events.subrange(1, events.len() as int), level_index) + if events[0].op
            is BlockStart && events[0].level_index == level_index {
            1nat
        } else {
            0nat
        }
    }
}

/// What a tree's levels have in common: none is empty, each has the blocks
/// that its items need, the root is one block, and a level has no more
/// blocks than the level above it has items.
pub open spec fn shaped(levels: Seq<Level>, block_size: usize) -> bool {
    &&& block_size >= 1
    &&& levels.len() <= usize::MAX
    &&& forall|i: int|
        0 <= i < levels.len() ==> {
            &&& (#[trigger] levels[i]).index == i
            &&& 1 <= levels[i].items_count <= levels[i].blocks_count * block_size
            &&& (levels[i].blocks_count - 1) * block_size < levels[i].items_count
            &&& i == 0 ==> levels[i].blocks_count == 1
            &&& i > 0 ==> levels[i].blocks_count <= levels[i - 1].items_count
        }
}

/// The levels that `sketch::layout` gives are shaped.
pub proof fn lemma_layout_shaped(items_total: usize, block_size: usize)
    requires
        block_size >= 1,
    ensures
        shaped(sketch::layout(items_total as nat, block_size as nat, 0), block_size),
{
    let levels = sketch::layout(items_total as nat, block_size as nat, 0);
    sketch::lemma_layout_levels(items_total as nat, block_size as nat, 0);
    assert forall|i: int| 0 <= i < levels.len() implies {
        &&& (#[trigger] levels[i]).index == i
        &&& 1 <= levels[i].items_count <= levels[i].blocks_count * block_size
        &&& (levels[i].blocks_count - 1) * block_size < levels[i].items_count
        &&& i == 0 ==> levels[i].blocks_count == 1
        &&& i > 0 ==> levels[i].blocks_count <= levels[i - 1].items_count
    } by {
        if i > 0 {
            let above = levels[i - 1];
            assert(above.blocks_count == sketch::power(block_size as nat, (i - 1) as nat));
            assert(sketch::power(block_size as nat, i as nat) == block_size * sketch::power(
                block_size as nat,
                (i - 1) as nat,
            ));
            assert(above.items_count == above.blocks_count * block_size);
            assert(block_size * sketch::power(block_size as nat, (i - 1) as nat)
                == above.blocks_count * block_size) by (nonlinear_arith)
                requires
                    above.blocks_count == sketch::power(block_size as nat, (i - 1) as nat),
            ;
        } else {
            assert(sketch::power(block_size as nat, 0) == 1);
        }
    }
}

/// The level that cursor `k` stands on: cursors run from the deepest level
/// up, levels from the root down.
pub open spec fn level_of(levels: Seq<Level>, k: int) -> Level {
    levels[levels.len() - 1 - k]
}

/// The items of its level that cursor `c` has behind it.
pub open spec fn written(c: LevelCursor, level: Level) -> int {
    level.items_count - c.items_remain
}

/// A cursor agrees with its level: what is written fills the finished blocks
/// and the current one as far as the cursor says.
pub open spec fn cursor_agrees(c: LevelCursor, level: Level, block_size: usize) -> bool {
    &&& c.level_index == level.index
    &&& c.items_remain <= level.items_count
    &&& match c.block_cursor {
        BlockCursor::Begin => {
            &&& c.items_remain > 0 ==> written(c, level) == c.block_index * block_size
            &&& c.items_remain == 0 ==> c.block_index == level.blocks_count
        },
        BlockCursor::Write { index } => written(c, level) == c.block_index * block_size + index,
        BlockCursor::Commit => {
            &&& c.block_index * block_size < written(c, level) <= (c.block_index + 1) * block_size
            &&& c.items_remain == 0 || written(c, level) == (c.block_index + 1) * block_size
        },
    }
}

/// Whether the walk stands on level `k` with an item to write: then the
/// block below, just finished, has no item above it yet.
pub open spec fn owes(s: State, k: int) -> bool {
    k == s.level_curr && !(s.cursors[k].block_cursor is Commit)
}

/// Two neighbouring levels agree: the lower one has all its blocks finished,
/// or as many as the upper one has items written, and one more where the
/// upper one owes an item.
pub open spec fn pair_agrees(s: State, levels: Seq<Level>, k: int) -> bool {
    let below = s.cursors[k - 1];
    let above = s.cursors[k];
    ||| below.block_index == level_of(levels, k - 1).blocks_count
    ||| below.block_index == written(above, level_of(levels, k)) + if owes(s, k) {
        1int
    } else {
        0int
    }
}

/// What holds of every state that the walk over the levels `levels` reaches.
pub open spec fn on_course(s: State, levels: Seq<Level>) -> bool {
    &&& valid(s)
    &&& shaped(levels, s.block_size)
    &&& s.cursors.len() == levels.len()
    &&& forall|k: int|
        0 <= k < s.cursors.len() ==> {
            &&& cursor_agrees(#[trigger] s.cursors[k], level_of(levels, k), s.block_size)
            &&& k < s.level_curr ==> s.cursors[k].block_index >= 1
            &&& k >= 1 ==> pair_agrees(s, levels, k)
        }
}

/// A block that is begun or about to be finished is one of its level's.
pub proof fn lemma_block_within(c: LevelCursor, level: Level, block_size: usize)
    requires
        block_size >= 1,
        cursor_agrees(c, level, block_size),
        c.block_cursor is Write ==> c.items_remain > 0,
        level.items_count <= level.blocks_count * block_size,
        (level.blocks_count - 1) * block_size < level.items_count,
    ensures
        c.block_index <= level.blocks_count,
        c.items_remain > 0 || !(c.block_cursor is Begin) ==> c.block_index < level.blocks_count,
        c.block_cursor is Commit && c.items_remain == 0 ==> c.block_index + 1
            == level.blocks_count,
        c.block_index == level.blocks_count ==> c.items_remain == 0,
{
    let b = c.block_index as int;
    let n = level.blocks_count as int;
    let d = block_size as int;
    let e = written(c, level);
    let total = level.items_count as int;
    if c.items_remain > 0 || !(c.block_cursor is Begin) {
        assert(b * d < total);
        assert(b < n) by (nonlinear_arith)
            requires
                b * d < total,
                total <= n * d,
                d >= 1,
        ;
    }
    if c.block_cursor is Commit && c.items_remain == 0 {
        assert(b + 1 >= n) by (nonlinear_arith)
            requires
                (n - 1) * d < total,
                total <= (b + 1) * d,
                d >= 1,
        ;
    }
}

/// The walk starts on course.
pub proof fn lemma_initial_on_course(levels: Seq<Level>, block_size: usize)
    requires
        shaped(levels, block_size),
    ensures
        on_course(initial(levels, block_size), levels),
{
    let s = initial(levels, block_size);
    assert forall|k: int| 0 <= k < s.cursors.len() implies {
        &&& cursor_agrees(#[trigger] s.cursors[k], level_of(levels, k), s.block_size)
        &&& k < s.level_curr ==> s.cursors[k].block_index >= 1
        &&& k >= 1 ==> pair_agrees(s, levels, k)
    } by {
        let level = level_of(levels, k);
        assert(level.items_count >= 1);
        assert(0 * block_size == 0) by (nonlinear_arith);
        if k >= 1 {
            assert(level_of(levels, k - 1).items_count >= 1);
        }
    }
    assert forall|k: int| 0 <= k < s.cursors.len() implies {
        let c = #[trigger] s.cursors[k];
        &&& c.block_index + c.items_remain + (if c.block_cursor is Commit {
            1int
        } else {
            0int
        }) <= usize::MAX
        &&& c.block_cursor matches BlockCursor::Write { index } ==> c.items_remain > 0 && index
            < s.block_size
        &&& k < s.level_curr ==> c.block_cursor is Begin
        &&& k > s.level_curr ==> c.items_remain > 0 && !(c.block_cursor is Commit)
        &&& k == s.level_curr && c.block_cursor is Begin ==> c.items_remain > 0
    } by {
        assert(level_of(levels, k).items_count >= 1);
    }
}

/// A step keeps the walk on course.
pub proof fn lemma_step_on_course(s: State, levels: Seq<Level>)
    requires
        on_course(s, levels),
        s.level_curr < s.cursors.len(),
    ensures
        on_course(next_state(s), levels),
{
    lemma_step_valid(s);
    let t = next_state(s);
    let at = s.level_curr as int;
    let c = s.cursors[at];
    let d = s.block_size as int;
    let level = level_of(levels, at);
    assert(cursor_agrees(c, level, s.block_size));
    lemma_block_within(c, level, s.block_size);
    match c.block_cursor {
        BlockCursor::Begin => {
            assert forall|k: int| 0 <= k < t.cursors.len() implies {
                &&& cursor_agrees(#[trigger] t.cursors[k], level_of(levels, k), t.block_size)
                &&& k < t.level_curr ==> t.cursors[k].block_index >= 1
                &&& k >= 1 ==> pair_agrees(t, levels, k)
            } by {
                assert(cursor_agrees(s.cursors[k], level_of(levels, k), s.block_size));
                if k >= 1 {
                    assert(pair_agrees(s, levels, k));
                    assert(owes(s, k) == owes(t, k));
                }
            }
        },
        BlockCursor::Write { index } => {
            let remain = (c.items_remain - 1) as usize;
            assert((c.block_index + 1) * d == c.block_index * d + d) by (nonlinear_arith);
            if remain == 0 || index + 1 == s.block_size {
                assert forall|k: int| 0 <= k < t.cursors.len() implies {
                    &&& cursor_agrees(#[trigger] t.cursors[k], level_of(levels, k), t.block_size)
                    &&& k < t.level_curr ==> t.cursors[k].block_index >= 1
                    &&& k >= 1 ==> pair_agrees(t, levels, k)
                } by {
                    assert(cursor_agrees(s.cursors[k], level_of(levels, k), s.block_size));
                    if k >= 1 {
                        assert(pair_agrees(s, levels, k));
                    }
                }
            } else {
                lemma_fall(t.cursors, at);
                let landed = t.level_curr as int;
                assert forall|k: int| 0 <= k < t.cursors.len() implies {
                    &&& cursor_agrees(#[trigger] t.cursors[k], level_of(levels, k), t.block_size)
                    &&& k < t.level_curr ==> t.cursors[k].block_index >= 1
                    &&& k >= 1 ==> pair_agrees(t, levels, k)
                } by {
                    assert(cursor_agrees(s.cursors[k], level_of(levels, k), s.block_size));
                    if k >= 1 {
                        assert(pair_agrees(s, levels, k));
                        if k == landed {
                            let below = s.cursors[k - 1];
                            assert(below.items_remain == 0);
                            assert(below.block_cursor is Begin);
                            assert(cursor_agrees(below, level_of(levels, k - 1), s.block_size));
                        }
                    }
                }
            }
        },
        BlockCursor::Commit => {
            assert forall|k: int| 0 <= k < t.cursors.len() implies {
                &&& cursor_agrees(#[trigger] t.cursors[k], level_of(levels, k), t.block_size)
                &&& k < t.level_curr ==> t.cursors[k].block_index >= 1
                &&& k >= 1 ==> pair_agrees(t, levels, k)
            } by {
                assert(cursor_agrees(s.cursors[k], level_of(levels, k), s.block_size));
                if k >= 1 {
                    assert(pair_agrees(s, levels, k));
                }
            }
        },
    }
}

/// A walk on course ends with every level written out and every block
/// finished.
pub proof fn lemma_end_complete(s: State, levels: Seq<Level>, k: int)
    requires
        on_course(s, levels),
        s.level_curr == s.cursors.len(),
        0 <= k < s.cursors.len(),
    ensures
        s.cursors[k].items_remain == 0,
        s.cursors[k].block_index == level_of(levels, k).blocks_count,
    decreases s.cursors.len() - k,
{
    let c = s.cursors[k];
    let level = level_of(levels, k);
    let d = s.block_size as int;
    assert(cursor_agrees(c, level, s.block_size));
    assert(c.block_cursor is Begin);
    lemma_block_within(c, level, s.block_size);
    if k == s.cursors.len() - 1 {
        assert(level.blocks_count == 1);
        assert(c.block_index >= 1);
    } else {
        lemma_end_complete(s, levels, k + 1);
        let above = s.cursors[k + 1];
        assert(pair_agrees(s, levels, k + 1));
        assert(cursor_agrees(above, level_of(levels, k + 1), s.block_size));
        assert(level.blocks_count <= level_of(levels, k + 1).items_count);
    }
}

/// The walk from a state on course ends on course, past the root.
pub proof fn lemma_finish_on_course(s: State, levels: Seq<Level>)
    requires
        on_course(s, levels),
    ensures
        on_course(finish(s), levels),
        finish(s).level_curr == levels.len(),
    decreases work(s.cursors),
{
    if s.level_curr < s.cursors.len() {
        lemma_step_works(s);
        lemma_step_on_course(s, levels);
        lemma_finish_on_course(next_state(s), levels);
    }
}

/// The walk is on course over the levels `levels`: `on_course`, to be
/// carried along without being looked into.
#[verifier::opaque]
pub open spec fn steady(s: State, levels: Seq<Level>) -> bool {
    on_course(s, levels)
}

/// The walk over a tree starts on course.
pub proof fn lemma_steady_start(levels: Seq<Level>, items_total: usize, block_size: usize)
    requires
        block_size >= 1,
        levels == sketch::layout(items_total as nat, block_size as nat, 0),
    ensures
        steady(initial(levels, block_size), levels),
{
    reveal(steady);
    lemma_layout_shaped(items_total, block_size);
    lemma_initial_on_course(levels, block_size);
}

/// A step keeps the walk on course.
pub proof fn lemma_steady_step(s: State, levels: Seq<Level>)
    requires
        steady(s, levels),
        s.level_curr < s.cursors.len(),
    ensures
        steady(next_state(s), levels),
{
    reveal(steady);
    lemma_step_on_course(s, levels);
}

/// A level that a walk on course has not begun has all its items before
/// it.
pub proof fn lemma_steady_fresh(s: State, levels: Seq<Level>, k: int)
    requires
        steady(s, levels),
        0 <= k < s.cursors.len(),
        s.cursors[k].block_cursor is Begin,
        s.cursors[k].block_index == 0,
        s.cursors[k].items_remain > 0,
    ensures
        s.cursors.len() == levels.len(),
        s.cursors[k].items_remain == level_of(levels, k).items_count,
{
    reveal(steady);
    let c = s.cursors[k];
    assert(cursor_agrees(c, level_of(levels, k), s.block_size));
    assert(c.block_index * s.block_size == 0) by (nonlinear_arith)
        requires
            c.block_index == 0,
    ;
}

/// A walk on course never has more items before it on a level than the
/// level has.
pub proof fn lemma_steady_within(s: State, levels: Seq<Level>, k: int)
    requires
        steady(s, levels),
        0 <= k < s.cursors.len(),
    ensures
        s.cursors.len() == levels.len(),
        s.cursors[k].items_remain <= level_of(levels, k).items_count,
{
    reveal(steady);
    assert(cursor_agrees(s.cursors[k], level_of(levels, k), s.block_size));
}

/// At the end of a walk on course every level has written all its items
/// and finished all its blocks, of which it has one at least.
pub proof fn lemma_steady_end(s: State, levels: Seq<Level>, k: int)
    requires
        steady(s, levels),
        next_event(s) is None,
        0 <= k < s.cursors.len(),
    ensures
        s.cursors.len() == levels.len(),
        s.cursors[k].block_index >= 1,
        s.cursors[k].block_cursor is Begin,
        s.cursors[k].items_remain == 0,
        s.cursors[k].block_index == level_of(levels, k).blocks_count,
{
    reveal(steady);
    lemma_end_complete(s, levels, k);
    let level = level_of(levels, k);
    assert(level.blocks_count >= 1) by (nonlinear_arith)
        requires
            1 <= level.items_count <= level.blocks_count * s.block_size,
    ;
}

/// The cursors carry the indices of their levels: the deepest level first,
/// the root last.
pub open spec fn indexed(s: State) -> bool {
    forall|k: int|
        0 <= k < s.cursors.len() ==> (#[trigger] s.cursors[k]).level_index == s.cursors.len() - 1
            - k
}

/// The blocks that a cursor has begun: those that are finished, and the one
/// that it stands in.
pub open spec fn begun(c: LevelCursor) -> int {
    c.block_index + if c.block_cursor is Begin {
        0int
    } else {
        1int
    }
}

/// What one step does to the cursor of level `k`: it takes an item away
/// where the step writes one there, and counts a block where it starts or
/// finishes one.
pub proof fn lemma_step_counts(s: State, k: int)
    requires
        valid(s),
        indexed(s),
        s.level_curr < s.cursors.len(),
        0 <= k < s.cursors.len(),
    ensures
        ({
            let t = next_state(s);
            let ev = next_event(s).unwrap();
            let index = (s.cursors.len() - 1 - k) as usize;
            &&& valid(t)
            &&& indexed(t)
            &&& t.cursors.len() == s.cursors.len()
            &&& t.cursors[k].items_remain == s.cursors[k].items_remain - if ev.op is BlockItem
                && ev.level_index == index {
                1int
            } else {
                0int
            }
            &&& t.cursors[k].block_index == s.cursors[k].block_index + if ev.op is BlockFinish
                && ev.level_index == index {
                1int
            } else {
                0int
            }
            &&& begun(t.cursors[k]) == begun(s.cursors[k]) + if ev.op is BlockStart
                && ev.level_index == index {
                1int
            } else {
                0int
            }
        }),
{
    lemma_step_valid(s);
    let t = next_state(s);
    let at = s.level_curr as int;
    assert(s.cursors[at].level_index == s.cursors.len() - 1 - at);
    assert(s.cursors[k].level_index == s.cursors.len() - 1 - k);
    assert forall|j: int| 0 <= j < t.cursors.len() implies (#[trigger] t.cursors[j]).level_index
        == t.cursors.len() - 1 - j by {
        assert(s.cursors[j].level_index == s.cursors.len() - 1 - j);
    }
}

/// What the steps from `s` on write and finish is what separates `s` from
/// the state in which the walk ends.
pub proof fn lemma_script_counts(s: State, k: int)
    requires
        valid(s),
        indexed(s),
        0 <= k < s.cursors.len(),
    ensures
        finish(s).cursors.len() == s.cursors.len(),
        items_written(script(s), (s.cursors.len() - 1 - k) as usize) == s.cursors[k].items_remain
            - finish(s).cursors[k].items_remain,
        blocks_finished(script(s), (s.cursors.len() - 1 - k) as usize) == finish(
            s,
        ).cursors[k].block_index - s.cursors[k].block_index,
        blocks_started(script(s), (s.cursors.len() - 1 - k) as usize) == begun(
            finish(s).cursors[k],
        ) - begun(s.cursors[k]),
    decreases work(s.cursors),
{
    if s.level_curr < s.cursors.len() {
        lemma_step_works(s);
        lemma_step_counts(s, k);
        let t = next_state(s);
        lemma_script_counts(t, k);
        let events = script(s);
        assert(events.subrange(1, events.len() as int) =~= script(t));
        assert(events[0] == next_event(s).unwrap());
    }
}

/// The walk over a tree starts with its cursors numbered, and ends with
/// every level between blocks, all its blocks finished.
pub proof fn lemma_walk_ends(items_total: usize, block_size: usize, level_index: int)
    requires
        block_size >= 1,
        0 <= level_index < sketch::layout(items_total as nat, block_size as nat, 0).len(),
    ensures
        ({
            let levels = sketch::layout(items_total as nat, block_size as nat, 0);
            let start = initial(levels, block_size);
            let end = finish(start);
            let c = end.cursors[levels.len() - 1 - level_index];
            &&& valid(start)
            &&& indexed(start)
            &&& start.cursors.len() == levels.len()
            &&& end.cursors.len() == levels.len()
            &&& c.block_cursor is Begin
            &&& c.block_index == levels[level_index].blocks_count
            &&& c.block_index >= 1
        }),
{
    let levels = sketch::layout(items_total as nat, block_size as nat, 0);
    let s = initial(levels, block_size);
    lemma_layout_shaped(items_total, block_size);
    lemma_initial_on_course(levels, block_size);
    lemma_finish_on_course(s, levels);
    let k = levels.len() - 1 - level_index;
    assert forall|j: int| 0 <= j < s.cursors.len() implies (#[trigger] s.cursors[j]).level_index
        == s.cursors.len() - 1 - j by {
        assert(levels[levels.len() - 1 - j].index == levels.len() - 1 - j);
    }
    lemma_end_complete(finish(s), levels, k);
    assert(level_of(levels, k) == levels[level_index]);
    assert(levels[level_index].blocks_count >= 1);
    assert(finish(s).cursors[k] == finish(s).cursors[k]);
}

/// The walk over a tree writes every item of every level and starts and
/// finishes every block of every level, no more and no fewer.
pub proof fn lemma_walk_complete(items_total: usize, block_size: usize, level_index: int)
    requires
        block_size >= 1,
        0 <= level_index < sketch::layout(items_total as nat, block_size as nat, 0).len(),
    ensures
        ({
            let levels = sketch::layout(items_total as nat, block_size as nat, 0);
            let events = script(initial(levels, block_size));
            &&& items_written(events, level_index as usize) == levels[level_index].items_count
            &&& blocks_started(events, level_index as usize) == levels[level_index].blocks_count
            &&& blocks_finished(events, level_index as usize) == levels[level_index].blocks_count
        }),
{
    let levels = sketch::layout(items_total as nat, block_size as nat, 0);
    let s = initial(levels, block_size);
    lemma_layout_shaped(items_total, block_size);
    lemma_initial_on_course(levels, block_size);
    lemma_finish_on_course(s, levels);
    let k = levels.len() - 1 - level_index;
    assert forall|j: int| 0 <= j < s.cursors.len() implies (#[trigger] s.cursors[j]).level_index
        == s.cursors.len() - 1 - j by {
        assert(levels[levels.len() - 1 - j].index == levels.len() - 1 - j);
    }
    lemma_script_counts(s, k);
    lemma_end_complete(finish(s), levels, k);
    assert(level_of(levels, k) == levels[level_index]);
}

/// The state of the walk from `s` after `steps` steps.
pub open spec fn after(s: State, steps: nat) -> State
    decreases steps,
{
    if steps == 0 {
        s
    } else {
        after(next_state(s), (steps - 1) as nat)
    }
}

/// Two walks over the same levels with the same block size ask for the same
/// thing at every step: a walk is replayed by starting it again.
pub proof fn lemma_replay(
    levels: Seq<Level>,
    block_size: usize,
    again: Seq<Level>,
    again_block_size: usize,
    steps: nat,
)
    requires
        levels == again,
        block_size == again_block_size,
    ensures
        next_event(after(initial(levels, block_size), steps)) == next_event(
            after(initial(again, again_block_size), steps),
        ),
        script(initial(levels, block_size)) == script(initial(again, again_block_size)),
{
}

/// The script of a walk is what its steps ask for, one after the other.
pub proof fn lemma_script_steps(s: State, steps: nat)
    requires
        valid(s),
        steps < script(s).len(),
    ensures
        next_event(after(s, steps)) == Some(script(s)[steps as int]),
    decreases steps,
{
    lemma_step_valid(s);
    lemma_step_works(s);
    if steps > 0 {
        lemma_script_steps(next_state(s), (steps - 1) as nat);
    }
}

} // verus!
