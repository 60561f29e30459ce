//! The order in which the blocks and items of a tree are written.
//!
//! A block is finished before the item of the level above that refers to it,
//! so the walk starts at the deepest level and climbs one level each time a
//! block is complete.

use vstd::prelude::*;
use crate::sketch;

verus! {

/// What the walk asks for next: an operation, or nothing more.
pub enum Instruction {
    Perform(Perform),
    Done,
}

/// An operation on a block of a level, with the continuation of the walk.
pub struct Perform {
    pub op: Op,
    pub level_index: usize,
    pub block_index: usize,
    pub next: Continue,
}

/// The operations of the walk: a block starts with the number of items that
/// it will hold, takes its items one by one, and is finished.
pub enum Op {
    BlockStart { items_count: usize },
    BlockItem { index: usize },
    BlockFinish,
}

/// The way on from an instruction.
pub struct Continue {
    pub next: Script,
}

/// The walk itself: it holds nothing, all that it knows is in its context.
pub struct Script(());

/// What the walk knows: where it stands on each level.
pub struct Context {
    cursors: Vec<LevelCursor>,
    block_size: usize,
    level_curr: usize,
}

/// Where the walk stands on one level.
#[derive(Clone, Copy)]
pub struct LevelCursor {
    pub level_index: usize,
    pub block_index: usize,
    pub items_remain: usize,
    pub block_cursor: BlockCursor,
}

/// Where the walk stands in the current block of a level.
#[derive(Clone, Copy)]
pub enum BlockCursor {
    Begin,
    Write { index: usize },
    Commit,
}

/// The walk's state: one cursor per level, deepest level first.
pub struct State {
    pub cursors: Seq<LevelCursor>,
    pub block_size: usize,
    pub level_curr: usize,
}

/// What a step asks for: an operation on a block of a level.
pub struct Event {
    pub op: Op,
    pub level_index: usize,
    pub block_index: usize,
}

/// The state before the first step: every level stands before its first block.
pub open spec fn initial(levels: Seq<sketch::Level>, block_size: usize) -> State {
    State {
        cursors: Seq::new(
            levels.len(),
            |k: int|
                LevelCursor {
                    level_index: levels[levels.len() - 1 - k].index,
                    block_index: 0,
                    items_remain: levels[levels.len() - 1 - k].items_count,
                    block_cursor: BlockCursor::Begin,
                },
        ),
        block_size,
        level_curr: 0,
    }
}

/// The deepest level that can be reached from `level` through levels that
/// still have items.
pub open spec fn fall(cursors: Seq<LevelCursor>, level: int) -> int
    decreases level,
{
    if 0 < level <= cursors.len() && cursors[level - 1].items_remain > 0 {
        fall(cursors, level - 1)
    } else {
        level
    }
}

/// What the next step asks for; `None` when the walk is over.
pub open spec fn next_event(s: State) -> Option<Event> {
    if s.level_curr >= s.cursors.len() {
        None
    } else {
        let c = s.cursors[s.level_curr as int];
        Some(
            Event {
                op: match c.block_cursor {
                    BlockCursor::Begin => Op::BlockStart {
                        items_count: if c.items_remain < s.block_size {
                            c.items_remain
                        } else {
                            s.block_size
                        },
                    },
                    BlockCursor::Write { index } => Op::BlockItem { index },
                    BlockCursor::Commit => Op::BlockFinish,
                },
                level_index: c.level_index,
                block_index: c.block_index,
            },
        )
    }
}

/// The state after the next step.
pub open spec fn next_state(s: State) -> State {
    if s.level_curr >= s.cursors.len() {
        s
    } else {
        let at = s.level_curr as int;
        let c = s.cursors[at];
        match c.block_cursor {
            BlockCursor::Begin => State {
                cursors: s.cursors.update(
                    at,
                    LevelCursor { block_cursor: BlockCursor::Write { index: 0 }, ..c },
                ),
                ..s
            },
            BlockCursor::Write { index } => {
                let remain = (c.items_remain - 1) as usize;
                if remain == 0 || index + 1 == s.block_size {
                    State {
                        cursors: s.cursors.update(
                            at,
                            LevelCursor {
                                items_remain: remain,
                                block_cursor: BlockCursor::Commit,
                                ..c
                            },
                        ),
                        ..s
                    }
                } else {
                    let cursors = s.cursors.update(
                        at,
                        LevelCursor {
                            items_remain: remain,
                            block_cursor: BlockCursor::Write { index: (index + 1) as usize },
                            ..c
                        },
                    );
                    State { cursors, level_curr: fall(cursors, at) as usize, ..s }
                }
            },
            BlockCursor::Commit => State {
                cursors: s.cursors.update(
                    at,
                    LevelCursor {
                        block_index: (c.block_index + 1) as usize,
                        block_cursor: BlockCursor::Begin,
                        ..c
                    },
                ),
                level_curr: (s.level_curr + 1) as usize,
                ..s
            },
        }
    }
}

/// What holds of every state that the walk over a tree reaches: the levels
/// below the current one stand between blocks, those above it wait in the
/// middle of one, and no step runs out of items.
pub open spec fn valid(s: State) -> bool {
    &&& s.block_size >= 1
    &&& s.level_curr <= s.cursors.len() <= usize::MAX
    &&& forall|k: int|
        0 <= k < s.cursors.len() ==> {
            let c = #[trigger] s.cursors[k];
            &&& c.block_index + c.items_remain + (if c.block_cursor is Commit {
                1int
            } else {
                0int
            }) <= usize::MAX
            &&& c.block_cursor matches BlockCursor::Write { index } ==> c.items_remain > 0 && index
                < s.block_size
            &&& k < s.level_curr ==> c.block_cursor is Begin
            &&& k > s.level_curr ==> c.items_remain > 0 && !(c.block_cursor is Commit)
            &&& k == s.level_curr && c.block_cursor is Begin ==> c.items_remain > 0
        }
}

/// `fall` stays within the levels at and below the one it starts from, and
/// stops on a level whose lower neighbour has no items left.
pub proof fn lemma_fall(cursors: Seq<LevelCursor>, level: int)
    requires
        0 <= level <= cursors.len(),
    ensures
        0 <= fall(cursors, level) <= level,
        forall|k: int| fall(cursors, level) <= k < level ==> (#[trigger] cursors[k]).items_remain > 0,
        fall(cursors, level) > 0 ==> cursors[fall(cursors, level) - 1].items_remain == 0,
    decreases level,
{
    if 0 < level && cursors[level - 1].items_remain > 0 {
        lemma_fall(cursors, level - 1);
    }
}

/// A step from a valid state leads to a valid state.
pub proof fn lemma_step_valid(s: State)
    requires
        valid(s),
    ensures
        valid(next_state(s)),
{
    if s.level_curr < s.cursors.len() {
        let at = s.level_curr as int;
        let c = s.cursors[at];
        let t = next_state(s);
        match c.block_cursor {
            BlockCursor::Begin => {
                assert forall|k: int| 0 <= k < t.cursors.len() implies {
                    let c = #[trigger] t.cursors[k];
                    &&& c.block_index + c.items_remain + (if c.block_cursor is Commit {
                        1int
                    } else {
                        0int
                    }) <= usize::MAX
                    &&& c.block_cursor matches BlockCursor::Write { index } ==> c.items_remain > 0
                        && index < t.block_size
                    &&& k < t.level_curr ==> c.block_cursor is Begin
                    &&& k > t.level_curr ==> c.items_remain > 0 && !(c.block_cursor is Commit)
                    &&& k == t.level_curr && c.block_cursor is Begin ==> c.items_remain > 0
                } by {
                    assert(s.cursors[k] == s.cursors[k]);
                }
            },
            BlockCursor::Write { index } => {
                let remain = (c.items_remain - 1) as usize;
                if !(remain == 0 || index + 1 == s.block_size) {
                    lemma_fall(t.cursors, at);
                }
                assert forall|k: int| 0 <= k < t.cursors.len() implies {
                    let c = #[trigger] t.cursors[k];
                    &&& c.block_index + c.items_remain + (if c.block_cursor is Commit {
                        1int
                    } else {
                        0int
                    }) <= usize::MAX
                    &&& c.block_cursor matches BlockCursor::Write { index } ==> c.items_remain > 0
                        && index < t.block_size
                    &&& k < t.level_curr ==> c.block_cursor is Begin
                    &&& k > t.level_curr ==> c.items_remain > 0 && !(c.block_cursor is Commit)
                    &&& k == t.level_curr && c.block_cursor is Begin ==> c.items_remain > 0
                } by {
                    assert(s.cursors[k] == s.cursors[k]);
                }
            },
            BlockCursor::Commit => {
                assert forall|k: int| 0 <= k < t.cursors.len() implies {
                    let c = #[trigger] t.cursors[k];
                    &&& c.block_index + c.items_remain + (if c.block_cursor is Commit {
                        1int
                    } else {
                        0int
                    }) <= usize::MAX
                    &&& c.block_cursor matches BlockCursor::Write { index } ==> c.items_remain > 0
                        && index < t.block_size
                    &&& k < t.level_curr ==> c.block_cursor is Begin
                    &&& k > t.level_curr ==> c.items_remain > 0 && !(c.block_cursor is Commit)
                    &&& k == t.level_curr && c.block_cursor is Begin ==> c.items_remain > 0
                } by {
                    assert(s.cursors[k] == s.cursors[k]);
                }
            },
        }
    }
}

impl Instruction {
    /// The operation that the instruction asks for, without its continuation.
    pub open spec fn event(self) -> Option<Event> {
        match self {
            Instruction::Perform(p) => Some(
                Event { op: p.op, level_index: p.level_index, block_index: p.block_index },
            ),
            Instruction::Done => None,
        }
    }
}

impl View for Context {
    type V = State;

    closed spec fn view(&self) -> State {
        State { cursors: self.cursors@, block_size: self.block_size, level_curr: self.level_curr }
    }
}

impl Context {
    /// The context holds a state that the walk can go on from.
    pub open spec fn wf(&self) -> bool {
        valid(self@)
    }

    /// The walk over `sketch`, before its first step.
    pub fn new(sketch: &sketch::Tree) -> (context: Context)
        ensures
            context@ == initial(sketch.spec_levels(), sketch.spec_block_size()),
            context.wf(),
    {
        let levels = sketch.levels();
        let block_size = sketch.block_size();
        proof {
            sketch::lemma_layout_levels(
                sketch.spec_items_total() as nat,
                sketch.spec_block_size() as nat,
                0,
            );
        }
        let mut cursors: Vec<LevelCursor> = Vec::new();
        let mut k: usize = 0;
        let ghost target = initial(sketch.spec_levels(), sketch.spec_block_size());
        while k < levels.len()
            invariant
                k <= levels.len(),
                levels@ == sketch.spec_levels(),
                cursors@.len() == k,
                target == initial(levels@, block_size),
                forall|j: int| 0 <= j < k ==> cursors@[j] == target.cursors[j],
            decreases levels.len() - k,
        {
            let level = &levels[levels.len() - 1 - k];
            cursors.push(
                LevelCursor {
                    level_index: level.index,
                    block_index: 0,
                    items_remain: level.items_count,
                    block_cursor: BlockCursor::Begin,
                },
            );
            k = k + 1;
        }
        assert(cursors@ =~= target.cursors);
        let context = Context { cursors, block_size, level_curr: 0 };
        assert(valid(context@)) by {
            assert forall|k: int| 0 <= k < context@.cursors.len() implies (
            #[trigger] context@.cursors[k]).items_remain > 0 by {
                assert(levels@[levels@.len() - 1 - k].items_count >= 1);
            }
        }
        context
    }
}

impl Script {
    /// The continuation that starts a walk.
    pub fn boot() -> (kont: Continue) {
        Continue { next: Script(()) }
    }

    /// Takes one step of the walk: says what to do next, and moves on.
    pub fn step(self, context: &mut Context) -> (instruction: Instruction)
        requires
            old(context).wf(),
        ensures
            final(context).wf(),
            final(context)@ == next_state(old(context)@),
            instruction.event() == next_event(old(context)@),
    {
        proof {
            lemma_step_valid(context@);
        }
        let at = context.level_curr;
        if at >= context.cursors.len() {
            return Instruction::Done;
        }
        let cursor = context.cursors[at];
        match cursor.block_cursor {
            BlockCursor::Begin => {
                let items_count = if cursor.items_remain < context.block_size {
                    cursor.items_remain
                } else {
                    context.block_size
                };
                context.cursors.set(
                    at,
                    LevelCursor { block_cursor: BlockCursor::Write { index: 0 }, ..cursor },
                );
                Instruction::Perform(
                    Perform {
                        op: Op::BlockStart { items_count },
                        level_index: cursor.level_index,
                        block_index: cursor.block_index,
                        next: Continue { next: self },
                    },
                )
            },
            BlockCursor::Write { index } => {
                let next_index = index + 1;
                let remain = cursor.items_remain - 1;
                if remain == 0 || next_index == context.block_size {
                    context.cursors.set(
                        at,
                        LevelCursor {
                            items_remain: remain,
                            block_cursor: BlockCursor::Commit,
                            ..cursor
                        },
                    );
                } else {
                    context.cursors.set(
                        at,
                        LevelCursor {
                            items_remain: remain,
                            block_cursor: BlockCursor::Write { index: next_index },
                            ..cursor
                        },
                    );
                    let mut level = at;
                    while level > 0 && context.cursors[level - 1].items_remain > 0
                        invariant
                            level <= at < context.cursors.len(),
                            fall(context.cursors@, level as int) == fall(
                                context.cursors@,
                                at as int,
                            ),
                        decreases level,
                    {
                        level = level - 1;
                    }
                    context.level_curr = level;
                }
                Instruction::Perform(
                    Perform {
                        op: Op::BlockItem { index },
                        level_index: cursor.level_index,
                        block_index: cursor.block_index,
                        next: Continue { next: self },
                    },
                )
            },
            BlockCursor::Commit => {
                context.cursors.set(
                    at,
                    LevelCursor {
                        block_index: cursor.block_index + 1,
                        block_cursor: BlockCursor::Begin,
                        ..cursor
                    },
                );
                context.level_curr = at + 1;
                Instruction::Perform(
                    Perform {
                        op: Op::BlockFinish,
                        level_index: cursor.level_index,
                        block_index: cursor.block_index,
                        next: Continue { next: self },
                    },
                )
            },
        }
    }
}

} // verus!
