//! A fold carried through a whole walk, and what its seeds hold at the end.

use vstd::prelude::*;
use crate::sketch;
use crate::writer::fold::{flushed_seeds, given_back, taken, visit, Error, LevelState, Visit};
use crate::writer::plan::{initial, next_event, next_state, valid, BlockCursor, Event, Op, State};
use crate::writer::script::{blocks_finished, finish, indexed, items_written, script, work};
use crate::writer::script::{lemma_step_counts, lemma_step_works, lemma_walk_complete};

verus! {

/// What a caller does with a level's seed at each kind of visit.
#[verifier::reject_recursive_types(S)]
pub struct Folder<S> {
    pub first: spec_fn(usize) -> S,
    pub start: spec_fn(S) -> S,
    pub item: spec_fn(S) -> S,
    pub finish: spec_fn(S) -> S,
}

/// The levels of a fold before the first step.
pub open spec fn fresh<S>(count: nat) -> Seq<Option<LevelState<S>>> {
    Seq::new(count, |i: int| Some(LevelState::<S>::Bootstrap))
}

/// The levels after a visit of an open or flushed level was answered.
pub open spec fn answered<S>(
    levels: Seq<Option<LevelState<S>>>,
    event: Event,
    v: Visit<S>,
    f: Folder<S>,
) -> Seq<Option<LevelState<S>>> {
    let out = taken(levels, Some(event));
    match v {
        Visit::BlockStart { level_index, level_seed, block_index, .. } => given_back(
            out,
            level_index,
            LevelState::SeenVisitBlockStart { level_seed: (f.start)(level_seed), block_index },
        ),
        Visit::Item { level_index, level_seed, block_index, .. } => given_back(
            out,
            level_index,
            LevelState::SeenVisitBlockStart { level_seed: (f.item)(level_seed), block_index },
        ),
        Visit::BlockFinish { level_index, level_seed, .. } => given_back(
            out,
            level_index,
            LevelState::SeenVisitBlockFinish { level_seed: (f.finish)(level_seed) },
        ),
        Visit::Level { level_index } => given_back(
            out,
            level_index,
            LevelState::SeenVisitLevel { level_seed: (f.first)(level_index) },
        ),
        Visit::Done => levels,
    }
}

/// The levels after the fold has dealt with one step of the walk, every
/// visit answered by `f`; a level's first visit is followed by that of its
/// first block. Or the error that the fold meets.
pub open spec fn fold_event<S>(levels: Seq<Option<LevelState<S>>>, event: Event, f: Folder<S>) -> Result<
    Seq<Option<LevelState<S>>>,
    Error,
> {
    match visit(levels, Some(event)) {
        Err(error) => Err(error),
        Ok(Visit::Level { level_index }) => {
            let ready = answered(levels, event, Visit::Level { level_index }, f);
            match visit(ready, Some(event)) {
                Err(error) => Err(error),
                Ok(v) => Ok(answered(ready, event, v, f)),
            }
        },
        Ok(v) => Ok(answered(levels, event, v, f)),
    }
}

/// The levels after the fold has dealt with the steps `events`, or the first
/// error that it meets.
pub open spec fn fold_all<S>(levels: Seq<Option<LevelState<S>>>, events: Seq<Event>, f: Folder<S>) -> Result<
    Seq<Option<LevelState<S>>>,
    Error,
>
    decreases events.len(),
{
    if events.len() == 0 {
        Ok(levels)
    } else {
        match fold_event(levels, events[0], f) {
            Err(error) => Err(error),
            Ok(next) => fold_all(next, events.subrange(1, events.len() as int), f),
        }
    }
}

/// The seed that a level's state holds.
pub open spec fn seed_of<S>(state: Option<LevelState<S>>) -> Option<S> {
    match state {
        Some(LevelState::SeenVisitLevel { level_seed }) => Some(level_seed),
        Some(LevelState::SeenVisitBlockStart { level_seed, .. }) => Some(level_seed),
        Some(LevelState::SeenVisitBlockFinish { level_seed }) => Some(level_seed),
        _ => None,
    }
}

/// The seed of level `level_index` after `f` has answered the steps
/// `events`, starting from `seed`; a level without a seed gets its first
/// one when it needs it.
pub open spec fn seed_after<S>(seed: Option<S>, events: Seq<Event>, level_index: usize, f: Folder<S>) -> Option<
    S,
>
    decreases events.len(),
{
    if events.len() == 0 {
        seed
    } else {
        let rest = events.subrange(1, events.len() as int);
        if events[0].level_index != level_index {
            seed_after(seed, rest, level_index, f)
        } else {
            let held = match seed {
                Some(held) => held,
                None => (f.first)(level_index),
            };
            let next = match events[0].op {
                Op::BlockStart { .. } => (f.start)(held),
                Op::BlockItem { .. } => (f.item)(held),
                Op::BlockFinish => (f.finish)(held),
            };
            seed_after(Some(next), rest, level_index, f)
        }
    }
}

/// The fold's levels stand as the walk's cursors do: a level that the walk
/// has not touched is untouched, one in the middle of a block has that
/// block open, and one between blocks is flushed.
pub open spec fn in_step<S>(levels: Seq<Option<LevelState<S>>>, s: State) -> bool {
    &&& levels.len() == s.cursors.len()
    &&& forall|k: int|
        0 <= k < s.cursors.len() ==> {
            let c = #[trigger] s.cursors[k];
            let state = levels[levels.len() - 1 - k];
            match c.block_cursor {
                BlockCursor::Begin => if c.block_index == 0 {
                    state == Some(LevelState::<S>::Bootstrap)
                } else {
                    state matches Some(LevelState::SeenVisitBlockFinish { .. })
                },
                _ => state matches Some(LevelState::SeenVisitBlockStart { block_index, .. })
                    && block_index == c.block_index,
            }
        }
}

/// What the walk's cursor `c` asks of its level's state in the fold.
pub open spec fn state_fits<S>(state: Option<LevelState<S>>, c: crate::writer::plan::LevelCursor) -> bool {
    match c.block_cursor {
        BlockCursor::Begin => if c.block_index == 0 {
            state == Some(LevelState::<S>::Bootstrap)
        } else {
            state matches Some(LevelState::SeenVisitBlockFinish { .. })
        },
        _ => state matches Some(LevelState::SeenVisitBlockStart { block_index, .. })
            && block_index == c.block_index,
    }
}

/// The fold's levels stand as the walk's cursors do, but for level `hole`,
/// whose seed is out.
pub open spec fn in_step_but<S>(levels: Seq<Option<LevelState<S>>>, s: State, hole: int) -> bool {
    &&& levels.len() == s.cursors.len()
    &&& 0 <= hole < levels.len()
    &&& levels[hole] is None
    &&& forall|k: int|
        0 <= k < s.cursors.len() && levels.len() - 1 - k != hole ==> state_fits(
            levels[levels.len() - 1 - k],
            #[trigger] s.cursors[k],
        )
}

/// The visit that the walk's next step leads to when the fold is in step
/// with the walk: the fold meets no error, and is in step with the walk
/// again once the level's seed is back.
pub proof fn lemma_visit_in_step<S>(levels: Seq<Option<LevelState<S>>>, s: State)
    requires
        valid(s),
        indexed(s),
        in_step(levels, s),
        s.level_curr < s.cursors.len(),
    ensures
        ({
            let event = next_event(s).unwrap();
            let c = s.cursors[s.level_curr as int];
            let here = event.level_index;
            let t = next_state(s);
            &&& here == levels.len() - 1 - s.level_curr
            &&& event.block_index == c.block_index
            &&& valid(t)
            &&& indexed(t)
            &&& in_step_but(taken(levels, Some(event)), t, here as int)
            &&& t.cursors[s.level_curr as int].block_index == if c.block_cursor is Commit {
                c.block_index + 1
            } else {
                c.block_index as int
            }
            &&& t.cursors[s.level_curr as int].block_cursor is Begin <==> c.block_cursor is Commit
            &&& c.block_cursor is Begin ==> t.level_curr == s.level_curr && t.cursors[s.level_curr
                as int].block_cursor is Write
            &&& t.cursors[s.level_curr as int].level_index == here
            &&& match c.block_cursor {
                BlockCursor::Begin => {
                    &&& event.op is BlockStart
                    &&& if c.block_index == 0 {
                        &&& levels[here as int] == Some(LevelState::<S>::Bootstrap)
                        &&& visit(levels, Some(event)) == Ok::<Visit<S>, Error>(
                            Visit::Level { level_index: here },
                        )
                    } else {
                        &&& levels[here as int] matches Some(
                            LevelState::SeenVisitBlockFinish { level_seed },
                        )
                        &&& visit(levels, Some(event)) matches Ok(
                            Visit::BlockStart { level_index, level_seed: seed, block_index, .. },
                        )
                        &&& level_index == here
                        &&& seed == level_seed
                        &&& block_index == c.block_index
                    }
                },
                BlockCursor::Write { index } => {
                    &&& levels[here as int] matches Some(
                        LevelState::SeenVisitBlockStart { level_seed, .. },
                    )
                    &&& visit(levels, Some(event)) == Ok::<Visit<S>, Error>(
                        Visit::Item {
                            level_index: here,
                            level_seed,
                            block_index: c.block_index,
                            block_item_index: index,
                        },
                    )
                },
                BlockCursor::Commit => {
                    &&& levels[here as int] matches Some(
                        LevelState::SeenVisitBlockStart { level_seed, .. },
                    )
                    &&& visit(levels, Some(event)) == Ok::<Visit<S>, Error>(
                        Visit::BlockFinish {
                            level_index: here,
                            level_seed,
                            block_index: c.block_index,
                        },
                    )
                },
            }
        }),
{
    let event = next_event(s).unwrap();
    let at = s.level_curr as int;
    let t = next_state(s);
    let here = levels.len() - 1 - at;
    lemma_step_counts(s, at);
    assert(s.cursors[at].level_index == here);
    let out = taken(levels, Some(event));
    assert(out =~= levels.update(here, None));
    assert forall|k: int| 0 <= k < t.cursors.len() && out.len() - 1 - k != here implies state_fits(
        out[out.len() - 1 - k],
        #[trigger] t.cursors[k],
    ) by {
        assert(s.cursors[k] == s.cursors[k]);
    }
}

/// The fold is in step with the walk again once the seed that was out is
/// back in a state that fits.
pub proof fn lemma_filled_in_step<S>(
    levels: Seq<Option<LevelState<S>>>,
    s: State,
    hole: usize,
    state: LevelState<S>,
)
    requires
        in_step_but(levels, s, hole as int),
        state_fits(Some(state), s.cursors[levels.len() - 1 - hole]),
    ensures
        in_step(given_back(levels, hole, state), s),
        given_back(levels, hole, state) == levels.update(hole as int, Some(state)),
        forall|missing: Error, present: Error|
            (#[trigger] crate::writer::fold::give_back_error(levels, hole, missing, present))
                is None,
{
    let filled = levels.update(hole as int, Some(state));
    assert forall|k: int| 0 <= k < s.cursors.len() implies ({
        let c = #[trigger] s.cursors[k];
        let st = filled[filled.len() - 1 - k];
        match c.block_cursor {
            BlockCursor::Begin => if c.block_index == 0 {
                st == Some(LevelState::<S>::Bootstrap)
            } else {
                st matches Some(LevelState::SeenVisitBlockFinish { .. })
            },
            _ => st matches Some(LevelState::SeenVisitBlockStart { block_index, .. })
                && block_index == c.block_index,
        }
    }) by {
        if levels.len() - 1 - k != hole {
            assert(state_fits(levels[levels.len() - 1 - k], s.cursors[k]));
        }
    }
}

/// One step of the walk, folded: the fold meets no error, stays in step
/// with the walk, and every level's seed is what `f` makes of it.
pub proof fn lemma_fold_step<S>(levels: Seq<Option<LevelState<S>>>, s: State, f: Folder<S>)
    requires
        valid(s),
        indexed(s),
        in_step(levels, s),
        s.level_curr < s.cursors.len(),
    ensures
        ({
            let event = next_event(s).unwrap();
            &&& fold_event(levels, event, f) matches Ok(next)
            &&& in_step(next, next_state(s))
            &&& forall|i: int|
                0 <= i < levels.len() ==> seed_of(#[trigger] next[i]) == seed_after(
                    seed_of(levels[i]),
                    seq![event],
                    i as usize,
                    f,
                )
        }),
{
    let event = next_event(s).unwrap();
    let at = s.level_curr as int;
    let c = s.cursors[at];
    let t = next_state(s);
    let here = levels.len() - 1 - at;
    lemma_step_counts(s, at);
    assert(c.level_index == here);
    assert(event.level_index == here);
    let old_state = levels[here];
    let held = match seed_of(old_state) {
        Some(held) => held,
        None => (f.first)(here as usize),
    };
    let new_state = match c.block_cursor {
        BlockCursor::Begin => LevelState::SeenVisitBlockStart {
            level_seed: (f.start)(held),
            block_index: c.block_index,
        },
        BlockCursor::Write { .. } => LevelState::SeenVisitBlockStart {
            level_seed: (f.item)(held),
            block_index: c.block_index,
        },
        BlockCursor::Commit => LevelState::SeenVisitBlockFinish { level_seed: (f.finish)(held) },
    };
    let out = taken(levels, Some(event));
    assert(out =~= levels.update(here, None));
    match c.block_cursor {
        BlockCursor::Begin => {
            if c.block_index == 0 {
                let ready = answered(levels, event, Visit::Level { level_index: here as usize }, f);
                assert(ready =~= levels.update(
                    here,
                    Some(LevelState::SeenVisitLevel { level_seed: (f.first)(here as usize) }),
                ));
                let out2 = taken(ready, Some(event));
                assert(out2 =~= levels.update(here, None));
                assert(fold_event(levels, event, f) == Ok::<Seq<Option<LevelState<S>>>, Error>(
                    out2.update(here, Some(new_state)),
                ));
            } else {
                assert(fold_event(levels, event, f) == Ok::<Seq<Option<LevelState<S>>>, Error>(
                    out.update(here, Some(new_state)),
                ));
            }
        },
        BlockCursor::Write { .. } => {
            assert(fold_event(levels, event, f) == Ok::<Seq<Option<LevelState<S>>>, Error>(
                out.update(here, Some(new_state)),
            ));
        },
        BlockCursor::Commit => {
            assert(fold_event(levels, event, f) == Ok::<Seq<Option<LevelState<S>>>, Error>(
                out.update(here, Some(new_state)),
            ));
        },
    }
    let next = fold_event(levels, event, f).unwrap();
    assert(next =~= levels.update(here, Some(new_state)));
    assert forall|k: int| 0 <= k < t.cursors.len() implies {
        let c = #[trigger] t.cursors[k];
        let state = next[next.len() - 1 - k];
        match c.block_cursor {
            BlockCursor::Begin => if c.block_index == 0 {
                state == Some(LevelState::<S>::Bootstrap)
            } else {
                state matches Some(LevelState::SeenVisitBlockFinish { .. })
            },
            _ => state matches Some(LevelState::SeenVisitBlockStart { block_index, .. })
                && block_index == c.block_index,
        }
    } by {
        assert(s.cursors[k] == s.cursors[k]);
    }
    let one = seq![event];
    assert(one.subrange(1, 1) =~= Seq::<Event>::empty());
    assert forall|i: int| 0 <= i < levels.len() implies seed_of(#[trigger] next[i]) == seed_after(
        seed_of(levels[i]),
        one,
        i as usize,
        f,
    ) by {
        if i == here {
            assert(seed_after(seed_of(levels[i]), one, i as usize, f) == seed_after(
                seed_of(Some(new_state)),
                one.subrange(1, 1),
                i as usize,
                f,
            ));
        } else {
            assert(event.level_index != i as usize);
            assert(seed_after(seed_of(levels[i]), one, i as usize, f) == seed_after(
                seed_of(levels[i]),
                one.subrange(1, 1),
                i as usize,
                f,
            ));
        }
    }
}

/// Seeds run on: answering `front` and then `back` is answering both.
pub proof fn lemma_seed_after_join<S>(
    seed: Option<S>,
    front: Seq<Event>,
    back: Seq<Event>,
    level_index: usize,
    f: Folder<S>,
)
    ensures
        seed_after(seed, front + back, level_index, f) == seed_after(
            seed_after(seed, front, level_index, f),
            back,
            level_index,
            f,
        ),
    decreases front.len(),
{
    if front.len() == 0 {
        assert(front + back =~= back);
    } else {
        let all = front + back;
        assert(all.subrange(1, all.len() as int) =~= front.subrange(1, front.len() as int) + back);
        let held = match seed {
            Some(held) => held,
            None => (f.first)(level_index),
        };
        if front[0].level_index != level_index {
            lemma_seed_after_join(
                seed,
                front.subrange(1, front.len() as int),
                back,
                level_index,
                f,
            );
        } else {
            let next = match front[0].op {
                Op::BlockStart { .. } => (f.start)(held),
                Op::BlockItem { .. } => (f.item)(held),
                Op::BlockFinish => (f.finish)(held),
            };
            lemma_seed_after_join(
                Some(next),
                front.subrange(1, front.len() as int),
                back,
                level_index,
                f,
            );
        }
    }
}

/// The whole walk from `s` on, folded: the fold meets no error and ends in
/// step with the walk's end, and every level's seed is what `f` makes of it.
pub proof fn lemma_fold_script<S>(levels: Seq<Option<LevelState<S>>>, s: State, f: Folder<S>)
    requires
        valid(s),
        indexed(s),
        in_step(levels, s),
    ensures
        fold_all(levels, script(s), f) matches Ok(done) && {
            &&& in_step(done, finish(s))
            &&& forall|i: int|
                0 <= i < levels.len() ==> seed_of(#[trigger] done[i]) == seed_after(
                    seed_of(levels[i]),
                    script(s),
                    i as usize,
                    f,
                )
        },
    decreases work(s.cursors),
{
    if s.level_curr < s.cursors.len() {
        lemma_step_works(s);
        lemma_step_counts(s, s.level_curr as int);
        lemma_fold_step(levels, s, f);
        let event = next_event(s).unwrap();
        let t = next_state(s);
        let next = fold_event(levels, event, f).unwrap();
        lemma_fold_script(next, t, f);
        let events = script(s);
        assert(events.subrange(1, events.len() as int) =~= script(t));
        assert(events =~= seq![event] + script(t));
        let done = fold_all(levels, events, f).unwrap();
        assert forall|i: int| 0 <= i < levels.len() implies seed_of(#[trigger] done[i])
            == seed_after(seed_of(levels[i]), script(s), i as usize, f) by {
            lemma_seed_after_join(seed_of(levels[i]), seq![event], script(t), i as usize, f);
        }
    } else {
        assert(script(s) =~= Seq::<Event>::empty());
    }
}

/// The folder that counts: a seed is the number of items written and of
/// blocks finished.
pub open spec fn tally() -> Folder<(nat, nat)> {
    Folder {
        first: |level_index: usize| (0nat, 0nat),
        start: |seed: (nat, nat)| seed,
        item: |seed: (nat, nat)| (seed.0 + 1, seed.1),
        finish: |seed: (nat, nat)| (seed.0, (seed.1 + 1) as nat),
    }
}

/// What a seed that was not yet given counts as.
pub open spec fn counted(seed: Option<(nat, nat)>) -> (nat, nat) {
    match seed {
        Some(seed) => seed,
        None => (0, 0),
    }
}

/// The counting folder counts: its seed grows by the items that the steps
/// write on its level and by the blocks that they finish there.
pub proof fn lemma_tally_counts(seed: Option<(nat, nat)>, events: Seq<Event>, level_index: usize)
    ensures
        counted(seed_after(seed, events, level_index, tally())) == (
            counted(seed).0 + items_written(events, level_index),
            counted(seed).1 + blocks_finished(events, level_index),
        ),
    decreases events.len(),
{
    if events.len() > 0 {
        let rest = events.subrange(1, events.len() as int);
        if events[0].level_index != level_index {
            lemma_tally_counts(seed, rest, level_index);
        } else {
            let held = counted(seed);
            let next = match events[0].op {
                Op::BlockStart { .. } => held,
                Op::BlockItem { .. } => (held.0 + 1, held.1),
                Op::BlockFinish => (held.0, (held.1 + 1) as nat),
            };
            lemma_tally_counts(Some(next), rest, level_index);
        }
    }
}

/// Where every level is flushed, the flushed seeds are those of all levels.
pub proof fn lemma_flushed_all<S>(levels: Seq<Option<LevelState<S>>>)
    requires
        levels.len() <= usize::MAX,
        forall|i: int|
            0 <= i < levels.len() ==> (#[trigger] levels[i]) matches Some(
                LevelState::SeenVisitBlockFinish { .. },
            ),
    ensures
        flushed_seeds(levels).len() == levels.len(),
        forall|i: int|
            0 <= i < levels.len() ==> (#[trigger] flushed_seeds(levels)[i]) == (
                i as usize,
                seed_of(levels[i]).unwrap(),
            ),
    decreases levels.len(),
{
    if levels.len() > 0 {
        let front = levels.drop_last();
        assert forall|i: int| 0 <= i < front.len() implies (#[trigger] front[i]) matches Some(
            LevelState::SeenVisitBlockFinish { .. },
        ) by {
            assert(front[i] == levels[i]);
        }
        lemma_flushed_all(front);
        assert(levels.last() == levels[levels.len() - 1]);
        assert forall|i: int| 0 <= i < levels.len() implies (#[trigger] flushed_seeds(levels)[i])
            == (i as usize, seed_of(levels[i]).unwrap()) by {
            if i < front.len() {
                assert(front[i] == levels[i]);
                assert(flushed_seeds(levels)[i] == flushed_seeds(front)[i]);
            }
        }
    }
}

/// Folding the walk over a tree with a seed that counts items and blocks
/// meets no error and ends, for every level, on the very numbers of items
/// and of blocks that the tree's shape gives the level.
pub proof fn lemma_fold_conserves(items_total: usize, block_size: usize)
    requires
        block_size >= 1,
    ensures
        ({
            let levels = sketch::layout(items_total as nat, block_size as nat, 0);
            let events = script(initial(levels, block_size));
            &&& fold_all(fresh(levels.len()), events, tally()) matches Ok(done)
            &&& flushed_seeds(done) == Seq::new(
                levels.len(),
                |i: int|
                    (i as usize, (levels[i].items_count as nat, levels[i].blocks_count as nat)),
            )
        }),
{
    let levels = sketch::layout(items_total as nat, block_size as nat, 0);
    let s = initial(levels, block_size);
    let events = script(s);
    let start = fresh::<(nat, nat)>(levels.len());
    let target = Seq::new(
        levels.len(),
        |i: int| (i as usize, (levels[i].items_count as nat, levels[i].blocks_count as nat)),
    );
    if levels.len() == 0 {
        assert(events =~= Seq::<Event>::empty());
        assert(flushed_seeds(start) =~= target);
    } else {
        crate::writer::script::lemma_walk_ends(items_total, block_size, 0);
        lemma_fold_script(start, s, tally());
        let done = fold_all(start, events, tally()).unwrap();
        let end = finish(s);
        assert forall|i: int| 0 <= i < done.len() implies (#[trigger] done[i]) matches Some(
            LevelState::SeenVisitBlockFinish { .. },
        ) && seed_of(done[i]).unwrap() == (
            levels[i].items_count as nat,
            levels[i].blocks_count as nat,
        ) by {
            let k = levels.len() - 1 - i;
            crate::writer::script::lemma_walk_ends(items_total, block_size, i);
            assert(end.cursors[k].block_cursor is Begin);
            lemma_walk_complete(items_total, block_size, i);
            lemma_tally_counts(seed_of(start[i]), events, i as usize);
        }
        lemma_flushed_all(done);
        assert(flushed_seeds(done) =~= target);
    }
}

/// The counting seeds agree with the walk: a level's seed holds the number
/// of items that the walk has written on the level and the number of
/// blocks that it has finished there.
pub open spec fn counts_agree(
    levels: Seq<Option<LevelState<(usize, usize)>>>,
    s: State,
    shape: Seq<sketch::Level>,
) -> bool {
    forall|i: int|
        0 <= i < levels.len() ==> match seed_of(#[trigger] levels[i]) {
            Some(seed) => {
                &&& seed.0 == shape[i].items_count - s.cursors[levels.len() - 1 - i].items_remain
                &&& seed.1 == s.cursors[levels.len() - 1 - i].block_index
            },
            None => true,
        }
}

/// Folds the walk over `sketch` with seeds that count, and gives for each
/// level, root first, its index with the number of items that were
/// written on it and of blocks that were finished on it: they are the
/// numbers of items and of blocks that the shape of the tree gives the
/// level.
pub fn census(sketch: &sketch::Tree) -> (counts: Vec<(usize, (usize, usize))>)
    ensures
        counts@.len() == sketch.spec_levels().len(),
        forall|i: int|
            0 <= i < counts@.len() ==> counts@[i] == (
                i as usize,
                (sketch.spec_levels()[i].items_count, sketch.spec_levels()[i].blocks_count),
            ),
{
    let ghost shape = sketch.spec_levels();
    let shape_levels = sketch.levels();
    let block_size = sketch.block_size();
    proof {
        crate::writer::script::lemma_steady_start(
            shape,
            sketch.spec_items_total(),
            sketch.spec_block_size(),
        );
        crate::writer::script::lemma_layout_shaped(
            sketch.spec_items_total(),
            sketch.spec_block_size(),
        );
        let s = initial(shape, sketch.spec_block_size());
        assert forall|j: int| 0 <= j < s.cursors.len() implies (#[trigger] s.cursors[j]).level_index
            == s.cursors.len() - 1 - j by {
            assert(shape[shape.len() - 1 - j].index == shape.len() - 1 - j);
        }
    }
    let mut context: crate::writer::fold::Context<(usize, usize)> =
        crate::writer::fold::Context::new(crate::writer::plan::Context::new(sketch), sketch);
    let mut kont = crate::writer::fold::Script::boot();
    loop
        invariant
            shape == sketch.spec_levels(),
            context.wf(),
            indexed(context.plan()@),
            crate::writer::script::steady(context.plan()@, shape),
            in_step(context.levels(), context.plan()@),
            context.levels().len() == shape.len(),
            counts_agree(context.levels(), context.plan()@, shape),
            kont.plan_action is Step,
        decreases work(context.plan()@.cursors),
    {
        let ghost s = context.plan()@;
        let ghost levels = context.levels();
        let ghost t = next_state(s);
        proof {
            if s.level_curr < s.cursors.len() {
                lemma_step_works(s);
                crate::writer::script::lemma_steady_step(s, shape);
                lemma_visit_in_step(levels, s);
                crate::writer::script::lemma_steady_within(s, shape, s.level_curr as int);
                assert forall|k: int| 0 <= k < s.cursors.len() implies {
                    &&& k != s.level_curr ==> (#[trigger] t.cursors[k]).items_remain
                        == s.cursors[k].items_remain && t.cursors[k].block_index
                        == s.cursors[k].block_index
                } by {
                    lemma_step_counts(s, k);
                }
                lemma_step_counts(s, s.level_curr as int);
            }
        }
        let ghost here = (levels.len() - 1 - s.level_curr) as usize;
        match kont.step_rec(&mut context) {
            Err(_) => {
                proof {
                    assert(false);
                }
                return vstd::pervasive::unreached();
            },
            Ok(crate::writer::fold::Instruction::Done) => {
                proof {
                    assert(next_event(s) is None);
                    assert forall|i: int| 0 <= i < levels.len() implies (#[trigger] levels[i]) matches Some(
                        LevelState::SeenVisitBlockFinish { .. },
                    ) by {
                        let k = levels.len() - 1 - i;
                        crate::writer::script::lemma_steady_end(s, shape, k);
                        assert(levels[levels.len() - 1 - k] == levels[i]);
                    }
                    lemma_flushed_all(levels);
                    assert forall|i: int| 0 <= i < levels.len() implies (#[trigger] flushed_seeds(
                        levels,
                    )[i]) == (i as usize, (shape[i].items_count, shape[i].blocks_count)) by {
                        let k = levels.len() - 1 - i;
                        crate::writer::script::lemma_steady_end(s, shape, k);
                        assert(seed_of(levels[i]) is Some);
                    }
                }
                let (_plan, counts) = context.into_levels_iter();
                return counts;
            },
            Ok(
                crate::writer::fold::Instruction::Op(crate::writer::fold::Op::VisitLevel(visit)),
            ) => {
                let ghost out = context.levels();
                proof {
                    crate::writer::script::lemma_steady_fresh(s, shape, s.level_curr as int);
                    assert(out =~= levels.update(here as int, None));
                    assert(visit.next.level_index() == here);
                }
                let ready = match visit.next.level_ready((0, 0), &mut context) {
                    Ok(ready) => ready,
                    Err(_) => {
                        proof {
                            assert(false);
                        }
                        return vstd::pervasive::unreached();
                    },
                };
                match ready.step_rec(&mut context) {
                    Ok(
                        crate::writer::fold::Instruction::Op(
                            crate::writer::fold::Op::VisitBlockStart(start),
                        ),
                    ) => {
                        proof {
                            assert(context.levels() =~= out);
                            assert(start.level_seed == (0usize, 0usize));
                            lemma_filled_in_step(
                                context.levels(),
                                t,
                                here,
                                LevelState::SeenVisitBlockStart {
                                    level_seed: start.level_seed,
                                    block_index: start.next.block_index(),
                                },
                            );
                        }
                        kont = match start.next.block_ready(start.level_seed, &mut context) {
                            Ok(kont) => kont,
                            Err(_) => {
                                proof {
                                    assert(false);
                                }
                                return vstd::pervasive::unreached();
                            },
                        };
                    },
                    _ => {
                        proof {
                            assert(false);
                        }
                        return vstd::pervasive::unreached();
                    },
                }
            },
            Ok(
                crate::writer::fold::Instruction::Op(
                    crate::writer::fold::Op::VisitBlockStart(start),
                ),
            ) => {
                proof {
                    lemma_filled_in_step(
                        context.levels(),
                        t,
                        here,
                        LevelState::SeenVisitBlockStart {
                            level_seed: start.level_seed,
                            block_index: start.next.block_index(),
                        },
                    );
                }
                kont = match start.next.block_ready(start.level_seed, &mut context) {
                    Ok(kont) => kont,
                    Err(_) => {
                        proof {
                            assert(false);
                        }
                        return vstd::pervasive::unreached();
                    },
                };
            },
            Ok(crate::writer::fold::Instruction::Op(crate::writer::fold::Op::VisitItem(item))) => {
                let (items, blocks) = item.level_seed;
                proof {
                    assert(seed_of(levels[here as int]) == Some(item.level_seed));
                    assert(levels[levels.len() - 1 - s.level_curr] == levels[here as int]);
                    lemma_filled_in_step(
                        context.levels(),
                        t,
                        here,
                        LevelState::SeenVisitBlockStart {
                            level_seed: ((items + 1) as usize, blocks),
                            block_index: item.next.block_index(),
                        },
                    );
                }
                kont = match item.next.item_ready((items + 1, blocks), &mut context) {
                    Ok(kont) => kont,
                    Err(_) => {
                        proof {
                            assert(false);
                        }
                        return vstd::pervasive::unreached();
                    },
                };
            },
            Ok(
                crate::writer::fold::Instruction::Op(
                    crate::writer::fold::Op::VisitBlockFinish(finish),
                ),
            ) => {
                let (items, blocks) = finish.level_seed;
                proof {
                    assert(seed_of(levels[here as int]) == Some(finish.level_seed));
                    lemma_filled_in_step(
                        context.levels(),
                        t,
                        here,
                        LevelState::SeenVisitBlockFinish {
                            level_seed: (items, (blocks + 1) as usize),
                        },
                    );
                }
                kont = match finish.next.block_flushed((items, blocks + 1), &mut context) {
                    Ok(kont) => kont,
                    Err(_) => {
                        proof {
                            assert(false);
                        }
                        return vstd::pervasive::unreached();
                    },
                };
            },
        }
        proof {
            let after = context.levels();
            assert forall|i: int| 0 <= i < after.len() implies match seed_of(#[trigger] after[i]) {
                Some(seed) => {
                    &&& seed.0 == shape[i].items_count - t.cursors[after.len() - 1 - i].items_remain
                    &&& seed.1 == t.cursors[after.len() - 1 - i].block_index
                },
                None => true,
            } by {
                if i != here {
                    assert(after[i] == levels[i]);
                    assert(seed_of(levels[i]) == seed_of(after[i]));
                }
            }
        }
    }
}

} // verus!
