//! How the rounds of the dispatcher grow, dispatch by dispatch.
use crate::model::{
    dispatched, dispatcher_run, redispatched, round_begun, round_followed, round_moved,
    round_of, round_run, rounds_begun, rounds_of, Machine,
};
use vstd::prelude::*;

verus! {

/// A round begins with the buffers changing places.
pub proof fn lemma_round_start<SM, P>(before: Machine<SM, P>)
    ensures
        round_begun(before, seq![before.swapped()]),
        !round_moved(seq![before.swapped()]),
{
}

/// One more dispatch leaves the round under way.
pub proof fn lemma_round_goes_on<SM, P>(
    before: Machine<SM, P>,
    mids: Seq<Machine<SM, P>>,
    after: Machine<SM, P>,
)
    requires
        round_begun(before, mids),
        mids.last().defer_other.len() > 0,
        dispatched(
            mids.last().received(),
            mids.last().current,
            mids.last().defer_other.first(),
            after,
        ),
    ensures
        round_begun(before, mids.push(after)),
        round_moved(mids.push(after)) == (round_moved(mids) || after.changed),
{
    let more = mids.push(after);
    assert forall|i: int| 0 <= i < more.len() - 1 implies #[trigger] redispatched(more, i) by {
        if i < mids.len() - 1 {
            assert(redispatched(mids, i));
            assert(more[i] == mids[i]);
            assert(more[i + 1] == mids[i + 1]);
        } else {
            assert(more[i] == mids.last());
            assert(more[i + 1] == after);
        }
    }
    if round_moved(mids) {
        let j = choose|j: int| 1 <= j < mids.len() && (#[trigger] mids[j]).changed;
        assert(more[j] == mids[j]);
    }
    if after.changed {
        assert(more[more.len() - 1].changed);
    }
    if round_moved(more) {
        let j = choose|j: int| 1 <= j < more.len() && (#[trigger] more[j]).changed;
        if j < mids.len() {
            assert(mids[j] == more[j]);
        }
    }
}

/// A round is over when no message waits any more.
pub proof fn lemma_round_ends<SM, P>(before: Machine<SM, P>, mids: Seq<Machine<SM, P>>)
    requires
        round_begun(before, mids),
        mids.last().defer_other.len() == 0,
    ensures
        round_run(before, mids.last(), round_moved(mids)),
{
    assert(round_of(before, mids));
}

/// One more round.
pub proof fn lemma_rounds_go_on<SM, P>(
    before: Machine<SM, P>,
    msg: P,
    ends: Seq<Machine<SM, P>>,
    moved: Seq<bool>,
    after: Machine<SM, P>,
    flag: bool,
)
    requires
        rounds_begun(before, msg, ends, moved),
        moved.last(),
        round_run(ends.last(), after, flag),
    ensures
        rounds_begun(before, msg, ends.push(after), moved.push(flag)),
{
    let more = ends.push(after);
    let flags = moved.push(flag);
    assert forall|i: int| 1 <= i < more.len() implies #[trigger] round_followed(
        more,
        flags,
        i,
    ) by {
        if i < ends.len() {
            assert(round_followed(ends, moved, i));
            assert(more[i] == ends[i] && more[i - 1] == ends[i - 1]);
            assert(flags[i] == moved[i] && flags[i - 1] == moved[i - 1]);
        } else {
            assert(more[i - 1] == ends.last());
            assert(flags[i - 1] == moved.last());
        }
    }
}

/// The dispatcher is done when the last dispatch or round made no
/// transition, or when it has run all the rounds it may.
pub proof fn lemma_rounds_end<SM, P>(
    before: Machine<SM, P>,
    msg: P,
    ends: Seq<Machine<SM, P>>,
    moved: Seq<bool>,
)
    requires
        rounds_begun(before, msg, ends, moved),
        ends.len() <= usize::MAX + 1,
        !moved.last() || ends.len() == usize::MAX + 1,
    ensures
        dispatcher_run(before, msg, ends.last()),
{
    assert(rounds_of(before, msg, ends, moved));
}

} // verus!
