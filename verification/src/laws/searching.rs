//! Laws of the search for the state to replay from.

use vstd::prelude::*;

use crate::engine::{Action, Timeline};
use crate::fallback::{
    asked_at, falls_back_to, is_dialogue, questions, recovers, FallbackView, Recovered,
    RecoveryView,
};
use crate::snapshot::{same_read, BaselineRead, Question, Questions, SnapshotView};
use crate::timeline::UserSlice;

verus! {

/// The first `n` answers each show a locked jar, at a block after the first one and
/// less than twenty blocks back: the search walks on past all of them.
pub open spec fn walks_past(height: u64, answers: Seq<Option<SnapshotView>>, n: int) -> bool {
    forall|k: int|
        0 <= k < n ==> {
            &&& #[trigger] answers[k] matches Some(snapshot) && snapshot.any_jar_locked
            &&& k + 1 < height
            &&& k + 1 < 20
        }
}

/// The answer at `k` ends the walk without a state to resume from: there is none, or
/// it has a locked jar and there is nowhere left to walk to.
pub open spec fn gives_up(height: u64, answers: Seq<Option<SnapshotView>>, k: int) -> bool {
    match answers[k] {
        Some(snapshot) => snapshot.any_jar_locked && (k + 1 >= height || k + 1 >= 20),
        None => true,
    }
}

/// Where a walk stands with the first `k` answers.
spec fn stands(height: u64, answers: Seq<Option<SnapshotView>>, k: int, state: FallbackView) -> bool {
    match state {
        FallbackView::Before { block_height, offset } => {
            &&& block_height == height
            &&& offset == k + 1
            &&& walks_past(height, answers, k)
        },
        FallbackView::At { block_height } => {
            &&& block_height == height
            &&& k >= 1
            &&& walks_past(height, answers, k - 1)
            &&& gives_up(height, answers, k - 1)
        },
        FallbackView::Settled(RecoveryView::Resume(raw)) => {
            &&& k >= 1
            &&& walks_past(height, answers, k - 1)
            &&& answers[k - 1] == Some(SnapshotView { raw_account: raw, any_jar_locked: false })
        },
        FallbackView::Settled(RecoveryView::Skip(raw)) => {
            &&& k >= 2
            &&& walks_past(height, answers, k - 2)
            &&& gives_up(height, answers, k - 2)
            &&& answers[k - 1] matches Some(snapshot) && snapshot.raw_account == raw
        },
        FallbackView::Settled(RecoveryView::Unchanged) => {
            &&& k >= 2
            &&& walks_past(height, answers, k - 2)
            &&& gives_up(height, answers, k - 2)
            &&& answers[k - 1] is None
        },
        FallbackView::Migrated { .. } => false,
    }
}

proof fn lemma_stands(height: u64, answers: Seq<Option<SnapshotView>>, k: int)
    requires
        0 <= k <= answers.len(),
        is_dialogue(FallbackView::Before { block_height: height, offset: 1 }, answers),
    ensures
        stands(
            height,
            answers,
            k,
            (FallbackView::Before { block_height: height, offset: 1 }).after_all(answers.take(k)),
        ),
    decreases k,
{
    let start = FallbackView::Before { block_height: height, offset: 1 };
    if k > 0 {
        lemma_stands(height, answers, k - 1);
        assert(answers.take(k).drop_last() =~= answers.take(k - 1));
        assert(answers.take(k).last() == answers[k - 1]);
        assert(asked_at(start, answers, k - 1) is Some);
        if let Some(snapshot) = answers[k - 1] {
            if !snapshot.any_jar_locked {
                assert(snapshot == SnapshotView {
                    raw_account: snapshot.raw_account,
                    any_jar_locked: false,
                });
            }
        }
    }
}

/// A question about the account's state right after a block.
pub open spec fn asks_about(question: Question, near_account_id: Seq<char>, height: int) -> bool {
    question matches Question::At { near_account_id: id, block_height, .. } && id
        == near_account_id && block_height == height
}

/// What a question about a block was answered.
pub open spec fn answered(question: Question) -> Option<SnapshotView> {
    question->At_answer
}

/// What was answered to each of the questions.
pub open spec fn answered_all(said: Questions) -> Seq<Option<SnapshotView>> {
    said.map_values(|question: Question| answered(question))
}

/// `out` replays every event on the bytes `raw`.
pub open spec fn resumes(out: Recovered, timeline: Timeline, raw: Seq<u8>) -> bool {
    &&& out.0 matches Some(bytes) && bytes@ == raw
    &&& out.1.events@ == timeline.events@
    &&& out.2 == 0
}

/// `out` replays every event but the first on the bytes `raw`. What the first event
/// paid, where it is a claim, comes off the total.
pub open spec fn skips(out: Recovered, slice: UserSlice, timeline: Timeline, raw: Seq<u8>) -> bool {
    &&& out.0 matches Some(bytes) && bytes@ == raw
    &&& out.1.events@ == timeline.events@.subrange(1, timeline.events@.len() as int)
    &&& match timeline.events@[0].action {
        Action::Claim { .. } => slice.first_event_claim_amount matches Some(amount) ==> out.2
            == amount,
        _ => out.2 == 0,
    }
    &&& slice.first_event_claim_amount is None ==> out.2 == 0
}

/// The search asked about `walked` blocks on its way back from `height`, and about
/// `height` itself where none of them had a state to resume from.
pub open spec fn is_walk(
    slice: UserSlice,
    timeline: Timeline,
    height: u64,
    said: Questions,
    out: Recovered,
    walked: int,
) -> bool {
    let answers = answered_all(said);
    &&& 1 <= walked <= said.len()
    &&& walks_past(height, answers, walked - 1)
    &&& forall|k: int|
        0 <= k < walked ==> asks_about(
            #[trigger] said[k],
            slice.near_account_id@,
            if k + 1 < height {
                height - k - 1
            } else {
                0
            },
        )
    &&& if answers[walked - 1] matches Some(snapshot) && !snapshot.any_jar_locked {
        &&& said.len() == walked
        &&& resumes(out, timeline, answers[walked - 1]->0.raw_account)
    } else {
        &&& gives_up(height, answers, walked - 1)
        &&& said.len() == walked + 1
        &&& asks_about(said[walked], slice.near_account_id@, height as int)
        &&& match answers[walked] {
            Some(snapshot) => skips(out, slice, timeline, snapshot.raw_account),
            None => out == (None::<Vec<u8>>, timeline, 0u128),
        }
    }
}

/// The search asks block by block, back from the one before the first event, for as
/// long as it is shown a locked jar, up to twenty blocks and no further than block
/// zero. The first state without a locked jar is what the replay resumes from. Where
/// there is none, the search asks about the block of the first event itself: a state
/// of that block already holds what the first event did, so that event is left out,
/// whatever it is. Without such a state nothing changes.
pub proof fn law_search_walks_back_to_an_unlocked_state(
    slice: UserSlice,
    timeline: Timeline,
    height: u64,
    said: Questions,
    out: Recovered,
)
    requires
        falls_back_to(true, slice, None, timeline, said, out),
        slice.migration is None,
        slice.first_event_block_height == Some(height),
        timeline.events@.len() > 0,
    ensures
        exists|walked: int| #[trigger] is_walk(slice, timeline, height, said, out, walked),
{
    let start = FallbackView::begin(slice, false, true);
    assert(start == FallbackView::Before { block_height: height, offset: 1 });
    let answers = choose|answers: Seq<Option<SnapshotView>>|
        {
            &&& is_dialogue(start, answers)
            &&& said == questions(slice.near_account_id@, start, answers)
            &&& #[trigger] start.after_all(answers) matches FallbackView::Settled(recovery)
                && recovers(recovery, slice, None, timeline, out)
        };
    assert(answered_all(said) =~= answers);
    let n = answers.len() as int;
    lemma_stands(height, answers, n);
    assert(answers.take(n) =~= answers);
    let walked = match start.after_all(answers) {
        FallbackView::Settled(RecoveryView::Resume(_)) => n,
        _ => n - 1,
    };
    assert(walks_past(height, answers, walked - 1));
    assert forall|k: int| 0 <= k < walked implies asks_about(
        #[trigger] said[k],
        slice.near_account_id@,
        if k + 1 < height {
            height - k - 1
        } else {
            0
        },
    ) by {
        lemma_stands(height, answers, k);
        assert(asked_at(start, answers, k) is Some);
        if k >= 1 {
            assert(answers[k - 1] matches Some(snapshot) && snapshot.any_jar_locked);
        }
    }
    if walked == n - 1 {
        lemma_stands(height, answers, n - 1);
        assert(asked_at(start, answers, n - 1) is Some);
        assert(answers[n - 2] == answers[walked - 1]);
        assert(timeline.events@.drop_first() =~= timeline.events@.subrange(
            1,
            timeline.events@.len() as int,
        ));
    }
    assert(is_walk(slice, timeline, height, said, out, walked));
}

/// Where the state comes from decides what is replayed: on a state of the first
/// event's own block every event but the first, whatever the first one is; on a
/// state of an earlier block every event.
pub proof fn law_state_decides_what_is_replayed(
    slice: UserSlice,
    timeline: Timeline,
    height: u64,
    said: Questions,
    out: Recovered,
)
    requires
        falls_back_to(true, slice, None, timeline, said, out),
        slice.migration is None,
        slice.first_event_block_height == Some(height),
        height > 0,
        timeline.events@.len() > 0,
    ensures
        said.len() > 0,
        said.last() matches Question::At { block_height, answer, .. } && {
            &&& block_height <= height
            &&& match answer {
                Some(snapshot) => if block_height == height {
                    skips(out, slice, timeline, snapshot.raw_account)
                } else {
                    &&& !snapshot.any_jar_locked
                    &&& resumes(out, timeline, snapshot.raw_account)
                },
                None => out == (None::<Vec<u8>>, timeline, 0u128),
            }
        },
{
    law_search_walks_back_to_an_unlocked_state(slice, timeline, height, said, out);
    let answers = answered_all(said);
    let walked = choose|walked: int| #[trigger] is_walk(slice, timeline, height, said, out, walked);
    assert(answers[walked - 1] == answered(said[walked - 1]));
    assert(asks_about(
        said[walked - 1],
        slice.near_account_id@,
        if walked < height {
            height - walked
        } else {
            0
        },
    ));
    if said.len() == walked + 1 {
        assert(answers[walked] == answered(said[walked]));
    }
}

/// A migrated account replays every event, on the bytes that its migration wrote:
/// those that were recorded, or else the state of the account right after the block
/// of the migration. Where there is neither, nothing changes.
pub proof fn law_migrated_account_replays_every_event(
    slice: UserSlice,
    timeline: Timeline,
    said: Questions,
    out: Recovered,
)
    requires
        falls_back_to(true, slice, None, timeline, said, out),
        slice.migration is Some,
    ensures
        out.1.events@ == timeline.events@,
        out.2 == 0,
        match slice.migration->0.raw_account {
            Some(raw) => said.len() == 0 && resumes(out, timeline, raw@),
            None => {
                &&& said.len() == 1
                &&& asks_about(
                    said[0],
                    slice.near_account_id@,
                    slice.migration->0.block_height as int,
                )
                &&& match answered(said[0]) {
                    Some(snapshot) => resumes(out, timeline, snapshot.raw_account),
                    None => out == (None::<Vec<u8>>, timeline, 0u128),
                }
            },
        },
{
    let start = FallbackView::begin(slice, false, true);
    let answers = choose|answers: Seq<Option<SnapshotView>>|
        {
            &&& is_dialogue(start, answers)
            &&& said == questions(slice.near_account_id@, start, answers)
            &&& #[trigger] start.after_all(answers) matches FallbackView::Settled(recovery)
                && recovers(recovery, slice, None, timeline, out)
        };
    assert(start.after_all(answers.take(0)) == start);
    if answers.len() == 0 {
        assert(start.after_all(answers) == start);
    } else {
        assert(asked_at(start, answers, 0) is Some);
        assert(answers.take(1).drop_last() =~= answers.take(0));
        assert(answers.take(1).last() == answers[0]);
        assert(start.after_all(answers.take(1)) == start.after(answers[0]));
        if answers.len() > 1 {
            assert(asked_at(start, answers, 1) is Some);
        }
        assert(answers.take(1) =~= answers);
    }
}

/// Two reads say the same only where they ended the same way, with one message or with
/// the same bytes; every read says the same as itself.
pub proof fn law_same_reads_say_the_same(a: BaselineRead, b: BaselineRead)
    ensures
        same_read(a, a),
        same_read(a, b) ==> match a {
            BaselineRead::Panicked => b is Panicked,
            BaselineRead::Failed(message) => b matches BaselineRead::Failed(other) && message@
                == other@,
            BaselineRead::Read(None) => b == BaselineRead::Read(None),
            BaselineRead::Read(Some(raw)) => b matches BaselineRead::Read(Some(other)) && raw@
                == other@,
        },
{
}

/// An account that was neither migrated nor has an event is left as it is, without a
/// question.
pub proof fn law_account_without_events_is_left_alone(
    authoritative: bool,
    slice: UserSlice,
    raw_account: Option<Vec<u8>>,
    timeline: Timeline,
    said: Questions,
    out: Recovered,
)
    requires
        falls_back_to(authoritative, slice, raw_account, timeline, said, out),
        slice.migration is None,
        slice.first_event_block_height is None,
    ensures
        said.len() == 0,
        out == (raw_account, timeline, 0u128),
{
    let start = FallbackView::begin(slice, raw_account is Some, authoritative);
    let answers = choose|answers: Seq<Option<SnapshotView>>|
        {
            &&& is_dialogue(start, answers)
            &&& said == questions(slice.near_account_id@, start, answers)
            &&& #[trigger] start.after_all(answers) matches FallbackView::Settled(recovery)
                && recovers(recovery, slice, raw_account, timeline, out)
        };
    assert(start.after_all(answers.take(0)) == start);
    if answers.len() > 0 {
        assert(asked_at(start, answers, 0) is Some);
    }
}

} // verus!
