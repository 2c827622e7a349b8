//! The state to replay from, for an account that something untracked created
//! before its first event.
//!
//! Some operations lock the jars they touch, and unlock them only blocks later,
//! when their event comes out. So the block before the first event may show
//! that same event under way. The search walks back past such states.

use vstd::prelude::*;

use crate::engine::{Action, Timeline};
use crate::snapshot::{
    answer_view, asked_since, Question, Questions, Snapshot, SnapshotSource, SnapshotView,
};
use crate::timeline::UserSlice;

verus! {

/// How many blocks the search for a prior state walks backward from the first
/// event. An operation that locks jars is over within a handful of blocks; this
/// bounds the number of fetches in the worst case.
pub const MAX_LOCK_WALKBACK_BLOCKS: u64 = 20;

/// What the search for a prior state found.
pub enum Recovery {
    /// Nothing: the account replays from what was known before.
    Unchanged,
    /// A state from before the first event: every event replays on top of it.
    Resume(Vec<u8>),
    /// A state from right after the first event: that event is left out.
    Skip(Vec<u8>),
}

/// What a recovery holds.
pub enum RecoveryView {
    Unchanged,
    Resume(Seq<u8>),
    Skip(Seq<u8>),
}

impl View for Recovery {
    type V = RecoveryView;

    open spec fn view(&self) -> RecoveryView {
        match self {
            Recovery::Unchanged => RecoveryView::Unchanged,
            Recovery::Resume(raw) => RecoveryView::Resume(raw@),
            Recovery::Skip(raw) => RecoveryView::Skip(raw@),
        }
    }
}

/// The search for the state of an account that was created without an event.
pub enum Fallback {
    /// Awaits the state at the block of the account's migration.
    Migrated { block_height: u64 },
    /// Awaits the state `offset` blocks before the first event.
    Before { block_height: u64, offset: u64 },
    /// Awaits the state at the block of the first event.
    At { block_height: u64 },
    Settled(Recovery),
}

/// What a search holds.
pub enum FallbackView {
    Migrated { block_height: u64 },
    Before { block_height: u64, offset: u64 },
    At { block_height: u64 },
    Settled(RecoveryView),
}

impl View for Fallback {
    type V = FallbackView;

    open spec fn view(&self) -> FallbackView {
        match self {
            Fallback::Migrated { block_height } => FallbackView::Migrated {
                block_height: *block_height,
            },
            Fallback::Before { block_height, offset } => FallbackView::Before {
                block_height: *block_height,
                offset: *offset,
            },
            Fallback::At { block_height } => FallbackView::At { block_height: *block_height },
            Fallback::Settled(recovery) => FallbackView::Settled(recovery@),
        }
    }
}

/// `a - b`, no less than zero.
pub open spec fn blocks_before(a: u64, b: u64) -> u64 {
    if a < b {
        0
    } else {
        (a - b) as u64
    }
}

impl FallbackView {
    /// Where the search begins. There is none where a state is known already, or
    /// where the source does not know of every account. A recorded migration
    /// says what the state was, or else at which block to look. Without one the
    /// search walks backward from the first event.
    pub open spec fn begin(slice: UserSlice, known: bool, authoritative: bool) -> FallbackView {
        if known || !authoritative {
            FallbackView::Settled(RecoveryView::Unchanged)
        } else {
            match slice.migration {
                Some(migration) => match migration.raw_account {
                    Some(raw) => FallbackView::Settled(RecoveryView::Resume(raw@)),
                    None => FallbackView::Migrated { block_height: migration.block_height },
                },
                None => match slice.first_event_block_height {
                    Some(block_height) => FallbackView::Before { block_height, offset: 1 },
                    None => FallbackView::Settled(RecoveryView::Unchanged),
                },
            }
        }
    }

    /// The block at which the search asks for the account's state.
    pub open spec fn asks(self) -> Option<u64> {
        match self {
            FallbackView::Migrated { block_height } => Some(block_height),
            FallbackView::Before { block_height, offset } => Some(
                blocks_before(block_height, offset),
            ),
            FallbackView::At { block_height } => Some(block_height),
            FallbackView::Settled(_) => None,
        }
    }

    /// Where the search goes with `answer`.
    pub open spec fn after(self, answer: Option<SnapshotView>) -> FallbackView {
        match self {
            FallbackView::Migrated { .. } => match answer {
                Some(snapshot) => FallbackView::Settled(
                    RecoveryView::Resume(snapshot.raw_account),
                ),
                None => FallbackView::Settled(RecoveryView::Unchanged),
            },
            FallbackView::Before { block_height, offset } => match answer {
                Some(snapshot) => if !snapshot.any_jar_locked {
                    FallbackView::Settled(RecoveryView::Resume(snapshot.raw_account))
                } else if blocks_before(block_height, offset) == 0 || offset
                    >= MAX_LOCK_WALKBACK_BLOCKS {
                    FallbackView::At { block_height }
                } else {
                    FallbackView::Before { block_height, offset: (offset + 1) as u64 }
                },
                None => FallbackView::At { block_height },
            },
            FallbackView::At { .. } => match answer {
                Some(snapshot) => FallbackView::Settled(RecoveryView::Skip(snapshot.raw_account)),
                None => FallbackView::Settled(RecoveryView::Unchanged),
            },
            FallbackView::Settled(_) => self,
        }
    }

    /// Where the search stands after a row of answers.
    pub open spec fn after_all(self, answers: Seq<Option<SnapshotView>>) -> FallbackView
        decreases answers.len(),
    {
        if answers.len() == 0 {
            self
        } else {
            self.after_all(answers.drop_last()).after(answers.last())
        }
    }

    /// How many questions the search can still ask.
    pub open spec fn budget(self) -> int {
        match self {
            FallbackView::Migrated { .. } => 1,
            FallbackView::Before { offset, .. } => if offset >= MAX_LOCK_WALKBACK_BLOCKS {
                2
            } else {
                MAX_LOCK_WALKBACK_BLOCKS + 2 - offset
            },
            FallbackView::At { .. } => 1,
            FallbackView::Settled(_) => 0,
        }
    }
}

impl Fallback {
    /// Starts the search; `known` says whether a state is known already.
    pub fn begin(slice: &UserSlice, known: bool, authoritative: bool) -> (search: Fallback)
        ensures
            search@ == FallbackView::begin(*slice, known, authoritative),
    {
        if known || !authoritative {
            return Fallback::Settled(Recovery::Unchanged);
        }
        match &slice.migration {
            Some(migration) => match &migration.raw_account {
                Some(raw) => {
                    let copy: Vec<u8> = raw.clone();
                    assert(copy@ =~= raw@);
                    Fallback::Settled(Recovery::Resume(copy))
                },
                None => Fallback::Migrated { block_height: migration.block_height },
            },
            None => match slice.first_event_block_height {
                Some(block_height) => Fallback::Before { block_height, offset: 1 },
                None => Fallback::Settled(Recovery::Unchanged),
            },
        }
    }

    /// The block to ask about next, if the search goes on.
    pub fn asks(&self) -> (block_height: Option<u64>)
        ensures
            block_height == self@.asks(),
    {
        match self {
            Fallback::Migrated { block_height } => Some(*block_height),
            Fallback::Before { block_height, offset } => Some(
                block_height.saturating_sub(*offset),
            ),
            Fallback::At { block_height } => Some(*block_height),
            Fallback::Settled(_) => None,
        }
    }

    /// Takes the answer to what the search asked.
    pub fn after(self, answer: Option<Snapshot>) -> (next: Fallback)
        ensures
            next@ == self@.after(answer_view(answer)),
    {
        match self {
            Fallback::Migrated { block_height } => match answer {
                Some(snapshot) => Fallback::Settled(Recovery::Resume(snapshot.raw_account)),
                None => Fallback::Settled(Recovery::Unchanged),
            },
            Fallback::Before { block_height, offset } => match answer {
                Some(snapshot) => {
                    if !snapshot.any_jar_locked {
                        Fallback::Settled(Recovery::Resume(snapshot.raw_account))
                    } else if block_height.saturating_sub(offset) == 0 || offset
                        >= MAX_LOCK_WALKBACK_BLOCKS {
                        Fallback::At { block_height }
                    } else {
                        Fallback::Before { block_height, offset: offset + 1 }
                    }
                },
                None => Fallback::At { block_height },
            },
            Fallback::At { block_height } => match answer {
                Some(snapshot) => Fallback::Settled(Recovery::Skip(snapshot.raw_account)),
                None => Fallback::Settled(Recovery::Unchanged),
            },
            Fallback::Settled(recovery) => Fallback::Settled(recovery),
        }
    }
}

/// A baseline, a timeline, and what comes off the on-chain total.
pub type Recovered = (Option<Vec<u8>>, Timeline, u128);

/// `out` is what `recovery` makes of a baseline and a timeline.
pub open spec fn recovers(
    recovery: RecoveryView,
    slice: UserSlice,
    raw_account: Option<Vec<u8>>,
    timeline: Timeline,
    out: Recovered,
) -> bool {
    match recovery {
        RecoveryView::Unchanged => out.0 == raw_account && out.1 == timeline && out.2 == 0,
        RecoveryView::Resume(raw) => {
            &&& out.0 matches Some(bytes) && bytes@ == raw
            &&& out.1 == timeline
            &&& out.2 == 0
        },
        RecoveryView::Skip(raw) => {
            &&& out.0 matches Some(bytes) && bytes@ == raw
            &&& out.1.events@ == timeline.events@.drop_first()
            &&& out.2 == (if timeline.events@[0].action is Claim
                && slice.first_event_claim_amount is Some {
                slice.first_event_claim_amount->0
            } else {
                0
            })
        },
    }
}

/// Applies what the search found. A state that already reflects the leading
/// event takes that event out, and a leading claim's amount with it.
pub fn recover(
    recovery: Recovery,
    slice: &UserSlice,
    raw_account: Option<Vec<u8>>,
    timeline: Timeline,
) -> (out: Recovered)
    requires
        recovery is Skip ==> timeline.events@.len() > 0,
    ensures
        recovers(recovery@, *slice, raw_account, timeline, out),
{
    match recovery {
        Recovery::Unchanged => (raw_account, timeline, 0),
        Recovery::Resume(raw) => (Some(raw), timeline, 0),
        Recovery::Skip(raw) => {
            let mut timeline = timeline;
            let ghost before = timeline.events@;
            let dropped = timeline.events.remove(0);
            assert(timeline.events@ =~= before.drop_first());
            let adjustment: u128 = match dropped.action {
                Action::Claim { .. } => match slice.first_event_claim_amount {
                    Some(amount) => amount,
                    None => 0,
                },
                _ => 0,
            };
            (Some(raw), timeline, adjustment)
        },
    }
}

/// The block that the search from `start` asks about once it has the first `k` of
/// `answers`.
pub open spec fn asked_at(
    start: FallbackView,
    answers: Seq<Option<SnapshotView>>,
    k: int,
) -> Option<u64> {
    start.after_all(answers.take(k)).asks()
}

/// The search from `start` asks a question for each of `answers`.
pub open spec fn is_dialogue(start: FallbackView, answers: Seq<Option<SnapshotView>>) -> bool {
    forall|k: int| 0 <= k < answers.len() ==> #[trigger] asked_at(start, answers, k) is Some
}

/// The questions that the search from `start` asks, with the answers it gets.
pub open spec fn questions(
    near_account_id: Seq<char>,
    start: FallbackView,
    answers: Seq<Option<SnapshotView>>,
) -> Questions {
    Seq::new(
        answers.len(),
        |k: int|
            Question::At {
                near_account_id,
                block_height: asked_at(start, answers, k)->0,
                answer: answers[k],
            },
    )
}

/// `out` is where the search for a prior state leads that asked `said`: about the
/// blocks that it is to ask about, in order, and about no others.
pub open spec fn falls_back_to(
    authoritative: bool,
    slice: UserSlice,
    raw_account: Option<Vec<u8>>,
    timeline: Timeline,
    said: Questions,
    out: Recovered,
) -> bool {
    let start = FallbackView::begin(slice, raw_account is Some, authoritative);
    exists|answers: Seq<Option<SnapshotView>>|
        {
            &&& is_dialogue(start, answers)
            &&& said == questions(slice.near_account_id@, start, answers)
            &&& #[trigger] start.after_all(answers) matches FallbackView::Settled(recovery)
                && recovers(recovery, slice, raw_account, timeline, out)
        }
}

/// Finds the state of an account that something untracked created before its
/// first event. Returns the baseline to replay from, the events to replay, and
/// what comes off the on-chain total because its claim is not replayed.
pub fn apply_block_height_fallback<S: SnapshotSource>(
    snapshot: &mut S,
    slice: &UserSlice,
    raw_account: Option<Vec<u8>>,
    timeline: Timeline,
) -> (out: Recovered)
    requires
        slice.first_event_block_height is Some ==> timeline.events@.len() > 0,
    ensures
        final(snapshot).authoritative() == old(snapshot).authoritative(),
        old(snapshot).asked().is_prefix_of(final(snapshot).asked()),
        falls_back_to(
            old(snapshot).authoritative(),
            *slice,
            raw_account,
            timeline,
            asked_since(old(snapshot).asked(), final(snapshot).asked()),
            out,
        ),
{
    let authoritative = snapshot.is_authoritative();
    let ghost known = raw_account;
    let ghost before = snapshot.asked();
    let mut search = Fallback::begin(slice, raw_account.is_some(), authoritative);
    let ghost start = search@;
    let ghost mut answers: Seq<Option<SnapshotView>> = Seq::empty();
    let id: &str = slice.near_account_id.as_str();
    assert(before + questions(slice.near_account_id@, start, answers) =~= before);
    loop
        invariant
            search@ == start.after_all(answers),
            start == FallbackView::begin(*slice, known is Some, authoritative),
            authoritative == old(snapshot).authoritative(),
            snapshot.authoritative() == authoritative,
            before == old(snapshot).asked(),
            snapshot.asked() == before + questions(slice.near_account_id@, start, answers),
            is_dialogue(start, answers),
            id@ == slice.near_account_id@,
            leads_to_skip(search@) ==> slice.first_event_block_height is Some,
        ensures
            search@ is Settled,
        decreases search@.budget(),
    {
        let block_height: u64 = match search.asks() {
            Some(block_height) => block_height,
            None => {
                break;
            },
        };
        let answer = snapshot.raw_account_at(id, block_height);
        proof {
            lemma_dialogue_goes_on(
                slice.near_account_id@,
                start,
                answers,
                answer_view(answer),
            );
            lemma_answer_uses_budget(search@, answer_view(answer));
            answers = answers.push(answer_view(answer));
            assert(snapshot.asked() =~= before + questions(
                slice.near_account_id@,
                start,
                answers,
            ));
        }
        search = search.after(answer);
    }
    assert(start.after_all(answers) == search@);
    assert(asked_since(before, snapshot.asked()) =~= questions(
        slice.near_account_id@,
        start,
        answers,
    ));
    let out: Recovered = match search {
        Fallback::Settled(recovery) => recover(recovery, slice, raw_account, timeline),
        _ => (raw_account, timeline, 0),
    };
    out
}

proof fn lemma_dialogue_goes_on(
    near_account_id: Seq<char>,
    start: FallbackView,
    answers: Seq<Option<SnapshotView>>,
    answer: Option<SnapshotView>,
)
    requires
        is_dialogue(start, answers),
        start.after_all(answers).asks() is Some,
    ensures
        is_dialogue(start, answers.push(answer)),
        start.after_all(answers.push(answer)) == start.after_all(answers).after(answer),
        questions(near_account_id, start, answers.push(answer)) == questions(
            near_account_id,
            start,
            answers,
        ).push(
            (Question::At {
                near_account_id,
                block_height: start.after_all(answers).asks()->0,
                answer,
            }),
        ),
{
    let longer = answers.push(answer);
    assert(longer.drop_last() =~= answers);
    assert forall|k: int| 0 <= k <= answers.len() implies #[trigger] longer.take(k)
        == answers.take(k) by {
        assert(longer.take(k) =~= answers.take(k));
    }
    assert(answers.take(answers.len() as int) =~= answers);
    assert forall|k: int| 0 <= k < longer.len() implies #[trigger] asked_at(
        start,
        longer,
        k,
    ) is Some by {
        assert(longer.take(k) == answers.take(k));
        if k < answers.len() {
            assert(asked_at(start, answers, k) is Some);
        }
    }
    assert(questions(near_account_id, start, longer) =~= questions(
        near_account_id,
        start,
        answers,
    ).push(
        (Question::At {
            near_account_id,
            block_height: start.after_all(answers).asks()->0,
            answer,
        }),
    ));
}

/// Every answer brings the search closer to its end.
proof fn lemma_answer_uses_budget(search: FallbackView, answer: Option<SnapshotView>)
    requires
        search.asks() is Some,
    ensures
        0 <= search.after(answer).budget() < search.budget(),
        leads_to_skip(search.after(answer)) ==> leads_to_skip(search),
{
}

/// The search is at, or on the way to, the block of the first event.
pub open spec fn leads_to_skip(search: FallbackView) -> bool {
    match search {
        FallbackView::Before { .. } => true,
        FallbackView::At { .. } => true,
        FallbackView::Settled(RecoveryView::Skip(_)) => true,
        _ => false,
    }
}

proof fn lemma_budget_runs_out(search: FallbackView, answers: Seq<Option<SnapshotView>>)
    requires
        search.budget() <= MAX_LOCK_WALKBACK_BLOCKS + 1,
    ensures
        search.after_all(answers).budget() <= (if answers.len() > MAX_LOCK_WALKBACK_BLOCKS {
            0
        } else {
            MAX_LOCK_WALKBACK_BLOCKS + 1 - answers.len()
        }),
    decreases answers.len(),
{
    if answers.len() > 0 {
        let before = search.after_all(answers.drop_last());
        lemma_budget_runs_out(search, answers.drop_last());
        if before.asks() is Some {
            lemma_answer_uses_budget(before, answers.last());
        }
    }
}

/// Whatever the answers, the search settles with at most one question more than
/// the blocks it may walk back.
pub proof fn law_search_is_bounded(
    slice: UserSlice,
    known: bool,
    authoritative: bool,
    answers: Seq<Option<SnapshotView>>,
)
    requires
        answers.len() > MAX_LOCK_WALKBACK_BLOCKS,
    ensures
        FallbackView::begin(slice, known, authoritative).after_all(answers) is Settled,
{
    lemma_budget_runs_out(FallbackView::begin(slice, known, authoritative), answers);
}

/// A search that walks back never resumes from a state with a locked jar: the
/// state it resumes from is an answer without one.
pub proof fn law_locked_state_is_never_resumed(
    block_height: u64,
    offset: u64,
    answers: Seq<Option<SnapshotView>>,
    raw: Seq<u8>,
)
    requires
        (FallbackView::Before { block_height, offset }).after_all(answers)
            == FallbackView::Settled(RecoveryView::Resume(raw)),
    ensures
        exists|k: int|
            0 <= k < answers.len() && #[trigger] answers[k] == Some(
                SnapshotView { raw_account: raw, any_jar_locked: false },
            ),
    decreases answers.len(),
{
    let start = FallbackView::Before { block_height, offset };
    let prior = answers.drop_last();
    let before = start.after_all(prior);
    if before == FallbackView::Settled(RecoveryView::Resume(raw)) {
        law_locked_state_is_never_resumed(block_height, offset, prior, raw);
        let k = choose|k: int|
            0 <= k < prior.len() && #[trigger] prior[k] == Some(
                SnapshotView { raw_account: raw, any_jar_locked: false },
            );
        assert(answers[k] == prior[k]);
    } else {
        lemma_walk_never_migrates(block_height, offset, prior);
        assert(answers[answers.len() - 1] == answers.last());
        assert(answers.last() == Some(SnapshotView { raw_account: raw, any_jar_locked: false }));
    }
}

proof fn lemma_walk_never_migrates(
    block_height: u64,
    offset: u64,
    answers: Seq<Option<SnapshotView>>,
)
    ensures
        !((FallbackView::Before { block_height, offset }).after_all(answers) is Migrated),
    decreases answers.len(),
{
    if answers.len() > 0 {
        lemma_walk_never_migrates(block_height, offset, answers.drop_last());
    }
}

/// While every state it is shown has a locked jar, the search asks about one
/// block further back each time.
pub proof fn law_walk_goes_back_block_by_block(
    block_height: u64,
    answers: Seq<Option<SnapshotView>>,
)
    requires
        answers.len() < MAX_LOCK_WALKBACK_BLOCKS,
        answers.len() < block_height,
        forall|k: int|
            0 <= k < answers.len() ==> (#[trigger] answers[k] matches Some(snapshot)
                && snapshot.any_jar_locked),
    ensures
        (FallbackView::Before { block_height, offset: 1 }).after_all(answers)
            == (FallbackView::Before { block_height, offset: (answers.len() + 1) as u64 }),
        (FallbackView::Before { block_height, offset: 1 }).after_all(answers).asks() == Some(
            (block_height - answers.len() - 1) as u64,
        ),
    decreases answers.len(),
{
    if answers.len() > 0 {
        let prior = answers.drop_last();
        assert forall|k: int| 0 <= k < prior.len() implies (#[trigger] prior[k] matches Some(
            snapshot,
        ) && snapshot.any_jar_locked) by {
            assert(prior[k] == answers[k]);
        }
        law_walk_goes_back_block_by_block(block_height, prior);
        assert(answers[answers.len() - 1] == answers.last());
    }
}

proof fn lemma_settled_stays(recovery: RecoveryView, answers: Seq<Option<SnapshotView>>)
    ensures
        FallbackView::Settled(recovery).after_all(answers) == FallbackView::Settled(recovery),
    decreases answers.len(),
{
    if answers.len() > 0 {
        lemma_settled_stays(recovery, answers.drop_last());
    }
}

/// Where a state is known, or the source is no authority, nothing is asked and
/// nothing changes.
pub proof fn law_known_state_is_left_alone(
    authoritative: bool,
    slice: UserSlice,
    raw_account: Option<Vec<u8>>,
    timeline: Timeline,
    said: Questions,
    out: Recovered,
)
    requires
        falls_back_to(authoritative, slice, raw_account, timeline, said, out),
        raw_account is Some || !authoritative,
    ensures
        said == Seq::<Question>::empty(),
        out == (raw_account, timeline, 0u128),
{
    let start = FallbackView::begin(slice, raw_account is Some, authoritative);
    let answers = choose|answers: Seq<Option<SnapshotView>>|
        {
            &&& is_dialogue(start, answers)
            &&& said == questions(slice.near_account_id@, start, answers)
            &&& #[trigger] start.after_all(answers) matches FallbackView::Settled(recovery)
                && recovers(recovery, slice, raw_account, timeline, out)
        };
    lemma_settled_asks_nothing(RecoveryView::Unchanged, answers);
    assert(said =~= Seq::<Question>::empty());
}

proof fn lemma_settled_asks_nothing(recovery: RecoveryView, answers: Seq<Option<SnapshotView>>)
    requires
        is_dialogue(FallbackView::Settled(recovery), answers),
    ensures
        answers.len() == 0,
{
    if answers.len() > 0 {
        let start = FallbackView::Settled(recovery);
        lemma_settled_stays(recovery, answers.take(0));
        assert(asked_at(start, answers, 0) is Some);
    }
}

/// The recorded bytes of a migration are the baseline, without a question to
/// the source, and every event is replayed on them.
pub proof fn law_migrated_bytes_need_no_source(
    slice: UserSlice,
    timeline: Timeline,
    said: Questions,
    out: Recovered,
)
    requires
        falls_back_to(true, slice, None, timeline, said, out),
        slice.migration is Some,
        slice.migration->0.raw_account is Some,
    ensures
        said == Seq::<Question>::empty(),
        out.0 is Some,
        out.0->0@ == slice.migration->0.raw_account->0@,
        out.1 == timeline,
        out.2 == 0,
{
    let start = FallbackView::begin(slice, false, true);
    let answers = choose|answers: Seq<Option<SnapshotView>>|
        {
            &&& is_dialogue(start, answers)
            &&& said == questions(slice.near_account_id@, start, answers)
            &&& #[trigger] start.after_all(answers) matches FallbackView::Settled(recovery)
                && recovers(recovery, slice, None, timeline, out)
        };
    lemma_settled_asks_nothing(
        RecoveryView::Resume(slice.migration->0.raw_account->0@),
        answers,
    );
    assert(said =~= Seq::<Question>::empty());
}

/// A migration without recorded bytes takes exactly one question, about its own
/// block, and no walk back.
pub proof fn law_migration_without_bytes_takes_one_question(
    slice: UserSlice,
    timeline: Timeline,
    said: Questions,
    out: Recovered,
)
    requires
        falls_back_to(true, slice, None, timeline, said, out),
        slice.migration is Some,
        slice.migration->0.raw_account is None,
    ensures
        said.len() == 1,
        said[0] matches Question::At { near_account_id, block_height, .. } && near_account_id
            == slice.near_account_id@ && block_height == slice.migration->0.block_height,
        out.1 == timeline,
        out.2 == 0,
{
    let start = FallbackView::begin(slice, false, true);
    let answers = choose|answers: Seq<Option<SnapshotView>>|
        {
            &&& is_dialogue(start, answers)
            &&& said == questions(slice.near_account_id@, start, answers)
            &&& #[trigger] start.after_all(answers) matches FallbackView::Settled(recovery)
                && recovers(recovery, slice, None, timeline, out)
        };
    assert(start.after_all(answers.take(0)) == start);
    if answers.len() == 0 {
        assert(start.after_all(answers) == start);
    } else {
        assert(answers.take(1).drop_last() =~= answers.take(0));
        assert(answers.take(1).last() == answers[0]);
        assert(start.after_all(answers.take(1)) == start.after(answers[0]));
        if answers.len() > 1 {
            assert(asked_at(start, answers, 1) is Some);
        }
        assert(answers.take(1) =~= answers);
    }
}

/// No search asks more than one question more than the blocks it may walk back, and
/// every question is about the account.
pub proof fn law_questions_are_few(
    authoritative: bool,
    slice: UserSlice,
    raw_account: Option<Vec<u8>>,
    timeline: Timeline,
    said: Questions,
    out: Recovered,
)
    requires
        falls_back_to(authoritative, slice, raw_account, timeline, said, out),
    ensures
        said.len() <= MAX_LOCK_WALKBACK_BLOCKS + 1,
        forall|k: int|
            0 <= k < said.len() ==> (#[trigger] said[k] matches Question::At {
                near_account_id,
                ..
            } && near_account_id == slice.near_account_id@),
{
    let start = FallbackView::begin(slice, raw_account is Some, authoritative);
    let answers = choose|answers: Seq<Option<SnapshotView>>|
        {
            &&& is_dialogue(start, answers)
            &&& said == questions(slice.near_account_id@, start, answers)
            &&& #[trigger] start.after_all(answers) matches FallbackView::Settled(recovery)
                && recovers(recovery, slice, raw_account, timeline, out)
        };
    let n = MAX_LOCK_WALKBACK_BLOCKS + 1;
    if answers.len() > n {
        law_search_is_bounded(slice, raw_account is Some, authoritative, answers.take(n));
        assert(asked_at(start, answers, n) is Some);
    }
}

/// The search takes at most the first event out. What comes off the on-chain
/// total is that event's own claim, and no more than the total.
pub proof fn law_only_the_first_event_is_left_out(
    authoritative: bool,
    slice: UserSlice,
    raw_account: Option<Vec<u8>>,
    timeline: Timeline,
    said: Questions,
    out: Recovered,
)
    requires
        falls_back_to(authoritative, slice, raw_account, timeline, said, out),
        slice.fits(timeline),
    ensures
        out.1.events@ == timeline.events@ || out.1.events@ == timeline.events@.drop_first(),
        out.1.events@ != timeline.events@ ==> out.0 is Some,
        out.2 != 0 ==> out.1.events@ == timeline.events@.drop_first()
            && timeline.events@[0].action is Claim && slice.first_event_claim_amount == Some(out.2),
        slice.describes(timeline) && out.1.events@ != timeline.events@
            && timeline.events@[0].action is Claim ==> slice.first_event_claim_amount == Some(
            out.2,
        ),
        out.2 <= slice.onchain_claimed,
{
    if timeline.events@.len() == 0 {
        let start = FallbackView::begin(slice, raw_account is Some, authoritative);
        let answers = choose|answers: Seq<Option<SnapshotView>>|
            {
                &&& is_dialogue(start, answers)
                &&& said == questions(slice.near_account_id@, start, answers)
                &&& #[trigger] start.after_all(answers) matches FallbackView::Settled(recovery)
                    && recovers(recovery, slice, raw_account, timeline, out)
            };
        lemma_nothing_is_skipped(start, answers);
    }
}

proof fn lemma_nothing_is_skipped(start: FallbackView, answers: Seq<Option<SnapshotView>>)
    requires
        !leads_to_skip(start),
    ensures
        !leads_to_skip(start.after_all(answers)),
    decreases answers.len(),
{
    if answers.len() > 0 {
        lemma_nothing_is_skipped(start, answers.drop_last());
    }
}

} // verus!
