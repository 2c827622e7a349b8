//! Finding the first event after which a replay and the chain disagree.
//!
//! The replay gives the state of the account after an event; the chain gives
//! its state after a whole block. So only the last event of a block is compared.

use vstd::prelude::*;
use vstd::string::StringExecFns;

use crate::decimal::{digits, write_u128};
use crate::engine::Event;

verus! {

/// The block that an event ran in, under the event's block time and log index.
#[derive(Clone, Copy, Debug, PartialEq, Eq, Structural)]
pub struct BlockRow {
    pub ts_ms: u64,
    pub log_index: u64,
    pub block_height: u64,
}

/// The block of the last row for `(ts_ms, seq)`.
pub open spec fn block_of(rows: Seq<BlockRow>, ts_ms: u64, seq: u64) -> Option<u64>
    decreases rows.len(),
{
    if rows.len() == 0 {
        None
    } else if rows.last().ts_ms == ts_ms && rows.last().log_index == seq {
        Some(rows.last().block_height)
    } else {
        block_of(rows.drop_last(), ts_ms, seq)
    }
}

fn find_block(rows: &Vec<BlockRow>, ts_ms: u64, seq: u64) -> (block: Option<u64>)
    ensures
        block == block_of(rows@, ts_ms, seq),
{
    let mut n: usize = rows.len();
    assert(rows@.take(n as int) =~= rows@);
    while n > 0
        invariant
            n <= rows@.len(),
            block_of(rows@, ts_ms, seq) == block_of(rows@.take(n as int), ts_ms, seq),
        decreases n,
    {
        assert(rows@.take(n as int).drop_last() =~= rows@.take(n - 1));
        n = n - 1;
        if rows[n].ts_ms == ts_ms && rows[n].log_index == seq {
            return Some(rows[n].block_height);
        }
    }
    None
}

/// Why the events have no row of blocks.
#[derive(Clone, Copy, Debug, PartialEq, Eq, Structural)]
pub struct MissingBlock {
    pub ts_ms: u64,
    pub seq: u64,
}

/// `heights` has the block of every event, in the order of the events, or names the
/// first event without one.
pub open spec fn are_heights(
    events: Seq<Event>,
    rows: Seq<BlockRow>,
    heights: Result<Vec<u64>, MissingBlock>,
) -> bool {
    match heights {
        Ok(heights) => {
            &&& heights@.len() == events.len()
            &&& forall|i: int|
                0 <= i < events.len() ==> block_of(rows, events[i].ts_ms, events[i].seq) == Some(
                    #[trigger] heights@[i],
                )
        },
        Err(missing) => exists|i: int|
            {
                &&& 0 <= i < events.len()
                &&& (#[trigger] events[i]).ts_ms == missing.ts_ms
                &&& events[i].seq == missing.seq
                &&& block_of(rows, missing.ts_ms, missing.seq) is None
                &&& forall|j: int|
                    0 <= j < i ==> block_of(
                        rows,
                        (#[trigger] events[j]).ts_ms,
                        events[j].seq,
                    ) is Some
            },
    }
}

/// The block of every event, in the order of the events. The first event
/// without one is named instead.
pub fn event_heights(events: &Vec<Event>, rows: &Vec<BlockRow>) -> (heights: Result<
    Vec<u64>,
    MissingBlock,
>)
    ensures
        are_heights(events@, rows@, heights),
{
    let mut heights: Vec<u64> = Vec::new();
    for i in 0..events.len()
        invariant
            heights@.len() == i,
            forall|k: int|
                0 <= k < i ==> block_of(rows@, events@[k].ts_ms, events@[k].seq) == Some(
                    #[trigger] heights@[k],
                ),
            forall|k: int|
                0 <= k < i ==> block_of(rows@, (#[trigger] events@[k]).ts_ms, events@[k].seq)
                    is Some,
    {
        let event: &Event = &events[i];
        match find_block(rows, event.ts_ms, event.seq) {
            Some(block) => {
                heights.push(block);
            },
            None => {
                assert(events@[i as int].ts_ms == event.ts_ms);
                return Err(MissingBlock { ts_ms: event.ts_ms, seq: event.seq });
            },
        }
    }
    Ok(heights)
}

/// What to do about one replayed event.
#[derive(Clone, Copy, Debug, PartialEq, Eq, Structural)]
pub enum Probe {
    /// The next event ran in the same block: there is nothing to compare with.
    Shared { index: usize, block_height: u64 },
    /// Compare the state after the event with the chain's state at the block.
    Compare { index: usize, block_height: u64 },
    Done,
}

/// What came of one replayed event.
#[derive(Clone, Copy, Debug, PartialEq, Eq, Structural)]
pub enum Finding {
    /// Not compared: the event shares its block with the next.
    Shared,
    /// The chain has no state of the account at the block.
    Absent,
    Same,
    Different,
}

/// A search for the first event after which the states differ.
pub struct Bisection {
    heights: Vec<u64>,
    replayed: Vec<usize>,
    at: usize,
    divergence: Option<usize>,
}

/// What a search holds: the block of every event, the events after which the
/// replay had a state, how many of those are behind it, and what it found.
pub struct BisectionView {
    pub heights: Seq<u64>,
    pub replayed: Seq<usize>,
    pub at: int,
    pub divergence: Option<usize>,
}

/// The event at `i` is the last one of its block.
pub open spec fn ends_its_block(heights: Seq<u64>, i: int) -> bool {
    i + 1 < heights.len() ==> heights[i + 1] != heights[i]
}

impl BisectionView {
    /// The search counts no more events than there are, and each has a block.
    pub open spec fn wf(self) -> bool {
        &&& 0 <= self.at <= self.replayed.len()
        &&& forall|k: int|
            0 <= k < self.replayed.len() ==> (#[trigger] self.replayed[k]) < self.heights.len()
    }

    pub open spec fn start(heights: Seq<u64>, replayed: Seq<usize>) -> BisectionView {
        BisectionView { heights, replayed, at: 0, divergence: None }
    }

    /// What is next. The search is over at the first difference.
    pub open spec fn probe(self) -> Probe {
        if self.divergence is Some || self.at >= self.replayed.len() {
            Probe::Done
        } else {
            let index = self.replayed[self.at];
            let block_height = self.heights[index as int];
            if ends_its_block(self.heights, index as int) {
                Probe::Compare { index, block_height }
            } else {
                Probe::Shared { index, block_height }
            }
        }
    }

    /// `finding` can come of what is next.
    pub open spec fn admits(self, finding: Finding) -> bool {
        match self.probe() {
            Probe::Shared { .. } => finding is Shared,
            Probe::Compare { .. } => !(finding is Shared),
            Probe::Done => false,
        }
    }

    /// The search after `finding`.
    pub open spec fn after(self, finding: Finding) -> BisectionView {
        BisectionView {
            at: self.at + 1,
            divergence: if finding is Different {
                Some(self.replayed[self.at])
            } else {
                None
            },
            ..self
        }
    }
}

impl View for Bisection {
    type V = BisectionView;

    closed spec fn view(&self) -> BisectionView {
        BisectionView {
            heights: self.heights@,
            replayed: self.replayed@,
            at: self.at as int,
            divergence: self.divergence,
        }
    }
}

impl Bisection {
    /// Starts a search. `heights` has the block of every event, `replayed` the
    /// indexes of the events after which the replay had a state, in order.
    pub fn new(heights: Vec<u64>, replayed: Vec<usize>) -> (search: Self)
        requires
            forall|k: int|
                0 <= k < replayed@.len() ==> (#[trigger] replayed@[k]) < heights@.len(),
        ensures
            search@ == BisectionView::start(heights@, replayed@),
            search@.wf(),
    {
        Bisection { heights, replayed, at: 0, divergence: None }
    }

    /// What to do next.
    pub fn probe(&self) -> (probe: Probe)
        requires
            self@.wf(),
        ensures
            probe == self@.probe(),
    {
        if self.divergence.is_some() || self.at >= self.replayed.len() {
            return Probe::Done;
        }
        let index: usize = self.replayed[self.at];
        assert(self@.replayed[self@.at] < self@.heights.len());
        let block_height: u64 = self.heights[index];
        if index < self.heights.len() - 1 && self.heights[index + 1] == block_height {
            Probe::Shared { index, block_height }
        } else {
            Probe::Compare { index, block_height }
        }
    }

    /// Takes what came of it.
    pub fn advance(&mut self, finding: Finding)
        requires
            old(self)@.wf(),
            old(self)@.admits(finding),
        ensures
            final(self)@ == old(self)@.after(finding),
            final(self)@.wf(),
    {
        if let Finding::Different = finding {
            self.divergence = Some(self.replayed[self.at]);
        }
        assert(self.at < self.replayed.len());
        self.at = self.at + 1;
    }

    /// The index of the first event after which the states differ.
    pub fn first_divergence(&self) -> (index: Option<usize>)
        ensures
            index == self@.divergence,
    {
        self.divergence
    }
}

/// `text` moved to the right of a column of three characters.
pub open spec fn right_aligned(text: Seq<char>) -> Seq<char> {
    if text.len() >= 3 {
        text
    } else if text.len() == 2 {
        " "@ + text
    } else if text.len() == 1 {
        "  "@ + text
    } else {
        "   "@
    }
}

/// What is said of a finding.
pub open spec fn finding_text(finding: Finding) -> Seq<char> {
    match finding {
        Finding::Shared => "shares this block with the next event \u{2014} skipping"@,
        Finding::Absent =>
            "chain state is null (account not yet created) \u{2014} skipping"@,
        Finding::Same => "match"@,
        Finding::Different => "FIRST DIVERGENCE"@,
    }
}

/// The text of the line that reports what came of the event at `index`.
pub open spec fn finding_line_text(index: usize, block_height: u64, finding: Finding) -> Seq<char> {
    "["@ + right_aligned(digits(index as nat)) + "] block "@ + digits(block_height as nat) + ": "@
        + finding_text(finding)
}

/// The line that reports what came of the event at `index`.
pub fn finding_line(index: usize, block_height: u64, finding: Finding) -> (line: String)
    ensures
        line@ == finding_line_text(index, block_height, finding),
{
    let mut line = "[".to_owned();
    proof {
        lemma_digit_count(index as nat);
    }
    if index < 10 {
        line.append("  ");
    } else if index < 100 {
        line.append(" ");
    }
    let number = write_u128(index as u128);
    line.append(number.as_str());
    line.append("] block ");
    let block = write_u128(block_height as u128);
    line.append(block.as_str());
    line.append(": ");
    line.append(
        match finding {
            Finding::Shared => "shares this block with the next event \u{2014} skipping",
            Finding::Absent =>
                "chain state is null (account not yet created) \u{2014} skipping",
            Finding::Same => "match",
            Finding::Different => "FIRST DIVERGENCE",
        },
    );
    line
}

proof fn lemma_digit_count(n: nat)
    ensures
        n < 10 ==> digits(n).len() == 1,
        10 <= n < 100 ==> digits(n).len() == 2,
        100 <= n ==> digits(n).len() >= 3,
    decreases n,
{
    reveal_with_fuel(digits, 2);
    if n >= 100 {
        lemma_digit_count(n / 10);
    }
}

/// The text of what is said at the end of a search.
pub open spec fn conclusion_text(divergence: Option<usize>) -> Seq<char> {
    match divergence {
        Some(index) => "First divergence at event index "@ + digits(index as nat) + " (0-based)."@,
        None =>
            "No divergence found \u{2014} replay matches real chain state at every event boundary."@,
    }
}

/// What is said at the end of a search.
pub fn conclusion(divergence: Option<usize>) -> (line: String)
    ensures
        line@ == conclusion_text(divergence),
{
    match divergence {
        Some(index) => {
            let mut line = "First divergence at event index ".to_owned();
            let number = write_u128(index as u128);
            line.append(number.as_str());
            line.append(" (0-based).");
            line
        },
        None => {
            "No divergence found \u{2014} replay matches real chain state at every event boundary.".to_owned()
        },
    }
}

/// `states` is a search from its start on, with what came of each event.
pub open spec fn is_search(
    heights: Seq<u64>,
    replayed: Seq<usize>,
    findings: Seq<Finding>,
    states: Seq<BisectionView>,
) -> bool {
    &&& states.len() == findings.len() + 1
    &&& states[0] == BisectionView::start(heights, replayed)
    &&& forall|k: int|
        0 <= k < findings.len() ==> (#[trigger] states[k]).admits(findings[k]) && states[k + 1]
            == states[k].after(findings[k])
}

/// A search names the first event that differs, and none where none did: of the
/// events before it, none differed.
pub proof fn law_first_difference_is_named(
    heights: Seq<u64>,
    replayed: Seq<usize>,
    findings: Seq<Finding>,
    states: Seq<BisectionView>,
)
    requires
        is_search(heights, replayed, findings, states),
    ensures
        states.last().at == findings.len(),
        findings.len() <= replayed.len(),
        forall|j: int| 0 <= j < findings.len() - 1 ==> !(#[trigger] findings[j] is Different),
        states.last().divergence == (if findings.len() > 0 && findings.last() is Different {
            Some(replayed[findings.len() - 1])
        } else {
            None
        }),
    decreases findings.len(),
{
    if findings.len() > 0 {
        let earlier = findings.drop_last();
        let before = states.drop_last();
        assert forall|k: int| 0 <= k < earlier.len() implies (#[trigger] before[k]).admits(
            earlier[k],
        ) && before[k + 1] == before[k].after(earlier[k]) by {
            assert(states[k].admits(findings[k]));
        }
        law_first_difference_is_named(heights, replayed, earlier, before);
        lemma_search_keeps_its_events(heights, replayed, earlier, before);
        let n = earlier.len() as int;
        assert(states[n].admits(findings[n]));
        assert(before.last() == states[n]);
        assert(states[n].divergence is None);
        assert forall|j: int| 0 <= j < n implies !(#[trigger] findings[j] is Different) by {
            assert(findings[j] == earlier[j]);
            if j == n - 1 {
                assert(earlier.last() == findings[j]);
            }
        }
    }
}

proof fn lemma_search_keeps_its_events(
    heights: Seq<u64>,
    replayed: Seq<usize>,
    findings: Seq<Finding>,
    states: Seq<BisectionView>,
)
    requires
        is_search(heights, replayed, findings, states),
    ensures
        states.last().heights == heights,
        states.last().replayed == replayed,
    decreases findings.len(),
{
    if findings.len() > 0 {
        let earlier = findings.drop_last();
        let before = states.drop_last();
        assert forall|k: int| 0 <= k < earlier.len() implies (#[trigger] before[k]).admits(
            earlier[k],
        ) && before[k + 1] == before[k].after(earlier[k]) by {
            assert(states[k].admits(findings[k]));
        }
        lemma_search_keeps_its_events(heights, replayed, earlier, before);
        let n = earlier.len() as int;
        assert(states[n].admits(findings[n]));
        assert(before.last() == states[n]);
    }
}

/// The state after an event is compared only where the event is the last of its
/// block: an earlier event of that block would be held against the effect of
/// the whole block.
pub proof fn law_only_the_last_event_of_a_block_is_compared(search: BisectionView)
    requires
        search.wf(),
    ensures
        search.probe() matches Probe::Compare { index, block_height } ==> {
            &&& block_height == search.heights[index as int]
            &&& index + 1 < search.heights.len() ==> search.heights[index + 1] != block_height
        },
{
}

} // verus!
