//! Laws of the search for the first difference.

use vstd::prelude::*;

use crate::bisect::{
    block_of, is_search, law_first_difference_is_named, right_aligned, BisectionView, BlockRow,
    Finding, Probe,
};

verus! {

/// An event ran in the block that the last row of its time and log index names; an
/// event without such a row has no block.
pub proof fn law_block_is_that_of_the_last_row(rows: Seq<BlockRow>, ts_ms: u64, seq: u64)
    ensures
        match block_of(rows, ts_ms, seq) {
            Some(block_height) => exists|i: int|
                {
                    &&& 0 <= i < rows.len()
                    &&& #[trigger] rows[i] == (BlockRow { ts_ms, log_index: seq, block_height })
                    &&& forall|j: int|
                        i < j < rows.len() ==> !((#[trigger] rows[j]).ts_ms == ts_ms
                            && rows[j].log_index == seq)
                },
            None => forall|j: int|
                0 <= j < rows.len() ==> !((#[trigger] rows[j]).ts_ms == ts_ms && rows[j].log_index
                    == seq),
        },
    decreases rows.len(),
{
    if rows.len() > 0 {
        let rest = rows.drop_last();
        let last = rows.len() - 1;
        if rows.last().ts_ms == ts_ms && rows.last().log_index == seq {
            assert(rows[last] == BlockRow {
                ts_ms,
                log_index: seq,
                block_height: rows.last().block_height,
            });
        } else {
            law_block_is_that_of_the_last_row(rest, ts_ms, seq);
            assert forall|j: int| 0 <= j < rest.len() implies rest[j] == #[trigger] rows[j] by {
            }
            if let Some(block_height) = block_of(rest, ts_ms, seq) {
                let i = choose|i: int|
                    {
                        &&& 0 <= i < rest.len()
                        &&& #[trigger] rest[i] == (BlockRow { ts_ms, log_index: seq, block_height })
                        &&& forall|j: int|
                            i < j < rest.len() ==> !((#[trigger] rest[j]).ts_ms == ts_ms
                                && rest[j].log_index == seq)
                    };
                assert(rows[i] == BlockRow { ts_ms, log_index: seq, block_height });
                assert forall|j: int| i < j < rows.len() implies !((
                #[trigger] rows[j]).ts_ms == ts_ms && rows[j].log_index == seq) by {
                    if j < last {
                        assert(rest[j] == rows[j]);
                    }
                }
            }
        }
    }
}

/// The search looks at the replayed events one after the other, each with its own
/// block, and compares the state after each that is the last of its block. It is over
/// at the first difference or after the last event, and not before.
pub proof fn law_search_looks_at_every_event(search: BisectionView)
    requires
        search.wf(),
    ensures
        search.probe() is Done <==> search.divergence is Some || search.at
            == search.replayed.len(),
        !(search.probe() is Done) ==> {
            let index = search.replayed[search.at];
            let block_height = search.heights[index as int];
            let shared = index + 1 < search.heights.len() && search.heights[index + 1]
                == block_height;
            &&& shared ==> search.probe() == (Probe::Shared { index, block_height })
            &&& !shared ==> search.probe() == (Probe::Compare { index, block_height })
        },
{
}

/// A search that is over without a difference looked at every replayed event.
pub proof fn law_search_without_a_difference_is_complete(
    heights: Seq<u64>,
    replayed: Seq<usize>,
    findings: Seq<Finding>,
    states: Seq<BisectionView>,
)
    requires
        is_search(heights, replayed, findings, states),
        states.last().wf(),
        states.last().probe() is Done,
        states.last().divergence is None,
    ensures
        findings.len() == states.last().replayed.len(),
        forall|j: int| 0 <= j < findings.len() ==> !(#[trigger] findings[j] is Different),
{
    law_first_difference_is_named(heights, replayed, findings, states);
}

/// A column is three characters wide, or as wide as its text; the text stands at its
/// right end, with nothing but spaces before it.
pub proof fn law_column_holds_its_text(text: Seq<char>)
    ensures
        ({
            let column = right_aligned(text);
            let blank = column.len() - text.len();
            &&& column.len() == (if text.len() < 3 {
                3
            } else {
                text.len()
            })
            &&& column.skip(blank) == text
            &&& forall|k: int| 0 <= k < blank ==> #[trigger] column[k] == ' '
        }),
{
    reveal_strlit(" ");
    reveal_strlit("  ");
    reveal_strlit("   ");
    let column = right_aligned(text);
    assert(column.skip(column.len() - text.len()) =~= text);
}

} // verus!
