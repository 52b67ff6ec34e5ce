//! What holds of radostrace lines and of the pool rows built from them.

use crate::flow;
use crate::flow_laws;
use crate::radostrace;
use crate::radostrace::{RadosEventView, RadosPoolRowView};
use crate::tally;
use crate::text;
use vstd::prelude::*;

verus! {

proof fn lemma_writes_are_counted(events: Seq<RadosEventView>)
    ensures
        radostrace::writes_in(events) == events.filter(|e: RadosEventView| e.write).len(),
        events.len() - radostrace::writes_in(events) == events.filter(
            |e: RadosEventView| !e.write,
        ).len(),
    decreases events.len(),
{
    let yes = |e: RadosEventView| e.write;
    let no = |e: RadosEventView| !e.write;
    reveal(Seq::filter);
    if events.len() > 0 {
        lemma_writes_are_counted(events.drop_last());
    }
}

/// A pool row counts the ops of its pool: all of them, those that write, and those
/// that read. No op of the pool was slower than its maximum and one was as slow,
/// and its mean is the sum of their latencies, as far as 64 bits hold it, divided
/// by their number and rounded down.
pub proof fn law_pool_row_totals_the_ops_of_its_pool(events: Seq<RadosEventView>, i: int)
    requires
        events.len() <= u64::MAX,
        0 <= i < radostrace::pool_rows(events).len(),
    ensures
        ({
            let row = radostrace::pool_rows(events)[i];
            let ours = events.filter(|e: RadosEventView| e.pool == row.pool);
            let sum = tally::capped(
                tally::total(ours.map_values(|e: RadosEventView| e.latency_us)),
            );
            &&& ours.len() > 0
            &&& row.count == ours.len()
            &&& row.writes == ours.filter(|e: RadosEventView| e.write).len()
            &&& row.reads == ours.filter(|e: RadosEventView| !e.write).len()
            &&& forall|k: int|
                0 <= k < ours.len() ==> (#[trigger] ours[k]).latency_us <= row.max_us
            &&& exists|k: int|
                0 <= k < ours.len() && (#[trigger] ours[k]).latency_us == row.max_us
            &&& row.avg_us * row.count <= sum < (row.avg_us + 1) * row.count
        }),
{
    let row = radostrace::pool_rows(events)[i];
    radostrace::law_pool_rows_are_ordered(events);
    let pool = row.pool;
    radostrace::law_pool_row_is_consistent(events, pool);
    let ours = events.filter(|e: RadosEventView| e.pool == pool);
    assert(radostrace::in_pool(pool) =~= (|e: RadosEventView| e.pool == pool));
    events.lemma_filter_len(radostrace::in_pool(pool));
    lemma_writes_are_counted(ours);
    let slow = radostrace::latencies(ours);
    assert(slow =~= ours.map_values(|e: RadosEventView| e.latency_us));
    tally::lemma_largest(slow);
    assert forall|k: int| 0 <= k < ours.len() implies (#[trigger] ours[k]).latency_us
        <= row.max_us by {
        assert(slow[k] == ours[k].latency_us);
    }
    assert(slow.contains(row.max_us));
    let k = choose|k: int| 0 <= k < slow.len() && slow[k] == row.max_us;
    assert(ours[k].latency_us == row.max_us);
    let sum = tally::capped(tally::total(slow));
    let (s, n) = (sum as int, ours.len() as int);
    assert((s / n) * n <= s < (s / n + 1) * n) by (nonlinear_arith)
        requires
            n > 0,
            s >= 0,
    ;
}

/// Every op has a row of its pool, no pool has two rows, and the rows stand in the
/// order of their ops, most first, then of their maxima, largest first, then of
/// their names.
pub proof fn law_each_pool_has_one_row_and_busy_ones_come_first(events: Seq<RadosEventView>)
    ensures
        ({
            let rows = radostrace::pool_rows(events);
            &&& forall|k: int|
                0 <= k < events.len() ==> exists|i: int|
                    0 <= i < rows.len() && (#[trigger] rows[i]).pool == (#[trigger] events[k]).pool
            &&& forall|i: int|
                0 <= i < rows.len() ==> exists|k: int|
                    0 <= k < events.len() && (#[trigger] rows[i]).pool == (#[trigger] events[k]).pool
            &&& forall|i: int, j: int|
                0 <= i < j < rows.len() ==> {
                    let (a, b) = (#[trigger] rows[i], #[trigger] rows[j]);
                    &&& a.pool != b.pool
                    &&& a.count >= b.count
                    &&& a.count == b.count ==> a.max_us >= b.max_us
                    &&& a.count == b.count && a.max_us == b.max_us ==> text::text_before(
                        a.pool,
                        b.pool,
                    )
                }
        }),
{
    let rows = radostrace::pool_rows(events);
    let names = events.map_values(radostrace::pool_of());
    radostrace::law_pool_rows_are_ordered(events);
    assert forall|i: int, j: int| 0 <= i < j < rows.len() implies {
        let (a, b) = (#[trigger] rows[i], #[trigger] rows[j]);
        &&& a.pool != b.pool
        &&& a.count >= b.count
        &&& a.count == b.count ==> a.max_us >= b.max_us
        &&& a.count == b.count && a.max_us == b.max_us ==> text::text_before(a.pool, b.pool)
    } by {
        assert(radostrace::busier(rows[i], rows[j]));
        text::law_text_before_is_a_strict_total_order(rows[i].pool, rows[i].pool, rows[i].pool);
    }
    assert forall|i: int| 0 <= i < rows.len() implies exists|k: int|
        0 <= k < events.len() && (#[trigger] rows[i]).pool == (#[trigger] events[k]).pool by {
        assert(names.contains(rows[i].pool));
        let k = choose|k: int| 0 <= k < names.len() && names[k] == rows[i].pool;
        assert(events[k].pool == rows[i].pool);
    }
    // The names of the rows are as many as the pools, and they differ.
    let pools = tally::distinct(names);
    let shown = rows.map_values(|r: RadosPoolRowView| r.pool);
    tally::law_distinct_names_each_entry_once(names);
    assert(shown.no_duplicates()) by {
        assert forall|i: int, j: int| 0 <= i < shown.len() && 0 <= j < shown.len() && i != j
            implies shown[i] != shown[j] by {
            if i < j {
                assert(rows[i].pool != rows[j].pool);
            } else {
                assert(rows[j].pool != rows[i].pool);
            }
        }
    }
    shown.unique_seq_to_set();
    pools.unique_seq_to_set();
    assert(shown.to_set().subset_of(pools.to_set())) by {
        assert forall|p: Seq<char>| shown.to_set().contains(p) implies pools.to_set().contains(
            p,
        ) by {
            let i = choose|i: int| 0 <= i < shown.len() && shown[i] == p;
            assert(names.contains(rows[i].pool));
            assert(pools.contains(p));
        }
    }
    vstd::set_lib::lemma_subset_equality(shown.to_set(), pools.to_set());
    assert forall|k: int| 0 <= k < events.len() implies exists|i: int|
        0 <= i < rows.len() && (#[trigger] rows[i]).pool == (#[trigger] events[k]).pool by {
        assert(names[k] == events[k].pool);
        assert(names.contains(events[k].pool));
        assert(pools.contains(events[k].pool));
        assert(pools.to_set().contains(events[k].pool));
        assert(shown.to_set().contains(events[k].pool));
        let i = choose|i: int| 0 <= i < shown.len() && shown[i] == events[k].pool;
        assert(rows[i].pool == events[k].pool);
    }
}

/// The columns are words: none is empty or holds white space.
pub open spec fn are_words(columns: Seq<Seq<char>>) -> bool {
    &&& forall|i: int| 0 <= i < columns.len() ==> (#[trigger] columns[i]).len() > 0
    &&& forall|i: int, k: int|
        0 <= i < columns.len() && 0 <= k < columns[i].len() ==> !text::is_space(
            #[trigger] columns[i][k],
        )
}

/// A line that writes an op down, column by column, reads back as that op: the
/// pool is the fourth column, the placement group the fourth and the fifth, the
/// acting set the sixth, `W` marks a write, and size, latency and object follow.
pub proof fn law_written_op_reads_back(
    columns: Seq<Seq<char>>,
    acting: Seq<i64>,
    write: bool,
    size_bytes: u64,
    latency_us: u64,
    observed_at: i64,
)
    requires
        columns.len() >= 10,
        are_words(columns),
        forall|k: int| 0 <= k < columns[0].len() ==> '0' <= #[trigger] columns[0][k] <= '9',
        columns[5] == flow::acting_text(acting),
        columns[6] == if write {
            "W"@
        } else {
            "R"@
        },
        columns[7] == text::decimal(size_bytes as nat),
        columns[8] == text::decimal(latency_us as nat),
    ensures
        radostrace::event_of(text::joined(columns, " "@), observed_at) == Some(
            RadosEventView {
                observed_at,
                pool: columns[3],
                pg: columns[3] + "."@ + columns[4],
                acting,
                object: columns[9],
                size_bytes,
                write,
                latency_us,
            },
        ),
{
    text::law_spaced_words_read_back(columns);
    flow_laws::law_acting_set_reads_back(acting);
    text::law_decimal_reads_back(size_bytes, 0);
    text::law_decimal_reads_back(latency_us, 0);
    lemma_marks_differ();
}

proof fn lemma_marks_differ()
    ensures
        "W"@ != "R"@,
{
    reveal_strlit("W");
    reveal_strlit("R");
    assert("W"@[0] == 'W' && "R"@[0] == 'R');
}

/// A line reports no op where it has fewer than ten words, its first word holds
/// anything but digits, its seventh is neither `W` nor `R`, or its ninth is no
/// number. It reports one otherwise, also where its size is no number: that then
/// counts as zero.
pub proof fn law_only_op_lines_report_ops(columns: Seq<Seq<char>>, observed_at: i64)
    requires
        are_words(columns),
    ensures
        ({
            let found = radostrace::event_of(text::joined(columns, " "@), observed_at);
            &&& columns.len() < 10 ==> found is None
            &&& columns.len() >= 10 ==> {
                &&& found is None <==> {
                    ||| exists|k: int|
                        0 <= k < columns[0].len() && !('0' <= #[trigger] columns[0][k] <= '9')
                    ||| columns[6] != "W"@ && columns[6] != "R"@
                    ||| text::written_u64(columns[8]) is None
                }
                &&& found is Some && text::written_u64(columns[7]) is None ==> found->0.size_bytes
                    == 0
                &&& found is Some ==> found->0.write == (columns[6] == "W"@)
            }
        }),
{
    text::law_spaced_words_read_back(columns);
    if columns.len() >= 10 {
        if !text::all_digits(columns[0]) {
            let k = choose|k: int|
                0 <= k < columns[0].len() && !text::is_digit(#[trigger] columns[0][k]);
            assert(!('0' <= columns[0][k] <= '9'));
        } else {
            assert forall|k: int| 0 <= k < columns[0].len() implies '0' <= #[trigger] columns[0][k]
                <= '9' by {
                assert(text::is_digit(columns[0][k]));
            }
        }
    }
}

/// What is no number among the entries of an acting set is skipped, and the others
/// keep their order, missing slots included.
pub proof fn law_acting_set_skips_what_is_no_number(parts: Seq<Seq<char>>)
    ensures
        radostrace::numbers_in(parts) == parts.filter(
            |p: Seq<char>| text::written_i64(text::trimmed(p)) is Some,
        ).map_values(|p: Seq<char>| text::written_i64(text::trimmed(p))->0),
    decreases parts.len(),
{
    let keep = |p: Seq<char>| text::written_i64(text::trimmed(p)) is Some;
    let to = |p: Seq<char>| text::written_i64(text::trimmed(p))->0;
    reveal(Seq::filter);
    if parts.len() > 0 {
        law_acting_set_skips_what_is_no_number(parts.drop_last());
    }
    assert(radostrace::numbers_in(parts) =~= parts.filter(keep).map_values(to));
}

/// What is said of an op and of a pool row are its own fields.
pub proof fn law_ops_and_rows_say_their_own_fields(
    event: radostrace::RadosEvent,
    row: radostrace::RadosPoolRow,
)
    ensures
        event@.observed_at == event.observed_at,
        event@.pool == event.pool@ && event@.pg == event.pg@ && event@.object == event.object@,
        event@.acting == event.acting@,
        event@.size_bytes == event.size_bytes && event@.latency_us == event.latency_us,
        event@.write == event.write,
        row@.pool == row.pool@ && row@.count == row.count,
        row@.avg_us == row.avg_us && row@.max_us == row.max_us,
        row@.writes == row.writes && row@.reads == row.reads,
{
}

} // verus!
