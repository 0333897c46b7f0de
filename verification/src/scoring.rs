//! How well the observed calls of a journey agree with the stops of a trip.

use crate::alignment;
use crate::clock::{self, minimum_time_difference};
use crate::gtfs::{self, StopTime, Trip};
use crate::stops::{self, stops_match, StopMatchMode};
use crate::table::Table;
use crate::text::{self, text_precedes};
use vstd::prelude::*;

verus! {

/// A call of a journey, as far as it bears on where the journey is.
#[derive(Debug, Clone)]
pub struct ObservedCall {
    /// The stops that the call may be at.
    pub stop_aliases: Vec<String>,
    pub aimed_arrival: Option<i64>,
    pub aimed_departure: Option<i64>,
    pub expected_arrival: Option<i64>,
    pub expected_departure: Option<i64>,
}

/// What of an observed call is held against a schedule.
pub ghost struct Call {
    pub aliases: Seq<Seq<char>>,
    pub arrival: Option<i64>,
    pub departure: Option<i64>,
}

impl View for ObservedCall {
    type V = Call;

    open spec fn view(&self) -> Call {
        Call {
            aliases: text::texts(self.stop_aliases@),
            arrival: match self.aimed_arrival {
                Some(t) => Some(t),
                None => self.expected_arrival,
            },
            departure: match self.aimed_departure {
                Some(t) => Some(t),
                None => self.expected_departure,
            },
        }
    }
}

/// What of the observed calls is held against a schedule.
pub open spec fn calls_of(calls: Seq<ObservedCall>) -> Seq<Call> {
    Seq::new(calls.len(), |i: int| calls[i]@)
}

/// Whether the times of a call are timestamps that a feed can hold.
pub open spec fn is_timely(call: Call) -> bool {
    &&& call.arrival matches Some(t) ==> clock::is_stamp(t as int)
    &&& call.departure matches Some(t) ==> clock::is_stamp(t as int)
}

/// Whether the times of all calls are timestamps that a feed can hold.
pub open spec fn all_timely(calls: Seq<Call>) -> bool {
    forall|i: int| 0 <= i < calls.len() ==> is_timely(#[trigger] calls[i])
}

impl ObservedCall {
    /// The aimed arrival, the expected one where no aimed one is given.
    pub fn matching_arrival(&self) -> (r: Option<i64>)
        ensures
            r == self@.arrival,
    {
        match self.aimed_arrival {
            Some(t) => Some(t),
            None => self.expected_arrival,
        }
    }

    /// The aimed departure, the expected one where no aimed one is given.
    pub fn matching_departure(&self) -> (r: Option<i64>)
        ensures
            r == self@.departure,
    {
        match self.aimed_departure {
            Some(t) => Some(t),
            None => self.expected_departure,
        }
    }
}

/// What the differences between observed and scheduled times come to.
pub ghost struct Score {
    /// Their sum.
    pub total: int,
    /// The greatest of them.
    pub most: int,
    /// How many there are.
    pub count: int,
}

/// The score of nothing.
pub open spec fn no_score() -> Score {
    Score { total: 0, most: 0, count: 0 }
}

pub open spec fn greater(a: int, b: int) -> int {
    if a < b {
        b
    } else {
        a
    }
}

/// A score with one difference more, if there is one.
pub open spec fn with_difference(score: Score, difference: Option<int>) -> Score {
    match difference {
        Some(d) => Score {
            total: score.total + d,
            most: greater(score.most, d),
            count: score.count + 1,
        },
        None => score,
    }
}

/// The differences of both scores together.
pub open spec fn sum_of(a: Score, b: Score) -> Score {
    Score { total: a.total + b.total, most: greater(a.most, b.most), count: a.count + b.count }
}

/// Whether one score is better than another: it has differences, and they are less in the mean,
/// else less at the most, else more in number.
pub open spec fn better(a: Score, b: Score) -> bool {
    a.count != 0 && (b.count == 0 || a.total * b.count < b.total * a.count || (a.total * b.count
        == b.total * a.count && (a.most < b.most || (a.most == b.most && a.count > b.count))))
}

/// The law of `better`: no score is better than one that is better than itself.
pub proof fn better_is_one_way(a: Score, b: Score)
    requires
        a.count >= 0,
        b.count >= 0,
        better(a, b),
    ensures
        !better(b, a),
{
}

proof fn means_compose(t1: int, c1: int, t2: int, c2: int, t3: int, c3: int)
    requires
        c1 > 0,
        c2 > 0,
        c3 > 0,
        t1 * c2 <= t2 * c1,
        t2 * c3 <= t3 * c2,
    ensures
        t1 * c3 <= t3 * c1,
        t1 * c2 < t2 * c1 || t2 * c3 < t3 * c2 ==> t1 * c3 < t3 * c1,
{
    assert((t1 * c2) * c3 <= (t2 * c1) * c3) by (nonlinear_arith)
        requires
            t1 * c2 <= t2 * c1,
            c3 > 0,
    ;
    assert((t2 * c3) * c1 <= (t3 * c2) * c1) by (nonlinear_arith)
        requires
            t2 * c3 <= t3 * c2,
            c1 > 0,
    ;
    assert(t1 * c2 < t2 * c1 ==> (t1 * c2) * c3 < (t2 * c1) * c3) by (nonlinear_arith)
        requires
            c3 > 0,
    ;
    assert(t2 * c3 < t3 * c2 ==> (t2 * c3) * c1 < (t3 * c2) * c1) by (nonlinear_arith)
        requires
            c1 > 0,
    ;
    assert((t1 * c2) * c3 == (t1 * c3) * c2) by (nonlinear_arith);
    assert((t2 * c1) * c3 == (t2 * c3) * c1) by (nonlinear_arith);
    assert((t3 * c2) * c1 == (t3 * c1) * c2) by (nonlinear_arith);
    assert(t1 * c3 <= t3 * c1) by (nonlinear_arith)
        requires
            (t1 * c3) * c2 <= (t3 * c1) * c2,
            c2 > 0,
    ;
    assert((t1 * c3) * c2 < (t3 * c1) * c2 ==> t1 * c3 < t3 * c1) by (nonlinear_arith)
        requires
            c2 > 0,
    ;
}

/// The law of `better`: it is transitive.
pub proof fn better_is_transitive(a: Score, b: Score, c: Score)
    requires
        a.count >= 0,
        b.count >= 0,
        c.count >= 0,
        better(a, b),
        better(b, c),
    ensures
        better(a, c),
{
    if c.count != 0 {
        means_compose(a.total, a.count, b.total, b.count, c.total, c.count);
        if a.total * b.count == b.total * a.count && b.total * c.count == c.total * b.count {
            means_compose(c.total, c.count, b.total, b.count, a.total, a.count);
        }
    }
}

/// The law of `better`: what is not better than something is not better than what that is not
/// better than.
pub proof fn not_better_is_transitive(a: Score, b: Score, c: Score)
    requires
        a.count >= 0,
        b.count >= 0,
        c.count >= 0,
        !better(a, b),
        !better(b, c),
    ensures
        !better(a, c),
{
    if a.count != 0 && b.count != 0 && c.count != 0 {
        means_compose(c.total, c.count, b.total, b.count, a.total, a.count);
    }
}

/// A score in the bounds that the differences of a feed keep.
#[derive(Debug, Clone, Copy)]
pub struct DpScore {
    pub total_difference: i128,
    pub max_difference: i64,
    pub comparisons: u128,
}

impl View for DpScore {
    type V = Score;

    open spec fn view(&self) -> Score {
        Score {
            total: self.total_difference as int,
            most: self.max_difference as int,
            count: self.comparisons as int,
        }
    }
}

/// No two timestamps of the calendar and of a feed are further apart.
pub const MAX_DIFFERENCE: i64 = 8_600_000_000_000;

/// Whether a score is one of at most `calls` calls.
pub open spec fn is_score_of(score: Score, calls: int) -> bool {
    &&& 0 <= score.count <= 2 * calls
    &&& 0 <= score.total <= MAX_DIFFERENCE * score.count
    &&& 0 <= score.most <= MAX_DIFFERENCE
}

/// How two means compare.
#[derive(Debug, Clone, Copy, PartialEq, Eq, Structural)]
pub enum MeanOrder {
    Less,
    Same,
    Greater,
}

/// How the mean of `c1` numbers that sum up to `t1` compares with that of `c2` numbers that sum up
/// to `t2`: as continued fractions, so that no product of the sums and counts is needed.
pub fn compare_means(t1: u128, c1: u128, t2: u128, c2: u128) -> (r: MeanOrder)
    requires
        c1 > 0,
        c2 > 0,
    ensures
        r == (if t1 * c2 < t2 * c1 {
            MeanOrder::Less
        } else if t1 * c2 == t2 * c1 {
            MeanOrder::Same
        } else {
            MeanOrder::Greater
        }),
    decreases c1 + c2,
{
    let q1: u128 = t1 / c1;
    let q2: u128 = t2 / c2;
    let r1: u128 = t1 % c1;
    let r2: u128 = t2 % c2;
    proof {
        vstd::arithmetic::div_mod::lemma_fundamental_div_mod(t1 as int, c1 as int);
        vstd::arithmetic::div_mod::lemma_fundamental_div_mod(t2 as int, c2 as int);
        remainders_decide(
            t1 as int,
            c1 as int,
            t2 as int,
            c2 as int,
            q1 as int,
            q2 as int,
            r1 as int,
            r2 as int,
        );
    }
    if q1 < q2 {
        MeanOrder::Less
    } else if q1 > q2 {
        MeanOrder::Greater
    } else if r1 == 0 && r2 == 0 {
        assert(r1 * c2 == 0) by (nonlinear_arith)
            requires
                r1 == 0,
        ;
        assert(r2 * c1 == 0) by (nonlinear_arith)
            requires
                r2 == 0,
        ;
        MeanOrder::Same
    } else if r1 == 0 {
        assert(r1 * c2 == 0 && r2 * c1 > 0) by (nonlinear_arith)
            requires
                r1 == 0,
                r2 > 0,
                c1 > 0,
        ;
        MeanOrder::Less
    } else if r2 == 0 {
        assert(r2 * c1 == 0 && r1 * c2 > 0) by (nonlinear_arith)
            requires
                r2 == 0,
                r1 > 0,
                c2 > 0,
        ;
        MeanOrder::Greater
    } else {
        assert(c2 * r1 == r1 * c2 && c1 * r2 == r2 * c1) by (nonlinear_arith);
        compare_means(c2, r2, c1, r1)
    }
}

proof fn remainders_decide(
    t1: int,
    c1: int,
    t2: int,
    c2: int,
    q1: int,
    q2: int,
    r1: int,
    r2: int,
)
    requires
        c1 > 0,
        c2 > 0,
        t1 == c1 * q1 + r1,
        t2 == c2 * q2 + r2,
        0 <= r1 < c1,
        0 <= r2 < c2,
    ensures
        q1 < q2 ==> t1 * c2 < t2 * c1,
        q1 > q2 ==> t1 * c2 > t2 * c1,
        q1 == q2 ==> t1 * c2 - t2 * c1 == r1 * c2 - r2 * c1,
{
    assert(t1 * c2 == (c1 * c2) * q1 + r1 * c2) by (nonlinear_arith)
        requires
            t1 == c1 * q1 + r1,
    ;
    assert(t2 * c1 == (c1 * c2) * q2 + r2 * c1) by (nonlinear_arith)
        requires
            t2 == c2 * q2 + r2,
    ;
    assert(0 <= r1 * c2 < c1 * c2) by (nonlinear_arith)
        requires
            0 <= r1 < c1,
            c2 > 0,
    ;
    assert(0 <= r2 * c1 < c1 * c2) by (nonlinear_arith)
        requires
            0 <= r2 < c2,
            c1 > 0,
    ;
    if q1 < q2 {
        assert((c1 * c2) * (q1 + 1) <= (c1 * c2) * q2) by (nonlinear_arith)
            requires
                q1 + 1 <= q2,
                c1 * c2 > 0,
        ;
        assert((c1 * c2) * (q1 + 1) == (c1 * c2) * q1 + c1 * c2) by (nonlinear_arith);
    }
    if q1 > q2 {
        assert((c1 * c2) * (q2 + 1) <= (c1 * c2) * q1) by (nonlinear_arith)
            requires
                q2 + 1 <= q1,
                c1 * c2 > 0,
        ;
        assert((c1 * c2) * (q2 + 1) == (c1 * c2) * q2 + c1 * c2) by (nonlinear_arith);
    }
}

impl DpScore {
    /// Whether this score is better than the other.
    pub fn is_better_than(&self, other: &Self) -> (r: bool)
        requires
            self.total_difference >= 0,
            other.total_difference >= 0,
        ensures
            r == better(self@, other@),
    {
        if self.comparisons == 0 {
            false
        } else if other.comparisons == 0 {
            true
        } else {
            match compare_means(
                self.total_difference as u128,
                self.comparisons,
                other.total_difference as u128,
                other.comparisons,
            ) {
                MeanOrder::Less => true,
                MeanOrder::Same => self.max_difference < other.max_difference || (
                self.max_difference == other.max_difference && self.comparisons
                    > other.comparisons),
                MeanOrder::Greater => false,
            }
        }
    }
}

/// Whether a call may be at a stop.
pub open spec fn calls_at(
    aliases: Seq<Seq<char>>,
    stop: Seq<char>,
    stations: Map<Seq<char>, String>,
    mode: StopMatchMode,
) -> bool {
    exists|i: int|
        0 <= i < aliases.len() && stops::same_stop(stop, #[trigger] aliases[i], stations, mode)
}

/// Whether a call may be at a stop.
pub fn call_may_be_at(
    aliases: &Vec<String>,
    stop_id: &str,
    canonical_stop_ids: &Table<String>,
    mode: StopMatchMode,
) -> (r: bool)
    ensures
        r == calls_at(text::texts(aliases@), stop_id@, canonical_stop_ids@, mode),
{
    let mut i: usize = 0;
    while i < aliases.len()
        invariant
            i <= aliases@.len(),
            forall|k: int|
                0 <= k < i ==> !stops::same_stop(
                    stop_id@,
                    #[trigger] text::texts(aliases@)[k],
                    canonical_stop_ids@,
                    mode,
                ),
        decreases aliases@.len() - i,
    {
        if stops_match(stop_id, aliases[i].as_str(), canonical_stop_ids, mode) {
            assert(text::texts(aliases@)[i as int] == aliases@[i as int]@);
            return true;
        }
        i = i + 1;
    }
    false
}

/// Which call may be at which of a list of stops.
pub open spec fn may_be_at(
    calls: Seq<Call>,
    stop_ids: Seq<Seq<char>>,
    stations: Map<Seq<char>, String>,
    mode: StopMatchMode,
) -> spec_fn(int, int) -> bool {
    |call: int, stop: int| calls_at(calls[call].aliases, stop_ids[stop], stations, mode)
}

/// Whether the calls have an alignment with a list of stops.
pub open spec fn calls_fit(
    calls: Seq<Call>,
    stop_ids: Seq<Seq<char>>,
    stations: Map<Seq<char>, String>,
    mode: StopMatchMode,
) -> bool {
    alignment::alignable(
        calls.len() as int,
        stop_ids.len() as int,
        may_be_at(calls, stop_ids, stations, mode),
    )
}

/// Whether the calls have an alignment with a list of stops.
pub fn has_valid_alignment(
    stop_ids: &Vec<String>,
    observed_calls: &Vec<ObservedCall>,
    canonical_stop_ids: &Table<String>,
    mode: StopMatchMode,
) -> (r: bool)
    ensures
        r == calls_fit(
            calls_of(observed_calls@),
            text::texts(stop_ids@),
            canonical_stop_ids@,
            mode,
        ),
{
    let ghost may = may_be_at(
        calls_of(observed_calls@),
        text::texts(stop_ids@),
        canonical_stop_ids@,
        mode,
    );
    if stop_ids.len() < observed_calls.len() {
        proof {
            if alignment::alignable(observed_calls@.len() as int, stop_ids@.len() as int, may) {
                alignment::alignable_needs_stops(
                    observed_calls@.len() as int,
                    stop_ids@.len() as int,
                    may,
                );
            }
        }
        return false;
    }
    let mut row: Vec<bool> = Vec::new();
    row.push(true);
    proof {
        alignment::nothing_is_alignable(0, may);
    }
    let mut k: usize = 0;
    while k < stop_ids.len()
        invariant
            k <= stop_ids@.len(),
            row@.len() == k + 1,
            forall|s: int| 0 <= s <= k ==> #[trigger] row@[s] == alignment::alignable(0, s, may),
        decreases stop_ids@.len() - k,
    {
        proof {
            alignment::nothing_is_alignable(k + 1, may);
        }
        row.push(true);
        k = k + 1;
    }
    let mut calls: usize = 0;
    while calls < observed_calls.len()
        invariant
            calls <= observed_calls@.len(),
            may == may_be_at(
                calls_of(observed_calls@),
                text::texts(stop_ids@),
                canonical_stop_ids@,
                mode,
            ),
            row@.len() == stop_ids@.len() + 1,
            forall|s: int|
                0 <= s <= stop_ids@.len() ==> #[trigger] row@[s] == alignment::alignable(
                    calls as int,
                    s,
                    may,
                ),
        decreases observed_calls@.len() - calls,
    {
        let mut next: Vec<bool> = Vec::new();
        next.push(false);
        proof {
            if alignment::alignable(calls + 1, 0, may) {
                alignment::alignable_needs_stops(calls + 1, 0, may);
            }
        }
        let mut stop: usize = 0;
        while stop < stop_ids.len()
            invariant
                calls < observed_calls@.len(),
                stop <= stop_ids@.len(),
                may == may_be_at(
                    calls_of(observed_calls@),
                    text::texts(stop_ids@),
                    canonical_stop_ids@,
                    mode,
                ),
                row@.len() == stop_ids@.len() + 1,
                forall|s: int|
                    0 <= s <= stop_ids@.len() ==> #[trigger] row@[s] == alignment::alignable(
                        calls as int,
                        s,
                        may,
                    ),
                next@.len() == stop + 1,
                forall|s: int|
                    0 <= s <= stop ==> #[trigger] next@[s] == alignment::alignable(
                        calls + 1,
                        s,
                        may,
                    ),
            decreases stop_ids@.len() - stop,
        {
            proof {
                alignment::alignable_step(calls + 1, stop + 1, may);
                assert(row@[stop as int] == alignment::alignable(calls as int, stop as int, may));
                assert(next@[stop as int] == alignment::alignable(calls + 1, stop as int, may));
                assert(may(calls as int, stop as int) == calls_at(
                    observed_calls@[calls as int]@.aliases,
                    stop_ids@[stop as int]@,
                    canonical_stop_ids@,
                    mode,
                ));
            }
            let possible = next[stop] || (row[stop] && call_may_be_at(
                &observed_calls[calls].stop_aliases,
                stop_ids[stop].as_str(),
                canonical_stop_ids,
                mode,
            ));
            next.push(possible);
            stop = stop + 1;
        }
        row = next;
        calls = calls + 1;
    }
    row[stop_ids.len()]
}

/// The distance between an observed moment and the time at which a stop is due, if there are both.
pub open spec fn difference(
    observed: Option<i64>,
    due: Option<u32>,
    day: i32,
    zone: Seq<char>,
) -> Option<int> {
    match (observed, due) {
        (Some(moment), Some(seconds)) => clock::least_gap(
            moment as int,
            clock::scheduled_times(day, seconds, zone),
        ),
        _ => None,
    }
}

/// The day and the zone by which a schedule is read, if both are given.
pub open spec fn service_of(date: Option<i32>, zone: Option<&str>) -> Option<(i32, Seq<char>)> {
    match (date, zone) {
        (Some(day), Some(name)) => Some((day, name@)),
        _ => None,
    }
}

/// The score of one call at one stop on a service day; that of nothing where none is given.
pub open spec fn call_score(
    call: Call,
    stop: StopTime,
    service: Option<(i32, Seq<char>)>,
) -> Score {
    match service {
        Some((day, zone)) => with_difference(
            with_difference(
                no_score(),
                difference(call.arrival, gtfs::due_at_arrival(stop), day, zone),
            ),
            difference(call.departure, gtfs::due_at_departure(stop), day, zone),
        ),
        None => no_score(),
    }
}

fn score_call(
    call: &ObservedCall,
    stop_time: &StopTime,
    service_date: Option<i32>,
    timezone: Option<&str>,
) -> (r: DpScore)
    requires
        is_timely(call@),
    ensures
        r@ == call_score(call@, *stop_time, service_of(service_date, timezone)),
        is_score_of(r@, 1),
{
    let mut score = DpScore { total_difference: 0, max_difference: 0, comparisons: 0 };
    if let (Some(day), Some(zone)) = (service_date, timezone) {
        if let (Some(observed), Some(seconds)) = (
            call.matching_arrival(),
            stop_time.arrival_or_departure(),
        ) {
            if let Some(difference) = minimum_time_difference(observed, day, seconds, zone) {
                score = DpScore {
                    total_difference: difference as i128,
                    max_difference: difference,
                    comparisons: 1,
                };
            }
        }
        if let (Some(observed), Some(seconds)) = (
            call.matching_departure(),
            stop_time.departure_or_arrival(),
        ) {
            if let Some(difference) = minimum_time_difference(observed, day, seconds, zone) {
                score = DpScore {
                    total_difference: score.total_difference + difference as i128,
                    max_difference: if score.max_difference < difference {
                        difference
                    } else {
                        score.max_difference
                    },
                    comparisons: score.comparisons + 1,
                };
            }
        }
    }
    score
}

/// An alignment and its score.
pub ghost struct Placement {
    pub score: Score,
    pub at: Seq<usize>,
}

/// The placement that is kept of the first `calls` calls at the first `stops` stops: that with one
/// stop less, unless there is none or the one that puts the last call at the last stop is better.
pub open spec fn placement(
    calls: int,
    stops: int,
    may: spec_fn(int, int) -> bool,
    cost: spec_fn(int, int) -> Score,
) -> Option<Placement>
    decreases calls + stops,
{
    if calls <= 0 {
        Some(Placement { score: no_score(), at: seq![] })
    } else if stops <= 0 {
        None
    } else {
        let kept = placement(calls, stops - 1, may, cost);
        match placement(calls - 1, stops - 1, may, cost) {
            Some(front) if may(calls - 1, stops - 1) => {
                let new = extended(front, stops - 1, cost(calls - 1, stops - 1));
                if kept is None || better(new.score, kept->0.score) {
                    Some(new)
                } else {
                    kept
                }
            },
            _ => kept,
        }
    }
}

/// A placement with one call more.
pub open spec fn extended(front: Placement, stop: int, cost: Score) -> Placement {
    Placement { score: sum_of(front.score, cost), at: front.at.push(stop as usize) }
}

/// What the calls of an alignment cost.
pub open spec fn cost_of(at: Seq<usize>, cost: spec_fn(int, int) -> Score) -> Score
    decreases at.len(),
{
    if at.len() == 0 {
        no_score()
    } else {
        sum_of(cost_of(at.drop_last(), cost), cost(at.len() - 1, at.last() as int))
    }
}

/// Indices as integers.
pub open spec fn indices(at: Seq<usize>) -> Seq<int> {
    Seq::new(at.len(), |i: int| at[i] as int)
}

/// The law of placements: there is one exactly if there is an alignment, and it is an alignment,
/// with the score of its calls.
pub proof fn placement_is_an_alignment(
    calls: int,
    stops: int,
    may: spec_fn(int, int) -> bool,
    cost: spec_fn(int, int) -> Score,
)
    requires
        calls >= 0,
        0 <= stops <= usize::MAX,
    ensures
        placement(calls, stops, may, cost) is Some <==> alignment::alignable(calls, stops, may),
        placement(calls, stops, may, cost) matches Some(p) ==> {
            &&& alignment::is_alignment(indices(p.at), calls, stops, may)
            &&& p.score == cost_of(p.at, cost)
        },
    decreases calls + stops,
{
    if calls == 0 {
        alignment::nothing_is_alignable(stops, may);
    } else if stops == 0 {
        if alignment::alignable(calls, stops, may) {
            alignment::alignable_needs_stops(calls, stops, may);
        }
    } else {
        placement_is_an_alignment(calls, stops - 1, may, cost);
        placement_is_an_alignment(calls - 1, stops - 1, may, cost);
        alignment::alignable_step(calls, stops, may);
        let kept = placement(calls, stops - 1, may, cost);
        let front = placement(calls - 1, stops - 1, may, cost);
        if kept is Some {
            let at = indices(kept->0.at);
            assert(alignment::is_alignment(at, calls, stops, may));
        }
        if front is Some && may(calls - 1, stops - 1) {
            let new = extended(front->0, stops - 1, cost(calls - 1, stops - 1));
            let before = indices(front->0.at);
            let at = indices(new.at);
            assert(new.at.drop_last() =~= front->0.at);
            assert forall|i: int| 0 <= i < calls implies 0 <= #[trigger] at[i] < stops && may(
                i,
                at[i],
            ) by {
                if i < calls - 1 {
                    assert(at[i] == before[i]);
                }
            }
            assert forall|i: int, j: int| 0 <= i < j < calls implies #[trigger] at[i]
                < #[trigger] at[j] by {
                assert(at[i] == before[i]);
                if j < calls - 1 {
                    assert(at[j] == before[j]);
                }
            }
            assert(alignment::is_alignment(at, calls, stops, may));
        }
    }
}

/// No alignment has fewer differences than none.
pub proof fn counts_are_natural(at: Seq<usize>, cost: spec_fn(int, int) -> Score)
    requires
        forall|i: int, j: int| (#[trigger] cost(i, j)).count >= 0,
    ensures
        cost_of(at, cost).count >= 0,
    decreases at.len(),
{
    if at.len() > 0 {
        counts_are_natural(at.drop_last(), cost);
    }
}

/// The law of placements: the one that is kept is one that some stop gives for the last call, and
/// that of no other stop is better.
pub proof fn placement_is_not_beaten(
    calls: int,
    stops: int,
    may: spec_fn(int, int) -> bool,
    cost: spec_fn(int, int) -> Score,
)
    requires
        calls > 0,
        0 <= stops <= usize::MAX,
        forall|i: int, j: int| (#[trigger] cost(i, j)).count >= 0,
    ensures
        forall|stop: int|
            0 <= stop < stops && may(calls - 1, stop) ==> (#[trigger] placement(
                calls - 1,
                stop,
                may,
                cost,
            ) matches Some(front) ==> {
                &&& placement(calls, stops, may, cost) matches Some(p)
                &&& !better(
                    extended(front, stop, cost(calls - 1, stop)).score,
                    placement(calls, stops, may, cost)->0.score,
                )
            }),
        placement(calls, stops, may, cost) matches Some(p) ==> {
            &&& p.at.last() < stops
            &&& may(calls - 1, p.at.last() as int)
            &&& placement(calls - 1, p.at.last() as int, may, cost) matches Some(front)
            &&& p == extended(front, p.at.last() as int, cost(calls - 1, p.at.last() as int))
        },
    decreases stops,
{
    if stops > 0 {
        placement_is_not_beaten(calls, stops - 1, may, cost);
        placement_is_an_alignment(calls, stops - 1, may, cost);
        placement_is_an_alignment(calls - 1, stops - 1, may, cost);
        let kept = placement(calls, stops - 1, may, cost);
        let best = placement(calls, stops, may, cost);
        let last = placement(calls - 1, stops - 1, may, cost);
        if kept is Some {
            counts_are_natural(kept->0.at, cost);
        }
        if last is Some {
            counts_are_natural(last->0.at, cost);
            assert(cost(calls - 1, stops - 1).count >= 0);
        }
        assert forall|stop: int|
            0 <= stop < stops && may(calls - 1, stop) && (#[trigger] placement(
                calls - 1,
                stop,
                may,
                cost,
            )) is Some implies best is Some && !better(
            extended(placement(calls - 1, stop, may, cost)->0, stop, cost(calls - 1, stop)).score,
            best->0.score,
        ) by {
            let front = placement(calls - 1, stop, may, cost)->0;
            let here = extended(front, stop, cost(calls - 1, stop)).score;
            placement_is_an_alignment(calls - 1, stop, may, cost);
            counts_are_natural(front.at, cost);
            assert(cost(calls - 1, stop).count >= 0);
            if stop < stops - 1 {
                assert(kept is Some && !better(here, kept->0.score));
                if best != kept {
                    let new = extended(last->0, stops - 1, cost(calls - 1, stops - 1)).score;
                    better_is_one_way(new, kept->0.score);
                    not_better_is_transitive(here, kept->0.score, new);
                }
            } else if best != kept {
                assert(best->0.score == here);
            }
        }
    }
}

/// Whether each of the calls has as many differences at one stop that it may be at as at another,
/// and nothing to add up where it has none.
pub open spec fn is_even(
    calls: int,
    stops: int,
    may: spec_fn(int, int) -> bool,
    cost: spec_fn(int, int) -> Score,
) -> bool {
    &&& forall|i: int, j: int|
        0 <= i < calls && 0 <= j < stops && #[trigger] may(i, j) ==> cost(i, j).count >= 0 && (
        cost(i, j).count == 0 ==> cost(i, j).total == 0)
    &&& forall|i: int, j: int, k: int|
        0 <= i < calls && 0 <= j < stops && 0 <= k < stops && #[trigger] may(i, j)
            && #[trigger] may(i, k) ==> cost(i, j).count == cost(i, k).count
}

proof fn even_costs(
    calls: int,
    stops: int,
    may: spec_fn(int, int) -> bool,
    cost: spec_fn(int, int) -> Score,
    a: Seq<usize>,
    b: Seq<usize>,
)
    requires
        is_even(calls, stops, may, cost),
        alignment::is_alignment(indices(a), calls, stops, may),
        alignment::is_alignment(indices(b), calls, stops, may),
    ensures
        cost_of(a, cost).count == cost_of(b, cost).count,
        cost_of(a, cost).count >= 0,
        cost_of(a, cost).count == 0 ==> cost_of(a, cost).total == 0,
    decreases calls,
{
    if calls > 0 {
        assert(a.len() == indices(a).len() && b.len() == indices(b).len());
        let x = a.drop_last();
        let y = b.drop_last();
        shorter_alignment(calls, stops, may, a);
        shorter_alignment(calls, stops, may, b);
        even_costs(calls - 1, stops, may, cost, x, y);
        assert(may(calls - 1, indices(a)[calls - 1]) && may(calls - 1, indices(b)[calls - 1]));
    } else {
        assert(a.len() == indices(a).len() && b.len() == indices(b).len());
    }
}

proof fn shorter_alignment(
    calls: int,
    stops: int,
    may: spec_fn(int, int) -> bool,
    at: Seq<usize>,
)
    requires
        calls > 0,
        alignment::is_alignment(indices(at), calls, stops, may),
    ensures
        alignment::is_alignment(indices(at.drop_last()), calls - 1, stops, may),
        alignment::is_alignment(indices(at.drop_last()), calls - 1, at.last() as int, may),
        alignment::is_alignment(indices(at), calls, at.last() + 1, may),
{
    let all = indices(at);
    let front = indices(at.drop_last());
    assert(all.len() == at.len());
    assert forall|i: int| 0 <= i < calls - 1 implies #[trigger] front[i] == all[i] by {}
    assert(all[calls - 1] == at.last());
    assert forall|i: int| 0 <= i < calls - 1 implies 0 <= #[trigger] front[i] < at.last() && may(
        i,
        front[i],
    ) by {
        assert(all[i] < all[calls - 1]);
    }
    assert forall|i: int| 0 <= i < calls implies 0 <= #[trigger] all[i] < at.last() + 1 && may(
        i,
        all[i],
    ) by {
        if i < calls - 1 {
            assert(all[i] < all[calls - 1]);
        }
    }
}

proof fn wider_alignment(
    calls: int,
    stops: int,
    more: int,
    may: spec_fn(int, int) -> bool,
    at: Seq<usize>,
)
    requires
        stops <= more,
        alignment::is_alignment(indices(at), calls, stops, may),
    ensures
        alignment::is_alignment(indices(at), calls, more, may),
{
}

proof fn equal_counts_decide(a: Score, b: Score)
    requires
        a.count == b.count,
        a.count >= 0,
        a.count == 0 ==> a.total == 0 && b.total == 0,
    ensures
        better(a, b) ==> a.total <= b.total,
        !better(a, b) ==> b.total <= a.total,
{
    let c = a.count;
    if c > 0 {
        assert(a.total * c < b.total * c <==> a.total < b.total) by (nonlinear_arith)
            requires
                c > 0,
        ;
        assert(a.total * c == b.total * c <==> a.total == b.total) by (nonlinear_arith)
            requires
                c > 0,
        ;
    }
}

/// The law of even placements: where every alignment has as many differences, the one that is kept
/// has the least sum of them.
pub proof fn even_placement_is_least(
    calls: int,
    stops: int,
    may: spec_fn(int, int) -> bool,
    cost: spec_fn(int, int) -> Score,
    other: Seq<usize>,
)
    requires
        0 <= calls,
        0 <= stops <= usize::MAX,
        is_even(calls, stops, may, cost),
        alignment::is_alignment(indices(other), calls, stops, may),
    ensures
        placement(calls, stops, may, cost) matches Some(p) && p.score.count == cost_of(
            other,
            cost,
        ).count && p.score.total <= cost_of(other, cost).total,
    decreases calls + stops,
{
    placement_is_an_alignment(calls, stops, may, cost);
    assert(other.len() == indices(other).len());
    if calls > 0 {
        shorter_alignment(calls, stops, may, other);
        assert(0 <= indices(other)[calls - 1] < stops);
        assert(may(calls - 1, indices(other)[calls - 1]));
        let p = placement(calls, stops, may, cost)->0;
        even_costs(calls, stops, may, cost, p.at, other);
        let kept = placement(calls, stops - 1, may, cost);
        let front = placement(calls - 1, stops - 1, may, cost);
        placement_is_an_alignment(calls, stops - 1, may, cost);
        placement_is_an_alignment(calls - 1, stops - 1, may, cost);
        if kept is Some {
            wider_alignment(calls, stops - 1, stops, may, kept->0.at);
            even_costs(calls, stops, may, cost, kept->0.at, other);
        }
        if other.last() == stops - 1 {
            even_placement_is_least(calls - 1, stops - 1, may, cost, other.drop_last());
            let new = extended(front->0, stops - 1, cost(calls - 1, stops - 1));
            even_costs(calls, stops, may, cost, other, other);
            wider_alignment(calls - 1, stops - 1, stops, may, front->0.at);
            even_costs(calls - 1, stops, may, cost, front->0.at, other.drop_last());
            assert(new.score.count == cost_of(other, cost).count);
            assert(new.score.total <= cost_of(other, cost).total);
            if kept is Some {
                if new.score.count == 0 {
                    assert(cost(calls - 1, stops - 1).count == 0);
                }
                equal_counts_decide(new.score, kept->0.score);
            }
        } else {
            wider_alignment(calls, other.last() + 1, stops - 1, may, other);
            even_placement_is_least(calls, stops - 1, may, cost, other);
            if p != kept->0 {
                equal_counts_decide(p.score, kept->0.score);
            }
        }
    }
}

proof fn free_placement_stays(
    calls: int,
    stops: int,
    more: int,
    may: spec_fn(int, int) -> bool,
    cost: spec_fn(int, int) -> Score,
)
    requires
        0 <= calls,
        0 <= stops <= more <= usize::MAX,
        forall|i: int, j: int| #[trigger] cost(i, j) == no_score(),
        placement(calls, stops, may, cost) is Some,
    ensures
        placement(calls, more, may, cost) == placement(calls, stops, may, cost),
    decreases more,
{
    if calls > 0 && stops < more {
        free_placement_stays(calls, stops, more - 1, may, cost);
        placement_is_an_alignment(calls - 1, more - 1, may, cost);
        if let Some(front) = placement(calls - 1, more - 1, may, cost) {
            free_score(front.at, cost);
            assert(cost(calls - 1, more - 1) == no_score());
        }
    }
}

proof fn free_score(at: Seq<usize>, cost: spec_fn(int, int) -> Score)
    requires
        forall|i: int, j: int| #[trigger] cost(i, j) == no_score(),
    ensures
        cost_of(at, cost) == no_score(),
    decreases at.len(),
{
    if at.len() > 0 {
        free_score(at.drop_last(), cost);
        assert(cost(at.len() - 1, at.last() as int) == no_score());
    }
}

/// The law of placements without differences: each call is at the earliest stop that any alignment
/// puts it at.
pub proof fn free_placement_is_earliest(
    calls: int,
    stops: int,
    may: spec_fn(int, int) -> bool,
    cost: spec_fn(int, int) -> Score,
    other: Seq<int>,
)
    requires
        0 <= calls,
        0 <= stops <= usize::MAX,
        forall|i: int, j: int| #[trigger] cost(i, j) == no_score(),
        alignment::is_alignment(other, calls, stops, may),
    ensures
        placement(calls, stops, may, cost) matches Some(p) && forall|i: int|
            0 <= i < calls ==> #[trigger] p.at[i] <= other[i],
    decreases calls + stops,
{
    assert(alignment::alignable(calls, stops, may));
    placement_is_an_alignment(calls, stops, may, cost);
    if calls > 0 {
        assert(0 <= other[calls - 1] < stops);
        let p = placement(calls, stops, may, cost)->0;
        let last = other[calls - 1];
        if last < stops - 1 {
            assert forall|i: int| 0 <= i < calls implies 0 <= #[trigger] other[i] < stops - 1 by {
                if i < calls - 1 {
                    assert(other[i] < other[calls - 1]);
                }
            }
            free_placement_is_earliest(calls, stops - 1, may, cost, other);
            free_placement_stays(calls, stops - 1, stops, may, cost);
        } else {
            let front = other.drop_last();
            assert forall|i: int| 0 <= i < calls - 1 implies 0 <= #[trigger] front[i] < stops - 1
                && may(i, front[i]) by {
                assert(front[i] == other[i]);
                assert(other[i] < other[calls - 1]);
            }
            assert(alignment::is_alignment(front, calls - 1, stops - 1, may));
            free_placement_is_earliest(calls - 1, stops - 1, may, cost, front);
            assert forall|i: int, j: int| (#[trigger] cost(i, j)).count >= 0 by {
                assert(cost(i, j) == no_score());
            }
            placement_is_not_beaten(calls, stops, may, cost);
            let here = p.at.last() as int;
            free_placement_stays(calls - 1, here, stops - 1, may, cost);
            let shorter = placement(calls - 1, stops - 1, may, cost)->0;
            assert forall|i: int| 0 <= i < calls implies #[trigger] p.at[i] <= other[i] by {
                if i < calls - 1 {
                    assert(p.at[i] == shorter.at[i]);
                    assert(front[i] == other[i]);
                }
            }
        }
    }
}

/// A trip on a service day, and how well the calls agree with it.
#[derive(Debug, Clone)]
pub struct CandidateScore {
    pub trip_id: String,
    pub service_date: i32,
    pub mean_abs_difference_seconds: i64,
    pub max_abs_difference_seconds: i64,
    pub comparisons: u128,
    pub stop_indices: Vec<usize>,
    pub used_parent_station_match: bool,
}

/// A trip on a service day, and how well the calls agree with it.
#[verifier::ext_equal]
pub ghost struct Candidate {
    pub trip_id: Seq<char>,
    pub day: i32,
    pub mean: int,
    pub most: int,
    pub count: int,
    pub at: Seq<usize>,
    pub by_station: bool,
}

impl View for CandidateScore {
    type V = Candidate;

    open spec fn view(&self) -> Candidate {
        Candidate {
            trip_id: self.trip_id@,
            day: self.service_date,
            mean: self.mean_abs_difference_seconds as int,
            most: self.max_abs_difference_seconds as int,
            count: self.comparisons as int,
            at: self.stop_indices@,
            by_station: self.used_parent_station_match,
        }
    }
}

/// What a candidate may hold.
pub open spec fn candidate_view(score: Option<CandidateScore>) -> Option<Candidate> {
    match score {
        Some(found) => Some(found@),
        None => None,
    }
}

/// Which call may be at which stop of a trip.
pub open spec fn may_call_at(
    trip: Trip,
    calls: Seq<Call>,
    stations: Map<Seq<char>, String>,
    mode: StopMatchMode,
) -> spec_fn(int, int) -> bool {
    may_be_at(calls, gtfs::trip_stops(trip), stations, mode)
}

/// What a call at a stop of a trip scores.
pub open spec fn cost_at(
    trip: Trip,
    calls: Seq<Call>,
    service: Option<(i32, Seq<char>)>,
) -> spec_fn(int, int) -> Score {
    |call: int, stop: int| call_score(calls[call], trip.stop_times@[stop], service)
}

/// The placement that is kept of the calls at the stops of a trip.
pub open spec fn trip_placement(
    trip: Trip,
    calls: Seq<Call>,
    service: Option<(i32, Seq<char>)>,
    stations: Map<Seq<char>, String>,
    mode: StopMatchMode,
) -> Option<Placement> {
    placement(
        calls.len() as int,
        trip.stop_times@.len() as int,
        may_call_at(trip, calls, stations, mode),
        cost_at(trip, calls, service),
    )
}

/// The candidate that a trip is for the calls: none without calls or without a placement, and none
/// on a service day where no call can be compared with the schedule.
pub open spec fn candidate_of(
    trip: Trip,
    calls: Seq<Call>,
    date: Option<i32>,
    service: Option<(i32, Seq<char>)>,
    stations: Map<Seq<char>, String>,
    mode: StopMatchMode,
) -> Option<Candidate> {
    if calls.len() == 0 {
        None
    } else {
        match trip_placement(trip, calls, service, stations, mode) {
            Some(p) => if date is Some && p.score.count == 0 {
                None
            } else {
                Some(
                    Candidate {
                        trip_id: trip.id@,
                        day: match date {
                            Some(day) => day,
                            None => clock::EPOCH_DAY,
                        },
                        mean: if p.score.count > 0 {
                            p.score.total / p.score.count
                        } else {
                            0
                        },
                        most: p.score.most,
                        count: p.score.count,
                        at: p.at,
                        by_station: mode == StopMatchMode::ParentStation,
                    },
                )
            },
            None => None,
        }
    }
}

spec fn is_scored(
    score: Option<DpScore>,
    calls: int,
    stops: int,
    may: spec_fn(int, int) -> bool,
    cost: spec_fn(int, int) -> Score,
) -> bool {
    match placement(calls, stops, may, cost) {
        Some(p) => score matches Some(d) && d@ == p.score && is_score_of(p.score, calls),
        None => score is None,
    }
}

spec fn is_picked(
    pick: Option<usize>,
    calls: int,
    stops: int,
    may: spec_fn(int, int) -> bool,
    cost: spec_fn(int, int) -> Score,
) -> bool {
    match placement(calls, stops, may, cost) {
        Some(p) => pick == Some(p.at.last()),
        None => pick is None,
    }
}

/// Whether a row holds the scores of the placements of `calls` calls.
spec fn are_scored(
    scores: Seq<Option<DpScore>>,
    calls: int,
    may: spec_fn(int, int) -> bool,
    cost: spec_fn(int, int) -> Score,
) -> bool {
    forall|s: int| 0 <= s < scores.len() ==> is_scored(#[trigger] scores[s], calls, s, may, cost)
}

/// Whether a row holds the stops of the last call in the placements of `calls` calls.
spec fn are_picked(
    picks: Seq<Option<usize>>,
    calls: int,
    may: spec_fn(int, int) -> bool,
    cost: spec_fn(int, int) -> Score,
) -> bool {
    forall|s: int| 0 <= s < picks.len() ==> is_picked(#[trigger] picks[s], calls, s, may, cost)
}

fn fill_row(
    trip: &Trip,
    observed_calls: &Vec<ObservedCall>,
    calls: usize,
    above: &Vec<Option<DpScore>>,
    service_date: Option<i32>,
    timezone: Option<&str>,
    canonical_stop_ids: &Table<String>,
    mode: StopMatchMode,
) -> (r: (Vec<Option<DpScore>>, Vec<Option<usize>>))
    requires
        calls < observed_calls@.len(),
        all_timely(calls_of(observed_calls@)),
        above@.len() == trip.stop_times@.len() + 1,
        are_scored(
            above@,
            calls as int,
            may_call_at(*trip, calls_of(observed_calls@), canonical_stop_ids@, mode),
            cost_at(*trip, calls_of(observed_calls@), service_of(service_date, timezone)),
        ),
    ensures
        r.0@.len() == trip.stop_times@.len() + 1,
        r.1@.len() == trip.stop_times@.len() + 1,
        are_scored(
            r.0@,
            calls + 1,
            may_call_at(*trip, calls_of(observed_calls@), canonical_stop_ids@, mode),
            cost_at(*trip, calls_of(observed_calls@), service_of(service_date, timezone)),
        ),
        are_picked(
            r.1@,
            calls + 1,
            may_call_at(*trip, calls_of(observed_calls@), canonical_stop_ids@, mode),
            cost_at(*trip, calls_of(observed_calls@), service_of(service_date, timezone)),
        ),
{
    let ghost may = may_call_at(*trip, calls_of(observed_calls@), canonical_stop_ids@, mode);
    let ghost cost = cost_at(
        *trip,
        calls_of(observed_calls@),
        service_of(service_date, timezone),
    );
    let mut scores: Vec<Option<DpScore>> = Vec::new();
    let mut picks: Vec<Option<usize>> = Vec::new();
    scores.push(None);
    picks.push(None);
    let call = &observed_calls[calls];
    assert(calls_of(observed_calls@)[calls as int] == call@);
    let mut stop: usize = 0;
    while stop < trip.stop_times.len()
        invariant
            stop <= trip.stop_times@.len(),
            calls < observed_calls@.len(),
            *call == observed_calls@[calls as int],
            is_timely(call@),
            above@.len() == trip.stop_times@.len() + 1,
            may == may_call_at(*trip, calls_of(observed_calls@), canonical_stop_ids@, mode),
            cost == cost_at(
                *trip,
                calls_of(observed_calls@),
                service_of(service_date, timezone),
            ),
            are_scored(above@, calls as int, may, cost),
            scores@.len() == stop + 1,
            picks@.len() == stop + 1,
            are_scored(scores@, calls + 1, may, cost),
            are_picked(picks@, calls + 1, may, cost),
        decreases trip.stop_times@.len() - stop,
    {
        let mut best_score = scores[stop];
        let mut best_pick = picks[stop];
        assert(is_scored(scores@[stop as int], calls + 1, stop as int, may, cost));
        assert(is_picked(picks@[stop as int], calls + 1, stop as int, may, cost));
        assert(is_scored(above@[stop as int], calls as int, stop as int, may, cost));
        if let Some(front) = above[stop] {
            let stop_time = &trip.stop_times[stop];
            let matches = call_may_be_at(
                &call.stop_aliases,
                stop_time.stop_id.as_str(),
                canonical_stop_ids,
                mode,
            );
            assert(may(calls as int, stop as int) == matches) by {
                assert(calls_of(observed_calls@)[calls as int] == call@);
                assert(gtfs::trip_stops(*trip)[stop as int] == stop_time.stop_id@);
            }
            if matches {
                let here = score_call(call, stop_time, service_date, timezone);
                assert(cost(calls as int, stop as int) == here@);
                let new_score = DpScore {
                    total_difference: front.total_difference + here.total_difference,
                    max_difference: if front.max_difference < here.max_difference {
                        here.max_difference
                    } else {
                        front.max_difference
                    },
                    comparisons: front.comparisons + here.comparisons,
                };
                assert(new_score@ == sum_of(front@, here@));
                let is_new = match best_score {
                    Some(kept) => new_score.is_better_than(&kept),
                    None => true,
                };
                if is_new {
                    best_score = Some(new_score);
                    best_pick = Some(stop);
                }
            }
        }
        assert(is_scored(best_score, calls + 1, stop + 1, may, cost));
        assert(is_picked(best_pick, calls + 1, stop + 1, may, cost));
        scores.push(best_score);
        picks.push(best_pick);
        stop = stop + 1;
    }
    (scores, picks)
}

fn first_row(stops: usize) -> (r: Vec<Option<DpScore>>)
    ensures
        r@.len() == stops + 1,
        forall|may: spec_fn(int, int) -> bool, cost: spec_fn(int, int) -> Score| #[trigger]
            are_scored(r@, 0, may, cost),
{
    let nothing = DpScore { total_difference: 0, max_difference: 0, comparisons: 0 };
    let mut row: Vec<Option<DpScore>> = Vec::new();
    row.push(Some(nothing));
    let mut k: usize = 0;
    while k < stops
        invariant
            k <= stops,
            row@.len() == k + 1,
            nothing@ == no_score(),
            forall|i: int| 0 <= i < row@.len() ==> #[trigger] row@[i] == Some(nothing),
        decreases stops - k,
    {
        row.push(Some(nothing));
        k = k + 1;
    }
    row
}

fn trace(
    picks: &Vec<Vec<Option<usize>>>,
    calls: usize,
    stops: usize,
    Ghost(may): Ghost<spec_fn(int, int) -> bool>,
    Ghost(cost): Ghost<spec_fn(int, int) -> Score>,
) -> (r: Vec<usize>)
    requires
        picks@.len() == calls,
        placement(calls as int, stops as int, may, cost) is Some,
        forall|i: int, j: int| (#[trigger] cost(i, j)).count >= 0,
        forall|c: int|
            0 <= c < calls ==> (#[trigger] picks@[c])@.len() == stops + 1 && are_picked(
                picks@[c]@,
                c + 1,
                may,
                cost,
            ),
    ensures
        r@ == placement(calls as int, stops as int, may, cost)->0.at,
{
    let ghost whole = placement(calls as int, stops as int, may, cost)->0.at;
    let mut found: Vec<usize> = Vec::new();
    let mut k: usize = 0;
    while k < calls
        invariant
            k <= calls,
            found@.len() == k,
        decreases calls - k,
    {
        found.push(0);
        k = k + 1;
    }
    let mut left = calls;
    let mut here = stops;
    assert(whole =~= whole + found@.skip(left as int)) by {
        placement_is_an_alignment(calls as int, stops as int, may, cost);
    }
    while left > 0
        invariant
            left <= calls,
            here <= stops,
            picks@.len() == calls,
            found@.len() == calls,
            forall|i: int, j: int| (#[trigger] cost(i, j)).count >= 0,
            forall|c: int|
                0 <= c < calls ==> (#[trigger] picks@[c])@.len() == stops + 1 && are_picked(
                    picks@[c]@,
                    c + 1,
                    may,
                    cost,
                ),
            placement(left as int, here as int, may, cost) is Some,
            whole == placement(left as int, here as int, may, cost)->0.at + found@.skip(
                left as int,
            ),
        decreases left,
    {
        let ghost p = placement(left as int, here as int, may, cost)->0;
        proof {
            placement_is_not_beaten(left as int, here as int, may, cost);
            placement_is_an_alignment(left as int, here as int, may, cost);
            assert(is_picked(picks@[left - 1]@[here as int], left as int, here as int, may, cost));
        }
        let stop: usize = match picks[left - 1][here] {
            Some(stop) => stop,
            None => 0,
        };
        let ghost before = found@;
        found[left - 1] = stop;
        assert(found@.skip(left - 1) =~= seq![stop] + before.skip(left as int));
        assert(p.at =~= p.at.drop_last().push(stop));
        assert(p.at.drop_last() =~= placement(left - 1, stop as int, may, cost)->0.at);
        left = left - 1;
        here = stop;
        assert(whole =~= placement(left as int, here as int, may, cost)->0.at + found@.skip(
            left as int,
        ));
    }
    assert(found@ =~= whole);
    found
}

/// The candidate that a trip is for the calls.
pub fn find_best_alignment(
    trip: &Trip,
    observed_calls: &Vec<ObservedCall>,
    service_date: Option<i32>,
    timezone: Option<&str>,
    canonical_stop_ids: &Table<String>,
    mode: StopMatchMode,
) -> (r: Option<CandidateScore>)
    requires
        all_timely(calls_of(observed_calls@)),
    ensures
        candidate_view(r) == candidate_of(
            *trip,
            calls_of(observed_calls@),
            service_date,
            service_of(service_date, timezone),
            canonical_stop_ids@,
            mode,
        ),
{
    let num_calls = observed_calls.len();
    let num_stops = trip.stop_times.len();
    let ghost calls = calls_of(observed_calls@);
    let ghost may = may_call_at(*trip, calls, canonical_stop_ids@, mode);
    let ghost cost = cost_at(*trip, calls, service_of(service_date, timezone));
    proof {
        placement_is_an_alignment(num_calls as int, num_stops as int, may, cost);
        if alignment::alignable(num_calls as int, num_stops as int, may) {
            alignment::alignable_needs_stops(num_calls as int, num_stops as int, may);
        }
        assert forall|i: int, j: int| (#[trigger] cost(i, j)).count >= 0 by {
            assert(cost(i, j) == call_score(
                calls[i],
                trip.stop_times@[j],
                service_of(service_date, timezone),
            ));
        }
    }
    if num_calls == 0 || num_stops == 0 || num_stops < num_calls {
        return None;
    }
    let mut row = first_row(num_stops);
    assert(are_scored(row@, 0, may, cost));
    let mut picks: Vec<Vec<Option<usize>>> = Vec::new();
    let mut c: usize = 0;
    while c < num_calls
        invariant
            c <= num_calls,
            num_calls == observed_calls@.len(),
            num_stops == trip.stop_times@.len(),
            calls == calls_of(observed_calls@),
            may == may_call_at(*trip, calls, canonical_stop_ids@, mode),
            cost == cost_at(*trip, calls, service_of(service_date, timezone)),
            all_timely(calls),
            row@.len() == num_stops + 1,
            are_scored(row@, c as int, may, cost),
            picks@.len() == c,
            forall|k: int|
                0 <= k < c ==> (#[trigger] picks@[k])@.len() == num_stops + 1 && are_picked(
                    picks@[k]@,
                    k + 1,
                    may,
                    cost,
                ),
        decreases num_calls - c,
    {
        let (scores, row_picks) = fill_row(
            trip,
            observed_calls,
            c,
            &row,
            service_date,
            timezone,
            canonical_stop_ids,
            mode,
        );
        row = scores;
        picks.push(row_picks);
        c = c + 1;
    }
    assert(is_scored(
        row@[num_stops as int],
        num_calls as int,
        num_stops as int,
        may,
        cost,
    ));
    let final_score = match row[num_stops] {
        Some(score) => score,
        None => return None,
    };
    if service_date.is_some() && final_score.comparisons == 0 {
        return None;
    }
    let stop_indices = trace(&picks, num_calls, num_stops, Ghost(may), Ghost(cost));
    let mean_abs_difference_seconds: i64 = if final_score.comparisons > 0 {
        let mean: u128 = final_score.total_difference as u128 / final_score.comparisons;
        proof {
            mean_bound(final_score.total_difference as int, final_score.comparisons as int);
        }
        mean as i64
    } else {
        0
    };
    let service_date: i32 = match service_date {
        Some(day) => day,
        None => clock::EPOCH_DAY,
    };
    Some(
        CandidateScore {
            trip_id: trip.id.clone(),
            service_date,
            mean_abs_difference_seconds,
            max_abs_difference_seconds: final_score.max_difference,
            comparisons: final_score.comparisons,
            stop_indices,
            used_parent_station_match: mode == StopMatchMode::ParentStation,
        },
    )
}

proof fn mean_bound(total: int, count: int)
    requires
        count > 0,
        0 <= total <= MAX_DIFFERENCE * count,
    ensures
        0 <= total / count <= MAX_DIFFERENCE,
{
    assert(0 <= total / count <= 8_600_000_000_000) by (nonlinear_arith)
        requires
            count > 0,
            0 <= total <= 8_600_000_000_000 * count,
    ;
}

/// The law of candidates: the stops of one are an alignment of all calls with the trip, and none
/// is found for calls without an alignment.
pub proof fn candidate_is_an_alignment(
    trip: Trip,
    calls: Seq<Call>,
    date: Option<i32>,
    service: Option<(i32, Seq<char>)>,
    stations: Map<Seq<char>, String>,
    mode: StopMatchMode,
)
    requires
        trip.stop_times@.len() <= usize::MAX,
    ensures
        candidate_of(trip, calls, date, service, stations, mode) matches Some(found)
            ==> alignment::is_alignment(
            indices(found.at),
            calls.len() as int,
            trip.stop_times@.len() as int,
            may_call_at(trip, calls, stations, mode),
        ),
        candidate_of(trip, calls, date, service, stations, mode) is Some ==> calls_fit(
            calls,
            gtfs::trip_stops(trip),
            stations,
            mode,
        ),
{
    placement_is_an_alignment(
        calls.len() as int,
        trip.stop_times@.len() as int,
        may_call_at(trip, calls, stations, mode),
        cost_at(trip, calls, service),
    );
}

/// Whether every stop of a trip is due on a day, when the clocks show it.
pub open spec fn is_fully_timed(trip: Trip, day: i32, zone: Seq<char>) -> bool {
    forall|j: int|
        0 <= j < trip.stop_times@.len() ==> {
            let stop = #[trigger] trip.stop_times@[j];
            &&& gtfs::due_at_arrival(stop) matches Some(seconds)
            &&& clock::scheduled_times(day, seconds, zone).len() > 0
            &&& gtfs::due_at_departure(stop) matches Some(last)
            &&& clock::scheduled_times(day, last, zone).len() > 0
        }
}

/// The law of fully timed candidates: no alignment of the calls with the trip has a lesser sum of
/// differences, nor a lesser mean.
pub proof fn timed_candidate_is_nearest(
    trip: Trip,
    calls: Seq<Call>,
    day: i32,
    zone: Seq<char>,
    stations: Map<Seq<char>, String>,
    mode: StopMatchMode,
    other: Seq<usize>,
)
    requires
        trip.stop_times@.len() <= usize::MAX,
        is_fully_timed(trip, day, zone),
        alignment::is_alignment(
            indices(other),
            calls.len() as int,
            trip.stop_times@.len() as int,
            may_call_at(trip, calls, stations, mode),
        ),
    ensures
        ({
            let cost = cost_at(trip, calls, Some((day, zone)));
            &&& trip_placement(trip, calls, Some((day, zone)), stations, mode) matches Some(p)
            &&& p.score.count == cost_of(other, cost).count
            &&& p.score.total <= cost_of(other, cost).total
            &&& candidate_of(trip, calls, Some(day), Some((day, zone)), stations, mode) matches Some(
                found,
            ) ==> found.count == cost_of(other, cost).count && found.mean <= cost_of(
                other,
                cost,
            ).total / cost_of(other, cost).count
        }),
{
    let service = Some((day, zone));
    let may = may_call_at(trip, calls, stations, mode);
    let cost = cost_at(trip, calls, service);
    let n = calls.len() as int;
    let stops = trip.stop_times@.len() as int;
    assert forall|i: int, j: int| 0 <= i < n && 0 <= j < stops implies (#[trigger] cost(
        i,
        j,
    )).count == (if calls[i].arrival is Some {
        1int
    } else {
        0
    }) + (if calls[i].departure is Some {
        1int
    } else {
        0
    }) && (cost(i, j).count == 0 ==> cost(i, j).total == 0) by {
        let stop = trip.stop_times@[j];
        assert(gtfs::due_at_arrival(stop) is Some && gtfs::due_at_departure(stop) is Some);
    }
    assert(is_even(n, stops, may, cost));
    even_placement_is_least(n, stops, may, cost, other);
    let p = trip_placement(trip, calls, service, stations, mode)->0;
    let t = cost_of(other, cost).total;
    let c = p.score.count;
    if c > 0 {
        vstd::arithmetic::div_mod::lemma_div_is_ordered(p.score.total, t, c);
    }
    placement_is_an_alignment(n, stops, may, cost);
    even_costs(n, stops, may, cost, p.at, other);
}

/// The law of candidates without a service day: a trip is one exactly if there are calls and they
/// have an alignment with it, and each call is then at the earliest stop of any alignment.
pub proof fn undated_candidate_is_earliest(
    trip: Trip,
    calls: Seq<Call>,
    stations: Map<Seq<char>, String>,
    mode: StopMatchMode,
)
    requires
        trip.stop_times@.len() <= usize::MAX,
    ensures
        candidate_of(trip, calls, None, None, stations, mode) is Some <==> calls.len() > 0
            && calls_fit(calls, gtfs::trip_stops(trip), stations, mode),
        candidate_of(trip, calls, None, None, stations, mode) matches Some(found) ==> forall|
            other: Seq<int>,
            i: int,
        |
            alignment::is_alignment(
                other,
                calls.len() as int,
                trip.stop_times@.len() as int,
                may_call_at(trip, calls, stations, mode),
            ) && 0 <= i < calls.len() ==> #[trigger] found.at[i] <= #[trigger] other[i],
{
    let may = may_call_at(trip, calls, stations, mode);
    let cost = cost_at(trip, calls, None);
    let stops = trip.stop_times@.len() as int;
    placement_is_an_alignment(calls.len() as int, stops, may, cost);
    if let Some(found) = candidate_of(trip, calls, None, None, stations, mode) {
        assert forall|other: Seq<int>, i: int|
            alignment::is_alignment(other, calls.len() as int, stops, may) && 0 <= i
                < calls.len() implies #[trigger] found.at[i] <= #[trigger] other[i] by {
            free_placement_is_earliest(calls.len() as int, stops, may, cost, other);
        }
    }
}

/// Whether one candidate is ahead of another: its differences are less in the mean, else less at
/// the most, else more in number, else its service day is later, else its trip comes first by
/// identifier.
pub open spec fn ahead(a: Candidate, b: Candidate) -> bool {
    ||| a.mean < b.mean
    ||| a.mean == b.mean && a.most < b.most
    ||| a.mean == b.mean && a.most == b.most && a.count > b.count
    ||| a.mean == b.mean && a.most == b.most && a.count == b.count && a.day > b.day
    ||| a.mean == b.mean && a.most == b.most && a.count == b.count && a.day == b.day
        && text::text_less(a.trip_id, b.trip_id)
}

impl CandidateScore {
    /// Whether this candidate is ahead of the other.
    pub fn is_better_than(&self, other: &Self) -> (r: bool)
        ensures
            r == ahead(self@, other@),
    {
        if self.mean_abs_difference_seconds != other.mean_abs_difference_seconds {
            self.mean_abs_difference_seconds < other.mean_abs_difference_seconds
        } else if self.max_abs_difference_seconds != other.max_abs_difference_seconds {
            self.max_abs_difference_seconds < other.max_abs_difference_seconds
        } else if self.comparisons != other.comparisons {
            self.comparisons > other.comparisons
        } else if self.service_date != other.service_date {
            self.service_date > other.service_date
        } else {
            text_precedes(self.trip_id.as_str(), other.trip_id.as_str())
        }
    }
}

/// The law of `ahead`: what is not ahead of something is not ahead of what that is not ahead of.
pub proof fn not_ahead_is_transitive(a: Candidate, b: Candidate, c: Candidate)
    requires
        !ahead(a, b),
        !ahead(b, c),
    ensures
        !ahead(a, c),
{
    if text::text_less(a.trip_id, c.trip_id) {
        text::text_order_total(a.trip_id, b.trip_id);
        text::text_order_total(b.trip_id, c.trip_id);
        if text::text_less(b.trip_id, a.trip_id) {
            text::text_order_transitive(b.trip_id, a.trip_id, c.trip_id);
        }
    }
}

/// The law of `ahead`: no candidate is ahead of one that is ahead of it.
pub proof fn ahead_is_one_way(a: Candidate, b: Candidate)
    requires
        ahead(a, b),
    ensures
        !ahead(b, a),
{
    if text::text_less(a.trip_id, b.trip_id) && text::text_less(b.trip_id, a.trip_id) {
        text::text_order_transitive(a.trip_id, b.trip_id, a.trip_id);
        text::text_order_irreflexive(a.trip_id);
    }
}

/// The candidate that is kept of two.
pub open spec fn kept(best: Option<Candidate>, new: Option<Candidate>) -> Option<Candidate> {
    match (best, new) {
        (Some(old), Some(found)) => if ahead(found, old) {
            new
        } else {
            best
        },
        (None, _) => new,
        (_, None) => best,
    }
}

/// The candidate that is kept of two.
pub fn keep_better(best: Option<CandidateScore>, new: Option<CandidateScore>) -> (r: Option<
    CandidateScore,
>)
    ensures
        candidate_view(r) == kept(candidate_view(best), candidate_view(new)),
{
    match new {
        Some(found) => match best {
            Some(old) => if found.is_better_than(&old) {
                Some(found)
            } else {
                Some(old)
            },
            None => Some(found),
        },
        None => best,
    }
}

/// The first of a list of candidates that no other is ahead of.
pub open spec fn foremost(all: Seq<Option<Candidate>>) -> Option<Candidate>
    decreases all.len(),
{
    if all.len() == 0 {
        None
    } else {
        kept(foremost(all.drop_last()), all.last())
    }
}

/// The law of `foremost`: it is one of the candidates, and no other is ahead of it.
pub proof fn foremost_is_not_beaten(all: Seq<Option<Candidate>>)
    ensures
        foremost(all) is Some ==> all.contains(foremost(all)),
        forall|i: int|
            0 <= i < all.len() && #[trigger] all[i] is Some ==> foremost(all) is Some && !ahead(
                all[i]->0,
                foremost(all)->0,
            ),
    decreases all.len(),
{
    if all.len() > 0 {
        let front = all.drop_last();
        foremost_is_not_beaten(front);
        assert(all.last() == all[all.len() - 1]);
        if foremost(front) is Some {
            let k = choose|k: int| 0 <= k < front.len() && front[k] == foremost(front);
            assert(all[k] == front[k]);
        }
        assert forall|i: int| 0 <= i < all.len() && #[trigger] all[i] is Some implies foremost(
            all,
        ) is Some && !ahead(all[i]->0, foremost(all)->0) by {
            if i < front.len() {
                assert(all[i] == front[i]);
                if foremost(all) != foremost(front) {
                    ahead_is_one_way(foremost(all)->0, foremost(front)->0);
                    not_ahead_is_transitive(
                        all[i]->0,
                        foremost(front)->0,
                        foremost(all)->0,
                    );
                }
            } else if foremost(all) == all.last() {
                if ahead(all[i]->0, all[i]->0) {
                    ahead_is_one_way(all[i]->0, all[i]->0);
                }
            }
        }
    }
}

} // verus!
