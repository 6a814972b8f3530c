//! The sliding-window circuit breaker: calls from one agent to another are
//! recorded with their time, and a new call is refused once the calls that
//! are still inside the window and did not end in a terminal state reach the
//! threshold.

use vstd::prelude::*;
use vstd::string::StringExecFns;
use dashmap::DashMap;
use crate::clock::{in_clock_range, NANOS_PER_SEC};
use crate::table::TableKey;

verus! {

/// The state an agent is in, as far as the breaker is concerned.
#[derive(Clone, Copy, Debug, PartialEq, Eq, Structural)]
pub enum AgentStatus {
    Processing,
    Terminal,
    CoolingDown,
}

/// A directed pair of agents: calls from `from` to `to`.
#[derive(Clone, Debug, Hash, PartialEq, Eq)]
pub struct AgentCall {
    pub from: String,
    pub to: String,
}

impl View for AgentCall {
    type V = (Seq<char>, Seq<char>);

    open spec fn view(&self) -> (Seq<char>, Seq<char>) {
        (self.from@, self.to@)
    }
}

impl TableKey for AgentCall {
    fn same_key(&self, other: &Self) -> (b: bool) {
        self.from == other.from && self.to == other.to
    }
}

/// One recorded call: when it was made (nanoseconds since the Unix epoch)
/// and whether the callee reported a terminal state.
#[derive(Clone, Copy, Debug, PartialEq, Eq, Structural)]
pub struct CallRecord {
    pub timestamp: i128,
    pub is_terminal: bool,
}

/// What the breaker's map holds: for each pair of agents, the recorded
/// calls in the order they were made.
pub uninterp spec fn recorded_calls(m: DashMap<AgentCall, Vec<CallRecord>>) -> Map<(Seq<char>, Seq<char>), Seq<CallRecord>>;

/// `DashMap::new`: an empty map.
#[verifier::external_body]
fn new_call_map() -> (r: DashMap<AgentCall, Vec<CallRecord>>)
    ensures
        recorded_calls(r).is_empty(),
{
    DashMap::new()
}

/// `DashMap::remove`: takes the entry of `key` out of the map and hands back
/// its value, or `None` where the key has no entry. `AgentCall` compares and
/// hashes both strings, so entries are found by the pair of strings.
#[verifier::external_body]
fn take_calls(m: &mut DashMap<AgentCall, Vec<CallRecord>>, key: &AgentCall) -> (r: Option<
    Vec<CallRecord>,
>)
    ensures
        recorded_calls(*final(m)) == recorded_calls(*old(m)).remove(key@),
        match r {
            Some(v) => recorded_calls(*old(m)).contains_key(key@) && v@ == recorded_calls(
                *old(m),
            )[key@],
            None => !recorded_calls(*old(m)).contains_key(key@),
        },
{
    m.remove(key).map(|(_, v)| v)
}

/// `DashMap::insert`: stores `calls` under `key`, replacing any earlier value.
#[verifier::external_body]
fn put_calls(m: &mut DashMap<AgentCall, Vec<CallRecord>>, key: AgentCall, calls: Vec<CallRecord>)
    ensures
        recorded_calls(*final(m)) == recorded_calls(*old(m)).insert(key@, calls@),
{
    m.insert(key, calls);
}

/// `DashMap::get`: a copy of the calls recorded under `key`, or `None` where
/// the key has no entry.
#[verifier::external_body]
fn copy_calls(m: &DashMap<AgentCall, Vec<CallRecord>>, key: &AgentCall) -> (r: Option<Vec<CallRecord>>)
    ensures
        match r {
            Some(v) => recorded_calls(*m).contains_key(key@) && v@ == recorded_calls(*m)[key@],
            None => !recorded_calls(*m).contains_key(key@),
        },
{
    m.get(key).map(|e| e.value().clone())
}

/// The calls of `history` made strictly after `start`, and how many of them
/// did not end in a terminal state.
fn live_part(history: &Vec<CallRecord>, start: i128) -> (r: (Vec<CallRecord>, usize))
    ensures
        r.0@ == live_calls(history@, start as int),
        r.1 == non_terminal_count(r.0@),
{
    let ghost after_start = made_after(start as int);
    let ghost counted = non_terminal();
    let mut kept: Vec<CallRecord> = Vec::new();
    let mut count: usize = 0;
    let mut i: usize = 0;
    proof {
        reveal_with_fuel(Seq::filter, 1);
        assert(history@.take(0) =~= Seq::<CallRecord>::empty());
    }
    while i < history.len()
        invariant
            i <= history@.len(),
            kept@ == history@.take(i as int).filter(after_start),
            count as int == kept@.filter(counted).len(),
            count <= i,
            after_start == made_after(start as int),
            counted == non_terminal(),
        decreases history@.len() - i,
    {
        let c = history[i];
        let ghost prev = kept@;
        if c.timestamp > start {
            kept.push(c);
            if !c.is_terminal {
                count = count + 1;
            }
        }
        proof {
            reveal_with_fuel(Seq::filter, 1);
            assert(history@.take(i + 1).drop_last() =~= history@.take(i as int));
            assert(history@.take(i + 1).last() == c);
            if c.timestamp > start {
                assert(kept@.drop_last() =~= prev);
            }
        }
        i = i + 1;
    }
    proof {
        assert(history@.take(i as int) =~= history@);
    }
    (kept, count)
}

/// The message of a refused call.
pub open spec fn tripped_message() -> Seq<char> {
    "Cooling Down: Recursive loop detected. Breaker tripped."@
}

/// Windows that `chrono::TimeDelta::seconds` accepts: at most `i64::MAX`
/// milliseconds either way.
pub open spec fn window_in_range(window_seconds: int) -> bool {
    -9_223_372_036_854_775 <= window_seconds <= 9_223_372_036_854_775
}

/// The calls recorded for `key`, empty where none are.
pub open spec fn calls_of(
    m: Map<(Seq<char>, Seq<char>), Seq<CallRecord>>,
    key: (Seq<char>, Seq<char>),
) -> Seq<CallRecord> {
    if m.contains_key(key) {
        m[key]
    } else {
        Seq::empty()
    }
}

/// The start of the window that ends at `now`.
pub open spec fn window_start(now: int, window_seconds: int) -> int {
    now - window_seconds * 1_000_000_000
}

/// Calls made strictly after `start`.
pub open spec fn made_after(start: int) -> spec_fn(CallRecord) -> bool {
    |c: CallRecord| c.timestamp > start
}

/// Calls that did not end in a terminal state.
pub open spec fn non_terminal() -> spec_fn(CallRecord) -> bool {
    |c: CallRecord| !c.is_terminal
}

/// The calls of `h` that are still inside the window starting at `start`.
pub open spec fn live_calls(h: Seq<CallRecord>, start: int) -> Seq<CallRecord> {
    h.filter(made_after(start))
}

/// How many calls of `h` did not end in a terminal state.
pub open spec fn non_terminal_count(h: Seq<CallRecord>) -> nat {
    h.filter(non_terminal()).len()
}

/// The outcome of registering a call from `key.0` to `key.1` at `now`, with
/// the given threshold and window: the calls before the window are dropped;
/// the call is refused (`ok` false) exactly when the remaining non-terminal
/// calls reach the threshold, and recorded otherwise.
pub open spec fn registered(
    before: Map<(Seq<char>, Seq<char>), Seq<CallRecord>>,
    after: Map<(Seq<char>, Seq<char>), Seq<CallRecord>>,
    key: (Seq<char>, Seq<char>),
    is_terminal: bool,
    now: int,
    threshold: int,
    window_seconds: int,
    ok: bool,
) -> bool {
    let live = live_calls(calls_of(before, key), window_start(now, window_seconds));
    &&& ok <==> non_terminal_count(live) < threshold
    &&& ok ==> after == before.insert(
        key,
        live.push(CallRecord { timestamp: now as i128, is_terminal }),
    )
    &&& !ok ==> after == before.insert(key, live)
}

/// Records calls between pairs of agents and refuses a call once too many
/// non-terminal calls fall inside the window.
pub struct CircuitBreaker {
    calls: DashMap<AgentCall, Vec<CallRecord>>,
    threshold_count: usize,
    window_seconds: i64,
}

impl CircuitBreaker {
    /// The recorded calls of each pair of agents.
    pub closed spec fn history(&self) -> Map<(Seq<char>, Seq<char>), Seq<CallRecord>> {
        recorded_calls(self.calls)
    }

    /// The number of non-terminal calls inside the window that trips the breaker.
    pub closed spec fn threshold(&self) -> usize {
        self.threshold_count
    }

    /// The length of the window, in seconds.
    pub closed spec fn window(&self) -> i64 {
        self.window_seconds
    }

    /// A breaker with no recorded calls.
    pub fn new(threshold: usize, window: i64) -> (b: Self)
        ensures
            b.history() == Map::<(Seq<char>, Seq<char>), Seq<CallRecord>>::empty(),
            b.threshold() == threshold,
            b.window() == window,
    {
        CircuitBreaker { calls: new_call_map(), threshold_count: threshold, window_seconds: window }
    }

    /// Registers a call from `from` to `to` made at `now` (nanoseconds since
    /// the Unix epoch): drops the pair's calls that are not after the start
    /// of the window, refuses the call if the non-terminal calls that remain
    /// reach the threshold, and records it otherwise.
    pub fn register_call_at(&mut self, from: &str, to: &str, is_terminal: bool, now: i128) -> (r:
        Result<(), String>)
        requires
            window_in_range(old(self).window() as int),
            in_clock_range(now as int),
        ensures
            final(self).threshold() == old(self).threshold(),
            final(self).window() == old(self).window(),
            registered(
                old(self).history(),
                final(self).history(),
                (from@, to@),
                is_terminal,
                now as int,
                old(self).threshold() as int,
                old(self).window() as int,
                r is Ok,
            ),
            r matches Err(e) ==> e@ == tripped_message(),
            r matches Err(e) ==> e@ == "Cooling Down: Recursive loop detected. Breaker tripped."@,
            ({
                let h = calls_of(old(self).history(), (from@, to@));
                (r is Ok) <==> h.filter(
                    |c: CallRecord| !c.is_terminal && now - c.timestamp < old(self).window() * 1_000_000_000,
                ).len() < old(self).threshold()
            }),
            ({
                let h = calls_of(old(self).history(), (from@, to@));
                let recent = h.filter(
                    |c: CallRecord| now - c.timestamp < old(self).window() * 1_000_000_000,
                );
                &&& r is Ok ==> final(self).history()[(from@, to@)] == recent.push(
                    CallRecord { timestamp: now, is_terminal },
                )
                &&& r is Err ==> final(self).history()[(from@, to@)] == recent
            }),
    {
        let key = AgentCall { from: String::from_str(from), to: String::from_str(to) };
        let history = match take_calls(&mut self.calls, &key) {
            Some(h) => h,
            None => Vec::new(),
        };
        let ghost before = old(self).history();
        let ghost k = key@;
        assert(history@ == calls_of(before, k));
        let start: i128 = now - (self.window_seconds as i128) * NANOS_PER_SEC;
        let (mut kept, count) = live_part(&history, start);
        let ghost live = live_calls(calls_of(before, k), window_start(now as int, self.window_seconds as int));
        assert(kept@ == live);
        assert(count == non_terminal_count(live));
        if count >= self.threshold_count {
            put_calls(&mut self.calls, key, kept);
            assert(self.history() =~= before.insert(k, live));
            proof {
                lemma_call_counts_last_window_seconds(before, self.history(), k, is_terminal, now as int,
                    self.threshold_count as int, self.window_seconds as int, false);
            }
            return Err(String::from_str("Cooling Down: Recursive loop detected. Breaker tripped."));
        }
        kept.push(CallRecord { timestamp: now, is_terminal });
        put_calls(&mut self.calls, key, kept);
        assert(self.history() =~= before.insert(
            k,
            live.push(CallRecord { timestamp: now, is_terminal }),
        ));
        proof {
            lemma_call_counts_last_window_seconds(before, self.history(), k, is_terminal, now as int,
                self.threshold_count as int, self.window_seconds as int, true);
        }
        Ok(())
    }

    /// Whether the window can be subtracted from an instant, as calls need.
    pub fn window_is_valid(&self) -> (b: bool)
        ensures
            b == window_in_range(self.window() as int),
    {
        -9_223_372_036_854_775 <= self.window_seconds && self.window_seconds <= 9_223_372_036_854_775
    }

    /// How many calls from `from` to `to` are recorded after the start of the
    /// window that ends at `now`.
    pub fn calls_in_window_at(&self, from: &str, to: &str, now: i128) -> (n: usize)
        requires
            window_in_range(self.window() as int),
            in_clock_range(now as int),
        ensures
            n == live_calls(calls_of(self.history(), (from@, to@)), window_start(now as int, self.window() as int)).len(),
            n == calls_of(self.history(), (from@, to@)).filter(
                |c: CallRecord| now - c.timestamp < self.window() * 1_000_000_000,
            ).len(),
    {
        let key = AgentCall { from: String::from_str(from), to: String::from_str(to) };
        let history = match copy_calls(&self.calls, &key) {
            Some(h) => h,
            None => Vec::new(),
        };
        assert(history@ == calls_of(self.history(), key@));
        let start: i128 = now - (self.window_seconds as i128) * NANOS_PER_SEC;
        let (kept, _) = live_part(&history, start);
        proof {
            let w = |c: CallRecord| now - c.timestamp < self.window() * 1_000_000_000;
            assert(made_after(window_start(now as int, self.window() as int)) =~= w);
        }
        kept.len()
    }

}

/// Filtering by one predicate and then another keeps what both accept.
proof fn lemma_filter_both(s: Seq<CallRecord>, p: spec_fn(CallRecord) -> bool, q: spec_fn(CallRecord) -> bool)
    ensures
        s.filter(p).filter(q) == s.filter(|c: CallRecord| p(c) && q(c)),
    decreases s.len(),
{
    reveal_with_fuel(Seq::filter, 1);
    if s.len() > 0 {
        lemma_filter_both(s.drop_last(), p, q);
        let f = s.drop_last().filter(p);
        if p(s.last()) {
            f.lemma_filter_push(s.last(), q);
        }
    }
}

/// A call at `now` counts exactly the non-terminal calls of its own pair
/// made less than `window_seconds` seconds earlier: it is accepted exactly
/// when they are fewer than the threshold. Afterwards the pair keeps the
/// calls made less than `window_seconds` seconds before `now`, followed by
/// the new call when it was accepted; every other pair keeps its calls.
pub proof fn lemma_call_counts_last_window_seconds(
    before: Map<(Seq<char>, Seq<char>), Seq<CallRecord>>,
    after: Map<(Seq<char>, Seq<char>), Seq<CallRecord>>,
    key: (Seq<char>, Seq<char>),
    is_terminal: bool,
    now: int,
    threshold: int,
    window_seconds: int,
    ok: bool,
)
    requires
        registered(before, after, key, is_terminal, now, threshold, window_seconds, ok),
    ensures
        ({
            let h = if before.contains_key(key) { before[key] } else { Seq::<CallRecord>::empty() };
            let recent = h.filter(|c: CallRecord| now - c.timestamp < window_seconds * 1_000_000_000);
            &&& ok <==> h.filter(
                |c: CallRecord| !c.is_terminal && now - c.timestamp < window_seconds * 1_000_000_000,
            ).len() < threshold
            &&& after.contains_key(key)
            &&& ok ==> after[key] == recent.push(CallRecord { timestamp: now as i128, is_terminal })
            &&& !ok ==> after[key] == recent
        }),
        forall|other: (Seq<char>, Seq<char>)|
            other != key ==> (#[trigger] after.contains_key(other) == before.contains_key(other)) && (
            before.contains_key(other) ==> after[other] == before[other]),
{
    let h = calls_of(before, key);
    let p = made_after(window_start(now, window_seconds));
    let w = |c: CallRecord| now - c.timestamp < window_seconds * 1_000_000_000;
    assert(p =~= w);
    lemma_filter_both(h, p, non_terminal());
    let both = |c: CallRecord| p(c) && non_terminal()(c);
    let direct = |c: CallRecord| !c.is_terminal && now - c.timestamp < window_seconds * 1_000_000_000;
    assert(both =~= direct);
    assert(h.filter(p) == h.filter(w));
    assert(non_terminal_count(live_calls(h, window_start(now, window_seconds))) == h.filter(direct).len());
}

/// Filtering twice by the same predicate keeps the same elements.
proof fn lemma_filter_twice(s: Seq<CallRecord>, p: spec_fn(CallRecord) -> bool)
    ensures
        s.filter(p).filter(p) == s.filter(p),
    decreases s.len(),
{
    reveal_with_fuel(Seq::filter, 1);
    if s.len() > 0 {
        lemma_filter_twice(s.drop_last(), p);
        let f = s.drop_last().filter(p);
        if p(s.last()) {
            assert(f.push(s.last()).drop_last() =~= f);
        }
    }
}

/// Where no element satisfies `p`, filtering by `p` leaves nothing.
proof fn lemma_filter_none(s: Seq<CallRecord>, p: spec_fn(CallRecord) -> bool)
    requires
        forall|i: int| 0 <= i < s.len() ==> !p(#[trigger] s[i]),
    ensures
        s.filter(p) == Seq::<CallRecord>::empty(),
    decreases s.len(),
{
    reveal_with_fuel(Seq::filter, 1);
    if s.len() > 0 {
        assert(!p(s[s.len() - 1]));
        lemma_filter_none(s.drop_last(), p);
    } else {
        assert(s =~= Seq::<CallRecord>::empty());
    }
}

/// No pair of agents ever holds more non-terminal calls inside the window
/// than the threshold allows: after a call is accepted at `now`, the
/// non-terminal calls of its pair that lie inside the window ending at `now`
/// number at most the threshold.
pub proof fn lemma_accepted_calls_within_threshold(
    before: Map<(Seq<char>, Seq<char>), Seq<CallRecord>>,
    after: Map<(Seq<char>, Seq<char>), Seq<CallRecord>>,
    key: (Seq<char>, Seq<char>),
    is_terminal: bool,
    now: int,
    threshold: int,
    window_seconds: int,
)
    requires
        in_clock_range(now),
        registered(before, after, key, is_terminal, now, threshold, window_seconds, true),
    ensures
        non_terminal_count(live_calls(calls_of(after, key), window_start(now, window_seconds)))
            <= threshold,
{
    let start = window_start(now, window_seconds);
    let live = live_calls(calls_of(before, key), start);
    let c = CallRecord { timestamp: now as i128, is_terminal };
    assert(calls_of(after, key) == live.push(c));
    live.lemma_filter_push(c, made_after(start));
    lemma_filter_twice(calls_of(before, key), made_after(start));
    let again = live_calls(live.push(c), start);
    live.lemma_filter_push(c, non_terminal());
    if made_after(start)(c) {
        assert(again == live.push(c));
        live.lemma_filter_push(c, non_terminal());
    } else {
        assert(again == live);
    }
}

/// After a call, the recorded calls of its pair are the calls made after the
/// start of the window, followed by the new call when it was accepted.
pub proof fn lemma_history_inside_window(
    before: Map<(Seq<char>, Seq<char>), Seq<CallRecord>>,
    after: Map<(Seq<char>, Seq<char>), Seq<CallRecord>>,
    key: (Seq<char>, Seq<char>),
    is_terminal: bool,
    now: int,
    threshold: int,
    window_seconds: int,
    ok: bool,
)
    requires
        in_clock_range(now),
        registered(before, after, key, is_terminal, now, threshold, window_seconds, ok),
    ensures
        forall|i: int|
            0 <= i < calls_of(after, key).len() ==> #[trigger] calls_of(after, key)[i].timestamp
                > window_start(now, window_seconds) || (ok && i == calls_of(after, key).len() - 1
                && calls_of(after, key)[i] == CallRecord { timestamp: now as i128, is_terminal }),
{
    let start = window_start(now, window_seconds);
    let live = live_calls(calls_of(before, key), start);
    assert forall|i: int| 0 <= i < live.len() implies #[trigger] live[i].timestamp > start by {
        calls_of(before, key).lemma_filter_pred(made_after(start), i);
    }
    if ok {
        assert forall|i: int| 0 <= i < calls_of(after, key).len() - 1 implies calls_of(after, key)[i]
            == live[i] by {}
    }
}

/// Registering a call changes the recorded calls of its own pair only.
pub proof fn lemma_other_pairs_unchanged(
    before: Map<(Seq<char>, Seq<char>), Seq<CallRecord>>,
    after: Map<(Seq<char>, Seq<char>), Seq<CallRecord>>,
    key: (Seq<char>, Seq<char>),
    other: (Seq<char>, Seq<char>),
    is_terminal: bool,
    now: int,
    threshold: int,
    window_seconds: int,
    ok: bool,
)
    requires
        registered(before, after, key, is_terminal, now, threshold, window_seconds, ok),
        other != key,
    ensures
        calls_of(after, other) == calls_of(before, other),
{
}

/// A refused call changes nothing that a second call at the same instant
/// could see: the same pair called again at the same `now` is refused again,
/// and its recorded calls stay as they are.
pub proof fn lemma_refusal_is_stable(
    before: Map<(Seq<char>, Seq<char>), Seq<CallRecord>>,
    after: Map<(Seq<char>, Seq<char>), Seq<CallRecord>>,
    again: Map<(Seq<char>, Seq<char>), Seq<CallRecord>>,
    key: (Seq<char>, Seq<char>),
    is_terminal: bool,
    second_is_terminal: bool,
    now: int,
    threshold: int,
    window_seconds: int,
    second_ok: bool,
)
    requires
        registered(before, after, key, is_terminal, now, threshold, window_seconds, false),
        registered(after, again, key, second_is_terminal, now, threshold, window_seconds, second_ok),
    ensures
        !second_ok,
        calls_of(again, key) == calls_of(after, key),
{
    let start = window_start(now, window_seconds);
    lemma_filter_twice(calls_of(before, key), made_after(start));
    assert(again =~= after);
}

/// Calls age out: once every recorded call of a pair lies at or before the
/// start of the window, the next call is accepted whenever the threshold is
/// positive.
pub proof fn lemma_stale_calls_age_out(
    before: Map<(Seq<char>, Seq<char>), Seq<CallRecord>>,
    after: Map<(Seq<char>, Seq<char>), Seq<CallRecord>>,
    key: (Seq<char>, Seq<char>),
    is_terminal: bool,
    now: int,
    threshold: int,
    window_seconds: int,
    ok: bool,
)
    requires
        registered(before, after, key, is_terminal, now, threshold, window_seconds, ok),
        threshold > 0,
        forall|i: int|
            0 <= i < calls_of(before, key).len() ==> #[trigger] calls_of(before, key)[i].timestamp
                <= window_start(now, window_seconds),
    ensures
        ok,
        calls_of(after, key) == seq![CallRecord { timestamp: now as i128, is_terminal }],
{
    let start = window_start(now, window_seconds);
    let h = calls_of(before, key);
    lemma_filter_none(h, made_after(start));
    let live = live_calls(h, start);
    reveal_with_fuel(Seq::filter, 1);
    assert(non_terminal_count(live) == 0);
    assert(live.push(CallRecord { timestamp: now as i128, is_terminal }) =~= seq![
        CallRecord { timestamp: now as i128, is_terminal },
    ]);
}

/// One call of a run of a breaker: the pair, whether the call ended in a
/// terminal state, the instant it was made, and whether it was accepted.
pub struct CallStep {
    pub key: (Seq<char>, Seq<char>),
    pub is_terminal: bool,
    pub now: int,
    pub ok: bool,
}

/// `hs[k]` is the breaker's recorded calls before the call `steps[k]`: the
/// run starts from a fresh breaker, each call goes as `register_call_at`
/// says, and the clock never goes back.
pub open spec fn breaker_run(
    hs: Seq<Map<(Seq<char>, Seq<char>), Seq<CallRecord>>>,
    steps: Seq<CallStep>,
    threshold: int,
    window_seconds: int,
) -> bool {
    &&& hs.len() == steps.len() + 1
    &&& hs[0] == Map::<(Seq<char>, Seq<char>), Seq<CallRecord>>::empty()
    &&& forall|i: int|
        0 <= i < steps.len() ==> in_clock_range(#[trigger] steps[i].now) && registered(
            hs[i],
            hs[i + 1],
            steps[i].key,
            steps[i].is_terminal,
            steps[i].now,
            threshold,
            window_seconds,
            steps[i].ok,
        )
    &&& forall|i: int, j: int| 0 <= i <= j < steps.len() ==> #[trigger] steps[i].now <= #[trigger] steps[j].now
}

/// The calls of `key` among the first `k` calls of the run that were
/// accepted, in order.
pub open spec fn accepted_calls(steps: Seq<CallStep>, key: (Seq<char>, Seq<char>), k: int) -> Seq<CallRecord>
    decreases k,
{
    if k <= 0 {
        Seq::empty()
    } else {
        let prev = accepted_calls(steps, key, k - 1);
        let st = steps[k - 1];
        if st.key == key && st.ok {
            prev.push(CallRecord { timestamp: st.now as i128, is_terminal: st.is_terminal })
        } else {
            prev
        }
    }
}

/// How many of the first `k` calls of the run were accepted non-terminal
/// calls of `key` made strictly after `lo` and no later than `hi`.
pub open spec fn accepted_between(steps: Seq<CallStep>, key: (Seq<char>, Seq<char>), k: int, lo: int, hi: int) -> nat
    decreases k,
{
    if k <= 0 {
        0
    } else {
        let st = steps[k - 1];
        accepted_between(steps, key, k - 1, lo, hi) + if st.key == key && st.ok && !st.is_terminal
            && lo < st.now <= hi {
            1nat
        } else {
            0nat
        }
    }
}

/// The start of the window of the last call of `key` before the call `k`,
/// or `lo` where there is none.
pub open spec fn last_window_start(
    steps: Seq<CallStep>,
    key: (Seq<char>, Seq<char>),
    k: int,
    window_seconds: int,
    lo: int,
) -> int
    decreases k,
{
    if k <= 0 {
        lo
    } else if steps[k - 1].key == key {
        window_start(steps[k - 1].now, window_seconds)
    } else {
        last_window_start(steps, key, k - 1, window_seconds, lo)
    }
}

proof fn lemma_filter_after_twice(s: Seq<CallRecord>, a: int, b: int)
    requires
        a <= b,
    ensures
        s.filter(made_after(a)).filter(made_after(b)) == s.filter(made_after(b)),
    decreases s.len(),
{
    reveal_with_fuel(Seq::filter, 1);
    if s.len() > 0 {
        lemma_filter_after_twice(s.drop_last(), a, b);
        let f = s.drop_last().filter(made_after(a));
        if made_after(a)(s.last()) {
            f.lemma_filter_push(s.last(), made_after(b));
        }
    }
}

proof fn lemma_no_calls_no_records(steps: Seq<CallStep>, key: (Seq<char>, Seq<char>), k: int)
    requires
        forall|i: int| 0 <= i < k ==> (#[trigger] steps[i]).key != key,
    ensures
        accepted_calls(steps, key, k) == Seq::<CallRecord>::empty(),
    decreases k,
{
    if k > 0 {
        lemma_no_calls_no_records(steps, key, k - 1);
        assert(steps[k - 1].key != key);
    }
}

/// What a run's breaker records for `key` before the call `k`: the accepted
/// calls of `key`, less those not after the window start of its last call.
proof fn lemma_run_history(
    hs: Seq<Map<(Seq<char>, Seq<char>), Seq<CallRecord>>>,
    steps: Seq<CallStep>,
    threshold: int,
    window_seconds: int,
    key: (Seq<char>, Seq<char>),
    k: int,
    lo: int,
)
    requires
        breaker_run(hs, steps, threshold, window_seconds),
        window_seconds > 0,
        0 <= k <= steps.len(),
    ensures
        calls_of(hs[k], key) == accepted_calls(steps, key, k).filter(
            made_after(last_window_start(steps, key, k, window_seconds, lo)),
        ),
    decreases k,
{
    reveal_with_fuel(Seq::filter, 1);
    if k == 0 {
        assert(calls_of(hs[0], key) =~= Seq::<CallRecord>::empty());
    } else {
        let i = k - 1;
        let st = steps[i];
        lemma_run_history(hs, steps, threshold, window_seconds, key, i, lo);
        assert(in_clock_range(steps[i].now));
        let prev = accepted_calls(steps, key, i);
        let rec = CallRecord { timestamp: st.now as i128, is_terminal: st.is_terminal };
        if st.key == key {
            let s_i = window_start(st.now, window_seconds);
            let s_prev = last_window_start(steps, key, i, window_seconds, lo);
            if exists|j: int| 0 <= j < i && (#[trigger] steps[j]).key == key {
                let j = choose|j: int| 0 <= j < i && (#[trigger] steps[j]).key == key;
                lemma_last_start_at_most(steps, key, i, window_seconds, lo, j);
                assert(steps[j].now <= st.now);
                lemma_last_start_before_now(steps, key, i, window_seconds, lo, st.now);
                lemma_filter_after_twice(prev, s_prev, s_i);
            } else {
                lemma_no_calls_no_records(steps, key, i);
                assert(prev.filter(made_after(s_prev)) =~= Seq::<CallRecord>::empty());
                assert(prev.filter(made_after(s_i)) =~= Seq::<CallRecord>::empty());
            }
            let live = live_calls(calls_of(hs[i], key), s_i);
            assert(live == prev.filter(made_after(s_i)));
            if st.ok {
                prev.lemma_filter_push(rec, made_after(s_i));
                assert(calls_of(hs[k], key) == live.push(rec));
            } else {
                assert(calls_of(hs[k], key) == live);
            }
        } else {
            assert(calls_of(hs[k], key) == calls_of(hs[i], key));
        }
    }
}

/// Where some call of `key` comes before `i`, the last window start before
/// `i` is that of such a call.
proof fn lemma_last_start_at_most(
    steps: Seq<CallStep>,
    key: (Seq<char>, Seq<char>),
    i: int,
    window_seconds: int,
    lo: int,
    j: int,
)
    requires
        0 <= j < i <= steps.len(),
        steps[j].key == key,
    ensures
        exists|m: int|
            j <= m < i && (#[trigger] steps[m]).key == key && last_window_start(
                steps,
                key,
                i,
                window_seconds,
                lo,
            ) == window_start(steps[m].now, window_seconds),
    decreases i,
{
    if steps[i - 1].key == key {
        assert(steps[i - 1].key == key);
    } else {
        lemma_last_start_at_most(steps, key, i - 1, window_seconds, lo, j);
    }
}

proof fn lemma_last_start_before_now(
    steps: Seq<CallStep>,
    key: (Seq<char>, Seq<char>),
    i: int,
    window_seconds: int,
    lo: int,
    now: int,
)
    requires
        i <= steps.len(),
        forall|m: int| 0 <= m < i ==> (#[trigger] steps[m]).now <= now,
        exists|m: int| 0 <= m < i && (#[trigger] steps[m]).key == key,
    ensures
        last_window_start(steps, key, i, window_seconds, lo) <= window_start(now, window_seconds),
    decreases i,
{
    if steps[i - 1].key == key {
        assert(steps[i - 1].now <= now);
    } else {
        let m = choose|m: int| 0 <= m < i && (#[trigger] steps[m]).key == key;
        assert(m < i - 1);
        lemma_last_start_before_now(steps, key, i - 1, window_seconds, lo, now);
    }
}

/// How many of the first `k` calls of the run were accepted non-terminal
/// calls of `key` made strictly after `lo`.
pub open spec fn accepted_after(steps: Seq<CallStep>, key: (Seq<char>, Seq<char>), k: int, lo: int) -> nat
    decreases k,
{
    if k <= 0 {
        0
    } else {
        let st = steps[k - 1];
        accepted_after(steps, key, k - 1, lo) + if st.key == key && st.ok && !st.is_terminal && lo < st.now {
            1nat
        } else {
            0nat
        }
    }
}

proof fn lemma_count_accepted(
    hs: Seq<Map<(Seq<char>, Seq<char>), Seq<CallRecord>>>,
    steps: Seq<CallStep>,
    threshold: int,
    window_seconds: int,
    key: (Seq<char>, Seq<char>),
    k: int,
    lo: int,
)
    requires
        breaker_run(hs, steps, threshold, window_seconds),
        0 <= k <= steps.len(),
    ensures
        non_terminal_count(accepted_calls(steps, key, k).filter(made_after(lo))) == accepted_after(
            steps,
            key,
            k,
            lo,
        ),
    decreases k,
{
    reveal_with_fuel(Seq::filter, 1);
    if k > 0 {
        lemma_count_accepted(hs, steps, threshold, window_seconds, key, k - 1, lo);
        let st = steps[k - 1];
        assert(in_clock_range(steps[k - 1].now));
        let prev = accepted_calls(steps, key, k - 1);
        let rec = CallRecord { timestamp: st.now as i128, is_terminal: st.is_terminal };
        if st.key == key && st.ok {
            prev.lemma_filter_push(rec, made_after(lo));
            if made_after(lo)(rec) {
                prev.filter(made_after(lo)).lemma_filter_push(rec, non_terminal());
            }
        }
    }
}

proof fn lemma_between_at_most_after(steps: Seq<CallStep>, key: (Seq<char>, Seq<char>), k: int, lo: int, hi: int)
    ensures
        accepted_between(steps, key, k, lo, hi) <= accepted_after(steps, key, k, lo),
    decreases k,
{
    if k > 0 {
        lemma_between_at_most_after(steps, key, k - 1, lo, hi);
    }
}

proof fn lemma_after_monotone(steps: Seq<CallStep>, key: (Seq<char>, Seq<char>), k: int, lo: int, lo2: int)
    requires
        lo <= lo2,
    ensures
        accepted_after(steps, key, k, lo2) <= accepted_after(steps, key, k, lo),
    decreases k,
{
    if k > 0 {
        lemma_after_monotone(steps, key, k - 1, lo, lo2);
    }
}

proof fn lemma_empty_interval(steps: Seq<CallStep>, key: (Seq<char>, Seq<char>), k: int, lo: int, hi: int)
    requires
        hi <= lo,
    ensures
        accepted_between(steps, key, k, lo, hi) == 0,
    decreases k,
{
    if k > 0 {
        lemma_empty_interval(steps, key, k - 1, lo, hi);
    }
}

proof fn lemma_none_after(steps: Seq<CallStep>, key: (Seq<char>, Seq<char>), k: int, lo: int)
    requires
        forall|i: int|
            0 <= i < k && (#[trigger] steps[i]).key == key && steps[i].ok && !steps[i].is_terminal
                ==> steps[i].now <= lo,
    ensures
        accepted_after(steps, key, k, lo) == 0,
    decreases k,
{
    if k > 0 {
        lemma_none_after(steps, key, k - 1, lo);
        let st = steps[k - 1];
        if st.key == key && st.ok && !st.is_terminal {
            assert(steps[k - 1].now <= lo);
        }
    }
}

/// Within a run, whether a call is accepted depends only on the accepted
/// non-terminal calls of its own pair made inside its window: the call is
/// accepted exactly when they are fewer than the threshold. Refused calls,
/// terminal calls and other pairs leave no trace on the outcome.
pub proof fn lemma_outcome_from_accepted_calls(
    hs: Seq<Map<(Seq<char>, Seq<char>), Seq<CallRecord>>>,
    steps: Seq<CallStep>,
    threshold: int,
    window_seconds: int,
    k: int,
)
    requires
        breaker_run(hs, steps, threshold, window_seconds),
        0 <= k < steps.len(),
    ensures
        steps[k].ok <==> accepted_after(
            steps,
            steps[k].key,
            k,
            window_start(steps[k].now, window_seconds),
        ) < threshold,
{
    if window_seconds > 0 {
        lemma_outcome_positive_window(hs, steps, threshold, window_seconds, k);
    } else {
        lemma_outcome_empty_window(hs, steps, threshold, window_seconds, k);
    }
}

/// Every call that a run's breaker records before the call `k` was made no
/// later than `t`, where no earlier call was made after `t`.
proof fn lemma_records_not_after(
    hs: Seq<Map<(Seq<char>, Seq<char>), Seq<CallRecord>>>,
    steps: Seq<CallStep>,
    threshold: int,
    window_seconds: int,
    k: int,
    t: int,
)
    requires
        breaker_run(hs, steps, threshold, window_seconds),
        0 <= k <= steps.len(),
        forall|i: int| 0 <= i < k ==> (#[trigger] steps[i]).now <= t,
    ensures
        forall|key: (Seq<char>, Seq<char>), j: int|
            0 <= j < calls_of(hs[k], key).len() ==> #[trigger] calls_of(hs[k], key)[j].timestamp <= t,
    decreases k,
{
    if k > 0 {
        let i = k - 1;
        lemma_records_not_after(hs, steps, threshold, window_seconds, i, t);
        let st = steps[i];
        assert(in_clock_range(steps[i].now));
        assert(steps[i].now <= t);
        let old_calls = calls_of(hs[i], st.key);
        let live = live_calls(old_calls, window_start(st.now, window_seconds));
        assert forall|j: int| 0 <= j < live.len() implies #[trigger] live[j].timestamp <= t by {
            assert(live.contains(live[j]));
            old_calls.lemma_filter_contains_rev(made_after(window_start(st.now, window_seconds)), live[j]);
            let m = choose|m: int| 0 <= m < old_calls.len() && old_calls[m] == live[j];
            assert(old_calls[m].timestamp <= t);
        }
        assert forall|key: (Seq<char>, Seq<char>), j: int|
            0 <= j < calls_of(hs[k], key).len() implies #[trigger] calls_of(hs[k], key)[j].timestamp <= t by {
            if key == st.key {
                if st.ok {
                    let rec = CallRecord { timestamp: st.now as i128, is_terminal: st.is_terminal };
                    assert(calls_of(hs[k], key) == live.push(rec));
                    if j < live.len() {
                        assert(calls_of(hs[k], key)[j] == live[j]);
                    }
                } else {
                    assert(calls_of(hs[k], key) == live);
                }
            } else {
                assert(calls_of(hs[k], key) == calls_of(hs[i], key));
            }
        }
    }
}

/// With a window of no positive length, nothing recorded is inside the window
/// of a later call, and no earlier call is counted: a call is accepted exactly
/// when the threshold is positive.
proof fn lemma_outcome_empty_window(
    hs: Seq<Map<(Seq<char>, Seq<char>), Seq<CallRecord>>>,
    steps: Seq<CallStep>,
    threshold: int,
    window_seconds: int,
    k: int,
)
    requires
        breaker_run(hs, steps, threshold, window_seconds),
        window_seconds <= 0,
        0 <= k < steps.len(),
    ensures
        steps[k].ok <==> accepted_after(
            steps,
            steps[k].key,
            k,
            window_start(steps[k].now, window_seconds),
        ) < threshold,
{
    let st = steps[k];
    let s_k = window_start(st.now, window_seconds);
    assert(s_k >= st.now) by (nonlinear_arith)
        requires
            window_seconds <= 0,
            s_k == st.now - window_seconds * 1_000_000_000,
    ;
    assert forall|i: int| 0 <= i < k implies (#[trigger] steps[i]).now <= st.now by {
        assert(steps[i].now <= steps[k].now);
    }
    lemma_records_not_after(hs, steps, threshold, window_seconds, k, st.now);
    let h = calls_of(hs[k], st.key);
    let live = live_calls(h, s_k);
    if live.len() > 0 {
        assert(live.contains(live[0]));
        h.filter_lemma(made_after(s_k));
        h.lemma_filter_contains_rev(made_after(s_k), live[0]);
        let m = choose|m: int| 0 <= m < h.len() && h[m] == live[0];
        assert(h[m].timestamp <= st.now);
        assert(false);
    }
    assert(live.filter(non_terminal()).len() == 0) by {
        live.lemma_filter_len(non_terminal());
    }
    lemma_none_after(steps, st.key, k, s_k);
}

/// `lemma_outcome_from_accepted_calls` where the window has a positive length.
proof fn lemma_outcome_positive_window(
    hs: Seq<Map<(Seq<char>, Seq<char>), Seq<CallRecord>>>,
    steps: Seq<CallStep>,
    threshold: int,
    window_seconds: int,
    k: int,
)
    requires
        breaker_run(hs, steps, threshold, window_seconds),
        window_seconds > 0,
        0 <= k < steps.len(),
    ensures
        steps[k].ok <==> accepted_after(
            steps,
            steps[k].key,
            k,
            window_start(steps[k].now, window_seconds),
        ) < threshold,
{
    let st = steps[k];
    let key = st.key;
    let s_k = window_start(st.now, window_seconds);
    let lo = s_k;
    lemma_run_history(hs, steps, threshold, window_seconds, key, k, lo);
    assert(in_clock_range(steps[k].now));
    let prev = accepted_calls(steps, key, k);
    let s_prev = last_window_start(steps, key, k, window_seconds, lo);
    if exists|j: int| 0 <= j < k && (#[trigger] steps[j]).key == key {
        let j = choose|j: int| 0 <= j < k && (#[trigger] steps[j]).key == key;
        lemma_last_start_at_most(steps, key, k, window_seconds, lo, j);
        assert forall|m: int| 0 <= m < k implies (#[trigger] steps[m]).now <= st.now by {
            assert(steps[m].now <= steps[k].now);
        }
        lemma_last_start_before_now(steps, key, k, window_seconds, lo, st.now);
        lemma_filter_after_twice(prev, s_prev, s_k);
    } else {
        lemma_no_calls_no_records(steps, key, k);
        reveal_with_fuel(Seq::filter, 1);
        assert(prev.filter(made_after(s_prev)) =~= Seq::<CallRecord>::empty());
        assert(prev.filter(made_after(s_k)) =~= Seq::<CallRecord>::empty());
    }
    assert(live_calls(calls_of(hs[k], key), s_k) == prev.filter(made_after(s_k)));
    lemma_count_accepted(hs, steps, threshold, window_seconds, key, k, s_k);
}

/// Over a whole run of a breaker, in any window of its length, at most
/// `threshold` non-terminal calls of a pair are accepted.
pub proof fn lemma_window_limit(
    hs: Seq<Map<(Seq<char>, Seq<char>), Seq<CallRecord>>>,
    steps: Seq<CallStep>,
    threshold: int,
    window_seconds: int,
    key: (Seq<char>, Seq<char>),
    t: int,
)
    requires
        breaker_run(hs, steps, threshold, window_seconds),
        threshold >= 0,
    ensures
        accepted_between(steps, key, steps.len() as int, window_start(t, window_seconds), t)
            <= threshold,
{
    lemma_window_limit_upto(hs, steps, threshold, window_seconds, key, t, steps.len() as int);
}

proof fn lemma_window_limit_upto(
    hs: Seq<Map<(Seq<char>, Seq<char>), Seq<CallRecord>>>,
    steps: Seq<CallStep>,
    threshold: int,
    window_seconds: int,
    key: (Seq<char>, Seq<char>),
    t: int,
    k: int,
)
    requires
        breaker_run(hs, steps, threshold, window_seconds),
        threshold >= 0,
        0 <= k <= steps.len(),
    ensures
        accepted_between(steps, key, k, window_start(t, window_seconds), t) <= threshold,
    decreases k,
{
    let lo = window_start(t, window_seconds);
    if window_seconds <= 0 {
        lemma_empty_interval(steps, key, k, lo, t);
    } else if k > 0 {
        let i = k - 1;
        let st = steps[i];
        lemma_window_limit_upto(hs, steps, threshold, window_seconds, key, t, i);
        if st.key == key && st.ok && !st.is_terminal && lo < st.now <= t {
            lemma_outcome_from_accepted_calls(hs, steps, threshold, window_seconds, i);
            lemma_between_at_most_after(steps, key, i, lo, t);
            lemma_after_monotone(steps, key, i, window_start(st.now, window_seconds), lo);
        }
    }
}

/// A pair is allowed again once none of its accepted non-terminal calls lies
/// inside the window of the new call, however many calls were refused
/// meanwhile.
pub proof fn lemma_allowed_again(
    hs: Seq<Map<(Seq<char>, Seq<char>), Seq<CallRecord>>>,
    steps: Seq<CallStep>,
    threshold: int,
    window_seconds: int,
    k: int,
)
    requires
        breaker_run(hs, steps, threshold, window_seconds),
        threshold >= 1,
        0 <= k < steps.len(),
        forall|i: int|
            0 <= i < k && (#[trigger] steps[i]).key == steps[k].key && steps[i].ok
                && !steps[i].is_terminal ==> steps[i].now <= window_start(steps[k].now, window_seconds),
    ensures
        steps[k].ok,
{
    lemma_none_after(steps, steps[k].key, k, window_start(steps[k].now, window_seconds));
    lemma_outcome_from_accepted_calls(hs, steps, threshold, window_seconds, k);
}

/// The two calls are the same call: same pair, same terminal state, same
/// instant.
pub open spec fn same_call(a: CallStep, b: CallStep) -> bool {
    a.key == b.key && a.is_terminal == b.is_terminal && a.now == b.now
}

/// `steps2` is `steps` with the call `r` left out, as far as the calls go
/// (their outcomes are free).
pub open spec fn without_call(steps: Seq<CallStep>, steps2: Seq<CallStep>, r: int) -> bool {
    &&& 0 <= r < steps.len()
    &&& steps2.len() + 1 == steps.len()
    &&& forall|i: int| 0 <= i < r ==> same_call(#[trigger] steps2[i], steps[i])
    &&& forall|i: int| r <= i < steps2.len() ==> same_call(#[trigger] steps2[i], steps[i + 1])
}

/// The position in `steps` of the call `i` of `steps2`.
pub open spec fn position_with(r: int, i: int) -> int {
    if i < r {
        i
    } else {
        i + 1
    }
}

proof fn lemma_after_agrees(
    steps: Seq<CallStep>,
    steps2: Seq<CallStep>,
    r: int,
    key: (Seq<char>, Seq<char>),
    k: int,
    lo: int,
)
    requires
        without_call(steps, steps2, r),
        !steps[r].ok,
        0 <= k <= steps2.len(),
        forall|i: int| 0 <= i < k ==> (#[trigger] steps2[i]).ok == steps[position_with(r, i)].ok,
    ensures
        accepted_after(steps2, key, k, lo) == accepted_after(
            steps,
            key,
            if k <= r { k } else { k + 1 },
            lo,
        ),
    decreases k,
{
    if k > 0 {
        lemma_after_agrees(steps, steps2, r, key, k - 1, lo);
        let i = k - 1;
        assert(steps2[i].ok == steps[position_with(r, i)].ok);
        if i < r {
            assert(same_call(steps2[i], steps[i]));
        } else {
            assert(same_call(steps2[i], steps[i + 1]));
            if i == r {
                assert(accepted_after(steps, key, r + 1, lo) == accepted_after(steps, key, r, lo));
            }
        }
    }
}

proof fn lemma_outcomes_agree_upto(
    hs: Seq<Map<(Seq<char>, Seq<char>), Seq<CallRecord>>>,
    steps: Seq<CallStep>,
    hs2: Seq<Map<(Seq<char>, Seq<char>), Seq<CallRecord>>>,
    steps2: Seq<CallStep>,
    threshold: int,
    window_seconds: int,
    r: int,
    m: int,
)
    requires
        breaker_run(hs, steps, threshold, window_seconds),
        breaker_run(hs2, steps2, threshold, window_seconds),
        without_call(steps, steps2, r),
        !steps[r].ok,
        0 <= m <= steps2.len(),
    ensures
        forall|i: int| 0 <= i < m ==> (#[trigger] steps2[i]).ok == steps[position_with(r, i)].ok,
    decreases m,
{
    if m > 0 {
        let i = m - 1;
        lemma_outcomes_agree_upto(hs, steps, hs2, steps2, threshold, window_seconds, r, i);
        let p = position_with(r, i);
        assert(same_call(steps2[i], steps[p]));
        lemma_outcome_from_accepted_calls(hs2, steps2, threshold, window_seconds, i);
        lemma_outcome_from_accepted_calls(hs, steps, threshold, window_seconds, p);
        lemma_after_agrees(
            steps,
            steps2,
            r,
            steps2[i].key,
            i,
            window_start(steps2[i].now, window_seconds),
        );
    }
}

/// A refused call leaves no trace: in the run where it is left out, every
/// other call has the same outcome.
pub proof fn lemma_refusal_leaves_no_trace(
    hs: Seq<Map<(Seq<char>, Seq<char>), Seq<CallRecord>>>,
    steps: Seq<CallStep>,
    hs2: Seq<Map<(Seq<char>, Seq<char>), Seq<CallRecord>>>,
    steps2: Seq<CallStep>,
    threshold: int,
    window_seconds: int,
    r: int,
)
    requires
        breaker_run(hs, steps, threshold, window_seconds),
        breaker_run(hs2, steps2, threshold, window_seconds),
        without_call(steps, steps2, r),
        !steps[r].ok,
    ensures
        forall|i: int| 0 <= i < r ==> (#[trigger] steps2[i]).ok == steps[i].ok,
        forall|i: int| r <= i < steps2.len() ==> (#[trigger] steps2[i]).ok == steps[i + 1].ok,
{
    lemma_outcomes_agree_upto(hs, steps, hs2, steps2, threshold, window_seconds, r, steps2.len() as int);
    assert forall|i: int| 0 <= i < r implies (#[trigger] steps2[i]).ok == steps[i].ok by {
        assert(steps2[i].ok == steps[position_with(r, i)].ok);
    }
    assert forall|i: int| r <= i < steps2.len() implies (#[trigger] steps2[i]).ok == steps[i + 1].ok by {
        assert(steps2[i].ok == steps[position_with(r, i)].ok);
    }
}

} // verus!
