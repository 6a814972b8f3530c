//! A circuit breaker plugin with exponential backoff: each non-terminal call
//! between a pair of agents raises the pair's count; at the fifth the breaker
//! trips and records the instant, and calls are then refused for 2^count
//! seconds after it. A terminal call or a reset clears the pair.

use vstd::prelude::*;
use vstd::string::StringExecFns;
use vstd::arithmetic::power2::{pow2, lemma2_to64, lemma2_to64_rest, lemma_pow2_unfold, lemma_pow2_strictly_increases};
use crate::clock::{in_clock_range, NANOS_PER_SEC};
use crate::table::KeyedTable;
use crate::breaker::AgentCall;
use crate::plugins::{PluginMetadata, MetadataView, copy_strings};

verus! {

/// The count of non-terminal calls at which the breaker trips.
pub const TRIP_COUNT: usize = 5;

/// The largest whole number of seconds in a `chrono::TimeDelta`.
pub open spec fn max_delta_seconds() -> int {
    9_223_372_036_854_775
}

/// The name under which this plugin registers.
pub open spec fn backoff_plugin_name() -> Seq<char> {
    "exponential_backoff"@
}

/// The description of the built-in exponential-backoff breaker.
pub open spec fn backoff_description() -> MetadataView {
    MetadataView {
        name: backoff_plugin_name(),
        version: "1.0.0"@,
        description: "Circuit breaker with exponential backoff"@,
        author: "Halt.rs Team"@,
        capabilities: seq!["circuit_breaker"@],
    }
}

/// The text under which the statistics report the pair `from`, `to`.
pub open spec fn pair_text(from: Seq<char>, to: Seq<char>) -> Seq<char> {
    from + "->"@ + to
}

/// The count of `key`, zero where it has none.
pub open spec fn count_of(counts: Map<(Seq<char>, Seq<char>), usize>, key: (Seq<char>, Seq<char>)) -> nat {
    if counts.contains_key(key) {
        counts[key] as nat
    } else {
        0
    }
}

/// Whether calls on `key` are refused at `now`: the pair has calls counted,
/// has tripped, and `now` is before the trip plus 2^count seconds.
pub open spec fn backoff_active(
    counts: Map<(Seq<char>, Seq<char>), usize>,
    trips: Map<(Seq<char>, Seq<char>), i128>,
    key: (Seq<char>, Seq<char>),
    now: int,
) -> bool {
    &&& count_of(counts, key) > 0
    &&& trips.contains_key(key)
    &&& now < trips[key] + pow2(count_of(counts, key)) * 1_000_000_000
}

/// The backoff of `key` can be computed: 2^count fits in `u64`, and where the
/// pair has tripped it fits in a `chrono::TimeDelta`.
pub open spec fn backoff_in_range(
    counts: Map<(Seq<char>, Seq<char>), usize>,
    trips: Map<(Seq<char>, Seq<char>), i128>,
    key: (Seq<char>, Seq<char>),
) -> bool {
    &&& count_of(counts, key) > 0 ==> count_of(counts, key) < 64
    &&& count_of(counts, key) > 0 && trips.contains_key(key) ==> pow2(count_of(counts, key))
        <= max_delta_seconds()
}

/// The outcome of registering a call on `key` at `now`: a non-terminal call
/// raises the count by one and, from the trip count on, records `now` as the
/// trip and is refused (`ok` false); a terminal call clears the pair.
pub open spec fn backoff_registered(
    counts: Map<(Seq<char>, Seq<char>), usize>,
    trips: Map<(Seq<char>, Seq<char>), i128>,
    new_counts: Map<(Seq<char>, Seq<char>), usize>,
    new_trips: Map<(Seq<char>, Seq<char>), i128>,
    key: (Seq<char>, Seq<char>),
    is_terminal: bool,
    now: int,
    ok: bool,
) -> bool {
    if is_terminal {
        &&& ok
        &&& new_counts == counts.remove(key)
        &&& new_trips == trips.remove(key)
    } else {
        let c = count_of(counts, key) + 1;
        &&& new_counts == counts.insert(key, c as usize)
        &&& ok <==> c < 5
        &&& ok ==> new_trips == trips
        &&& !ok ==> new_trips == trips.insert(key, now as i128)
    }
}

/// The message of a call refused during backoff.
pub open spec fn backoff_message() -> Seq<char> {
    "Circuit breaker tripped - exponential backoff active"@
}

/// The message of a call that trips the breaker.
pub open spec fn trip_message() -> Seq<char> {
    "Circuit breaker tripped"@
}

/// The pair of agents `from`, `to`, as a table key.
fn make_pair_key(from: &str, to: &str) -> (k: AgentCall)
    ensures
        k@ == (from@, to@),
{
    AgentCall { from: String::from_str(from), to: String::from_str(to) }
}

/// 2 to the power `n`.
fn pow2_u64(n: usize) -> (p: u64)
    requires
        n < 64,
    ensures
        p == pow2(n as nat),
{
    proof {
        lemma2_to64();
        lemma2_to64_rest();
    }
    let mut p: u64 = 1;
    let mut i: usize = 0;
    while i < n
        invariant
            i <= n < 64,
            p == pow2(i as nat),
            pow2(63) == 0x8000000000000000,
        decreases n - i,
    {
        proof {
            lemma_pow2_unfold((i + 1) as nat);
            if i + 1 < 63 {
                lemma_pow2_strictly_increases((i + 1) as nat, 63);
            }
        }
        p = p * 2;
        i = i + 1;
    }
    p
}

/// The reported entry `e` stands for the pair `p` and its count.
pub open spec fn reports(
    e: (String, usize),
    p: (Seq<char>, Seq<char>),
    counts: Map<(Seq<char>, Seq<char>), usize>,
) -> bool {
    &&& counts.contains_key(p)
    &&& e.0@ == pair_text(p.0, p.1)
    &&& e.1 == counts[p]
}

/// The reported entry `e` stands for some counted pair and its count.
pub open spec fn reports_some_pair(e: (String, usize), counts: Map<(Seq<char>, Seq<char>), usize>) -> bool {
    exists|p: (Seq<char>, Seq<char>)| reports(e, p, counts)
}

/// The counts of a breaker, for reporting.
pub struct BreakerStats {
    /// How many pairs have calls counted.
    pub active_breakers: usize,
    /// Each counted pair's key with its count.
    pub call_counts: Vec<(String, usize)>,
}

/// A circuit breaker plugin with exponential backoff.
pub struct ExponentialBackoffBreaker {
    metadata: PluginMetadata,
    call_counts: KeyedTable<AgentCall, usize>,
    last_reset: KeyedTable<AgentCall, i128>,
}

impl ExponentialBackoffBreaker {
    /// The count of non-terminal calls of each pair key.
    pub closed spec fn counts(&self) -> Map<(Seq<char>, Seq<char>), usize> {
        self.call_counts.view()
    }

    /// The instant of the last trip of each pair key.
    pub closed spec fn trips(&self) -> Map<(Seq<char>, Seq<char>), i128> {
        self.last_reset.view()
    }

    /// The plugin's description.
    pub closed spec fn description(&self) -> MetadataView {
        self.metadata.deep_view()
    }

    /// The tables are well formed and every trip lies in the clock's range.
    pub closed spec fn wf(&self) -> bool {
        &&& self.call_counts.wf()
        &&& self.last_reset.wf()
        &&& forall|k: (Seq<char>, Seq<char>)| #[trigger]
            self.last_reset.view().contains_key(k) ==> in_clock_range(
                self.last_reset.view()[k] as int,
            )
    }

    /// A breaker with no calls counted.
    pub fn new() -> (b: Self)
        ensures
            b.wf(),
            b.counts().is_empty(),
            b.trips().is_empty(),
            b.description() == backoff_description(),
    {
        let mut capabilities: Vec<String> = Vec::new();
        capabilities.push(String::from_str("circuit_breaker"));
        let metadata = PluginMetadata {
            name: String::from_str("exponential_backoff"),
            version: String::from_str("1.0.0"),
            description: String::from_str("Circuit breaker with exponential backoff"),
            author: String::from_str("Halt.rs Team"),
            capabilities,
        };
        assert(metadata.capabilities.deep_view() =~= seq!["circuit_breaker"@]);
        ExponentialBackoffBreaker {
            metadata,
            call_counts: KeyedTable::new(),
            last_reset: KeyedTable::new(),
        }
    }

    /// A copy of the plugin's description.
    pub fn metadata(&self) -> (m: PluginMetadata)
        ensures
            m.deep_view() == self.description(),
    {
        self.metadata.clone()
    }

    /// The count of non-terminal calls from `from` to `to`.
    pub fn call_count(&self, from: &str, to: &str) -> (n: usize)
        requires
            self.wf(),
        ensures
            n == count_of(self.counts(), (from@, to@)),
    {
        let key = make_pair_key(from, to);
        match self.call_counts.get(&key) {
            Some(c) => *c,
            None => 0,
        }
    }

    /// Whether the backoff of the pair `from`, `to` can be computed, as a
    /// check on the pair needs.
    pub fn backoff_computable(&self, from: &str, to: &str) -> (b: bool)
        requires
            self.wf(),
        ensures
            b == backoff_in_range(self.counts(), self.trips(), (from@, to@)),
    {
        let key = make_pair_key(from, to);
        let count: usize = match self.call_counts.get(&key) {
            Some(c) => *c,
            None => 0,
        };
        if count == 0 {
            return true;
        }
        if count >= 64 {
            return false;
        }
        match self.last_reset.get(&key) {
            Some(_) => {
                let seconds = pow2_u64(count);
                seconds <= 9_223_372_036_854_775
            },
            None => true,
        }
    }

    /// Whether a call from `from` to `to` at `now` is allowed: refused while
    /// the pair's backoff is active.
    pub fn check_call_at(&self, from: &str, to: &str, now: i128) -> (r: Result<(), String>)
        requires
            self.wf(),
            in_clock_range(now as int),
            backoff_in_range(self.counts(), self.trips(), (from@, to@)),
        ensures
            r is Err <==> backoff_active(self.counts(), self.trips(), (from@, to@), now as int),
            r matches Err(e) ==> e@ == backoff_message(),
            r matches Err(e) ==> e@ == "Circuit breaker tripped - exponential backoff active"@,
            !self.trips().contains_key((from@, to@)) ==> r is Ok,
            !self.counts().contains_key((from@, to@)) || self.counts()[(from@, to@)] == 0 ==> r is Ok,
            self.trips().contains_key((from@, to@)) && self.counts().contains_key((from@, to@))
                && self.counts()[(from@, to@)] > 0 ==> (r is Err <==> now < self.trips()[(from@, to@)]
                + pow2(self.counts()[(from@, to@)] as nat) * 1_000_000_000),
    {
        proof {
            lemma_refused_only_during_backoff(self.counts(), self.trips(), (from@, to@), now as int);
        }
        let key = make_pair_key(from, to);
        let count: usize = match self.call_counts.get(&key) {
            Some(c) => *c,
            None => 0,
        };
        if count > 0 {
            let seconds = pow2_u64(count);
            match self.last_reset.get(&key) {
                Some(last) => {
                    let deadline: i128 = *last + (seconds as i128) * NANOS_PER_SEC;
                    if now < deadline {
                        return Err(String::from_str("Circuit breaker tripped - exponential backoff active"));
                    }
                },
                None => {},
            }
        }
        Ok(())
    }

    /// Registers a call from `from` to `to` made at `now`: a non-terminal call
    /// raises the pair's count and, from the fifth on, trips the breaker; a
    /// terminal call clears the pair.
    pub fn register_call_at(&mut self, from: &str, to: &str, is_terminal: bool, now: i128) -> (r:
        Result<(), String>)
        requires
            old(self).wf(),
            in_clock_range(now as int),
            !is_terminal ==> count_of(old(self).counts(), (from@, to@)) < usize::MAX,
        ensures
            final(self).wf(),
            final(self).description() == old(self).description(),
            backoff_registered(
                old(self).counts(),
                old(self).trips(),
                final(self).counts(),
                final(self).trips(),
                (from@, to@),
                is_terminal,
                now as int,
                r is Ok,
            ),
            r matches Err(e) ==> e@ == trip_message(),
            r matches Err(e) ==> e@ == "Circuit breaker tripped"@,
            is_terminal ==> {
                &&& r is Ok
                &&& final(self).counts() == old(self).counts().remove((from@, to@))
                &&& final(self).trips() == old(self).trips().remove((from@, to@))
            },
            !is_terminal ==> ({
                let k = (from@, to@);
                let c = (if old(self).counts().contains_key(k) { old(self).counts()[k] as int } else { 0 }) + 1;
                &&& final(self).counts() == old(self).counts().insert(k, c as usize)
                &&& (r is Ok <==> c < 5)
                &&& r is Ok ==> final(self).trips() == old(self).trips()
                &&& r is Err ==> final(self).trips() == old(self).trips().insert(k, now)
            }),
    {
        proof {
            lemma_registration_effect(old(self).counts(), old(self).trips(), (from@, to@), is_terminal, now as int);
        }
        let key = make_pair_key(from, to);
        if !is_terminal {
            let count: usize = match self.call_counts.get(&key) {
                Some(c) => *c,
                None => 0,
            };
            let count = count + 1;
            self.call_counts.insert(make_pair_key(from, to), count);
            if count >= TRIP_COUNT {
                self.last_reset.insert(key, now);
                return Err(String::from_str("Circuit breaker tripped"));
            }
        } else {
            self.call_counts.remove(&key);
            self.last_reset.remove(&key);
        }
        Ok(())
    }

    /// Clears the count and the trip of the pair `from`, `to`.
    pub fn reset(&mut self, from: &str, to: &str) -> (r: Result<(), String>)
        requires
            old(self).wf(),
        ensures
            final(self).wf(),
            final(self).description() == old(self).description(),
            r is Ok,
            final(self).counts() == old(self).counts().remove((from@, to@)),
            final(self).trips() == old(self).trips().remove((from@, to@)),
    {
        let key = make_pair_key(from, to);
        self.call_counts.remove(&key);
        self.last_reset.remove(&key);
        Ok(())
    }

    /// The number of pairs with calls counted, and each pair, as the text
    /// `from->to`, with its count.
    pub fn stats(&self) -> (s: BreakerStats)
        requires
            self.wf(),
        ensures
            s.active_breakers == self.counts().len(),
            s.call_counts.len() == self.counts().len(),
            forall|i: int|
                0 <= i < s.call_counts.len() ==> #[trigger] reports_some_pair(
                    s.call_counts[i],
                    self.counts(),
                ),
            forall|p: (Seq<char>, Seq<char>)| #[trigger]
                self.counts().contains_key(p) ==> exists|i: int|
                    0 <= i < s.call_counts.len() && #[trigger] reports(s.call_counts[i], p, self.counts()),
    {
        let entries = self.call_counts.entries();
        let mut out: Vec<(String, usize)> = Vec::new();
        let mut i: usize = 0;
        while i < entries.len()
            invariant
                self.wf(),
                entries.len() == self.counts().len(),
                forall|j: int|
                    0 <= j < entries.len() ==> self.counts().contains_key(#[trigger] entries[j].0@)
                        && entries[j].1 == self.counts()[entries[j].0@],
                i <= entries@.len(),
                out@.len() == i,
                forall|j: int|
                    0 <= j < i ==> (#[trigger] out@[j]).0@ == pair_text(entries@[j].0.from@, entries@[j].0.to@)
                        && out@[j].1 == entries@[j].1,
            decreases entries@.len() - i,
        {
            let key = &entries[i].0;
            let text = String::from_str(key.from.as_str());
            let text = text.concat("->");
            let text = text.concat(key.to.as_str());
            let count = entries[i].1;
            out.push((text, count));
            i = i + 1;
        }
        let n = self.call_counts.len();
        proof {
            assert forall|j: int| 0 <= j < out.len() implies exists|p: (Seq<char>, Seq<char>)|
                reports(#[trigger] out[j], p, self.counts()) by {
                let p = entries@[j].0@;
                assert(self.counts().contains_key(entries[j].0@));
                assert(reports(out[j], p, self.counts()));
            }
            assert forall|p: (Seq<char>, Seq<char>)| #[trigger]
                self.counts().contains_key(p) implies exists|j: int|
                0 <= j < out.len() && #[trigger] reports(out[j], p, self.counts()) by {
                let j = choose|j: int| 0 <= j < entries.len() && entries[j].0@ == p;
                assert(self.counts().contains_key(entries[j].0@));
                assert(reports(out[j], p, self.counts()));
            }
        }
        let result = BreakerStats { active_breakers: n, call_counts: out };
        proof {
            assert forall|j: int| 0 <= j < result.call_counts.len() implies #[trigger] reports_some_pair(
                result.call_counts[j],
                self.counts(),
            ) by {
                assert(result.call_counts[j] == out[j]);
                let p = entries@[j].0@;
                assert(reports(out[j], p, self.counts()));
            }
            assert forall|p: (Seq<char>, Seq<char>)| #[trigger]
                self.counts().contains_key(p) implies exists|j: int|
                0 <= j < result.call_counts.len() && #[trigger] reports(result.call_counts[j], p, self.counts()) by {
                let j = choose|j: int| 0 <= j < out.len() && #[trigger] reports(out[j], p, self.counts());
                assert(result.call_counts[j] == out[j]);
            }
        }
        result
    }
}

/// The statistics name the pair `from`, `to` by `from`, the two characters
/// `-` and `>`, then `to`.
pub proof fn lemma_pair_text_joins_with_arrow(from: Seq<char>, to: Seq<char>)
    ensures
        pair_text(from, to).len() == from.len() + 2 + to.len(),
        pair_text(from, to).subrange(0, from.len() as int) == from,
        pair_text(from, to)[from.len() as int] == '-',
        pair_text(from, to)[from.len() as int + 1] == '>',
        pair_text(from, to).subrange(from.len() as int + 2, pair_text(from, to).len() as int) == to,
{
    reveal_strlit("->");
    let t = pair_text(from, to);
    assert(t.subrange(0, from.len() as int) =~= from);
    assert(t.subrange(from.len() as int + 2, t.len() as int) =~= to);
}

/// A check is refused only during a backoff: never on a pair without a
/// recorded trip or without calls counted, and on a pair with a trip at `t`
/// and a count `n > 0`, exactly while `now` is before `t` plus 2^n seconds.
pub proof fn lemma_refused_only_during_backoff(
    counts: Map<(Seq<char>, Seq<char>), usize>,
    trips: Map<(Seq<char>, Seq<char>), i128>,
    key: (Seq<char>, Seq<char>),
    now: int,
)
    ensures
        !trips.contains_key(key) ==> !backoff_active(counts, trips, key, now),
        !counts.contains_key(key) || counts[key] == 0 ==> !backoff_active(counts, trips, key, now),
        trips.contains_key(key) && counts.contains_key(key) && counts[key] > 0 ==> (backoff_active(
            counts,
            trips,
            key,
            now,
        ) <==> now < trips[key] + pow2(counts[key] as nat) * 1_000_000_000),
{
}

/// What registering a call does to the counts and trips, in terms of the
/// maps themselves: a terminal call is accepted and removes the pair's count
/// and trip; a non-terminal call sets the pair's count to one more than
/// before, is accepted exactly while that count is below five, and when
/// refused records `now` as the pair's trip. Other pairs keep their count
/// and trip.
pub proof fn lemma_registration_effect(
    counts: Map<(Seq<char>, Seq<char>), usize>,
    trips: Map<(Seq<char>, Seq<char>), i128>,
    key: (Seq<char>, Seq<char>),
    is_terminal: bool,
    now: int,
)
    ensures
        forall|new_counts: Map<(Seq<char>, Seq<char>), usize>, new_trips: Map<(Seq<char>, Seq<char>), i128>, ok: bool|
            #[trigger] backoff_registered(counts, trips, new_counts, new_trips, key, is_terminal, now, ok) ==> {
                let c = (if counts.contains_key(key) { counts[key] as int } else { 0 }) + 1;
                &&& is_terminal ==> ok && !new_counts.contains_key(key) && !new_trips.contains_key(key)
                    && new_counts == counts.remove(key) && new_trips == trips.remove(key)
                &&& !is_terminal ==> {
                    &&& new_counts == counts.insert(key, c as usize)
                    &&& c <= usize::MAX ==> new_counts[key] == c
                    &&& ok <==> c < 5
                    &&& ok ==> new_trips == trips
                    &&& !ok ==> new_trips == trips.insert(key, now as i128)
                    &&& !ok && i128::MIN <= now <= i128::MAX ==> new_trips[key] == now
                }
            },
{
}

/// A terminal call removes the pair's trip, so after it and fewer than five
/// further non-terminal calls no check on the pair is refused, at any
/// instant.
pub proof fn lemma_cleared_pair_not_refused(
    counts: Map<(Seq<char>, Seq<char>), usize>,
    trips: Map<(Seq<char>, Seq<char>), i128>,
    c1: Map<(Seq<char>, Seq<char>), usize>,
    t1: Map<(Seq<char>, Seq<char>), i128>,
    c2: Map<(Seq<char>, Seq<char>), usize>,
    t2: Map<(Seq<char>, Seq<char>), i128>,
    key: (Seq<char>, Seq<char>),
    now1: int,
    ok1: bool,
    now2: int,
    ok2: bool,
    later: int,
)
    requires
        backoff_registered(counts, trips, c1, t1, key, true, now1, ok1),
        backoff_registered(c1, t1, c2, t2, key, false, now2, ok2),
    ensures
        ok1,
        ok2,
        !t1.contains_key(key),
        !t2.contains_key(key),
        c2.contains_key(key) && c2[key] == 1,
        !backoff_active(c2, t2, key, later),
{
    lemma_registration_effect(counts, trips, key, true, now1);
    lemma_registration_effect(c1, t1, key, false, now2);
    lemma_refused_only_during_backoff(c2, t2, key, later);
}

/// A call that trips the breaker starts a backoff: from the trip on, for
/// 2^count seconds, checks on the pair are refused.
pub proof fn lemma_trip_starts_backoff(
    counts: Map<(Seq<char>, Seq<char>), usize>,
    trips: Map<(Seq<char>, Seq<char>), i128>,
    new_counts: Map<(Seq<char>, Seq<char>), usize>,
    new_trips: Map<(Seq<char>, Seq<char>), i128>,
    key: (Seq<char>, Seq<char>),
    now: int,
    later: int,
)
    requires
        in_clock_range(now),
        count_of(counts, key) < usize::MAX,
        backoff_registered(counts, trips, new_counts, new_trips, key, false, now, false),
        now <= later < now + pow2(count_of(new_counts, key)) * 1_000_000_000,
    ensures
        backoff_active(new_counts, new_trips, key, later),
        count_of(new_counts, key) >= 5,
{
}

/// A terminal call clears the pair: afterwards no check on it is refused,
/// and its count starts again from zero.
pub proof fn lemma_terminal_call_clears(
    counts: Map<(Seq<char>, Seq<char>), usize>,
    trips: Map<(Seq<char>, Seq<char>), i128>,
    new_counts: Map<(Seq<char>, Seq<char>), usize>,
    new_trips: Map<(Seq<char>, Seq<char>), i128>,
    key: (Seq<char>, Seq<char>),
    now: int,
    ok: bool,
    later: int,
)
    requires
        backoff_registered(counts, trips, new_counts, new_trips, key, true, now, ok),
    ensures
        ok,
        count_of(new_counts, key) == 0,
        !backoff_active(new_counts, new_trips, key, later),
{
}

/// After a reset no check on the pair is refused.
pub proof fn lemma_reset_clears(
    counts: Map<(Seq<char>, Seq<char>), usize>,
    trips: Map<(Seq<char>, Seq<char>), i128>,
    key: (Seq<char>, Seq<char>),
    later: int,
)
    ensures
        count_of(counts.remove(key), key) == 0,
        !backoff_active(counts.remove(key), trips.remove(key), key, later),
{
}

/// From a cleared pair, four non-terminal calls are accepted and the fifth
/// trips the breaker.
pub proof fn lemma_fifth_call_trips(
    m: Seq<Map<(Seq<char>, Seq<char>), usize>>,
    t: Seq<Map<(Seq<char>, Seq<char>), i128>>,
    key: (Seq<char>, Seq<char>),
    now: Seq<int>,
    ok: Seq<bool>,
)
    requires
        m.len() == 6,
        t.len() == 6,
        now.len() == 5,
        ok.len() == 5,
        count_of(m[0], key) == 0,
        forall|i: int|
            0 <= i < 5 ==> #[trigger] backoff_registered(
                m[i],
                t[i],
                m[i + 1],
                t[i + 1],
                key,
                false,
                now[i],
                ok[i],
            ),
    ensures
        ok[0] && ok[1] && ok[2] && ok[3],
        !ok[4],
        count_of(m[5], key) == 5,
        t[5].contains_key(key) && t[5][key] == now[4] as i128,
{
    assert(backoff_registered(m[0], t[0], m[1], t[1], key, false, now[0], ok[0]));
    assert(backoff_registered(m[1], t[1], m[2], t[2], key, false, now[1], ok[1]));
    assert(backoff_registered(m[2], t[2], m[3], t[3], key, false, now[2], ok[2]));
    assert(backoff_registered(m[3], t[3], m[4], t[4], key, false, now[3], ok[3]));
    assert(backoff_registered(m[4], t[4], m[5], t[5], key, false, now[4], ok[4]));
}

/// Registering a call or resetting changes the count and trip of its own
/// pair key only.
pub proof fn lemma_other_keys_unchanged(
    counts: Map<(Seq<char>, Seq<char>), usize>,
    trips: Map<(Seq<char>, Seq<char>), i128>,
    new_counts: Map<(Seq<char>, Seq<char>), usize>,
    new_trips: Map<(Seq<char>, Seq<char>), i128>,
    key: (Seq<char>, Seq<char>),
    other: (Seq<char>, Seq<char>),
    is_terminal: bool,
    now: int,
    ok: bool,
)
    requires
        backoff_registered(counts, trips, new_counts, new_trips, key, is_terminal, now, ok),
        other != key,
    ensures
        count_of(new_counts, other) == count_of(counts, other),
        new_trips.contains_key(other) == trips.contains_key(other),
        trips.contains_key(other) ==> new_trips[other] == trips[other],
{
}

/// A reset changes the count and the trip of its own pair only.
pub proof fn lemma_reset_leaves_other_pairs(
    counts: Map<(Seq<char>, Seq<char>), usize>,
    trips: Map<(Seq<char>, Seq<char>), i128>,
    key: (Seq<char>, Seq<char>),
    other: (Seq<char>, Seq<char>),
    later: int,
)
    requires
        other != key,
    ensures
        count_of(counts.remove(key), other) == count_of(counts, other),
        trips.remove(key).contains_key(other) == trips.contains_key(other),
        trips.contains_key(other) ==> trips.remove(key)[other] == trips[other],
        backoff_active(counts.remove(key), trips.remove(key), other, later) == backoff_active(
            counts,
            trips,
            other,
            later,
        ),
{
}

/// One operation on the backoff breaker that changes its state.
pub enum BackoffStep {
    /// A call registered on a pair.
    Register { key: (Seq<char>, Seq<char>), is_terminal: bool, now: int, ok: bool },
    /// A reset of a pair.
    Reset { key: (Seq<char>, Seq<char>) },
}

/// The operation `step` takes the breaker from `counts`, `trips` to
/// `new_counts`, `new_trips`.
pub open spec fn backoff_step(
    counts: Map<(Seq<char>, Seq<char>), usize>,
    trips: Map<(Seq<char>, Seq<char>), i128>,
    new_counts: Map<(Seq<char>, Seq<char>), usize>,
    new_trips: Map<(Seq<char>, Seq<char>), i128>,
    step: BackoffStep,
) -> bool {
    match step {
        BackoffStep::Register { key, is_terminal, now, ok } => {
            &&& !is_terminal ==> count_of(counts, key) < usize::MAX
            &&& backoff_registered(counts, trips, new_counts, new_trips, key, is_terminal, now, ok)
        },
        BackoffStep::Reset { key } => new_counts == counts.remove(key) && new_trips == trips.remove(key),
    }
}

/// The operation clears `key`: a terminal call on it, or its reset.
pub open spec fn clears(step: BackoffStep, key: (Seq<char>, Seq<char>)) -> bool {
    match step {
        BackoffStep::Register { key: k, is_terminal, .. } => k == key && is_terminal,
        BackoffStep::Reset { key: k } => k == key,
    }
}

proof fn lemma_count_stays_tripped(
    cs: Seq<Map<(Seq<char>, Seq<char>), usize>>,
    ts: Seq<Map<(Seq<char>, Seq<char>), i128>>,
    steps: Seq<BackoffStep>,
    key: (Seq<char>, Seq<char>),
    i: int,
    j: int,
)
    requires
        cs.len() == steps.len() + 1,
        ts.len() == steps.len() + 1,
        forall|k: int| 0 <= k < steps.len() ==> backoff_step(cs[k], ts[k], cs[k + 1], ts[k + 1], #[trigger] steps[k]),
        0 <= i < j <= steps.len(),
        steps[i] matches BackoffStep::Register { key: k, is_terminal, ok, .. } && k == key && !is_terminal && !ok,
        forall|k: int| i < k < j ==> !clears(#[trigger] steps[k], key),
    ensures
        count_of(cs[j], key) >= 5,
    decreases j - i,
{
    assert(backoff_step(cs[j - 1], ts[j - 1], cs[j], ts[j], steps[j - 1]));
    if j - 1 > i {
        lemma_count_stays_tripped(cs, ts, steps, key, i, j - 1);
        assert(!clears(steps[j - 1], key));
    }
}

/// Once a call on a pair trips the breaker, every later non-terminal call on
/// that pair trips it again, until a terminal call on the pair or its reset.
pub proof fn lemma_tripped_stays_tripped(
    cs: Seq<Map<(Seq<char>, Seq<char>), usize>>,
    ts: Seq<Map<(Seq<char>, Seq<char>), i128>>,
    steps: Seq<BackoffStep>,
    key: (Seq<char>, Seq<char>),
    i: int,
    m: int,
)
    requires
        cs.len() == steps.len() + 1,
        ts.len() == steps.len() + 1,
        forall|k: int| 0 <= k < steps.len() ==> backoff_step(cs[k], ts[k], cs[k + 1], ts[k + 1], #[trigger] steps[k]),
        0 <= i < m < steps.len(),
        steps[i] matches BackoffStep::Register { key: k, is_terminal, ok, .. } && k == key && !is_terminal && !ok,
        forall|k: int| i < k < m ==> !clears(#[trigger] steps[k], key),
        steps[m] matches BackoffStep::Register { key: k, is_terminal, .. } && k == key && !is_terminal,
    ensures
        steps[m] matches BackoffStep::Register { ok, .. } && !ok,
{
    lemma_count_stays_tripped(cs, ts, steps, key, i, m);
    assert(backoff_step(cs[m], ts[m], cs[m + 1], ts[m + 1], steps[m]));
}

} // verus!
