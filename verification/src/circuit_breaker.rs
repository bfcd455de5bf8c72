//! Skips models that keep failing to load: after `MAX_FAILURES` failures a
//! model version stays closed off until `RESET_TIMEOUT_SECS` have passed since
//! its last failure, or until it loads successfully.
use vstd::prelude::*;
use vstd::hash_map::StringHashMap;

verus! {

/// `std::time::Instant`, carried through opaquely.
#[verifier::external_type_specification]
#[verifier::external_body]
pub struct ExInstant(std::time::Instant);

/// `std::time::Instant::now`: the current time. Nothing is stated of it.
#[verifier::external_body]
fn instant_now() -> std::time::Instant {
    std::time::Instant::now()
}

/// `std::time::Instant::elapsed`: the time since `t`. Nothing is stated of it.
#[verifier::external_body]
fn instant_elapsed(t: &std::time::Instant) -> core::time::Duration {
    t.elapsed()
}

/// `std::time::Duration::as_nanos`: the whole duration in nanoseconds.
/// Nothing is stated of it.
#[verifier::external_body]
fn duration_nanos(d: &core::time::Duration) -> u128 {
    d.as_nanos()
}

/// Failures after which a key is closed off.
pub const MAX_FAILURES: u32 = 3;

/// How long a closed key stays closed after its last failure, in seconds.
pub const RESET_TIMEOUT_SECS: u64 = 300;

pub open spec fn reset_timeout_nanos() -> int {
    RESET_TIMEOUT_SECS as int * 1_000_000_000
}

/// Whether `count` failures are enough to close a key off.
pub open spec fn tripped(count: u32) -> bool {
    count >= MAX_FAILURES
}

/// The rule for a key with `failures` recorded failures, the last one
/// `elapsed_nanos` ago: it is open (skipped) when it reached the limit and the
/// reset timeout has not run out.
pub fn open_after(failures: u32, elapsed_nanos: u128) -> (r: bool)
    ensures
        r == (tripped(failures) && elapsed_nanos < reset_timeout_nanos()),
{
    failures >= MAX_FAILURES && elapsed_nanos < (RESET_TIMEOUT_SECS as u128) * 1_000_000_000
}

/// Failure counts per key, with the time of each key's last failure.
pub struct CircuitBreaker {
    failures: StringHashMap<(u32, std::time::Instant)>,
}

impl CircuitBreaker {
    /// The failure count of each key that has failed since its last success.
    pub closed spec fn view(&self) -> Map<Seq<char>, u32> {
        self.failures@.map_values(|e: (u32, std::time::Instant)| e.0)
    }

    /// A breaker with no failures recorded.
    pub fn new() -> (cb: Self)
        ensures
            cb@ == Map::<Seq<char>, u32>::empty(),
            cb.stamps() == Map::<Seq<char>, std::time::Instant>::empty(),
    {
        let cb = CircuitBreaker { failures: StringHashMap::new() };
        assert(cb@ =~= Map::<Seq<char>, u32>::empty());
        assert(cb.stamps() =~= Map::<Seq<char>, std::time::Instant>::empty());
        cb
    }

    /// The number of failures recorded for `key` since its last success.
    pub fn failures(&self, key: &str) -> (n: u32)
        ensures
            n == (if self@.contains_key(key@) {
                self@[key@]
            } else {
                0
            }),
    {
        match self.failures.get(key) {
            Some(e) => e.0,
            None => 0,
        }
    }

    /// Whether `key` is closed off: it reached `MAX_FAILURES` and its last
    /// failure lies less than `RESET_TIMEOUT_SECS` back (see `open_after`).
    pub fn is_open(&self, key: &str) -> (r: bool)
        ensures
            r ==> self@.contains_key(key@) && tripped(self@[key@]),
    {
        match self.failures.get(key) {
            Some(e) => {
                if e.0 >= MAX_FAILURES {
                    let d = instant_elapsed(&e.1);
                    open_after(e.0, duration_nanos(&d))
                } else {
                    false
                }
            },
            None => false,
        }
    }

    /// The time of the last failure of each key that has failed since its
    /// last success.
    pub closed spec fn stamps(&self) -> Map<Seq<char>, std::time::Instant> {
        self.failures@.map_values(|e: (u32, std::time::Instant)| e.1)
    }

    /// Records one more failure of `key`, which happened at `now`: the count
    /// goes up by one and `now` becomes the key's last failure time.
    pub fn record_failure_at(&mut self, key: &str, now: std::time::Instant)
        requires
            old(self)@.contains_key(key@) ==> old(self)@[key@] < u32::MAX,
        ensures
            final(self)@ == old(self)@.insert(
                key@,
                ((if old(self)@.contains_key(key@) {
                    old(self)@[key@]
                } else {
                    0
                }) + 1) as u32,
            ),
            final(self).stamps() == old(self).stamps().insert(key@, now),
    {
        let count = self.failures(key);
        self.failures.insert(key.to_owned(), (count + 1, now));
        assert(self@ =~= old(self)@.insert(key@, (count + 1) as u32));
        assert(self.stamps() =~= old(self).stamps().insert(key@, now));
    }

    /// Records one more failure of `key`, at the current time: the count goes
    /// up by one, and the key's last failure time is replaced by the time
    /// that `std::time::Instant::now` gave; other keys keep theirs.
    pub fn record_failure(&mut self, key: &str)
        requires
            old(self)@.contains_key(key@) ==> old(self)@[key@] < u32::MAX,
        ensures
            final(self)@ == old(self)@.insert(
                key@,
                ((if old(self)@.contains_key(key@) {
                    old(self)@[key@]
                } else {
                    0
                }) + 1) as u32,
            ),
            final(self).stamps().contains_key(key@),
            final(self).stamps().remove(key@) == old(self).stamps().remove(key@),
    {
        let now = instant_now();
        self.record_failure_at(key, now);
        assert(self.stamps().remove(key@) =~= old(self).stamps().remove(key@));
    }

    /// Forgets the failures of `key`.
    pub fn record_success(&mut self, key: &str)
        ensures
            final(self)@ == old(self)@.remove(key@),
            final(self).stamps() == old(self).stamps().remove(key@),
    {
        self.failures.remove(key);
        assert(self@ =~= old(self)@.remove(key@));
        assert(self.stamps() =~= old(self).stamps().remove(key@));
    }
}

/// Whether a breaker whose counts are `m` can report `key` as open.
pub open spec fn may_be_open(m: Map<Seq<char>, u32>, key: Seq<char>) -> bool {
    m.contains_key(key) && tripped(m[key])
}

/// The counts after `n` failures of `key` recorded on `m`.
pub open spec fn after_failures(m: Map<Seq<char>, u32>, key: Seq<char>, n: nat) -> Map<Seq<char>, u32>
    decreases n,
{
    if n == 0 {
        m
    } else {
        let prev = after_failures(m, key, (n - 1) as nat);
        prev.insert(
            key,
            ((if prev.contains_key(key) {
                prev[key]
            } else {
                0
            }) + 1) as u32,
        )
    }
}

/// After a success, a key is not open, whatever happened before.
pub proof fn law_success_closes(m: Map<Seq<char>, u32>, key: Seq<char>)
    ensures
        !may_be_open(m.remove(key), key),
{
}

/// Counted from a success (or from a new breaker), `n` failures leave the
/// count at `n`: a key can be open only once `n` reaches `MAX_FAILURES`.
pub proof fn law_failures_count_up(m: Map<Seq<char>, u32>, key: Seq<char>, n: nat)
    requires
        n < u32::MAX,
    ensures
        after_failures(m.remove(key), key, n).contains_key(key) == (n > 0),
        n > 0 ==> after_failures(m.remove(key), key, n)[key] == n,
        may_be_open(after_failures(m.remove(key), key, n), key) <==> n >= MAX_FAILURES,
    decreases n,
{
    if n > 0 {
        law_failures_count_up(m, key, (n - 1) as nat);
    }
}

/// Failures and successes of one key leave every other key's count as it was.
pub proof fn law_keys_independent(m: Map<Seq<char>, u32>, key: Seq<char>, other: Seq<char>, n: nat)
    requires
        key != other,
    ensures
        after_failures(m, key, n).contains_key(other) == m.contains_key(other),
        m.contains_key(other) ==> after_failures(m, key, n)[other] == m[other],
        m.remove(key).contains_key(other) == m.contains_key(other),
        m.contains_key(other) ==> m.remove(key)[other] == m[other],
    decreases n,
{
    if n > 0 {
        law_keys_independent(m, key, other, (n - 1) as nat);
    }
}

} // verus!
