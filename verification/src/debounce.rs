//! Rate limiters (debounce and throttle) and one-shot primitives
//! (a write-once cell and a fire-once flag).
//!
//! Clock readings are taken as nanoseconds elapsed since the limiter was created;
//! the decision whether a call fires is made on those numbers.

use std::time::{Duration, Instant};
use vstd::prelude::*;

verus! {

#[verifier::external_type_specification]
#[verifier::external_body]
pub struct ExInstant(Instant);

/// Reads the monotonic clock through `Instant::now`. Nothing is promised of the reading.
#[verifier::external_body]
fn instant_now() -> (t: Instant) {
    Instant::now()
}

/// The time elapsed since `origin`, through `Instant::elapsed`. The result depends on
/// the clock, so nothing is promised of it.
#[verifier::external_body]
fn elapsed_since(origin: &Instant) -> (d: Duration) {
    origin.elapsed()
}

/// The total number of nanoseconds in the duration `d`, as `Duration::as_nanos` gives it.
pub uninterp spec fn duration_as_nanos(d: Duration) -> u128;

/// The whole length of `d` in nanoseconds, through `Duration::as_nanos`; the result is
/// a function of `d` alone and is named [`duration_as_nanos`].
#[verifier::external_body]
fn duration_nanos(d: &Duration) -> (n: u128)
    ensures
        n == duration_as_nanos(*d),
{
    d.as_nanos()
}

/// Whether a limiter that last fired at `last` (never, for `None`) fires at time `now`,
/// given its minimum `period` between fires; a clock reading before `last` counts as
/// no time elapsed. All times are in nanoseconds.
pub open spec fn limit_fires(last: Option<u128>, now: u128, period: u128) -> bool {
    match last {
        None => true,
        Some(prev) => (if now >= prev {
            now - prev
        } else {
            0
        }) >= period,
    }
}

/// How a limiter decides: with no accepted call it always fires; a call less than the
/// period after the last accepted one is suppressed, one at least the period after it
/// fires; a zero period suppresses nothing; a clock reading before the last accepted
/// call counts as no time elapsed.
pub proof fn lemma_limit_timing(last: u128, now: u128, period: u128)
    ensures
        limit_fires(None, now, period),
        last <= now && now - last < period ==> !limit_fires(Some(last), now, period),
        last <= now && now - last >= period ==> limit_fires(Some(last), now, period),
        now < last ==> (limit_fires(Some(last), now, period) <==> period == 0),
        period == 0 ==> limit_fires(Some(last), now, period),
{
}

/// When the last accepted call happened after a call at `now`: `now` when it fires,
/// unchanged otherwise.
pub open spec fn limit_step(last: Option<u128>, now: u128, period: u128) -> Option<u128> {
    if limit_fires(last, now, period) {
        Some(now)
    } else {
        last
    }
}

/// When the last accepted call happened after calls at the readings `nows`, in order,
/// starting from `last`.
pub open spec fn limit_after(last: Option<u128>, nows: Seq<u128>, period: u128) -> Option<u128>
    decreases nows.len(),
{
    if nows.len() == 0 {
        last
    } else {
        limit_step(limit_after(last, nows.drop_last(), period), nows.last(), period)
    }
}

/// Whether, in calls at the readings `nows` starting from `last`, the call at index `i`
/// fires.
pub open spec fn fires_in_run(last: Option<u128>, nows: Seq<u128>, period: u128, i: int) -> bool {
    limit_fires(limit_after(last, nows.take(i), period), nows[i], period)
}

/// After the first `n` calls of a run with non-decreasing readings, the last accepted
/// time is at least the reading of every call that fired, and at most every later
/// reading.
proof fn lemma_limit_run_prefix(last: Option<u128>, nows: Seq<u128>, period: u128, n: int)
    requires
        0 <= n <= nows.len(),
        forall|i: int, j: int| 0 <= i <= j < nows.len() ==> nows[i] <= nows[j],
        last matches Some(t) ==> forall|j: int| 0 <= j < nows.len() ==> t <= #[trigger] nows[j],
    ensures
        forall|i: int|
            0 <= i < n && #[trigger] fires_in_run(last, nows, period, i) ==> (limit_after(
                last,
                nows.take(n),
                period,
            ) matches Some(t) && t >= nows[i]),
        limit_after(last, nows.take(n), period) matches Some(t) ==> forall|j: int|
            n <= j < nows.len() ==> t <= #[trigger] nows[j],
    decreases n,
{
    if n == 0 {
        assert(nows.take(0) =~= Seq::<u128>::empty());
    } else {
        lemma_limit_run_prefix(last, nows, period, n - 1);
        assert(nows.take(n).drop_last() =~= nows.take(n - 1));
        assert(nows.take(n).last() == nows[n - 1]);
    }
}

/// Over any run of calls with non-decreasing clock readings and no reset, two calls that
/// both fire are at least the period apart, and a call fires only at least the period
/// after the last call accepted before the run; the first call of a run on a limiter
/// with no accepted call fires.
pub proof fn lemma_at_most_one_fire_per_period(last: Option<u128>, nows: Seq<u128>, period: u128)
    requires
        forall|i: int, j: int| 0 <= i <= j < nows.len() ==> nows[i] <= nows[j],
        last matches Some(t) ==> forall|j: int| 0 <= j < nows.len() ==> t <= #[trigger] nows[j],
    ensures
        forall|i: int, j: int|
            0 <= i < j < nows.len() && #[trigger] fires_in_run(last, nows, period, i)
                && #[trigger] fires_in_run(last, nows, period, j) ==> nows[j] - nows[i] >= period,
        last matches Some(t) ==> forall|j: int|
            0 <= j < nows.len() && #[trigger] fires_in_run(last, nows, period, j) ==> nows[j] - t
                >= period,
        last is None && nows.len() > 0 ==> fires_in_run(last, nows, period, 0),
{
    assert forall|i: int, j: int|
        0 <= i < j < nows.len() && #[trigger] fires_in_run(last, nows, period, i)
            && #[trigger] fires_in_run(last, nows, period, j) implies nows[j] - nows[i] >= period by {
        lemma_limit_run_prefix(last, nows, period, j);
    }
    if last is Some {
        let t = last->0;
        assert forall|j: int|
            0 <= j < nows.len() && #[trigger] fires_in_run(last, nows, period, j) implies nows[j]
                - t >= period by {
            lemma_limit_run_prefix(last, nows, period, j);
            lemma_limit_after_keeps_bound(last, nows.take(j), period, t);
        }
    }
    if last is None && nows.len() > 0 {
        assert(nows.take(0) =~= Seq::<u128>::empty());
    }
}

/// The last accepted time never falls below where it started.
proof fn lemma_limit_after_keeps_bound(last: Option<u128>, nows: Seq<u128>, period: u128, t: u128)
    requires
        last == Some(t),
        forall|j: int| 0 <= j < nows.len() ==> t <= #[trigger] nows[j],
    ensures
        (limit_after(last, nows, period) matches Some(s) && s >= t),
    decreases nows.len(),
{
    if nows.len() > 0 {
        lemma_limit_after_keeps_bound(last, nows.drop_last(), period, t);
        assert(nows[nows.len() - 1] == nows.last());
    }
}

/// The state that both limiters keep: the period in nanoseconds, the clock origin and the
/// time of the last accepted call.
#[derive(Debug)]
struct RateLimit {
    period_ns: u128,
    origin: Instant,
    last: Option<u128>,
}

impl RateLimit {
    fn new(period: &Duration) -> (g: RateLimit)
        ensures
            g.period_ns == duration_as_nanos(*period),
            g.last is None,
    {
        RateLimit { period_ns: duration_nanos(period), origin: instant_now(), last: None }
    }

    fn fire_at(&mut self, now: u128) -> (fire: bool)
        ensures
            fire == limit_fires(old(self).last, now, old(self).period_ns),
            final(self).last == (if fire {
                Some(now)
            } else {
                old(self).last
            }),
            final(self).period_ns == old(self).period_ns,
        no_unwind
    {
        let fire = match self.last {
            None => true,
            Some(prev) => {
                let elapsed = if now >= prev {
                    now - prev
                } else {
                    0
                };
                elapsed >= self.period_ns
            },
        };
        if fire {
            self.last = Some(now);
        }
        fire
    }

    /// The nanoseconds elapsed since the origin, by the clock.
    fn now(&self) -> (n: u128)
        ensures
            exists|d: Duration| #[trigger] duration_as_nanos(d) == n,
    {
        let elapsed = elapsed_since(&self.origin);
        duration_nanos(&elapsed)
    }
}

/// Debounce limiter: [`Debounce::should_fire`] lets a call through when no call has been
/// let through yet, or when at least the delay has passed since the last one that was.
#[derive(Debug)]
pub struct Debounce {
    delay: Duration,
    limiter: RateLimit,
}

impl Debounce {
    #[verifier::type_invariant]
    spec fn period_matches_delay(self) -> bool {
        self.limiter.period_ns == duration_as_nanos(self.delay)
    }

    /// The delay this limiter was created with.
    pub closed spec fn delay_value(&self) -> Duration {
        self.delay
    }

    /// The delay in nanoseconds, as the limiter compares it.
    pub closed spec fn delay_nanos(&self) -> u128 {
        duration_as_nanos(self.delay)
    }

    /// When the last accepted call happened, in nanoseconds since the limiter was created;
    /// `None` when no call has been accepted since creation or the last reset.
    pub closed spec fn last_fire(&self) -> Option<u128> {
        self.limiter.last
    }

    /// Create a new debounce limiter with the given delay.
    pub fn new(delay: Duration) -> (d: Debounce)
        ensures
            d.delay_value() == delay,
            d.delay_nanos() == duration_as_nanos(delay),
            d.last_fire() is None,
    {
        let limiter = RateLimit::new(&delay);
        Debounce { delay, limiter }
    }

    /// Decide a call made `now` nanoseconds after the limiter was created: it fires when
    /// no call was accepted yet or at least the delay has passed since the last
    /// accepted one, and a firing call becomes the last accepted one.
    pub fn should_fire_at(&mut self, now: u128) -> (fire: bool)
        ensures
            fire == limit_fires(old(self).last_fire(), now, old(self).delay_nanos()),
            final(self).last_fire() == limit_step(old(self).last_fire(), now, old(self).delay_nanos()),
            final(self).delay_nanos() == old(self).delay_nanos(),
            final(self).delay_value() == old(self).delay_value(),
    {
        proof {
            use_type_invariant(&*self);
        }
        self.limiter.fire_at(now)
    }

    /// Returns `true` if enough time has elapsed since the last accepted call, reading
    /// the clock for the current time. When `true` is returned the timer restarts. The
    /// call is decided by `should_fire_at` on the nanoseconds of the `Duration` that the
    /// clock reports as elapsed since the limiter was created, taken as they are.
    pub fn should_fire(&mut self) -> (fire: bool)
        ensures
            exists|elapsed: Duration|
                {
                    &&& fire == limit_fires(
                        old(self).last_fire(),
                        #[trigger] duration_as_nanos(elapsed),
                        old(self).delay_nanos(),
                    )
                    &&& final(self).last_fire() == limit_step(
                        old(self).last_fire(),
                        duration_as_nanos(elapsed),
                        old(self).delay_nanos(),
                    )
                },
            old(self).last_fire() is None ==> fire,
            !fire ==> final(self).last_fire() == old(self).last_fire(),
            final(self).delay_nanos() == old(self).delay_nanos(),
            final(self).delay_value() == old(self).delay_value(),
    {
        let now = self.limiter.now();
        self.should_fire_at(now)
    }

    /// Forget the last accepted call, so the next call fires.
    pub fn reset(&mut self)
        ensures
            final(self).last_fire() is None,
            final(self).delay_nanos() == old(self).delay_nanos(),
            final(self).delay_value() == old(self).delay_value(),
    {
        proof {
            use_type_invariant(&*self);
        }
        self.limiter.last = None;
    }

    /// The configured delay.
    pub fn delay(&self) -> (d: Duration)
        ensures
            d == self.delay_value(),
    {
        self.delay
    }
}

/// Throttle limiter: [`Throttle::should_fire`] lets the first call through and then at
/// most one call per interval, measured from the last call it let through.
#[derive(Debug)]
pub struct Throttle {
    interval: Duration,
    limiter: RateLimit,
}

impl Throttle {
    #[verifier::type_invariant]
    spec fn period_matches_interval(self) -> bool {
        self.limiter.period_ns == duration_as_nanos(self.interval)
    }

    /// The interval this limiter was created with.
    pub closed spec fn interval_value(&self) -> Duration {
        self.interval
    }

    /// The interval in nanoseconds, as the limiter compares it.
    pub closed spec fn interval_nanos(&self) -> u128 {
        duration_as_nanos(self.interval)
    }

    /// When the last call fired, in nanoseconds since the limiter was created; `None` when
    /// none has fired since creation or the last reset.
    pub closed spec fn last_fire(&self) -> Option<u128> {
        self.limiter.last
    }

    /// Create a new throttle with the given minimum interval between fires.
    pub fn new(interval: Duration) -> (t: Throttle)
        ensures
            t.interval_value() == interval,
            t.interval_nanos() == duration_as_nanos(interval),
            t.last_fire() is None,
    {
        let limiter = RateLimit::new(&interval);
        Throttle { interval, limiter }
    }

    /// Decide a call made `now` nanoseconds after the limiter was created: it fires when
    /// nothing fired yet or at least the interval has passed since the last fire.
    pub fn should_fire_at(&mut self, now: u128) -> (fire: bool)
        ensures
            fire == limit_fires(old(self).last_fire(), now, old(self).interval_nanos()),
            final(self).last_fire() == limit_step(old(self).last_fire(), now, old(self).interval_nanos()),
            final(self).interval_nanos() == old(self).interval_nanos(),
            final(self).interval_value() == old(self).interval_value(),
    {
        proof {
            use_type_invariant(&*self);
        }
        self.limiter.fire_at(now)
    }

    /// Returns `true` if the action should fire now, reading the clock for the current
    /// time: the first call fires, later ones only once the interval has elapsed since
    /// the last fire. The call is decided by `should_fire_at` on the nanoseconds of the
    /// `Duration` that the clock reports as elapsed since the limiter was created.
    pub fn should_fire(&mut self) -> (fire: bool)
        ensures
            exists|elapsed: Duration|
                {
                    &&& fire == limit_fires(
                        old(self).last_fire(),
                        #[trigger] duration_as_nanos(elapsed),
                        old(self).interval_nanos(),
                    )
                    &&& final(self).last_fire() == limit_step(
                        old(self).last_fire(),
                        duration_as_nanos(elapsed),
                        old(self).interval_nanos(),
                    )
                },
            old(self).last_fire() is None ==> fire,
            !fire ==> final(self).last_fire() == old(self).last_fire(),
            final(self).interval_nanos() == old(self).interval_nanos(),
            final(self).interval_value() == old(self).interval_value(),
    {
        let now = self.limiter.now();
        self.should_fire_at(now)
    }

    /// Reset the throttle so the next call fires immediately.
    pub fn reset(&mut self)
        ensures
            final(self).last_fire() is None,
            final(self).interval_nanos() == old(self).interval_nanos(),
            final(self).interval_value() == old(self).interval_value(),
    {
        proof {
            use_type_invariant(&*self);
        }
        self.limiter.last = None;
    }

    /// The configured interval.
    pub fn interval(&self) -> (d: Duration)
        ensures
            d == self.interval_value(),
    {
        self.interval
    }
}


/// A call that may write a [`OnceCell`]: `set` with its value, or `get_or_init` with
/// the value its initializer gave. Reads (`get`, `is_initialized`) take the cell by
/// shared reference and cannot change it.
pub enum CellWrite<T> {
    /// `set` with this value.
    Store(T),
    /// `get_or_init` whose initializer gave this value.
    Init(T),
}

/// The contents of a once-cell holding `v` after the call `w`: the written value when
/// the cell was empty, `v` otherwise.
pub open spec fn cell_step<T>(v: Option<T>, w: CellWrite<T>) -> Option<T> {
    match v {
        Some(_) => v,
        None => match w {
            CellWrite::Store(x) => Some(x),
            CellWrite::Init(x) => Some(x),
        },
    }
}

/// The contents of a once-cell holding `v` after the calls `ws`, in order.
pub open spec fn cell_after<T>(v: Option<T>, ws: Seq<CellWrite<T>>) -> Option<T>
    decreases ws.len(),
{
    if ws.len() == 0 {
        v
    } else {
        cell_step(cell_after(v, ws.drop_last()), ws.last())
    }
}

/// A once-cell is written at most once: once it holds a value, every later sequence of
/// calls leaves that same value; an empty cell ends up empty or holding what the first
/// writing call gave.
pub proof fn lemma_cell_written_once<T>(v: Option<T>, ws: Seq<CellWrite<T>>)
    ensures
        v is Some ==> cell_after(v, ws) == v,
        v is None && ws.len() > 0 ==> cell_after(v, ws) == cell_step(v, ws[0]),
    decreases ws.len(),
{
    if ws.len() > 0 {
        lemma_cell_written_once(v, ws.drop_last());
        if ws.len() > 1 {
            assert(ws.drop_last()[0] == ws[0]);
        } else {
            assert(ws.drop_last() =~= Seq::<CellWrite<T>>::empty());
            assert(ws.last() == ws[0]);
        }
    }
}

/// A value that is set at most once. Reads hand out references into the cell.
#[derive(Debug)]
pub struct OnceCell<T> {
    inner: Option<T>,
}

impl<T> View for OnceCell<T> {
    type V = Option<T>;

    /// The stored value, or `None` while the cell is empty.
    closed spec fn view(&self) -> Option<T> {
        self.inner
    }
}

impl<T> OnceCell<T> {
    /// Create a new, empty once-cell.
    pub fn new() -> (c: Self)
        ensures
            c@ is None,
    {
        OnceCell { inner: None }
    }

    /// Get the value if it has been initialized.
    pub fn get(&self) -> (r: Option<&T>)
        ensures
            r is Some <==> self@ is Some,
            r matches Some(v) ==> *v == self@->0,
    {
        match &self.inner {
            Some(v) => Some(v),
            None => None,
        }
    }

    /// Initialize the cell with `value`: `Ok` with the stored value when the cell was
    /// empty, `Err(value)` with the cell unchanged when it was already set.
    pub fn set(&mut self, value: T) -> (r: Result<&T, T>)
        ensures
            old(self)@ is None ==> {
                &&& final(self)@ == Some(value)
                &&& r matches Ok(v) && *v == value
            },
            old(self)@ is Some ==> {
                &&& final(self)@ == old(self)@
                &&& r == Err::<&T, T>(value)
            },
            final(self)@ == cell_step(old(self)@, CellWrite::Store(value)),
    {
        if self.inner.is_some() {
            return Err(value);
        }
        self.inner = Some(value);
        Ok(self.stored())
    }

    /// Get the value, first initializing it with `f` when the cell is empty; `f` is not
    /// called otherwise.
    pub fn get_or_init<F: FnOnce() -> T>(&mut self, f: F) -> (r: &T)
        requires
            old(self)@ is None ==> f.requires(()),
        ensures
            old(self)@ is Some ==> final(self)@ == old(self)@ && *r == old(self)@->0,
            old(self)@ is None ==> f.ensures((), *r) && final(self)@ == Some(*r),
            final(self)@ == cell_step(old(self)@, CellWrite::Init(*r)),
    {
        if self.inner.is_none() {
            let v = f();
            self.inner = Some(v);
        }
        self.stored()
    }

    /// The stored value of a cell that is set.
    fn stored(&self) -> (r: &T)
        requires
            self@ is Some,
        ensures
            *r == self@->0,
    {
        self.inner.as_ref().unwrap()
    }

    /// Returns `true` if the cell has been initialized.
    pub fn is_initialized(&self) -> (b: bool)
        ensures
            b == self@ is Some,
    {
        self.inner.is_some()
    }
}

impl<T> Default for OnceCell<T> {
    fn default() -> (c: Self)
        ensures
            c@ is None,
    {
        OnceCell::new()
    }
}

/// A flag that fires once until it is reset.
#[derive(Debug)]
pub struct OnceFlag {
    fired: bool,
}

impl View for OnceFlag {
    type V = bool;

    /// Whether the flag has fired since it was created or last reset.
    closed spec fn view(&self) -> bool {
        self.fired
    }
}

impl OnceFlag {
    /// Create a new, unfired flag.
    pub fn new() -> (f: Self)
        ensures
            !f@,
    {
        OnceFlag { fired: false }
    }

    /// Try to fire the flag: `true` the first time, `false` while it stays fired.
    pub fn fire(&mut self) -> (first: bool)
        ensures
            first == !old(self)@,
            final(self)@,
    {
        let was = self.fired;
        self.fired = true;
        !was
    }

    /// Returns `true` if the flag has been fired.
    pub fn has_fired(&self) -> (b: bool)
        ensures
            b == self@,
    {
        self.fired
    }

    /// Reset the flag so it can fire again.
    pub fn reset(&mut self)
        ensures
            !final(self)@,
    {
        self.fired = false;
    }
}

impl Default for OnceFlag {
    fn default() -> (f: Self)
        ensures
            !f@,
    {
        OnceFlag::new()
    }
}

} // verus!
