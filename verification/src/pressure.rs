//! Resource pressure: how close the local store is to its limits.
//!
//! Pressure is the mean of three loads, each relative to its limit: bytes against the disk
//! limit, bytes against the memory limit, and recent requests against the request limit. It
//! is measured in billionths, so that `PRESSURE_FULL` stands for 1.0.

use std::collections::VecDeque;
use vstd::prelude::*;

verus! {

/// The pressure at which a limit is reached.
pub const PRESSURE_FULL: u64 = 1_000_000_000;

/// The pressure above which entries are evicted (0.8).
pub const PRESSURE_THRESHOLD: u64 = 800_000_000;

/// Bytes on disk before backpressure sets in (8 MiB).
pub const PRESSURE_DISK_SOFT_LIMIT: usize = 8 * 1024 * 1024;

/// Bytes in memory before backpressure sets in (4 MiB).
pub const PRESSURE_MEMORY_SOFT_LIMIT: usize = 4 * 1024 * 1024;

/// How long a request counts, in nanoseconds (one minute).
pub const PRESSURE_REQUEST_WINDOW: u64 = 60_000_000_000;

/// How many requests the window may hold before they count as full load.
pub const PRESSURE_REQUEST_LIMIT: usize = 200;

/// The difference of two numbers, or zero where it would be negative.
pub open spec fn minus(a: int, b: int) -> nat {
    if a >= b {
        (a - b) as nat
    } else {
        0
    }
}

/// The sum of two counts, or the largest count where it would be greater.
pub open spec fn saturated_sum(a: nat, b: nat) -> nat {
    if a + b <= usize::MAX {
        a + b
    } else {
        usize::MAX as nat
    }
}

/// A load relative to its limit, rounded down. Any load at all exceeds a limit of zero.
pub open spec fn load_ratio(load: nat, limit: nat) -> nat {
    if limit == 0 {
        3 * PRESSURE_FULL as nat
    } else {
        load * PRESSURE_FULL as nat / limit
    }
}

/// Whether a load relative to its limit means nothing: no load against no limit.
pub open spec fn is_undefined(load: nat, limit: nat) -> bool {
    load == 0 && limit == 0
}

/// The requests that still count at `now`: the oldest ones are dropped up to the first that
/// is no older than the window.
pub open spec fn within_window(requests: Seq<u64>, now: u64, window: u64) -> Seq<u64>
    decreases requests.len(),
{
    if requests.len() > 0 && minus(now as int, requests[0] as int) > window {
        within_window(requests.drop_first(), now, window)
    } else {
        requests
    }
}

/// What a pressure monitor holds.
#[verifier::ext_equal]
pub struct PressureView {
    /// The bytes that are accounted for.
    pub bytes: nat,
    /// When the requests of the window came in, oldest first, in nanoseconds.
    pub requests: Seq<u64>,
    /// How long a request counts.
    pub request_window: u64,
    /// How many requests are full load.
    pub request_limit: nat,
    /// How many bytes are full load on the disk.
    pub disk_limit: nat,
    /// How many bytes are full load of the memory.
    pub memory_limit: nat,
    /// The pressure as it was computed last; none where it meant nothing.
    pub pressure: Option<nat>,
}

impl PressureView {
    /// The pressure of the current loads: the mean of the three ratios, at most full. When
    /// one of them means nothing, an empty store is under full pressure, and any other is
    /// under none that could be told.
    pub open spec fn measured(self, stored_keys: nat) -> Option<nat> {
        if is_undefined(self.bytes, self.disk_limit) || is_undefined(self.bytes, self.memory_limit)
            || is_undefined(self.requests.len(), self.request_limit) {
            if stored_keys == 0 {
                Some(PRESSURE_FULL as nat)
            } else {
                None
            }
        } else {
            let mean = (load_ratio(self.bytes, self.disk_limit) + load_ratio(
                self.bytes,
                self.memory_limit,
            ) + load_ratio(self.requests.len(), self.request_limit)) / 3;
            if mean > PRESSURE_FULL {
                Some(PRESSURE_FULL as nat)
            } else {
                Some(mean)
            }
        }
    }

    /// Whether the pressure as it was computed last calls for eviction.
    pub open spec fn is_over_threshold(self) -> bool {
        self.pressure matches Some(p) && p > PRESSURE_THRESHOLD
    }

    /// The monitor with the pressure computed anew.
    pub open spec fn updated(self, stored_keys: nat) -> PressureView {
        PressureView { pressure: self.measured(stored_keys), ..self }
    }

    /// The monitor with more bytes accounted for.
    pub open spec fn with_store(self, bytes: nat) -> PressureView {
        PressureView { bytes: saturated_sum(self.bytes, bytes), ..self }
    }

    /// The monitor with fewer bytes accounted for.
    pub open spec fn with_evict(self, bytes: nat) -> PressureView {
        PressureView { bytes: minus(self.bytes as int, bytes as int), ..self }
    }

    /// The monitor once entries had to be spilled.
    pub open spec fn with_spill(self) -> PressureView {
        PressureView { pressure: Some(PRESSURE_FULL as nat), ..self }
    }

    /// The monitor once a request came in.
    pub open spec fn with_request(self, now: u64) -> PressureView {
        PressureView {
            requests: within_window(self.requests.push(now), now, self.request_window),
            ..self
        }
    }

    /// The monitor with other limits.
    pub open spec fn with_limits(self, disk: nat, memory: nat, requests: nat) -> PressureView {
        PressureView { disk_limit: disk, memory_limit: memory, request_limit: requests, ..self }
    }
}

/// A monitor with the default limits and no load.
pub open spec fn default_pressure() -> PressureView {
    PressureView {
        bytes: 0,
        requests: Seq::empty(),
        request_window: PRESSURE_REQUEST_WINDOW,
        request_limit: PRESSURE_REQUEST_LIMIT as nat,
        disk_limit: PRESSURE_DISK_SOFT_LIMIT as nat,
        memory_limit: PRESSURE_MEMORY_SOFT_LIMIT as nat,
        pressure: Some(0),
    }
}

/// Tracks stored bytes and request rates, and computes the pressure they amount to.
pub struct PressureMonitor {
    current_bytes: usize,
    requests: VecDeque<u64>,
    request_window: u64,
    request_limit: usize,
    disk_limit: usize,
    memory_limit: usize,
    current_pressure: Option<u64>,
}

impl View for PressureMonitor {
    type V = PressureView;

    closed spec fn view(&self) -> PressureView {
        PressureView {
            bytes: self.current_bytes as nat,
            requests: self.requests@,
            request_window: self.request_window,
            request_limit: self.request_limit as nat,
            disk_limit: self.disk_limit as nat,
            memory_limit: self.memory_limit as nat,
            pressure: match self.current_pressure {
                Some(p) => Some(p as nat),
                None => None,
            },
        }
    }
}

fn ratio(load: usize, limit: usize) -> (r: u128)
    ensures
        r == load_ratio(load as nat, limit as nat),
        r <= 0xffff_ffff_ffff_ffff * 1_000_000_000,
{
    if limit == 0 {
        3_000_000_000
    } else {
        let scaled: u128 = load as u128 * PRESSURE_FULL as u128;
        assert(scaled / limit as u128 <= scaled) by (nonlinear_arith)
            requires
                limit > 0,
        ;
        scaled / limit as u128
    }
}

impl PressureMonitor {
    /// Creates a monitor with the default limits.
    pub fn new() -> (monitor: Self)
        ensures
            monitor@ == default_pressure(),
    {
        PressureMonitor {
            current_bytes: 0,
            requests: VecDeque::new(),
            request_window: PRESSURE_REQUEST_WINDOW,
            request_limit: PRESSURE_REQUEST_LIMIT,
            disk_limit: PRESSURE_DISK_SOFT_LIMIT,
            memory_limit: PRESSURE_MEMORY_SOFT_LIMIT,
            current_pressure: Some(0),
        }
    }

    /// Replaces the limits.
    pub fn set_limits(&mut self, disk_limit: usize, memory_limit: usize, request_limit: usize)
        ensures
            final(self)@ == old(self)@.with_limits(
                disk_limit as nat,
                memory_limit as nat,
                request_limit as nat,
            ),
    {
        self.disk_limit = disk_limit;
        self.memory_limit = memory_limit;
        self.request_limit = request_limit;
    }

    /// Records bytes added to the store.
    pub fn record_store(&mut self, bytes: usize)
        ensures
            final(self)@ == old(self)@.with_store(bytes as nat),
    {
        self.current_bytes = self.current_bytes.saturating_add(bytes);
    }

    /// Records bytes removed from the store.
    pub fn record_evict(&mut self, bytes: usize)
        ensures
            final(self)@ == old(self)@.with_evict(bytes as nat),
    {
        self.current_bytes = self.current_bytes.saturating_sub(bytes);
    }

    /// Records that entries had to be spilled, which is full pressure.
    pub fn record_spill(&mut self)
        ensures
            final(self)@ == old(self)@.with_spill(),
    {
        self.current_pressure = Some(PRESSURE_FULL);
    }

    /// Records a request that came in at `now`.
    pub fn record_request(&mut self, now: u64)
        ensures
            final(self)@ == old(self)@.with_request(now),
    {
        self.requests.push_back(now);
        self.trim_requests(now);
    }

    /// Drops the requests that are older than the window.
    pub fn trim_requests(&mut self, now: u64)
        ensures
            final(self)@ == (PressureView {
                requests: within_window(old(self)@.requests, now, old(self)@.request_window),
                ..old(self)@
            }),
    {
        let ghost before = self@;
        while self.requests.len() > 0
            invariant_except_break
                within_window(self.requests@, now, self.request_window) == within_window(
                    before.requests,
                    now,
                    before.request_window,
                ),
            invariant
                self@ == (PressureView { requests: self.requests@, ..before }),
            ensures
                self.requests@ == within_window(before.requests, now, before.request_window),
            decreases self.requests.len(),
        {
            let front = self.requests[0];
            if now.saturating_sub(front) > self.request_window {
                let ghost all = self.requests@;
                let _ = self.requests.pop_front();
                assert(self.requests@ =~= all.drop_first());
            } else {
                break;
            }
        }
    }

    /// Computes the pressure anew.
    pub fn update_pressure(&mut self, stored_keys: usize)
        ensures
            final(self)@ == old(self)@.updated(stored_keys as nat),
    {
        let requests = self.requests.len();
        let undefined = (self.current_bytes == 0 && (self.disk_limit == 0 || self.memory_limit
            == 0)) || (requests == 0 && self.request_limit == 0);
        if undefined {
            self.current_pressure = if stored_keys == 0 {
                Some(PRESSURE_FULL)
            } else {
                None
            };
            return;
        }
        let disk = ratio(self.current_bytes, self.disk_limit);
        let memory = ratio(self.current_bytes, self.memory_limit);
        let rate = ratio(requests, self.request_limit);
        let mean: u128 = (disk + memory + rate) / 3;
        self.current_pressure = if mean > PRESSURE_FULL as u128 {
            Some(PRESSURE_FULL)
        } else {
            Some(mean as u64)
        };
    }

    /// The pressure as it was computed last, in billionths; none where it meant nothing.
    pub fn current_pressure(&self) -> (pressure: Option<u64>)
        ensures
            match pressure {
                Some(p) => self@.pressure == Some(p as nat),
                None => self@.pressure is None,
            },
    {
        self.current_pressure
    }

    /// Whether the pressure as it was computed last calls for eviction.
    pub fn is_over_threshold(&self) -> (over: bool)
        ensures
            over == self@.is_over_threshold(),
    {
        match self.current_pressure {
            Some(p) => p > PRESSURE_THRESHOLD,
            None => false,
        }
    }
}

/// A measured pressure lies between none and full.
pub proof fn lemma_pressure_in_range(monitor: PressureView, stored_keys: nat)
    ensures
        monitor.measured(stored_keys) matches Some(p) ==> 0 <= p <= PRESSURE_FULL,
{
}

/// With more bytes and more requests against the same limits the pressure is no lower.
pub proof fn lemma_pressure_grows_with_load(
    less: PressureView,
    more: PressureView,
    stored_keys: nat,
)
    requires
        less.bytes <= more.bytes,
        less.requests.len() <= more.requests.len(),
        less.disk_limit == more.disk_limit,
        less.memory_limit == more.memory_limit,
        less.request_limit == more.request_limit,
        less.disk_limit > 0,
        less.memory_limit > 0,
        less.request_limit > 0,
    ensures
        less.measured(stored_keys) matches Some(p) && more.measured(stored_keys) matches Some(q) && p
            <= q,
{
    lemma_ratio_monotonic(less.bytes, more.bytes, less.disk_limit);
    lemma_ratio_monotonic(less.bytes, more.bytes, less.memory_limit);
    lemma_ratio_monotonic(less.requests.len(), more.requests.len(), less.request_limit);
}

proof fn lemma_ratio_monotonic(less: nat, more: nat, limit: nat)
    requires
        less <= more,
        limit > 0,
    ensures
        load_ratio(less, limit) <= load_ratio(more, limit),
{
    let full = PRESSURE_FULL as nat;
    assert(less * full / limit <= more * full / limit) by (nonlinear_arith)
        requires
            less <= more,
            limit > 0,
    ;
}

/// When requests are recorded in the order of their times, exactly those of the window stay.
pub proof fn lemma_window_holds_recent_requests(requests: Seq<u64>, now: u64, window: u64)
    requires
        forall|i: int, j: int| 0 <= i < j < requests.len() ==> requests[i] <= requests[j],
    ensures
        ({
            let kept = within_window(requests, now, window);
            let dropped = requests.len() - kept.len();
            &&& dropped >= 0
            &&& kept == requests.skip(dropped)
            &&& forall|i: int|
                0 <= i < dropped ==> minus(now as int, #[trigger] requests[i] as int) > window
            &&& forall|i: int|
                dropped <= i < requests.len() ==> minus(now as int, #[trigger] requests[i] as int)
                    <= window
        }),
    decreases requests.len(),
{
    let kept = within_window(requests, now, window);
    if requests.len() > 0 && minus(now as int, requests[0] as int) > window {
        let rest = requests.drop_first();
        lemma_window_holds_recent_requests(rest, now, window);
        let d = rest.len() - kept.len();
        assert(kept =~= requests.skip(d + 1));
        assert forall|i: int| 0 <= i < d + 1 implies minus(now as int, #[trigger] requests[i] as int)
            > window by {
            if i > 0 {
                assert(minus(now as int, rest[i - 1] as int) > window);
            }
        }
        assert forall|i: int| d + 1 <= i < requests.len() implies minus(
            now as int,
            #[trigger] requests[i] as int,
        ) <= window by {
            assert(minus(now as int, rest[i - 1] as int) <= window);
        }
    } else {
        assert(kept =~= requests.skip(0));
    }
}

/// A request counts from the moment it is recorded.
pub proof fn lemma_new_request_counts(monitor: PressureView, now: u64)
    ensures
        monitor.with_request(now).requests.len() > 0,
        monitor.with_request(now).requests.last() == now,
{
    lemma_last_request_stays(monitor.requests.push(now), now, monitor.request_window);
}

proof fn lemma_last_request_stays(requests: Seq<u64>, now: u64, window: u64)
    requires
        requests.len() > 0,
        requests.last() == now,
    ensures
        within_window(requests, now, window).len() > 0,
        within_window(requests, now, window).last() == now,
    decreases requests.len(),
{
    if minus(now as int, requests[0] as int) > window {
        lemma_last_request_stays(requests.drop_first(), now, window);
    }
}

proof fn lemma_ratio_bounds(load: nat, limit: nat)
    requires
        limit > 0,
    ensures
        load_ratio(load, limit) * limit <= load * 1_000_000_000 < (load_ratio(load, limit) + 1)
            * limit,
{
    let x = (load * 1_000_000_000) as int;
    let l = limit as int;
    assert(x / l * l <= x < (x / l + 1) * l) by (nonlinear_arith)
        requires
            l > 0,
            x >= 0,
    ;
}

/// The pressure is the mean of the three loads, each relative to its limit, up to the rounding of
/// two billionths; at full pressure the mean is no lower than full. The loads are brought to the
/// common denominator `d * m * r` of the limits.
pub proof fn lemma_pressure_is_the_mean(monitor: PressureView, stored_keys: nat)
    requires
        monitor.disk_limit > 0,
        monitor.memory_limit > 0,
        monitor.request_limit > 0,
    ensures
        ({
            let d = monitor.disk_limit as int;
            let m = monitor.memory_limit as int;
            let r = monitor.request_limit as int;
            let b = monitor.bytes as int;
            let q = monitor.requests.len() as int;
            let loads = 1_000_000_000 * (b * (m * r) + b * (d * r) + q * (d * m));
            &&& monitor.measured(stored_keys) matches Some(p)
            &&& p <= 1_000_000_000
            &&& 3 * p * (d * m * r) <= loads
            &&& p < 1_000_000_000 ==> loads < (3 * p + 5) * (d * m * r)
        }),
{
    let d = monitor.disk_limit as int;
    let m = monitor.memory_limit as int;
    let r = monitor.request_limit as int;
    let b = monitor.bytes as int;
    let q = monitor.requests.len() as int;
    let x = load_ratio(monitor.bytes, monitor.disk_limit) as int;
    let y = load_ratio(monitor.bytes, monitor.memory_limit) as int;
    let z = load_ratio(monitor.requests.len(), monitor.request_limit) as int;
    lemma_ratio_bounds(monitor.bytes, monitor.disk_limit);
    lemma_ratio_bounds(monitor.bytes, monitor.memory_limit);
    lemma_ratio_bounds(monitor.requests.len(), monitor.request_limit);
    let n = d * m * r;
    assert(x * n <= 1_000_000_000 * (b * (m * r)) < (x + 1) * n) by (nonlinear_arith)
        requires
            x * d <= b * 1_000_000_000 < (x + 1) * d,
            m > 0,
            r > 0,
            n == d * m * r,
    ;
    assert(y * n <= 1_000_000_000 * (b * (d * r)) < (y + 1) * n) by (nonlinear_arith)
        requires
            y * m <= b * 1_000_000_000 < (y + 1) * m,
            d > 0,
            r > 0,
            n == d * m * r,
    ;
    assert(z * n <= 1_000_000_000 * (q * (d * m)) < (z + 1) * n) by (nonlinear_arith)
        requires
            z * r <= q * 1_000_000_000 < (z + 1) * r,
            d > 0,
            m > 0,
            n == d * m * r,
    ;
    assert(n > 0) by (nonlinear_arith)
        requires
            d > 0,
            m > 0,
            r > 0,
            n == d * m * r,
    ;
    let p = (monitor.measured(stored_keys)->0) as int;
    let loads = 1_000_000_000 * (b * (m * r) + b * (d * r) + q * (d * m));
    assert(x * n + y * n + z * n == (x + y + z) * n) by (nonlinear_arith);
    assert((x + 1) * n + (y + 1) * n + (z + 1) * n == (x + y + z + 3) * n) by (nonlinear_arith);
    assert(3 * p * n <= (x + y + z) * n) by (nonlinear_arith)
        requires
            3 * p <= x + y + z,
            n > 0,
    ;
    if p < 1_000_000_000 {
        assert((x + y + z + 3) * n <= (3 * p + 5) * n) by (nonlinear_arith)
            requires
                x + y + z <= 3 * p + 2,
                n > 0,
        ;
    }
}

/// Any load at all against a limit of zero is full pressure.
pub proof fn lemma_load_without_limit_is_full(monitor: PressureView, stored_keys: nat)
    requires
        monitor.disk_limit == 0 || monitor.memory_limit == 0 || monitor.request_limit == 0,
        monitor.disk_limit == 0 || monitor.memory_limit == 0 ==> monitor.bytes > 0,
        monitor.request_limit == 0 ==> monitor.requests.len() > 0,
    ensures
        monitor.measured(stored_keys) == Some(1_000_000_000nat),
{
}

/// What calls for eviction is a pressure above four fifths of full.
pub proof fn lemma_threshold(monitor: PressureView)
    ensures
        monitor.is_over_threshold() <==> (monitor.pressure matches Some(p) && 10 * p > 8
            * PRESSURE_FULL),
{
}

/// Recording keeps the books: bytes that come in and go out again leave the count as it was, and
/// nothing else changes; a spill is full pressure.
pub proof fn lemma_records(monitor: PressureView, bytes: nat)
    requires
        monitor.bytes + bytes <= usize::MAX,
    ensures
        monitor.with_store(bytes).bytes == monitor.bytes + bytes,
        monitor.with_store(bytes).with_evict(bytes) == monitor,
        monitor.with_spill().pressure == Some(1_000_000_000nat),
        monitor.with_spill() == (PressureView {
            pressure: monitor.with_spill().pressure,
            ..monitor
        }),
{
}

/// A monitor that saw its requests in the order of their times counts exactly those of the window:
/// a new one, and each earlier one unless it is older than the window by then.
pub proof fn lemma_requests_of_the_window_count(monitor: PressureView, now: u64)
    requires
        forall|i: int, j: int|
            0 <= i < j < monitor.requests.len() ==> monitor.requests[i] <= monitor.requests[j],
        forall|i: int| 0 <= i < monitor.requests.len() ==> monitor.requests[i] <= now,
    ensures
        ({
            let all = monitor.requests.push(now);
            let kept = monitor.with_request(now).requests;
            let dropped = all.len() - kept.len();
            &&& 0 <= dropped
            &&& kept == all.skip(dropped)
            &&& forall|i: int|
                0 <= i < all.len() ==> (i < dropped <==> now - #[trigger] all[i]
                    > monitor.request_window)
        }),
        monitor.with_request(now) == (PressureView {
            requests: monitor.with_request(now).requests,
            ..monitor
        }),
{
    let all = monitor.requests.push(now);
    lemma_window_holds_recent_requests(all, now, monitor.request_window);
}

/// Each limit that is set is the one that the pressure goes by from then on; the loads and the
/// pressure on record stay as they were. The limits that were set last count.
pub proof fn lemma_limits_are_set(
    monitor: PressureView,
    disk: nat,
    memory: nat,
    requests: nat,
    other: nat,
)
    ensures
        ({
            let after = monitor.with_limits(disk, memory, requests);
            &&& after.disk_limit == disk
            &&& after.memory_limit == memory
            &&& after.request_limit == requests
            &&& after.bytes == monitor.bytes
            &&& after.requests == monitor.requests
            &&& after.request_window == monitor.request_window
            &&& after.pressure == monitor.pressure
            &&& monitor.with_limits(other, other, other).with_limits(disk, memory, requests)
                == after
        }),
{
}

/// Unless other limits are set, 8 MiB on the disk, 4 MiB of memory and 200 requests a minute are
/// full load each, and there is no load at first.
pub proof fn lemma_default_limits()
    ensures
        default_pressure().disk_limit == 8 * 1024 * 1024,
        default_pressure().memory_limit == 4 * 1024 * 1024,
        default_pressure().request_limit == 200,
        default_pressure().request_window == 60 * 1_000_000_000,
        default_pressure().bytes == 0,
        default_pressure().requests.len() == 0,
        default_pressure().pressure == Some(0nat),
{
}

/// The pressure means nothing exactly if there is no load where a limit of zero allows for none. An
/// empty store is under full pressure then, and of any other no pressure can be told; neither
/// calls for another eviction from a store that holds anything.
pub proof fn lemma_pressure_without_meaning(monitor: PressureView, stored_keys: nat)
    ensures
        ({
            let idle = (monitor.bytes == 0 && (monitor.disk_limit == 0 || monitor.memory_limit
                == 0)) || (monitor.requests.len() == 0 && monitor.request_limit == 0);
            &&& monitor.measured(stored_keys) is None <==> idle && stored_keys > 0
            &&& idle && stored_keys == 0 ==> monitor.measured(stored_keys) == Some(
                1_000_000_000nat,
            )
            &&& idle && stored_keys > 0 ==> !monitor.updated(stored_keys).is_over_threshold()
        }),
{
}

} // verus!
