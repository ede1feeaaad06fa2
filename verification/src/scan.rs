//! The scan itself: which endpoint is probed when, and which results are
//! kept.
//!
//! A scan walks every address of its range in ascending order and, for each
//! address, every port of its port range in ascending order. The library
//! decides and remembers; opening the connection is the caller's part. The
//! caller asks a [`Scan`] for the next endpoint, probes it, and hands the
//! outcome back.

use crate::address::{Address, AddressRange};
use crate::port::PortRange;
use crate::progress::Progress;
use vstd::arithmetic::div_mod::{
    lemma_div_is_ordered, lemma_fundamental_div_mod, lemma_fundamental_div_mod_converse,
    lemma_mod_bound, lemma_multiply_divide_lt,
};
use vstd::arithmetic::mul::lemma_mul_is_commutative;
use vstd::prelude::*;

verus! {

/// Time, in milliseconds, that one connection attempt may take where the
/// caller names no other.
pub const DEFAULT_TIMEOUT_MS: u64 = 100;

/// One endpoint to probe.
#[derive(Clone, Copy, Debug, PartialEq, Eq, Structural)]
pub struct ScanUnit {
    pub address: Address,
    pub port: u16,
}

/// An endpoint together with what its probe found. Only results of
/// reachable endpoints are kept.
#[derive(Clone, Copy, Debug, PartialEq, Eq, Structural)]
pub struct ScanResult {
    pub unit: ScanUnit,
    pub reachable: bool,
}

/// Whether a scan is aimed at one host or at a range of hosts. The two differ
/// in how their log reads.
#[derive(Clone, Copy, Debug, PartialEq, Eq, Structural)]
pub enum ScanMode {
    Host,
    Range,
}

/// What the caller is asked to do next: try to connect to `unit`, and give up
/// after `timeout_ms` milliseconds.
#[derive(Clone, Copy, Debug, PartialEq, Eq, Structural)]
pub struct ProbeRequest {
    pub unit: ScanUnit,
    pub timeout_ms: u64,
}

/// What one probe changed: the progress to show now and, where the endpoint
/// was reachable, the result to show.
#[derive(Clone, Copy, Debug, PartialEq, Eq)]
pub struct ScanStep {
    pub progress: Progress,
    pub found: Option<ScanResult>,
}

/// Number of endpoints of a scan.
pub open spec fn unit_count(addresses: AddressRange, ports: PortRange) -> nat {
    addresses.count() * ports.count()
}

/// The endpoint that is probed after `k` others.
pub open spec fn unit_at(addresses: AddressRange, ports: PortRange, k: int) -> ScanUnit {
    ScanUnit {
        address: Address { value: (addresses.start().value + k / (ports.count() as int)) as u32 },
        port: (ports.start() + k % (ports.count() as int)) as u16,
    }
}

/// All endpoints of a scan in the order in which they are probed.
pub open spec fn units_of(addresses: AddressRange, ports: PortRange) -> Seq<ScanUnit> {
    Seq::new(unit_count(addresses, ports), |k: int| unit_at(addresses, ports, k))
}

/// `unit` is an endpoint of the scan.
pub open spec fn in_scope(addresses: AddressRange, ports: PortRange, unit: ScanUnit) -> bool {
    &&& addresses.start().value <= unit.address.value <= addresses.end().value
    &&& ports.start() <= unit.port <= ports.end()
}

/// Number of endpoints that are probed before `unit` is.
pub open spec fn unit_index(addresses: AddressRange, ports: PortRange, unit: ScanUnit) -> int {
    (unit.address.value - addresses.start().value) * ports.count() + (unit.port - ports.start())
}

/// `a` comes before `b` where addresses are walked first and ports second,
/// both ascending.
pub open spec fn precedes(a: ScanUnit, b: ScanUnit) -> bool {
    a.address.value < b.address.value || (a.address.value == b.address.value && a.port < b.port)
}

/// The results kept after the first endpoints of `units` were probed with
/// the given outcomes: one for each reachable endpoint, in the order of the
/// probes.
pub open spec fn open_results(units: Seq<ScanUnit>, outcomes: Seq<bool>) -> Seq<ScanResult>
    decreases outcomes.len(),
{
    if outcomes.len() == 0 {
        Seq::empty()
    } else {
        let earlier = open_results(units, outcomes.drop_last());
        if outcomes.last() {
            earlier.push(ScanResult { unit: units[outcomes.len() - 1], reachable: true })
        } else {
            earlier
        }
    }
}

/// Number of reachable outcomes.
pub open spec fn reachable_count(outcomes: Seq<bool>) -> nat
    decreases outcomes.len(),
{
    if outcomes.len() == 0 {
        0
    } else {
        reachable_count(outcomes.drop_last()) + if outcomes.last() {
            1nat
        } else {
            0nat
        }
    }
}

/// A scan has at least one endpoint and at most 2^48.
pub proof fn lemma_unit_count_bounds(addresses: AddressRange, ports: PortRange)
    requires
        addresses.wf(),
        ports.wf(),
    ensures
        1 <= unit_count(addresses, ports) <= 0x1_0000_0000_0000,
{
    let a = addresses.count() as int;
    let p = ports.count() as int;
    assert(1 <= a * p <= 0x1_0000_0000_0000) by (nonlinear_arith)
        requires
            1 <= a <= 0x1_0000_0000,
            1 <= p <= 0x1_0000,
    ;
}

/// The endpoint probed after `k` others lies in the scan, and `k` others
/// come before it.
pub proof fn lemma_unit_at(addresses: AddressRange, ports: PortRange, k: int)
    requires
        addresses.wf(),
        ports.wf(),
        0 <= k < unit_count(addresses, ports),
    ensures
        in_scope(addresses, ports, unit_at(addresses, ports, k)),
        unit_index(addresses, ports, unit_at(addresses, ports, k)) == k,
        unit_at(addresses, ports, k).address.value == addresses.start().value + k / (
        ports.count() as int),
        unit_at(addresses, ports, k).port == ports.start() + k % (ports.count() as int),
{
    let p = ports.count() as int;
    let a = addresses.count() as int;
    lemma_mul_is_commutative(a, p);
    lemma_multiply_divide_lt(k, p, a);
    lemma_div_is_ordered(0, k, p);
    lemma_mod_bound(k, p);
    lemma_fundamental_div_mod(k, p);
    lemma_mul_is_commutative(p, k / p);
}

/// Every endpoint of the scan is probed, at the place that its address and
/// port give it.
pub proof fn lemma_unit_index(addresses: AddressRange, ports: PortRange, unit: ScanUnit)
    requires
        addresses.wf(),
        ports.wf(),
        in_scope(addresses, ports, unit),
    ensures
        0 <= unit_index(addresses, ports, unit) < unit_count(addresses, ports),
        unit_at(addresses, ports, unit_index(addresses, ports, unit)) == unit,
{
    let p = ports.count() as int;
    let a = addresses.count() as int;
    let row = unit.address.value - addresses.start().value;
    let column = unit.port - ports.start();
    let k = unit_index(addresses, ports, unit);
    lemma_fundamental_div_mod_converse(k, p, row, column);
    assert(0 <= row * p && row * p + p <= a * p) by (nonlinear_arith)
        requires
            0 <= row < a,
            0 < p,
    ;
}

/// Of two endpoints, the one probed first comes first in address-major
/// ascending order.
pub proof fn lemma_units_ascending(addresses: AddressRange, ports: PortRange, i: int, j: int)
    requires
        addresses.wf(),
        ports.wf(),
        0 <= i < j < unit_count(addresses, ports),
    ensures
        precedes(unit_at(addresses, ports, i), unit_at(addresses, ports, j)),
{
    let p = ports.count() as int;
    lemma_unit_at(addresses, ports, i);
    lemma_unit_at(addresses, ports, j);
    lemma_div_is_ordered(i, j, p);
    lemma_fundamental_div_mod(i, p);
    lemma_fundamental_div_mod(j, p);
}

/// A scan probes as many endpoints as there are pairs of an address and a
/// port of its ranges, each pair exactly once, all ports of one address
/// before the next address, addresses and ports ascending.
pub proof fn lemma_scan_order(addresses: AddressRange, ports: PortRange)
    requires
        addresses.wf(),
        ports.wf(),
    ensures
        units_of(addresses, ports).len() == addresses.count() * ports.count(),
        forall|k: int|
            0 <= k < units_of(addresses, ports).len() ==> in_scope(
                addresses,
                ports,
                #[trigger] units_of(addresses, ports)[k],
            ),
        forall|i: int, j: int|
            0 <= i < j < units_of(addresses, ports).len() ==> precedes(
                #[trigger] units_of(addresses, ports)[i],
                #[trigger] units_of(addresses, ports)[j],
            ),
        forall|i: int, j: int|
            0 <= i < units_of(addresses, ports).len() && 0 <= j < units_of(addresses, ports).len()
                && #[trigger] units_of(addresses, ports)[i] == #[trigger] units_of(
                addresses,
                ports,
            )[j] ==> i == j,
        forall|unit: ScanUnit|
            in_scope(addresses, ports, unit) ==> 0 <= #[trigger] unit_index(addresses, ports, unit)
                < units_of(addresses, ports).len() && units_of(addresses, ports)[unit_index(
                addresses,
                ports,
                unit,
            )] == unit,
{
    let units = units_of(addresses, ports);
    assert forall|k: int| 0 <= k < units.len() implies in_scope(
        addresses,
        ports,
        #[trigger] units[k],
    ) by {
        lemma_unit_at(addresses, ports, k);
    }
    assert forall|i: int, j: int| 0 <= i < j < units.len() implies precedes(
        #[trigger] units[i],
        #[trigger] units[j],
    ) by {
        lemma_units_ascending(addresses, ports, i, j);
    }
    assert forall|i: int, j: int|
        0 <= i < units.len() && 0 <= j < units.len() && #[trigger] units[i] == #[trigger] units[j]
        implies i == j by {
        lemma_unit_at(addresses, ports, i);
        lemma_unit_at(addresses, ports, j);
    }
    assert forall|unit: ScanUnit| in_scope(addresses, ports, unit) implies 0
        <= #[trigger] unit_index(addresses, ports, unit) < units.len() && units[unit_index(
        addresses,
        ports,
        unit,
    )] == unit by {
        lemma_unit_index(addresses, ports, unit);
    }
}

/// A scan of one host probes as many endpoints as its port range has ports:
/// the host at each port of the range, once, in ascending order.
pub proof fn lemma_host_scan_order(addresses: AddressRange, ports: PortRange)
    requires
        addresses.start() == addresses.end(),
        ports.wf(),
    ensures
        units_of(addresses, ports).len() == ports.end() - ports.start() + 1,
        forall|k: int|
            0 <= k < units_of(addresses, ports).len() ==> #[trigger] units_of(addresses, ports)[k]
                == (ScanUnit { address: addresses.start(), port: (ports.start() + k) as u16 }),
{
    let units = units_of(addresses, ports);
    let p = ports.count() as int;
    assert(addresses.count() == 1);
    assert(1 * p == p);
    assert forall|k: int| 0 <= k < units.len() implies #[trigger] units[k] == (ScanUnit {
        address: addresses.start(),
        port: (ports.start() + k) as u16,
    }) by {
        lemma_fundamental_div_mod_converse(k, p, 0, k);
    }
}

/// The kept results are the reachable endpoints, no others, each once and in
/// the order of the probes.
pub proof fn lemma_open_results(addresses: AddressRange, ports: PortRange, outcomes: Seq<bool>)
    requires
        addresses.wf(),
        ports.wf(),
        outcomes.len() <= unit_count(addresses, ports),
    ensures
        open_results(units_of(addresses, ports), outcomes).len() == reachable_count(outcomes),
        reachable_count(outcomes) <= outcomes.len(),
        forall|i: int|
            0 <= i < open_results(units_of(addresses, ports), outcomes).len() ==> {
                let result = #[trigger] open_results(units_of(addresses, ports), outcomes)[i];
                let k = unit_index(addresses, ports, result.unit);
                &&& result.reachable
                &&& 0 <= k < outcomes.len()
                &&& outcomes[k]
                &&& result.unit == unit_at(addresses, ports, k)
            },
        forall|i: int, j: int|
            0 <= i < j < open_results(units_of(addresses, ports), outcomes).len() ==> precedes(
                (#[trigger] open_results(units_of(addresses, ports), outcomes)[i]).unit,
                (#[trigger] open_results(units_of(addresses, ports), outcomes)[j]).unit,
            ),
        forall|k: int|
            0 <= k < outcomes.len() && outcomes[k] ==> open_results(
                units_of(addresses, ports),
                outcomes,
            ).contains(ScanResult { unit: #[trigger] unit_at(addresses, ports, k), reachable: true }),
    decreases outcomes.len(),
{
    let units = units_of(addresses, ports);
    let results = open_results(units, outcomes);
    if outcomes.len() > 0 {
        let before = outcomes.drop_last();
        let earlier = open_results(units, before);
        let last = outcomes.len() - 1;
        lemma_open_results(addresses, ports, before);
        lemma_unit_at(addresses, ports, last);
        assert forall|i: int| 0 <= i < results.len() implies {
            let result = #[trigger] results[i];
            let k = unit_index(addresses, ports, result.unit);
            &&& result.reachable
            &&& 0 <= k < outcomes.len()
            &&& outcomes[k]
            &&& result.unit == unit_at(addresses, ports, k)
        } by {
            if i < earlier.len() {
                let result = earlier[i];
                assert(results[i] == result);
                let k = unit_index(addresses, ports, result.unit);
                assert(before[k] == outcomes[k]);
            }
        }
        assert forall|i: int, j: int| 0 <= i < j < results.len() implies precedes(
            (#[trigger] results[i]).unit,
            (#[trigger] results[j]).unit,
        ) by {
            assert(results[i] == earlier[i]);
            if j < earlier.len() {
                assert(results[j] == earlier[j]);
            } else {
                let k = unit_index(addresses, ports, earlier[i].unit);
                lemma_units_ascending(addresses, ports, k, last);
            }
        }
        assert forall|k: int| 0 <= k < outcomes.len() && outcomes[k] implies results.contains(
            ScanResult { unit: #[trigger] unit_at(addresses, ports, k), reachable: true },
        ) by {
            let wanted = ScanResult { unit: unit_at(addresses, ports, k), reachable: true };
            if k < last {
                assert(before[k] == outcomes[k]);
                assert(earlier.contains(wanted));
                let i = choose|i: int| 0 <= i < earlier.len() && earlier[i] == wanted;
                assert(results[i] == wanted);
            } else {
                assert(results[results.len() - 1] == wanted);
            }
        }
    }
}

/// A scan in progress.
///
/// The scan knows its ranges and how many endpoints have been probed. The
/// caller takes the next endpoint from [`Scan::next_probe`], probes it and
/// reports what it found to [`Scan::record`], until no endpoint is left. A
/// scan is walked once and cannot be started over.
pub struct Scan {
    mode: ScanMode,
    addresses: AddressRange,
    ports: PortRange,
    timeout_ms: u64,
    completed: u64,
    open: Vec<ScanResult>,
    outcomes: Ghost<Seq<bool>>,
}

/// What a scan is, apart from how it is held in memory: what it was started
/// with, what each probe made so far has found, and which results are kept.
pub struct ScanState {
    pub mode: ScanMode,
    pub addresses: AddressRange,
    pub ports: PortRange,
    pub timeout_ms: u64,
    pub completed: nat,
    pub outcomes: Seq<bool>,
    pub found: Seq<ScanResult>,
}

impl View for Scan {
    type V = ScanState;

    closed spec fn view(&self) -> ScanState {
        ScanState {
            mode: self.mode,
            addresses: self.addresses,
            ports: self.ports,
            timeout_ms: self.timeout_ms,
            completed: self.completed as nat,
            outcomes: self.outcomes@,
            found: self.open@,
        }
    }
}

impl Scan {
    /// Whether the scan is aimed at one host or at a range.
    pub open spec fn mode(&self) -> ScanMode {
        self@.mode
    }

    /// The addresses that the scan walks.
    pub open spec fn addresses(&self) -> AddressRange {
        self@.addresses
    }

    /// The ports that the scan walks for each address.
    pub open spec fn ports(&self) -> PortRange {
        self@.ports
    }

    /// Time allowed to each connection attempt, in milliseconds.
    pub open spec fn timeout(&self) -> u64 {
        self@.timeout_ms
    }

    /// What the probes made so far have found, in their order.
    pub open spec fn outcomes(&self) -> Seq<bool> {
        self@.outcomes
    }

    /// Number of endpoints probed so far.
    pub open spec fn completed(&self) -> nat {
        self@.completed
    }

    /// The results kept so far.
    pub open spec fn found(&self) -> Seq<ScanResult> {
        self@.found
    }

    /// All endpoints of the scan in the order in which they are probed.
    pub open spec fn units(&self) -> Seq<ScanUnit> {
        units_of(self.addresses(), self.ports())
    }

    /// Number of endpoints of the scan.
    pub open spec fn total(&self) -> nat {
        unit_count(self.addresses(), self.ports())
    }

    /// The endpoints probed so far, in the order of the probes.
    pub open spec fn probed(&self) -> Seq<ScanUnit> {
        self.units().take(self.completed() as int)
    }

    /// Every endpoint has been probed.
    pub open spec fn is_done(&self) -> bool {
        self.completed() == self.total()
    }

    /// The scan has probed a first part of its endpoints, one outcome is
    /// known for each of them, and the kept results are those of the
    /// reachable ones.
    pub open spec fn wf(&self) -> bool {
        &&& self.addresses().wf()
        &&& self.ports().wf()
        &&& self.completed() == self.outcomes().len()
        &&& self.completed() <= self.total()
        &&& self.found() == open_results(self.units(), self.outcomes())
    }

    /// `self` and `other` are scans of the same endpoints under the same
    /// settings.
    pub open spec fn same_plan(&self, other: &Scan) -> bool {
        &&& self.mode() == other.mode()
        &&& self.addresses() == other.addresses()
        &&& self.ports() == other.ports()
        &&& self.timeout() == other.timeout()
    }

    fn start(mode: ScanMode, addresses: AddressRange, ports: PortRange, timeout_ms: u64) -> (scan:
        Scan)
        ensures
            scan.wf(),
            scan.mode() == mode,
            scan.addresses() == addresses,
            scan.ports() == ports,
            scan.timeout() == timeout_ms,
            scan.outcomes() == Seq::<bool>::empty(),
            scan.completed() == 0,
            scan.found() == Seq::<ScanResult>::empty(),
    {
        proof {
            use_type_invariant(&addresses);
            use_type_invariant(&ports);
        }
        Scan {
            mode,
            addresses,
            ports,
            timeout_ms,
            completed: 0,
            open: Vec::new(),
            outcomes: Ghost(Seq::empty()),
        }
    }

    /// Whether the scan is aimed at one host or at a range.
    pub fn scan_mode(&self) -> (mode: ScanMode)
        ensures
            mode == self.mode(),
    {
        self.mode
    }

    /// The addresses that the scan walks.
    pub fn address_range(&self) -> (addresses: AddressRange)
        ensures
            addresses == self.addresses(),
    {
        self.addresses
    }

    /// The ports that the scan walks for each address.
    pub fn port_range(&self) -> (ports: PortRange)
        ensures
            ports == self.ports(),
    {
        self.ports
    }

    /// Time allowed to each connection attempt, in milliseconds.
    pub fn timeout_ms(&self) -> (timeout_ms: u64)
        ensures
            timeout_ms == self.timeout(),
    {
        self.timeout_ms
    }

    /// Number of endpoints of the scan: addresses times ports.
    pub fn total_units(&self) -> (total: u64)
        ensures
            total == self.total(),
            total == self.addresses().count() * self.ports().count(),
            1 <= total <= 0x1_0000_0000_0000,
    {
        proof {
            use_type_invariant(&self.addresses);
            use_type_invariant(&self.ports);
            lemma_unit_count_bounds(self.addresses, self.ports);
        }
        self.addresses.len() * (self.ports.len() as u64)
    }

    /// Number of endpoints probed so far.
    pub fn completed_units(&self) -> (completed: u64)
        ensures
            completed == self.completed(),
    {
        self.completed
    }

    /// Whether every endpoint has been probed.
    pub fn is_finished(&self) -> (finished: bool)
        requires
            self.wf(),
        ensures
            finished == self.is_done(),
            finished ==> self.probed() == self.units(),
    {
        let total = self.total_units();
        proof {
            if self.completed == total {
                assert(self.probed() =~= self.units());
            }
        }
        self.completed == total
    }

    /// The endpoint that is probed after `k` others.
    fn unit(&self, k: u64) -> (unit: ScanUnit)
        requires
            self.wf(),
            k < self.total(),
        ensures
            unit == self.units()[k as int],
            unit == unit_at(self.addresses(), self.ports(), k as int),
    {
        proof {
            lemma_unit_at(self.addresses, self.ports, k as int);
        }
        let per_address: u64 = self.ports.len() as u64;
        let row: u64 = k / per_address;
        let column: u64 = k % per_address;
        ScanUnit {
            address: Address::new(self.addresses.first().value + (row as u32)),
            port: self.ports.first() + (column as u16),
        }
    }

    /// The progress to show now.
    pub fn progress(&self) -> (progress: Progress)
        requires
            self.wf(),
        ensures
            progress == Progress::of(self.completed(), self.total()),
            progress.wf(),
    {
        let total = self.total_units();
        Progress::update(self.completed, total)
    }

    /// What to probe next: the first endpoint not probed yet, or nothing
    /// where the scan is over.
    pub fn next_probe(&self) -> (request: Option<ProbeRequest>)
        requires
            self.wf(),
        ensures
            self.is_done() ==> request is None,
            !self.is_done() ==> request == Some(
                ProbeRequest {
                    unit: self.units()[self.completed() as int],
                    timeout_ms: self.timeout(),
                },
            ),
    {
        let total = self.total_units();
        if self.completed >= total {
            None
        } else {
            Some(ProbeRequest { unit: self.unit(self.completed), timeout_ms: self.timeout_ms })
        }
    }

    /// Takes note of what the probe of the endpoint last asked for has
    /// found. The endpoint counts as probed; where it was reachable, its
    /// result is kept and handed out. The step also carries the progress to
    /// show. On a scan that is over nothing changes.
    pub fn record(&mut self, reachable: bool) -> (step: ScanStep)
        requires
            old(self).wf(),
        ensures
            final(self).wf(),
            final(self).same_plan(old(self)),
            old(self).is_done() ==> final(self).outcomes() == old(self).outcomes() && step.found
                is None,
            !old(self).is_done() ==> final(self).outcomes() == old(self).outcomes().push(reachable)
                && final(self).probed() == old(self).probed().push(
                old(self).units()[old(self).completed() as int],
            ) && step.found == (if reachable {
                Some(
                    ScanResult {
                        unit: old(self).units()[old(self).completed() as int],
                        reachable: true,
                    },
                )
            } else {
                None
            }),
            final(self).found() == match step.found {
                Some(result) => old(self).found().push(result),
                None => old(self).found(),
            },
            step.progress == Progress::of(final(self).completed(), final(self).total()),
            step.progress.percentage >= Progress::of(
                old(self).completed(),
                old(self).total(),
            ).percentage,
            step.progress.fill_cells >= Progress::of(
                old(self).completed(),
                old(self).total(),
            ).fill_cells,
            final(self).is_done() ==> step.progress.percentage == 100,
    {
        let total = self.total_units();
        proof {
            crate::progress::lemma_percentage_complete(total as nat, total as nat);
        }
        if self.completed >= total {
            return ScanStep { progress: Progress::update(total, total), found: None };
        }
        let unit = self.unit(self.completed);
        let ghost before = self.outcomes@;
        let ghost units = self.units();
        self.completed = self.completed + 1;
        self.outcomes = Ghost(before.push(reachable));
        let found = if reachable {
            let result = ScanResult { unit, reachable: true };
            self.open.push(result);
            Some(result)
        } else {
            None
        };
        proof {
            assert(self.outcomes@.drop_last() =~= before);
            assert(final(self).probed() =~= old(self).probed().push(units[old(self).completed as int]));
            crate::progress::lemma_progress_monotonic(
                old(self).completed as nat,
                self.completed as nat,
                total as nat,
            );
        }
        ScanStep { progress: Progress::update(self.completed, total), found }
    }

    /// The results kept so far: one for each reachable endpoint, in the
    /// order in which they were found.
    pub fn results(&self) -> (results: &Vec<ScanResult>)
        ensures
            results@ == self.found(),
    {
        &self.open
    }
}

/// At every moment of a scan the endpoints probed so far are the first of
/// its endpoints, and the kept results are those among them that were
/// reachable: each once, in the order of the probes, and no other. Once the
/// scan is over every endpoint has been probed.
pub proof fn lemma_scan_results(scan: Scan)
    requires
        scan.wf(),
    ensures
        scan.probed().len() == scan.completed(),
        forall|k: int| 0 <= k < scan.completed() ==> #[trigger] scan.probed()[k] == scan.units()[k],
        scan.is_done() ==> scan.probed() == scan.units(),
        scan.found().len() == reachable_count(scan.outcomes()),
        scan.found().len() <= scan.completed(),
        forall|i: int|
            0 <= i < scan.found().len() ==> {
                let result = #[trigger] scan.found()[i];
                let k = unit_index(scan.addresses(), scan.ports(), result.unit);
                &&& result.reachable
                &&& 0 <= k < scan.completed()
                &&& scan.outcomes()[k]
                &&& result.unit == scan.units()[k]
            },
        forall|i: int, j: int|
            0 <= i < j < scan.found().len() ==> precedes(
                (#[trigger] scan.found()[i]).unit,
                (#[trigger] scan.found()[j]).unit,
            ),
        forall|k: int|
            0 <= k < scan.completed() && scan.outcomes()[k] ==> scan.found().contains(
                ScanResult { unit: #[trigger] scan.units()[k], reachable: true },
            ),
{
    lemma_open_results(scan.addresses(), scan.ports(), scan.outcomes());
    if scan.is_done() {
        assert(scan.probed() =~= scan.units());
    }
    assert forall|k: int| 0 <= k < scan.completed() && scan.outcomes()[k] implies scan.found().contains(
        ScanResult { unit: #[trigger] scan.units()[k], reachable: true },
    ) by {
        assert(scan.units()[k] == unit_at(scan.addresses(), scan.ports(), k));
    }
}

/// Starts a scan of one host: each port of `ports`, ascending.
pub fn scan_host(address: Address, ports: PortRange, timeout_ms: u64) -> (scan: Scan)
    ensures
        scan.wf(),
        scan.mode() == ScanMode::Host,
        scan.addresses().start() == address,
        scan.addresses().end() == address,
        scan.ports() == ports,
        scan.timeout() == timeout_ms,
        scan.outcomes() == Seq::<bool>::empty(),
        scan.completed() == 0,
        scan.found() == Seq::<ScanResult>::empty(),
        scan.total() == ports.end() - ports.start() + 1,
{
    let addresses = AddressRange::single(address);
    proof {
        use_type_invariant(&ports);
        lemma_host_scan_order(addresses, ports);
    }
    Scan::start(ScanMode::Host, addresses, ports, timeout_ms)
}

/// Starts a scan of a range of hosts: each address of `addresses`,
/// ascending, and for each address each port of `ports`, ascending.
pub fn scan_range(addresses: AddressRange, ports: PortRange, timeout_ms: u64) -> (scan: Scan)
    ensures
        scan.wf(),
        scan.mode() == ScanMode::Range,
        scan.addresses() == addresses,
        scan.ports() == ports,
        scan.timeout() == timeout_ms,
        scan.outcomes() == Seq::<bool>::empty(),
        scan.completed() == 0,
        scan.found() == Seq::<ScanResult>::empty(),
        scan.total() == addresses.count() * ports.count(),
{
    Scan::start(ScanMode::Range, addresses, ports, timeout_ms)
}

} // verus!
