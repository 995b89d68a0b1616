//! The rates at which disks and network adapters move data.

use vstd::arithmetic::power2::pow2;
use vstd::prelude::*;

use crate::bounds::{lemma_quotient_exponents, lemma_whole_exponents};
use crate::hardware::strings;
use crate::name_table::NameTable;
use crate::nearness::{a_rate_is_the_amount_by_the_time, in_units, near};
use crate::rounding::{
    binary_of, divide, double, double_bits, double_pattern, positive_double, positive_double_of,
    quotient, rounded, Binary, Double, DOUBLE,
};
use crate::text::{chars_of, equals};
use crate::units::lemma_precisions;

verus! {

/// What a network adapter has moved since it was started, in bytes.
pub struct Adapter {
    pub name: String,
    pub received: u64,
    pub transmitted: u64,
}

/// The value of an [`Adapter`].
pub struct AdapterView {
    pub name: Seq<char>,
    pub received: u64,
    pub transmitted: u64,
}

impl View for Adapter {
    type V = AdapterView;

    open spec fn view(&self) -> AdapterView {
        AdapterView {
            name: self.name@,
            received: self.received,
            transmitted: self.transmitted,
        }
    }
}

/// The values of several adapters.
pub open spec fn adapters_in(adapters: Seq<Adapter>) -> Seq<AdapterView> {
    adapters.map_values(|a: Adapter| a@)
}

/// Amounts at the last reading and rates in bytes per second: double precision
/// numbers, as 64-bit patterns.
pub struct IoRates {
    pub prev_disk_read: u64,
    pub prev_disk_write: u64,
    pub prev_net_rx: u64,
    pub prev_net_tx: u64,
    pub disk_read_rate: u64,
    pub disk_write_rate: u64,
    pub net_rx_rate: u64,
    pub net_tx_rate: u64,
    /// What each adapter had received and transmitted.
    pub prev_adapter_stats: NameTable<(u64, u64)>,
    /// At which rate each adapter receives and transmits.
    pub adapter_rates: NameTable<(u64, u64)>,
    /// The adapters that count; all where none is given.
    pub network_adapters: Vec<String>,
}

/// The value of [`IoRates`].
#[verifier::ext_equal]
pub struct IoView {
    pub prev_disk_read: u64,
    pub prev_disk_write: u64,
    pub prev_net_rx: u64,
    pub prev_net_tx: u64,
    pub disk_read_rate: u64,
    pub disk_write_rate: u64,
    pub net_rx_rate: u64,
    pub net_tx_rate: u64,
    pub prev_adapter_stats: Map<Seq<char>, (u64, u64)>,
    pub adapter_rates: Map<Seq<char>, (u64, u64)>,
    pub network_adapters: Seq<Seq<char>>,
}

impl View for IoRates {
    type V = IoView;

    open spec fn view(&self) -> IoView {
        IoView {
            prev_disk_read: self.prev_disk_read,
            prev_disk_write: self.prev_disk_write,
            prev_net_rx: self.prev_net_rx,
            prev_net_tx: self.prev_net_tx,
            disk_read_rate: self.disk_read_rate,
            disk_write_rate: self.disk_write_rate,
            net_rx_rate: self.net_rx_rate,
            net_tx_rate: self.net_tx_rate,
            prev_adapter_stats: self.prev_adapter_stats@,
            adapter_rates: self.adapter_rates@,
            network_adapters: strings(self.network_adapters@),
        }
    }
}

/// The pattern of a number of seconds in double precision, as a clock that
/// counts nanoseconds gives it: zero, or from `2^-30` up to `2^64`.
pub open spec fn is_duration(seconds: u64) -> bool {
    seconds == 0 || 0x3e10_0000_0000_0000 <= seconds <= 0x43f0_0000_0000_0000
}

/// A positive number of seconds, in double precision, as such a clock gives it.
pub open spec fn is_interval(seconds: Binary) -> bool {
    DOUBLE <= seconds.mant < 2 * DOUBLE && -82 <= seconds.exp <= 12
}

/// Whether an adapter counts.
pub open spec fn counts(adapters: Seq<Seq<char>>, name: Seq<char>) -> bool {
    adapters.len() == 0 || adapters.contains(name)
}

/// What the adapters that count have received together.
pub open spec fn total_received(adapters: Seq<Seq<char>>, list: Seq<AdapterView>) -> nat
    decreases list.len(),
{
    if list.len() == 0 {
        0
    } else {
        total_received(adapters, list.drop_last()) + if counts(adapters, list.last().name) {
            list.last().received as nat
        } else {
            0
        }
    }
}

/// What the adapters that count have transmitted together.
pub open spec fn total_transmitted(adapters: Seq<Seq<char>>, list: Seq<AdapterView>) -> nat
    decreases list.len(),
{
    if list.len() == 0 {
        0
    } else {
        total_transmitted(adapters, list.drop_last()) + if counts(adapters, list.last().name) {
            list.last().transmitted as nat
        } else {
            0
        }
    }
}

/// The increase of an amount, zero where it has become less.
pub open spec fn increase(now: u64, before: u64) -> nat {
    if now >= before {
        (now - before) as nat
    } else {
        0
    }
}

/// The increase of an amount per second.
pub open spec fn rate(now: u64, before: u64, seconds: Binary) -> u64 {
    double_pattern(
        quotient(
            rounded(increase(now, before), 1, DOUBLE as nat),
            seconds@,
            DOUBLE as nat,
        ),
    )
}

/// The rates of the adapters that count: a new one for each that had been read
/// before.
pub open spec fn rates_after(
    io: IoView,
    list: Seq<AdapterView>,
    seconds: Binary,
) -> Map<Seq<char>, (u64, u64)>
    decreases list.len(),
{
    if list.len() == 0 {
        io.adapter_rates
    } else {
        let before = rates_after(io, list.drop_last(), seconds);
        let a = list.last();
        if counts(io.network_adapters, a.name) && io.prev_adapter_stats.contains_key(a.name) {
            let (rx, tx) = io.prev_adapter_stats[a.name];
            before.insert(
                a.name,
                (rate(a.received, rx, seconds), rate(a.transmitted, tx, seconds)),
            )
        } else {
            before
        }
    }
}

/// The amounts of the adapters that count.
pub open spec fn amounts(adapters: Seq<Seq<char>>, list: Seq<AdapterView>) -> Map<
    Seq<char>,
    (u64, u64),
>
    decreases list.len(),
{
    if list.len() == 0 {
        Map::empty()
    } else {
        let before = amounts(adapters, list.drop_last());
        let a = list.last();
        if counts(adapters, a.name) {
            before.insert(a.name, (a.received, a.transmitted))
        } else {
            before
        }
    }
}

/// The rates after a reading. No amounts of disks are known, so that their
/// rates are zero. Where no time has passed the rates stay.
pub open spec fn next_io(io: IoView, list: Seq<AdapterView>, seconds: u64) -> IoView {
    let rx = total_received(io.network_adapters, list) as u64;
    let tx = total_transmitted(io.network_adapters, list) as u64;
    let read = IoView {
        prev_disk_read: 0,
        prev_disk_write: 0,
        prev_net_rx: rx,
        prev_net_tx: tx,
        prev_adapter_stats: amounts(io.network_adapters, list),
        ..io
    };
    match positive_double(seconds) {
        Some(s) => IoView {
            disk_read_rate: rate(0, io.prev_disk_read, s),
            disk_write_rate: rate(0, io.prev_disk_write, s),
            net_rx_rate: rate(rx, io.prev_net_rx, s),
            net_tx_rate: rate(tx, io.prev_net_tx, s),
            adapter_rates: rates_after(io, list, s),
            ..read
        },
        None => read,
    }
}

proof fn lemma_totals(adapters: Seq<Seq<char>>, list: Seq<AdapterView>, i: int)
    requires
        0 <= i <= list.len(),
    ensures
        total_received(adapters, list.take(i)) <= total_received(adapters, list),
        total_transmitted(adapters, list.take(i)) <= total_transmitted(adapters, list),
    decreases list.len() - i,
{
    if i < list.len() {
        lemma_totals(adapters, list, i + 1);
        assert(list.take(i + 1).drop_last() =~= list.take(i));
    } else {
        assert(list.take(i) =~= list);
    }
}

fn counts_of(adapters: &Vec<String>, name: &str) -> (r: bool)
    ensures
        r == counts(strings(adapters@), name@),
{
    if adapters.len() == 0 {
        return true;
    }
    let wanted = chars_of(name);
    let mut i: usize = 0;
    while i < adapters.len()
        invariant
            i <= adapters@.len(),
            wanted@ == name@,
            forall|k: int| 0 <= k < i ==> strings(adapters@)[k] != name@,
        decreases adapters.len() - i,
    {
        if equals(wanted.as_slice(), adapters[i].as_str()) {
            assert(strings(adapters@)[i as int] == name@);
            return true;
        }
        i += 1;
    }
    false
}

/// The increase of an amount per second.
pub fn rate_of(now: u64, before: u64, seconds: Binary) -> (r: u64)
    requires
        is_interval(seconds),
    ensures
        r == rate(now, before, seconds),
{
    let d: u64 = if now >= before {
        now - before
    } else {
        0
    };
    let n = binary_of(d, DOUBLE);
    proof {
        lemma_precisions();
        if d > 0 {
            lemma_whole_exponents(d as nat, 52);
            lemma_quotient_exponents(n.mant as nat, seconds.mant as nat, 52);
        }
    }
    double_bits(divide(n, seconds, DOUBLE))
}

impl IoRates {
    /// Whether each name is entered once.
    pub open spec fn wf(&self) -> bool {
        self.prev_adapter_stats.wf() && self.adapter_rates.wf()
    }

    /// Rates before the first reading.
    pub fn new(network_adapters: Vec<String>) -> (io: IoRates)
        ensures
            io.wf(),
            io@ == (IoView {
                prev_disk_read: 0,
                prev_disk_write: 0,
                prev_net_rx: 0,
                prev_net_tx: 0,
                disk_read_rate: 0,
                disk_write_rate: 0,
                net_rx_rate: 0,
                net_tx_rate: 0,
                prev_adapter_stats: Map::empty(),
                adapter_rates: Map::empty(),
                network_adapters: strings(network_adapters@),
            }),
    {
        IoRates {
            prev_disk_read: 0,
            prev_disk_write: 0,
            prev_net_rx: 0,
            prev_net_tx: 0,
            disk_read_rate: 0,
            disk_write_rate: 0,
            net_rx_rate: 0,
            net_tx_rate: 0,
            prev_adapter_stats: NameTable::new(),
            adapter_rates: NameTable::new(),
            network_adapters,
        }
    }

    /// Whether the amounts of the adapters that count can be summed up.
    pub fn can_take(&self, list: &Vec<Adapter>) -> (r: bool)
        ensures
            r == (total_received(self@.network_adapters, adapters_in(list@)) <= u64::MAX
                && total_transmitted(self@.network_adapters, adapters_in(list@)) <= u64::MAX),
    {
        let ghost counting = self@.network_adapters;
        let ghost all = adapters_in(list@);
        let mut received: u64 = 0;
        let mut transmitted: u64 = 0;
        let mut i: usize = 0;
        assert(all.take(0) =~= Seq::empty());
        while i < list.len()
            invariant
                i <= list@.len(),
                counting == self@.network_adapters,
                all == adapters_in(list@),
                received == total_received(counting, all.take(i as int)),
                transmitted == total_transmitted(counting, all.take(i as int)),
            decreases list.len() - i,
        {
            let a = &list[i];
            assert(all.take(i + 1).drop_last() =~= all.take(i as int));
            assert(all.take(i + 1).last() == a@);
            proof {
                lemma_totals(counting, all, i + 1);
            }
            if counts_of(&self.network_adapters, a.name.as_str()) {
                match (received.checked_add(a.received), transmitted.checked_add(a.transmitted)) {
                    (Some(rx), Some(tx)) => {
                        received = rx;
                        transmitted = tx;
                    },
                    _ => {
                        return false;
                    },
                }
            }
            i += 1;
        }
        assert(all.take(i as int) =~= all);
        true
    }

    /// Takes a reading of the adapters, so many seconds after the last.
    pub fn update(&mut self, list: &Vec<Adapter>, seconds: u64)
        requires
            old(self).wf(),
            is_duration(seconds),
            total_received(old(self)@.network_adapters, adapters_in(list@)) <= u64::MAX,
            total_transmitted(old(self)@.network_adapters, adapters_in(list@)) <= u64::MAX,
        ensures
            final(self).wf(),
            final(self)@ == next_io(old(self)@, adapters_in(list@), seconds),
    {
        let ghost io = self@;
        let ghost all = adapters_in(list@);
        let interval = positive_double_of(seconds);
        let mut received: u64 = 0;
        let mut transmitted: u64 = 0;
        let mut stats: NameTable<(u64, u64)> = NameTable::new();
        let mut i: usize = 0;
        assert(all.take(0) =~= Seq::empty());
        while i < list.len()
            invariant
                i <= list@.len(),
                all == adapters_in(list@),
                interval == positive_double(seconds),
                interval matches Some(s) ==> is_interval(s),
                self.wf(),
                stats.wf(),
                total_received(io.network_adapters, all) <= u64::MAX,
                total_transmitted(io.network_adapters, all) <= u64::MAX,
                received == total_received(io.network_adapters, all.take(i as int)),
                transmitted == total_transmitted(io.network_adapters, all.take(i as int)),
                stats@ == amounts(io.network_adapters, all.take(i as int)),
                self@ == (IoView {
                    adapter_rates: match interval {
                        Some(s) => rates_after(io, all.take(i as int), s),
                        None => io.adapter_rates,
                    },
                    ..io
                }),
            decreases list.len() - i,
        {
            let a = &list[i];
            assert(all.take(i + 1).drop_last() =~= all.take(i as int));
            assert(all.take(i + 1).last() == a@);
            proof {
                lemma_totals(io.network_adapters, all, i + 1);
            }
            if counts_of(&self.network_adapters, a.name.as_str()) {
                received = received + a.received;
                transmitted = transmitted + a.transmitted;
                match interval {
                    Some(s) => {
                        match self.prev_adapter_stats.get(a.name.as_str()) {
                            Some((rx, tx)) => {
                                let rates = (
                                    rate_of(a.received, rx, s),
                                    rate_of(a.transmitted, tx, s),
                                );
                                self.adapter_rates.insert(a.name.as_str(), rates);
                            },
                            None => {},
                        }
                    },
                    None => {},
                }
                stats.insert(a.name.as_str(), (a.received, a.transmitted));
            }
            i += 1;
        }
        assert(all.take(i as int) =~= all);
        match interval {
            Some(s) => {
                self.disk_read_rate = rate_of(0, self.prev_disk_read, s);
                self.disk_write_rate = rate_of(0, self.prev_disk_write, s);
                self.net_rx_rate = rate_of(received, self.prev_net_rx, s);
                self.net_tx_rate = rate_of(transmitted, self.prev_net_tx, s);
            },
            None => {},
        }
        self.prev_disk_read = 0;
        self.prev_disk_write = 0;
        self.prev_net_rx = received;
        self.prev_net_tx = transmitted;
        self.prev_adapter_stats = stats;
        assert(self@ =~= next_io(io, all, seconds));
    }
}

/// An adapter that does not count is neither noted nor gets a rate.
pub proof fn other_adapters_are_left_out(
    io: IoView,
    list: Seq<AdapterView>,
    seconds: u64,
    name: Seq<char>,
)
    requires
        !counts(io.network_adapters, name),
    ensures
        !next_io(io, list, seconds).prev_adapter_stats.contains_key(name),
        next_io(io, list, seconds).adapter_rates.contains_key(name)
            == io.adapter_rates.contains_key(name),
        io.adapter_rates.contains_key(name) ==> next_io(io, list, seconds).adapter_rates[name]
            == io.adapter_rates[name],
    decreases list.len(),
{
    lemma_left_out(io, list, name);
    match positive_double(seconds) {
        Some(s) => lemma_no_rate(io, list, s, name),
        None => {},
    }
}

proof fn lemma_left_out(io: IoView, list: Seq<AdapterView>, name: Seq<char>)
    requires
        !counts(io.network_adapters, name),
    ensures
        !amounts(io.network_adapters, list).contains_key(name),
    decreases list.len(),
{
    if list.len() > 0 {
        lemma_left_out(io, list.drop_last(), name);
    }
}

proof fn lemma_no_rate(io: IoView, list: Seq<AdapterView>, seconds: Binary, name: Seq<char>)
    requires
        !counts(io.network_adapters, name),
    ensures
        rates_after(io, list, seconds).contains_key(name) == io.adapter_rates.contains_key(name),
        io.adapter_rates.contains_key(name) ==> rates_after(io, list, seconds)[name]
            == io.adapter_rates[name],
    decreases list.len(),
{
    if list.len() > 0 {
        lemma_no_rate(io, list.drop_last(), seconds, name);
    }
}

/// An amount that has not grown, or that was set back, gives the rate zero.
pub proof fn no_increase_no_rate(now: u64, before: u64, seconds: Binary)
    requires
        now <= before,
    ensures
        rate(now, before, seconds) == 0,
{
}

/// The amounts of the adapters that count are added up: no other ones, and these
/// once for each time they are listed.
pub proof fn totals_add_up_what_counts(
    adapters: Seq<Seq<char>>,
    list: Seq<AdapterView>,
    a: AdapterView,
)
    ensures
        total_received(adapters, Seq::empty()) == 0,
        total_transmitted(adapters, Seq::empty()) == 0,
        adapters.len() == 0 || adapters.contains(a.name) ==> total_received(
            adapters,
            list.push(a),
        ) == total_received(adapters, list) + a.received && total_transmitted(
            adapters,
            list.push(a),
        ) == total_transmitted(adapters, list) + a.transmitted,
        adapters.len() > 0 && !adapters.contains(a.name) ==> total_received(adapters, list.push(a))
            == total_received(adapters, list) && total_transmitted(adapters, list.push(a))
            == total_transmitted(adapters, list),
{
    assert(list.push(a).drop_last() =~= list);
}

proof fn lemma_rate_of_adapter(io: IoView, list: Seq<AdapterView>, s: Binary, i: int)
    requires
        0 <= i < list.len(),
        counts(io.network_adapters, list[i].name),
        forall|j: int| i < j < list.len() ==> (#[trigger] list[j]).name != list[i].name,
        io.prev_adapter_stats.contains_key(list[i].name),
    ensures
        ({
            let a = list[i];
            let (rx, tx) = io.prev_adapter_stats[a.name];
            &&& rates_after(io, list, s).contains_key(a.name)
            &&& rates_after(io, list, s)[a.name] == (
                rate(a.received, rx, s),
                rate(a.transmitted, tx, s),
            )
        }),
    decreases list.len(),
{
    if i < list.len() - 1 {
        let rest = list.drop_last();
        assert(rest[i] == list[i]);
        assert forall|j: int| i < j < rest.len() implies (#[trigger] rest[j]).name
            != rest[i].name by {
            assert(rest[j] == list[j]);
        }
        lemma_rate_of_adapter(io, rest, s, i);
        assert(list.last() == list[list.len() - 1]);
    }
}

proof fn lemma_rate_stays(io: IoView, list: Seq<AdapterView>, s: Binary, name: Seq<char>)
    requires
        !io.prev_adapter_stats.contains_key(name) || forall|j: int|
            0 <= j < list.len() ==> (#[trigger] list[j]).name != name,
    ensures
        rates_after(io, list, s).contains_key(name) == io.adapter_rates.contains_key(name),
        io.adapter_rates.contains_key(name) ==> rates_after(io, list, s)[name]
            == io.adapter_rates[name],
    decreases list.len(),
{
    if list.len() > 0 {
        let rest = list.drop_last();
        if io.prev_adapter_stats.contains_key(name) {
            assert forall|j: int| 0 <= j < rest.len() implies (#[trigger] rest[j]).name
                != name by {
                assert(rest[j] == list[j]);
            }
            assert(list[list.len() - 1].name != name);
        }
        lemma_rate_stays(io, rest, s, name);
    }
}

proof fn lemma_listed_amounts(adapters: Seq<Seq<char>>, list: Seq<AdapterView>, name: Seq<char>)
    ensures
        amounts(adapters, list).contains_key(name) <==> counts(adapters, name) && exists|j: int|
            0 <= j < list.len() && (#[trigger] list[j]).name == name,
    decreases list.len(),
{
    if list.len() > 0 {
        let rest = list.drop_last();
        let last = list.len() - 1;
        lemma_listed_amounts(adapters, rest, name);
        assert(list.last() == list[last]);
        if exists|j: int| 0 <= j < rest.len() && (#[trigger] rest[j]).name == name {
            let j = choose|j: int| 0 <= j < rest.len() && (#[trigger] rest[j]).name == name;
            assert(list[j].name == name);
        }
        if exists|j: int| 0 <= j < list.len() && (#[trigger] list[j]).name == name {
            let j = choose|j: int| 0 <= j < list.len() && (#[trigger] list[j]).name == name;
            if j < last {
                assert(rest[j].name == name);
            }
        }
    }
}

proof fn lemma_last_amounts(adapters: Seq<Seq<char>>, list: Seq<AdapterView>, i: int)
    requires
        0 <= i < list.len(),
        counts(adapters, list[i].name),
        forall|j: int| i < j < list.len() ==> (#[trigger] list[j]).name != list[i].name,
    ensures
        amounts(adapters, list)[list[i].name] == (list[i].received, list[i].transmitted),
    decreases list.len(),
{
    if i < list.len() - 1 {
        let rest = list.drop_last();
        assert(rest[i] == list[i]);
        assert forall|j: int| i < j < rest.len() implies (#[trigger] rest[j]).name
            != rest[i].name by {
            assert(rest[j] == list[j]);
        }
        lemma_last_amounts(adapters, rest, i);
        assert(list.last() == list[list.len() - 1]);
    }
}

/// After a reading in which time has passed, an adapter that counts and was in
/// the last reading has the rate of its increase since then, whatever rate it had
/// before. An adapter that is not listed, or was not in the last reading, has the
/// rate that it had.
pub proof fn adapters_have_their_latest_rates(
    io: IoView,
    list: Seq<AdapterView>,
    seconds: u64,
    i: int,
    other: Seq<char>,
)
    requires
        0 <= i < list.len(),
        io.network_adapters.len() == 0 || io.network_adapters.contains(list[i].name),
        forall|j: int| i < j < list.len() ==> (#[trigger] list[j]).name != list[i].name,
        io.prev_adapter_stats.contains_key(list[i].name),
        positive_double(seconds) is Some,
        !io.prev_adapter_stats.contains_key(other) || forall|j: int|
            0 <= j < list.len() ==> (#[trigger] list[j]).name != other,
    ensures
        ({
            let after = next_io(io, list, seconds);
            let s = positive_double(seconds)->0;
            let a = list[i];
            let (rx, tx) = io.prev_adapter_stats[a.name];
            &&& after.adapter_rates.contains_key(a.name)
            &&& after.adapter_rates[a.name] == (
                rate(a.received, rx, s),
                rate(a.transmitted, tx, s),
            )
            &&& after.adapter_rates.contains_key(other) == io.adapter_rates.contains_key(other)
            &&& io.adapter_rates.contains_key(other) ==> after.adapter_rates[other]
                == io.adapter_rates[other]
        }),
{
    let s = positive_double(seconds)->0;
    lemma_rate_of_adapter(io, list, s, i);
    lemma_rate_stays(io, list, s, other);
}

/// A reading notes the amounts of the adapters that count and are listed, and of
/// no others, and their sums. The rates of the whole network are those of the
/// sums; where no time has passed they stay.
pub proof fn a_reading_notes_the_amounts(
    io: IoView,
    list: Seq<AdapterView>,
    seconds: u64,
    name: Seq<char>,
    i: int,
)
    requires
        0 <= i < list.len(),
        total_received(io.network_adapters, list) <= u64::MAX,
        total_transmitted(io.network_adapters, list) <= u64::MAX,
    ensures
        ({
            let after = next_io(io, list, seconds);
            let all = io.network_adapters;
            &&& after.network_adapters == all
            &&& after.prev_net_rx == total_received(all, list)
            &&& after.prev_net_tx == total_transmitted(all, list)
            &&& after.prev_adapter_stats.contains_key(name) <==> (all.len() == 0 || all.contains(
                name,
            )) && exists|j: int| 0 <= j < list.len() && (#[trigger] list[j]).name == name
            &&& (all.len() == 0 || all.contains(list[i].name)) && (forall|j: int|
                i < j < list.len() ==> (#[trigger] list[j]).name != list[i].name)
                ==> after.prev_adapter_stats[list[i].name] == (
                list[i].received,
                list[i].transmitted,
            )
            &&& match positive_double(seconds) {
                Some(s) => after.net_rx_rate == rate(after.prev_net_rx, io.prev_net_rx, s)
                    && after.net_tx_rate == rate(after.prev_net_tx, io.prev_net_tx, s)
                    && after.disk_read_rate == 0 && after.disk_write_rate == 0,
                None => after.net_rx_rate == io.net_rx_rate && after.net_tx_rate == io.net_tx_rate
                    && after.disk_read_rate == io.disk_read_rate && after.disk_write_rate
                    == io.disk_write_rate && after.adapter_rates == io.adapter_rates,
            }
        }),
{
    lemma_listed_amounts(io.network_adapters, list, name);
    if counts(io.network_adapters, list[i].name) && (forall|j: int|
        i < j < list.len() ==> (#[trigger] list[j]).name != list[i].name) {
        lemma_last_amounts(io.network_adapters, list, i);
    }
    match positive_double(seconds) {
        Some(s) => {
            no_increase_no_rate(0, io.prev_disk_read, s);
            no_increase_no_rate(0, io.prev_disk_write, s);
        },
        None => {},
    }
}

/// A rate is the increase of an amount divided by the seconds, and off by at most
/// four parts in `2^53`; an amount that was set back has not increased.
pub proof fn a_rate_is_the_increase_by_the_seconds(
    now: u64,
    before: u64,
    seconds: u64,
    k: nat,
    j: nat,
)
    requires
        is_duration(seconds),
        seconds > 0,
        k >= 1074,
        j >= 1074,
    ensures
        positive_double(seconds) matches Some(s) && (double(rate(now, before, s)) matches
            Double::Finite { negative, magnitude } && !negative && near(
            in_units(magnitude@, k) * in_units(s@, j),
            (if now >= before {
                now - before
            } else {
                0
            }) * pow2(k + j),
            4,
            0x20_0000_0000_0000,
        )),
{
    let s = positive_double(seconds)->0;
    let field = seconds / 0x10_0000_0000_0000;
    assert(0x3e1 <= field <= 0x43f);
    assert(is_interval(s));
    let d = increase(now, before);
    let n = rounded(d, 1, DOUBLE as nat);
    let q = quotient(n, s@, DOUBLE as nat);
    lemma_precisions();
    let bits = double_pattern(q);
    if d > 0 {
        lemma_whole_exponents(d, 52);
        lemma_quotient_exponents(n.0, s.mant as nat, 52);
        let b = Binary { mant: q.0 as u64, exp: q.1 as i32 };
        assert(b@ == q);
        let f = (q.1 + 1075) as u64;
        let r = (q.0 - 0x10_0000_0000_0000) as u64;
        assert(bits == f * 0x10_0000_0000_0000 + r);
        assert(bits / 0x10_0000_0000_0000 == f && bits % 0x10_0000_0000_0000 == r);
        assert(double(bits) == (Double::Finite { negative: false, magnitude: b }));
        a_rate_is_the_amount_by_the_time(d, s@, DOUBLE as nat, k, j);
    } else {
        assert(q.0 == 0);
        assert(double(0) == (Double::Finite {
            negative: false,
            magnitude: Binary { mant: 0, exp: (-1074) as i32 },
        }));
        let p = pow2((k - 1074) as nat);
        let t = in_units(s@, j);
        assert(0 * p == 0 && 0 * t == 0) by (nonlinear_arith);
        assert(0 * pow2(k + j) == 0) by (nonlinear_arith);
        assert(near(0, 0, 4, 0x20_0000_0000_0000));
    }
}

} // verus!
