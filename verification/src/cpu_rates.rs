//! What the processors do: the rates of their counters, and how their time is
//! shared.

use vstd::arithmetic::power2::pow2;
use vstd::prelude::*;

use crate::bounds::{lemma_share_exponents, share_is_at_most_hundred};
use crate::io_rates::is_duration;
use crate::nearness::{
    a_share_is_the_part_of_the_total, a_whole_rate_is_cut_off, in_units, near,
};
use crate::rounding::{
    binary_of, divide, numer, positive_double, positive_double_of, quotient, rounded, single_bits,
    single_pattern, stands_for, whole, whole_up_to, Binary, DOUBLE,
};
use crate::sysinfo_ext::{no_stats, CpuStats};
use crate::units::{lemma_precisions, share, share_of};
use crate::usage::{busy, busy_and_idle_make_a_hundred, busy_of, is_share, to_single};

verus! {

/// Counters at the last reading, their rates, and the shares of the time in
/// percent.
pub struct CpuRates {
    pub prev: CpuStats,
    pub ctx_switches_rate: u64,
    pub interrupts_rate: u64,
    pub softirqs_rate: u64,
    pub user_pct: Binary,
    pub system_pct: Binary,
    pub iowait_pct: Binary,
    pub idle_pct: Binary,
    pub running_procs: u64,
    pub blocked_procs: u64,
}

/// Whether a second has passed.
pub open spec fn second_passed(seconds: u64) -> bool {
    positive_double(seconds) matches Some(s) && whole(s@) >= 1
}

/// Whether no counter is below its earlier value.
pub open spec fn not_below(now: CpuStats, before: CpuStats) -> bool {
    &&& now.context_switches >= before.context_switches
    &&& now.interrupts >= before.interrupts
    &&& now.softirqs >= before.softirqs
    &&& now.user >= before.user
    &&& now.nice >= before.nice
    &&& now.system >= before.system
    &&& now.idle >= before.idle
    &&& now.iowait >= before.iowait
    &&& now.irq >= before.irq
    &&& now.softirq >= before.softirq
}

/// The time for programs since the last reading.
pub open spec fn user_time(now: CpuStats, before: CpuStats) -> int {
    (now.user - before.user) + (now.nice - before.nice)
}

/// The time for the system itself since the last reading.
pub open spec fn system_time(now: CpuStats, before: CpuStats) -> int {
    (now.system - before.system) + (now.irq - before.irq) + (now.softirq - before.softirq)
}

/// The time that was waited for devices since the last reading.
pub open spec fn iowait_time(now: CpuStats, before: CpuStats) -> int {
    now.iowait - before.iowait
}

/// The time in which nothing was done since the last reading.
pub open spec fn idle_time(now: CpuStats, before: CpuStats) -> int {
    now.idle - before.idle
}

/// All time since the last reading.
pub open spec fn total_time(now: CpuStats, before: CpuStats) -> int {
    (now.user - before.user) + (now.nice - before.nice) + (now.system - before.system) + (now.idle
        - before.idle) + (now.iowait - before.iowait) + (now.irq - before.irq) + (now.softirq
        - before.softirq)
}

/// Whether one reading of the counters can follow another: no counter has gone
/// back, and the time between them can be counted.
pub fn can_follow(now: &CpuStats, before: &CpuStats) -> (r: bool)
    ensures
        r == (not_below(*now, *before) && total_time(*now, *before) <= u64::MAX),
{
    if now.context_switches < before.context_switches || now.interrupts < before.interrupts
        || now.softirqs < before.softirqs || now.user < before.user || now.nice < before.nice
        || now.system < before.system || now.idle < before.idle || now.iowait < before.iowait
        || now.irq < before.irq || now.softirq < before.softirq {
        return false;
    }
    let total: u128 = (now.user - before.user) as u128 + (now.nice - before.nice) as u128 + (
    now.system - before.system) as u128 + (now.idle - before.idle) as u128 + (now.iowait
        - before.iowait) as u128 + (now.irq - before.irq) as u128 + (now.softirq
        - before.softirq) as u128;
    total <= u64::MAX as u128
}

/// How often per second, as a whole number: the fraction is cut off.
pub open spec fn per_second(count: nat, seconds: Binary) -> u64 {
    let n = whole(quotient(rounded(count, 1, DOUBLE as nat), seconds@, DOUBLE as nat));
    if n <= u64::MAX {
        n as u64
    } else {
        u64::MAX
    }
}

fn per_second_of(count: u64, seconds: Binary) -> (r: u64)
    requires
        0 < seconds.mant,
        -2000 <= seconds.exp <= 2000,
    ensures
        r == per_second(count as nat, seconds),
{
    whole_up_to(divide(binary_of(count, DOUBLE), seconds, DOUBLE), u64::MAX)
}

/// A share in percent.
pub open spec fn percentage(part: int, total: int) -> Binary {
    let (m, e) = share(part as nat, total as nat, DOUBLE as nat);
    Binary { mant: m as u64, exp: e as i32 }
}

fn percentage_of(part: u64, total: u64) -> (r: Binary)
    requires
        part <= total,
        0 < total,
    ensures
        r == percentage(part as int, total as int),
        is_share(r@),
{
    proof {
        lemma_precisions();
        share_is_at_most_hundred(part as nat, total as nat, 52);
    }
    share_of(part, total, DOUBLE)
}

/// The rates after a reading. They change only where at least a second has
/// passed since the last, and the shares only where any time was counted.
pub open spec fn next_cpu(cpu: CpuRates, now: CpuStats, seconds: u64) -> CpuRates {
    if second_passed(seconds) {
        let s = positive_double(seconds)->0;
        let before = cpu.prev;
        let total = total_time(now, before);
        let counted = CpuRates {
            prev: now,
            ctx_switches_rate: per_second(
                (now.context_switches - before.context_switches) as nat,
                s,
            ),
            interrupts_rate: per_second((now.interrupts - before.interrupts) as nat, s),
            softirqs_rate: per_second((now.softirqs - before.softirqs) as nat, s),
            running_procs: now.running_procs,
            blocked_procs: now.blocked_procs,
            ..cpu
        };
        if total > 0 {
            CpuRates {
                user_pct: percentage(user_time(now, before), total),
                system_pct: percentage(system_time(now, before), total),
                iowait_pct: percentage(iowait_time(now, before), total),
                idle_pct: percentage(idle_time(now, before), total),
                ..counted
            }
        } else {
            counted
        }
    } else {
        cpu
    }
}

impl CpuRates {
    /// Whether the percentages are shares.
    pub open spec fn wf(&self) -> bool {
        &&& is_share(self.user_pct@)
        &&& is_share(self.system_pct@)
        &&& is_share(self.iowait_pct@)
        &&& is_share(self.idle_pct@)
    }

    /// Rates before the first reading.
    pub fn new() -> (cpu: CpuRates)
        ensures
            cpu.wf(),
            cpu == (CpuRates {
                prev: no_stats(),
                ctx_switches_rate: 0,
                interrupts_rate: 0,
                softirqs_rate: 0,
                user_pct: Binary { mant: 0, exp: 0 },
                system_pct: Binary { mant: 0, exp: 0 },
                iowait_pct: Binary { mant: 0, exp: 0 },
                idle_pct: Binary { mant: 0, exp: 0 },
                running_procs: 0,
                blocked_procs: 0,
            }),
    {
        let zero = Binary { mant: 0, exp: 0 };
        CpuRates {
            prev: CpuStats::default(),
            ctx_switches_rate: 0,
            interrupts_rate: 0,
            softirqs_rate: 0,
            user_pct: zero,
            system_pct: zero,
            iowait_pct: zero,
            idle_pct: zero,
            running_procs: 0,
            blocked_procs: 0,
        }
    }

    /// Takes a reading of the counters, so many seconds after the last that
    /// was taken, and tells whether it was taken now.
    pub fn update(&mut self, now: CpuStats, seconds: u64) -> (taken: bool)
        requires
            old(self).wf(),
            is_duration(seconds),
            second_passed(seconds) ==> not_below(now, old(self).prev) && total_time(
                now,
                old(self).prev,
            ) <= u64::MAX,
        ensures
            final(self).wf(),
            *final(self) == next_cpu(*old(self), now, seconds),
            taken == second_passed(seconds),
    {
        let s = match positive_double_of(seconds) {
            Some(s) => s,
            None => {
                return false;
            },
        };
        if whole_up_to(s, 1) < 1 {
            return false;
        }
        self.ctx_switches_rate =
        per_second_of(now.context_switches - self.prev.context_switches, s);
        self.interrupts_rate = per_second_of(now.interrupts - self.prev.interrupts, s);
        self.softirqs_rate = per_second_of(now.softirqs - self.prev.softirqs, s);
        let user: u64 = now.user - self.prev.user;
        let nice: u64 = now.nice - self.prev.nice;
        let system: u64 = now.system - self.prev.system;
        let idle: u64 = now.idle - self.prev.idle;
        let iowait: u64 = now.iowait - self.prev.iowait;
        let irq: u64 = now.irq - self.prev.irq;
        let softirq: u64 = now.softirq - self.prev.softirq;
        let total: u64 = user + nice + system + idle + iowait + irq + softirq;
        if total > 0 {
            self.user_pct = percentage_of(user + nice, total);
            self.system_pct = percentage_of(system + irq + softirq, total);
            self.iowait_pct = percentage_of(iowait, total);
            self.idle_pct = percentage_of(idle, total);
        }
        self.running_procs = now.running_procs;
        self.blocked_procs = now.blocked_procs;
        self.prev = now;
        true
    }

    /// The share of the time that was not idle, in percent.
    pub open spec fn load(self) -> (nat, int) {
        busy(self.idle_pct@)
    }

    /// The share of the time that was not idle, in percent: a single precision
    /// number, as a 32-bit pattern.
    pub fn total_cpu(&self) -> (r: u32)
        requires
            self.wf(),
        ensures
            r == single_pattern(busy(self.idle_pct@)),
            stands_for(r, busy(self.idle_pct@)),
            r == single_pattern(self.load()),
    {
        single_bits(busy_of(self.idle_pct))
    }
}

/// The four shares are of times that make up all time.
pub proof fn the_shares_make_up_all_time(now: CpuStats, before: CpuStats)
    ensures
        user_time(now, before) + system_time(now, before) + iowait_time(now, before) + idle_time(
            now,
            before,
        ) == total_time(now, before),
{
}

/// Within a second nothing changes.
pub proof fn rates_last_a_second(cpu: CpuRates, now: CpuStats, seconds: u64)
    requires
        seconds < 0x3ff0_0000_0000_0000,
        is_duration(seconds),
    ensures
        next_cpu(cpu, now, seconds) == cpu,
{
    if seconds != 0 {
        let s = positive_double(seconds)->0;
        let field = seconds / 0x10_0000_0000_0000;
        assert(field < 0x3ff);
        assert(s.exp <= -53);
        vstd::arithmetic::power2::lemma2_to64();
        vstd::arithmetic::power2::lemma2_to64_rest();
        let k = (-s.exp) as nat;
        if k > 53 {
            vstd::arithmetic::power2::lemma_pow2_strictly_increases(53, k);
        }
        let d = vstd::arithmetic::power2::pow2(k);
        assert(d >= 0x20_0000_0000_0000);
        vstd::arithmetic::div_mod::lemma_basic_div(s.mant as int, d as int);
        assert(whole(s@) == 0);
    }
}

/// From one second on a reading is taken.
pub proof fn a_second_is_enough(seconds: u64)
    requires
        0x3ff0_0000_0000_0000 <= seconds <= 0x43f0_0000_0000_0000,
    ensures
        second_passed(seconds),
{
    let s = positive_double(seconds)->0;
    let field = seconds / 0x10_0000_0000_0000;
    assert(0x3ff <= field <= 0x43f);
    lemma_precisions();
    assert(DOUBLE <= s.mant);
    if s.exp >= 0 {
        vstd::arithmetic::power2::lemma_pow2_pos(s.exp as nat);
        let p = vstd::arithmetic::power2::pow2(s.exp as nat);
        assert(s.mant * p >= 1) by (nonlinear_arith)
            requires
                s.mant >= 1,
                p >= 1,
        ;
        vstd::arithmetic::power2::lemma2_to64();
        assert(numer(s@) >= 1);
        assert(numer(s@) / 1 == numer(s@));
    } else {
        let k = (-s.exp) as nat;
        vstd::arithmetic::power2::lemma_pow2_pos(k);
        if k < 52 {
            vstd::arithmetic::power2::lemma_pow2_strictly_increases(k, 52);
        }
        let d = vstd::arithmetic::power2::pow2(k);
        assert(s.mant as nat / d >= 1) by (nonlinear_arith)
            requires
                s.mant >= d,
                d > 0,
        ;
    }
}

/// A reading that is taken is kept for the next, with what runs and what waits.
pub proof fn a_reading_is_kept(cpu: CpuRates, now: CpuStats, seconds: u64)
    requires
        second_passed(seconds),
    ensures
        next_cpu(cpu, now, seconds).prev == now,
        next_cpu(cpu, now, seconds).running_procs == now.running_procs,
        next_cpu(cpu, now, seconds).blocked_procs == now.blocked_procs,
{
}

/// Whether two readings lie as far from their last ones in all counters.
pub open spec fn as_far(now: CpuStats, before: CpuStats, then: CpuStats, earlier: CpuStats) -> bool {
    &&& now.context_switches - before.context_switches == then.context_switches
        - earlier.context_switches
    &&& now.interrupts - before.interrupts == then.interrupts - earlier.interrupts
    &&& now.softirqs - before.softirqs == then.softirqs - earlier.softirqs
    &&& now.user - before.user == then.user - earlier.user
    &&& now.nice - before.nice == then.nice - earlier.nice
    &&& now.system - before.system == then.system - earlier.system
    &&& now.idle - before.idle == then.idle - earlier.idle
    &&& now.iowait - before.iowait == then.iowait - earlier.iowait
    &&& now.irq - before.irq == then.irq - earlier.irq
    &&& now.softirq - before.softirq == then.softirq - earlier.softirq
}

/// Shares and rates depend on what the counters have gained since the last
/// reading alone: counters that stand higher by the same amount in both readings
/// change nothing.
pub proof fn only_the_gains_count(
    cpu: CpuRates,
    now: CpuStats,
    other: CpuRates,
    then: CpuStats,
    seconds: u64,
)
    requires
        second_passed(seconds),
        as_far(now, cpu.prev, then, other.prev),
        total_time(now, cpu.prev) > 0,
    ensures
        ({
            let one = next_cpu(cpu, now, seconds);
            let two = next_cpu(other, then, seconds);
            &&& one.user_pct == two.user_pct && one.system_pct == two.system_pct
            &&& one.iowait_pct == two.iowait_pct && one.idle_pct == two.idle_pct
            &&& one.ctx_switches_rate == two.ctx_switches_rate
            &&& one.interrupts_rate == two.interrupts_rate
            &&& one.softirqs_rate == two.softirqs_rate
        }),
{
}

proof fn lemma_percentage(part: int, total: int, k: nat)
    requires
        0 <= part <= u64::MAX,
        0 < total <= u64::MAX,
        percentage(part, total).exp + k >= 0,
    ensures
        near(
            in_units(percentage(part, total)@, k) * total,
            (100 * part) * pow2(k),
            8,
            0x20_0000_0000_0000,
        ),
{
    lemma_precisions();
    lemma_share_exponents(part as nat, total as nat, 52);
    let s = share(part as nat, total as nat, DOUBLE as nat);
    assert(percentage(part, total)@ == s);
    a_share_is_the_part_of_the_total(part as nat, total as nat, DOUBLE as nat, k);
}

/// Each share is what its counters have gained, of what all seven have gained
/// together, in percent; it is off by at most eight parts in `2^53`.
pub proof fn the_shares_are_of_the_time_gained(
    cpu: CpuRates,
    now: CpuStats,
    seconds: u64,
    k: nat,
)
    requires
        second_passed(seconds),
        not_below(now, cpu.prev),
        k >= 117,
        ({
            let b = cpu.prev;
            0 < (now.user - b.user) + (now.nice - b.nice) + (now.system - b.system) + (now.idle
                - b.idle) + (now.iowait - b.iowait) + (now.irq - b.irq) + (now.softirq - b.softirq)
                <= u64::MAX
        }),
    ensures
        ({
            let b = cpu.prev;
            let after = next_cpu(cpu, now, seconds);
            let all = (now.user - b.user) + (now.nice - b.nice) + (now.system - b.system) + (now.idle
                - b.idle) + (now.iowait - b.iowait) + (now.irq - b.irq) + (now.softirq - b.softirq);
            let user = (now.user - b.user) + (now.nice - b.nice);
            let system = (now.system - b.system) + (now.irq - b.irq) + (now.softirq - b.softirq);
            let h: int = 0x20_0000_0000_0000;
            &&& near(in_units(after.user_pct@, k) * all, (100 * user) * pow2(k), 8, h)
            &&& near(in_units(after.system_pct@, k) * all, (100 * system) * pow2(k), 8, h)
            &&& near(
                in_units(after.iowait_pct@, k) * all,
                (100 * (now.iowait - b.iowait)) * pow2(k),
                8,
                h,
            )
            &&& near(
                in_units(after.idle_pct@, k) * all,
                (100 * (now.idle - b.idle)) * pow2(k),
                8,
                h,
            )
        }),
{
    let b = cpu.prev;
    let all = total_time(now, b);
    lemma_precisions();
    lemma_share_exponents(user_time(now, b) as nat, all as nat, 52);
    lemma_share_exponents(system_time(now, b) as nat, all as nat, 52);
    lemma_share_exponents(iowait_time(now, b) as nat, all as nat, 52);
    lemma_share_exponents(idle_time(now, b) as nat, all as nat, 52);
    lemma_percentage(user_time(now, b), all, k);
    lemma_percentage(system_time(now, b), all, k);
    lemma_percentage(iowait_time(now, b), all, k);
    lemma_percentage(idle_time(now, b), all, k);
}

/// Each rate is what its counter has gained divided by the seconds, the fraction
/// cut off; the quotient is off by at most four parts in `2^53`.
pub proof fn the_rates_are_gains_by_time(cpu: CpuRates, now: CpuStats, seconds: u64, j: nat)
    requires
        second_passed(seconds),
        is_duration(seconds),
        not_below(now, cpu.prev),
        j >= 1074,
    ensures
        ({
            let after = next_cpu(cpu, now, seconds);
            let s = in_units(positive_double(seconds)->0@, j);
            let b = cpu.prev;
            &&& is_whole_rate(
                after.ctx_switches_rate,
                now.context_switches - b.context_switches,
                s,
                j,
            )
            &&& is_whole_rate(after.interrupts_rate, now.interrupts - b.interrupts, s, j)
            &&& is_whole_rate(after.softirqs_rate, now.softirqs - b.softirqs, s, j)
        }),
{
    let s = positive_double(seconds)->0;
    let b = cpu.prev;
    assert(s.mant > 0 && s.exp >= -1074) by {
        let field = seconds / 0x10_0000_0000_0000;
        assert(field > 0);
    }
    lemma_whole_rate((now.context_switches - b.context_switches) as nat, s, j);
    lemma_whole_rate((now.interrupts - b.interrupts) as nat, s, j);
    lemma_whole_rate((now.softirqs - b.softirqs) as nat, s, j);
}

/// Whether a whole number is a gain divided by a time in units of `2^-j` seconds,
/// with the fraction cut off, and as far as 64 bits hold it.
pub open spec fn is_whole_rate(rate: u64, gain: int, time: int, j: nat) -> bool {
    let h: int = 0x20_0000_0000_0000;
    &&& rate * time * (h - 4) <= (gain * pow2(j)) * h
    &&& rate < u64::MAX ==> (gain * pow2(j)) * h < (rate + 1) * time * (h + 4)
}

proof fn lemma_whole_rate(gain: nat, s: Binary, j: nat)
    requires
        s.mant > 0,
        s.exp + j >= 0,
    ensures
        is_whole_rate(per_second(gain, s), gain as int, in_units(s@, j), j),
{
    a_whole_rate_is_cut_off(gain, s@, DOUBLE as nat, j);
    let n = whole(quotient(rounded(gain, 1, DOUBLE as nat), s@, DOUBLE as nat));
    if n > u64::MAX {
        let h: int = 0x20_0000_0000_0000;
        let t = in_units(s@, j);
        let r = u64::MAX as int;
        vstd::arithmetic::power2::lemma_pow2_pos((s.exp + j) as nat);
        assert(t >= 0) by (nonlinear_arith)
            requires
                t == s.mant * pow2((s.exp + j) as nat),
                pow2((s.exp + j) as nat) > 0,
        ;
        assert(r * t * (h - 4) <= n * t * (h - 4)) by (nonlinear_arith)
            requires
                r <= n,
                t >= 0,
                h >= 4,
        ;
    }
}

/// The load is what the idle share leaves of a hundred, off by at most one part in
/// `2^24` when the idle share is taken in single precision, and by as much again when
/// what is left is rounded.
pub proof fn the_load_is_what_is_not_idle(cpu: CpuRates, k: nat)
    requires
        cpu.wf(),
        k >= 200,
    ensures
        ({
            let idle = to_single(cpu.idle_pct@);
            &&& near(in_units(idle, k), in_units(cpu.idle_pct@, k), 1, 0x100_0000)
            &&& near(in_units(cpu.load(), k), 100 * pow2(k) - in_units(idle, k), 1, 0x100_0000)
        }),
{
    busy_and_idle_make_a_hundred(cpu.idle_pct@, k);
}

/// A reading can follow another if and only if none of the counters fell that are
/// compared.
pub proof fn readings_follow_where_no_counter_falls(now: CpuStats, before: CpuStats)
    ensures
        !not_below(now, before) <==> (now.context_switches < before.context_switches
            || now.interrupts < before.interrupts || now.softirqs < before.softirqs || now.user
            < before.user || now.nice < before.nice || now.system < before.system || now.idle
            < before.idle || now.iowait < before.iowait || now.irq < before.irq || now.softirq
            < before.softirq),
{
}

/// Where no time was counted since the last reading the shares stay as they were; where
/// no second has passed everything does.
pub proof fn shares_stay_where_no_time_was_counted(cpu: CpuRates, now: CpuStats, seconds: u64)
    requires
        not_below(now, cpu.prev),
    ensures
        ({
            let b = cpu.prev;
            let after = next_cpu(cpu, now, seconds);
            now.user == b.user && now.nice == b.nice && now.system == b.system && now.idle == b.idle
                && now.iowait == b.iowait && now.irq == b.irq && now.softirq == b.softirq ==> {
                &&& after.user_pct == cpu.user_pct && after.system_pct == cpu.system_pct
                &&& after.iowait_pct == cpu.iowait_pct && after.idle_pct == cpu.idle_pct
            }
        }),
        !second_passed(seconds) ==> next_cpu(cpu, now, seconds) == cpu,
{
}

} // verus!
