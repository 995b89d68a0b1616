//! The usages of the last minute.

use std::collections::VecDeque;

use vstd::prelude::*;

use crate::rounding::{single_bits, single_pattern};
use crate::usage::{mean, mean_of};

verus! {

/// How many values are kept.
pub const MAX_HISTORY: usize = 60;

/// The last usages of the processors, the graphics unit and the neural unit, in
/// percent, one for each second: single precision numbers, as 32-bit patterns.
pub struct History {
    pub cpu: VecDeque<u32>,
    pub gpu: VecDeque<u32>,
    pub npu: VecDeque<u32>,
}

/// A history after a value: the value at the end, and of the others as many as
/// are kept.
pub open spec fn remembered(history: Seq<u32>, v: u32) -> Seq<u32> {
    let all = history.push(v);
    if all.len() > MAX_HISTORY {
        all.drop_first()
    } else {
        all
    }
}

/// Whether a history has no more values than are kept.
pub open spec fn is_history(history: Seq<u32>) -> bool {
    history.len() <= MAX_HISTORY
}

/// The history of the graphics unit, which may have given no usage.
pub open spec fn gpu_after(history: Seq<u32>, usage: Option<u32>) -> Seq<u32> {
    match usage {
        Some(v) => remembered(history, v),
        None => history,
    }
}

/// The history of the neural unit, of whose cores the mean is kept.
pub open spec fn npu_after(history: Seq<u32>, loads: Seq<u8>) -> Seq<u32> {
    if loads.len() > 0 {
        remembered(history, single_pattern(mean(loads)))
    } else {
        history
    }
}

fn remember(history: &mut VecDeque<u32>, v: u32)
    requires
        is_history(old(history)@),
    ensures
        is_history(final(history)@),
        final(history)@ == remembered(old(history)@, v),
{
    let ghost before = history@;
    history.push_back(v);
    if history.len() > MAX_HISTORY {
        history.pop_front();
    }
    assert(history@ =~= remembered(before, v));
}

impl History {
    /// Whether all three are histories.
    pub open spec fn wf(&self) -> bool {
        is_history(self.cpu@) && is_history(self.gpu@) && is_history(self.npu@)
    }

    /// Histories without values.
    pub fn new() -> (h: History)
        ensures
            h.wf(),
            h.cpu@.len() == 0,
            h.gpu@.len() == 0,
            h.npu@.len() == 0,
    {
        History { cpu: VecDeque::new(), gpu: VecDeque::new(), npu: VecDeque::new() }
    }

    /// Adds the usages of one second: that of the processors, that of the
    /// graphics unit where it gave one, and the mean of those of the cores of
    /// the neural unit where there are any.
    pub fn update(&mut self, cpu: u32, gpu: Option<u32>, npu: &Vec<u8>)
        requires
            old(self).wf(),
        ensures
            final(self).wf(),
            final(self).cpu@ == remembered(old(self).cpu@, cpu),
            final(self).gpu@ == gpu_after(old(self).gpu@, gpu),
            final(self).npu@ == npu_after(old(self).npu@, npu@),
    {
        remember(&mut self.cpu, cpu);
        match gpu {
            Some(v) => remember(&mut self.gpu, v),
            None => {},
        }
        if npu.len() > 0 {
            remember(&mut self.npu, single_bits(mean_of(npu)));
        }
    }
}

/// A history ends with its newest value, has one value more than before up to
/// the limit, and keeps the latest of the others in order.
pub proof fn a_history_keeps_the_latest(history: Seq<u32>, v: u32, back: int)
    requires
        history.len() <= MAX_HISTORY,
        0 < back < remembered(history, v).len(),
    ensures
        remembered(history, v).len() == if history.len() < MAX_HISTORY {
            history.len() + 1
        } else {
            MAX_HISTORY as nat
        },
        remembered(history, v).last() == v,
        remembered(history, v)[remembered(history, v).len() - 1 - back] == history[history.len()
            - back],
{
}

/// The last of several values, as many as are kept.
pub open spec fn latest(values: Seq<u32>) -> Seq<u32> {
    if values.len() > MAX_HISTORY {
        values.skip(values.len() - MAX_HISTORY)
    } else {
        values
    }
}

/// The history of the processors after the usages of several seconds.
pub open spec fn cpu_after_all(history: Seq<u32>, usages: Seq<u32>) -> Seq<u32>
    decreases usages.len(),
{
    if usages.len() == 0 {
        history
    } else {
        remembered(cpu_after_all(history, usages.drop_last()), usages.last())
    }
}

/// The history of the graphics unit after several seconds.
pub open spec fn gpu_after_all(history: Seq<u32>, usages: Seq<Option<u32>>) -> Seq<u32>
    decreases usages.len(),
{
    if usages.len() == 0 {
        history
    } else {
        gpu_after(gpu_after_all(history, usages.drop_last()), usages.last())
    }
}

/// The history of the neural unit after several seconds.
pub open spec fn npu_after_all(history: Seq<u32>, loads: Seq<Seq<u8>>) -> Seq<u32>
    decreases loads.len(),
{
    if loads.len() == 0 {
        history
    } else {
        npu_after(npu_after_all(history, loads.drop_last()), loads.last())
    }
}

/// The usages of the seconds in which there was one.
pub open spec fn given(usages: Seq<Option<u32>>) -> Seq<u32>
    decreases usages.len(),
{
    if usages.len() == 0 {
        Seq::empty()
    } else {
        match usages.last() {
            Some(v) => given(usages.drop_last()).push(v),
            None => given(usages.drop_last()),
        }
    }
}

/// The means of the seconds in which there were loads.
pub open spec fn means(loads: Seq<Seq<u8>>) -> Seq<u32>
    decreases loads.len(),
{
    if loads.len() == 0 {
        Seq::empty()
    } else if loads.last().len() > 0 {
        means(loads.drop_last()).push(single_pattern(mean(loads.last())))
    } else {
        means(loads.drop_last())
    }
}

proof fn lemma_latest_step(history: Seq<u32>, values: Seq<u32>, v: u32)
    ensures
        remembered(latest(history + values), v) == latest(history + values.push(v)),
{
    assert(history + values.push(v) =~= (history + values).push(v));
    assert(remembered(latest(history + values), v) =~= latest((history + values).push(v)));
}

/// After any number of seconds each history is the last of its values, as many
/// as are kept: of those that it had and of those that came since. From an empty
/// history on, these are the last `min(n, 60)` of `n` values.
pub proof fn histories_are_the_latest_values(
    history: Seq<u32>,
    cpu: Seq<u32>,
    gpu: Seq<Option<u32>>,
    npu: Seq<Seq<u8>>,
)
    requires
        is_history(history),
    ensures
        cpu_after_all(history, cpu) == latest(history + cpu),
        gpu_after_all(history, gpu) == latest(history + given(gpu)),
        npu_after_all(history, npu) == latest(history + means(npu)),
    decreases cpu.len() + gpu.len() + npu.len(),
{
    assert(history + Seq::<u32>::empty() =~= history);
    if cpu.len() > 0 {
        histories_are_the_latest_values(history, cpu.drop_last(), gpu, npu);
        lemma_latest_step(history, cpu.drop_last(), cpu.last());
        assert(cpu.drop_last().push(cpu.last()) =~= cpu);
    } else if gpu.len() > 0 {
        assert(cpu =~= Seq::empty());
        histories_are_the_latest_values(history, cpu, gpu.drop_last(), npu);
        match gpu.last() {
            Some(v) => lemma_latest_step(history, given(gpu.drop_last()), v),
            None => {},
        }
    } else if npu.len() > 0 {
        assert(cpu =~= Seq::empty());
        histories_are_the_latest_values(history, cpu, gpu, npu.drop_last());
        if npu.last().len() > 0 {
            lemma_latest_step(
                history,
                means(npu.drop_last()),
                single_pattern(mean(npu.last())),
            );
        }
    } else {
        assert(cpu =~= Seq::empty());
    }
}

/// A history holds sixty values, of which the oldest makes room for a new one.
pub proof fn sixty_values_are_kept(history: Seq<u32>, v: u32)
    requires
        is_history(history),
    ensures
        history.len() <= 60,
        remembered(history, v) == if history.len() == 60 {
            history.skip(1) + seq![v]
        } else {
            history + seq![v]
        },
        gpu_after(history, Some(v)) == remembered(history, v),
        gpu_after(history, None) == history,
        npu_after(history, Seq::empty()) == history,
{
    assert(history.push(v) =~= history + seq![v]);
    if history.len() == 60 {
        assert(history.push(v).drop_first() =~= history.skip(1) + seq![v]);
    }
}

} // verus!
