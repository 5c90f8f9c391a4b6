//! Sliding windows of samples.
use std::collections::VecDeque;
use vstd::prelude::*;
use crate::ITER;

verus! {

broadcast use vstd::std_specs::vecdeque::group_vec_dequeue_axioms;

/// A window after a new sample: the oldest one leaves, `value` comes in last.
pub open spec fn shifted<T>(window: Seq<T>, value: T) -> Seq<T> {
    window.drop_first().push(value)
}

/// `a - b`, or 0 where `b` is larger, as `usize::saturating_sub` computes it.
pub open spec fn saturating_diff(a: int, b: int) -> int {
    if a >= b { a - b } else { 0 }
}

/// The window that `window` becomes after taking in each of `history` in turn.
pub open spec fn after_all<T>(window: Seq<T>, history: Seq<T>) -> Seq<T>
    decreases history.len(),
{
    if history.len() == 0 {
        window
    } else {
        shifted(after_all(window, history.drop_last()), history.last())
    }
}

/// A window keeps the latest readings: after taking in `history`, it holds the
/// last `window.len()` of its first readings followed by `history`, oldest first.
pub proof fn lemma_window_keeps_latest<T>(window: Seq<T>, history: Seq<T>)
    requires
        window.len() > 0,
    ensures
        after_all(window, history) == (window + history).subrange(
            history.len() as int,
            (history.len() + window.len()) as int,
        ),
    decreases history.len(),
{
    if history.len() == 0 {
        assert((window + history).subrange(0, window.len() as int) =~= window);
    } else {
        let k = history.len() as int;
        lemma_window_keeps_latest(window, history.drop_last());
        let before = (window + history.drop_last()).subrange(k - 1, k - 1 + window.len());
        assert(after_all(window, history) == shifted(before, history.last()));
        assert(shifted(before, history.last()) =~= (window + history).subrange(k, k + window.len()));
    }
}

/// The growth that `Delta::add` reports is measured against the reading taken
/// in `ITER` readings earlier (one of the first window's zeros at the start):
/// after `history`, the reading that leaves the window on the next one is
/// the `history.len()`-th of the first readings followed by `history`.
pub proof fn lemma_growth_spans_window(window: Seq<usize>, history: Seq<usize>, value: usize)
    requires
        window.len() == ITER,
    ensures
        saturating_diff(value as int, after_all(window, history)[0] as int)
            == saturating_diff(value as int, (window + history)[history.len() as int] as int),
{
    lemma_window_keeps_latest(window, history);
}

/// A `VecDeque` holding `ITER` zeros.
fn zeros_u16() -> (q: VecDeque<u16>)
    ensures
        q@ == Seq::new(ITER as nat, |i: int| 0u16),
{
    let mut q: VecDeque<u16> = VecDeque::new();
    let mut k: u16 = 0;
    while k < ITER
        invariant
            k <= ITER,
            q@ == Seq::new(k as nat, |i: int| 0u16),
        decreases ITER - k,
    {
        q.push_back(0);
        k = k + 1;
        assert(q@ =~= Seq::new(k as nat, |i: int| 0u16));
    }
    q
}

fn zeros_usize() -> (q: VecDeque<usize>)
    ensures
        q@ == Seq::new(ITER as nat, |i: int| 0usize),
{
    let mut q: VecDeque<usize> = VecDeque::new();
    let mut k: u16 = 0;
    while k < ITER
        invariant
            k <= ITER,
            q@ == Seq::new(k as nat, |i: int| 0usize),
        decreases ITER - k,
    {
        q.push_back(0);
        k = k + 1;
        assert(q@ =~= Seq::new(k as nat, |i: int| 0usize));
    }
    q
}

/// The last `ITER` readings of a file that holds one number.
#[derive(Debug)]
pub struct Magnitude {
    file: String,
    values: VecDeque<u16>,
}

impl Magnitude {
    /// The readings in the window, oldest first.
    pub closed spec fn window(&self) -> Seq<u16> {
        self.values@
    }

    /// The file the readings come from.
    pub closed spec fn source(&self) -> Seq<char> {
        self.file@
    }

    /// The window holds `ITER` readings.
    pub open spec fn well_formed(&self) -> bool {
        self.window().len() == ITER
    }

    /// A window of zeros over `file`.
    pub fn new(file: &str) -> (m: Self)
        ensures
            m.well_formed(),
            m.window() == Seq::new(ITER as nat, |i: int| 0u16),
            m.source() == file@,
    {
        Magnitude { file: file.to_owned(), values: zeros_u16() }
    }

    /// Takes in `value` and hands back the reading that left the window.
    pub fn add(&mut self, value: u16) -> (evicted: u16)
        requires
            old(self).well_formed(),
        ensures
            final(self).well_formed(),
            final(self).window() == shifted(old(self).window(), value),
            evicted == old(self).window()[0],
            final(self).source() == old(self).source(),
    {
        let front = self.values.pop_front();
        let evicted = match front {
            Some(v) => v,
            None => 0,
        };
        self.values.push_back(value);
        evicted
    }

    /// The file the readings come from.
    pub fn file(&self) -> (f: &str)
        ensures
            f@ == self.source(),
    {
        self.file.as_str()
    }
}

/// Growth of a counter over the window: the newest reading less the one `ITER`
/// readings before it.
#[derive(Clone, Debug)]
pub struct Delta {
    pub values: VecDeque<usize>,
    pub average: usize,
}

impl Delta {
    /// The readings in the window, oldest first.
    pub open spec fn window(&self) -> Seq<usize> {
        self.values@
    }

    /// The window holds `ITER` readings.
    pub open spec fn well_formed(&self) -> bool {
        self.window().len() == ITER
    }

    /// A window of zeros, with nothing grown.
    pub fn new() -> (d: Self)
        ensures
            d.well_formed(),
            d.window() == Seq::new(ITER as nat, |i: int| 0usize),
            d.average == 0,
    {
        Delta { values: zeros_usize(), average: 0 }
    }

    /// Takes in the reading `value`; `average` becomes its growth over the
    /// reading that leaves the window (0 where the counter went down).
    pub fn add(&mut self, value: usize)
        requires
            old(self).well_formed(),
        ensures
            final(self).well_formed(),
            final(self).window() == shifted(old(self).window(), value),
            final(self).average == saturating_diff(value as int, old(self).window()[0] as int),
    {
        let front = self.values.pop_front();
        let oldest = match front {
            Some(v) => v,
            None => 0,
        };
        self.average = value.saturating_sub(oldest);
        self.values.push_back(value);
    }
}

/// An amount in use out of a fixed total, and the file the amount is read from.
#[derive(Clone, Debug)]
pub struct Size {
    pub file: String,
    pub used: usize,
    pub total: usize,
}

impl Size {
    /// The file the amount in use is read from.
    pub open spec fn source(&self) -> Seq<char> {
        self.file@
    }

    /// Nothing in use yet out of `total`.
    pub fn new(file: &str, total: usize) -> (s: Self)
        ensures
            s.source() == file@,
            s.total == total,
            s.used == 0,
    {
        Size { file: file.to_owned(), total, used: 0 }
    }

    /// The file the amount in use is read from.
    pub fn file(&self) -> (f: &str)
        ensures
            f@ == self.source(),
    {
        self.file.as_str()
    }
}

} // verus!
