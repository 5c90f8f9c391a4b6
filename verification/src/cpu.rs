//! Processor threads: clock readings and busy time read from `/proc/stat`.
use vstd::prelude::*;
use vstd::utf8::*;
use crate::text::{
    split_seq, starts_with, parse_bounded, views, split_bytes, has_prefix, parse_u32_bytes,
    parse_u16, decimal, push_decimal,
};
use crate::unit_types::{Delta, Magnitude, shifted, saturating_diff, after_all, lemma_window_keeps_latest};
use crate::ITER;
use vstd::arithmetic::div_mod::{lemma_fundamental_div_mod, lemma_mod_pos_bound, lemma_div_by_multiple};

verus! {

/// The lines that follow the first one of `/proc/stat` and begin with `cpu`,
/// each less that prefix, in order.
pub open spec fn cpu_rows(lines: Seq<Seq<u8>>) -> Seq<Seq<u8>>
    decreases lines.len(),
{
    if lines.len() == 0 {
        Seq::empty()
    } else {
        let before = cpu_rows(lines.drop_last());
        if starts_with(lines.last(), seq![99u8, 112u8, 117u8]) {
            before.push(lines.last().skip(3))
        } else {
            before
        }
    }
}

/// The per-thread rows of a `/proc/stat` text (the first line, the sum over
/// all threads, is passed over).
pub open spec fn stat_rows(bytes: Seq<u8>) -> Seq<Seq<u8>> {
    cpu_rows(split_seq(bytes, 10u8).drop_first())
}

/// Each piece read as a `u32`; `None` where one is no `u32`.
pub open spec fn parse_all(pieces: Seq<Seq<u8>>) -> Option<Seq<nat>>
    decreases pieces.len(),
{
    if pieces.len() == 0 {
        Some(Seq::empty())
    } else {
        match (parse_all(pieces.drop_last()), parse_bounded(pieces.last(), u32::MAX as nat)) {
            (Some(f), Some(v)) => Some(f.push(v)),
            _ => None,
        }
    }
}

/// The time counters of a row: the space-separated fields after the thread
/// number, each a `u32`.
pub open spec fn row_fields(row: Seq<u8>) -> Option<Seq<nat>> {
    parse_all(split_seq(row, 32u8).drop_first())
}

/// The sum of the counters.
pub open spec fn sum(f: Seq<nat>) -> nat
    decreases f.len(),
{
    if f.len() == 0 {
        0
    } else {
        sum(f.drop_last()) + f.last()
    }
}

/// Every counter of a row counts toward its total: no counters sum to zero,
/// and one counter more adds its value to the sum, whichever place it takes.
pub proof fn lemma_sum_counts_every_counter(f: Seq<nat>, x: nat)
    ensures
        sum(Seq::<nat>::empty()) == 0,
        sum(f.push(x)) == sum(f) + x,
        sum(seq![x] + f) == x + sum(f),
    decreases f.len(),
{
    assert(f.push(x).drop_last() =~= f);
    if f.len() > 0 {
        lemma_sum_counts_every_counter(f.drop_last(), x);
        assert((seq![x] + f).drop_last() =~= seq![x] + f.drop_last());
        assert((seq![x] + f).last() == f.last());
        assert(f.drop_last().push(f.last()) =~= f);
    } else {
        assert(seq![x] + f =~= seq![x]);
        assert(seq![x].drop_last() =~= Seq::<nat>::empty());
    }
}

/// Time spent idle: the fourth and fifth counters (idle and iowait).
pub open spec fn idle_time(f: Seq<nat>) -> nat {
    f[3] + f[4]
}

/// The share of time a thread was busy, in percent, from its growth in total
/// and in idle time over the window.
pub open spec fn busy_percent(total_growth: int, idle_growth: int) -> int {
    100 - idle_growth * 100 / total_growth
}

/// Idle time is made of the idle and iowait counters of the row and nothing else.
pub proof fn lemma_idle_time_counts_idle_and_iowait(f: Seq<nat>)
    requires
        f.len() >= 5,
    ensures
        idle_time(f) == sum(f.subrange(3, 5)),
{
    let p = f.subrange(3, 5);
    assert(p.drop_last() =~= seq![f[3]]);
    assert(seq![f[3]].drop_last() =~= Seq::<nat>::empty());
    assert(sum(Seq::<nat>::empty()) == 0);
    assert(sum(seq![f[3]]) == f[3]);
    assert(p.last() == f[4]);
    assert(sum(p) == sum(p.drop_last()) + p.last());
}

/// The busy share is 100 less the idle share rounded down: `100 - busy`
/// is the largest whole percentage of the total growth that the idle growth
/// reaches. No idle growth gives 100, idle growth as large as the total
/// growth gives 0, and the share never leaves 0 to 100.
pub proof fn lemma_busy_share_rounds_idle_down(t: int, i: int)
    requires
        t > 0,
        0 <= i <= t,
    ensures
        0 <= busy_percent(t, i) <= 100,
        (100 - busy_percent(t, i)) * t <= i * 100,
        i * 100 < (101 - busy_percent(t, i)) * t,
        busy_percent(t, 0) == 100,
        busy_percent(t, t) == 0,
{
    let x = i * 100;
    let q = x / t;
    let r = x % t;
    lemma_fundamental_div_mod(x, t);
    lemma_mod_pos_bound(x, t);
    assert(q * t <= x && x < (q + 1) * t) by (nonlinear_arith)
        requires
            x == t * q + r,
            0 <= r < t,
    ;
    assert(0 <= q <= 100) by (nonlinear_arith)
        requires
            q * t <= x,
            x < (q + 1) * t,
            x == i * 100,
            0 <= i <= t,
            t > 0,
    ;
    lemma_div_by_multiple(100, t);
    assert(t * 100 == 100 * t) by (nonlinear_arith);
}

/// The counters `f` of a row can be taken in by windows `total` and `idle`:
/// there are at least five, their sums fit, the total grew, and the idle share
/// works out at no more than 100 percent.
pub open spec fn row_ok(total: Seq<usize>, idle: Seq<usize>, f: Seq<nat>) -> bool {
    &&& f.len() >= 5
    &&& sum(f) <= usize::MAX
    &&& idle_time(f) <= usize::MAX
    &&& ({
        let t = saturating_diff(sum(f) as int, total[0] as int);
        let i = saturating_diff(idle_time(f) as int, idle[0] as int);
        &&& t > 0
        &&& i * 100 <= usize::MAX
        &&& i * 100 / t <= 100
    })
}

/// The file that holds the current clock of thread `t`, in kilohertz.
pub open spec fn clock_path(t: nat) -> Seq<char> {
    "/sys/devices/system/cpu/cpu"@ + decimal(t) + "/cpufreq/scaling_cur_freq"@
}

proof fn lemma_rows_prefix(lines: Seq<Seq<u8>>, i: int)
    requires
        0 <= i < lines.len(),
    ensures
        lines.take(i + 1).drop_last() == lines.take(i),
        lines.take(i + 1).last() == lines[i],
{
    assert(lines.take(i + 1).drop_last() =~= lines.take(i));
}

/// The per-thread rows of the `/proc/stat` text `stat`.
pub fn stat_rows_of(stat: &str) -> (rows: Vec<Vec<u8>>)
    ensures
        views(rows@) == stat_rows(encode_utf8(stat@)),
{
    let lines = split_bytes(stat.as_bytes(), 10u8);
    let ghost all = views(lines@).drop_first();
    let mut rows: Vec<Vec<u8>> = Vec::new();
    let mut i: usize = 1;
    assert(all.take(0) =~= Seq::<Seq<u8>>::empty());
    assert(views(rows@) =~= Seq::<Seq<u8>>::empty());
    while i < lines.len()
        invariant
            all == views(lines@).drop_first(),
            all == split_seq(encode_utf8(stat@), 10u8).drop_first(),
            1 <= i <= lines@.len() || (i == 1 && lines@.len() == 0),
            views(rows@) == cpu_rows(all.take(i - 1)),
        decreases lines@.len() - i,
    {
        let line = lines[i].as_slice();
        assert(all[i - 1] == line@);
        proof {
            lemma_rows_prefix(all, i - 1);
        }
        if has_prefix(line, &[99u8, 112u8, 117u8]) {
            let mut row: Vec<u8> = Vec::new();
            let mut k: usize = 3;
            while k < line.len()
                invariant
                    3 <= k <= line@.len(),
                    row@ == line@.subrange(3, k as int),
                decreases line@.len() - k,
            {
                row.push(line[k]);
                k = k + 1;
                assert(row@ =~= line@.subrange(3, k as int));
            }
            assert(row@ =~= line@.skip(3));
            let ghost before = rows@;
            rows.push(row);
            assert(views(rows@) =~= views(before).push(line@.skip(3)));
        }
        i = i + 1;
    }
    if lines.len() > 0 {
        assert(all.take(lines@.len() - 1) =~= all);
    } else {
        assert(all =~= Seq::<Seq<u8>>::empty());
    }
    rows
}

proof fn lemma_parse_all_none_stays(p: Seq<Seq<u8>>, i: int)
    requires
        0 <= i <= p.len(),
        parse_all(p.take(i)) is None,
    ensures
        parse_all(p) is None,
    decreases p.len() - i,
{
    if i < p.len() {
        assert(p.take(i + 1).drop_last() =~= p.take(i));
        lemma_parse_all_none_stays(p, i + 1);
    } else {
        assert(p.take(i) =~= p);
    }
}

/// The values of `v` as natural numbers.
pub open spec fn as_nats32(v: Seq<u32>) -> Seq<nat> {
    v.map_values(|x: u32| x as nat)
}

/// The time counters of a row, as `row_fields` states them.
pub fn row_fields_of(row: &[u8]) -> (r: Option<Vec<u32>>)
    ensures
        r matches Some(v) ==> row_fields(row@) == Some(as_nats32(v@)),
        r is None ==> row_fields(row@) is None,
{
    let pieces = split_bytes(row, 32u8);
    let ghost all = views(pieces@).drop_first();
    let mut out: Vec<u32> = Vec::new();
    let mut i: usize = 1;
    assert(all.take(0) =~= Seq::<Seq<u8>>::empty());
    assert(as_nats32(out@) =~= Seq::<nat>::empty());
    while i < pieces.len()
        invariant
            all == views(pieces@).drop_first(),
            all == split_seq(row@, 32u8).drop_first(),
            1 <= i <= pieces@.len() || (i == 1 && pieces@.len() == 0),
            parse_all(all.take(i - 1)) == Some(as_nats32(out@)),
        decreases pieces@.len() - i,
    {
        assert(all[i - 1] == pieces@[i as int]@);
        proof {
            lemma_rows_prefix(all, i - 1);
        }
        match parse_u32_bytes(pieces[i].as_slice()) {
            Some(v) => {
                let ghost before = out@;
                out.push(v);
                assert(as_nats32(out@) =~= as_nats32(before).push(v as nat));
            },
            None => {
                proof {
                    lemma_parse_all_none_stays(all, i as int);
                }
                return None;
            },
        }
        i = i + 1;
    }
    if pieces.len() > 0 {
        assert(all.take(pieces@.len() - 1) =~= all);
    } else {
        assert(all =~= Seq::<Seq<u8>>::empty());
    }
    Some(out)
}

/// The processor threads, with the clock readings and the busy share of each.
#[derive(Debug)]
pub struct Cpu {
    pub threads: u16,
    pub clock: Vec<Magnitude>,
    pub util: Vec<u16>,
    pub time: (Vec<Delta>, Vec<Delta>),
}

/// The number of threads that the text of `/sys/devices/system/cpu/online`
/// gives, read from its third byte on: the highest thread number, plus one.
pub open spec fn thread_count(online: Seq<u8>) -> Option<nat> {
    match parse_bounded(online, u16::MAX as nat) {
        Some(v) => if v < u16::MAX { Some(v + 1) } else { None },
        None => None,
    }
}

impl Cpu {
    /// One clock window, busy share and pair of time windows per thread.
    pub open spec fn well_formed(&self) -> bool {
        &&& self.clock@.len() == self.threads
        &&& self.util@.len() == self.threads
        &&& self.time.0@.len() == self.threads
        &&& self.time.1@.len() == self.threads
        &&& forall|i: int| 0 <= i < self.threads ==> (#[trigger] self.clock@[i]).well_formed()
        &&& forall|i: int| 0 <= i < self.threads ==> (#[trigger] self.time.0@[i]).well_formed()
        &&& forall|i: int| 0 <= i < self.threads ==> (#[trigger] self.time.1@[i]).well_formed()
        &&& forall|i: int| 0 <= i < self.threads ==> #[trigger] self.util@[i] <= 100
    }

    /// Whether `new` can take `online`.
    pub fn can_create(online: &str) -> (ok: bool)
        ensures
            ok == thread_count(encode_utf8(online@)) is Some,
    {
        match parse_u16(online) {
            Some(v) => v < 65535,
            None => false,
        }
    }

    /// Sets up the threads that `online` counts, with every window at zero.
    pub fn new(online: &str) -> (c: Self)
        requires
            thread_count(encode_utf8(online@)) is Some,
        ensures
            c.well_formed(),
            c.threads == thread_count(encode_utf8(online@))->0,
            forall|i: int| 0 <= i < c.threads ==> (#[trigger] c.clock@[i]).source() == clock_path(i as nat),
            forall|i: int| 0 <= i < c.threads ==> (#[trigger] c.clock@[i]).window() == Seq::new(ITER as nat, |k: int| 0u16),
            forall|i: int| 0 <= i < c.threads ==> c.util@[i] == 0,
            forall|i: int| 0 <= i < c.threads ==> (#[trigger] c.time.0@[i]).window() == Seq::new(ITER as nat, |k: int| 0usize),
            forall|i: int| 0 <= i < c.threads ==> (#[trigger] c.time.1@[i]).window() == Seq::new(ITER as nat, |k: int| 0usize),
            forall|i: int| 0 <= i < c.threads ==> c.time.0@[i].average == 0 && c.time.1@[i].average == 0,
    {
        let highest = match parse_u16(online) {
            Some(v) => v,
            None => 0,
        };
        let threads = highest + 1;
        let mut clock: Vec<Magnitude> = Vec::new();
        let mut util: Vec<u16> = Vec::new();
        let mut total: Vec<Delta> = Vec::new();
        let mut idle: Vec<Delta> = Vec::new();
        let mut t: u16 = 0;
        while t < threads
            invariant
                t <= threads,
                clock@.len() == t,
                util@.len() == t,
                total@.len() == t,
                idle@.len() == t,
                forall|i: int| 0 <= i < t ==> (#[trigger] clock@[i]).well_formed(),
                forall|i: int| 0 <= i < t ==> (#[trigger] clock@[i]).source() == clock_path(i as nat),
                forall|i: int| 0 <= i < t ==> (#[trigger] clock@[i]).window() == Seq::new(ITER as nat, |k: int| 0u16),
                forall|i: int| 0 <= i < t ==> util@[i] == 0,
                forall|i: int| 0 <= i < t ==> (#[trigger] total@[i]).well_formed(),
                forall|i: int| 0 <= i < t ==> (#[trigger] idle@[i]).well_formed(),
                forall|i: int| 0 <= i < t ==> (#[trigger] total@[i]).window() == Seq::new(ITER as nat, |k: int| 0usize),
                forall|i: int| 0 <= i < t ==> (#[trigger] idle@[i]).window() == Seq::new(ITER as nat, |k: int| 0usize),
                forall|i: int| 0 <= i < t ==> total@[i].average == 0 && idle@[i].average == 0,
            decreases threads - t,
        {
            let path = clock_file(t);
            clock.push(Magnitude::new(path.as_str()));
            util.push(0);
            total.push(Delta::new());
            idle.push(Delta::new());
            t = t + 1;
        }
        Cpu { threads, clock, util, time: (total, idle) }
    }

    /// Takes in one clock reading per thread, each the text of its clock file
    /// less the last three digits and the newline (so in megahertz); hands
    /// back the readings that left the windows.
    pub fn add_clock_readings(&mut self, readings: &Vec<String>) -> (evicted: Vec<u16>)
        requires
            old(self).well_formed(),
            readings@.len() == old(self).threads,
            forall|i: int| 0 <= i < readings@.len() ==>
                parse_bounded(encode_utf8((#[trigger] readings@[i])@), u16::MAX as nat) is Some,
        ensures
            final(self).well_formed(),
            final(self).threads == old(self).threads,
            final(self).util == old(self).util,
            final(self).time == old(self).time,
            evicted@.len() == old(self).threads,
            forall|i: int| 0 <= i < old(self).threads ==> {
                &&& (#[trigger] final(self).clock@[i]).window() == shifted(
                    old(self).clock@[i].window(),
                    parse_bounded(encode_utf8(readings@[i]@), u16::MAX as nat)->0 as u16,
                )
                &&& final(self).clock@[i].source() == old(self).clock@[i].source()
                &&& evicted@[i] == old(self).clock@[i].window()[0]
            },
    {
        let ghost before = self.clock@;
        let mut evicted: Vec<u16> = Vec::new();
        let mut i: usize = 0;
        while i < self.clock.len()
            invariant
                self.clock@.len() == before.len(),
                before.len() == old(self).threads,
                readings@.len() == old(self).threads,
                self.threads == old(self).threads,
                self.util == old(self).util,
                self.time == old(self).time,
                i <= before.len(),
                evicted@.len() == i,
                forall|j: int| 0 <= j < readings@.len() ==>
                    parse_bounded(encode_utf8((#[trigger] readings@[j])@), u16::MAX as nat) is Some,
                forall|j: int| 0 <= j < before.len() ==> (#[trigger] before[j]).well_formed(),
                forall|j: int| i <= j < before.len() ==> self.clock@[j] == before[j],
                forall|j: int| 0 <= j < i ==> {
                    &&& (#[trigger] self.clock@[j]).well_formed()
                    &&& self.clock@[j].window() == shifted(
                        before[j].window(),
                        parse_bounded(encode_utf8(readings@[j]@), u16::MAX as nat)->0 as u16,
                    )
                    &&& self.clock@[j].source() == before[j].source()
                    &&& evicted@[j] == before[j].window()[0]
                },
            decreases before.len() - i,
        {
            let value = match parse_u16(readings[i].as_str()) {
                Some(v) => v,
                None => 0,
            };
            assert(self.clock@[i as int] == before[i as int]);
            assert(before[i as int].well_formed());
            let out = self.clock[i].add(value);
            evicted.push(out);
            i = i + 1;
        }
        evicted
    }
}

/// Thread `j` of `after` has taken in row `row` over its state in `before`.
pub open spec fn thread_took(before: Cpu, after: Cpu, row: Seq<u8>, j: int) -> bool {
    let f = row_fields(row)->0;
    let t = after.time.0@[j];
    let d = after.time.1@[j];
    &&& t.well_formed()
    &&& d.well_formed()
    &&& t.window() == shifted(before.time.0@[j].window(), sum(f) as usize)
    &&& d.window() == shifted(before.time.1@[j].window(), idle_time(f) as usize)
    &&& t.average == saturating_diff(sum(f) as int, before.time.0@[j].window()[0] as int)
    &&& d.average == saturating_diff(idle_time(f) as int, before.time.1@[j].window()[0] as int)
    &&& after.util@[j] == busy_percent(t.average as int, d.average as int)
}

/// Thread `j` is as it was.
pub open spec fn thread_kept(before: Cpu, after: Cpu, j: int) -> bool {
    &&& after.time.0@[j] == before.time.0@[j]
    &&& after.time.1@[j] == before.time.1@[j]
    &&& after.util@[j] == before.util@[j]
}

/// How many rows are taken in: one per thread, as far as there are rows.
pub open spec fn rows_taken(threads: nat, rows: nat) -> nat {
    if threads <= rows { threads } else { rows }
}

/// Every row that `update_util` takes in has counters that the windows of
/// its thread can take in.
pub open spec fn stat_fits(c: Cpu, rows: Seq<Seq<u8>>) -> bool {
    forall|i: int| 0 <= i < rows_taken(c.threads as nat, rows.len()) ==>
        (row_fields(#[trigger] rows[i]) matches Some(f) && row_ok(
            c.time.0@[i].window(),
            c.time.1@[i].window(),
            f,
        ))
}

proof fn lemma_sum_prefix(f: Seq<nat>, k: int)
    requires
        0 <= k <= f.len(),
    ensures
        sum(f.take(k)) <= sum(f),
    decreases f.len() - k,
{
    if k < f.len() {
        lemma_sum_prefix(f, k + 1);
        assert(f.take(k + 1).drop_last() =~= f.take(k));
    } else {
        assert(f.take(k) =~= f);
    }
}

/// The sum of the counters, where it fits in a `usize`.
fn sum_counters(f: &Vec<u32>) -> (s: usize)
    requires
        sum(as_nats32(f@)) <= usize::MAX,
    ensures
        s == sum(as_nats32(f@)),
{
    let ghost g = as_nats32(f@);
    let mut s: usize = 0;
    let mut i: usize = 0;
    assert(g.take(0) =~= Seq::<nat>::empty());
    while i < f.len()
        invariant
            g == as_nats32(f@),
            sum(g) <= usize::MAX,
            i <= f@.len(),
            s == sum(g.take(i as int)),
        decreases f@.len() - i,
    {
        proof {
            lemma_sum_prefix(g, i + 1);
            assert(g.take(i + 1).drop_last() =~= g.take(i as int));
        }
        s = s + f[i] as usize;
        i = i + 1;
    }
    assert(g.take(i as int) =~= g);
    s
}

/// The sum of the counters, or `None` where it does not fit in a `usize`.
fn checked_sum(f: &Vec<u32>) -> (r: Option<usize>)
    ensures
        r matches Some(s) ==> s == sum(as_nats32(f@)),
        r is None ==> sum(as_nats32(f@)) > usize::MAX,
{
    let ghost g = as_nats32(f@);
    let mut s: usize = 0;
    let mut i: usize = 0;
    assert(g.take(0) =~= Seq::<nat>::empty());
    while i < f.len()
        invariant
            g == as_nats32(f@),
            i <= f@.len(),
            s == sum(g.take(i as int)),
        decreases f@.len() - i,
    {
        assert(g.take(i + 1).drop_last() =~= g.take(i as int));
        let v = f[i] as usize;
        if s > usize::MAX - v {
            proof {
                lemma_sum_prefix(g, i + 1);
            }
            return None;
        }
        s = s + v;
        i = i + 1;
    }
    assert(g.take(i as int) =~= g);
    Some(s)
}

/// Whether counters `fields` can be taken in by windows `total` and `idle`.
fn row_fits(total: &Delta, idle: &Delta, fields: &Vec<u32>) -> (ok: bool)
    requires
        total.well_formed(),
        idle.well_formed(),
    ensures
        ok == row_ok(total.window(), idle.window(), as_nats32(fields@)),
{
    let ghost f = as_nats32(fields@);
    if fields.len() < 5 {
        return false;
    }
    assert(f[3] == fields@[3] as nat && f[4] == fields@[4] as nat);
    let s = match checked_sum(fields) {
        Some(s) => s,
        None => return false,
    };
    let a = fields[3] as usize;
    let b = fields[4] as usize;
    if a > usize::MAX - b {
        return false;
    }
    let idle_time = a + b;
    let grown = s.saturating_sub(total.values[0]);
    let idle_grown = idle_time.saturating_sub(idle.values[0]);
    if grown == 0 || idle_grown > usize::MAX / 100 {
        return false;
    }
    idle_grown * 100 / grown <= 100
}

impl Cpu {
    /// Whether `update_util` can take in the `/proc/stat` text `stat`.
    pub fn can_update_util(&self, stat: &str) -> (ok: bool)
        requires
            self.well_formed(),
        ensures
            ok == stat_fits(*self, stat_rows(encode_utf8(stat@))),
    {
        let rows = stat_rows_of(stat);
        let ghost all = views(rows@);
        let n = self.threads as usize;
        let m = if n <= rows.len() { n } else { rows.len() };
        let mut i: usize = 0;
        while i < m
            invariant
                all == views(rows@),
                all == stat_rows(encode_utf8(stat@)),
                self.well_formed(),
                m == rows_taken(self.threads as nat, all.len()),
                m <= n,
                n == self.threads,
                i <= m,
                forall|j: int| 0 <= j < i ==>
                    (row_fields(#[trigger] all[j]) matches Some(f) && row_ok(
                        self.time.0@[j].window(),
                        self.time.1@[j].window(),
                        f,
                    )),
            decreases m - i,
        {
            assert(all[i as int] == rows@[i as int]@);
            let fits = match row_fields_of(rows[i].as_slice()) {
                Some(fields) => row_fits(&self.time.0[i], &self.time.1[i], &fields),
                None => false,
            };
            if !fits {
                assert(!(row_fields(all[i as int]) matches Some(f) && row_ok(
                    self.time.0@[i as int].window(),
                    self.time.1@[i as int].window(),
                    f,
                )));
                return false;
            }
            i = i + 1;
        }
        true
    }

    /// Takes in the `/proc/stat` text `stat`: for each thread that has a row,
    /// its total and idle windows take in the sum of its counters and its idle
    /// time (both added up as `usize`), and its busy share is worked out from
    /// their growth.
    pub fn update_util(&mut self, stat: &str)
        requires
            old(self).well_formed(),
            stat_fits(*old(self), stat_rows(encode_utf8(stat@))),
        ensures
            final(self).well_formed(),
            final(self).threads == old(self).threads,
            final(self).clock == old(self).clock,
            ({
                let rows = stat_rows(encode_utf8(stat@));
                let m = rows_taken(old(self).threads as nat, rows.len());
                &&& forall|j: int| 0 <= j < m ==> #[trigger] thread_took(*old(self), *final(self), rows[j], j)
                &&& forall|j: int| m <= j < old(self).threads ==> #[trigger] thread_kept(*old(self), *final(self), j)
            }),
    {
        let rows = stat_rows_of(stat);
        let ghost all = views(rows@);
        let ghost start = *self;
        let n = self.threads as usize;
        let m = if n <= rows.len() { n } else { rows.len() };
        let mut i: usize = 0;
        while i < m
            invariant
                all == views(rows@),
                all == stat_rows(encode_utf8(stat@)),
                start.well_formed(),
                stat_fits(start, all),
                m == rows_taken(start.threads as nat, all.len()),
                m <= n,
                n == start.threads,
                i <= m,
                self.threads == start.threads,
                self.clock == start.clock,
                self.util@.len() == n,
                self.time.0@.len() == n,
                self.time.1@.len() == n,
                forall|j: int| i <= j < n ==> #[trigger] thread_kept(start, *self, j),
                forall|j: int| 0 <= j < i ==> #[trigger] thread_took(start, *self, all[j], j),
            decreases m - i,
        {
            assert(all[i as int] == rows@[i as int]@);
            let fields = match row_fields_of(rows[i].as_slice()) {
                Some(v) => v,
                None => {
                    assert(false);
                    Vec::new()
                },
            };
            let ghost f = row_fields(all[i as int])->0;
            assert(f == as_nats32(fields@));
            assert(row_ok(start.time.0@[i as int].window(), start.time.1@[i as int].window(), f));
            assert(f[3] == fields@[3] as nat);
            assert(f[4] == fields@[4] as nat);
            let total_time = sum_counters(&fields);
            let idle = fields[3] as usize + fields[4] as usize;
            let ghost s0 = *self;
            assert(thread_kept(start, s0, i as int));
            assert(self.time.0@[i as int] == start.time.0@[i as int]);
            assert(start.time.0@[i as int].well_formed());
            assert(start.time.1@[i as int].well_formed());
            let ghost t0 = self.time.0@;
            let ghost t1 = self.time.1@;
            let ghost u0 = self.util@;
            self.time.0[i].add(total_time);
            self.time.1[i].add(idle);
            let grown = self.time.0[i].average;
            let idle_grown = self.time.1[i].average;
            let share = (idle_grown * 100 / grown) as u16;
            self.util.set(i, 100 - share);
            assert forall|j: int| i + 1 <= j < n implies #[trigger] thread_kept(start, *self, j) by {
                assert(thread_kept(start, s0, j));
                assert(self.time.0@[j] == t0[j]);
                assert(self.time.1@[j] == t1[j]);
                assert(self.util@[j] == u0[j]);
            }
            assert forall|j: int| 0 <= j < i + 1 implies #[trigger] thread_took(start, *self, all[j], j) by {
                if j < i {
                    assert(thread_took(start, s0, all[j], j));
                    assert(t0[j] == self.time.0@[j]);
                    assert(t1[j] == self.time.1@[j]);
                    assert(u0[j] == self.util@[j]);
                }
            }
            i = i + 1;
        }
        assert forall|j: int| 0 <= j < n implies (#[trigger] self.time.0@[j]).well_formed() by {
            if j < m {
                assert(thread_took(start, *self, all[j], j));
            } else {
                assert(thread_kept(start, *self, j));
            }
        }
        assert forall|j: int| 0 <= j < n implies #[trigger] self.util@[j] <= 100 by {
            if j < m {
                assert(thread_took(start, *self, all[j], j));
                assert(row_fields(all[j]) matches Some(f) && row_ok(start.time.0@[j].window(), start.time.1@[j].window(), f));
            } else {
                assert(thread_kept(start, *self, j));
            }
        }
        assert forall|j: int| 0 <= j < n implies (#[trigger] self.time.1@[j]).well_formed() by {
            if j < m {
                assert(thread_took(start, *self, all[j], j));
            } else {
                assert(thread_kept(start, *self, j));
            }
        }
    }
}

impl Cpu {
    /// One sampling pass: takes in the clock readings as `add_clock_readings`
    /// does, then the `/proc/stat` text `stat` as `update_util` does; hands
    /// back the clock readings that left the windows.
    pub fn update(&mut self, readings: &Vec<String>, stat: &str) -> (evicted: Vec<u16>)
        requires
            old(self).well_formed(),
            readings@.len() == old(self).threads,
            forall|i: int| 0 <= i < readings@.len() ==>
                parse_bounded(encode_utf8((#[trigger] readings@[i])@), u16::MAX as nat) is Some,
            stat_fits(*old(self), stat_rows(encode_utf8(stat@))),
        ensures
            final(self).well_formed(),
            final(self).threads == old(self).threads,
            evicted@.len() == old(self).threads,
            forall|i: int| 0 <= i < old(self).threads ==> {
                &&& (#[trigger] final(self).clock@[i]).window() == shifted(
                    old(self).clock@[i].window(),
                    parse_bounded(encode_utf8(readings@[i]@), u16::MAX as nat)->0 as u16,
                )
                &&& final(self).clock@[i].source() == old(self).clock@[i].source()
                &&& evicted@[i] == old(self).clock@[i].window()[0]
            },
            ({
                let rows = stat_rows(encode_utf8(stat@));
                let m = rows_taken(old(self).threads as nat, rows.len());
                &&& forall|j: int| 0 <= j < m ==> #[trigger] thread_took(*old(self), *final(self), rows[j], j)
                &&& forall|j: int| m <= j < old(self).threads ==> #[trigger] thread_kept(*old(self), *final(self), j)
            }),
    {
        let ghost start = *self;
        let evicted = self.add_clock_readings(readings);
        let ghost mid = *self;
        self.update_util(stat);
        proof {
            let rows = stat_rows(encode_utf8(stat@));
            let m = rows_taken(start.threads as nat, rows.len());
            assert forall|j: int| 0 <= j < m implies #[trigger] thread_took(start, *self, rows[j], j) by {
                assert(thread_took(mid, *self, rows[j], j));
            }
            assert forall|j: int| m <= j < start.threads implies #[trigger] thread_kept(start, *self, j) by {
                assert(thread_kept(mid, *self, j));
            }
        }
        evicted
    }
}

/// The windows of a new `Cpu`: `ITER` zeros.
pub open spec fn zero_window() -> Seq<usize> {
    Seq::new(ITER as nat, |i: int| 0usize)
}

/// The reading `lag` places before the last one of `history`, or 0 where
/// `history` does not reach back that far.
pub open spec fn reading_before(history: Seq<usize>, lag: int) -> int {
    let j = history.len() - 1 - lag;
    if j >= 0 { history[j] as int } else { 0 }
}

/// The busy share over passes: where the windows of thread `j` hold what a
/// new `Cpu` has after taking in the totals `totals` and idle times `idles`
/// of earlier passes, then after taking in row `row` they hold those
/// histories extended by this pass, and the share is worked out from the
/// growth of each over the reading `ITER` passes before (0 before the first
/// pass). Together with `Cpu::new`, which starts from `zero_window`, this
/// gives the share after any number of passes.
pub proof fn lemma_share_over_passes(
    before: Cpu,
    after: Cpu,
    row: Seq<u8>,
    j: int,
    totals: Seq<usize>,
    idles: Seq<usize>,
)
    requires
        thread_took(before, after, row, j),
        sum(row_fields(row)->0) <= usize::MAX,
        idle_time(row_fields(row)->0) <= usize::MAX,
        before.time.0@[j].window() == after_all(zero_window(), totals),
        before.time.1@[j].window() == after_all(zero_window(), idles),
    ensures
        ({
            let f = row_fields(row)->0;
            let t = totals.push(sum(f) as usize);
            let d = idles.push(idle_time(f) as usize);
            &&& after.time.0@[j].window() == after_all(zero_window(), t)
            &&& after.time.1@[j].window() == after_all(zero_window(), d)
            &&& after.util@[j] == busy_percent(
                saturating_diff(t.last() as int, reading_before(t, ITER as int)),
                saturating_diff(d.last() as int, reading_before(d, ITER as int)),
            )
        }),
{
    let f = row_fields(row)->0;
    let t = totals.push(sum(f) as usize);
    let d = idles.push(idle_time(f) as usize);
    assert(t.drop_last() =~= totals);
    assert(d.drop_last() =~= idles);
    lemma_window_keeps_latest(zero_window(), totals);
    lemma_window_keeps_latest(zero_window(), idles);
    assert(after_all(zero_window(), totals)[0] as int == reading_before(t, ITER as int));
    assert(after_all(zero_window(), idles)[0] as int == reading_before(d, ITER as int));
}

/// The idle part of the counters grows no more than their sum, where no
/// counter went down.
proof fn lemma_idle_within_total(f: Seq<nat>, g: Seq<nat>, n: int)
    requires
        0 <= n <= f.len(),
        g.len() == f.len(),
        forall|i: int| 0 <= i < f.len() ==> g[i] <= f[i],
    ensures
        sum(f.take(n)) >= sum(g.take(n)),
        sum(f.take(n)) - sum(g.take(n)) >= (if 3 < n { f[3] - g[3] } else { 0 }) + (if 4 < n {
            f[4] - g[4]
        } else {
            0
        }),
    decreases n,
{
    if n > 0 {
        lemma_idle_within_total(f, g, n - 1);
        assert(f.take(n).drop_last() =~= f.take(n - 1));
        assert(g.take(n).drop_last() =~= g.take(n - 1));
    }
}

/// Counters that never go down meet the bound of `row_ok`: where `f` holds
/// the counters of a thread now, `earlier` those that its windows' oldest
/// readings were taken from (zeros before the windows fill), no counter went
/// down and their sum grew, then the idle share works out at no more than
/// 100 percent and the row can be taken in (within `usize`).
pub proof fn lemma_growing_counters_fit(
    total: Seq<usize>,
    idle: Seq<usize>,
    earlier: Seq<nat>,
    f: Seq<nat>,
)
    requires
        f.len() >= 5,
        earlier.len() == f.len(),
        forall|i: int| 0 <= i < f.len() ==> earlier[i] <= f[i],
        total.len() > 0,
        idle.len() > 0,
        total[0] == sum(earlier),
        idle[0] == idle_time(earlier),
        sum(f) <= usize::MAX,
        sum(f) > sum(earlier),
        (idle_time(f) - idle_time(earlier)) * 100 <= usize::MAX,
    ensures
        row_ok(total, idle, f),
{
    lemma_idle_within_total(f, earlier, f.len() as int);
    assert(f.take(f.len() as int) =~= f);
    assert(earlier.take(f.len() as int) =~= earlier);
    let zeros = Seq::new(f.len(), |i: int| 0nat);
    lemma_idle_within_total(f, zeros, f.len() as int);
    assert(zeros.take(f.len() as int) =~= zeros);
    lemma_sum_zeros(zeros);
    let t = saturating_diff(sum(f) as int, total[0] as int);
    let i = saturating_diff(idle_time(f) as int, idle[0] as int);
    assert(t == sum(f) - sum(earlier));
    assert(i == idle_time(f) - idle_time(earlier));
    assert(0 <= i <= t);
    assert(i * 100 / t <= 100) by (nonlinear_arith)
        requires
            0 <= i <= t,
            t > 0,
    {
        assert(i * 100 <= t * 100);
    }
}

/// The sums of each of `rows`, as the total window takes them in.
pub open spec fn row_totals(rows: Seq<Seq<nat>>) -> Seq<usize> {
    rows.map_values(|g: Seq<nat>| sum(g) as usize)
}

/// The idle time of each of `rows`, as the idle window takes it in.
pub open spec fn row_idles(rows: Seq<Seq<nat>>) -> Seq<usize> {
    rows.map_values(|g: Seq<nat>| idle_time(g) as usize)
}

/// The counters of the row taken in `ITER` passes before the next one, or
/// zeros where there were fewer passes.
pub open spec fn row_before(rows: Seq<Seq<nat>>, n: nat) -> Seq<nat> {
    if rows.len() >= ITER {
        rows[rows.len() - ITER as int]
    } else {
        Seq::new(n, |i: int| 0nat)
    }
}

/// Along a run of updates, counters that never go down meet what the next
/// update asks of thread `j`: where its windows hold what a new `Cpu` has
/// after taking in the rows `rows` of earlier passes (each one that fitted),
/// no counter of the new row `f` is below the same counter of an earlier
/// row, and the sum grew over the window (against the row `ITER` passes
/// before, or zero), then `row_ok` holds for `f`, within the machine limits
/// on the sum and the idle growth.
pub proof fn lemma_run_meets_bound(before: Cpu, j: int, rows: Seq<Seq<nat>>, f: Seq<nat>)
    requires
        before.time.0@[j].window() == after_all(zero_window(), row_totals(rows)),
        before.time.1@[j].window() == after_all(zero_window(), row_idles(rows)),
        f.len() >= 5,
        forall|m: int| 0 <= m < rows.len() ==> (#[trigger] rows[m]).len() == f.len(),
        forall|m: int| 0 <= m < rows.len() ==> sum(#[trigger] rows[m]) <= usize::MAX,
        forall|m: int, i: int| 0 <= m < rows.len() && 0 <= i < f.len() ==> (#[trigger] rows[m][i]) <= f[i],
        sum(f) <= usize::MAX,
        sum(f) > sum(row_before(rows, f.len())),
        (idle_time(f) - idle_time(row_before(rows, f.len()))) * 100 <= usize::MAX,
    ensures
        row_ok(before.time.0@[j].window(), before.time.1@[j].window(), f),
{
    let earlier = row_before(rows, f.len());
    lemma_window_keeps_latest(zero_window(), row_totals(rows));
    lemma_window_keeps_latest(zero_window(), row_idles(rows));
    let k = rows.len() as int;
    if k >= ITER {
        let g = rows[k - ITER as int];
        assert(sum(g) <= usize::MAX);
        let zf = Seq::new(g.len(), |i: int| 0nat);
        lemma_idle_within_total(g, zf, g.len() as int);
        assert(g.take(g.len() as int) =~= g);
        assert(zf.take(g.len() as int) =~= zf);
        lemma_sum_zeros(zf);
        assert(after_all(zero_window(), row_totals(rows))[0] == sum(g) as usize);
        assert(after_all(zero_window(), row_idles(rows))[0] == idle_time(g) as usize);
    } else {
        lemma_sum_zeros(earlier);
    }
    lemma_growing_counters_fit(before.time.0@[j].window(), before.time.1@[j].window(), earlier, f);
}

proof fn lemma_sum_zeros(z: Seq<nat>)
    requires
        forall|i: int| 0 <= i < z.len() ==> z[i] == 0,
    ensures
        sum(z) == 0,
    decreases z.len(),
{
    if z.len() > 0 {
        lemma_sum_zeros(z.drop_last());
    }
}

/// The file that holds the current clock of thread `t`.
pub fn clock_file(t: u16) -> (path: String)
    ensures
        path@ == clock_path(t as nat),
{
    let mut path = String::from_str("/sys/devices/system/cpu/cpu");
    push_decimal(&mut path, t as u64);
    path.append("/cpufreq/scaling_cur_freq");
    path
}

} // verus!
