//! Memory and swap figures read from `/proc/meminfo`.
use vstd::prelude::*;
use vstd::utf8::*;
use crate::text::{split_seq, starts_with, parse_bounded, views, split_bytes, has_prefix, parse_usize_bytes};

verus! {

/// The lines of `/proc/meminfo` that the figures come from begin with `Mem` or `Swap`.
pub open spec fn is_memory_line(line: Seq<u8>) -> bool {
    starts_with(line, seq![77u8, 101u8, 109u8]) || starts_with(line, seq![83u8, 119u8, 97u8, 112u8])
}

/// The figure of a line in mebibytes: the field before the last space-separated
/// one (the unit), read in kibibytes and divided by 1024; `None` where there is
/// no such field or it is no `usize`.
pub open spec fn line_figure(line: Seq<u8>) -> Option<nat> {
    let fields = split_seq(line, 32u8);
    if fields.len() >= 2 {
        match parse_bounded(fields[fields.len() - 2], usize::MAX as nat) {
            Some(v) => Some(v / 1024),
            None => None,
        }
    } else {
        None
    }
}

/// The figures of the memory lines among `lines`, in order; `None` where one
/// of them has no figure.
pub open spec fn figures_of(lines: Seq<Seq<u8>>) -> Option<Seq<nat>>
    decreases lines.len(),
{
    if lines.len() == 0 {
        Some(Seq::empty())
    } else {
        let before = figures_of(lines.drop_last());
        if is_memory_line(lines.last()) {
            match (before, line_figure(lines.last())) {
                (Some(f), Some(v)) => Some(f.push(v)),
                _ => None,
            }
        } else {
            before
        }
    }
}

/// The figures of a `/proc/meminfo` text: MemTotal, MemFree, MemAvailable,
/// SwapCached, SwapTotal, SwapFree and any later `Mem` or `Swap` lines.
pub open spec fn meminfo_figures(bytes: Seq<u8>) -> Option<Seq<nat>> {
    figures_of(split_seq(bytes, 10u8))
}

/// The values of `v` as natural numbers.
pub open spec fn as_nats(v: Seq<usize>) -> Seq<nat> {
    v.map_values(|x: usize| x as nat)
}

proof fn lemma_figures_none_stays(lines: Seq<Seq<u8>>, i: int)
    requires
        0 <= i <= lines.len(),
        figures_of(lines.take(i)) is None,
    ensures
        figures_of(lines) is None,
    decreases lines.len() - i,
{
    if i < lines.len() {
        assert(lines.take(i + 1).drop_last() =~= lines.take(i));
        lemma_figures_none_stays(lines, i + 1);
    } else {
        assert(lines.take(i) =~= lines);
    }
}

/// The figure of one line, as `line_figure` states it.
fn figure_of_line(line: &[u8]) -> (r: Option<usize>)
    ensures
        r matches Some(v) ==> line_figure(line@) == Some(v as nat),
        r is None ==> line_figure(line@) is None,
{
    let fields = split_bytes(line, 32u8);
    let k = fields.len();
    if k < 2 {
        return None;
    }
    assert(views(fields@)[k - 2] == fields@[k - 2]@);
    match parse_usize_bytes(fields[k - 2].as_slice()) {
        Some(v) => Some(v / 1024),
        None => None,
    }
}

/// The figures of a `/proc/meminfo` text, as `meminfo_figures` states them.
pub fn memory_figures(meminfo: &str) -> (r: Option<Vec<usize>>)
    ensures
        r matches Some(v) ==> meminfo_figures(encode_utf8(meminfo@)) == Some(as_nats(v@)),
        r is None ==> meminfo_figures(encode_utf8(meminfo@)) is None,
{
    let lines = split_bytes(meminfo.as_bytes(), 10u8);
    let ghost all = views(lines@);
    let mut out: Vec<usize> = Vec::new();
    let mut i: usize = 0;
    assert(all.take(0) =~= Seq::<Seq<u8>>::empty());
    assert(as_nats(out@) =~= Seq::<nat>::empty());
    while i < lines.len()
        invariant
            all == views(lines@),
            all == split_seq(encode_utf8(meminfo@), 10u8),
            all.len() == lines@.len(),
            i <= lines@.len(),
            figures_of(all.take(i as int)) == Some(as_nats(out@)),
        decreases lines@.len() - i,
    {
        let line = lines[i].as_slice();
        assert(all[i as int] == line@);
        assert(all.take(i + 1).drop_last() =~= all.take(i as int));
        assert(all.take(i + 1).last() == line@);
        if has_prefix(line, &[77u8, 101u8, 109u8]) || has_prefix(line, &[83u8, 119u8, 97u8, 112u8]) {
            assert(is_memory_line(line@));
            match figure_of_line(line) {
                Some(v) => {
                    let ghost before = out@;
                    out.push(v);
                    assert(as_nats(out@) =~= as_nats(before).push(v as nat));
                },
                None => {
                    proof {
                        assert(figures_of(all.take(i + 1)) is None);
                        lemma_figures_none_stays(all, i + 1);
                    }
                    return None;
                },
            }
        } else {
            assert(!is_memory_line(line@));
        }
        i = i + 1;
    }
    assert(all.take(i as int) =~= all);
    Some(out)
}

/// Main memory in mebibytes: in use (neither free nor reclaimable), handed
/// out (not free), and installed.
#[derive(Clone, Debug)]
pub struct Ram {
    pub used: usize,
    pub allocated: usize,
    pub total: usize,
}

/// Swap space in mebibytes: handed out, and configured.
#[derive(Clone, Debug)]
pub struct Swap {
    pub allocated: usize,
    pub total: usize,
}

#[derive(Clone, Debug)]
pub struct Memory {
    pub ram: Ram,
    pub swap: Swap,
}

/// The figures of a text that `Memory::new` can take: at least six, and no
/// difference that it forms below zero.
pub open spec fn creatable(f: Seq<nat>) -> bool {
    &&& f.len() >= 6
    &&& f[0] >= f[2]
    &&& f[0] >= f[1]
    &&& f[4] >= f[5]
}

/// The figures of a text that `update` can take on `m`: at least five, and no
/// difference that it forms below zero.
pub open spec fn updatable(m: Memory, f: Seq<nat>) -> bool {
    &&& f.len() >= 5
    &&& m.ram.total >= f[2]
    &&& m.ram.total >= f[1]
    &&& m.swap.total >= f[4]
}

/// `Memory::new` takes exactly the texts with at least six figures where
/// each difference it forms (MemTotal less MemAvailable, MemTotal less
/// MemFree, SwapTotal less SwapFree) is zero or more: among them a machine
/// without swap, whose SwapTotal and SwapFree are both zero.
pub proof fn lemma_creatable_exactly(f: Seq<nat>)
    ensures
        creatable(f) <==> (f.len() >= 6 && f[0] - f[2] >= 0 && f[0] - f[1] >= 0 && f[4] - f[5] >= 0),
        f.len() >= 6 && f[0] >= f[1] && f[0] >= f[2] && f[4] == f[5] ==> creatable(f),
{
}

/// `update` takes exactly the texts with at least five figures where each
/// difference it forms against the totals read first is zero or more.
pub proof fn lemma_updatable_exactly(m: Memory, f: Seq<nat>)
    ensures
        updatable(m, f) <==> (f.len() >= 5 && m.ram.total - f[2] >= 0 && m.ram.total - f[1] >= 0
            && m.swap.total - f[4] >= 0),
{
}

impl Memory {
    /// Reads every figure from the `/proc/meminfo` text `meminfo`.
    pub fn new(meminfo: &str) -> (m: Self)
        requires
            meminfo_figures(encode_utf8(meminfo@)) matches Some(f) && creatable(f),
        ensures
            ({
                let f = meminfo_figures(encode_utf8(meminfo@))->0;
                &&& m.ram.used == f[0] - f[2]
                &&& m.ram.allocated == f[0] - f[1]
                &&& m.ram.total == f[0]
                &&& m.swap.allocated == f[4] - f[5]
                &&& m.swap.total == f[4]
            }),
            m.ram.used <= m.ram.total,
            m.ram.allocated <= m.ram.total,
            m.swap.allocated <= m.swap.total,
    {
        let figures = memory_figures(meminfo);
        match figures {
            Some(v) => {
                assert(as_nats(v@)[0] == v@[0] as nat);
                assert(as_nats(v@)[1] == v@[1] as nat);
                assert(as_nats(v@)[2] == v@[2] as nat);
                assert(as_nats(v@)[4] == v@[4] as nat);
                assert(as_nats(v@)[5] == v@[5] as nat);
                Memory {
                    ram: Ram { used: v[0] - v[2], allocated: v[0] - v[1], total: v[0] },
                    swap: Swap { allocated: v[4] - v[5], total: v[4] },
                }
            },
            None => {
                assert(false);
                Memory {
                    ram: Ram { used: 0, allocated: 0, total: 0 },
                    swap: Swap { allocated: 0, total: 0 },
                }
            },
        }
    }

    /// Whether `new` can take `meminfo`.
    pub fn can_create(meminfo: &str) -> (ok: bool)
        ensures
            ok == (meminfo_figures(encode_utf8(meminfo@)) matches Some(f) && creatable(f)),
    {
        match memory_figures(meminfo) {
            Some(v) => {
                if v.len() < 6 {
                    return false;
                }
                assert(as_nats(v@)[0] == v@[0] as nat);
                assert(as_nats(v@)[1] == v@[1] as nat);
                assert(as_nats(v@)[2] == v@[2] as nat);
                assert(as_nats(v@)[4] == v@[4] as nat);
                assert(as_nats(v@)[5] == v@[5] as nat);
                v[0] >= v[2] && v[0] >= v[1] && v[4] >= v[5]
            },
            None => false,
        }
    }

    /// Refreshes what is in use from the `/proc/meminfo` text `meminfo`; the
    /// totals stay as they were read first. The swap handed out becomes the
    /// swap total less the fifth figure (SwapTotal, not SwapFree), so it is
    /// zero while the configured swap stays the same.
    pub fn update(&mut self, meminfo: &str)
        requires
            meminfo_figures(encode_utf8(meminfo@)) matches Some(f) && updatable(*old(self), f),
        ensures
            ({
                let f = meminfo_figures(encode_utf8(meminfo@))->0;
                &&& final(self).ram.used == old(self).ram.total - f[2]
                &&& final(self).ram.allocated == old(self).ram.total - f[1]
                &&& final(self).ram.total == old(self).ram.total
                &&& final(self).swap.allocated == old(self).swap.total - f[4]
                &&& final(self).swap.total == old(self).swap.total
            }),
            final(self).ram.used <= final(self).ram.total,
            final(self).ram.allocated <= final(self).ram.total,
            final(self).swap.allocated <= final(self).swap.total,
    {
        let figures = memory_figures(meminfo);
        match figures {
            Some(v) => {
                assert(as_nats(v@)[1] == v@[1] as nat);
                assert(as_nats(v@)[2] == v@[2] as nat);
                assert(as_nats(v@)[4] == v@[4] as nat);
                self.ram.used = self.ram.total - v[2];
                self.ram.allocated = self.ram.total - v[1];
                self.swap.allocated = self.swap.total - v[4];
            },
            None => {
                assert(false);
            },
        }
    }

    /// Whether `update` can take `meminfo`.
    pub fn can_update(&self, meminfo: &str) -> (ok: bool)
        ensures
            ok == (meminfo_figures(encode_utf8(meminfo@)) matches Some(f) && updatable(*self, f)),
    {
        match memory_figures(meminfo) {
            Some(v) => {
                if v.len() < 5 {
                    return false;
                }
                assert(as_nats(v@)[1] == v@[1] as nat);
                assert(as_nats(v@)[2] == v@[2] as nat);
                assert(as_nats(v@)[4] == v@[4] as nat);
                self.ram.total >= v[2] && self.ram.total >= v[1] && self.swap.total >= v[4]
            },
            None => false,
        }
    }
}

} // verus!
