//! The report of a sampling pass: figures as text, and their padded form.
use vstd::prelude::*;
use vstd::relations::sorted_by;
use vstd::utf8::*;
use vstd::string::*;
use crate::text::{
    decimal, decimal_string, split_seq, split_text, push_char, join, is_digit,
    lemma_split_front, lemma_split_whole, lemma_decimal_len, lemma_decimal_ascii,
    lemma_encode_concat,
};
use crate::network::{Network, Ipv4, ipv4_text};
use crate::unit_types::Size;
use crate::ram::Memory;
use num_traits::NumCast;

verus! {

broadcast use vstd::seq_lib::group_to_multiset_ensures;

/// `s` in ascending order.
pub open spec fn ascending(s: Seq<u16>) -> bool {
    forall|i: int, j: int| 0 <= i <= j < s.len() ==> s[i] <= s[j]
}

/// The values of `s` in ascending order.
pub open spec fn sorted_of(s: Seq<u16>) -> Seq<u16> {
    s.sort_by(|a: u16, b: u16| a <= b)
}

/// The middle value of the ascending `t`, or the mean of the two middle values
/// (rounded down) where there is an even number of them.
pub open spec fn middle(t: Seq<u16>) -> int {
    let n = t.len() as int;
    if n % 2 == 0 {
        (t[n / 2] + t[n / 2 - 1]) / 2
    } else {
        t[n / 2] as int
    }
}

/// Two ascending sequences with the same values, counted with multiplicity,
/// are the same sequence.
pub proof fn lemma_ascending_unique(a: Seq<u16>, b: Seq<u16>)
    requires
        ascending(a),
        ascending(b),
        a.to_multiset() == b.to_multiset(),
    ensures
        a == b,
    decreases a.len(),
{
    assert(a.len() == a.to_multiset().len());
    assert(b.len() == b.to_multiset().len());
    if a.len() == 0 {
        assert(a =~= b);
    } else {
        assert(a.to_multiset().count(a[0]) > 0);
        assert(b.contains(a[0]));
        let k = choose|k: int| 0 <= k < b.len() && b[k] == a[0];
        assert(b[0] <= b[k]);
        assert(b.to_multiset().count(b[0]) > 0);
        assert(a.contains(b[0]));
        let l = choose|l: int| 0 <= l < a.len() && a[l] == b[0];
        assert(a[0] <= a[l]);
        assert(a[0] == b[0]);
        assert(a.remove(0) =~= a.drop_first());
        assert(b.remove(0) =~= b.drop_first());
        assert(a.drop_first().to_multiset() == a.to_multiset().remove(a[0]));
        assert(b.drop_first().to_multiset() == b.to_multiset().remove(b[0]));
        lemma_ascending_unique(a.drop_first(), b.drop_first());
        assert forall|i: int| 0 <= i < a.len() implies a[i] == b[i] by {
            if i > 0 {
                assert(a[i] == a.drop_first()[i - 1]);
                assert(b[i] == b.drop_first()[i - 1]);
            }
        }
        assert(a =~= b);
    }
}

/// An ascending arrangement of `s` is the one that `sorted_of` gives.
pub proof fn lemma_sorted_of(s: Seq<u16>, t: Seq<u16>)
    requires
        ascending(t),
        t.to_multiset() == s.to_multiset(),
    ensures
        t == sorted_of(s),
{
    let leq = |a: u16, b: u16| a <= b;
    s.lemma_sort_by_ensures(leq);
    let u = sorted_of(s);
    assert(sorted_by(u, leq));
    assert forall|i: int, j: int| 0 <= i <= j < u.len() implies u[i] <= u[j] by {
        if i < j {
            assert(leq(u[i], u[j]));
        }
    }
    lemma_ascending_unique(t, u);
}

/// The values of `v` in ascending order.
pub fn sort_ascending(v: &Vec<u16>) -> (t: Vec<u16>)
    ensures
        t@ == sorted_of(v@),
{
    let mut out: Vec<u16> = Vec::new();
    let mut i: usize = 0;
    assert(v@.take(0) =~= Seq::<u16>::empty());
    while i < v.len()
        invariant
            i <= v@.len(),
            ascending(out@),
            out@.to_multiset() == v@.take(i as int).to_multiset(),
        decreases v@.len() - i,
    {
        let x = v[i];
        let mut pos: usize = 0;
        while pos < out.len() && out[pos] <= x
            invariant
                pos <= out@.len(),
                forall|k: int| 0 <= k < pos ==> out@[k] <= x,
            decreases out@.len() - pos,
        {
            pos = pos + 1;
        }
        let ghost before = out@;
        out.insert(pos, x);
        proof {
            before.insert_ensures(pos as int, x);
            assert(out@ == before.insert(pos as int, x));
            assert forall|a: int, b: int| 0 <= a <= b < out@.len() implies out@[a] <= out@[b] by {
                if b < pos {
                } else if a > pos {
                    assert(out@[a] == before[a - 1]);
                    assert(out@[b] == before[b - 1]);
                } else if a == pos {
                    if b > pos {
                        assert(out@[b] == before[b - 1]);
                        assert(before[pos as int] > x);
                        assert(before[pos as int] <= before[b - 1]);
                    }
                } else {
                    if b == pos {
                    } else {
                        assert(out@[b] == before[b - 1]);
                    }
                }
            }
            assert(v@.take(i + 1) =~= v@.take(i as int).push(x));
        }
        i = i + 1;
    }
    assert(v@.take(i as int) =~= v@);
    proof {
        lemma_sorted_of(v@, out@);
    }
    out
}

/// Converts `n` to a `u16` through `num_traits`: the value where it fits, else nothing.
#[verifier::external_body]
fn u16_from_i32(n: i32) -> (r: Option<u16>)
    ensures
        0 <= n <= u16::MAX ==> r == Some(n as u16),
        !(0 <= n <= u16::MAX) ==> r is None,
{
    <u16 as NumCast>::from(n)
}

/// The values of `list` can be taken by `median`: there is one at least, and
/// the two middle ones of an even number add up within a `u16`.
pub open spec fn median_fits(list: Seq<u16>) -> bool {
    let t = sorted_of(list);
    let n = list.len() as int;
    &&& n > 0
    &&& n % 2 == 0 ==> t[n / 2] + t[n / 2 - 1] <= u16::MAX
}

/// Whether `median` can take `list`.
pub fn median_fits_in(list: &Vec<u16>) -> (ok: bool)
    ensures
        ok == median_fits(list@),
{
    let t = sort_ascending(list);
    proof {
        lemma_sorted_len(list@);
    }
    let n = t.len();
    if n == 0 {
        return false;
    }
    if n % 2 == 0 {
        t[n / 2] as u32 + t[n / 2 - 1] as u32 <= 65535
    } else {
        true
    }
}

/// The median of `list`.
pub fn median(list: Vec<u16>) -> (m: u16)
    requires
        median_fits(list@),
    ensures
        m == middle(sorted_of(list@)),
{
    let t = sort_ascending(&list);
    assert(t@.len() == list@.len()) by {
        assert(t@.len() == t@.to_multiset().len());
        assert(list@.len() == list@.to_multiset().len());
        lemma_sorted_len(list@);
    }
    let n = t.len();
    if n % 2 == 0 {
        let two = match u16_from_i32(2) {
            Some(v) => v,
            None => 2,
        };
        (t[n / 2] + t[n / 2 - 1]) / two
    } else {
        t[n / 2]
    }
}

proof fn lemma_sorted_len(s: Seq<u16>)
    ensures
        sorted_of(s).len() == s.len(),
{
    s.lemma_sort_by_ensures(|a: u16, b: u16| a <= b);
    assert(sorted_of(s).to_multiset().len() == s.to_multiset().len());
}

/// `s` written `n` times over.
pub open spec fn repeat(s: Seq<char>, n: nat) -> Seq<char>
    decreases n,
{
    if n == 0 {
        Seq::empty()
    } else {
        repeat(s, (n - 1) as nat) + s
    }
}

/// `x` brought to `size` bytes by copies of `blank` in front, followed by `prefix`.
pub open spec fn padded(x: Seq<char>, size: int, blank: Seq<char>, prefix: Seq<char>) -> Seq<char> {
    repeat(blank, (size - encode_utf8(x).len()) as nat) + x + prefix
}

/// `s` is the figure `x` itself, with some number of `blank` characters in
/// front of it and `unit` after it.
pub open spec fn framed(s: Seq<char>, x: Seq<char>, blank: char, unit: Seq<char>) -> bool {
    let n = s.len() - x.len() - unit.len();
    &&& n >= 0
    &&& s == Seq::new(n as nat, |i: int| blank) + x + unit
}

proof fn lemma_repeat_one(blank: Seq<char>, c: char, n: nat)
    requires
        blank == seq![c],
    ensures
        repeat(blank, n) == Seq::new(n, |i: int| c),
    decreases n,
{
    if n > 0 {
        lemma_repeat_one(blank, c, (n - 1) as nat);
        assert(repeat(blank, n) =~= Seq::new(n, |i: int| c));
    } else {
        assert(repeat(blank, 0) =~= Seq::new(0, |i: int| c));
    }
}

/// Padding with the one-character `blank` keeps the figure: what comes out
/// is `x` itself, with copies of that character in front and `prefix` after it.
pub proof fn lemma_padded_keeps_figure(x: Seq<char>, size: int, c: char, prefix: Seq<char>)
    ensures
        framed(padded(x, size, seq![c], prefix), x, c, prefix),
{
    let n = (size - encode_utf8(x).len()) as nat;
    lemma_repeat_one(seq![c], c, n);
    let s = padded(x, size, seq![c], prefix);
    assert(s.len() - x.len() - prefix.len() == n);
}

/// `x` fits in `size` bytes.
pub open spec fn fits(x: Seq<char>, size: int) -> bool {
    encode_utf8(x).len() <= size
}

proof fn lemma_repeat_width(blank: Seq<char>, n: nat)
    requires
        encode_utf8(blank).len() == 1,
    ensures
        encode_utf8(repeat(blank, n)).len() == n,
    decreases n,
{
    if n > 0 {
        lemma_repeat_width(blank, (n - 1) as nat);
        lemma_encode_concat(repeat(blank, (n - 1) as nat), blank);
    } else {
        assert(repeat(blank, 0) =~= Seq::<char>::empty());
    }
}

/// Padding with a one-byte `blank` brings a figure that fits in `size`
/// bytes to exactly `size` bytes, before `prefix`: figures line up in columns.
pub proof fn lemma_padded_width(x: Seq<char>, size: int, blank: Seq<char>, prefix: Seq<char>)
    requires
        fits(x, size),
        encode_utf8(blank).len() == 1,
    ensures
        encode_utf8(padded(x, size, blank, prefix)).len() == size + encode_utf8(prefix).len(),
{
    let n = (size - encode_utf8(x).len()) as nat;
    lemma_repeat_width(blank, n);
    lemma_encode_concat(repeat(blank, n), x);
    lemma_encode_concat(repeat(blank, n) + x, prefix);
}

/// Pads `x` to `size` bytes with copies of `blank` in front and puts `prefix` after it.
pub fn prettify(x: &str, size: usize, blank: &str, prefix: &str) -> (r: String)
    requires
        fits(x@, size as int),
    ensures
        r@ == padded(x@, size as int, blank@, prefix@),
{
    let n = size - x.as_bytes().len();
    let mut r = String::new();
    let mut k: usize = 0;
    assert(r@ =~= repeat(blank@, 0));
    while k < n
        invariant
            k <= n,
            r@ == repeat(blank@, k as nat),
        decreases n - k,
    {
        r.append(blank);
        k = k + 1;
        assert(r@ =~= repeat(blank@, k as nat));
    }
    r.append(x);
    r.append(prefix);
    assert(r@ =~= padded(x@, size as int, blank@, prefix@));
    r
}

/// Every one of `values` fits in `size` bytes.
pub open spec fn all_fit(values: Seq<String>, size: int) -> bool {
    forall|i: int| 0 <= i < values.len() ==> fits((#[trigger] values[i])@, size)
}

/// Pads each of `values` as `prettify` does.
pub fn prettify_all(values: &Vec<String>, size: usize, blank: &str, prefix: &str) -> (r: Vec<String>)
    requires
        all_fit(values@, size as int),
    ensures
        r@.len() == values@.len(),
        forall|i: int| 0 <= i < values@.len() ==> (#[trigger] r@[i])@ == padded(values@[i]@, size as int, blank@, prefix@),
{
    let mut r: Vec<String> = Vec::new();
    let mut i: usize = 0;
    while i < values.len()
        invariant
            i <= values@.len(),
            all_fit(values@, size as int),
            r@.len() == i,
            forall|j: int| 0 <= j < i ==> (#[trigger] r@[j])@ == padded(values@[j]@, size as int, blank@, prefix@),
        decreases values@.len() - i,
    {
        assert(fits(values@[i as int]@, size as int));
        r.push(prettify(values[i].as_str(), size, blank, prefix));
        i = i + 1;
    }
    r
}

/// Whether `x` fits in `size` bytes.
pub fn fits_in_bytes(x: &String, size: usize) -> (ok: bool)
    ensures
        ok == fits(x@, size as int),
{
    x.as_str().as_bytes().len() <= size
}

/// Whether every one of `values` fits in `size` bytes.
pub fn all_fit_in_bytes(values: &Vec<String>, size: usize) -> (ok: bool)
    ensures
        ok == all_fit(values@, size as int),
{
    let mut i: usize = 0;
    while i < values.len()
        invariant
            i <= values@.len(),
            forall|j: int| 0 <= j < i ==> fits((#[trigger] values@[j])@, size as int),
        decreases values@.len() - i,
    {
        if !fits_in_bytes(&values[i], size) {
            return false;
        }
        i = i + 1;
    }
    true
}

/// Clock figures in megahertz.
pub struct Clock {
    pub median: String,
    pub arithmetic_mean: String,
    pub max: String,
    pub min: String,
    pub values: Vec<String>,
}

impl Clock {
    /// Aligning keeps every figure: each aligned figure, less the blanks in
    /// front and the unit after it, is the figure it came from, in its own place.
    pub proof fn lemma_keeps_figures(r: Clock, from: Clock)
        requires
            r.pads(&from),
        ensures
            framed(r.median@, from.median@, ' ', "MHz"@),
            framed(r.arithmetic_mean@, from.arithmetic_mean@, ' ', "MHz"@),
            framed(r.max@, from.max@, ' ', "MHz"@),
            framed(r.min@, from.min@, ' ', "MHz"@),
            r.values@.len() == from.values@.len(),
            forall|i: int| 0 <= i < from.values@.len() ==> framed((#[trigger] r.values@[i])@, from.values@[i]@, ' ', "MHz"@),
    {
        reveal_strlit(" ");
        assert(" "@ =~= seq![' ']);
        lemma_padded_keeps_figure(from.median@, 4, ' ', "MHz"@);
        lemma_padded_keeps_figure(from.arithmetic_mean@, 4, ' ', "MHz"@);
        lemma_padded_keeps_figure(from.max@, 4, ' ', "MHz"@);
        lemma_padded_keeps_figure(from.min@, 4, ' ', "MHz"@);
        assert forall|i: int| 0 <= i < from.values@.len() implies framed((#[trigger] r.values@[i])@, from.values@[i]@, ' ', "MHz"@) by {
            lemma_padded_keeps_figure(from.values@[i]@, 4, ' ', "MHz"@);
        }
    }

    /// `self` is `from` with each figure padded with spaces to four bytes
    /// and followed by `MHz`.
    pub open spec fn pads(&self, from: &Clock) -> bool {
        &&& self.median@ == padded(from.median@, 4, " "@, "MHz"@)
        &&& self.arithmetic_mean@ == padded(from.arithmetic_mean@, 4, " "@, "MHz"@)
        &&& self.max@ == padded(from.max@, 4, " "@, "MHz"@)
        &&& self.min@ == padded(from.min@, 4, " "@, "MHz"@)
        &&& self.values@.len() == from.values@.len()
        &&& forall|i: int| 0 <= i < from.values@.len() ==> (#[trigger] self.values@[i])@ == padded(from.values@[i]@, 4, " "@, "MHz"@)
    }

    /// Every figure fits in `size` bytes.
    pub open spec fn fits_in(&self, size: int) -> bool {
        &&& fits(self.median@, size)
        &&& fits(self.arithmetic_mean@, size)
        &&& fits(self.max@, size)
        &&& fits(self.min@, size)
        &&& all_fit(self.values@, size)
    }

    /// Whether every figure fits in `size` bytes.
    pub fn fit_in(&self, size: usize) -> (ok: bool)
        ensures
            ok == self.fits_in(size as int),
    {
        fits_in_bytes(&self.median, size) && fits_in_bytes(&self.arithmetic_mean, size)
            && fits_in_bytes(&self.max, size) && fits_in_bytes(&self.min, size)
            && all_fit_in_bytes(&self.values, size)
    }

    /// Each figure padded with spaces to four bytes, followed by `MHz`.
    pub fn prettify(self) -> (r: Self)
        requires
            self.fits_in(4),
        ensures
            r.pads(&self),
            framed(r.median@, self.median@, ' ', "MHz"@),
            framed(r.arithmetic_mean@, self.arithmetic_mean@, ' ', "MHz"@),
            framed(r.max@, self.max@, ' ', "MHz"@),
            framed(r.min@, self.min@, ' ', "MHz"@),
            r.values@.len() == self.values@.len(),
            forall|i: int| 0 <= i < self.values@.len() ==> framed((#[trigger] r.values@[i])@, self.values@[i]@, ' ', "MHz"@),
    {
        let r = Clock {
            median: prettify(self.median.as_str(), 4, " ", "MHz"),
            arithmetic_mean: prettify(self.arithmetic_mean.as_str(), 4, " ", "MHz"),
            max: prettify(self.max.as_str(), 4, " ", "MHz"),
            min: prettify(self.min.as_str(), 4, " ", "MHz"),
            values: prettify_all(&self.values, 4, " ", "MHz"),
        };
        proof {
            Clock::lemma_keeps_figures(r, self);
        }
        r
    }
}

/// Busy shares in percent.
pub struct Util {
    pub median: String,
    pub arithmetic_mean: String,
    pub max: String,
    pub min: String,
    pub values: Vec<String>,
}

impl Util {
    /// Aligning keeps every figure: each aligned figure, less the blanks in
    /// front and the unit after it, is the figure it came from, in its own place.
    pub proof fn lemma_keeps_figures(r: Util, from: Util)
        requires
            r.pads(&from),
        ensures
            framed(r.median@, from.median@, '0', "%"@),
            framed(r.arithmetic_mean@, from.arithmetic_mean@, '0', "%"@),
            framed(r.max@, from.max@, '0', "%"@),
            framed(r.min@, from.min@, '0', "%"@),
            r.values@.len() == from.values@.len(),
            forall|i: int| 0 <= i < from.values@.len() ==> framed((#[trigger] r.values@[i])@, from.values@[i]@, '0', "%"@),
    {
        reveal_strlit("0");
        assert("0"@ =~= seq!['0']);
        lemma_padded_keeps_figure(from.median@, 2, '0', "%"@);
        lemma_padded_keeps_figure(from.arithmetic_mean@, 2, '0', "%"@);
        lemma_padded_keeps_figure(from.max@, 2, '0', "%"@);
        lemma_padded_keeps_figure(from.min@, 2, '0', "%"@);
        assert forall|i: int| 0 <= i < from.values@.len() implies framed((#[trigger] r.values@[i])@, from.values@[i]@, '0', "%"@) by {
            lemma_padded_keeps_figure(from.values@[i]@, 2, '0', "%"@);
        }
    }

    /// `self` is `from` with each figure padded with zeros to two bytes and
    /// followed by `%`.
    pub open spec fn pads(&self, from: &Util) -> bool {
        &&& self.median@ == padded(from.median@, 2, "0"@, "%"@)
        &&& self.arithmetic_mean@ == padded(from.arithmetic_mean@, 2, "0"@, "%"@)
        &&& self.max@ == padded(from.max@, 2, "0"@, "%"@)
        &&& self.min@ == padded(from.min@, 2, "0"@, "%"@)
        &&& self.values@.len() == from.values@.len()
        &&& forall|i: int| 0 <= i < from.values@.len() ==> (#[trigger] self.values@[i])@ == padded(from.values@[i]@, 2, "0"@, "%"@)
    }

    /// Every figure fits in `size` bytes.
    pub open spec fn fits_in(&self, size: int) -> bool {
        &&& fits(self.median@, size)
        &&& fits(self.arithmetic_mean@, size)
        &&& fits(self.max@, size)
        &&& fits(self.min@, size)
        &&& all_fit(self.values@, size)
    }

    /// Whether every figure fits in `size` bytes.
    pub fn fit_in(&self, size: usize) -> (ok: bool)
        ensures
            ok == self.fits_in(size as int),
    {
        fits_in_bytes(&self.median, size) && fits_in_bytes(&self.arithmetic_mean, size)
            && fits_in_bytes(&self.max, size) && fits_in_bytes(&self.min, size)
            && all_fit_in_bytes(&self.values, size)
    }

    /// Each figure padded with zeros to two bytes, followed by `%`.
    pub fn prettify(self) -> (r: Self)
        requires
            self.fits_in(2),
        ensures
            r.pads(&self),
            framed(r.median@, self.median@, '0', "%"@),
            framed(r.arithmetic_mean@, self.arithmetic_mean@, '0', "%"@),
            framed(r.max@, self.max@, '0', "%"@),
            framed(r.min@, self.min@, '0', "%"@),
            r.values@.len() == self.values@.len(),
            forall|i: int| 0 <= i < self.values@.len() ==> framed((#[trigger] r.values@[i])@, self.values@[i]@, '0', "%"@),
    {
        let r = Util {
            median: prettify(self.median.as_str(), 2, "0", "%"),
            arithmetic_mean: prettify(self.arithmetic_mean.as_str(), 2, "0", "%"),
            max: prettify(self.max.as_str(), 2, "0", "%"),
            min: prettify(self.min.as_str(), 2, "0", "%"),
            values: prettify_all(&self.values, 2, "0", "%"),
        };
        proof {
            Util::lemma_keeps_figures(r, self);
        }
        r
    }
}

/// The sum of the values.
pub open spec fn total(s: Seq<u16>) -> nat
    decreases s.len(),
{
    if s.len() == 0 {
        0
    } else {
        total(s.drop_last()) + s.last() as nat
    }
}

/// The largest value (the first one where there is none).
pub open spec fn max_of(s: Seq<u16>) -> u16
    decreases s.len(),
{
    if s.len() <= 1 {
        s[0]
    } else {
        let m = max_of(s.drop_last());
        if s.last() > m { s.last() } else { m }
    }
}

/// The smallest value (the first one where there is none).
pub open spec fn min_of(s: Seq<u16>) -> u16
    decreases s.len(),
{
    if s.len() <= 1 {
        s[0]
    } else {
        let m = min_of(s.drop_last());
        if s.last() < m { s.last() } else { m }
    }
}

/// The reported largest value is one of the values and no value exceeds it;
/// the reported smallest value is one of the values and no value is below it.
pub proof fn lemma_max_min_attained(s: Seq<u16>)
    requires
        s.len() > 0,
    ensures
        forall|i: int| 0 <= i < s.len() ==> s[i] <= max_of(s),
        exists|i: int| 0 <= i < s.len() && s[i] == max_of(s),
        forall|i: int| 0 <= i < s.len() ==> min_of(s) <= s[i],
        exists|i: int| 0 <= i < s.len() && s[i] == min_of(s),
    decreases s.len(),
{
    if s.len() == 1 {
        assert(s[0] == max_of(s));
        assert(s[0] == min_of(s));
    } else {
        let p = s.drop_last();
        lemma_max_min_attained(p);
        assert forall|i: int| 0 <= i < s.len() implies s[i] <= max_of(s) && min_of(s) <= s[i] by {
            if i < s.len() - 1 {
                assert(s[i] == p[i]);
            }
        }
        if s.last() > max_of(p) {
            assert(s[s.len() - 1] == max_of(s));
        } else {
            let k = choose|k: int| 0 <= k < p.len() && p[k] == max_of(p);
            assert(s[k] == max_of(s));
        }
        if s.last() < min_of(p) {
            assert(s[s.len() - 1] == min_of(s));
        } else {
            let k = choose|k: int| 0 <= k < p.len() && p[k] == min_of(p);
            assert(s[k] == min_of(s));
        }
    }
}

/// Every value counts toward the sum: no values sum to zero, and one value
/// more adds itself to the sum.
pub proof fn lemma_total_counts_every_value(s: Seq<u16>, x: u16)
    ensures
        total(Seq::<u16>::empty()) == 0,
        total(s.push(x)) == total(s) + x,
{
    assert(s.push(x).drop_last() =~= s);
}

/// A share shown as at most 99 percent, so that it keeps to two digits.
pub open spec fn capped(v: int) -> int {
    if v < 99 { v } else { 99 }
}

proof fn lemma_total_prefix(s: Seq<u16>, k: int)
    requires
        0 <= k <= s.len(),
    ensures
        total(s.take(k)) <= total(s),
    decreases s.len() - k,
{
    if k < s.len() {
        lemma_total_prefix(s, k + 1);
        assert(s.take(k + 1).drop_last() =~= s.take(k));
    } else {
        assert(s.take(k) =~= s);
    }
}

/// The sum, the largest and the smallest of `v`, which is not empty and whose
/// sum fits in a `u16`.
fn summary(v: &Vec<u16>) -> (r: (u16, u16, u16))
    requires
        v@.len() > 0,
        total(v@) <= u16::MAX,
    ensures
        r.0 == total(v@),
        r.1 == max_of(v@),
        r.2 == min_of(v@),
{
    let mut sum: u16 = v[0];
    let mut hi: u16 = v[0];
    let mut lo: u16 = v[0];
    let mut i: usize = 1;
    assert(v@.take(1).drop_last() =~= Seq::<u16>::empty());
    assert(v@.take(1).last() == v@[0]);
    assert(total(Seq::<u16>::empty()) == 0);
    assert(total(v@.take(1)) == v@[0]);
    while i < v.len()
        invariant
            1 <= i <= v@.len(),
            total(v@) <= u16::MAX,
            sum == total(v@.take(i as int)),
            hi == max_of(v@.take(i as int)),
            lo == min_of(v@.take(i as int)),
        decreases v@.len() - i,
    {
        assert(v@.take(i + 1).drop_last() =~= v@.take(i as int));
        proof {
            lemma_total_prefix(v@, i + 1);
        }
        sum = sum + v[i];
        if v[i] > hi {
            hi = v[i];
        }
        if v[i] < lo {
            lo = v[i];
        }
        i = i + 1;
    }
    assert(v@.take(i as int) =~= v@);
    (sum, hi, lo)
}

/// The decimal numerals of `v`, each first capped at 99 where `cap` is set.
fn numerals(v: &Vec<u16>, cap: bool) -> (r: Vec<String>)
    ensures
        r@.len() == v@.len(),
        forall|i: int| 0 <= i < v@.len() ==> (#[trigger] r@[i])@ == decimal(
            (if cap { capped(v@[i] as int) } else { v@[i] as int }) as nat,
        ),
{
    let mut r: Vec<String> = Vec::new();
    let mut i: usize = 0;
    while i < v.len()
        invariant
            i <= v@.len(),
            r@.len() == i,
            forall|j: int| 0 <= j < i ==> (#[trigger] r@[j])@ == decimal(
                (if cap { capped(v@[j] as int) } else { v@[j] as int }) as nat,
            ),
        decreases v@.len() - i,
    {
        let x = if cap && v[i] > 99 { 99 } else { v[i] };
        r.push(decimal_string(x as u64));
        i = i + 1;
    }
    r
}

/// A capped share keeps to two digits.
proof fn lemma_capped_fits(v: int)
    requires
        0 <= v <= 99,
    ensures
        fits(decimal(v as nat), 2),
{
    lemma_decimal_len(v as nat, v as nat);
}

/// The processor part of a report.
pub struct CpuResult {
    pub clock: Clock,
    pub util: Util,
    pub temp: String,
}

/// The clocks and busy shares of the threads can make up a report: there are
/// some of each, each sum fits in a `u16`, and their medians can be taken.
pub open spec fn cpu_figures_fit(clocks: Seq<u16>, utils: Seq<u16>, threads: u16) -> bool {
    &&& threads > 0
    &&& median_fits(clocks)
    &&& median_fits(utils)
    &&& total(clocks) <= u16::MAX
    &&& total(utils) <= u16::MAX
}

/// Whether the values of `v` add up within a `u16`.
fn total_fits(v: &Vec<u16>) -> (ok: bool)
    ensures
        ok == (total(v@) <= u16::MAX),
{
    let mut sum: u32 = 0;
    let mut i: usize = 0;
    assert(v@.take(0) =~= Seq::<u16>::empty());
    while i < v.len()
        invariant
            i <= v@.len(),
            sum == total(v@.take(i as int)),
            sum <= u16::MAX,
        decreases v@.len() - i,
    {
        assert(v@.take(i + 1).drop_last() =~= v@.take(i as int));
        sum = sum + v[i] as u32;
        if sum > 65535 {
            proof {
                lemma_total_prefix(v@, i + 1);
            }
            return false;
        }
        i = i + 1;
    }
    assert(v@.take(i as int) =~= v@);
    true
}

impl CpuResult {
    /// Whether `new` can take these figures.
    pub fn can_create(clocks: &Vec<u16>, utils: &Vec<u16>, threads: u16) -> (ok: bool)
        ensures
            ok == cpu_figures_fit(clocks@, utils@, threads),
    {
        threads > 0 && median_fits_in(clocks) && median_fits_in(utils) && total_fits(clocks)
            && total_fits(utils)
    }

    /// The report of `clocks` (one mean clock per thread, in megahertz) and
    /// `utils` (one busy share per thread): median, mean over `threads`,
    /// largest, smallest and each value; shares are capped at 99.
    pub fn new(clocks: &Vec<u16>, utils: &Vec<u16>, threads: u16, temp: String) -> (r: Self)
        requires
            cpu_figures_fit(clocks@, utils@, threads),
        ensures
            r.clock.median@ == decimal(middle(sorted_of(clocks@)) as nat),
            r.clock.arithmetic_mean@ == decimal(total(clocks@) / threads as nat),
            r.clock.max@ == decimal(max_of(clocks@) as nat),
            r.clock.min@ == decimal(min_of(clocks@) as nat),
            r.clock.values@.len() == clocks@.len(),
            forall|i: int| 0 <= i < clocks@.len() ==> (#[trigger] r.clock.values@[i])@ == decimal(clocks@[i] as nat),
            r.util.median@ == decimal(capped(middle(sorted_of(utils@))) as nat),
            r.util.arithmetic_mean@ == decimal(capped((total(utils@) / threads as nat) as int) as nat),
            r.util.max@ == decimal(capped(max_of(utils@) as int) as nat),
            r.util.min@ == decimal(capped(min_of(utils@) as int) as nat),
            r.util.values@.len() == utils@.len(),
            forall|i: int| 0 <= i < utils@.len() ==> (#[trigger] r.util.values@[i])@ == decimal(capped(utils@[i] as int) as nat),
            r.temp == temp,
            r.util.fits_in(2),
    {
        let (clock_sum, clock_max, clock_min) = summary(clocks);
        let (util_sum, util_max, util_min) = summary(utils);
        let clock_median = median(clocks.clone());
        let util_median = median(utils.clone());
        let util_mean = util_sum / threads;
        let values = numerals(utils, true);
        proof {
            lemma_capped_fits(capped(middle(sorted_of(utils@))));
            lemma_capped_fits(capped((total(utils@) / threads as nat) as int));
            lemma_capped_fits(capped(max_of(utils@) as int));
            lemma_capped_fits(capped(min_of(utils@) as int));
            assert forall|i: int| 0 <= i < values@.len() implies fits((#[trigger] values@[i])@, 2) by {
                lemma_capped_fits(capped(utils@[i] as int));
            }
        }
        CpuResult {
            clock: Clock {
                median: decimal_string(clock_median as u64),
                arithmetic_mean: decimal_string((clock_sum / threads) as u64),
                max: decimal_string(clock_max as u64),
                min: decimal_string(clock_min as u64),
                values: numerals(clocks, false),
            },
            util: Util {
                median: decimal_string(if util_median < 99 { util_median } else { 99 } as u64),
                arithmetic_mean: decimal_string(if util_mean < 99 { util_mean } else { 99 } as u64),
                max: decimal_string(if util_max < 99 { util_max } else { 99 } as u64),
                min: decimal_string(if util_min < 99 { util_min } else { 99 } as u64),
                values,
            },
            temp,
        }
    }
}

impl CpuResult {
    /// Every figure fits the width that `prettify` pads it to.
    pub open spec fn fits_widths(&self) -> bool {
        &&& self.clock.fits_in(4)
        &&& self.util.fits_in(2)
        &&& fits(self.temp@, 4)
    }

    /// `self` is `from` padded as `prettify` pads it.
    pub open spec fn pads(&self, from: &CpuResult) -> bool {
        &&& self.clock.pads(&from.clock)
        &&& self.util.pads(&from.util)
        &&& self.temp@ == padded(from.temp@, 4, " "@, "°C"@)
    }

    /// Whether every figure fits the width that `prettify` pads it to.
    pub fn fit_widths(&self) -> (ok: bool)
        ensures
            ok == self.fits_widths(),
    {
        self.clock.fit_in(4) && self.util.fit_in(2) && fits_in_bytes(&self.temp, 4)
    }

    /// Clocks padded as `Clock::prettify` does, shares as `Util::prettify`
    /// does, the temperature padded with spaces to four bytes and followed by `°C`.
    pub fn prettify(self) -> (r: Self)
        requires
            self.fits_widths(),
        ensures
            r.pads(&self),
            framed(r.temp@, self.temp@, ' ', "°C"@),
    {
        proof {
            reveal_strlit(" ");
            assert(" "@ =~= seq![' ']);
            lemma_padded_keeps_figure(self.temp@, 4, ' ', "°C"@);
        }
        let temp = prettify(self.temp.as_str(), 4, " ", "°C");
        CpuResult { clock: self.clock.prettify(), util: self.util.prettify(), temp }
    }
}

/// The total as it is and the amount in use padded with spaces to its width.
fn pad_to_total(x: &String, total: String) -> (r: (String, String))
    requires
        fits(x@, encode_utf8(total@).len() as int),
    ensures
        r.0@ == padded(x@, encode_utf8(total@).len() as int, " "@, ""@),
        r.1@ == total@,
{
    let width = total.as_str().as_bytes().len();
    let padded_x = prettify(x.as_str(), width, " ", "");
    let mut t = total;
    t.append("");
    proof {
        reveal_strlit("");
        assert(t@ =~= total@);
    }
    (padded_x, t)
}

/// An amount in use out of a total, as text.
pub struct Swap {
    pub allocated: String,
    pub total: String,
}

impl Swap {
    /// The amount in use fits the width of the total.
    pub open spec fn fits_widths(&self) -> bool {
        fits(self.allocated@, encode_utf8(self.total@).len() as int)
    }

    /// `self` is `from` padded as `prettify` pads it.
    pub open spec fn pads(&self, from: &Swap) -> bool {
        &&& self.allocated@ == padded(from.allocated@, encode_utf8(from.total@).len() as int, " "@, ""@)
        &&& self.total@ == from.total@
    }

    /// Whether the amount in use fits the width of the total.
    pub fn fit_widths(&self) -> (ok: bool)
        ensures
            ok == self.fits_widths(),
    {
        fits_in_bytes(&self.allocated, self.total.as_str().as_bytes().len())
    }

    /// The amount in use padded with spaces to the width of the total.
    pub fn prettify(self) -> (r: Self)
        requires
            self.fits_widths(),
        ensures
            r.pads(&self),
            framed(r.allocated@, self.allocated@, ' ', ""@),
            r.total@ == self.total@,
    {
        proof {
            reveal_strlit(" ");
            assert(" "@ =~= seq![' ']);
            lemma_padded_keeps_figure(self.allocated@, encode_utf8(self.total@).len() as int, ' ', ""@);
        }
        let (allocated, total) = pad_to_total(&self.allocated, self.total);
        Swap { allocated, total }
    }
}

/// Main memory amounts as text.
pub struct Ram {
    pub used: String,
    pub allocated: String,
    pub total: String,
}

impl Ram {
    /// Each amount fits the width of the total.
    pub open spec fn fits_widths(&self) -> bool {
        &&& fits(self.used@, encode_utf8(self.total@).len() as int)
        &&& fits(self.allocated@, encode_utf8(self.total@).len() as int)
    }

    /// `self` is `from` padded as `prettify` pads it.
    pub open spec fn pads(&self, from: &Ram) -> bool {
        &&& self.used@ == padded(from.used@, encode_utf8(from.total@).len() as int, " "@, ""@)
        &&& self.allocated@ == padded(from.allocated@, encode_utf8(from.total@).len() as int, " "@, ""@)
        &&& self.total@ == from.total@
    }

    /// Whether each amount fits the width of the total.
    pub fn fit_widths(&self) -> (ok: bool)
        ensures
            ok == self.fits_widths(),
    {
        let width = self.total.as_str().as_bytes().len();
        fits_in_bytes(&self.used, width) && fits_in_bytes(&self.allocated, width)
    }

    /// The amounts in use padded with spaces to the width of the total.
    pub fn prettify(self) -> (r: Self)
        requires
            self.fits_widths(),
        ensures
            r.pads(&self),
            framed(r.used@, self.used@, ' ', ""@),
            framed(r.allocated@, self.allocated@, ' ', ""@),
            r.total@ == self.total@,
    {
        proof {
            reveal_strlit(" ");
            assert(" "@ =~= seq![' ']);
            lemma_padded_keeps_figure(self.used@, encode_utf8(self.total@).len() as int, ' ', ""@);
            lemma_padded_keeps_figure(self.allocated@, encode_utf8(self.total@).len() as int, ' ', ""@);
        }
        let width = self.total.as_str().as_bytes().len();
        let used = prettify(self.used.as_str(), width, " ", "");
        let (allocated, total) = pad_to_total(&self.allocated, self.total);
        Ram { used, allocated, total }
    }
}

/// The graphics part of a report.
pub struct GpuResult {
    pub clock: String,
    pub util: String,
    pub temp: String,
    pub vram: Swap,
}

impl GpuResult {
    /// The report of the mean clock (megahertz, as the text of its mean), the
    /// mean busy share (capped at 99), the temperature and the video memory
    /// in use out of its total.
    pub fn new(clock: String, util: u16, temp: String, memory: &Size) -> (r: Self)
        ensures
            r.clock == clock,
            r.util@ == decimal(capped(util as int) as nat),
            r.temp == temp,
            r.vram.allocated@ == decimal(memory.used as nat),
            r.vram.total@ == decimal(memory.total as nat),
            fits(r.util@, 2),
            memory.used <= memory.total ==> r.vram.fits_widths(),
    {
        proof {
            lemma_capped_fits(capped(util as int));
            if memory.used <= memory.total {
                lemma_decimal_len(memory.used as nat, memory.total as nat);
                lemma_decimal_len(memory.total as nat, memory.total as nat);
            }
        }
        GpuResult {
            clock,
            util: decimal_string(if util < 99 { util } else { 99 } as u64),
            temp,
            vram: Swap {
                allocated: decimal_string(memory.used as u64),
                total: decimal_string(memory.total as u64),
            },
        }
    }

    /// Every figure fits the width that `prettify` pads it to.
    pub open spec fn fits_widths(&self) -> bool {
        &&& fits(self.clock@, 4)
        &&& fits(self.util@, 2)
        &&& fits(self.temp@, 4)
        &&& self.vram.fits_widths()
    }

    /// `self` is `from` padded as `prettify` pads it.
    pub open spec fn pads(&self, from: &GpuResult) -> bool {
        &&& self.clock@ == padded(from.clock@, 4, " "@, "MHz"@)
        &&& self.util@ == padded(from.util@, 2, "0"@, "%"@)
        &&& self.temp@ == padded(from.temp@, 4, " "@, "°C"@)
        &&& self.vram.pads(&from.vram)
    }

    /// Whether every figure fits the width that `prettify` pads it to.
    pub fn fit_widths(&self) -> (ok: bool)
        ensures
            ok == self.fits_widths(),
    {
        fits_in_bytes(&self.clock, 4) && fits_in_bytes(&self.util, 2) && fits_in_bytes(&self.temp, 4)
            && self.vram.fit_widths()
    }

    /// The clock padded with spaces to four bytes and followed by `MHz`, the
    /// share padded with zeros to two bytes and followed by `%`, the
    /// temperature as in `CpuResult::prettify`, the video memory as in `Swap::prettify`.
    pub fn prettify(self) -> (r: Self)
        requires
            self.fits_widths(),
        ensures
            r.pads(&self),
            framed(r.clock@, self.clock@, ' ', "MHz"@),
            framed(r.util@, self.util@, '0', "%"@),
            framed(r.temp@, self.temp@, ' ', "°C"@),
            framed(r.vram.allocated@, self.vram.allocated@, ' ', ""@),
            r.vram.total@ == self.vram.total@,
    {
        proof {
            reveal_strlit(" ");
            reveal_strlit("0");
            assert(" "@ =~= seq![' ']);
            assert("0"@ =~= seq!['0']);
            lemma_padded_keeps_figure(self.clock@, 4, ' ', "MHz"@);
            lemma_padded_keeps_figure(self.util@, 2, '0', "%"@);
            lemma_padded_keeps_figure(self.temp@, 4, ' ', "°C"@);
        }
        GpuResult {
            clock: prettify(self.clock.as_str(), 4, " ", "MHz"),
            util: prettify(self.util.as_str(), 2, "0", "%"),
            temp: prettify(self.temp.as_str(), 4, " ", "°C"),
            vram: self.vram.prettify(),
        }
    }
}

/// The memory part of a report.
pub struct MemoryResult {
    pub ram: Ram,
    pub swap: Swap,
}

impl MemoryResult {
    /// Every amount of `mem` as a decimal numeral.
    pub fn new(mem: &Memory) -> (r: Self)
        ensures
            r.ram.used@ == decimal(mem.ram.used as nat),
            r.ram.allocated@ == decimal(mem.ram.allocated as nat),
            r.ram.total@ == decimal(mem.ram.total as nat),
            r.swap.allocated@ == decimal(mem.swap.allocated as nat),
            r.swap.total@ == decimal(mem.swap.total as nat),
            mem.ram.used <= mem.ram.total && mem.ram.allocated <= mem.ram.total
                && mem.swap.allocated <= mem.swap.total ==> r.fits_widths(),
    {
        proof {
            if mem.ram.used <= mem.ram.total && mem.ram.allocated <= mem.ram.total
                && mem.swap.allocated <= mem.swap.total {
                lemma_decimal_len(mem.ram.used as nat, mem.ram.total as nat);
                lemma_decimal_len(mem.ram.allocated as nat, mem.ram.total as nat);
                lemma_decimal_len(mem.ram.total as nat, mem.ram.total as nat);
                lemma_decimal_len(mem.swap.allocated as nat, mem.swap.total as nat);
                lemma_decimal_len(mem.swap.total as nat, mem.swap.total as nat);
            }
        }
        MemoryResult {
            ram: Ram {
                used: decimal_string(mem.ram.used as u64),
                allocated: decimal_string(mem.ram.allocated as u64),
                total: decimal_string(mem.ram.total as u64),
            },
            swap: Swap {
                allocated: decimal_string(mem.swap.allocated as u64),
                total: decimal_string(mem.swap.total as u64),
            },
        }
    }

    /// Every figure fits the width that `prettify` pads it to.
    pub open spec fn fits_widths(&self) -> bool {
        &&& self.ram.fits_widths()
        &&& self.swap.fits_widths()
    }

    /// `self` is `from` padded as `prettify` pads it.
    pub open spec fn pads(&self, from: &MemoryResult) -> bool {
        &&& self.ram.pads(&from.ram)
        &&& self.swap.pads(&from.swap)
    }

    /// Whether every figure fits the width that `prettify` pads it to.
    pub fn fit_widths(&self) -> (ok: bool)
        ensures
            ok == self.fits_widths(),
    {
        self.ram.fit_widths() && self.swap.fit_widths()
    }

    /// Both parts padded as `Ram::prettify` and `Swap::prettify` do.
    pub fn prettify(self) -> (r: Self)
        requires
            self.fits_widths(),
        ensures
            r.pads(&self),
    {
        MemoryResult { ram: self.ram.prettify(), swap: self.swap.prettify() }
    }
}

/// The disk part of a report, which holds nothing yet.
pub struct DiskResult {}

impl DiskResult {
    /// Nothing to pad.
    pub fn prettify(self) -> (r: Self)
        ensures
            r == self,
    {
        self
    }
}

/// Each dotted part of an address fits in three bytes.
pub open spec fn octets_fit(ip: Seq<char>) -> bool {
    forall|i: int| 0 <= i < split_seq(ip, '.').len() ==> fits(#[trigger] split_seq(ip, '.')[i], 3)
}

/// An address with each dotted part padded with spaces to three bytes.
pub open spec fn aligned_ip(ip: Seq<char>) -> Seq<char> {
    join(split_seq(ip, '.').map_values(|p: Seq<char>| padded(p, 3, " "@, ""@)), seq!['.'])
}

/// Whether each dotted part of `ip` fits in three bytes.
fn octets_fit_in(ip: &String) -> (ok: bool)
    ensures
        ok == octets_fit(ip@),
{
    let parts = split_text(ip.as_str(), '.');
    let mut i: usize = 0;
    while i < parts.len()
        invariant
            parts@.len() == split_seq(ip@, '.').len(),
            forall|k: int| 0 <= k < parts@.len() ==> (#[trigger] parts@[k])@ == split_seq(ip@, '.')[k],
            i <= parts@.len(),
            forall|k: int| 0 <= k < i ==> fits(#[trigger] split_seq(ip@, '.')[k], 3),
        decreases parts@.len() - i,
    {
        if !fits_in_bytes(&parts[i], 3) {
            return false;
        }
        i = i + 1;
    }
    true
}

/// Pads each dotted part of `ip` with spaces to three bytes.
fn align_ip(ip: &String) -> (r: String)
    requires
        octets_fit(ip@),
    ensures
        r@ == aligned_ip(ip@),
{
    let parts = split_text(ip.as_str(), '.');
    let ghost padded_parts = split_seq(ip@, '.').map_values(|p: Seq<char>| padded(p, 3, " "@, ""@));
    let mut r = String::new();
    let mut i: usize = 0;
    while i < parts.len()
        invariant
            parts@.len() == split_seq(ip@, '.').len(),
            forall|k: int| 0 <= k < parts@.len() ==> (#[trigger] parts@[k])@ == split_seq(ip@, '.')[k],
            octets_fit(ip@),
            padded_parts == split_seq(ip@, '.').map_values(|p: Seq<char>| padded(p, 3, " "@, ""@)),
            i <= parts@.len(),
            r@ == join(padded_parts.take(i as int), seq!['.']),
        decreases parts@.len() - i,
    {
        assert(fits(split_seq(ip@, '.')[i as int], 3));
        let piece = prettify(parts[i].as_str(), 3, " ", "");
        assert(padded_parts.take(i + 1).drop_last() =~= padded_parts.take(i as int));
        if i > 0 {
            push_char(&mut r, '.');
        }
        r.append(piece.as_str());
        assert(r@ =~= join(padded_parts.take(i + 1), seq!['.']));
        i = i + 1;
    }
    assert(padded_parts.take(i as int) =~= padded_parts);
    r
}

/// The dotted-decimal text of an address splits into its four octets.
pub proof fn lemma_ipv4_text_parts(ip: Ipv4)
    ensures
        split_seq(ipv4_text(ip), '.') == seq![
            decimal(ip.a as nat),
            decimal(ip.b as nat),
            decimal(ip.c as nat),
            decimal(ip.d as nat),
        ],
        octets_fit(ipv4_text(ip)),
{
    let (a, b, c, d) = (decimal(ip.a as nat), decimal(ip.b as nat), decimal(ip.c as nat), decimal(ip.d as nat));
    lemma_no_dot(ip.a as nat);
    lemma_no_dot(ip.b as nat);
    lemma_no_dot(ip.c as nat);
    lemma_no_dot(ip.d as nat);
    let dot = seq!['.'];
    assert(ipv4_text(ip) =~= a + dot + (b + dot + (c + dot + d)));
    lemma_split_front(a, b + dot + (c + dot + d), '.');
    lemma_split_front(b, c + dot + d, '.');
    lemma_split_front(c, d, '.');
    lemma_split_whole(d, '.');
    let parts = split_seq(ipv4_text(ip), '.');
    assert(parts =~= seq![a, b, c, d]);
    lemma_decimal_len(ip.a as nat, ip.a as nat);
    lemma_decimal_len(ip.b as nat, ip.b as nat);
    lemma_decimal_len(ip.c as nat, ip.c as nat);
    lemma_decimal_len(ip.d as nat, ip.d as nat);
}

proof fn lemma_no_dot(n: nat)
    ensures
        forall|i: int| 0 <= i < decimal(n).len() ==> decimal(n)[i] != '.',
{
    lemma_decimal_ascii(n);
    assert forall|i: int| 0 <= i < decimal(n).len() implies decimal(n)[i] != '.' by {
        assert(is_digit(decimal(n)[i] as u8));
    }
}

/// An address written out and aligned takes fifteen bytes, so addresses
/// line up in a column.
pub proof fn lemma_aligned_ip_width(ip: Ipv4)
    ensures
        encode_utf8(aligned_ip(ipv4_text(ip))).len() == 15,
{
    lemma_ipv4_text_parts(ip);
    let parts = split_seq(ipv4_text(ip), '.');
    let f = |p: Seq<char>| padded(p, 3, " "@, ""@);
    let padded_parts = parts.map_values(f);
    let blank = " "@;
    let none = ""@;
    reveal_strlit(" ");
    reveal_strlit("");
    assert(is_ascii_chars(blank));
    is_ascii_chars_encode_utf8(blank);
    assert(is_ascii_chars(none));
    is_ascii_chars_encode_utf8(none);
    let dot = seq!['.'];
    assert(is_ascii_chars(dot));
    is_ascii_chars_encode_utf8(dot);
    let (p0, p1, p2, p3) = (padded_parts[0], padded_parts[1], padded_parts[2], padded_parts[3]);
    lemma_padded_width(parts[0], 3, blank, none);
    lemma_padded_width(parts[1], 3, blank, none);
    lemma_padded_width(parts[2], 3, blank, none);
    lemma_padded_width(parts[3], 3, blank, none);
    assert(padded_parts =~= seq![p0, p1, p2, p3]);
    assert(seq![p0, p1].drop_last() =~= seq![p0]);
    assert(seq![p0, p1, p2].drop_last() =~= seq![p0, p1]);
    assert(seq![p0, p1, p2, p3].drop_last() =~= seq![p0, p1, p2]);
    assert(join(seq![p0], dot) == p0);
    assert(join(seq![p0, p1], dot) == p0 + dot + p1);
    assert(join(seq![p0, p1, p2], dot) == p0 + dot + p1 + dot + p2);
    assert(join(padded_parts, dot) == p0 + dot + p1 + dot + p2 + dot + p3);
    lemma_encode_concat(p0, dot);
    lemma_encode_concat(p0 + dot, p1);
    lemma_encode_concat(p0 + dot + p1, dot);
    lemma_encode_concat(p0 + dot + p1 + dot, p2);
    lemma_encode_concat(p0 + dot + p1 + dot + p2, dot);
    lemma_encode_concat(p0 + dot + p1 + dot + p2 + dot, p3);
}

/// The decimal numeral of `v`, right-aligned with spaces in three places.
pub open spec fn octet_column(v: u8) -> Seq<char> {
    let x = decimal(v as nat);
    Seq::new((3 - x.len()) as nat, |i: int| ' ') + x
}

/// Aligning an address keeps its octets, in their order: each becomes its
/// decimal numeral right-aligned in three places, with dots between them.
pub proof fn lemma_aligned_ip_octets(ip: Ipv4)
    ensures
        aligned_ip(ipv4_text(ip)) == octet_column(ip.a) + seq!['.'] + octet_column(ip.b) + seq!['.']
            + octet_column(ip.c) + seq!['.'] + octet_column(ip.d),
{
    lemma_ipv4_text_parts(ip);
    let parts = split_seq(ipv4_text(ip), '.');
    let padded_parts = parts.map_values(|p: Seq<char>| padded(p, 3, " "@, ""@));
    reveal_strlit(" ");
    reveal_strlit("");
    assert(" "@ =~= seq![' ']);
    let (p0, p1, p2, p3) = (padded_parts[0], padded_parts[1], padded_parts[2], padded_parts[3]);
    let dot = seq!['.'];
    assert(padded_parts =~= seq![p0, p1, p2, p3]);
    assert(seq![p0, p1].drop_last() =~= seq![p0]);
    assert(seq![p0, p1, p2].drop_last() =~= seq![p0, p1]);
    assert(seq![p0, p1, p2, p3].drop_last() =~= seq![p0, p1, p2]);
    assert(join(seq![p0], dot) == p0);
    assert(join(seq![p0, p1], dot) == p0 + dot + p1);
    assert(join(seq![p0, p1, p2], dot) == p0 + dot + p1 + dot + p2);
    assert(join(padded_parts, dot) == p0 + dot + p1 + dot + p2 + dot + p3);
    lemma_octet_column(ip.a);
    lemma_octet_column(ip.b);
    lemma_octet_column(ip.c);
    lemma_octet_column(ip.d);
    assert(p0 == octet_column(ip.a));
    assert(p1 == octet_column(ip.b));
    assert(p2 == octet_column(ip.c));
    assert(p3 == octet_column(ip.d));
}

proof fn lemma_octet_column(v: u8)
    ensures
        padded(decimal(v as nat), 3, seq![' '], ""@) == octet_column(v),
{
    let x = decimal(v as nat);
    lemma_decimal_len(v as nat, v as nat);
    let n = (3 - encode_utf8(x).len()) as nat;
    lemma_repeat_one(seq![' '], ' ', n);
    reveal_strlit("");
    assert(padded(x, 3, seq![' '], ""@) =~= octet_column(v));
}

/// The adapter part of a report.
pub struct Adapter {
    pub name: String,
    pub interface: String,
    pub vendor: String,
    pub connection: String,
    pub local_ip: String,
    pub public_ip: String,
}

impl Adapter {
    /// Every figure fits the width that `prettify` pads it to.
    pub open spec fn fits_widths(&self) -> bool {
        &&& octets_fit(self.local_ip@)
        &&& octets_fit(self.public_ip@)
    }

    /// Aligning changes only the addresses: each name of the aligned report
    /// is the same name of the report it came from, and each address is the
    /// same address of that report, aligned.
    pub proof fn lemma_aligns_only_addresses(r: Adapter, from: Adapter)
        requires
            r.pads(&from),
        ensures
            r.local_ip@ == aligned_ip(from.local_ip@),
            r.public_ip@ == aligned_ip(from.public_ip@),
            r.name@ == from.name@,
            r.interface@ == from.interface@,
            r.vendor@ == from.vendor@,
            r.connection@ == from.connection@,
    {
    }

    /// `self` is `from` padded as `prettify` pads it.
    pub open spec fn pads(&self, from: &Adapter) -> bool {
        &&& self.name@ == from.name@
        &&& self.interface@ == from.interface@
        &&& self.vendor@ == from.vendor@
        &&& self.connection@ == from.connection@
        &&& self.local_ip@ == aligned_ip(from.local_ip@)
        &&& self.public_ip@ == aligned_ip(from.public_ip@)
    }

    /// Whether every figure fits the width that `prettify` pads it to.
    pub fn fit_widths(&self) -> (ok: bool)
        ensures
            ok == self.fits_widths(),
    {
        octets_fit_in(&self.local_ip) && octets_fit_in(&self.public_ip)
    }

    /// The names as they are, the addresses with each dotted part padded
    /// with spaces to three bytes.
    pub fn prettify(self) -> (r: Self)
        requires
            self.fits_widths(),
        ensures
            r.pads(&self),
            r.name@ == self.name@,
            r.interface@ == self.interface@,
            r.vendor@ == self.vendor@,
            r.connection@ == self.connection@,
            r.local_ip@ == aligned_ip(self.local_ip@),
            r.public_ip@ == aligned_ip(self.public_ip@),
    {
        let local_ip = align_ip(&self.local_ip);
        let public_ip = align_ip(&self.public_ip);
        Adapter {
            name: self.name,
            interface: self.interface,
            vendor: self.vendor,
            connection: self.connection,
            local_ip,
            public_ip,
        }
    }
}

/// The network part of a report.
pub struct NetworkResult {
    pub adapter: Adapter,
}

impl NetworkResult {
    /// The adapter in use: its names, and its addresses in dotted-decimal form.
    pub fn new(net: &Network) -> (r: Self)
        ensures
            r.adapter.name@ == net.adapter.name@,
            r.adapter.interface@ == net.adapter.interface@,
            r.adapter.vendor@ == net.adapter.vendor@,
            r.adapter.connection@ == net.adapter.connection@,
            r.adapter.local_ip@ == ipv4_text(net.adapter.local_ip),
            r.adapter.public_ip@ == ipv4_text(net.adapter.public_ip),
            r.fits_widths(),
    {
        proof {
            lemma_ipv4_text_parts(net.adapter.local_ip);
            lemma_ipv4_text_parts(net.adapter.public_ip);
        }
        NetworkResult {
            adapter: Adapter {
                name: net.adapter.name.clone(),
                interface: net.adapter.interface.clone(),
                vendor: net.adapter.vendor.clone(),
                connection: net.adapter.connection.clone(),
                local_ip: net.adapter.local_ip.to_text(),
                public_ip: net.adapter.public_ip.to_text(),
            },
        }
    }

    /// Every figure fits the width that `prettify` pads it to.
    pub open spec fn fits_widths(&self) -> bool {
        self.adapter.fits_widths()
    }

    /// `self` is `from` padded as `prettify` pads it.
    pub open spec fn pads(&self, from: &NetworkResult) -> bool {
        self.adapter.pads(&from.adapter)
    }

    /// Whether every figure fits the width that `prettify` pads it to.
    pub fn fit_widths(&self) -> (ok: bool)
        ensures
            ok == self.fits_widths(),
    {
        self.adapter.fit_widths()
    }

    /// The adapter padded as `Adapter::prettify` does.
    pub fn prettify(self) -> (r: Self)
        requires
            self.fits_widths(),
        ensures
            r.pads(&self),
            r.adapter.name@ == self.adapter.name@,
            r.adapter.interface@ == self.adapter.interface@,
            r.adapter.vendor@ == self.adapter.vendor@,
            r.adapter.connection@ == self.adapter.connection@,
    {
        NetworkResult { adapter: self.adapter.prettify() }
    }
}

/// The report of one sampling pass.
pub struct Result {
    pub cpu: CpuResult,
    pub gpu: GpuResult,
    pub memory: MemoryResult,
    pub disk: DiskResult,
    pub network: NetworkResult,
}

impl Result {
    /// The report of the processor and graphics parts, of `mem` and of `net`.
    pub fn new(cpu: CpuResult, gpu: GpuResult, mem: &Memory, net: &Network) -> (r: Self)
        ensures
            r.cpu == cpu,
            r.gpu == gpu,
            r.memory.ram.used@ == decimal(mem.ram.used as nat),
            r.memory.ram.allocated@ == decimal(mem.ram.allocated as nat),
            r.memory.ram.total@ == decimal(mem.ram.total as nat),
            r.memory.swap.allocated@ == decimal(mem.swap.allocated as nat),
            r.memory.swap.total@ == decimal(mem.swap.total as nat),
            r.network.adapter.name@ == net.adapter.name@,
            r.network.adapter.interface@ == net.adapter.interface@,
            r.network.adapter.vendor@ == net.adapter.vendor@,
            r.network.adapter.connection@ == net.adapter.connection@,
            r.network.adapter.local_ip@ == ipv4_text(net.adapter.local_ip),
            r.network.adapter.public_ip@ == ipv4_text(net.adapter.public_ip),
    {
        Result {
            cpu,
            gpu,
            memory: MemoryResult::new(mem),
            disk: DiskResult {},
            network: NetworkResult::new(net),
        }
    }

    /// Every figure fits the width that `prettify` pads it to.
    pub open spec fn fits_widths(&self) -> bool {
        &&& self.cpu.fits_widths()
        &&& self.gpu.fits_widths()
        &&& self.memory.fits_widths()
        &&& self.network.fits_widths()
    }

    /// Whether `prettify` can take the report.
    pub fn can_prettify(&self) -> (ok: bool)
        ensures
            ok == self.fits_widths(),
    {
        self.cpu.fit_widths() && self.gpu.fit_widths() && self.memory.fit_widths()
            && self.network.fit_widths()
    }

    /// Every part padded as its own `prettify` does.
    pub fn prettify(self) -> (r: Self)
        requires
            self.fits_widths(),
        ensures
            r.cpu.pads(&self.cpu),
            r.gpu.pads(&self.gpu),
            r.memory.pads(&self.memory),
            r.network.pads(&self.network),
            r.network.adapter.name@ == self.network.adapter.name@,
            r.network.adapter.interface@ == self.network.adapter.interface@,
            r.network.adapter.vendor@ == self.network.adapter.vendor@,
            r.network.adapter.connection@ == self.network.adapter.connection@,
    {
        Result {
            cpu: self.cpu.prettify(),
            gpu: self.gpu.prettify(),
            memory: self.memory.prettify(),
            disk: self.disk.prettify(),
            network: self.network.prettify(),
        }
    }
}

} // verus!
