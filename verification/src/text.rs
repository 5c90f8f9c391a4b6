//! Byte-level text primitives: splitting at a separator and decimal numbers.
use vstd::prelude::*;
use vstd::utf8::*;
use vstd::string::StrSliceExecFns;

verus! {

/// Index of the first occurrence of `b` in `s`, or `s.len()` when there is none.
pub open spec fn first_index<T>(s: Seq<T>, b: T) -> nat
    decreases s.len(),
{
    if s.len() == 0 {
        0
    } else if s[0] == b {
        0
    } else {
        1 + first_index(s.drop_first(), b)
    }
}

/// The pieces of `s` between occurrences of `sep`, as `str::split` yields them
/// (over bytes or characters):
/// `n` separators give `n + 1` pieces, empty ones included.
pub open spec fn split_seq<T>(s: Seq<T>, sep: T) -> Seq<Seq<T>>
    decreases s.len(),
{
    let i = first_index(s, sep);
    if i < s.len() {
        seq![s.take(i as int)] + split_seq(s.skip(i + 1 as int), sep)
    } else {
        seq![s]
    }
}

/// The first occurrence is where nothing before is `b` and `b` stands (or the end).
pub proof fn lemma_first_index<T>(s: Seq<T>, b: T, k: int)
    requires
        0 <= k <= s.len(),
        forall|j: int| 0 <= j < k ==> s[j] != b,
        k == s.len() || s[k] == b,
    ensures
        first_index(s, b) == k,
    decreases k,
{
    if k > 0 {
        lemma_first_index(s.drop_first(), b, k - 1);
    }
}

proof fn lemma_first_index_hit<T>(s: Seq<T>, b: T)
    ensures
        first_index(s, b) <= s.len(),
        first_index(s, b) < s.len() ==> s[first_index(s, b) as int] == b,
    decreases s.len(),
{
    if s.len() > 0 && s[0] != b {
        lemma_first_index_hit(s.drop_first(), b);
    }
}

/// `parts` with `sep` between each two of them, as `join` on a slice of strings writes them.
pub open spec fn join<T>(parts: Seq<Seq<T>>, sep: Seq<T>) -> Seq<T>
    decreases parts.len(),
{
    if parts.len() == 0 {
        Seq::empty()
    } else if parts.len() == 1 {
        parts[0]
    } else {
        join(parts.drop_last(), sep) + sep + parts.last()
    }
}

proof fn lemma_join_prepend<T>(a: Seq<T>, rest: Seq<Seq<T>>, sep: Seq<T>)
    requires
        rest.len() >= 1,
    ensures
        join(seq![a] + rest, sep) == a + sep + join(rest, sep),
    decreases rest.len(),
{
    let all = seq![a] + rest;
    if rest.len() == 1 {
        assert(all.drop_last() =~= seq![a]);
        assert(join(all, sep) == join(seq![a], sep) + sep + rest[0]);
    } else {
        assert(all.drop_last() =~= seq![a] + rest.drop_last());
        lemma_join_prepend(a, rest.drop_last(), sep);
        assert(join(all, sep) =~= a + sep + join(rest, sep));
    }
}

/// Splitting at a separator and joining the pieces with it again gives back
/// the text.
pub proof fn lemma_join_split<T>(s: Seq<T>, sep: T)
    ensures
        join(split_seq(s, sep), seq![sep]) == s,
    decreases s.len(),
{
    lemma_first_index_hit(s, sep);
    let i = first_index(s, sep) as int;
    if i < s.len() {
        let rest = split_seq(s.skip(i + 1), sep);
        lemma_join_split(s.skip(i + 1), sep);
        lemma_split_nonempty(s.skip(i + 1), sep);
        lemma_join_prepend(s.take(i), rest, seq![sep]);
        assert(s =~= s.take(i) + seq![sep] + s.skip(i + 1));
    }
}

proof fn lemma_split_nonempty<T>(s: Seq<T>, sep: T)
    ensures
        split_seq(s, sep).len() >= 1,
    decreases s.len(),
{
    let i = first_index(s, sep);
    if i < s.len() {
        lemma_split_nonempty(s.skip(i + 1 as int), sep);
    }
}

/// Splitting text that begins with a piece free of `sep` and then `sep`
/// yields that piece first.
pub proof fn lemma_split_front<T>(x: Seq<T>, y: Seq<T>, sep: T)
    requires
        forall|i: int| 0 <= i < x.len() ==> x[i] != sep,
    ensures
        split_seq(x + seq![sep] + y, sep) == seq![x] + split_seq(y, sep),
{
    let s = x + seq![sep] + y;
    lemma_first_index(s, sep, x.len() as int);
    assert(s.take(x.len() as int) =~= x);
    assert(s.skip(x.len() + 1 as int) =~= y);
}

/// Text free of `sep` splits into itself.
pub proof fn lemma_split_whole<T>(x: Seq<T>, sep: T)
    requires
        forall|i: int| 0 <= i < x.len() ==> x[i] != sep,
    ensures
        split_seq(x, sep) == seq![x],
{
    lemma_first_index(x, sep, x.len() as int);
}

/// The views of a sequence of byte vectors.
pub open spec fn views(v: Seq<Vec<u8>>) -> Seq<Seq<u8>> {
    v.map_values(|x: Vec<u8>| x@)
}

/// Splits `s` at every `sep`, as `str::split` does.
pub fn split_bytes(s: &[u8], sep: u8) -> (pieces: Vec<Vec<u8>>)
    ensures
        views(pieces@) == split_seq(s@, sep),
{
    let n = s.len();
    let mut out: Vec<Vec<u8>> = Vec::new();
    let mut cur: Vec<u8> = Vec::new();
    let mut start: usize = 0;
    let mut i: usize = 0;
    assert(s@.subrange(0, n as int) =~= s@);
    assert(views(out@) =~= Seq::<Seq<u8>>::empty());
    while i < n
        invariant
            n == s@.len(),
            start <= i <= n,
            cur@ == s@.subrange(start as int, i as int),
            forall|j: int| start <= j < i ==> s@[j] != sep,
            views(out@) + split_seq(s@.subrange(start as int, n as int), sep) == split_seq(s@, sep),
        decreases n - i,
    {
        if s[i] == sep {
            let ghost rest = s@.subrange(start as int, n as int);
            proof {
                lemma_first_index(rest, sep, i - start);
                assert(rest.take(i - start) =~= s@.subrange(start as int, i as int));
                assert(rest.skip(i - start + 1) =~= s@.subrange(i + 1, n as int));
            }
            let ghost old_out = out@;
            out.push(cur);
            assert(views(out@) =~= views(old_out).push(s@.subrange(start as int, i as int)));
            assert(views(out@) + split_seq(s@.subrange(i + 1, n as int), sep) =~= views(old_out)
                + split_seq(rest, sep));
            cur = Vec::new();
            start = i + 1;
        } else {
            cur.push(s[i]);
            assert(cur@ =~= s@.subrange(start as int, i + 1));
        }
        i = i + 1;
    }
    let ghost rest = s@.subrange(start as int, n as int);
    proof {
        lemma_first_index(rest, sep, rest.len() as int);
    }
    let ghost old_out = out@;
    out.push(cur);
    assert(views(out@) =~= views(old_out).push(rest));
    assert(views(out@) =~= views(old_out) + split_seq(rest, sep));
    out
}


/// An ASCII decimal digit.
pub open spec fn is_digit(b: u8) -> bool {
    48 <= b <= 57
}

/// Every byte of `s` is a decimal digit.
pub open spec fn all_digits(s: Seq<u8>) -> bool {
    forall|i: int| 0 <= i < s.len() ==> is_digit(#[trigger] s[i])
}

/// The number that the decimal digits `s` spell, most significant first.
pub open spec fn digits_value(s: Seq<u8>) -> nat
    decreases s.len(),
{
    if s.len() == 0 {
        0
    } else {
        digits_value(s.drop_last()) * 10 + (s.last() - 48) as nat
    }
}

/// The digits that an unsigned integer is read from: one leading `+` is dropped.
pub open spec fn unsigned_body(s: Seq<u8>) -> Seq<u8> {
    if s.len() > 0 && s[0] == 43 {
        s.drop_first()
    } else {
        s
    }
}

/// What `str::parse` gives for an unsigned integer type of unbounded width: an
/// optional `+` followed by at least one decimal digit and nothing else.
pub open spec fn parse_unsigned(s: Seq<u8>) -> Option<nat> {
    let d = unsigned_body(s);
    if d.len() > 0 && all_digits(d) {
        Some(digits_value(d))
    } else {
        None
    }
}

/// `parse_unsigned` bounded by `max`, as `str::parse` reads a type whose largest value is `max`.
pub open spec fn parse_bounded(s: Seq<u8>, max: nat) -> Option<nat> {
    match parse_unsigned(s) {
        Some(v) => if v <= max { Some(v) } else { None },
        None => None,
    }
}

/// A longer run of leading digits spells no smaller number.
pub proof fn lemma_digits_value_monotone(s: Seq<u8>, j: int, k: int)
    requires
        0 <= j <= k <= s.len(),
        all_digits(s),
    ensures
        digits_value(s.take(j)) <= digits_value(s.take(k)),
    decreases k - j,
{
    if j < k {
        lemma_digits_value_monotone(s, j, k - 1);
        assert(s.take(k).drop_last() =~= s.take(k - 1));
    }
}

/// Reads an unsigned decimal number that fits in a `u64`, as `u64::from_str` does.
pub fn parse_u64(s: &[u8]) -> (r: Option<u64>)
    ensures
        r matches Some(v) ==> parse_bounded(s@, u64::MAX as nat) == Some(v as nat),
        r is None ==> parse_bounded(s@, u64::MAX as nat) is None,
{
    let n = s.len();
    let mut i: usize = 0;
    if n > 0 && s[0] == 43u8 {
        i = 1;
    }
    let ghost d = unsigned_body(s@);
    assert(d =~= s@.subrange(i as int, n as int));
    if i == n {
        return None;
    }
    let first = i;
    let mut acc: u64 = 0;
    assert(d.take(0) =~= Seq::<u8>::empty());
    while i < n
        invariant
            n == s@.len(),
            d == s@.subrange(first as int, n as int),
            d == unsigned_body(s@),
            first < n,
            first <= i <= n,
            forall|j: int| first <= j < i ==> is_digit(#[trigger] s@[j]),
            acc as nat == digits_value(d.take(i - first)),
        decreases n - i,
    {
        let c = s[i];
        if c < 48u8 || c > 57u8 {
            assert(d[i - first] == c);
            assert(!all_digits(d));
            return None;
        }
        assert(d.take(i - first + 1).drop_last() =~= d.take(i - first));
        let digit = (c - 48u8) as u64;
        match acc.checked_mul(10) {
            Some(m) => match m.checked_add(digit) {
                Some(v) => {
                    acc = v;
                },
                None => {
                    proof { overflow_is_final(s@, d, first as int, i as int); }
                    return None;
                },
            },
            None => {
                proof { overflow_is_final(s@, d, first as int, i as int); }
                return None;
            },
        }
        i = i + 1;
    }
    assert(d.take(n - first) =~= d);
    Some(acc)
}

/// Once a prefix of the digits is above `u64::MAX`, the text reads as no `u64`.
proof fn overflow_is_final(s: Seq<u8>, d: Seq<u8>, first: int, i: int)
    requires
        0 <= first <= i < s.len(),
        d == unsigned_body(s),
        d == s.subrange(first, s.len() as int),
        digits_value(d.take(i - first + 1)) > u64::MAX,
    ensures
        parse_bounded(s, u64::MAX as nat) is None,
{
    if d.len() > 0 && all_digits(d) {
        lemma_digits_value_monotone(d, i - first + 1, d.len() as int);
        assert(d.take(d.len() as int) =~= d);
    }
}

/// Reads a `u16` from text, as `u16::from_str` does.
pub fn parse_u16(s: &str) -> (r: Option<u16>)
    ensures
        r matches Some(v) ==> parse_bounded(encode_utf8(s@), u16::MAX as nat) == Some(v as nat),
        r is None ==> parse_bounded(encode_utf8(s@), u16::MAX as nat) is None,
{
    match parse_u64(s.as_bytes()) {
        Some(v) => if v <= 65535 { Some(v as u16) } else { None },
        None => None,
    }
}

/// Reads a `u32` from text, as `u32::from_str` does.
pub fn parse_u32(s: &str) -> (r: Option<u32>)
    ensures
        r matches Some(v) ==> parse_bounded(encode_utf8(s@), u32::MAX as nat) == Some(v as nat),
        r is None ==> parse_bounded(encode_utf8(s@), u32::MAX as nat) is None,
{
    parse_u32_bytes(s.as_bytes())
}

/// Reads a `u32` from bytes, as `u32::from_str` reads their text.
pub fn parse_u32_bytes(s: &[u8]) -> (r: Option<u32>)
    ensures
        r matches Some(v) ==> parse_bounded(s@, u32::MAX as nat) == Some(v as nat),
        r is None ==> parse_bounded(s@, u32::MAX as nat) is None,
{
    match parse_u64(s) {
        Some(v) => if v <= 4294967295 { Some(v as u32) } else { None },
        None => None,
    }
}

/// Reads a `usize` from text, as `usize::from_str` does.
pub fn parse_usize(s: &str) -> (r: Option<usize>)
    ensures
        r matches Some(v) ==> parse_bounded(encode_utf8(s@), usize::MAX as nat) == Some(v as nat),
        r is None ==> parse_bounded(encode_utf8(s@), usize::MAX as nat) is None,
{
    parse_usize_bytes(s.as_bytes())
}

/// Reads a `usize` from bytes, as `usize::from_str` reads their text.
pub fn parse_usize_bytes(s: &[u8]) -> (r: Option<usize>)
    ensures
        r matches Some(v) ==> parse_bounded(s@, usize::MAX as nat) == Some(v as nat),
        r is None ==> parse_bounded(s@, usize::MAX as nat) is None,
{
    match parse_u64(s) {
        Some(v) => if v <= usize::MAX as u64 { Some(v as usize) } else { None },
        None => None,
    }
}

/// `s` begins with `p`.
pub open spec fn starts_with(s: Seq<u8>, p: Seq<u8>) -> bool {
    p.len() <= s.len() && s.take(p.len() as int) == p
}

/// Whether `s` begins with `p`, as `str::starts_with` tells.
pub fn has_prefix(s: &[u8], p: &[u8]) -> (r: bool)
    ensures
        r == starts_with(s@, p@),
{
    if p.len() > s.len() {
        return false;
    }
    let mut i: usize = 0;
    while i < p.len()
        invariant
            p@.len() <= s@.len(),
            i <= p@.len(),
            forall|j: int| 0 <= j < i ==> s@[j] == p@[j],
        decreases p@.len() - i,
    {
        if s[i] != p[i] {
            assert(s@.take(p@.len() as int)[i as int] != p@[i as int]);
            return false;
        }
        i = i + 1;
    }
    assert(s@.take(p@.len() as int) =~= p@);
    true
}

/// The character of the decimal digit `d`.
pub open spec fn digit_char(d: nat) -> char {
    ((48 + d) as u8) as char
}

/// The decimal numeral of `n`, as `to_string` writes an unsigned integer.
pub open spec fn decimal(n: nat) -> Seq<char>
    decreases n,
{
    if n < 10 {
        seq![digit_char(n)]
    } else {
        decimal(n / 10).push(digit_char(n % 10))
    }
}

/// The numeral of `n` is ASCII digits, with no leading zero, that spell `n`.
pub proof fn lemma_decimal_ascii(n: nat)
    ensures
        is_ascii_chars(decimal(n)),
        decimal(n).len() >= 1,
        forall|i: int| 0 <= i < decimal(n).len() ==> is_digit(#[trigger] decimal(n)[i] as u8),
        decimal(n)[0] as u8 != 43,
        n > 0 ==> decimal(n)[0] as u8 != 48,
        digits_value(decimal(n).map_values(|c: char| c as u8)) == n,
    decreases n,
{
    let b = decimal(n).map_values(|c: char| c as u8);
    if n < 10 {
        assert(b.drop_last() =~= Seq::<u8>::empty());
        assert(((48 + n) as u8) as char as u8 == 48 + n);
        assert(b.len() == 1);
        assert(b.last() == 48 + n);
        assert(digits_value(b) == digits_value(b.drop_last()) * 10 + (b.last() - 48) as nat);
        assert(digits_value(b) == n);
    } else {
        lemma_decimal_ascii(n / 10);
        let prev = decimal(n / 10);
        assert(decimal(n) == prev.push(digit_char(n % 10)));
        assert(b.drop_last() =~= prev.map_values(|c: char| c as u8));
        assert(((48 + n % 10) as u8) as char as u8 == 48 + n % 10);
        assert(b.last() == 48 + n % 10);
        assert(n == (n / 10) * 10 + n % 10);
        assert(digits_value(b.drop_last()) == n / 10);
        assert(digits_value(b) == digits_value(b.drop_last()) * 10 + (b.last() - 48) as nat);
        assert(digits_value(b) == n);
        assert(is_ascii_chars(decimal(n))) by {
            assert forall|i: int| 0 <= i < decimal(n).len() implies '\0' <= #[trigger] decimal(n)[i] <= '\u{7f}' by {
                if i < prev.len() {
                    assert(decimal(n)[i] == prev[i]);
                }
            }
        }
        assert forall|i: int| 0 <= i < decimal(n).len() implies is_digit(#[trigger] decimal(n)[i] as u8) by {
            if i < prev.len() {
                assert(decimal(n)[i] == prev[i]);
            }
        }
        assert(decimal(n)[0] == prev[0]);
    }
}

/// A larger number has at least as many digits, and the numeral takes one
/// byte per digit.
pub proof fn lemma_decimal_len(a: nat, b: nat)
    requires
        a <= b,
    ensures
        decimal(a).len() <= decimal(b).len(),
        encode_utf8(decimal(a)).len() == decimal(a).len(),
        a < 100 ==> decimal(a).len() <= 2,
        a < 1000 ==> decimal(a).len() <= 3,
    decreases b,
{
    lemma_decimal_ascii(a);
    is_ascii_chars_encode_utf8(decimal(a));
    if a >= 10 {
        lemma_decimal_len(a / 10, b / 10);
    } else if b >= 10 {
        lemma_decimal_ascii(b);
    }
}

/// The encoding of joined text is the joined encodings.
pub proof fn lemma_encode_concat(a: Seq<char>, b: Seq<char>)
    ensures
        encode_utf8(a + b) == encode_utf8(a) + encode_utf8(b),
    decreases a.len(),
{
    if a.len() == 0 {
        assert(a + b =~= b);
        assert(encode_utf8(a) =~= Seq::<u8>::empty());
        assert(encode_utf8(a) + encode_utf8(b) =~= encode_utf8(b));
    } else {
        assert((a + b)[0] == a[0]);
        assert((a + b).drop_first() =~= a.drop_first() + b);
        lemma_encode_concat(a.drop_first(), b);
        assert(encode_utf8(a + b) =~= encode_utf8(a) + encode_utf8(b));
    }
}

/// The numeral of `n` is encoded one byte per digit.
pub proof fn lemma_decimal_bytes(n: nat)
    ensures
        encode_utf8(decimal(n)) == decimal(n).map_values(|c: char| c as u8),
{
    lemma_decimal_ascii(n);
    is_ascii_chars_encode_utf8(decimal(n));
    assert(encode_utf8(decimal(n)) =~= decimal(n).map_values(|c: char| c as u8));
}

/// Reading back the decimal numeral of `n` gives `n`.
pub proof fn lemma_decimal_reads_back(n: nat)
    ensures
        parse_unsigned(encode_utf8(decimal(n))) == Some(n),
{
    lemma_decimal_ascii(n);
    let d = decimal(n);
    let b = d.map_values(|c: char| c as u8);
    is_ascii_chars_encode_utf8(d);
    assert(encode_utf8(d) =~= b);
    assert(unsigned_body(b) == b);
    assert(all_digits(b));
}

/// Appends `c` to `s`, as `String::push` does.
#[verifier::external_body]
pub(crate) fn push_char(s: &mut String, c: char)
    ensures
        final(s)@ == old(s)@.push(c),
{
    s.push(c)
}

/// Appends the decimal numeral of `n` to `s`.
pub fn push_decimal(s: &mut String, n: u64)
    ensures
        final(s)@ == old(s)@ + decimal(n as nat),
    decreases n,
{
    if n >= 10 {
        push_decimal(s, n / 10);
    }
    let d = (n % 10) as u8;
    let c = (48u8 + d) as char;
    push_char(s, c);
    assert(s@ =~= old(s)@ + decimal(n as nat));
}

/// The decimal numeral of `n`.
pub fn decimal_string(n: u64) -> (s: String)
    ensures
        s@ == decimal(n as nat),
{
    let mut s = String::new();
    push_decimal(&mut s, n);
    assert(s@ =~= decimal(n as nat));
    s
}

/// Splits the text `s` at every `sep`, as `str::split` does.
pub fn split_text(s: &str, sep: char) -> (pieces: Vec<String>)
    ensures
        pieces@.len() == split_seq(s@, sep).len(),
        forall|i: int| 0 <= i < pieces@.len() ==> (#[trigger] pieces@[i])@ == split_seq(s@, sep)[i],
{
    let n = s.unicode_len();
    let mut out: Vec<String> = Vec::new();
    let mut cur = String::new();
    let mut start: usize = 0;
    let mut i: usize = 0;
    assert(s@.subrange(0, n as int) =~= s@);
    assert(cur@ =~= s@.subrange(0, 0));
    while i < n
        invariant
            n == s@.len(),
            start <= i <= n,
            cur@ == s@.subrange(start as int, i as int),
            forall|j: int| start <= j < i ==> s@[j] != sep,
            ({
                let rest = split_seq(s@.subrange(start as int, n as int), sep);
                let whole = split_seq(s@, sep);
                &&& out@.len() + rest.len() == whole.len()
                &&& forall|k: int| 0 <= k < out@.len() ==> (#[trigger] out@[k])@ == whole[k]
                &&& forall|k: int| 0 <= k < rest.len() ==> #[trigger] rest[k] == whole[out@.len() + k]
            }),
        decreases n - i,
    {
        let c = s.get_char(i);
        if c == sep {
            let ghost rest = s@.subrange(start as int, n as int);
            let ghost next = s@.subrange(i + 1, n as int);
            proof {
                lemma_first_index(rest, sep, i - start);
                assert(rest.take(i - start) =~= s@.subrange(start as int, i as int));
                assert(rest.skip(i - start + 1) =~= next);
                assert(split_seq(rest, sep) == seq![s@.subrange(start as int, i as int)] + split_seq(next, sep));
            }
            let ghost before = out@;
            let ghost whole = split_seq(s@, sep);
            assert(split_seq(rest, sep)[0] == cur@);
            out.push(cur);
            assert forall|k: int| 0 <= k < out@.len() implies (#[trigger] out@[k])@ == whole[k] by {
                if k < before.len() {
                    assert(out@[k] == before[k]);
                }
            }
            assert forall|k: int| 0 <= k < split_seq(next, sep).len() implies #[trigger] split_seq(next, sep)[k] == whole[out@.len() + k] by {
                assert(split_seq(next, sep)[k] == split_seq(rest, sep)[k + 1]);
            }
            cur = String::new();
            start = i + 1;
            assert(cur@ =~= s@.subrange(start as int, start as int));
        } else {
            push_char(&mut cur, c);
            assert(cur@ =~= s@.subrange(start as int, i + 1));
        }
        i = i + 1;
    }
    let ghost rest = s@.subrange(start as int, n as int);
    proof {
        lemma_first_index(rest, sep, rest.len() as int);
        assert(split_seq(rest, sep) == seq![rest]);
    }
    let ghost before = out@;
    let ghost whole = split_seq(s@, sep);
    assert(split_seq(rest, sep)[0] == cur@);
    out.push(cur);
    assert forall|k: int| 0 <= k < out@.len() implies (#[trigger] out@[k])@ == whole[k] by {
        if k < before.len() {
            assert(out@[k] == before[k]);
        }
    }
    out
}

} // verus!
