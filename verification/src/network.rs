//! The active network adapter and the traffic through it.
use vstd::prelude::*;
use vstd::utf8::*;
use vstd::string::StrSliceExecFns;
use crate::text::{
    split_seq, first_index, is_digit, all_digits, digits_value, views, split_bytes,
    lemma_first_index, decimal, push_decimal, push_char, parse_bounded, parse_u32, split_text,
    lemma_decimal_ascii, lemma_split_front, lemma_split_whole, lemma_decimal_len,
    lemma_decimal_bytes, lemma_encode_concat,
};
use crate::unit_types::{Delta, shifted, saturating_diff};
use crate::BUFFER;

verus! {

/// An IPv4 address, octet by octet.
#[derive(Clone, Copy, Debug, PartialEq, Eq, Structural)]
pub struct Ipv4 {
    pub a: u8,
    pub b: u8,
    pub c: u8,
    pub d: u8,
}

/// The value of one dotted part of an IPv4 address, as `Ipv4Addr::from_str`
/// reads it: one to three decimal digits, no leading zero, at most 255.
pub open spec fn octet_of(p: Seq<u8>) -> Option<nat> {
    if 1 <= p.len() <= 3 && all_digits(p) && (p.len() > 1 ==> p[0] != 48) && digits_value(p) <= 255 {
        Some(digits_value(p))
    } else {
        None
    }
}

/// The address that `s` spells in dotted-decimal form, as
/// `Ipv4Addr::from_str` reads it: four parts between dots, each an octet.
pub open spec fn ipv4_of(s: Seq<u8>) -> Option<Ipv4> {
    let parts = split_seq(s, 46u8);
    if parts.len() == 4 && octet_of(parts[0]) is Some && octet_of(parts[1]) is Some
        && octet_of(parts[2]) is Some && octet_of(parts[3]) is Some {
        Some(Ipv4 {
            a: octet_of(parts[0])->0 as u8,
            b: octet_of(parts[1])->0 as u8,
            c: octet_of(parts[2])->0 as u8,
            d: octet_of(parts[3])->0 as u8,
        })
    } else {
        None
    }
}

/// The dotted-decimal text of `ip`.
pub open spec fn ipv4_text(ip: Ipv4) -> Seq<char> {
    decimal(ip.a as nat) + seq!['.'] + decimal(ip.b as nat) + seq!['.'] + decimal(ip.c as nat)
        + seq!['.'] + decimal(ip.d as nat)
}

/// Reads one dotted part, as `octet_of` states.
fn parse_octet(p: &[u8]) -> (r: Option<u8>)
    ensures
        r matches Some(v) ==> octet_of(p@) == Some(v as nat),
        r is None ==> octet_of(p@) is None,
{
    let n = p.len();
    if n < 1 || n > 3 {
        return None;
    }
    if n > 1 && p[0] == 48u8 {
        return None;
    }
    let mut v: u16 = 0;
    let mut i: usize = 0;
    assert(p@.take(0) =~= Seq::<u8>::empty());
    while i < n
        invariant
            n == p@.len(),
            1 <= n <= 3,
            i <= n,
            forall|j: int| 0 <= j < i ==> is_digit(#[trigger] p@[j]),
            v as nat == digits_value(p@.take(i as int)),
            v < (if i == 0 { 1int } else if i == 1 { 10int } else if i == 2 { 100int } else { 1000int }),
        decreases n - i,
    {
        let c = p[i];
        if c < 48u8 || c > 57u8 {
            assert(!is_digit(p@[i as int]));
            return None;
        }
        assert(p@.take(i + 1).drop_last() =~= p@.take(i as int));
        v = v * 10 + (c - 48u8) as u16;
        i = i + 1;
    }
    assert(p@.take(n as int) =~= p@);
    if v > 255 {
        None
    } else {
        Some(v as u8)
    }
}

/// Reads a dotted-decimal IPv4 address, as `Ipv4Addr::from_str` does.
pub fn parse_ipv4(s: &[u8]) -> (r: Option<Ipv4>)
    ensures
        r == ipv4_of(s@),
{
    let parts = split_bytes(s, 46u8);
    if parts.len() != 4 {
        return None;
    }
    assert(views(parts@)[0] == parts@[0]@);
    assert(views(parts@)[1] == parts@[1]@);
    assert(views(parts@)[2] == parts@[2]@);
    assert(views(parts@)[3] == parts@[3]@);
    let a = match parse_octet(parts[0].as_slice()) {
        Some(v) => v,
        None => return None,
    };
    let b = match parse_octet(parts[1].as_slice()) {
        Some(v) => v,
        None => return None,
    };
    let c = match parse_octet(parts[2].as_slice()) {
        Some(v) => v,
        None => return None,
    };
    let d = match parse_octet(parts[3].as_slice()) {
        Some(v) => v,
        None => return None,
    };
    Some(Ipv4 { a, b, c, d })
}

impl Ipv4 {
    /// `0.0.0.0`.
    pub fn unspecified() -> (ip: Self)
        ensures
            ip == (Ipv4 { a: 0, b: 0, c: 0, d: 0 }),
    {
        Ipv4 { a: 0, b: 0, c: 0, d: 0 }
    }

    /// The dotted-decimal text of the address.
    pub fn to_text(&self) -> (t: String)
        ensures
            t@ == ipv4_text(*self),
    {
        let mut t = String::new();
        push_decimal(&mut t, self.a as u64);
        push_char(&mut t, '.');
        push_decimal(&mut t, self.b as u64);
        push_char(&mut t, '.');
        push_decimal(&mut t, self.c as u64);
        push_char(&mut t, '.');
        push_decimal(&mut t, self.d as u64);
        assert(t@ =~= ipv4_text(*self));
        t
    }
}

/// The numeral of a value below 256, as bytes, is an octet of that value.
proof fn lemma_octet_numeral(n: nat)
    requires
        n <= 255,
    ensures
        encode_utf8(decimal(n)) == decimal(n).map_values(|c: char| c as u8),
        octet_of(decimal(n).map_values(|c: char| c as u8)) == Some(n),
        forall|i: int| 0 <= i < decimal(n).len() ==> (#[trigger] decimal(n)[i]) as u8 != 46u8,
{
    lemma_decimal_ascii(n);
    lemma_decimal_len(n, n);
    lemma_decimal_bytes(n);
    let b = decimal(n).map_values(|c: char| c as u8);
    assert(all_digits(b));
    assert forall|i: int| 0 <= i < decimal(n).len() implies (#[trigger] decimal(n)[i]) as u8 != 46u8 by {
        assert(is_digit(decimal(n)[i] as u8));
    }
}

/// The bytes of an address written out: four numerals with dots between.
proof fn lemma_ipv4_bytes(ip: Ipv4)
    ensures
        encode_utf8(ipv4_text(ip)) == decimal(ip.a as nat).map_values(|c: char| c as u8) + seq![46u8]
            + (decimal(ip.b as nat).map_values(|c: char| c as u8) + seq![46u8]
            + (decimal(ip.c as nat).map_values(|c: char| c as u8) + seq![46u8]
            + decimal(ip.d as nat).map_values(|c: char| c as u8))),
{
    let (a, b, c, d) = (decimal(ip.a as nat), decimal(ip.b as nat), decimal(ip.c as nat), decimal(ip.d as nat));
    let dot = seq!['.'];
    lemma_decimal_bytes(ip.a as nat);
    lemma_decimal_bytes(ip.b as nat);
    lemma_decimal_bytes(ip.c as nat);
    lemma_decimal_bytes(ip.d as nat);
    assert(is_ascii_chars(dot));
    is_ascii_chars_encode_utf8(dot);
    assert(encode_utf8(dot) =~= seq![46u8]);
    assert(ipv4_text(ip) =~= a + dot + (b + dot + (c + dot + d)));
    lemma_encode_concat(c + dot, d);
    lemma_encode_concat(c, dot);
    lemma_encode_concat(b + dot, c + dot + d);
    lemma_encode_concat(b, dot);
    lemma_encode_concat(a + dot, b + dot + (c + dot + d));
    lemma_encode_concat(a, dot);
    assert(b + dot + (c + dot + d) =~= b + dot + c + dot + d);
}

/// An address written out in dotted-decimal form reads back as the same address.
pub proof fn lemma_ipv4_reads_back(ip: Ipv4)
    ensures
        ipv4_of(encode_utf8(ipv4_text(ip))) == Some(ip),
{
    lemma_octet_numeral(ip.a as nat);
    lemma_octet_numeral(ip.b as nat);
    lemma_octet_numeral(ip.c as nat);
    lemma_octet_numeral(ip.d as nat);
    lemma_ipv4_bytes(ip);
    let f = |ch: char| ch as u8;
    let ba = decimal(ip.a as nat).map_values(f);
    let bb = decimal(ip.b as nat).map_values(f);
    let bc = decimal(ip.c as nat).map_values(f);
    let bd = decimal(ip.d as nat).map_values(f);
    let dot = seq![46u8];
    lemma_split_front(ba, bb + dot + (bc + dot + bd), 46u8);
    lemma_split_front(bb, bc + dot + bd, 46u8);
    lemma_split_front(bc, bd, 46u8);
    lemma_split_whole(bd, 46u8);
    assert(split_seq(encode_utf8(ipv4_text(ip)), 46u8) =~= seq![ba, bb, bc, bd]);
}

/// What `String::from_utf8_lossy` makes of `bytes`.
pub uninterp spec fn lossy_text(bytes: Seq<u8>) -> Seq<char>;

/// Text from bytes through `String::from_utf8_lossy`: the result is named
/// `lossy_text`; of valid UTF-8 it is the decoded text. How invalid
/// sequences are replaced is left unsaid.
#[verifier::external_body]
fn text_from_bytes(bytes: &[u8]) -> (s: String)
    ensures
        s@ == lossy_text(bytes@),
        valid_utf8(bytes@) ==> s@ == decode_utf8(bytes@),
{
    String::from_utf8_lossy(bytes).into_owned()
}

/// The text after the first `:` of a line, or nothing where it has none.
pub open spec fn after_colon(line: Seq<char>) -> Seq<char> {
    let i = first_index(line, ':');
    if i < line.len() {
        line.skip(i + 1 as int)
    } else {
        Seq::empty()
    }
}

/// The value of the `k`-th line of terse `nmcli` output.
pub open spec fn nmcli_value(text: Seq<char>, k: int) -> Seq<char> {
    after_colon(split_seq(text, '\n')[k])
}

/// The address of an `IP4.ADDRESS` value less its `/24` mask; `None` where it
/// does not end in `/24`.
pub open spec fn without_mask(value: Seq<char>) -> Option<Seq<char>> {
    let n = value.len() as int;
    if n >= 3 && value[n - 3] == '/' && value[n - 2] == '2' && value[n - 1] == '4' {
        Some(value.take(n - 3))
    } else {
        None
    }
}

/// Terse `nmcli` output text that `Adapter::from_text` can take: at least
/// five lines, and where the fifth value carries a `/24` mask, an IPv4
/// address before it.
pub open spec fn nmcli_fits(text: Seq<char>) -> bool {
    &&& split_seq(text, '\n').len() >= 5
    &&& (without_mask(nmcli_value(text, 4)) matches Some(a) ==> ipv4_of(encode_utf8(a)) is Some)
}

/// The characters of `s` from index `from` on.
fn tail_from(s: &str, from: usize) -> (t: String)
    requires
        from <= s@.len(),
    ensures
        t@ == s@.skip(from as int),
{
    let n = s.unicode_len();
    let mut t = String::new();
    let mut k = from;
    assert(t@ =~= s@.subrange(from as int, k as int));
    while k < n
        invariant
            n == s@.len(),
            from <= k <= n,
            t@ == s@.subrange(from as int, k as int),
        decreases n - k,
    {
        push_char(&mut t, s.get_char(k));
        k = k + 1;
        assert(t@ =~= s@.subrange(from as int, k as int));
    }
    assert(t@ =~= s@.skip(from as int));
    t
}

/// The value of a line, as `after_colon` states it.
fn value_of_line(line: &str) -> (v: String)
    ensures
        v@ == after_colon(line@),
{
    let n = line.unicode_len();
    let mut i: usize = 0;
    while i < n && line.get_char(i) != ':'
        invariant
            n == line@.len(),
            i <= n,
            forall|j: int| 0 <= j < i ==> line@[j] != ':',
        decreases n - i,
    {
        i = i + 1;
    }
    proof {
        lemma_first_index(line@, ':', i as int);
    }
    if i < n {
        tail_from(line, i + 1)
    } else {
        let v = String::new();
        assert(v@ =~= Seq::<char>::empty());
        v
    }
}

/// The value less its `/24` mask, as `without_mask` states it.
fn strip_mask(value: &str) -> (r: Option<String>)
    ensures
        r matches Some(b) ==> without_mask(value@) == Some(b@),
        r is None ==> without_mask(value@) is None,
{
    let n = value.unicode_len();
    if !(n >= 3 && value.get_char(n - 3) == '/' && value.get_char(n - 2) == '2' && value.get_char(n - 1) == '4') {
        return None;
    }
    let mut bare = String::new();
    let mut k: usize = 0;
    assert(bare@ =~= value@.take(0));
    while k < n - 3
        invariant
            n == value@.len(),
            n >= 3,
            k <= n - 3,
            bare@ == value@.take(k as int),
        decreases n - 3 - k,
    {
        push_char(&mut bare, value.get_char(k));
        k = k + 1;
        assert(bare@ =~= value@.take(k as int));
    }
    Some(bare)
}

/// Whether `Adapter::from_text` can take `text`.
fn text_fits(text: &str) -> (ok: bool)
    ensures
        ok == nmcli_fits(text@),
{
    let lines = split_text(text, '\n');
    if lines.len() < 5 {
        return false;
    }
    match strip_mask(value_of_line(lines[4].as_str()).as_str()) {
        Some(bare) => parse_ipv4(bare.as_str().as_bytes()).is_some(),
        None => true,
    }
}

/// The network adapter in use.
#[derive(Debug)]
pub struct Adapter {
    pub name: String,
    pub interface: String,
    pub vendor: String,
    pub connection: String,
    pub local_ip: Ipv4,
    pub public_ip: Ipv4,
}

impl Adapter {
    /// No adapter: empty names and unspecified addresses.
    pub fn new() -> (a: Self)
        ensures
            a.name@ == Seq::<char>::empty(),
            a.interface@ == Seq::<char>::empty(),
            a.vendor@ == Seq::<char>::empty(),
            a.connection@ == Seq::<char>::empty(),
            a.local_ip == (Ipv4 { a: 0, b: 0, c: 0, d: 0 }),
            a.public_ip == (Ipv4 { a: 0, b: 0, c: 0, d: 0 }),
    {
        Adapter {
            name: String::new(),
            interface: String::new(),
            vendor: String::new(),
            connection: String::new(),
            local_ip: Ipv4::unspecified(),
            public_ip: Ipv4::unspecified(),
        }
    }

    /// The adapter that the terse output text of `nmcli device show`
    /// (fields GENERAL.DEVICE, GENERAL.TYPE, GENERAL.VENDOR,
    /// GENERAL.CONNECTION, IP4.ADDRESS) describes: each field is the text
    /// after the first `:` of its line; `None` where the address has no `/24`
    /// mask. Lines after the fifth are passed over.
    pub fn from_text(text: &str) -> (r: Option<Self>)
        requires
            nmcli_fits(text@),
        ensures
            r is None <==> without_mask(nmcli_value(text@, 4)) is None,
            r matches Some(a) ==> {
                &&& a.name@ == nmcli_value(text@, 0)
                &&& a.interface@ == nmcli_value(text@, 1)
                &&& a.vendor@ == nmcli_value(text@, 2)
                &&& a.connection@ == nmcli_value(text@, 3)
                &&& a.local_ip == ipv4_of(encode_utf8(without_mask(nmcli_value(text@, 4))->0))->0
                &&& a.public_ip == (Ipv4 { a: 0, b: 0, c: 0, d: 0 })
            },
    {
        let lines = split_text(text, '\n');
        let bare = match strip_mask(value_of_line(lines[4].as_str()).as_str()) {
            Some(b) => b,
            None => return None,
        };
        let local_ip = match parse_ipv4(bare.as_str().as_bytes()) {
            Some(ip) => ip,
            None => {
                assert(false);
                Ipv4::unspecified()
            },
        };
        let name = value_of_line(lines[0].as_str());
        let interface = value_of_line(lines[1].as_str());
        let vendor = value_of_line(lines[2].as_str());
        let connection = value_of_line(lines[3].as_str());
        Some(Adapter { name, interface, vendor, connection, local_ip, public_ip: Ipv4::unspecified() })
    }

    /// The adapter that the output `stdout` of `nmcli device show`
    /// describes, read as text through `String::from_utf8_lossy` and then as
    /// `from_text` reads it.
    pub fn from_nmcli(stdout: &[u8]) -> (r: Option<Self>)
        requires
            nmcli_fits(lossy_text(stdout@)),
        ensures
            valid_utf8(stdout@) ==> lossy_text(stdout@) == decode_utf8(stdout@),
            r is None <==> without_mask(nmcli_value(lossy_text(stdout@), 4)) is None,
            r matches Some(a) ==> {
                &&& a.name@ == nmcli_value(lossy_text(stdout@), 0)
                &&& a.interface@ == nmcli_value(lossy_text(stdout@), 1)
                &&& a.vendor@ == nmcli_value(lossy_text(stdout@), 2)
                &&& a.connection@ == nmcli_value(lossy_text(stdout@), 3)
                &&& a.local_ip == ipv4_of(encode_utf8(without_mask(nmcli_value(lossy_text(stdout@), 4))->0))->0
                &&& a.public_ip == (Ipv4 { a: 0, b: 0, c: 0, d: 0 })
            },
    {
        let text = text_from_bytes(stdout);
        Self::from_text(text.as_str())
    }

    /// `from_nmcli` where it can take `stdout`; `None` where the output is
    /// too short or its masked address is no IPv4 address.
    pub fn try_from_nmcli(stdout: &[u8]) -> (r: Option<Option<Self>>)
        ensures
            r is None <==> !nmcli_fits(lossy_text(stdout@)),
            r matches Some(found) ==> {
                &&& found is None <==> without_mask(nmcli_value(lossy_text(stdout@), 4)) is None
                &&& found matches Some(a) ==> {
                    &&& a.name@ == nmcli_value(lossy_text(stdout@), 0)
                    &&& a.interface@ == nmcli_value(lossy_text(stdout@), 1)
                    &&& a.vendor@ == nmcli_value(lossy_text(stdout@), 2)
                    &&& a.connection@ == nmcli_value(lossy_text(stdout@), 3)
                    &&& a.local_ip == ipv4_of(encode_utf8(without_mask(nmcli_value(lossy_text(stdout@), 4))->0))->0
                    &&& a.public_ip == (Ipv4 { a: 0, b: 0, c: 0, d: 0 })
                }
            },
    {
        let text = text_from_bytes(stdout);
        if text_fits(text.as_str()) {
            Some(Self::from_nmcli(stdout))
        } else {
            None
        }
    }
}

/// Bits per second that a byte counter reading stands for, spread over the
/// `BUFFER` seconds of a window; `None` where the text is no `u32` or eight
/// times it is above `u32::MAX`.
pub open spec fn bit_rate(counter: Seq<u8>) -> Option<nat> {
    match parse_bounded(counter, u32::MAX as nat) {
        Some(v) => if v * 8 <= u32::MAX { Some(v * 8 / BUFFER as nat) } else { None },
        None => None,
    }
}

/// Traffic through the adapter in use.
#[derive(Debug)]
pub struct Network {
    pub up: Delta,
    pub down: Delta,
    pub adapter: Adapter,
}

impl Network {
    /// Every window holds `ITER` readings.
    pub open spec fn well_formed(&self) -> bool {
        self.up.well_formed() && self.down.well_formed()
    }

    /// No traffic and no adapter yet.
    pub fn new() -> (n: Self)
        ensures
            n.well_formed(),
            n.up.window() == Seq::new(crate::ITER as nat, |i: int| 0usize),
            n.down.window() == Seq::new(crate::ITER as nat, |i: int| 0usize),
            n.up.average == 0,
            n.down.average == 0,
            n.adapter.name@ == Seq::<char>::empty(),
            n.adapter.interface@ == Seq::<char>::empty(),
            n.adapter.vendor@ == Seq::<char>::empty(),
            n.adapter.connection@ == Seq::<char>::empty(),
            n.adapter.local_ip == (Ipv4 { a: 0, b: 0, c: 0, d: 0 }),
            n.adapter.public_ip == (Ipv4 { a: 0, b: 0, c: 0, d: 0 }),
    {
        Network { up: Delta::new(), down: Delta::new(), adapter: Adapter::new() }
    }

    /// Takes `current` as the adapter in use where its name or local address
    /// differs from the one held, and tells whether it did; the public address
    /// is then to be looked up anew.
    pub fn switch_adapter(&mut self, current: Adapter) -> (changed: bool)
        ensures
            changed == (old(self).adapter.name@ != current.name@ || old(self).adapter.local_ip != current.local_ip),
            changed ==> final(self).adapter == current,
            !changed ==> final(self).adapter == old(self).adapter,
            final(self).up == old(self).up,
            final(self).down == old(self).down,
    {
        let changed = self.adapter.name != current.name || self.adapter.local_ip != current.local_ip;
        if changed {
            self.adapter = current;
        }
        changed
    }

    /// Takes the reply of the address lookup service as the public address,
    /// or the unspecified address where the reply is no IPv4 address.
    pub fn set_public_ip(&mut self, reply: &str)
        ensures
            final(self).adapter.public_ip == (match ipv4_of(encode_utf8(reply@)) {
                Some(ip) => ip,
                None => Ipv4 { a: 0, b: 0, c: 0, d: 0 },
            }),
            final(self).adapter.name == old(self).adapter.name,
            final(self).adapter.interface == old(self).adapter.interface,
            final(self).adapter.vendor == old(self).adapter.vendor,
            final(self).adapter.connection == old(self).adapter.connection,
            final(self).adapter.local_ip == old(self).adapter.local_ip,
            final(self).up == old(self).up,
            final(self).down == old(self).down,
    {
        self.adapter.public_ip = match parse_ipv4(reply.as_bytes()) {
            Some(ip) => ip,
            None => Ipv4::unspecified(),
        };
    }

    /// Takes in the byte counters `tx` (sent) and `rx` (received) of the
    /// adapter, each as the bit rate it stands for (worked out as a `u32`,
    /// taken in as a `usize`).
    pub fn record_traffic(&mut self, tx: &str, rx: &str)
        requires
            old(self).well_formed(),
            bit_rate(encode_utf8(tx@)) is Some,
            bit_rate(encode_utf8(rx@)) is Some,
        ensures
            final(self).well_formed(),
            final(self).up.window() == shifted(old(self).up.window(), bit_rate(encode_utf8(tx@))->0 as usize),
            final(self).up.average == saturating_diff(bit_rate(encode_utf8(tx@))->0 as int, old(self).up.window()[0] as int),
            final(self).down.window() == shifted(old(self).down.window(), bit_rate(encode_utf8(rx@))->0 as usize),
            final(self).down.average == saturating_diff(bit_rate(encode_utf8(rx@))->0 as int, old(self).down.window()[0] as int),
            final(self).adapter == old(self).adapter,
    {
        let up = rate_of(tx);
        let down = rate_of(rx);
        self.up.add(up as usize);
        self.down.add(down as usize);
    }

    /// Whether `record_traffic` can take in `tx` and `rx`.
    pub fn can_record(tx: &str, rx: &str) -> (ok: bool)
        ensures
            ok == (bit_rate(encode_utf8(tx@)) is Some && bit_rate(encode_utf8(rx@)) is Some),
    {
        checked_rate(tx).is_some() && checked_rate(rx).is_some()
    }

    /// The file that counts the bytes the adapter has sent.
    pub fn tx_file(&self) -> (path: String)
        ensures
            path@ == "/sys/class/net/"@ + self.adapter.name@ + "/statistics/tx_bytes"@,
    {
        let mut path = String::from_str("/sys/class/net/");
        path.append(self.adapter.name.as_str());
        path.append("/statistics/tx_bytes");
        path
    }

    /// The file that counts the bytes the adapter has received.
    pub fn rx_file(&self) -> (path: String)
        ensures
            path@ == "/sys/class/net/"@ + self.adapter.name@ + "/statistics/rx_bytes"@,
    {
        let mut path = String::from_str("/sys/class/net/");
        path.append(self.adapter.name.as_str());
        path.append("/statistics/rx_bytes");
        path
    }
}

/// The bit rate of a counter reading, as `bit_rate` states it.
fn checked_rate(counter: &str) -> (r: Option<u32>)
    ensures
        r matches Some(v) ==> bit_rate(encode_utf8(counter@)) == Some(v as nat),
        r is None ==> bit_rate(encode_utf8(counter@)) is None,
{
    match parse_u32(counter) {
        Some(v) => if v <= 536870911 { Some(v * 8 / BUFFER as u32) } else { None },
        None => None,
    }
}

fn rate_of(counter: &str) -> (v: u32)
    requires
        bit_rate(encode_utf8(counter@)) is Some,
    ensures
        v == bit_rate(encode_utf8(counter@))->0,
{
    match checked_rate(counter) {
        Some(v) => v,
        None => 0,
    }
}

} // verus!
