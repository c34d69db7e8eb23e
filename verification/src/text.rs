//! Plain-text helpers: parsing decimal numbers, dotted-quad IPv4
//! addresses and colon-hex MAC addresses from configuration input, and
//! printing a MAC back as colon-hex. Each parser is a small per-character
//! state machine; its spec folds the same machine over the string's
//! characters, so accepted strings and values are pinned exactly.

use vstd::prelude::*;
use vstd::string::{StrSliceExecFns, StringSliceAdditionalSpecFns};
use vstd::utf8::{decode_utf8, encode_utf8, valid_utf8};

verus! {

pub open spec fn is_digit(c: char) -> bool {
    48 <= c as u32 <= 57
}

pub open spec fn digit_val(c: char) -> int {
    c as u32 - 48
}

/// Hex digits in either case.
pub open spec fn is_hex_digit(c: char) -> bool {
    is_digit(c) || (65 <= c as u32 <= 70) || (97 <= c as u32 <= 102)
}

pub open spec fn hex_val(c: char) -> int {
    if is_digit(c) {
        digit_val(c)
    } else if 65 <= c as u32 <= 70 {
        c as u32 - 55
    } else {
        c as u32 - 87
    }
}

/// State of the decimal parser: whether anything failed, whether at least
/// one digit was seen, and the value so far.
pub struct U64Parse {
    pub ok: bool,
    pub seen: bool,
    pub val: int,
}

pub open spec fn u64_step(st: U64Parse, c: char) -> U64Parse {
    if !st.ok {
        st
    } else if !is_digit(c) {
        U64Parse { ok: false, seen: st.seen, val: st.val }
    } else if st.val * 10 + digit_val(c) > u64::MAX {
        U64Parse { ok: false, seen: st.seen, val: st.val }
    } else {
        U64Parse { ok: true, seen: true, val: st.val * 10 + digit_val(c) }
    }
}

pub open spec fn u64_run(s: Seq<char>) -> U64Parse
    decreases s.len(),
{
    if s.len() == 0 {
        U64Parse { ok: true, seen: false, val: 0 }
    } else {
        u64_step(u64_run(s.drop_last()), s.last())
    }
}

/// A string parses as `u64` exactly when it is one or more decimal digits
/// and the value fits.
pub open spec fn spec_parse_u64(s: Seq<char>) -> Option<u64> {
    let st = u64_run(s);
    if st.ok && st.seen {
        Some(st.val as u64)
    } else {
        None
    }
}

/// A failure early in the string is never recovered from.
proof fn lemma_u64_run_absorb(s: Seq<char>, i: int)
    requires
        0 <= i <= s.len(),
        !u64_run(s.take(i)).ok,
    ensures
        !u64_run(s).ok,
    decreases s.len() - i,
{
    if i < s.len() {
        assert(s.take(i + 1).drop_last() =~= s.take(i));
        lemma_u64_run_absorb(s, i + 1);
    } else {
        assert(s.take(i) =~= s);
    }
}

/// Parses a decimal `u64`; rejects anything but plain digits, and values
/// over `u64::MAX`.
pub fn parse_u64(s: &str) -> (r: Option<u64>)
    ensures
        r == spec_parse_u64(s@),
{
    let n = s.unicode_len();
    let mut val: u64 = 0;
    let mut seen = false;
    let mut i: usize = 0;
    proof {
        assert(s@.take(0) =~= Seq::<char>::empty());
    }
    while i < n
        invariant
            i <= n,
            n == s@.len(),
            u64_run(s@.take(i as int)) == (U64Parse { ok: true, seen, val: val as int }),
        decreases n - i,
    {
        let c = s.get_char(i);
        proof {
            assert(s@.take(i as int + 1).drop_last() =~= s@.take(i as int));
            assert(s@.take(i as int + 1).last() == s@[i as int]);
        }
        let cu = c as u32;
        if cu < 48 || cu > 57 {
            proof {
                lemma_u64_run_absorb(s@, i as int + 1);
            }
            return None;
        }
        let d = (cu - 48) as u64;
        let grown = (val as u128) * 10 + (d as u128);
        if grown > u64::MAX as u128 {
            proof {
                lemma_u64_run_absorb(s@, i as int + 1);
            }
            return None;
        }
        val = grown as u64;
        seen = true;
        i = i + 1;
    }
    proof {
        assert(s@.take(n as int) =~= s@);
    }
    if seen {
        Some(val)
    } else {
        None
    }
}

/// State of the dotted-quad parser: completed groups folded into `acc`,
/// and the group being read (its value, how many digits, and whether it
/// started with a zero).
pub struct Ipv4Parse {
    pub ok: bool,
    pub groups: int,
    pub cur_len: int,
    pub cur_val: int,
    pub first_zero: bool,
    pub acc: int,
}

pub open spec fn ipv4_step(st: Ipv4Parse, c: char) -> Ipv4Parse {
    if !st.ok {
        st
    } else if is_digit(c) {
        if st.cur_len >= 3 || (st.cur_len > 0 && st.first_zero) || st.cur_val * 10 + digit_val(c)
            > 255 {
            Ipv4Parse { ok: false, ..st }
        } else {
            Ipv4Parse {
                ok: true,
                groups: st.groups,
                cur_len: st.cur_len + 1,
                cur_val: st.cur_val * 10 + digit_val(c),
                first_zero: if st.cur_len == 0 {
                    c as u32 == 48
                } else {
                    st.first_zero
                },
                acc: st.acc,
            }
        }
    } else if c as u32 == 46 {
        if st.cur_len == 0 || st.groups >= 3 {
            Ipv4Parse { ok: false, ..st }
        } else {
            Ipv4Parse {
                ok: true,
                groups: st.groups + 1,
                cur_len: 0,
                cur_val: 0,
                first_zero: false,
                acc: st.acc * 256 + st.cur_val,
            }
        }
    } else {
        Ipv4Parse { ok: false, ..st }
    }
}

pub open spec fn ipv4_start() -> Ipv4Parse {
    Ipv4Parse { ok: true, groups: 0, cur_len: 0, cur_val: 0, first_zero: false, acc: 0 }
}

pub open spec fn ipv4_run(s: Seq<char>) -> Ipv4Parse
    decreases s.len(),
{
    if s.len() == 0 {
        ipv4_start()
    } else {
        ipv4_step(ipv4_run(s.drop_last()), s.last())
    }
}

/// A string parses as IPv4 exactly when it is four dot-separated decimal
/// groups, each of one to three digits without a leading zero and at most
/// 255; the value is the four octets big-endian.
pub open spec fn spec_parse_ipv4(s: Seq<char>) -> Option<u32> {
    let st = ipv4_run(s);
    if st.ok && st.groups == 3 && st.cur_len > 0 {
        Some((st.acc * 256 + st.cur_val) as u32)
    } else {
        None
    }
}

proof fn lemma_ipv4_run_absorb(s: Seq<char>, i: int)
    requires
        0 <= i <= s.len(),
        !ipv4_run(s.take(i)).ok,
    ensures
        !ipv4_run(s).ok,
    decreases s.len() - i,
{
    if i < s.len() {
        assert(s.take(i + 1).drop_last() =~= s.take(i));
        lemma_ipv4_run_absorb(s, i + 1);
    } else {
        assert(s.take(i) =~= s);
    }
}

/// Ranges the parser state stays within while it is `ok`: at most four
/// groups, group values at most 255, and the accumulator below 256 to the
/// power of the groups folded in.
pub open spec fn ipv4_bounds(st: Ipv4Parse) -> bool {
    st.ok ==> {
        &&& 0 <= st.groups <= 3
        &&& 0 <= st.cur_len <= 3
        &&& 0 <= st.cur_val <= 255
        &&& 0 <= st.acc
        &&& (st.groups == 0 ==> st.acc == 0)
        &&& (st.groups == 1 ==> st.acc <= 255)
        &&& (st.groups == 2 ==> st.acc <= 65535)
        &&& (st.groups == 3 ==> st.acc <= 16777215)
    }
}

proof fn lemma_ipv4_run_bounds(s: Seq<char>)
    ensures
        ipv4_bounds(ipv4_run(s)),
    decreases s.len(),
{
    if s.len() > 0 {
        lemma_ipv4_run_bounds(s.drop_last());
    }
}

/// Parses a dotted-quad IPv4 address into its 32-bit big-endian value.
pub fn parse_ipv4(s: &str) -> (r: Option<u32>)
    ensures
        r == spec_parse_ipv4(s@),
{
    let n = s.unicode_len();
    let mut groups: u32 = 0;
    let mut cur_len: u32 = 0;
    let mut cur_val: u32 = 0;
    let mut first_zero = false;
    let mut acc: u32 = 0;
    let mut i: usize = 0;
    proof {
        assert(s@.take(0) =~= Seq::<char>::empty());
    }
    while i < n
        invariant
            i <= n,
            n == s@.len(),
            ipv4_run(s@.take(i as int)) == (Ipv4Parse {
                ok: true,
                groups: groups as int,
                cur_len: cur_len as int,
                cur_val: cur_val as int,
                first_zero,
                acc: acc as int,
            }),
        decreases n - i,
    {
        let c = s.get_char(i);
        proof {
            assert(s@.take(i as int + 1).drop_last() =~= s@.take(i as int));
            assert(s@.take(i as int + 1).last() == s@[i as int]);
            lemma_ipv4_run_bounds(s@.take(i as int));
        }
        let cu = c as u32;
        if 48 <= cu && cu <= 57 {
            let d = cu - 48;
            if cur_len >= 3 || (cur_len > 0 && first_zero) || cur_val * 10 + d > 255 {
                proof {
                    lemma_ipv4_run_absorb(s@, i as int + 1);
                }
                return None;
            }
            if cur_len == 0 {
                first_zero = cu == 48;
            }
            cur_val = cur_val * 10 + d;
            cur_len = cur_len + 1;
        } else if cu == 46 {
            if cur_len == 0 || groups >= 3 {
                proof {
                    lemma_ipv4_run_absorb(s@, i as int + 1);
                }
                return None;
            }
            acc = acc * 256 + cur_val;
            groups = groups + 1;
            cur_len = 0;
            cur_val = 0;
            first_zero = false;
        } else {
            proof {
                lemma_ipv4_run_absorb(s@, i as int + 1);
            }
            return None;
        }
        i = i + 1;
    }
    proof {
        assert(s@.take(n as int) =~= s@);
        lemma_ipv4_run_bounds(s@);
    }
    if groups == 3 && cur_len > 0 {
        Some(acc * 256 + cur_val)
    } else {
        None
    }
}

/// State of the colon-hex MAC parser: finished bytes, and the pair of
/// nibbles being read.
pub struct MacParse {
    pub ok: bool,
    pub bytes: Seq<u8>,
    pub nibbles: int,
    pub cur: int,
}

pub open spec fn mac_step(st: MacParse, c: char) -> MacParse {
    if !st.ok {
        st
    } else if is_hex_digit(c) {
        if st.nibbles >= 2 {
            MacParse { ok: false, ..st }
        } else {
            MacParse {
                ok: true,
                bytes: st.bytes,
                nibbles: st.nibbles + 1,
                cur: st.cur * 16 + hex_val(c),
            }
        }
    } else if c as u32 == 58 {
        if st.nibbles != 2 || st.bytes.len() >= 5 {
            MacParse { ok: false, ..st }
        } else {
            MacParse { ok: true, bytes: st.bytes.push(st.cur as u8), nibbles: 0, cur: 0 }
        }
    } else {
        MacParse { ok: false, ..st }
    }
}

pub open spec fn mac_run(s: Seq<char>) -> MacParse
    decreases s.len(),
{
    if s.len() == 0 {
        MacParse { ok: true, bytes: Seq::empty(), nibbles: 0, cur: 0 }
    } else {
        mac_step(mac_run(s.drop_last()), s.last())
    }
}

/// A string parses as a MAC exactly when it is six two-digit hex groups
/// (either case) separated by colons.
pub open spec fn spec_parse_mac(s: Seq<char>) -> Option<Seq<u8>> {
    let st = mac_run(s);
    if st.ok && st.bytes.len() == 5 && st.nibbles == 2 {
        Some(st.bytes.push(st.cur as u8))
    } else {
        None
    }
}

proof fn lemma_mac_run_absorb(s: Seq<char>, i: int)
    requires
        0 <= i <= s.len(),
        !mac_run(s.take(i)).ok,
    ensures
        !mac_run(s).ok,
    decreases s.len() - i,
{
    if i < s.len() {
        assert(s.take(i + 1).drop_last() =~= s.take(i));
        lemma_mac_run_absorb(s, i + 1);
    } else {
        assert(s.take(i) =~= s);
    }
}

pub open spec fn mac_bounds(st: MacParse) -> bool {
    st.ok ==> {
        &&& 0 <= st.nibbles <= 2
        &&& 0 <= st.cur <= 255
        &&& st.bytes.len() <= 5
        &&& (st.nibbles == 0 ==> st.cur == 0)
        &&& (st.nibbles == 1 ==> st.cur <= 15)
    }
}

proof fn lemma_mac_run_bounds(s: Seq<char>)
    ensures
        mac_bounds(mac_run(s)),
    decreases s.len(),
{
    if s.len() > 0 {
        lemma_mac_run_bounds(s.drop_last());
    }
}

/// Parses a colon-hex MAC address, accepting either letter case.
pub fn parse_mac(s: &str) -> (r: Option<[u8; 6]>)
    ensures
        match r {
            Some(m) => spec_parse_mac(s@) == Some(m@),
            None => spec_parse_mac(s@) is None,
        },
{
    let n = s.unicode_len();
    let mut bytes: Vec<u8> = Vec::new();
    let mut nibbles: u32 = 0;
    let mut cur: u32 = 0;
    let mut i: usize = 0;
    proof {
        assert(s@.take(0) =~= Seq::<char>::empty());
        assert(mac_run(s@.take(0)).bytes =~= Seq::<u8>::empty());
    }
    while i < n
        invariant
            i <= n,
            n == s@.len(),
            mac_run(s@.take(i as int)) == (MacParse {
                ok: true,
                bytes: bytes@,
                nibbles: nibbles as int,
                cur: cur as int,
            }),
        decreases n - i,
    {
        let c = s.get_char(i);
        proof {
            assert(s@.take(i as int + 1).drop_last() =~= s@.take(i as int));
            assert(s@.take(i as int + 1).last() == s@[i as int]);
            lemma_mac_run_bounds(s@.take(i as int));
        }
        let cu = c as u32;
        let hex: bool = (48 <= cu && cu <= 57) || (65 <= cu && cu <= 70) || (97 <= cu && cu
            <= 102);
        if hex {
            if nibbles >= 2 {
                proof {
                    lemma_mac_run_absorb(s@, i as int + 1);
                }
                return None;
            }
            let v = if cu <= 57 {
                cu - 48
            } else if cu <= 70 {
                cu - 55
            } else {
                cu - 87
            };
            cur = cur * 16 + v;
            nibbles = nibbles + 1;
        } else if cu == 58 {
            if nibbles != 2 || bytes.len() >= 5 {
                proof {
                    lemma_mac_run_absorb(s@, i as int + 1);
                }
                return None;
            }
            bytes.push(cur as u8);
            nibbles = 0;
            cur = 0;
        } else {
            proof {
                lemma_mac_run_absorb(s@, i as int + 1);
            }
            return None;
        }
        i = i + 1;
    }
    proof {
        assert(s@.take(n as int) =~= s@);
        lemma_mac_run_bounds(s@);
    }
    if bytes.len() == 5 && nibbles == 2 {
        let m: [u8; 6] = [bytes[0], bytes[1], bytes[2], bytes[3], bytes[4], cur as u8];
        proof {
            assert(m@ =~= bytes@.push(cur as u8));
        }
        Some(m)
    } else {
        None
    }
}

/// Relies on `String::from_utf8`: it succeeds exactly on valid UTF-8
/// input and the returned string holds exactly the given bytes.
#[verifier::external_body]
pub(crate) fn string_from_utf8(v: Vec<u8>) -> (r: Option<String>)
    ensures
        r is Some <==> valid_utf8(v@),
        r matches Some(s) ==> s@ == decode_utf8(v@) && encode_utf8(s@) == v@,
{
    String::from_utf8(v).ok()
}

/// The ASCII code of a hex digit, upper case.
pub open spec fn spec_hex_ascii(n: int) -> u8 {
    if n < 10 {
        (48 + n) as u8
    } else {
        (55 + n) as u8
    }
}

/// The colon-hex ASCII rendering of a byte string: two upper-case hex
/// digits per byte, bytes separated by colons.
pub open spec fn spec_mac_ascii(m: Seq<u8>) -> Seq<u8>
    decreases m.len(),
{
    if m.len() == 0 {
        Seq::empty()
    } else if m.len() == 1 {
        seq![spec_hex_ascii(m[0] as int / 16), spec_hex_ascii(m[0] as int % 16)]
    } else {
        seq![spec_hex_ascii(m[0] as int / 16), spec_hex_ascii(m[0] as int % 16), 58u8]
            + spec_mac_ascii(m.drop_first())
    }
}

/// Colon-hex renderings are plain ASCII.
pub proof fn lemma_mac_ascii_is_ascii(m: Seq<u8>)
    ensures
        forall|i: int|
            0 <= i < spec_mac_ascii(m).len() ==> #[trigger] spec_mac_ascii(m)[i] <= 0x7f,
    decreases m.len(),
{
    if m.len() >= 2 {
        lemma_mac_ascii_is_ascii(m.drop_first());
    }
    assert forall|i: int|
        0 <= i < spec_mac_ascii(m).len() implies #[trigger] spec_mac_ascii(m)[i] <= 0x7f by {
        if m.len() >= 1 {
            assert(0 <= m[0] as int / 16 < 16);
            assert(0 <= m[0] as int % 16 < 16);
        }
        if m.len() >= 2 && i >= 3 {
            assert(spec_mac_ascii(m)[i] == spec_mac_ascii(m.drop_first())[i - 3]);
        }
    }
}

fn hex_ascii(n: u8) -> (r: u8)
    requires
        n < 16,
    ensures
        r == spec_hex_ascii(n as int),
{
    if n < 10 {
        48 + n
    } else {
        55 + n
    }
}

fn push_hex_pair(v: &mut Vec<u8>, b: u8)
    ensures
        final(v)@ == old(v)@ + seq![
            spec_hex_ascii(b as int / 16),
            spec_hex_ascii(b as int % 16),
        ],
{
    v.push(hex_ascii(b / 16));
    v.push(hex_ascii(b % 16));
    proof {
        assert(v@ =~= old(v)@ + seq![
            spec_hex_ascii(b as int / 16),
            spec_hex_ascii(b as int % 16),
        ]);
    }
}

/// Appends the colon-hex rendering of the MAC's bytes from index `i` on.
pub fn push_mac_ascii(v: &mut Vec<u8>, mac: &[u8; 6], i: usize)
    requires
        i <= 6,
    ensures
        final(v)@ == old(v)@ + spec_mac_ascii(mac@.skip(i as int)),
    decreases 6 - i,
{
    if i == 6 {
        proof {
            assert(mac@.skip(6).len() == 0);
            assert(v@ =~= old(v)@ + spec_mac_ascii(mac@.skip(6)));
        }
    } else if i == 5 {
        push_hex_pair(v, mac[5]);
        proof {
            let s = mac@.skip(5);
            assert(s.len() == 1 && s[0] == mac@[5]);
            assert(v@ =~= old(v)@ + spec_mac_ascii(s));
        }
    } else {
        push_hex_pair(v, mac[i]);
        v.push(58);
        push_mac_ascii(v, mac, i + 1);
        proof {
            let s = mac@.skip(i as int);
            assert(s.len() >= 2 && s[0] == mac@[i as int]);
            assert(s.drop_first() =~= mac@.skip(i as int + 1));
            assert(v@ =~= old(v)@ + spec_mac_ascii(s));
        }
    }
}

/// Prints a MAC address as colon-hex, upper case: the returned string's
/// UTF-8 bytes are exactly the colon-hex ASCII rendering.
pub fn format_mac(mac: &[u8; 6]) -> (r: String)
    ensures
        encode_utf8(r@) == spec_mac_ascii(mac@),
{
    let mut v: Vec<u8> = Vec::new();
    push_mac_ascii(&mut v, mac, 0);
    proof {
        assert(mac@.skip(0) =~= mac@);
        assert(v@ =~= spec_mac_ascii(mac@));
        lemma_mac_ascii_is_ascii(mac@);
        assert(vstd::utf8::partial_valid_utf8(v@, 0)) by {
            assert(v@.subrange(0, 0) =~= Seq::<u8>::empty());
        }
        assert forall|i: int| 0 <= i < v@.len() implies vstd::utf8::is_leading_byte_width_1(
            #[trigger] v@[i],
        ) by {
            assert(v@[i] <= 0x7f);
        }
        vstd::utf8::partial_valid_utf8_extend_ascii_block(v@, 0, v@.len() as int);
        assert(v@.subrange(0, v@.len() as int) =~= v@);
        assert(valid_utf8(v@));
    }
    match string_from_utf8(v) {
        Some(s) => s,
        None => {
            // Unreachable: the bytes were proven valid UTF-8.
            proof {
                assert(false);
            }
            String::new()
        },
    }
}

/// UTF-8 encoding is injective: it round-trips through decoding.
proof fn lemma_encode_utf8_injective(a: Seq<char>, b: Seq<char>)
    ensures
        encode_utf8(a) == encode_utf8(b) ==> a == b,
{
    if encode_utf8(a) == encode_utf8(b) {
        vstd::utf8::encode_utf8_decode_utf8(a);
        vstd::utf8::encode_utf8_decode_utf8(b);
    }
}

/// Whether a string equals another, compared by UTF-8 bytes.
pub fn str_is(s: &str, lit: &str) -> (r: bool)
    ensures
        r == (s@ == lit@),
{
    let r = crate::tlv::bytes_eq(s.as_bytes(), lit.as_bytes());
    proof {
        lemma_encode_utf8_injective(s@, lit@);
    }
    r
}

pub open spec fn strings_view(s: Seq<String>) -> Seq<Seq<char>> {
    s.map_values(|x: String| x@)
}

/// The decimal ASCII rendering of a nonnegative number, no leading zeros.
pub open spec fn spec_dec_ascii(n: int) -> Seq<u8>
    decreases n,
{
    if n < 10 {
        seq![(48 + n) as u8]
    } else {
        spec_dec_ascii(n / 10) + seq![(48 + n % 10) as u8]
    }
}

/// Decimal renderings are plain ASCII.
pub proof fn lemma_dec_ascii_is_ascii(n: int)
    requires
        n >= 0,
    ensures
        forall|i: int|
            0 <= i < spec_dec_ascii(n).len() ==> #[trigger] spec_dec_ascii(n)[i] <= 0x7f,
    decreases n,
{
    if n >= 10 {
        lemma_dec_ascii_is_ascii(n / 10);
        assert forall|i: int|
            0 <= i < spec_dec_ascii(n).len() implies #[trigger] spec_dec_ascii(n)[i] <= 0x7f by {
            if i < spec_dec_ascii(n / 10).len() {
                assert(spec_dec_ascii(n)[i] == spec_dec_ascii(n / 10)[i]);
            }
        }
    }
}

/// Appends the decimal rendering of `n`.
pub fn push_dec(v: &mut Vec<u8>, n: u64)
    ensures
        final(v)@ == old(v)@ + spec_dec_ascii(n as int),
    decreases n,
{
    if n < 10 {
        v.push(48 + (n as u8));
        proof {
            assert(v@ =~= old(v)@ + spec_dec_ascii(n as int));
        }
    } else {
        push_dec(v, n / 10);
        v.push(48 + ((n % 10) as u8));
        proof {
            assert(v@ =~= old(v)@ + spec_dec_ascii(n as int));
        }
    }
}

/// The dotted-quad ASCII rendering of an IPv4 address held as its 32-bit
/// big-endian value; 46 is the dot.
pub open spec fn spec_ipv4_ascii(ip: u32) -> Seq<u8> {
    spec_dec_ascii(ip as int / 16777216) + seq![46u8] + spec_dec_ascii(
        (ip as int / 65536) % 256,
    ) + seq![46u8] + spec_dec_ascii((ip as int / 256) % 256) + seq![46u8] + spec_dec_ascii(
        ip as int % 256,
    )
}

/// Appends the dotted-quad rendering of an IPv4 address.
pub fn push_ipv4(v: &mut Vec<u8>, ip: u32)
    ensures
        final(v)@ == old(v)@ + spec_ipv4_ascii(ip),
{
    push_dec(v, (ip / 16777216) as u64);
    v.push(46);
    push_dec(v, ((ip / 65536) % 256) as u64);
    v.push(46);
    push_dec(v, ((ip / 256) % 256) as u64);
    v.push(46);
    push_dec(v, (ip % 256) as u64);
    proof {
        assert(v@ =~= old(v)@ + spec_ipv4_ascii(ip));
    }
}

/// ASCII byte strings are valid UTF-8 and decode to the matching chars.
pub proof fn lemma_ascii_valid_utf8(b: Seq<u8>)
    requires
        forall|i: int| 0 <= i < b.len() ==> #[trigger] b[i] <= 0x7f,
    ensures
        valid_utf8(b),
{
    assert(vstd::utf8::partial_valid_utf8(b, 0)) by {
        assert(b.subrange(0, 0) =~= Seq::<u8>::empty());
    }
    assert forall|i: int| 0 <= i < b.len() implies vstd::utf8::is_leading_byte_width_1(
        #[trigger] b[i],
    ) by {
        assert(b[i] <= 0x7f);
    }
    vstd::utf8::partial_valid_utf8_extend_ascii_block(b, 0, b.len() as int);
    assert(b.subrange(0, b.len() as int) =~= b);
}

/// Dotted-quad renderings are plain ASCII.
pub proof fn lemma_ipv4_ascii_is_ascii(ip: u32)
    ensures
        forall|i: int|
            0 <= i < spec_ipv4_ascii(ip).len() ==> #[trigger] spec_ipv4_ascii(ip)[i] <= 0x7f,
{
    lemma_dec_ascii_is_ascii(ip as int / 16777216);
    lemma_dec_ascii_is_ascii((ip as int / 65536) % 256);
    lemma_dec_ascii_is_ascii((ip as int / 256) % 256);
    lemma_dec_ascii_is_ascii(ip as int % 256);
}

} // verus!
