//! The replay configuration file: `key = value` lines (values optionally quoted, `#`
//! comments) naming the ground-truth sample, the session id, the feed seeds, loss and
//! delay, packetization and a session change.

use vstd::prelude::*;
use crate::testkit::sched::{DelayModel, LossModel, Packetize, ReplayConfig};

verus! {

/// Whether `b` is an ASCII whitespace byte: space, tab, line feed, vertical tab, form
/// feed or carriage return.
pub open spec fn ascii_ws(b: u8) -> bool {
    b == 0x20 || (0x09 <= b && b <= 0x0D)
}

/// Whether `a b c` encode a three-byte Unicode whitespace character in UTF-8: U+1680,
/// U+2000 to U+200A, U+2028, U+2029, U+202F, U+205F or U+3000.
pub open spec fn ws3(a: u8, b: u8, c: u8) -> bool {
    ||| (a == 0xE1 && b == 0x9A && c == 0x80)
    ||| (a == 0xE2 && b == 0x80 && ((0x80 <= c && c <= 0x8A) || c == 0xA8 || c == 0xA9 || c == 0xAF))
    ||| (a == 0xE2 && b == 0x81 && c == 0x9F)
    ||| (a == 0xE3 && b == 0x80 && c == 0x80)
}

/// Length of the Unicode whitespace character `s` starts with (U+0085 and U+00A0 take
/// two bytes in UTF-8), or 0 if it starts with none.
pub open spec fn ws_prefix(s: Seq<u8>) -> int {
    if s.len() >= 1 && ascii_ws(s[0]) {
        1
    } else if s.len() >= 2 && s[0] == 0xC2 && (s[1] == 0x85 || s[1] == 0xA0) {
        2
    } else if s.len() >= 3 && ws3(s[0], s[1], s[2]) {
        3
    } else {
        0
    }
}

/// Length of the Unicode whitespace character `s` ends with, or 0 if it ends with none.
pub open spec fn ws_suffix(s: Seq<u8>) -> int {
    let n = s.len() as int;
    if n >= 1 && ascii_ws(s[n - 1]) {
        1
    } else if n >= 2 && s[n - 2] == 0xC2 && (s[n - 1] == 0x85 || s[n - 1] == 0xA0) {
        2
    } else if n >= 3 && ws3(s[n - 3], s[n - 2], s[n - 1]) {
        3
    } else {
        0
    }
}

/// `s` without its leading whitespace.
pub open spec fn trim_start(s: Seq<u8>) -> Seq<u8>
    decreases s.len(),
{
    if ws_prefix(s) > 0 {
        trim_start(s.skip(ws_prefix(s)))
    } else {
        s
    }
}

/// `s` without its trailing whitespace.
pub open spec fn trim_end(s: Seq<u8>) -> Seq<u8>
    decreases s.len(),
{
    if ws_suffix(s) > 0 {
        trim_end(s.take(s.len() - ws_suffix(s)))
    } else {
        s
    }
}

/// `s` without leading and trailing whitespace.
pub open spec fn trim(s: Seq<u8>) -> Seq<u8> {
    trim_end(trim_start(s))
}

/// The whitespace character at the start of `t[lo..hi]`: its length, or 0.
fn ws_len_at(t: &[u8], lo: usize, hi: usize) -> (k: usize)
    requires
        lo <= hi <= t@.len(),
    ensures
        k == ws_prefix(t@.subrange(lo as int, hi as int)),
{
    let n = hi - lo;
    let ghost s = t@.subrange(lo as int, hi as int);
    if n >= 1 && (t[lo] == 0x20 || (0x09 <= t[lo] && t[lo] <= 0x0D)) {
        return 1;
    }
    if n >= 2 && t[lo] == 0xC2 && (t[lo + 1] == 0x85 || t[lo + 1] == 0xA0) {
        return 2;
    }
    if n >= 3 {
        let (a, b, c) = (t[lo], t[lo + 1], t[lo + 2]);
        assert(s[0] == a && s[1] == b && s[2] == c);
        if (a == 0xE1 && b == 0x9A && c == 0x80) || (a == 0xE2 && b == 0x80 && ((0x80 <= c && c <= 0x8A) || c
            == 0xA8 || c == 0xA9 || c == 0xAF)) || (a == 0xE2 && b == 0x81 && c == 0x9F) || (a == 0xE3 && b
            == 0x80 && c == 0x80) {
            return 3;
        }
    }
    0
}

/// The whitespace character at the end of `t[lo..hi]`: its length, or 0.
fn ws_len_before(t: &[u8], lo: usize, hi: usize) -> (k: usize)
    requires
        lo <= hi <= t@.len(),
    ensures
        k == ws_suffix(t@.subrange(lo as int, hi as int)),
{
    let n = hi - lo;
    let ghost s = t@.subrange(lo as int, hi as int);
    if n >= 1 && (t[hi - 1] == 0x20 || (0x09 <= t[hi - 1] && t[hi - 1] <= 0x0D)) {
        return 1;
    }
    if n >= 2 && t[hi - 2] == 0xC2 && (t[hi - 1] == 0x85 || t[hi - 1] == 0xA0) {
        return 2;
    }
    if n >= 3 {
        let (a, b, c) = (t[hi - 3], t[hi - 2], t[hi - 1]);
        assert(s[n - 3] == a && s[n - 2] == b && s[n - 1] == c);
        if (a == 0xE1 && b == 0x9A && c == 0x80) || (a == 0xE2 && b == 0x80 && ((0x80 <= c && c <= 0x8A) || c
            == 0xA8 || c == 0xA9 || c == 0xAF)) || (a == 0xE2 && b == 0x81 && c == 0x9F) || (a == 0xE3 && b
            == 0x80 && c == 0x80) {
            return 3;
        }
    }
    0
}

/// The bounds of `t[lo..hi]` trimmed of leading and trailing whitespace.
pub fn trim_range(t: &[u8], lo: usize, hi: usize) -> (r: (usize, usize))
    requires
        lo <= hi <= t@.len(),
    ensures
        lo <= r.0 <= r.1 <= hi,
        t@.subrange(r.0 as int, r.1 as int) == trim(t@.subrange(lo as int, hi as int)),
{
    let mut a = lo;
    while a < hi
        invariant_except_break
            lo <= a <= hi,
            hi <= t@.len(),
            trim_start(t@.subrange(lo as int, hi as int)) == trim_start(t@.subrange(a as int, hi as int)),
        ensures
            lo <= a <= hi,
            trim_start(t@.subrange(lo as int, hi as int)) == t@.subrange(a as int, hi as int),
        decreases hi - a,
    {
        let k = ws_len_at(t, a, hi);
        if k == 0 {
            break;
        }
        assert(t@.subrange(a as int, hi as int).skip(k as int) =~= t@.subrange(a + k, hi as int));
        a = a + k;
    }
    if a == hi {
        assert(ws_prefix(t@.subrange(a as int, hi as int)) == 0);
    }
    let mut b = hi;
    while b > a
        invariant_except_break
            a <= b <= hi,
            hi <= t@.len(),
            trim_end(t@.subrange(a as int, hi as int)) == trim_end(t@.subrange(a as int, b as int)),
        ensures
            a <= b <= hi,
            trim_end(t@.subrange(a as int, hi as int)) == t@.subrange(a as int, b as int),
        decreases b - a,
    {
        let k = ws_len_before(t, a, b);
        if k == 0 {
            break;
        }
        assert(t@.subrange(a as int, b as int).take(b - a - k) =~= t@.subrange(a as int, b - k));
        b = b - k;
    }
    if b == a {
        assert(ws_suffix(t@.subrange(a as int, b as int)) == 0);
    }
    (a, b)
}

/// Whether every byte of `s` is an ASCII digit.
pub open spec fn all_digits(s: Seq<u8>) -> bool {
    forall|i: int| 0 <= i < s.len() ==> 0x30 <= #[trigger] s[i] <= 0x39
}

/// The decimal value of the ASCII digits `s`.
pub open spec fn digits_value(s: Seq<u8>) -> int
    decreases s.len(),
{
    if s.len() == 0 {
        0
    } else {
        digits_value(s.drop_last()) * 10 + (s.last() - 0x30)
    }
}

/// An unsigned integer in decimal at most `max`: an optional `+` and at least one digit.
pub open spec fn parse_unsigned(s: Seq<u8>, max: int) -> Option<int> {
    let d = if s.len() > 0 && s[0] == 0x2B { s.skip(1) } else { s };
    if d.len() > 0 && all_digits(d) && digits_value(d) <= max {
        Some(digits_value(d))
    } else {
        None
    }
}

/// A signed 64-bit integer in decimal: an optional sign and at least one digit.
pub open spec fn parse_signed(s: Seq<u8>) -> Option<int> {
    if s.len() > 0 && s[0] == 0x2D {
        let d = s.skip(1);
        if d.len() > 0 && all_digits(d) && digits_value(d) <= 0x8000_0000_0000_0000 {
            Some(-digits_value(d))
        } else {
            None
        }
    } else {
        parse_unsigned(s, i64::MAX as int)
    }
}

/// `true` or `false`.
pub open spec fn parse_bool(s: Seq<u8>) -> Option<bool> {
    if s == seq![0x74u8, 0x72u8, 0x75u8, 0x65u8] {
        Some(true)
    } else if s == seq![0x66u8, 0x61u8, 0x6Cu8, 0x73u8, 0x65u8] {
        Some(false)
    } else {
        None
    }
}

/// Digits have a value of at least 0.
proof fn lemma_digits_nonneg(s: Seq<u8>)
    requires
        all_digits(s),
    ensures
        digits_value(s) >= 0,
    decreases s.len(),
{
    if s.len() > 0 {
        let p = s.drop_last();
        assert forall|i: int| 0 <= i < p.len() implies 0x30 <= #[trigger] p[i] <= 0x39 by {
            assert(p[i] == s[i]);
        }
        lemma_digits_nonneg(p);
        assert(0x30 <= s[s.len() - 1]);
    }
}

/// Appending digits never lowers the value.
proof fn lemma_digits_grow(s: Seq<u8>, k: int)
    requires
        all_digits(s),
        0 <= k <= s.len(),
    ensures
        digits_value(s.take(k)) <= digits_value(s),
    decreases s.len(),
{
    if k < s.len() {
        let p = s.drop_last();
        assert(s.take(k) =~= p.take(k));
        assert forall|i: int| 0 <= i < p.len() implies 0x30 <= #[trigger] p[i] <= 0x39 by {
            assert(p[i] == s[i]);
        }
        lemma_digits_grow(p, k);
        lemma_digits_nonneg(p);
        assert(0x30 <= s[s.len() - 1]);
    } else {
        assert(s.take(k) =~= s);
    }
}

/// The decimal value of the digits of `t[lo..hi]`, if they are all digits and the value
/// is at most `max`.
fn digits_at_most(t: &[u8], lo: usize, hi: usize, max: u64) -> (r: Option<u64>)
    requires
        lo <= hi <= t@.len(),
        max >= 9,
    ensures
        ({
            let d = t@.subrange(lo as int, hi as int);
            r == (if all_digits(d) && digits_value(d) <= max { Some(digits_value(d) as u64) } else { None::<u64> })
        }),
        r matches Some(v) ==> v == digits_value(t@.subrange(lo as int, hi as int)) && v <= max,
{
    let ghost d = t@.subrange(lo as int, hi as int);
    let mut acc: u64 = 0;
    let mut i = lo;
    while i < hi
        invariant
            lo <= i <= hi,
            hi <= t@.len(),
            d == t@.subrange(lo as int, hi as int),
            all_digits(d.take(i - lo)),
            acc == digits_value(d.take(i - lo)),
            acc <= max,
            max >= 9,
        decreases hi - i,
    {
        let c = t[i];
        assert(d[i - lo] == c);
        if c < 0x30 || c > 0x39 {
            assert(!all_digits(d));
            return None;
        }
        let ghost next = d.take(i - lo + 1);
        assert(next.drop_last() =~= d.take(i - lo));
        assert forall|j: int| 0 <= j < next.len() implies 0x30 <= #[trigger] next[j] <= 0x39 by {
            if j < i - lo {
                assert(next[j] == d.take(i - lo)[j]);
            }
        }
        let dig = (c - 0x30) as u64;
        if acc > (max - dig) / 10 {
            assert(acc * 10 + dig > max) by (nonlinear_arith)
                requires
                    acc > (max - dig) / 10,
                    dig <= 9,
                    dig <= max,
            ;
            proof {
                if all_digits(d) {
                    lemma_digits_grow(d, i - lo + 1);
                }
            }
            return None;
        }
        assert(acc * 10 + dig <= max) by (nonlinear_arith)
            requires
                acc <= (max - dig) / 10,
                dig <= max,
        ;
        acc = acc * 10 + dig;
        i = i + 1;
    }
    assert(d.take(hi - lo) =~= d);
    proof {
        lemma_digits_nonneg(d);
    }
    Some(acc)
}

/// The value of `t[lo..hi]` as an unsigned integer at most `max`.
fn parse_unsigned_at(t: &[u8], lo: usize, hi: usize, max: u64) -> (r: Option<u64>)
    requires
        lo <= hi <= t@.len(),
        max >= 9,
    ensures
        r == (match parse_unsigned(t@.subrange(lo as int, hi as int), max as int) {
            Some(v) => Some(v as u64),
            None => None::<u64>,
        }),
        r matches Some(v) ==> v <= max && parse_unsigned(t@.subrange(lo as int, hi as int), max as int) == Some(
            v as int,
        ),
{
    let ghost s = t@.subrange(lo as int, hi as int);
    let start = if lo < hi && t[lo] == 0x2B { lo + 1 } else { lo };
    proof {
        if lo < hi && t@[lo as int] == 0x2B {
            assert(s.skip(1) =~= t@.subrange(start as int, hi as int));
        }
    }
    if start == hi {
        return None;
    }
    digits_at_most(t, start, hi, max)
}

/// The value of `t[lo..hi]` as a signed 64-bit integer.
fn parse_signed_at(t: &[u8], lo: usize, hi: usize) -> (r: Option<i64>)
    requires
        lo <= hi <= t@.len(),
    ensures
        r == (match parse_signed(t@.subrange(lo as int, hi as int)) {
            Some(v) => Some(v as i64),
            None => None::<i64>,
        }),
{
    let ghost s = t@.subrange(lo as int, hi as int);
    if lo < hi && t[lo] == 0x2D {
        assert(s.skip(1) =~= t@.subrange(lo + 1, hi as int));
        if lo + 1 == hi {
            return None;
        }
        let r = digits_at_most(t, lo + 1, hi, 0x8000_0000_0000_0000);
        match r {
            None => None,
            Some(v) => {
                assert(v <= 0x8000_0000_0000_0000);
                assert(parse_signed(s) == Some(-(v as int)));
                if v == 0x8000_0000_0000_0000 {
                    Some(i64::MIN)
                } else {
                    let x = v as i64;
                    assert(x == v);
                    Some(-x)
                }
            },
        }
    } else {
        let r = parse_unsigned_at(t, lo, hi, 0x7FFF_FFFF_FFFF_FFFF);
        assert(parse_signed(s) == parse_unsigned(s, 0x7FFF_FFFF_FFFF_FFFF));
        match r {
            None => None,
            Some(v) => {
                assert(v <= 0x7FFF_FFFF_FFFF_FFFF);
                assert(parse_signed(s) == Some(v as int));
                Some(v as i64)
            },
        }
    }
}

/// `t[lo..hi]` read as `true` or `false`.
fn parse_bool_at(t: &[u8], lo: usize, hi: usize) -> (r: Option<bool>)
    requires
        lo <= hi <= t@.len(),
    ensures
        r == parse_bool(t@.subrange(lo as int, hi as int)),
{
    let ghost s = t@.subrange(lo as int, hi as int);
    assert(forall|i: int| 0 <= i < hi - lo ==> #[trigger] s[i] == t@[lo + i]);
    if hi - lo == 4 && t[lo] == 0x74 && t[lo + 1] == 0x72 && t[lo + 2] == 0x75 && t[lo + 3] == 0x65 {
        assert(s =~= seq![0x74u8, 0x72u8, 0x75u8, 0x65u8]);
        return Some(true);
    }
    if hi - lo == 5 && t[lo] == 0x66 && t[lo + 1] == 0x61 && t[lo + 2] == 0x6C && t[lo + 3] == 0x73 && t[lo + 4]
        == 0x65 {
        assert(s =~= seq![0x66u8, 0x61u8, 0x6Cu8, 0x73u8, 0x65u8]);
        return Some(false);
    }
    assert(s != seq![0x74u8, 0x72u8, 0x75u8, 0x65u8]) by {
        let w = seq![0x74u8, 0x72u8, 0x75u8, 0x65u8];
        if s == w {
            assert(w.len() == 4);
            assert(w[0] == 0x74 && w[1] == 0x72 && w[2] == 0x75 && w[3] == 0x65);
            assert(s[0] == t@[lo as int] && s[1] == t@[lo + 1] && s[2] == t@[lo + 2] && s[3] == t@[lo + 3]);
        }
    }
    assert(s != seq![0x66u8, 0x61u8, 0x6Cu8, 0x73u8, 0x65u8]) by {
        let w = seq![0x66u8, 0x61u8, 0x6Cu8, 0x73u8, 0x65u8];
        if s == w {
            assert(w.len() == 5);
            assert(w[0] == 0x66 && w[1] == 0x61 && w[2] == 0x6C && w[3] == 0x73 && w[4] == 0x65);
            assert(s[0] == t@[lo as int] && s[1] == t@[lo + 1] && s[2] == t@[lo + 2] && s[3] == t@[lo + 3] && s[4]
                == t@[lo + 4]);
        }
    }
    None
}

/// The keys the configuration knows.
#[derive(Debug, Clone, Copy, PartialEq, Eq, Structural)]
pub enum ConfigKey {
    SamplePath,
    SeedA,
    SeedB,
    LossA,
    LossB,
    DelayMean,
    DelaySigma,
    Guarantee,
    Packets,
    Session,
    SessionChange,
    Other,
}

/// The key a key text names: `msgs_per_packet` and `mtu_bound` both name the
/// packetization, `session_change_at_msg` and `split_m` both the session change.
pub open spec fn key_of(k: Seq<u8>) -> ConfigKey {
    if k == seq![0x73u8, 0x61u8, 0x6Du8, 0x70u8, 0x6Cu8, 0x65u8, 0x5Fu8, 0x70u8, 0x61u8, 0x74u8, 0x68u8] {
        ConfigKey::SamplePath
    } else if k == seq![0x73u8, 0x65u8, 0x65u8, 0x64u8, 0x5Fu8, 0x61u8] {
        ConfigKey::SeedA
    } else if k == seq![0x73u8, 0x65u8, 0x65u8, 0x64u8, 0x5Fu8, 0x62u8] {
        ConfigKey::SeedB
    } else if k == seq![0x6Cu8, 0x6Fu8, 0x73u8, 0x73u8, 0x5Fu8, 0x61u8, 0x5Fu8, 0x70u8, 0x6Du8] {
        ConfigKey::LossA
    } else if k == seq![0x6Cu8, 0x6Fu8, 0x73u8, 0x73u8, 0x5Fu8, 0x62u8, 0x5Fu8, 0x70u8, 0x6Du8] {
        ConfigKey::LossB
    } else if k == seq![0x64u8, 0x65u8, 0x6Cu8, 0x61u8, 0x79u8, 0x5Fu8, 0x6Du8, 0x65u8, 0x61u8, 0x6Eu8, 0x5Fu8, 0x6Eu8, 0x73u8] {
        ConfigKey::DelayMean
    } else if k == seq![0x64u8, 0x65u8, 0x6Cu8, 0x61u8, 0x79u8, 0x5Fu8, 0x73u8, 0x69u8, 0x67u8, 0x6Du8, 0x61u8, 0x5Fu8, 0x6Eu8, 0x73u8] {
        ConfigKey::DelaySigma
    } else if k == seq![0x67u8, 0x75u8, 0x61u8, 0x72u8, 0x61u8, 0x6Eu8, 0x74u8, 0x65u8, 0x65u8, 0x5Fu8, 0x63u8, 0x6Fu8, 0x76u8, 0x65u8, 0x72u8, 0x61u8, 0x67u8, 0x65u8] {
        ConfigKey::Guarantee
    } else if k == seq![0x6Du8, 0x73u8, 0x67u8, 0x73u8, 0x5Fu8, 0x70u8, 0x65u8, 0x72u8, 0x5Fu8, 0x70u8, 0x61u8, 0x63u8, 0x6Bu8, 0x65u8, 0x74u8] {
        ConfigKey::Packets
    } else if k == seq![0x6Du8, 0x74u8, 0x75u8, 0x5Fu8, 0x62u8, 0x6Fu8, 0x75u8, 0x6Eu8, 0x64u8] {
        ConfigKey::Packets
    } else if k == seq![0x73u8, 0x65u8, 0x73u8, 0x73u8, 0x69u8, 0x6Fu8, 0x6Eu8] {
        ConfigKey::Session
    } else if k == seq![0x73u8, 0x65u8, 0x73u8, 0x73u8, 0x69u8, 0x6Fu8, 0x6Eu8, 0x5Fu8, 0x63u8, 0x68u8, 0x61u8, 0x6Eu8, 0x67u8, 0x65u8, 0x5Fu8, 0x61u8, 0x74u8, 0x5Fu8, 0x6Du8, 0x73u8, 0x67u8] {
        ConfigKey::SessionChange
    } else if k == seq![0x73u8, 0x70u8, 0x6Cu8, 0x69u8, 0x74u8, 0x5Fu8, 0x6Du8] {
        ConfigKey::SessionChange
    } else {
        ConfigKey::Other
    }
}

/// Whether `t[lo..lo + N]` holds the bytes of `w`.
fn same_bytes<const N: usize>(t: &[u8], lo: usize, w: &[u8; N]) -> (r: bool)
    requires
        lo + N <= t@.len(),
    ensures
        r == (t@.subrange(lo as int, lo + N) == w@),
{
    let len = t.len();
    let mut i: usize = 0;
    while i < N
        invariant
            i <= N,
            lo + N <= t@.len(),
            len == t@.len(),
            w@.len() == N,
            forall|j: int| 0 <= j < i ==> t@[lo + j] == w@[j],
        decreases N - i,
    {
        if t[lo + i] != w[i] {
            assert(t@.subrange(lo as int, lo + N)[i as int] != w@[i as int]);
            return false;
        }
        i = i + 1;
    }
    assert(t@.subrange(lo as int, lo + N) =~= w@);
    true
}

/// The key `t[lo..hi]` names.
fn key_at(t: &[u8], lo: usize, hi: usize) -> (r: ConfigKey)
    requires
        lo <= hi <= t@.len(),
    ensures
        r == key_of(t@.subrange(lo as int, hi as int)),
{
    let n = hi - lo;
    if n == 11 {
        let w: [u8; 11] = [0x73u8, 0x61u8, 0x6Du8, 0x70u8, 0x6Cu8, 0x65u8, 0x5Fu8, 0x70u8, 0x61u8, 0x74u8, 0x68u8];
        proof {
            assert(w@ =~= seq![0x73u8, 0x61u8, 0x6Du8, 0x70u8, 0x6Cu8, 0x65u8, 0x5Fu8, 0x70u8, 0x61u8, 0x74u8, 0x68u8]);
        }
        if same_bytes(t, lo, &w) {
            return ConfigKey::SamplePath;
        }
        assert(seq![0x73u8, 0x61u8, 0x6Du8, 0x70u8, 0x6Cu8, 0x65u8, 0x5Fu8, 0x70u8, 0x61u8, 0x74u8, 0x68u8].len() == 11);
        assert(t@.subrange(lo as int, hi as int) != seq![0x73u8, 0x61u8, 0x6Du8, 0x70u8, 0x6Cu8, 0x65u8, 0x5Fu8, 0x70u8, 0x61u8, 0x74u8, 0x68u8]);
    }
    if n == 6 {
        let w: [u8; 6] = [0x73u8, 0x65u8, 0x65u8, 0x64u8, 0x5Fu8, 0x61u8];
        proof {
            assert(w@ =~= seq![0x73u8, 0x65u8, 0x65u8, 0x64u8, 0x5Fu8, 0x61u8]);
        }
        if same_bytes(t, lo, &w) {
            return ConfigKey::SeedA;
        }
        assert(seq![0x73u8, 0x65u8, 0x65u8, 0x64u8, 0x5Fu8, 0x61u8].len() == 6);
        assert(t@.subrange(lo as int, hi as int) != seq![0x73u8, 0x65u8, 0x65u8, 0x64u8, 0x5Fu8, 0x61u8]);
    }
    if n == 6 {
        let w: [u8; 6] = [0x73u8, 0x65u8, 0x65u8, 0x64u8, 0x5Fu8, 0x62u8];
        proof {
            assert(w@ =~= seq![0x73u8, 0x65u8, 0x65u8, 0x64u8, 0x5Fu8, 0x62u8]);
        }
        if same_bytes(t, lo, &w) {
            return ConfigKey::SeedB;
        }
        assert(seq![0x73u8, 0x65u8, 0x65u8, 0x64u8, 0x5Fu8, 0x62u8].len() == 6);
        assert(t@.subrange(lo as int, hi as int) != seq![0x73u8, 0x65u8, 0x65u8, 0x64u8, 0x5Fu8, 0x62u8]);
    }
    if n == 9 {
        let w: [u8; 9] = [0x6Cu8, 0x6Fu8, 0x73u8, 0x73u8, 0x5Fu8, 0x61u8, 0x5Fu8, 0x70u8, 0x6Du8];
        proof {
            assert(w@ =~= seq![0x6Cu8, 0x6Fu8, 0x73u8, 0x73u8, 0x5Fu8, 0x61u8, 0x5Fu8, 0x70u8, 0x6Du8]);
        }
        if same_bytes(t, lo, &w) {
            return ConfigKey::LossA;
        }
        assert(seq![0x6Cu8, 0x6Fu8, 0x73u8, 0x73u8, 0x5Fu8, 0x61u8, 0x5Fu8, 0x70u8, 0x6Du8].len() == 9);
        assert(t@.subrange(lo as int, hi as int) != seq![0x6Cu8, 0x6Fu8, 0x73u8, 0x73u8, 0x5Fu8, 0x61u8, 0x5Fu8, 0x70u8, 0x6Du8]);
    }
    if n == 9 {
        let w: [u8; 9] = [0x6Cu8, 0x6Fu8, 0x73u8, 0x73u8, 0x5Fu8, 0x62u8, 0x5Fu8, 0x70u8, 0x6Du8];
        proof {
            assert(w@ =~= seq![0x6Cu8, 0x6Fu8, 0x73u8, 0x73u8, 0x5Fu8, 0x62u8, 0x5Fu8, 0x70u8, 0x6Du8]);
        }
        if same_bytes(t, lo, &w) {
            return ConfigKey::LossB;
        }
        assert(seq![0x6Cu8, 0x6Fu8, 0x73u8, 0x73u8, 0x5Fu8, 0x62u8, 0x5Fu8, 0x70u8, 0x6Du8].len() == 9);
        assert(t@.subrange(lo as int, hi as int) != seq![0x6Cu8, 0x6Fu8, 0x73u8, 0x73u8, 0x5Fu8, 0x62u8, 0x5Fu8, 0x70u8, 0x6Du8]);
    }
    if n == 13 {
        let w: [u8; 13] = [0x64u8, 0x65u8, 0x6Cu8, 0x61u8, 0x79u8, 0x5Fu8, 0x6Du8, 0x65u8, 0x61u8, 0x6Eu8, 0x5Fu8, 0x6Eu8, 0x73u8];
        proof {
            assert(w@ =~= seq![0x64u8, 0x65u8, 0x6Cu8, 0x61u8, 0x79u8, 0x5Fu8, 0x6Du8, 0x65u8, 0x61u8, 0x6Eu8, 0x5Fu8, 0x6Eu8, 0x73u8]);
        }
        if same_bytes(t, lo, &w) {
            return ConfigKey::DelayMean;
        }
        assert(seq![0x64u8, 0x65u8, 0x6Cu8, 0x61u8, 0x79u8, 0x5Fu8, 0x6Du8, 0x65u8, 0x61u8, 0x6Eu8, 0x5Fu8, 0x6Eu8, 0x73u8].len() == 13);
        assert(t@.subrange(lo as int, hi as int) != seq![0x64u8, 0x65u8, 0x6Cu8, 0x61u8, 0x79u8, 0x5Fu8, 0x6Du8, 0x65u8, 0x61u8, 0x6Eu8, 0x5Fu8, 0x6Eu8, 0x73u8]);
    }
    if n == 14 {
        let w: [u8; 14] = [0x64u8, 0x65u8, 0x6Cu8, 0x61u8, 0x79u8, 0x5Fu8, 0x73u8, 0x69u8, 0x67u8, 0x6Du8, 0x61u8, 0x5Fu8, 0x6Eu8, 0x73u8];
        proof {
            assert(w@ =~= seq![0x64u8, 0x65u8, 0x6Cu8, 0x61u8, 0x79u8, 0x5Fu8, 0x73u8, 0x69u8, 0x67u8, 0x6Du8, 0x61u8, 0x5Fu8, 0x6Eu8, 0x73u8]);
        }
        if same_bytes(t, lo, &w) {
            return ConfigKey::DelaySigma;
        }
        assert(seq![0x64u8, 0x65u8, 0x6Cu8, 0x61u8, 0x79u8, 0x5Fu8, 0x73u8, 0x69u8, 0x67u8, 0x6Du8, 0x61u8, 0x5Fu8, 0x6Eu8, 0x73u8].len() == 14);
        assert(t@.subrange(lo as int, hi as int) != seq![0x64u8, 0x65u8, 0x6Cu8, 0x61u8, 0x79u8, 0x5Fu8, 0x73u8, 0x69u8, 0x67u8, 0x6Du8, 0x61u8, 0x5Fu8, 0x6Eu8, 0x73u8]);
    }
    if n == 18 {
        let w: [u8; 18] = [0x67u8, 0x75u8, 0x61u8, 0x72u8, 0x61u8, 0x6Eu8, 0x74u8, 0x65u8, 0x65u8, 0x5Fu8, 0x63u8, 0x6Fu8, 0x76u8, 0x65u8, 0x72u8, 0x61u8, 0x67u8, 0x65u8];
        proof {
            assert(w@ =~= seq![0x67u8, 0x75u8, 0x61u8, 0x72u8, 0x61u8, 0x6Eu8, 0x74u8, 0x65u8, 0x65u8, 0x5Fu8, 0x63u8, 0x6Fu8, 0x76u8, 0x65u8, 0x72u8, 0x61u8, 0x67u8, 0x65u8]);
        }
        if same_bytes(t, lo, &w) {
            return ConfigKey::Guarantee;
        }
        assert(seq![0x67u8, 0x75u8, 0x61u8, 0x72u8, 0x61u8, 0x6Eu8, 0x74u8, 0x65u8, 0x65u8, 0x5Fu8, 0x63u8, 0x6Fu8, 0x76u8, 0x65u8, 0x72u8, 0x61u8, 0x67u8, 0x65u8].len() == 18);
        assert(t@.subrange(lo as int, hi as int) != seq![0x67u8, 0x75u8, 0x61u8, 0x72u8, 0x61u8, 0x6Eu8, 0x74u8, 0x65u8, 0x65u8, 0x5Fu8, 0x63u8, 0x6Fu8, 0x76u8, 0x65u8, 0x72u8, 0x61u8, 0x67u8, 0x65u8]);
    }
    if n == 15 {
        let w: [u8; 15] = [0x6Du8, 0x73u8, 0x67u8, 0x73u8, 0x5Fu8, 0x70u8, 0x65u8, 0x72u8, 0x5Fu8, 0x70u8, 0x61u8, 0x63u8, 0x6Bu8, 0x65u8, 0x74u8];
        proof {
            assert(w@ =~= seq![0x6Du8, 0x73u8, 0x67u8, 0x73u8, 0x5Fu8, 0x70u8, 0x65u8, 0x72u8, 0x5Fu8, 0x70u8, 0x61u8, 0x63u8, 0x6Bu8, 0x65u8, 0x74u8]);
        }
        if same_bytes(t, lo, &w) {
            return ConfigKey::Packets;
        }
        assert(seq![0x6Du8, 0x73u8, 0x67u8, 0x73u8, 0x5Fu8, 0x70u8, 0x65u8, 0x72u8, 0x5Fu8, 0x70u8, 0x61u8, 0x63u8, 0x6Bu8, 0x65u8, 0x74u8].len() == 15);
        assert(t@.subrange(lo as int, hi as int) != seq![0x6Du8, 0x73u8, 0x67u8, 0x73u8, 0x5Fu8, 0x70u8, 0x65u8, 0x72u8, 0x5Fu8, 0x70u8, 0x61u8, 0x63u8, 0x6Bu8, 0x65u8, 0x74u8]);
    }
    if n == 9 {
        let w: [u8; 9] = [0x6Du8, 0x74u8, 0x75u8, 0x5Fu8, 0x62u8, 0x6Fu8, 0x75u8, 0x6Eu8, 0x64u8];
        proof {
            assert(w@ =~= seq![0x6Du8, 0x74u8, 0x75u8, 0x5Fu8, 0x62u8, 0x6Fu8, 0x75u8, 0x6Eu8, 0x64u8]);
        }
        if same_bytes(t, lo, &w) {
            return ConfigKey::Packets;
        }
        assert(seq![0x6Du8, 0x74u8, 0x75u8, 0x5Fu8, 0x62u8, 0x6Fu8, 0x75u8, 0x6Eu8, 0x64u8].len() == 9);
        assert(t@.subrange(lo as int, hi as int) != seq![0x6Du8, 0x74u8, 0x75u8, 0x5Fu8, 0x62u8, 0x6Fu8, 0x75u8, 0x6Eu8, 0x64u8]);
    }
    if n == 7 {
        let w: [u8; 7] = [0x73u8, 0x65u8, 0x73u8, 0x73u8, 0x69u8, 0x6Fu8, 0x6Eu8];
        proof {
            assert(w@ =~= seq![0x73u8, 0x65u8, 0x73u8, 0x73u8, 0x69u8, 0x6Fu8, 0x6Eu8]);
        }
        if same_bytes(t, lo, &w) {
            return ConfigKey::Session;
        }
        assert(seq![0x73u8, 0x65u8, 0x73u8, 0x73u8, 0x69u8, 0x6Fu8, 0x6Eu8].len() == 7);
        assert(t@.subrange(lo as int, hi as int) != seq![0x73u8, 0x65u8, 0x73u8, 0x73u8, 0x69u8, 0x6Fu8, 0x6Eu8]);
    }
    if n == 21 {
        let w: [u8; 21] = [0x73u8, 0x65u8, 0x73u8, 0x73u8, 0x69u8, 0x6Fu8, 0x6Eu8, 0x5Fu8, 0x63u8, 0x68u8, 0x61u8, 0x6Eu8, 0x67u8, 0x65u8, 0x5Fu8, 0x61u8, 0x74u8, 0x5Fu8, 0x6Du8, 0x73u8, 0x67u8];
        proof {
            assert(w@ =~= seq![0x73u8, 0x65u8, 0x73u8, 0x73u8, 0x69u8, 0x6Fu8, 0x6Eu8, 0x5Fu8, 0x63u8, 0x68u8, 0x61u8, 0x6Eu8, 0x67u8, 0x65u8, 0x5Fu8, 0x61u8, 0x74u8, 0x5Fu8, 0x6Du8, 0x73u8, 0x67u8]);
        }
        if same_bytes(t, lo, &w) {
            return ConfigKey::SessionChange;
        }
        assert(seq![0x73u8, 0x65u8, 0x73u8, 0x73u8, 0x69u8, 0x6Fu8, 0x6Eu8, 0x5Fu8, 0x63u8, 0x68u8, 0x61u8, 0x6Eu8, 0x67u8, 0x65u8, 0x5Fu8, 0x61u8, 0x74u8, 0x5Fu8, 0x6Du8, 0x73u8, 0x67u8].len() == 21);
        assert(t@.subrange(lo as int, hi as int) != seq![0x73u8, 0x65u8, 0x73u8, 0x73u8, 0x69u8, 0x6Fu8, 0x6Eu8, 0x5Fu8, 0x63u8, 0x68u8, 0x61u8, 0x6Eu8, 0x67u8, 0x65u8, 0x5Fu8, 0x61u8, 0x74u8, 0x5Fu8, 0x6Du8, 0x73u8, 0x67u8]);
    }
    if n == 7 {
        let w: [u8; 7] = [0x73u8, 0x70u8, 0x6Cu8, 0x69u8, 0x74u8, 0x5Fu8, 0x6Du8];
        proof {
            assert(w@ =~= seq![0x73u8, 0x70u8, 0x6Cu8, 0x69u8, 0x74u8, 0x5Fu8, 0x6Du8]);
        }
        if same_bytes(t, lo, &w) {
            return ConfigKey::SessionChange;
        }
        assert(seq![0x73u8, 0x70u8, 0x6Cu8, 0x69u8, 0x74u8, 0x5Fu8, 0x6Du8].len() == 7);
        assert(t@.subrange(lo as int, hi as int) != seq![0x73u8, 0x70u8, 0x6Cu8, 0x69u8, 0x74u8, 0x5Fu8, 0x6Du8]);
    }
    proof {
        assert(seq![0x73u8, 0x61u8, 0x6Du8, 0x70u8, 0x6Cu8, 0x65u8, 0x5Fu8, 0x70u8, 0x61u8, 0x74u8, 0x68u8].len() == 11);
        assert(t@.subrange(lo as int, hi as int) != seq![0x73u8, 0x61u8, 0x6Du8, 0x70u8, 0x6Cu8, 0x65u8, 0x5Fu8, 0x70u8, 0x61u8, 0x74u8, 0x68u8]);
        assert(seq![0x73u8, 0x65u8, 0x65u8, 0x64u8, 0x5Fu8, 0x61u8].len() == 6);
        assert(t@.subrange(lo as int, hi as int) != seq![0x73u8, 0x65u8, 0x65u8, 0x64u8, 0x5Fu8, 0x61u8]);
        assert(seq![0x73u8, 0x65u8, 0x65u8, 0x64u8, 0x5Fu8, 0x62u8].len() == 6);
        assert(t@.subrange(lo as int, hi as int) != seq![0x73u8, 0x65u8, 0x65u8, 0x64u8, 0x5Fu8, 0x62u8]);
        assert(seq![0x6Cu8, 0x6Fu8, 0x73u8, 0x73u8, 0x5Fu8, 0x61u8, 0x5Fu8, 0x70u8, 0x6Du8].len() == 9);
        assert(t@.subrange(lo as int, hi as int) != seq![0x6Cu8, 0x6Fu8, 0x73u8, 0x73u8, 0x5Fu8, 0x61u8, 0x5Fu8, 0x70u8, 0x6Du8]);
        assert(seq![0x6Cu8, 0x6Fu8, 0x73u8, 0x73u8, 0x5Fu8, 0x62u8, 0x5Fu8, 0x70u8, 0x6Du8].len() == 9);
        assert(t@.subrange(lo as int, hi as int) != seq![0x6Cu8, 0x6Fu8, 0x73u8, 0x73u8, 0x5Fu8, 0x62u8, 0x5Fu8, 0x70u8, 0x6Du8]);
        assert(seq![0x64u8, 0x65u8, 0x6Cu8, 0x61u8, 0x79u8, 0x5Fu8, 0x6Du8, 0x65u8, 0x61u8, 0x6Eu8, 0x5Fu8, 0x6Eu8, 0x73u8].len() == 13);
        assert(t@.subrange(lo as int, hi as int) != seq![0x64u8, 0x65u8, 0x6Cu8, 0x61u8, 0x79u8, 0x5Fu8, 0x6Du8, 0x65u8, 0x61u8, 0x6Eu8, 0x5Fu8, 0x6Eu8, 0x73u8]);
        assert(seq![0x64u8, 0x65u8, 0x6Cu8, 0x61u8, 0x79u8, 0x5Fu8, 0x73u8, 0x69u8, 0x67u8, 0x6Du8, 0x61u8, 0x5Fu8, 0x6Eu8, 0x73u8].len() == 14);
        assert(t@.subrange(lo as int, hi as int) != seq![0x64u8, 0x65u8, 0x6Cu8, 0x61u8, 0x79u8, 0x5Fu8, 0x73u8, 0x69u8, 0x67u8, 0x6Du8, 0x61u8, 0x5Fu8, 0x6Eu8, 0x73u8]);
        assert(seq![0x67u8, 0x75u8, 0x61u8, 0x72u8, 0x61u8, 0x6Eu8, 0x74u8, 0x65u8, 0x65u8, 0x5Fu8, 0x63u8, 0x6Fu8, 0x76u8, 0x65u8, 0x72u8, 0x61u8, 0x67u8, 0x65u8].len() == 18);
        assert(t@.subrange(lo as int, hi as int) != seq![0x67u8, 0x75u8, 0x61u8, 0x72u8, 0x61u8, 0x6Eu8, 0x74u8, 0x65u8, 0x65u8, 0x5Fu8, 0x63u8, 0x6Fu8, 0x76u8, 0x65u8, 0x72u8, 0x61u8, 0x67u8, 0x65u8]);
        assert(seq![0x6Du8, 0x73u8, 0x67u8, 0x73u8, 0x5Fu8, 0x70u8, 0x65u8, 0x72u8, 0x5Fu8, 0x70u8, 0x61u8, 0x63u8, 0x6Bu8, 0x65u8, 0x74u8].len() == 15);
        assert(t@.subrange(lo as int, hi as int) != seq![0x6Du8, 0x73u8, 0x67u8, 0x73u8, 0x5Fu8, 0x70u8, 0x65u8, 0x72u8, 0x5Fu8, 0x70u8, 0x61u8, 0x63u8, 0x6Bu8, 0x65u8, 0x74u8]);
        assert(seq![0x6Du8, 0x74u8, 0x75u8, 0x5Fu8, 0x62u8, 0x6Fu8, 0x75u8, 0x6Eu8, 0x64u8].len() == 9);
        assert(t@.subrange(lo as int, hi as int) != seq![0x6Du8, 0x74u8, 0x75u8, 0x5Fu8, 0x62u8, 0x6Fu8, 0x75u8, 0x6Eu8, 0x64u8]);
        assert(seq![0x73u8, 0x65u8, 0x73u8, 0x73u8, 0x69u8, 0x6Fu8, 0x6Eu8].len() == 7);
        assert(t@.subrange(lo as int, hi as int) != seq![0x73u8, 0x65u8, 0x73u8, 0x73u8, 0x69u8, 0x6Fu8, 0x6Eu8]);
        assert(seq![0x73u8, 0x65u8, 0x73u8, 0x73u8, 0x69u8, 0x6Fu8, 0x6Eu8, 0x5Fu8, 0x63u8, 0x68u8, 0x61u8, 0x6Eu8, 0x67u8, 0x65u8, 0x5Fu8, 0x61u8, 0x74u8, 0x5Fu8, 0x6Du8, 0x73u8, 0x67u8].len() == 21);
        assert(t@.subrange(lo as int, hi as int) != seq![0x73u8, 0x65u8, 0x73u8, 0x73u8, 0x69u8, 0x6Fu8, 0x6Eu8, 0x5Fu8, 0x63u8, 0x68u8, 0x61u8, 0x6Eu8, 0x67u8, 0x65u8, 0x5Fu8, 0x61u8, 0x74u8, 0x5Fu8, 0x6Du8, 0x73u8, 0x67u8]);
        assert(seq![0x73u8, 0x70u8, 0x6Cu8, 0x69u8, 0x74u8, 0x5Fu8, 0x6Du8].len() == 7);
        assert(t@.subrange(lo as int, hi as int) != seq![0x73u8, 0x70u8, 0x6Cu8, 0x69u8, 0x74u8, 0x5Fu8, 0x6Du8]);
    }
    ConfigKey::Other
}

/// Index of the first `b` in `s`, or `s.len()` if there is none.
pub open spec fn first_index(s: Seq<u8>, b: u8) -> int
    decreases s.len(),
{
    if s.len() == 0 {
        0
    } else if s[0] == b {
        0
    } else {
        1 + first_index(s.drop_first(), b)
    }
}

/// The first `b` of `s` lies within it, and no `b` comes before it.
pub proof fn lemma_first_index(s: Seq<u8>, b: u8)
    ensures
        0 <= first_index(s, b) <= s.len(),
        first_index(s, b) < s.len() ==> s[first_index(s, b)] == b,
        forall|j: int| 0 <= j < first_index(s, b) ==> s[j] != b,
    decreases s.len(),
{
    if s.len() > 0 && s[0] != b {
        lemma_first_index(s.drop_first(), b);
        assert forall|j: int| 0 <= j < first_index(s, b) implies s[j] != b by {
            if j > 0 {
                assert(s[j] == s.drop_first()[j - 1]);
            }
        }
    }
}

/// A value without a pair of double or single quotes around it.
pub open spec fn unquote(v: Seq<u8>) -> Seq<u8> {
    if v.len() >= 2 && ((v[0] == 0x22 && v.last() == 0x22) || (v[0] == 0x27 && v.last() == 0x27)) {
        v.subrange(1, v.len() - 1)
    } else {
        v
    }
}

/// The key and value of a setting line: the line trimmed, unless blank or a `#`
/// comment, split at its first `=`, both sides trimmed and the value unquoted. A line
/// without `=` sets nothing.
pub open spec fn setting_of(line: Seq<u8>) -> Option<(Seq<u8>, Seq<u8>)> {
    let l = trim(line);
    let p = first_index(l, 0x3D);
    if l.len() == 0 || l[0] == 0x23 || p >= l.len() {
        None
    } else {
        Some((trim(l.take(p)), unquote(trim(l.skip(p + 1)))))
    }
}

/// Reading the line fails: a setting whose trimmed value is a lone quote character.
pub open spec fn line_fails(line: Seq<u8>) -> bool {
    let l = trim(line);
    let p = first_index(l, 0x3D);
    &&& l.len() > 0 && l[0] != 0x23 && p < l.len()
    &&& ({
        let v = trim(l.skip(p + 1));
        v.len() == 1 && (v[0] == 0x22 || v[0] == 0x27)
    })
}

/// The settings a configuration file gives, as plain values.
pub struct ConfigModel {
    pub seed_a: u64,
    pub seed_b: u64,
    pub loss_a_pm: u32,
    pub loss_b_pm: u32,
    pub delay_mean_ns: i64,
    pub delay_sigma_ns: u64,
    pub guarantee_coverage: bool,
    pub msgs_per_packet: Packetize,
    pub session_change_at_msg: Option<u64>,
    pub sample_path: Seq<u8>,
    pub session: Seq<u8>,
}

/// The settings before any line: the default seeds, no loss or delay, coverage
/// guaranteed, packets of ten messages, no session change, the mini sample and the
/// session `CHAOSSESS1`.
pub open spec fn default_model() -> ConfigModel {
    ConfigModel {
        seed_a: 0x1234_5678_9ABC_DEF0,
        seed_b: 0x0FED_CBA9_8765_4321,
        loss_a_pm: 0,
        loss_b_pm: 0,
        delay_mean_ns: 0,
        delay_sigma_ns: 0,
        guarantee_coverage: true,
        msgs_per_packet: Packetize::Fixed(10),
        session_change_at_msg: None,
        sample_path: seq![
            0x64u8, 0x61u8, 0x74u8, 0x61u8, 0x2Fu8, 0x74u8, 0x65u8, 0x73u8, 0x74u8, 0x73u8, 0x2Fu8, 0x73u8, 0x61u8,
            0x6Du8, 0x70u8, 0x6Cu8, 0x65u8, 0x2Du8, 0x6Du8, 0x69u8, 0x6Eu8, 0x69u8, 0x2Eu8, 0x69u8, 0x74u8, 0x63u8,
            0x68u8,
        ],
        session: seq![0x43u8, 0x48u8, 0x41u8, 0x4Fu8, 0x53u8, 0x53u8, 0x45u8, 0x53u8, 0x53u8, 0x31u8],
    }
}

/// A session id from a value: its first ten bytes, padded with spaces.
pub open spec fn session_of(v: Seq<u8>) -> Seq<u8> {
    Seq::new(10, |i: int| if i < v.len() { v[i] } else { 0x20u8 })
}

/// A packetization from a count: `MtuBound` from 100 on, `Fixed` below.
pub open spec fn packets_of(k: u16) -> Packetize {
    if k >= 100 {
        Packetize::MtuBound(k)
    } else {
        Packetize::Fixed(k)
    }
}

/// The settings after `key = v`. A value that does not parse keeps the seed as it was,
/// and otherwise falls back to no loss or delay, coverage guaranteed, 1400 (a
/// packet bound) or no session change.
pub open spec fn with_setting(m: ConfigModel, key: Seq<u8>, v: Seq<u8>) -> ConfigModel {
    match key_of(key) {
        ConfigKey::SamplePath => ConfigModel { sample_path: v, ..m },
        ConfigKey::SeedA => ConfigModel {
            seed_a: match parse_unsigned(v, u64::MAX as int) {
                Some(x) => x as u64,
                None => m.seed_a,
            },
            ..m
        },
        ConfigKey::SeedB => ConfigModel {
            seed_b: match parse_unsigned(v, u64::MAX as int) {
                Some(x) => x as u64,
                None => m.seed_b,
            },
            ..m
        },
        ConfigKey::LossA => ConfigModel {
            loss_a_pm: match parse_unsigned(v, u32::MAX as int) {
                Some(x) => x as u32,
                None => 0,
            },
            ..m
        },
        ConfigKey::LossB => ConfigModel {
            loss_b_pm: match parse_unsigned(v, u32::MAX as int) {
                Some(x) => x as u32,
                None => 0,
            },
            ..m
        },
        ConfigKey::DelayMean => ConfigModel {
            delay_mean_ns: match parse_signed(v) {
                Some(x) => x as i64,
                None => 0,
            },
            ..m
        },
        ConfigKey::DelaySigma => ConfigModel {
            delay_sigma_ns: match parse_unsigned(v, u64::MAX as int) {
                Some(x) => x as u64,
                None => 0,
            },
            ..m
        },
        ConfigKey::Guarantee => ConfigModel {
            guarantee_coverage: match parse_bool(v) {
                Some(b) => b,
                None => true,
            },
            ..m
        },
        ConfigKey::Packets => ConfigModel {
            msgs_per_packet: packets_of(
                match parse_unsigned(v, u16::MAX as int) {
                    Some(x) => x as u16,
                    None => 1400,
                },
            ),
            ..m
        },
        ConfigKey::Session => ConfigModel { session: session_of(v), ..m },
        ConfigKey::SessionChange => ConfigModel {
            session_change_at_msg: match parse_unsigned(v, u64::MAX as int) {
                Some(x) => Some(x as u64),
                None => None,
            },
            ..m
        },
        ConfigKey::Other => m,
    }
}

/// The settings after a line.
pub open spec fn with_line(m: ConfigModel, line: Seq<u8>) -> ConfigModel {
    match setting_of(line) {
        Some((k, v)) => with_setting(m, k, v),
        None => m,
    }
}

/// The settings after the lines of `t` (separated by line feeds), in order.
pub open spec fn read_lines(m: ConfigModel, t: Seq<u8>) -> ConfigModel
    decreases t.len(),
{
    let e = first_index(t, 0x0A);
    if e < 0 || e >= t.len() {
        with_line(m, t)
    } else {
        read_lines(with_line(m, t.take(e)), t.skip(e + 1))
    }
}

/// Reading one of the lines of `t` fails.
pub open spec fn lines_fail(t: Seq<u8>) -> bool
    decreases t.len(),
{
    let e = first_index(t, 0x0A);
    if e < 0 || e >= t.len() {
        line_fails(t)
    } else {
        line_fails(t.take(e)) || lines_fail(t.skip(e + 1))
    }
}

/// The settings a configuration text gives.
pub open spec fn read_config(t: Seq<u8>) -> ConfigModel {
    read_lines(default_model(), t)
}

/// The first `b` of `s` is at `k` when no `b` comes before `k` and `k` is the end or
/// holds a `b`.
proof fn lemma_first_index_is(s: Seq<u8>, b: u8, k: int)
    requires
        0 <= k <= s.len(),
        forall|j: int| 0 <= j < k ==> s[j] != b,
        k == s.len() || s[k] == b,
    ensures
        first_index(s, b) == k,
    decreases s.len(),
{
    if s.len() > 0 && k > 0 {
        let d = s.drop_first();
        assert forall|j: int| 0 <= j < k - 1 implies d[j] != b by {
            assert(d[j] == s[j + 1]);
        }
        if k < s.len() {
            assert(d[k - 1] == s[k]);
        }
        lemma_first_index_is(d, b, k - 1);
    }
}

/// Position of the first `b` in `t[lo..hi]`, or `hi`.
fn find_byte(t: &[u8], lo: usize, hi: usize, b: u8) -> (p: usize)
    requires
        lo <= hi <= t@.len(),
    ensures
        lo <= p <= hi,
        p - lo == first_index(t@.subrange(lo as int, hi as int), b),
{
    let ghost s = t@.subrange(lo as int, hi as int);
    let mut p = lo;
    while p < hi && t[p] != b
        invariant
            lo <= p <= hi,
            hi <= t@.len(),
            s == t@.subrange(lo as int, hi as int),
            forall|j: int| 0 <= j < p - lo ==> s[j] != b,
        decreases hi - p,
    {
        assert(s[p - lo] == t@[p as int]);
        p = p + 1;
    }
    if p < hi {
        assert(s[p - lo] == t@[p as int]);
    }
    proof {
        lemma_first_index_is(s, b, p - lo);
    }
    p
}

/// The key and value bounds of the setting on line `t[lo..hi]`, if it holds one.
fn setting_at(t: &[u8], lo: usize, hi: usize) -> (r: Option<(usize, usize, usize, usize)>)
    requires
        lo <= hi <= t@.len(),
    ensures
        match setting_of(t@.subrange(lo as int, hi as int)) {
            None => r is None,
            Some((k, v)) => r matches Some((ka, kb, va, vb)) && ka <= kb <= t@.len() && va <= vb <= t@.len()
                && t@.subrange(ka as int, kb as int) == k && t@.subrange(va as int, vb as int) == v,
        },
        line_fails(t@.subrange(lo as int, hi as int)) ==> (r matches Some((ka, kb, va, vb)) && vb == va + 1
            && (t@[va as int] == 0x22 || t@[va as int] == 0x27)),
{
    let ghost line = t@.subrange(lo as int, hi as int);
    let (a, b) = trim_range(t, lo, hi);
    let ghost l = t@.subrange(a as int, b as int);
    if a == b || t[a] == 0x23 {
        return None;
    }
    assert(l[0] == t@[a as int]);
    let p = find_byte(t, a, b, 0x3D);
    if p == b {
        return None;
    }
    assert(t@.subrange(a as int, p as int) =~= l.take(p - a));
    assert(t@.subrange(p + 1, b as int) =~= l.skip(p - a + 1));
    let (ka, kb) = trim_range(t, a, p);
    let (va, vb) = trim_range(t, p + 1, b);
    let ghost v = t@.subrange(va as int, vb as int);
    if vb - va >= 2 && ((t[va] == 0x22 && t[vb - 1] == 0x22) || (t[va] == 0x27 && t[vb - 1] == 0x27)) {
        assert(v[0] == t@[va as int] && v.last() == t@[vb - 1]);
        assert(t@.subrange(va + 1, vb - 1) =~= v.subrange(1, v.len() - 1));
        Some((ka, kb, va + 1, vb - 1))
    } else {
        proof {
            if v.len() >= 2 {
                assert(v[0] == t@[va as int] && v.last() == t@[vb - 1]);
            }
            if v.len() == 1 {
                assert(v[0] == t@[va as int]);
            }
        }
        Some((ka, kb, va, vb))
    }
}

/// Copies `t[lo..hi]`.
fn copy_range(t: &[u8], lo: usize, hi: usize) -> (v: Vec<u8>)
    requires
        lo <= hi <= t@.len(),
    ensures
        v@ == t@.subrange(lo as int, hi as int),
{
    let mut v: Vec<u8> = Vec::new();
    let mut i = lo;
    while i < hi
        invariant
            lo <= i <= hi,
            hi <= t@.len(),
            v@ == t@.subrange(lo as int, i as int),
        decreases hi - i,
    {
        v.push(t[i]);
        assert(v@ =~= t@.subrange(lo as int, i + 1));
        i = i + 1;
    }
    v
}

/// The settings read so far, as the reader holds them.
pub struct ConfigFields {
    pub seed_a: u64,
    pub seed_b: u64,
    pub loss_a_pm: u32,
    pub loss_b_pm: u32,
    pub delay_mean_ns: i64,
    pub delay_sigma_ns: u64,
    pub guarantee_coverage: bool,
    pub msgs_per_packet: Packetize,
    pub session_change_at_msg: Option<u64>,
    pub sample_path: Vec<u8>,
    pub session: [u8; 10],
}

impl View for ConfigFields {
    type V = ConfigModel;

    open spec fn view(&self) -> ConfigModel {
        ConfigModel {
            seed_a: self.seed_a,
            seed_b: self.seed_b,
            loss_a_pm: self.loss_a_pm,
            loss_b_pm: self.loss_b_pm,
            delay_mean_ns: self.delay_mean_ns,
            delay_sigma_ns: self.delay_sigma_ns,
            guarantee_coverage: self.guarantee_coverage,
            msgs_per_packet: self.msgs_per_packet,
            session_change_at_msg: self.session_change_at_msg,
            sample_path: self.sample_path@,
            session: self.session@,
        }
    }
}

/// Applies `key = value`, the key at `t[klo..khi]` and the value at `t[vlo..vhi]`.
fn apply_setting(f: &mut ConfigFields, t: &[u8], klo: usize, khi: usize, vlo: usize, vhi: usize)
    requires
        klo <= khi <= t@.len(),
        vlo <= vhi <= t@.len(),
    ensures
        final(f)@ == with_setting(old(f)@, t@.subrange(klo as int, khi as int), t@.subrange(vlo as int, vhi as int)),
{
    let ghost v = t@.subrange(vlo as int, vhi as int);
    match key_at(t, klo, khi) {
        ConfigKey::SamplePath => {
            f.sample_path = copy_range(t, vlo, vhi);
        },
        ConfigKey::SeedA => {
            if let Some(x) = parse_unsigned_at(t, vlo, vhi, u64::MAX) {
                f.seed_a = x;
            }
        },
        ConfigKey::SeedB => {
            if let Some(x) = parse_unsigned_at(t, vlo, vhi, u64::MAX) {
                f.seed_b = x;
            }
        },
        ConfigKey::LossA => {
            f.loss_a_pm = match parse_unsigned_at(t, vlo, vhi, 0xFFFF_FFFF) {
                Some(x) => x as u32,
                None => 0,
            };
        },
        ConfigKey::LossB => {
            f.loss_b_pm = match parse_unsigned_at(t, vlo, vhi, 0xFFFF_FFFF) {
                Some(x) => x as u32,
                None => 0,
            };
        },
        ConfigKey::DelayMean => {
            f.delay_mean_ns = match parse_signed_at(t, vlo, vhi) {
                Some(x) => x,
                None => 0,
            };
        },
        ConfigKey::DelaySigma => {
            f.delay_sigma_ns = match parse_unsigned_at(t, vlo, vhi, u64::MAX) {
                Some(x) => x,
                None => 0,
            };
        },
        ConfigKey::Guarantee => {
            f.guarantee_coverage = match parse_bool_at(t, vlo, vhi) {
                Some(b) => b,
                None => true,
            };
        },
        ConfigKey::Packets => {
            let k: u16 = match parse_unsigned_at(t, vlo, vhi, 0xFFFF) {
                Some(x) => x as u16,
                None => 1400,
            };
            f.msgs_per_packet = if k >= 100 {
                Packetize::MtuBound(k)
            } else {
                Packetize::Fixed(k)
            };
        },
        ConfigKey::Session => {
            let mut sess = [0x20u8; 10];
            let mut i: usize = 0;
            while i < 10
                invariant
                    i <= 10,
                    vlo <= vhi <= t@.len(),
                    v == t@.subrange(vlo as int, vhi as int),
                    forall|j: int| 0 <= j < i ==> sess@[j] == session_of(v)[j],
                    forall|j: int| i <= j < 10 ==> sess@[j] == 0x20u8,
                decreases 10 - i,
            {
                if i < vhi - vlo {
                    sess[i] = t[vlo + i];
                }
                i = i + 1;
            }
            assert(sess@ =~= session_of(v));
            f.session = sess;
        },
        ConfigKey::SessionChange => {
            f.session_change_at_msg = parse_unsigned_at(t, vlo, vhi, u64::MAX);
        },
        ConfigKey::Other => {},
    }
}

/// Whether reading line `t[lo..hi]` fails.
fn line_fails_at(t: &[u8], lo: usize, hi: usize) -> (r: bool)
    requires
        lo <= hi <= t@.len(),
    ensures
        r == line_fails(t@.subrange(lo as int, hi as int)),
{
    let (a, b) = trim_range(t, lo, hi);
    let ghost l = t@.subrange(a as int, b as int);
    if a == b || t[a] == 0x23 {
        return false;
    }
    assert(l[0] == t@[a as int]);
    let p = find_byte(t, a, b, 0x3D);
    if p == b {
        return false;
    }
    assert(t@.subrange(p + 1, b as int) =~= l.skip(p - a + 1));
    let (va, vb) = trim_range(t, p + 1, b);
    let ghost v = t@.subrange(va as int, vb as int);
    if vb - va == 1 {
        assert(v[0] == t@[va as int]);
        t[va] == 0x22 || t[va] == 0x27
    } else {
        false
    }
}

/// Applies line `t[lo..hi]`.
fn apply_line(f: &mut ConfigFields, t: &[u8], lo: usize, hi: usize)
    requires
        lo <= hi <= t@.len(),
    ensures
        final(f)@ == with_line(old(f)@, t@.subrange(lo as int, hi as int)),
{
    if let Some((ka, kb, va, vb)) = setting_at(t, lo, hi) {
        apply_setting(f, t, ka, kb, va, vb);
    }
}

/// Reading one of the lines of `text` fails: a setting whose value is a lone quote.
pub fn config_text_fails(text: &[u8]) -> (r: bool)
    ensures
        r == lines_fail(text@),
{
    let n = text.len();
    let mut i: usize = 0;
    assert(text@.skip(0) =~= text@);
    loop
        invariant
            i <= n,
            n == text@.len(),
            lines_fail(text@) == lines_fail(text@.skip(i as int)),
        decreases n - i,
    {
        let ghost rest = text@.skip(i as int);
        let e = find_byte(text, i, n, 0x0A);
        assert(text@.subrange(i as int, n as int) =~= rest);
        proof {
            lemma_first_index(rest, 0x0A);
        }
        if e == n {
            assert(rest =~= text@.subrange(i as int, e as int));
            return line_fails_at(text, i, e);
        }
        assert(rest.take(e - i) =~= text@.subrange(i as int, e as int));
        assert(rest.skip(e - i + 1) =~= text@.skip(e + 1));
        if line_fails_at(text, i, e) {
            return true;
        }
        i = e + 1;
    }
}

/// A loss model from parts per thousand: Bernoulli when above zero, else none.
pub open spec fn loss_of(pm: u32) -> LossModel {
    if pm > 0 {
        LossModel::Bernoulli { p_pm: pm }
    } else {
        LossModel::NoLoss
    }
}

/// The key `loss_a_pm`.
pub open spec fn loss_a_key() -> Seq<u8> {
    seq![0x6Cu8, 0x6Fu8, 0x73u8, 0x73u8, 0x5Fu8, 0x61u8, 0x5Fu8, 0x70u8, 0x6Du8]
}

/// The key `loss_b_pm`.
pub open spec fn loss_b_key() -> Seq<u8> {
    seq![0x6Cu8, 0x6Fu8, 0x73u8, 0x73u8, 0x5Fu8, 0x62u8, 0x5Fu8, 0x70u8, 0x6Du8]
}

/// The loss settings law: a `loss_a_pm` or `loss_b_pm` setting whose value reads as a
/// decimal number `n` that fits `u32` sets that feed's loss rate to `n` and leaves every
/// other setting as it was, so the feed's loss becomes Bernoulli at `n` per thousand when
/// `n` is above zero (and no loss at zero); a value that does not read as such a number
/// sets the rate to 0.
pub proof fn law_loss_settings(m: ConfigModel, v: Seq<u8>)
    ensures
        ({
            let a = with_setting(m, loss_a_key(), v);
            let b = with_setting(m, loss_b_key(), v);
            match parse_unsigned(v, u32::MAX as int) {
                Some(n) => {
                    &&& a.loss_a_pm == n && a == (ConfigModel { loss_a_pm: a.loss_a_pm, ..m })
                    &&& b.loss_b_pm == n && b == (ConfigModel { loss_b_pm: b.loss_b_pm, ..m })
                    &&& n > 0 ==> loss_of(a.loss_a_pm) == (LossModel::Bernoulli { p_pm: n as u32 })
                    &&& n > 0 ==> loss_of(b.loss_b_pm) == (LossModel::Bernoulli { p_pm: n as u32 })
                    &&& n == 0 ==> loss_of(a.loss_a_pm) == LossModel::NoLoss && loss_of(b.loss_b_pm)
                        == LossModel::NoLoss
                },
                None => a.loss_a_pm == 0 && b.loss_b_pm == 0,
            }
        }),
{
    assert(key_of(loss_a_key()) == ConfigKey::LossA);
    assert(key_of(loss_b_key()) == ConfigKey::LossB);
    if parse_unsigned(v, u32::MAX as int) is Some {
        let d = if v.len() > 0 && v[0] == 0x2B { v.skip(1) } else { v };
        lemma_digits_nonneg(d);
    }
}

/// The delay of both feeds: Gaussian when the spread is above zero, else none.
pub open spec fn delay_of(mean_ns: i64, sigma_ns: u64) -> DelayModel {
    if sigma_ns > 0 {
        DelayModel::GaussianApprox { mean_ns, sigma_ns }
    } else {
        DelayModel::NoDelay
    }
}

/// Reads a replay configuration file's text: the schedule configuration it gives (the
/// defaults with the seeds, loss, delay, coverage, packetization and session change it
/// sets), the ground-truth sample path and the session id.
pub fn load_config_file(text: &[u8]) -> (r: (ReplayConfig, Vec<u8>, [u8; 10]))
    requires
        !lines_fail(text@),
    ensures
        ({
            let m = read_config(text@);
            &&& r.0.seed_a == m.seed_a
            &&& r.0.seed_b == m.seed_b
            &&& r.0.msgs_per_packet == m.msgs_per_packet
            &&& r.0.loss@ == seq![loss_of(m.loss_a_pm), loss_of(m.loss_b_pm)]
            &&& r.0.delay@ == seq![delay_of(m.delay_mean_ns, m.delay_sigma_ns), delay_of(m.delay_mean_ns, m.delay_sigma_ns)]
            &&& r.0.base_rate_msg_per_sec == 1_000_000
            &&& r.0.heartbeat_interval_ns == 1_000_000_000
            &&& r.0.guarantee_coverage == m.guarantee_coverage
            &&& r.0.scripted_drops@.len() == 0
            &&& r.0.session_change_at_msg == m.session_change_at_msg
            &&& r.0.feeds_enabled == 3
            &&& r.1@ == m.sample_path
            &&& r.2@ == m.session
        }),
{
    let mut f = ConfigFields {
        seed_a: 0x1234_5678_9ABC_DEF0,
        seed_b: 0x0FED_CBA9_8765_4321,
        loss_a_pm: 0,
        loss_b_pm: 0,
        delay_mean_ns: 0,
        delay_sigma_ns: 0,
        guarantee_coverage: true,
        msgs_per_packet: Packetize::Fixed(10),
        session_change_at_msg: None,
        sample_path: vec![
            0x64u8, 0x61, 0x74, 0x61, 0x2F, 0x74, 0x65, 0x73, 0x74, 0x73, 0x2F, 0x73, 0x61, 0x6D, 0x70, 0x6C, 0x65,
            0x2D, 0x6D, 0x69, 0x6E, 0x69, 0x2E, 0x69, 0x74, 0x63, 0x68,
        ],
        session: [0x43u8, 0x48, 0x41, 0x4F, 0x53, 0x53, 0x45, 0x53, 0x53, 0x31],
    };
    assert(f@ == default_model()) by {
        assert(f.sample_path@ =~= default_model().sample_path);
        assert(f.session@ =~= default_model().session);
    }
    let n = text.len();
    let mut i: usize = 0;
    assert(text@.skip(0) =~= text@);
    loop
        invariant_except_break
            i <= n,
            n == text@.len(),
            read_config(text@) == read_lines(f@, text@.skip(i as int)),
        ensures
            read_config(text@) == f@,
        decreases n - i,
    {
        let ghost rest = text@.skip(i as int);
        let e = find_byte(text, i, n, 0x0A);
        assert(text@.subrange(i as int, n as int) =~= rest);
        proof {
            lemma_first_index(rest, 0x0A);
        }
        if e == n {
            assert(rest =~= text@.subrange(i as int, e as int));
            apply_line(&mut f, text, i, e);
            break;
        }
        assert(rest.take(e - i) =~= text@.subrange(i as int, e as int));
        assert(rest.skip(e - i + 1) =~= text@.skip(e + 1));
        apply_line(&mut f, text, i, e);
        i = e + 1;
    }
    let mut cfg = ReplayConfig::default();
    cfg.seed_a = f.seed_a;
    cfg.seed_b = f.seed_b;
    cfg.guarantee_coverage = f.guarantee_coverage;
    cfg.msgs_per_packet = f.msgs_per_packet;
    cfg.session_change_at_msg = f.session_change_at_msg;
    let la = if f.loss_a_pm > 0 {
        LossModel::Bernoulli { p_pm: f.loss_a_pm }
    } else {
        LossModel::NoLoss
    };
    let lb = if f.loss_b_pm > 0 {
        LossModel::Bernoulli { p_pm: f.loss_b_pm }
    } else {
        LossModel::NoLoss
    };
    cfg.loss = [la, lb];
    let d = if f.delay_sigma_ns > 0 {
        DelayModel::GaussianApprox { mean_ns: f.delay_mean_ns, sigma_ns: f.delay_sigma_ns }
    } else {
        DelayModel::NoDelay
    };
    cfg.delay = [d, d];
    assert(cfg.loss@ =~= seq![la, lb]);
    assert(cfg.delay@ =~= seq![d, d]);
    (cfg, f.sample_path, f.session)
}

} // verus!
