//! The persistence contract of the event index: a single self-describing
//! textual container holding the three event sequences, and the exact
//! round-trip between an index and its container.
//!
//! Every number is written as ten zero-padded decimal digits; a string is
//! written as its length followed by its characters; each topology event
//! carries a one-character tag. The container is the concatenation of the
//! three tagged, counted sequences.

use vstd::prelude::*;
use vstd::string::StrSliceExecFns;
use vstd::string::StringExecFns;
use crate::text::{is_digit, char_is_digit};
use crate::timestamp::{Timestamp, digits_val, pow10, all_digits_range};
use crate::index::{
    TopoEventV, ClientEventV, ErrorEventV, EventIndexV, TopologyEvent, ClientEvent, ErrorEvent,
    EventIndex,
};
use crate::settings::ClientSettings;

verus! {

/// The character of one decimal digit.
pub open spec fn digit_char(d: int) -> char {
    if d == 0 {
        '0'
    } else if d == 1 {
        '1'
    } else if d == 2 {
        '2'
    } else if d == 3 {
        '3'
    } else if d == 4 {
        '4'
    } else if d == 5 {
        '5'
    } else if d == 6 {
        '6'
    } else if d == 7 {
        '7'
    } else if d == 8 {
        '8'
    } else {
        '9'
    }
}

/// `n` written as exactly `w` decimal digits, zero-padded, most significant
/// first.
pub open spec fn enc_num_w(n: int, w: nat) -> Seq<char>
    decreases w,
{
    if w == 0 {
        Seq::empty()
    } else {
        enc_num_w(n / 10, (w - 1) as nat).push(digit_char(n % 10))
    }
}

/// A number in the container: ten zero-padded decimal digits.
pub open spec fn enc_num(n: int) -> Seq<char> {
    enc_num_w(n, 10)
}

pub proof fn lemma_enc_num_w_len(n: int, w: nat)
    ensures
        enc_num_w(n, w).len() == w,
        all_digits_range(enc_num_w(n, w), 0, w as int),
    decreases w,
{
    if w > 0 {
        lemma_enc_num_w_len(n / 10, (w - 1) as nat);
        let e = enc_num_w(n, w);
        assert forall|i: int| 0 <= i < w implies is_digit(e[i]) by {
            if i < w - 1 {
                assert(e[i] == enc_num_w(n / 10, (w - 1) as nat)[i]);
            } else {
                assert(e[i] == digit_char(n % 10));
            }
        }
    }
}

/// Writing `n` in `w` digits and reading the digits back yields `n`, for
/// any `n` that fits.
pub proof fn lemma_enc_num_w_val(n: int, w: nat)
    requires
        0 <= n < pow10(w),
    ensures
        digits_val(enc_num_w(n, w)) == n,
    decreases w,
{
    if w == 0 {
    } else {
        assert(n / 10 < pow10((w - 1) as nat)) by {
            assert(pow10(w) == 10 * pow10((w - 1) as nat));
            assert(n / 10 < pow10((w - 1) as nat)) by (nonlinear_arith)
                requires
                    0 <= n,
                    n < 10 * pow10((w - 1) as nat),
            ;
        }
        assert(0 <= n / 10);
        lemma_enc_num_w_val(n / 10, (w - 1) as nat);
        let e = enc_num_w(n, w);
        assert(e.drop_last() =~= enc_num_w(n / 10, (w - 1) as nat));
        assert(e.last() == digit_char(n % 10));
        assert(0 <= n % 10 < 10);
        assert(e.last() as u32 - '0' as u32 == n % 10);
        assert(digits_val(e) == digits_val(e.drop_last()) * 10 + (e.last() as u32 - '0' as u32));
    }
}

/// What reading a number at `pos` yields: the value of the next ten
/// characters when they are all digits and denote a value that fits `u32`.
pub open spec fn dec_num(s: Seq<char>, pos: int) -> Option<(u32, int)> {
    if 0 <= pos && pos + 10 <= s.len() && all_digits_range(s, pos, pos + 10) && digits_val(
        s.subrange(pos, pos + 10),
    ) <= u32::MAX {
        Some((digits_val(s.subrange(pos, pos + 10)) as u32, pos + 10))
    } else {
        None
    }
}

/// Reading right after writing yields the number written: `enc_num` and
/// `dec_num` cancel, in any surrounding context.
pub proof fn lemma_num_round_trip(s: Seq<char>, pos: int, n: u32)
    requires
        0 <= pos,
        pos + 10 <= s.len(),
        s.subrange(pos, pos + 10) == enc_num(n as int),
    ensures
        dec_num(s, pos) == Some((n, pos + 10)),
{
    lemma_enc_num_w_len(n as int, 10);
    assert(pow10(10) == 10_000_000_000) by {
        reveal_with_fuel(pow10, 11);
    }
    lemma_enc_num_w_val(n as int, 10);
    assert forall|i: int| pos <= i < pos + 10 implies is_digit(s[i]) by {
        assert(s[i] == s.subrange(pos, pos + 10)[i - pos]);
        assert(is_digit(enc_num(n as int)[i - pos]));
    }
    assert(all_digits_range(s, pos, pos + 10));
}


/// A string in the container: its length, then its characters.
pub open spec fn enc_str(x: Seq<char>) -> Seq<char> {
    enc_num(x.len() as int) + x
}

/// What reading a string at `pos` yields.
pub open spec fn dec_str(s: Seq<char>, pos: int) -> Option<(Seq<char>, int)> {
    match dec_num(s, pos) {
        Option::Some(v) => {
            if v.1 + v.0 <= s.len() {
                Some((s.subrange(v.1, v.1 + v.0), v.1 + v.0))
            } else {
                None
            }
        },
        Option::None => None,
    }
}

/// A window of `s` that holds a chunk of an encoded whole equals that chunk.
proof fn lemma_window(s: Seq<char>, pos: int, off: int, chunk: Seq<char>, whole: Seq<char>)
    requires
        0 <= pos,
        0 <= off,
        off + chunk.len() <= whole.len(),
        pos + whole.len() <= s.len(),
        s.subrange(pos, pos + whole.len() as int) == whole,
        forall|i: int| 0 <= i < chunk.len() ==> chunk[i] == whole[off + i],
    ensures
        s.subrange(pos + off, pos + off + chunk.len() as int) == chunk,
{
    assert forall|i: int|
        0 <= i < chunk.len() implies s.subrange(
        pos + off,
        pos + off + chunk.len() as int,
    )[i] == chunk[i] by {
        assert(s.subrange(pos + off, pos + off + chunk.len() as int)[i] == s[pos + off + i]);
        assert(s[pos + off + i] == s.subrange(pos, pos + whole.len() as int)[off + i]);
    }
    assert(s.subrange(pos + off, pos + off + chunk.len() as int) =~= chunk);
}

/// Reading right after writing yields the string written, in any context.
pub proof fn lemma_str_round_trip(s: Seq<char>, pos: int, x: Seq<char>)
    requires
        0 <= pos,
        x.len() <= u32::MAX,
        pos + enc_str(x).len() <= s.len(),
        s.subrange(pos, pos + enc_str(x).len() as int) == enc_str(x),
    ensures
        enc_str(x).len() == 10 + x.len(),
        dec_str(s, pos) == Some((x, pos + 10 + x.len() as int)),
{
    lemma_enc_num_w_len(x.len() as int, 10);
    let whole = enc_str(x);
    assert forall|i: int| 0 <= i < 10 implies enc_num(x.len() as int)[i] == whole[0 + i] by {}
    lemma_window(s, pos, 0, enc_num(x.len() as int), whole);
    lemma_num_round_trip(s, pos, x.len() as u32);
    assert forall|i: int| 0 <= i < x.len() implies x[i] == whole[10 + i] by {}
    lemma_window(s, pos, 10, x, whole);
}

/// A timestamp in the container: its seven fields, each as a number.
pub open spec fn enc_ts(t: Timestamp) -> Seq<char> {
    enc_num(t.year as int) + enc_num(t.month as int) + enc_num(t.day as int) + enc_num(
        t.hour as int,
    ) + enc_num(t.minute as int) + enc_num(t.second as int) + enc_num(t.nanos as int)
}

/// What reading a timestamp at `pos` yields.
pub open spec fn dec_ts(s: Seq<char>, pos: int) -> Option<(Timestamp, int)> {
    match dec_num(s, pos) {
        Option::Some(y) => match dec_num(s, y.1) {
            Option::Some(mo) => match dec_num(s, mo.1) {
                Option::Some(d) => match dec_num(s, d.1) {
                    Option::Some(h) => match dec_num(s, h.1) {
                        Option::Some(mi) => match dec_num(s, mi.1) {
                            Option::Some(sec) => match dec_num(s, sec.1) {
                                Option::Some(na) => Some(
                                    (
                                        Timestamp {
                                            year: y.0,
                                            month: mo.0,
                                            day: d.0,
                                            hour: h.0,
                                            minute: mi.0,
                                            second: sec.0,
                                            nanos: na.0,
                                        },
                                        na.1,
                                    ),
                                ),
                                Option::None => None,
                            },
                            Option::None => None,
                        },
                        Option::None => None,
                    },
                    Option::None => None,
                },
                Option::None => None,
            },
            Option::None => None,
        },
        Option::None => None,
    }
}

/// Reading right after writing yields the timestamp written, in any context.
pub proof fn lemma_ts_round_trip(s: Seq<char>, pos: int, t: Timestamp)
    requires
        0 <= pos,
        pos + 70 <= s.len(),
        s.subrange(pos, pos + 70) == enc_ts(t),
    ensures
        enc_ts(t).len() == 70,
        dec_ts(s, pos) == Some((t, pos + 70)),
{
    let whole = enc_ts(t);
    lemma_enc_num_w_len(t.year as int, 10);
    lemma_enc_num_w_len(t.month as int, 10);
    lemma_enc_num_w_len(t.day as int, 10);
    lemma_enc_num_w_len(t.hour as int, 10);
    lemma_enc_num_w_len(t.minute as int, 10);
    lemma_enc_num_w_len(t.second as int, 10);
    lemma_enc_num_w_len(t.nanos as int, 10);
    assert forall|i: int| 0 <= i < 10 implies enc_num(t.year as int)[i] == whole[0 + i] by {}
    lemma_window(s, pos, 0, enc_num(t.year as int), whole);
    lemma_num_round_trip(s, pos, t.year);
    assert forall|i: int| 0 <= i < 10 implies enc_num(t.month as int)[i] == whole[10 + i] by {}
    lemma_window(s, pos, 10, enc_num(t.month as int), whole);
    lemma_num_round_trip(s, pos + 10, t.month);
    assert forall|i: int| 0 <= i < 10 implies enc_num(t.day as int)[i] == whole[20 + i] by {}
    lemma_window(s, pos, 20, enc_num(t.day as int), whole);
    lemma_num_round_trip(s, pos + 20, t.day);
    assert forall|i: int| 0 <= i < 10 implies enc_num(t.hour as int)[i] == whole[30 + i] by {}
    lemma_window(s, pos, 30, enc_num(t.hour as int), whole);
    lemma_num_round_trip(s, pos + 30, t.hour);
    assert forall|i: int| 0 <= i < 10 implies enc_num(t.minute as int)[i] == whole[40 + i] by {}
    lemma_window(s, pos, 40, enc_num(t.minute as int), whole);
    lemma_num_round_trip(s, pos + 40, t.minute);
    assert forall|i: int| 0 <= i < 10 implies enc_num(t.second as int)[i] == whole[50 + i] by {}
    lemma_window(s, pos, 50, enc_num(t.second as int), whole);
    lemma_num_round_trip(s, pos + 50, t.second);
    assert forall|i: int| 0 <= i < 10 implies enc_num(t.nanos as int)[i] == whole[60 + i] by {}
    lemma_window(s, pos, 60, enc_num(t.nanos as int), whole);
    lemma_num_round_trip(s, pos + 60, t.nanos);
}

pub(crate) fn digit_str(d: u32) -> (r: &'static str)
    requires
        d < 10,
    ensures
        r@ == seq![digit_char(d as int)],
{
    if d == 0 {
        proof {
            reveal_strlit("0");
            assert("0"@ =~= seq![digit_char(0)]);
        }
        "0"
    } else if d == 1 {
        proof {
            reveal_strlit("1");
            assert("1"@ =~= seq![digit_char(1)]);
        }
        "1"
    } else if d == 2 {
        proof {
            reveal_strlit("2");
            assert("2"@ =~= seq![digit_char(2)]);
        }
        "2"
    } else if d == 3 {
        proof {
            reveal_strlit("3");
            assert("3"@ =~= seq![digit_char(3)]);
        }
        "3"
    } else if d == 4 {
        proof {
            reveal_strlit("4");
            assert("4"@ =~= seq![digit_char(4)]);
        }
        "4"
    } else if d == 5 {
        proof {
            reveal_strlit("5");
            assert("5"@ =~= seq![digit_char(5)]);
        }
        "5"
    } else if d == 6 {
        proof {
            reveal_strlit("6");
            assert("6"@ =~= seq![digit_char(6)]);
        }
        "6"
    } else if d == 7 {
        proof {
            reveal_strlit("7");
            assert("7"@ =~= seq![digit_char(7)]);
        }
        "7"
    } else if d == 8 {
        proof {
            reveal_strlit("8");
            assert("8"@ =~= seq![digit_char(8)]);
        }
        "8"
    } else {
        proof {
            reveal_strlit("9");
            assert("9"@ =~= seq![digit_char(9)]);
        }
        "9"
    }
}

fn push_num_w(out: &mut String, n: u32, w: u32)
    ensures
        final(out)@ == old(out)@ + enc_num_w(n as int, w as nat),
    decreases w,
{
    if w > 0 {
        push_num_w(out, n / 10, w - 1);
        let ds = digit_str(n % 10);
        out.append(ds);
        proof {
            assert(out@ =~= old(out)@ + enc_num_w(n as int, w as nat));
        }
    } else {
        proof {
            assert(out@ =~= old(out)@ + enc_num_w(n as int, 0));
        }
    }
}

/// Write one number.
fn push_num(out: &mut String, n: u32)
    ensures
        final(out)@ == old(out)@ + enc_num(n as int),
{
    push_num_w(out, n, 10)
}

/// Read one number.
fn read_num(s: &str, pos: usize) -> (r: Option<(u32, usize)>)
    requires
        pos <= s@.len(),
    ensures
        match dec_num(s@, pos as int) {
            Some(v) => r matches Some(p) && p.0 == v.0 && p.1 == v.1,
            None => r is None,
        },
{
    let len = s.unicode_len();
    if len - pos < 10 {
        return None;
    }
    let mut i: usize = pos;
    let mut v: u64 = 0;
    proof {
        assert(s@.subrange(pos as int, pos as int) =~= Seq::<char>::empty());
    }
    while i < pos + 10
        invariant
            pos + 10 <= len,
            len == s@.len(),
            pos <= i <= pos + 10,
            all_digits_range(s@, pos as int, i as int),
            v == digits_val(s@.subrange(pos as int, i as int)),
            v < pow10((i - pos) as nat),
        decreases pos + 10 - i,
    {
        let c = s.get_char(i);
        if !char_is_digit(c) {
            return None;
        }
        let d: u32 = (c as u32) - ('0' as u32);
        proof {
            let pre = s@.subrange(pos as int, i as int);
            let post = s@.subrange(pos as int, i + 1);
            assert(post.drop_last() =~= pre);
            assert(post.last() == s@[i as int]);
            assert(pow10(((i + 1) - pos) as nat) == 10 * pow10((i - pos) as nat));
            reveal_with_fuel(pow10, 11);
            assert(pow10((i - pos) as nat) <= pow10(9)) by {
                lemma_pow10_le((i - pos) as nat, 9);
            }
        }
        v = v * 10 + (d as u64);
        i += 1;
    }
    if v > (u32::MAX as u64) {
        return None;
    }
    Some((v as u32, pos + 10))
}

proof fn lemma_pow10_le(a: nat, b: nat)
    requires
        a <= b,
    ensures
        pow10(a) <= pow10(b),
    decreases b,
{
    if a < b {
        lemma_pow10_le(a, (b - 1) as nat);
        lemma_pow10_ge_one((b - 1) as nat);
    }
}

proof fn lemma_pow10_ge_one(n: nat)
    ensures
        pow10(n) >= 1,
    decreases n,
{
    if n > 0 {
        lemma_pow10_ge_one((n - 1) as nat);
    }
}

/// Write one string.
fn push_str_chunk(out: &mut String, x: &str)
    requires
        x@.len() <= u32::MAX,
    ensures
        final(out)@ == old(out)@ + enc_str(x@),
{
    let n = x.unicode_len();
    push_num(out, n as u32);
    out.append(x);
    proof {
        assert(out@ =~= old(out)@ + enc_str(x@));
    }
}

/// Read one string.
fn read_str(s: &str, pos: usize) -> (r: Option<(String, usize)>)
    requires
        pos <= s@.len(),
    ensures
        match dec_str(s@, pos as int) {
            Some(v) => r matches Some(p) && p.0@ == v.0 && p.1 == v.1,
            None => r is None,
        },
{
    let (n, p) = match read_num(s, pos) {
        None => {
            return None;
        },
        Some(x) => x,
    };
    let len = s.unicode_len();
    if (n as u64) > ((len - p) as u64) {
        return None;
    }
    let q = p + (n as usize);
    let piece = s.substring_char(p, q).to_owned();
    Some((piece, q))
}

/// Write one timestamp.
fn push_ts(out: &mut String, t: &Timestamp)
    ensures
        final(out)@ == old(out)@ + enc_ts(*t),
{
    push_num(out, t.year);
    push_num(out, t.month);
    push_num(out, t.day);
    push_num(out, t.hour);
    push_num(out, t.minute);
    push_num(out, t.second);
    push_num(out, t.nanos);
    proof {
        assert(out@ =~= old(out)@ + enc_ts(*t));
    }
}

/// Read one timestamp.
fn read_ts(s: &str, pos: usize) -> (r: Option<(Timestamp, usize)>)
    requires
        pos <= s@.len(),
    ensures
        match dec_ts(s@, pos as int) {
            Some(v) => r matches Some(p) && p.0 == v.0 && p.1 == v.1,
            None => r is None,
        },
{
    let (year, p1) = match read_num(s, pos) {
        None => {
            return None;
        },
        Some(x) => x,
    };
    let (month, p2) = match read_num(s, p1) {
        None => {
            return None;
        },
        Some(x) => x,
    };
    let (day, p3) = match read_num(s, p2) {
        None => {
            return None;
        },
        Some(x) => x,
    };
    let (hour, p4) = match read_num(s, p3) {
        None => {
            return None;
        },
        Some(x) => x,
    };
    let (minute, p5) = match read_num(s, p4) {
        None => {
            return None;
        },
        Some(x) => x,
    };
    let (second, p6) = match read_num(s, p5) {
        None => {
            return None;
        },
        Some(x) => x,
    };
    let (nanos, p7) = match read_num(s, p6) {
        None => {
            return None;
        },
        Some(x) => x,
    };
    Some((Timestamp { year, month, day, hour, minute, second, nanos }, p7))
}


proof fn lemma_enc_str_len(x: Seq<char>)
    ensures
        enc_str(x).len() == 10 + x.len(),
{
    lemma_enc_num_w_len(x.len() as int, 10);
}

proof fn lemma_enc_ts_len(t: Timestamp)
    ensures
        enc_ts(t).len() == 70,
{
    lemma_enc_num_w_len(t.year as int, 10);
    lemma_enc_num_w_len(t.month as int, 10);
    lemma_enc_num_w_len(t.day as int, 10);
    lemma_enc_num_w_len(t.hour as int, 10);
    lemma_enc_num_w_len(t.minute as int, 10);
    lemma_enc_num_w_len(t.second as int, 10);
    lemma_enc_num_w_len(t.nanos as int, 10);
}

/// A topology event in the container: a tag character, the timestamp, the
/// hostname.
pub open spec fn enc_topo(e: TopoEventV) -> Seq<char> {
    (if e.connecting {
        seq!['C']
    } else {
        seq!['D']
    }) + enc_ts(e.ts) + enc_str(e.host)
}

/// What reading a topology event at `pos` yields.
pub open spec fn dec_topo(s: Seq<char>, pos: int) -> Option<(TopoEventV, int)> {
    if 0 <= pos < s.len() && (s[pos] == 'C' || s[pos] == 'D') {
        match dec_ts(s, pos + 1) {
            Option::Some(t) => match dec_str(s, t.1) {
                Option::Some(h) => Some(
                    (TopoEventV { connecting: s[pos] == 'C', ts: t.0, host: h.0 }, h.1),
                ),
                Option::None => None,
            },
            Option::None => None,
        }
    } else {
        None
    }
}

proof fn lemma_topo_round_trip(s: Seq<char>, pos: int, e: TopoEventV)
    requires
        0 <= pos,
        e.host.len() <= u32::MAX,
        pos + enc_topo(e).len() <= s.len(),
        s.subrange(pos, pos + enc_topo(e).len() as int) == enc_topo(e),
    ensures
        enc_topo(e).len() == 81 + e.host.len(),
        dec_topo(s, pos) == Some((e, pos + enc_topo(e).len() as int)),
{
    let whole = enc_topo(e);
    lemma_enc_ts_len(e.ts);
    lemma_enc_str_len(e.host);
    assert(s[pos] == whole[0]);
    assert forall|i: int| 0 <= i < 70 implies enc_ts(e.ts)[i] == whole[1 + i] by {}
    lemma_window(s, pos, 1, enc_ts(e.ts), whole);
    lemma_ts_round_trip(s, pos + 1, e.ts);
    assert forall|i: int|
        0 <= i < enc_str(e.host).len() implies enc_str(e.host)[i] == whole[71 + i] by {}
    lemma_window(s, pos, 71, enc_str(e.host), whole);
    lemma_str_round_trip(s, pos + 71, e.host);
}

/// A pair list in the container: each key and value as a string, in order.
pub open spec fn enc_pairs(ps: Seq<(Seq<char>, Seq<char>)>) -> Seq<char>
    decreases ps.len(),
{
    if ps.len() == 0 {
        Seq::empty()
    } else {
        enc_str(ps.first().0) + enc_str(ps.first().1) + enc_pairs(ps.drop_first())
    }
}

/// What reading `n` pairs at `pos` yields.
pub open spec fn dec_pairs(s: Seq<char>, pos: int, n: int) -> Option<
    (Seq<(Seq<char>, Seq<char>)>, int),
>
    decreases n,
{
    if n <= 0 {
        Some((Seq::empty(), pos))
    } else {
        match dec_str(s, pos) {
            Option::Some(k) => match dec_str(s, k.1) {
                Option::Some(v) => match dec_pairs(s, v.1, n - 1) {
                    Option::Some(rest) => Some((seq![(k.0, v.0)] + rest.0, rest.1)),
                    Option::None => None,
                },
                Option::None => None,
            },
            Option::None => None,
        }
    }
}

/// Every string in the pair list fits the length field of the container.
pub open spec fn encodable_pairs(ps: Seq<(Seq<char>, Seq<char>)>) -> bool {
    ps.len() <= u32::MAX && (forall|i: int|
        0 <= i < ps.len() ==> (#[trigger] ps[i]).0.len() <= u32::MAX && ps[i].1.len() <= u32::MAX)
}

proof fn lemma_pairs_round_trip(s: Seq<char>, pos: int, ps: Seq<(Seq<char>, Seq<char>)>)
    requires
        0 <= pos,
        encodable_pairs(ps),
        pos + enc_pairs(ps).len() <= s.len(),
        s.subrange(pos, pos + enc_pairs(ps).len() as int) == enc_pairs(ps),
    ensures
        dec_pairs(s, pos, ps.len() as int) == Some((ps, pos + enc_pairs(ps).len() as int)),
    decreases ps.len(),
{
    if ps.len() == 0 {
        assert(ps =~= Seq::<(Seq<char>, Seq<char>)>::empty());
    } else {
        let k = ps.first().0;
        let v = ps.first().1;
        let rest = ps.drop_first();
        let whole = enc_pairs(ps);
        lemma_enc_str_len(k);
        lemma_enc_str_len(v);
        assert(ps[0] == ps.first());
        assert(k.len() <= u32::MAX && v.len() <= u32::MAX);
        let lk = 10 + k.len() as int;
        let lv = 10 + v.len() as int;
        assert forall|i: int| 0 <= i < lk implies enc_str(k)[i] == whole[0 + i] by {}
        lemma_window(s, pos, 0, enc_str(k), whole);
        lemma_str_round_trip(s, pos, k);
        assert forall|i: int| 0 <= i < lv implies enc_str(v)[i] == whole[lk + i] by {}
        lemma_window(s, pos, lk, enc_str(v), whole);
        lemma_str_round_trip(s, pos + lk, v);
        assert forall|i: int|
            0 <= i < enc_pairs(rest).len() implies enc_pairs(rest)[i] == whole[lk + lv + i] by {}
        lemma_window(s, pos, lk + lv, enc_pairs(rest), whole);
        assert(encodable_pairs(rest)) by {
            assert(forall|i: int| 0 <= i < rest.len() ==> #[trigger] rest[i] == ps[i + 1]);
        }
        lemma_pairs_round_trip(s, pos + lk + lv, rest);
        assert(seq![(k, v)] + rest =~= ps);
    }
}

/// A client event in the container: the timestamp, the number of settings,
/// then the pairs.
pub open spec fn enc_client(e: ClientEventV) -> Seq<char> {
    enc_ts(e.ts) + enc_num(e.settings.len() as int) + enc_pairs(e.settings)
}

/// What reading a client event at `pos` yields.
pub open spec fn dec_client(s: Seq<char>, pos: int) -> Option<(ClientEventV, int)> {
    match dec_ts(s, pos) {
        Option::Some(t) => match dec_num(s, t.1) {
            Option::Some(n) => match dec_pairs(s, n.1, n.0 as int) {
                Option::Some(ps) => Some((ClientEventV { ts: t.0, settings: ps.0 }, ps.1)),
                Option::None => None,
            },
            Option::None => None,
        },
        Option::None => None,
    }
}

proof fn lemma_client_round_trip(s: Seq<char>, pos: int, e: ClientEventV)
    requires
        0 <= pos,
        encodable_pairs(e.settings),
        pos + enc_client(e).len() <= s.len(),
        s.subrange(pos, pos + enc_client(e).len() as int) == enc_client(e),
    ensures
        enc_client(e).len() == 80 + enc_pairs(e.settings).len(),
        dec_client(s, pos) == Some((e, pos + enc_client(e).len() as int)),
{
    let whole = enc_client(e);
    lemma_enc_ts_len(e.ts);
    lemma_enc_num_w_len(e.settings.len() as int, 10);
    assert forall|i: int| 0 <= i < 70 implies enc_ts(e.ts)[i] == whole[0 + i] by {}
    lemma_window(s, pos, 0, enc_ts(e.ts), whole);
    lemma_ts_round_trip(s, pos, e.ts);
    assert forall|i: int|
        0 <= i < 10 implies enc_num(e.settings.len() as int)[i] == whole[70 + i] by {}
    lemma_window(s, pos, 70, enc_num(e.settings.len() as int), whole);
    lemma_num_round_trip(s, pos + 70, e.settings.len() as u32);
    assert forall|i: int|
        0 <= i < enc_pairs(e.settings).len() implies enc_pairs(e.settings)[i] == whole[80
        + i] by {}
    lemma_window(s, pos, 80, enc_pairs(e.settings), whole);
    lemma_pairs_round_trip(s, pos + 80, e.settings);
}

/// An error event in the container: the timestamp, the bucket, the
/// hostname.
pub open spec fn enc_error(e: ErrorEventV) -> Seq<char> {
    enc_ts(e.ts) + enc_str(e.bucket) + enc_str(e.host)
}

/// What reading an error event at `pos` yields.
pub open spec fn dec_error(s: Seq<char>, pos: int) -> Option<(ErrorEventV, int)> {
    match dec_ts(s, pos) {
        Option::Some(t) => match dec_str(s, t.1) {
            Option::Some(b) => match dec_str(s, b.1) {
                Option::Some(h) => Some(
                    (ErrorEventV { ts: t.0, bucket: b.0, host: h.0 }, h.1),
                ),
                Option::None => None,
            },
            Option::None => None,
        },
        Option::None => None,
    }
}

proof fn lemma_error_round_trip(s: Seq<char>, pos: int, e: ErrorEventV)
    requires
        0 <= pos,
        e.bucket.len() <= u32::MAX,
        e.host.len() <= u32::MAX,
        pos + enc_error(e).len() <= s.len(),
        s.subrange(pos, pos + enc_error(e).len() as int) == enc_error(e),
    ensures
        enc_error(e).len() == 90 + e.bucket.len() + e.host.len(),
        dec_error(s, pos) == Some((e, pos + enc_error(e).len() as int)),
{
    let whole = enc_error(e);
    lemma_enc_ts_len(e.ts);
    lemma_enc_str_len(e.bucket);
    lemma_enc_str_len(e.host);
    let lb = 10 + e.bucket.len() as int;
    assert forall|i: int| 0 <= i < 70 implies enc_ts(e.ts)[i] == whole[0 + i] by {}
    lemma_window(s, pos, 0, enc_ts(e.ts), whole);
    lemma_ts_round_trip(s, pos, e.ts);
    assert forall|i: int| 0 <= i < lb implies enc_str(e.bucket)[i] == whole[70 + i] by {}
    lemma_window(s, pos, 70, enc_str(e.bucket), whole);
    lemma_str_round_trip(s, pos + 70, e.bucket);
    assert forall|i: int|
        0 <= i < enc_str(e.host).len() implies enc_str(e.host)[i] == whole[70 + lb + i] by {}
    lemma_window(s, pos, 70 + lb, enc_str(e.host), whole);
    lemma_str_round_trip(s, pos + 70 + lb, e.host);
}

/// The topology events, one after the other.
pub open spec fn enc_topo_list(es: Seq<TopoEventV>) -> Seq<char>
    decreases es.len(),
{
    if es.len() == 0 {
        Seq::empty()
    } else {
        enc_topo(es.first()) + enc_topo_list(es.drop_first())
    }
}

/// What reading `n` topology events at `pos` yields.
pub open spec fn dec_topo_list(s: Seq<char>, pos: int, n: int) -> Option<(Seq<TopoEventV>, int)>
    decreases n,
{
    if n <= 0 {
        Some((Seq::empty(), pos))
    } else {
        match dec_topo(s, pos) {
            Option::Some(e) => match dec_topo_list(s, e.1, n - 1) {
                Option::Some(rest) => Some((seq![e.0] + rest.0, rest.1)),
                Option::None => None,
            },
            Option::None => None,
        }
    }
}

/// The client events, one after the other.
pub open spec fn enc_client_list(es: Seq<ClientEventV>) -> Seq<char>
    decreases es.len(),
{
    if es.len() == 0 {
        Seq::empty()
    } else {
        enc_client(es.first()) + enc_client_list(es.drop_first())
    }
}

/// What reading `n` client events at `pos` yields.
pub open spec fn dec_client_list(s: Seq<char>, pos: int, n: int) -> Option<
    (Seq<ClientEventV>, int),
>
    decreases n,
{
    if n <= 0 {
        Some((Seq::empty(), pos))
    } else {
        match dec_client(s, pos) {
            Option::Some(e) => match dec_client_list(s, e.1, n - 1) {
                Option::Some(rest) => Some((seq![e.0] + rest.0, rest.1)),
                Option::None => None,
            },
            Option::None => None,
        }
    }
}

/// The error events, one after the other.
pub open spec fn enc_error_list(es: Seq<ErrorEventV>) -> Seq<char>
    decreases es.len(),
{
    if es.len() == 0 {
        Seq::empty()
    } else {
        enc_error(es.first()) + enc_error_list(es.drop_first())
    }
}

/// What reading `n` error events at `pos` yields.
pub open spec fn dec_error_list(s: Seq<char>, pos: int, n: int) -> Option<(Seq<ErrorEventV>, int)>
    decreases n,
{
    if n <= 0 {
        Some((Seq::empty(), pos))
    } else {
        match dec_error(s, pos) {
            Option::Some(e) => match dec_error_list(s, e.1, n - 1) {
                Option::Some(rest) => Some((seq![e.0] + rest.0, rest.1)),
                Option::None => None,
            },
            Option::None => None,
        }
    }
}

/// Every count and string length in the index fits the length field of the
/// container.
pub open spec fn encodable(v: EventIndexV) -> bool {
    &&& v.topo.len() <= u32::MAX
    &&& v.client.len() <= u32::MAX
    &&& v.error.len() <= u32::MAX
    &&& forall|i: int| 0 <= i < v.topo.len() ==> (#[trigger] v.topo[i]).host.len() <= u32::MAX
    &&& forall|i: int|
        0 <= i < v.client.len() ==> encodable_pairs((#[trigger] v.client[i]).settings)
    &&& forall|i: int|
        0 <= i < v.error.len() ==> (#[trigger] v.error[i]).bucket.len() <= u32::MAX && v.error[
            i
        ].host.len() <= u32::MAX
}

/// The whole container: each event sequence, counted, in a fixed order.
pub open spec fn enc_index(v: EventIndexV) -> Seq<char> {
    enc_num(v.topo.len() as int) + enc_topo_list(v.topo) + enc_num(v.client.len() as int)
        + enc_client_list(v.client) + enc_num(v.error.len() as int) + enc_error_list(v.error)
}

/// What a whole container denotes: the three sequences, when the text
/// parses completely and nothing trails.
pub open spec fn dec_index(s: Seq<char>) -> Option<EventIndexV> {
    match dec_num(s, 0) {
        Option::Some(nt) => match dec_topo_list(s, nt.1, nt.0 as int) {
            Option::Some(ts) => match dec_num(s, ts.1) {
                Option::Some(nc) => match dec_client_list(s, nc.1, nc.0 as int) {
                    Option::Some(cs) => match dec_num(s, cs.1) {
                        Option::Some(ne) => match dec_error_list(s, ne.1, ne.0 as int) {
                            Option::Some(es) => {
                                if es.1 == s.len() {
                                    Some(EventIndexV { topo: ts.0, client: cs.0, error: es.0 })
                                } else {
                                    None
                                }
                            },
                            Option::None => None,
                        },
                        Option::None => None,
                    },
                    Option::None => None,
                },
                Option::None => None,
            },
            Option::None => None,
        },
        Option::None => None,
    }
}

proof fn lemma_topo_list_round_trip(s: Seq<char>, pos: int, es: Seq<TopoEventV>)
    requires
        0 <= pos,
        forall|i: int| 0 <= i < es.len() ==> (#[trigger] es[i]).host.len() <= u32::MAX,
        pos + enc_topo_list(es).len() <= s.len(),
        s.subrange(pos, pos + enc_topo_list(es).len() as int) == enc_topo_list(es),
    ensures
        dec_topo_list(s, pos, es.len() as int) == Some(
            (es, pos + enc_topo_list(es).len() as int),
        ),
    decreases es.len(),
{
    if es.len() == 0 {
        assert(es =~= Seq::<TopoEventV>::empty());
    } else {
        let e = es.first();
        let rest = es.drop_first();
        let whole = enc_topo_list(es);
        assert(es[0] == e);
        let le = enc_topo(e).len() as int;
        assert forall|i: int| 0 <= i < le implies enc_topo(e)[i] == whole[0 + i] by {}
        lemma_window(s, pos, 0, enc_topo(e), whole);
        lemma_topo_round_trip(s, pos, e);
        assert forall|i: int|
            0 <= i < enc_topo_list(rest).len() implies enc_topo_list(rest)[i] == whole[le
            + i] by {}
        lemma_window(s, pos, le, enc_topo_list(rest), whole);
        assert(forall|i: int| 0 <= i < rest.len() ==> #[trigger] rest[i] == es[i + 1]);
        lemma_topo_list_round_trip(s, pos + le, rest);
        assert(seq![e] + rest =~= es);
    }
}

proof fn lemma_client_list_round_trip(s: Seq<char>, pos: int, es: Seq<ClientEventV>)
    requires
        0 <= pos,
        forall|i: int| 0 <= i < es.len() ==> encodable_pairs((#[trigger] es[i]).settings),
        pos + enc_client_list(es).len() <= s.len(),
        s.subrange(pos, pos + enc_client_list(es).len() as int) == enc_client_list(es),
    ensures
        dec_client_list(s, pos, es.len() as int) == Some(
            (es, pos + enc_client_list(es).len() as int),
        ),
    decreases es.len(),
{
    if es.len() == 0 {
        assert(es =~= Seq::<ClientEventV>::empty());
    } else {
        let e = es.first();
        let rest = es.drop_first();
        let whole = enc_client_list(es);
        assert(es[0] == e);
        let le = enc_client(e).len() as int;
        assert forall|i: int| 0 <= i < le implies enc_client(e)[i] == whole[0 + i] by {}
        lemma_window(s, pos, 0, enc_client(e), whole);
        lemma_client_round_trip(s, pos, e);
        assert forall|i: int|
            0 <= i < enc_client_list(rest).len() implies enc_client_list(rest)[i] == whole[le
            + i] by {}
        lemma_window(s, pos, le, enc_client_list(rest), whole);
        assert(forall|i: int| 0 <= i < rest.len() ==> #[trigger] rest[i] == es[i + 1]);
        lemma_client_list_round_trip(s, pos + le, rest);
        assert(seq![e] + rest =~= es);
    }
}

proof fn lemma_error_list_round_trip(s: Seq<char>, pos: int, es: Seq<ErrorEventV>)
    requires
        0 <= pos,
        forall|i: int|
            0 <= i < es.len() ==> (#[trigger] es[i]).bucket.len() <= u32::MAX && es[
                i
            ].host.len() <= u32::MAX,
        pos + enc_error_list(es).len() <= s.len(),
        s.subrange(pos, pos + enc_error_list(es).len() as int) == enc_error_list(es),
    ensures
        dec_error_list(s, pos, es.len() as int) == Some(
            (es, pos + enc_error_list(es).len() as int),
        ),
    decreases es.len(),
{
    if es.len() == 0 {
        assert(es =~= Seq::<ErrorEventV>::empty());
    } else {
        let e = es.first();
        let rest = es.drop_first();
        let whole = enc_error_list(es);
        assert(es[0] == e);
        let le = enc_error(e).len() as int;
        assert forall|i: int| 0 <= i < le implies enc_error(e)[i] == whole[0 + i] by {}
        lemma_window(s, pos, 0, enc_error(e), whole);
        lemma_error_round_trip(s, pos, e);
        assert forall|i: int|
            0 <= i < enc_error_list(rest).len() implies enc_error_list(rest)[i] == whole[le
            + i] by {}
        lemma_window(s, pos, le, enc_error_list(rest), whole);
        assert(forall|i: int| 0 <= i < rest.len() ==> #[trigger] rest[i] == es[i + 1]);
        lemma_error_list_round_trip(s, pos + le, rest);
        assert(seq![e] + rest =~= es);
    }
}

/// Round-trip: decoding an encoded index yields exactly the index encoded,
/// with its event sequences, their order, and every payload value intact.
pub proof fn lemma_round_trip(v: EventIndexV)
    requires
        encodable(v),
    ensures
        dec_index(enc_index(v)) == Some(v),
{
    let s = enc_index(v);
    lemma_enc_num_w_len(v.topo.len() as int, 10);
    lemma_enc_num_w_len(v.client.len() as int, 10);
    lemma_enc_num_w_len(v.error.len() as int, 10);
    let lt = enc_topo_list(v.topo).len() as int;
    let lc = enc_client_list(v.client).len() as int;
    let le = enc_error_list(v.error).len() as int;
    assert(s.subrange(0, s.len() as int) =~= s);
    assert forall|i: int| 0 <= i < 10 implies enc_num(v.topo.len() as int)[i] == s[0 + i] by {}
    lemma_window(s, 0, 0, enc_num(v.topo.len() as int), s);
    lemma_num_round_trip(s, 0, v.topo.len() as u32);
    assert forall|i: int| 0 <= i < lt implies enc_topo_list(v.topo)[i] == s[10 + i] by {}
    lemma_window(s, 0, 10, enc_topo_list(v.topo), s);
    lemma_topo_list_round_trip(s, 10, v.topo);
    assert forall|i: int|
        0 <= i < 10 implies enc_num(v.client.len() as int)[i] == s[10 + lt + i] by {}
    lemma_window(s, 0, 10 + lt, enc_num(v.client.len() as int), s);
    lemma_num_round_trip(s, 10 + lt, v.client.len() as u32);
    assert forall|i: int|
        0 <= i < lc implies enc_client_list(v.client)[i] == s[20 + lt + i] by {}
    lemma_window(s, 0, 20 + lt, enc_client_list(v.client), s);
    lemma_client_list_round_trip(s, 20 + lt, v.client);
    assert forall|i: int|
        0 <= i < 10 implies enc_num(v.error.len() as int)[i] == s[20 + lt + lc + i] by {}
    lemma_window(s, 0, 20 + lt + lc, enc_num(v.error.len() as int), s);
    lemma_num_round_trip(s, 20 + lt + lc, v.error.len() as u32);
    assert forall|i: int|
        0 <= i < le implies enc_error_list(v.error)[i] == s[30 + lt + lc + i] by {}
    lemma_window(s, 0, 30 + lt + lc, enc_error_list(v.error), s);
    lemma_error_list_round_trip(s, 30 + lt + lc, v.error);
}


/// Views of a sequence of topology events.
pub open spec fn topo_views(v: Seq<TopologyEvent>) -> Seq<TopoEventV> {
    v.map_values(|e: TopologyEvent| e@)
}

/// Views of a sequence of client events.
pub open spec fn client_views(v: Seq<ClientEvent>) -> Seq<ClientEventV> {
    v.map_values(|e: ClientEvent| e@)
}

/// Views of a sequence of error events.
pub open spec fn error_views(v: Seq<ErrorEvent>) -> Seq<ErrorEventV> {
    v.map_values(|e: ErrorEvent| e@)
}

proof fn lemma_dec_str_bounds(s: Seq<char>, pos: int)
    ensures
        dec_str(s, pos) matches Some(v) ==> pos < v.1 <= s.len(),
{
}

proof fn lemma_dec_ts_bounds(s: Seq<char>, pos: int)
    ensures
        dec_ts(s, pos) matches Some(v) ==> v.1 == pos + 70 && pos + 70 <= s.len(),
{
}

proof fn lemma_dec_topo_bounds(s: Seq<char>, pos: int)
    ensures
        dec_topo(s, pos) matches Some(v) ==> pos < v.1 <= s.len(),
{
    if dec_topo(s, pos) is Some {
        lemma_dec_ts_bounds(s, pos + 1);
        let t = dec_ts(s, pos + 1)->Some_0;
        lemma_dec_str_bounds(s, t.1);
    }
}

proof fn lemma_dec_client_bounds(s: Seq<char>, pos: int)
    ensures
        dec_client(s, pos) matches Some(v) ==> pos < v.1 <= s.len(),
{
    if dec_client(s, pos) is Some {
        lemma_dec_ts_bounds(s, pos);
        let t = dec_ts(s, pos)->Some_0;
        let n = dec_num(s, t.1)->Some_0;
        lemma_dec_pairs_bounds(s, n.1, n.0 as int);
    }
}

proof fn lemma_dec_pairs_bounds(s: Seq<char>, pos: int, n: int)
    requires
        pos <= s.len(),
    ensures
        dec_pairs(s, pos, n) matches Some(v) ==> pos <= v.1 <= s.len(),
    decreases n,
{
    if n > 0 && dec_pairs(s, pos, n) is Some {
        let k = dec_str(s, pos)->Some_0;
        lemma_dec_str_bounds(s, pos);
        lemma_dec_str_bounds(s, k.1);
        let v = dec_str(s, k.1)->Some_0;
        lemma_dec_pairs_bounds(s, v.1, n - 1);
    }
}

proof fn lemma_dec_error_bounds(s: Seq<char>, pos: int)
    ensures
        dec_error(s, pos) matches Some(v) ==> pos < v.1 <= s.len(),
{
    if dec_error(s, pos) is Some {
        lemma_dec_ts_bounds(s, pos);
        let t = dec_ts(s, pos)->Some_0;
        lemma_dec_str_bounds(s, t.1);
        let b = dec_str(s, t.1)->Some_0;
        lemma_dec_str_bounds(s, b.1);
    }
}

/// Write one topology event.
fn push_topo(out: &mut String, ev: &TopologyEvent)
    requires
        ev@.host.len() <= u32::MAX,
    ensures
        final(out)@ == old(out)@ + enc_topo(ev@),
{
    match ev {
        TopologyEvent::ConnectingNode(t, h) => {
            proof {
                reveal_strlit("C");
                assert("C"@ =~= seq!['C']);
            }
            out.append("C");
            push_ts(out, t);
            push_str_chunk(out, h.as_str());
        },
        TopologyEvent::DisconnectingNode(t, h) => {
            proof {
                reveal_strlit("D");
                assert("D"@ =~= seq!['D']);
            }
            out.append("D");
            push_ts(out, t);
            push_str_chunk(out, h.as_str());
        },
    }
    proof {
        assert(out@ =~= old(out)@ + enc_topo(ev@));
    }
}

/// Write one client event.
fn push_client(out: &mut String, ev: &ClientEvent)
    requires
        encodable_pairs(ev@.settings),
    ensures
        final(out)@ == old(out)@ + enc_client(ev@),
{
    match ev {
        ClientEvent::ClientInit(t, cs) => {
            push_ts(out, t);
            let n = cs.len();
            push_num(out, n as u32);
            let ghost base = out@;
            let ghost ps = cs.pairs();
            let mut j: usize = 0;
            proof {
                assert(ps.skip(0) =~= ps);
            }
            while j < n
                invariant
                    n == ps.len(),
                    j <= n,
                    ps == cs.pairs(),
                    encodable_pairs(ps),
                    out@ + enc_pairs(ps.skip(j as int)) == base + enc_pairs(ps),
                decreases n - j,
            {
                let p = cs.pair_at(j);
                proof {
                    assert(ps.skip(j as int).first() == ps[j as int]);
                    assert(ps.skip(j as int).drop_first() =~= ps.skip(j + 1));
                    assert(ps[j as int].0.len() <= u32::MAX && ps[j as int].1.len()
                        <= u32::MAX);
                }
                push_str_chunk(out, p.0.as_str());
                push_str_chunk(out, p.1.as_str());
                proof {
                    assert(out@ + enc_pairs(ps.skip(j + 1)) =~= base + enc_pairs(ps));
                }
                j += 1;
            }
            proof {
                assert(ps.skip(n as int) =~= Seq::<(Seq<char>, Seq<char>)>::empty());
                assert(out@ + enc_pairs(ps.skip(n as int)) =~= out@);
            }
        },
    }
    proof {
        assert(out@ =~= old(out)@ + enc_client(ev@));
    }
}

/// Write one error event.
fn push_error(out: &mut String, ev: &ErrorEvent)
    requires
        ev@.bucket.len() <= u32::MAX,
        ev@.host.len() <= u32::MAX,
    ensures
        final(out)@ == old(out)@ + enc_error(ev@),
{
    match ev {
        ErrorEvent::CarrierRefreshFailed(t, b, h) => {
            push_ts(out, t);
            push_str_chunk(out, b.as_str());
            push_str_chunk(out, h.as_str());
        },
    }
    proof {
        assert(out@ =~= old(out)@ + enc_error(ev@));
    }
}

/// Read one topology event.
fn read_topo(s: &str, pos: usize) -> (r: Option<(TopologyEvent, usize)>)
    requires
        pos <= s@.len(),
    ensures
        match dec_topo(s@, pos as int) {
            Some(v) => r matches Some(p) && p.0@ == v.0 && p.1 == v.1 && p.1 <= s@.len(),
            None => r is None,
        },
{
    proof {
        lemma_dec_topo_bounds(s@, pos as int);
    }
    let len = s.unicode_len();
    if pos >= len {
        return None;
    }
    let c = s.get_char(pos);
    if !(c == 'C' || c == 'D') {
        return None;
    }
    let (t, p1) = match read_ts(s, pos + 1) {
        None => {
            return None;
        },
        Some(x) => x,
    };
    proof {
        lemma_dec_ts_bounds(s@, pos + 1);
    }
    let (h, p2) = match read_str(s, p1) {
        None => {
            return None;
        },
        Some(x) => x,
    };
    if c == 'C' {
        Some((TopologyEvent::ConnectingNode(t, h), p2))
    } else {
        Some((TopologyEvent::DisconnectingNode(t, h), p2))
    }
}

/// Read one client event.
fn read_client(s: &str, pos: usize) -> (r: Option<(ClientEvent, usize)>)
    requires
        pos <= s@.len(),
    ensures
        match dec_client(s@, pos as int) {
            Some(v) => r matches Some(p) && p.0@ == v.0 && p.1 == v.1 && p.1 <= s@.len(),
            None => r is None,
        },
{
    proof {
        lemma_dec_client_bounds(s@, pos as int);
    }
    let (t, p1) = match read_ts(s, pos) {
        None => {
            return None;
        },
        Some(x) => x,
    };
    proof {
        lemma_dec_ts_bounds(s@, pos as int);
    }
    let (n, p2) = match read_num(s, p1) {
        None => {
            return None;
        },
        Some(x) => x,
    };
    let mut cs = crate::settings::ClientSettings::new();
    let mut cur: usize = p2;
    let mut k: u32 = 0;
    proof {
        assert(cs.pairs() + Seq::<(Seq<char>, Seq<char>)>::empty() =~= cs.pairs());
    }
    loop
        invariant
            cur <= s@.len(),
            k <= n,
            pos <= s@.len(),
            dec_ts(s@, pos as int) == Some((t, p1 as int)),
            dec_num(s@, p1 as int) == Some((n, p2 as int)),
            match dec_pairs(s@, cur as int, (n - k) as int) {
                Some(rv) => dec_pairs(s@, p2 as int, n as int) == Some(
                    (cs.pairs() + rv.0, rv.1),
                ),
                None => dec_pairs(s@, p2 as int, n as int) is None,
            },
        ensures
            k == n,
            match dec_pairs(s@, p2 as int, n as int) {
                Some(rv) => cs.pairs() == rv.0 && cur == rv.1,
                None => false,
            },
        decreases n - k,
    {
        if k == n {
            proof {
                assert(cs.pairs() + Seq::<(Seq<char>, Seq<char>)>::empty() =~= cs.pairs());
            }
            break;
        }
        let (key, pk) = match read_str(s, cur) {
            None => {
                return None;
            },
            Some(x) => x,
        };
        proof {
            lemma_dec_str_bounds(s@, cur as int);
        }
        let (val, pv) = match read_str(s, pk) {
            None => {
                return None;
            },
            Some(x) => x,
        };
        proof {
            lemma_dec_str_bounds(s@, pk as int);
        }
        let ghost old_pairs = cs.pairs();
        cs.push_pair(key, val);
        proof {
            let rv = dec_pairs(s@, cur as int, (n - k) as int)->Some_0;
            let rv2 = dec_pairs(s@, pv as int, (n - k - 1) as int)->Some_0;
            if dec_pairs(s@, pv as int, (n - k - 1) as int) is Some {
                assert(old_pairs + rv.0 =~= cs.pairs() + rv2.0);
            }
        }
        cur = pv;
        k = k + 1;
    }
    Some((ClientEvent::ClientInit(t, cs), cur))
}

/// Read one error event.
fn read_error(s: &str, pos: usize) -> (r: Option<(ErrorEvent, usize)>)
    requires
        pos <= s@.len(),
    ensures
        match dec_error(s@, pos as int) {
            Some(v) => r matches Some(p) && p.0@ == v.0 && p.1 == v.1 && p.1 <= s@.len(),
            None => r is None,
        },
{
    proof {
        lemma_dec_error_bounds(s@, pos as int);
    }
    let (t, p1) = match read_ts(s, pos) {
        None => {
            return None;
        },
        Some(x) => x,
    };
    proof {
        lemma_dec_ts_bounds(s@, pos as int);
    }
    let (b, p2) = match read_str(s, p1) {
        None => {
            return None;
        },
        Some(x) => x,
    };
    proof {
        lemma_dec_str_bounds(s@, p1 as int);
    }
    let (h, p3) = match read_str(s, p2) {
        None => {
            return None;
        },
        Some(x) => x,
    };
    Some((ErrorEvent::CarrierRefreshFailed(t, b, h), p3))
}


/// Read `n` topology events.
fn read_topo_list(s: &str, pos: usize, n: u32) -> (r: Option<(Vec<TopologyEvent>, usize)>)
    requires
        pos <= s@.len(),
    ensures
        match dec_topo_list(s@, pos as int, n as int) {
            Some(v) => r matches Some(p) && topo_views(p.0@) == v.0 && p.1 == v.1 && p.1
                <= s@.len(),
            None => r is None,
        },
{
    let mut acc: Vec<TopologyEvent> = Vec::new();
    let mut cur: usize = pos;
    let mut k: u32 = 0;
    loop
        invariant
            cur <= s@.len(),
            k <= n,
            match dec_topo_list(s@, cur as int, (n - k) as int) {
                Some(rv) => dec_topo_list(s@, pos as int, n as int) == Some(
                    (topo_views(acc@) + rv.0, rv.1),
                ),
                None => dec_topo_list(s@, pos as int, n as int) is None,
            },
        ensures
            cur <= s@.len(),
            match dec_topo_list(s@, pos as int, n as int) {
                Some(rv) => topo_views(acc@) == rv.0 && cur == rv.1,
                None => false,
            },
        decreases n - k,
    {
        if k == n {
            proof {
                assert(topo_views(acc@) + Seq::<TopoEventV>::empty() =~= topo_views(acc@));
            }
            break;
        }
        let (e, p) = match read_topo(s, cur) {
            None => {
                return None;
            },
            Some(x) => x,
        };
        let ghost old_views = topo_views(acc@);
        acc.push(e);
        proof {
            assert(topo_views(acc@) =~= old_views + seq![e@]);
            if dec_topo_list(s@, p as int, (n - k - 1) as int) is Some {
                let rv2 = dec_topo_list(s@, p as int, (n - k - 1) as int)->Some_0;
                assert(old_views + (seq![e@] + rv2.0) =~= topo_views(acc@) + rv2.0);
            }
        }
        cur = p;
        k = k + 1;
    }
    Some((acc, cur))
}

/// Read `n` client events.
fn read_client_list(s: &str, pos: usize, n: u32) -> (r: Option<(Vec<ClientEvent>, usize)>)
    requires
        pos <= s@.len(),
    ensures
        match dec_client_list(s@, pos as int, n as int) {
            Some(v) => r matches Some(p) && client_views(p.0@) == v.0 && p.1 == v.1 && p.1
                <= s@.len(),
            None => r is None,
        },
{
    let mut acc: Vec<ClientEvent> = Vec::new();
    let mut cur: usize = pos;
    let mut k: u32 = 0;
    loop
        invariant
            cur <= s@.len(),
            k <= n,
            match dec_client_list(s@, cur as int, (n - k) as int) {
                Some(rv) => dec_client_list(s@, pos as int, n as int) == Some(
                    (client_views(acc@) + rv.0, rv.1),
                ),
                None => dec_client_list(s@, pos as int, n as int) is None,
            },
        ensures
            cur <= s@.len(),
            match dec_client_list(s@, pos as int, n as int) {
                Some(rv) => client_views(acc@) == rv.0 && cur == rv.1,
                None => false,
            },
        decreases n - k,
    {
        if k == n {
            proof {
                assert(client_views(acc@) + Seq::<ClientEventV>::empty() =~= client_views(
                    acc@,
                ));
            }
            break;
        }
        let (e, p) = match read_client(s, cur) {
            None => {
                return None;
            },
            Some(x) => x,
        };
        let ghost old_views = client_views(acc@);
        acc.push(e);
        proof {
            assert(client_views(acc@) =~= old_views + seq![e@]);
            if dec_client_list(s@, p as int, (n - k - 1) as int) is Some {
                let rv2 = dec_client_list(s@, p as int, (n - k - 1) as int)->Some_0;
                assert(old_views + (seq![e@] + rv2.0) =~= client_views(acc@) + rv2.0);
            }
        }
        cur = p;
        k = k + 1;
    }
    Some((acc, cur))
}

/// Read `n` error events.
fn read_error_list(s: &str, pos: usize, n: u32) -> (r: Option<(Vec<ErrorEvent>, usize)>)
    requires
        pos <= s@.len(),
    ensures
        match dec_error_list(s@, pos as int, n as int) {
            Some(v) => r matches Some(p) && error_views(p.0@) == v.0 && p.1 == v.1 && p.1
                <= s@.len(),
            None => r is None,
        },
{
    let mut acc: Vec<ErrorEvent> = Vec::new();
    let mut cur: usize = pos;
    let mut k: u32 = 0;
    loop
        invariant
            cur <= s@.len(),
            k <= n,
            match dec_error_list(s@, cur as int, (n - k) as int) {
                Some(rv) => dec_error_list(s@, pos as int, n as int) == Some(
                    (error_views(acc@) + rv.0, rv.1),
                ),
                None => dec_error_list(s@, pos as int, n as int) is None,
            },
        ensures
            cur <= s@.len(),
            match dec_error_list(s@, pos as int, n as int) {
                Some(rv) => error_views(acc@) == rv.0 && cur == rv.1,
                None => false,
            },
        decreases n - k,
    {
        if k == n {
            proof {
                assert(error_views(acc@) + Seq::<ErrorEventV>::empty() =~= error_views(acc@));
            }
            break;
        }
        let (e, p) = match read_error(s, cur) {
            None => {
                return None;
            },
            Some(x) => x,
        };
        let ghost old_views = error_views(acc@);
        acc.push(e);
        proof {
            assert(error_views(acc@) =~= old_views + seq![e@]);
            if dec_error_list(s@, p as int, (n - k - 1) as int) is Some {
                let rv2 = dec_error_list(s@, p as int, (n - k - 1) as int)->Some_0;
                assert(old_views + (seq![e@] + rv2.0) =~= error_views(acc@) + rv2.0);
            }
        }
        cur = p;
        k = k + 1;
    }
    Some((acc, cur))
}

impl EventIndex {
    /// Whether every count and string length fits the container's fields.
    pub fn check_encodable(&self) -> (r: bool)
        ensures
            r == encodable(self@),
    {
        let nt = self.topo_events.len();
        let nc = self.client_events.len();
        let ne = self.error_events.len();
        if (nt as u64) > (u32::MAX as u64) || (nc as u64) > (u32::MAX as u64) || (ne as u64)
            > (u32::MAX as u64) {
            return false;
        }
        let mut i: usize = 0;
        while i < nt
            invariant
                nt == self.topo_events@.len(),
                i <= nt,
                forall|j: int| 0 <= j < i ==> (#[trigger] self@.topo[j]).host.len() <= u32::MAX,
            decreases nt - i,
        {
            let h = match &self.topo_events[i] {
                TopologyEvent::ConnectingNode(_, h) => h,
                TopologyEvent::DisconnectingNode(_, h) => h,
            };
            proof {
                assert(self@.topo[i as int] == self.topo_events@[i as int]@);
                assert(self@.topo[i as int].host == h@);
            }
            if (h.as_str().unicode_len() as u64) > (u32::MAX as u64) {
                return false;
            }
            i += 1;
        }
        let mut i: usize = 0;
        while i < nc
            invariant
                nc == self.client_events@.len(),
                i <= nc,
                forall|j: int|
                    0 <= j < i ==> encodable_pairs((#[trigger] self@.client[j]).settings),
            decreases nc - i,
        {
            let cs = match &self.client_events[i] {
                ClientEvent::ClientInit(_, cs) => cs,
            };
            proof {
                assert(self@.client[i as int] == self.client_events@[i as int]@);
                assert(self@.client[i as int].settings == cs.pairs());
            }
            let np = cs.len();
            if (np as u64) > (u32::MAX as u64) {
                return false;
            }
            let mut j: usize = 0;
            while j < np
                invariant
                    np == cs.pairs().len(),
                    j <= np,
                    i < nc == self.client_events@.len(),
                    self@.client[i as int].settings == cs.pairs(),
                    forall|m: int|
                        0 <= m < j ==> (#[trigger] cs.pairs()[m]).0.len() <= u32::MAX
                            && cs.pairs()[m].1.len() <= u32::MAX,
                decreases np - j,
            {
                let p = cs.pair_at(j);
                if (p.0.as_str().unicode_len() as u64) > (u32::MAX as u64) || (
                p.1.as_str().unicode_len() as u64) > (u32::MAX as u64) {
                    proof {
                        assert(!encodable_pairs(cs.pairs()));
                    }
                    return false;
                }
                j += 1;
            }
            i += 1;
        }
        let mut i: usize = 0;
        while i < ne
            invariant
                ne == self.error_events@.len(),
                i <= ne,
                forall|j: int|
                    0 <= j < i ==> (#[trigger] self@.error[j]).bucket.len() <= u32::MAX
                        && self@.error[j].host.len() <= u32::MAX,
            decreases ne - i,
        {
            let (b, h) = match &self.error_events[i] {
                ErrorEvent::CarrierRefreshFailed(_, b, h) => (b, h),
            };
            proof {
                assert(self@.error[i as int] == self.error_events@[i as int]@);
                assert(self@.error[i as int].bucket == b@ && self@.error[i as int].host == h@);
            }
            if (b.as_str().unicode_len() as u64) > (u32::MAX as u64) || (
            h.as_str().unicode_len() as u64) > (u32::MAX as u64) {
                return false;
            }
            i += 1;
        }
        true
    }

    /// Write the whole index into one self-describing textual container.
    /// `None` exactly when some count or string length does not fit the
    /// container's fields.
    pub fn serialize(&self) -> (r: Option<String>)
        ensures
            match r {
                Some(out) => encodable(self@) && out@ == enc_index(self@),
                None => !encodable(self@),
            },
    {
        if !self.check_encodable() {
            return None;
        }
        let mut out = String::new();
        let nt = self.topo_events.len();
        push_num(&mut out, nt as u32);
        proof {
            assert(Seq::<char>::empty() + enc_num(nt as int) =~= enc_num(nt as int));
            assert(self@.topo.skip(0) =~= self@.topo);
        }
        let ghost base1 = out@;
        let mut i: usize = 0;
        while i < nt
            invariant
                nt == self.topo_events@.len(),
                i <= nt,
                encodable(self@),
                out@ + enc_topo_list(self@.topo.skip(i as int)) == base1 + enc_topo_list(
                    self@.topo,
                ),
            decreases nt - i,
        {
            proof {
                assert(self@.topo.skip(i as int).first() == self@.topo[i as int]);
                assert(self@.topo.skip(i as int).drop_first() =~= self@.topo.skip(i + 1));
                assert(self@.topo[i as int] == self.topo_events@[i as int]@);
            }
            let ghost pre = out@;
            push_topo(&mut out, &self.topo_events[i]);
            proof {
                assert(out@ + enc_topo_list(self@.topo.skip(i + 1)) =~= pre + enc_topo_list(
                    self@.topo.skip(i as int),
                ));
            }
            i += 1;
        }
        proof {
            assert(self@.topo.skip(nt as int) =~= Seq::<TopoEventV>::empty());
            assert(out@ + enc_topo_list(self@.topo.skip(nt as int)) =~= out@);
        }
        let nc = self.client_events.len();
        push_num(&mut out, nc as u32);
        proof {
            assert(self@.client.skip(0) =~= self@.client);
        }
        let ghost base2 = out@;
        let mut i: usize = 0;
        while i < nc
            invariant
                nc == self.client_events@.len(),
                i <= nc,
                encodable(self@),
                out@ + enc_client_list(self@.client.skip(i as int)) == base2 + enc_client_list(
                    self@.client,
                ),
            decreases nc - i,
        {
            proof {
                assert(self@.client.skip(i as int).first() == self@.client[i as int]);
                assert(self@.client.skip(i as int).drop_first() =~= self@.client.skip(i + 1));
                assert(self@.client[i as int] == self.client_events@[i as int]@);
            }
            let ghost pre = out@;
            push_client(&mut out, &self.client_events[i]);
            proof {
                assert(out@ + enc_client_list(self@.client.skip(i + 1)) =~= pre
                    + enc_client_list(self@.client.skip(i as int)));
            }
            i += 1;
        }
        proof {
            assert(self@.client.skip(nc as int) =~= Seq::<ClientEventV>::empty());
            assert(out@ + enc_client_list(self@.client.skip(nc as int)) =~= out@);
        }
        let ne = self.error_events.len();
        push_num(&mut out, ne as u32);
        proof {
            assert(self@.error.skip(0) =~= self@.error);
        }
        let ghost base3 = out@;
        let mut i: usize = 0;
        while i < ne
            invariant
                ne == self.error_events@.len(),
                i <= ne,
                encodable(self@),
                out@ + enc_error_list(self@.error.skip(i as int)) == base3 + enc_error_list(
                    self@.error,
                ),
            decreases ne - i,
        {
            proof {
                assert(self@.error.skip(i as int).first() == self@.error[i as int]);
                assert(self@.error.skip(i as int).drop_first() =~= self@.error.skip(i + 1));
                assert(self@.error[i as int] == self.error_events@[i as int]@);
            }
            let ghost pre = out@;
            push_error(&mut out, &self.error_events[i]);
            proof {
                assert(out@ + enc_error_list(self@.error.skip(i + 1)) =~= pre + enc_error_list(
                    self@.error.skip(i as int),
                ));
            }
            i += 1;
        }
        proof {
            assert(self@.error.skip(ne as int) =~= Seq::<ErrorEventV>::empty());
            assert(out@ + enc_error_list(self@.error.skip(ne as int)) =~= out@);
            assert(out@ =~= enc_index(self@));
        }
        Some(out)
    }

    /// Read an index back from a container. `None` exactly when the text is
    /// not a complete, well-formed container.
    pub fn deserialize(s: &str) -> (r: Option<EventIndex>)
        ensures
            match dec_index(s@) {
                Some(v) => r matches Some(idx) && idx@ == v,
                None => r is None,
            },
{
        let len = s.unicode_len();
        let (nt, p1) = match read_num(s, 0) {
            None => {
                return None;
            },
            Some(x) => x,
        };
        let (topo, p2) = match read_topo_list(s, p1, nt) {
            None => {
                return None;
            },
            Some(x) => x,
        };
        let (nc, p3) = match read_num(s, p2) {
            None => {
                return None;
            },
            Some(x) => x,
        };
        let (client, p4) = match read_client_list(s, p3, nc) {
            None => {
                return None;
            },
            Some(x) => x,
        };
        let (ne, p5) = match read_num(s, p4) {
            None => {
                return None;
            },
            Some(x) => x,
        };
        let (error, p6) = match read_error_list(s, p5, ne) {
            None => {
                return None;
            },
            Some(x) => x,
        };
        if p6 != len {
            return None;
        }
        let idx = EventIndex { topo_events: topo, client_events: client, error_events: error };
        proof {
            assert(idx@.topo =~= topo_views(idx.topo_events@));
            assert(idx@.client =~= client_views(idx.client_events@));
            assert(idx@.error =~= error_views(idx.error_events@));
        }
        Some(idx)
    }
}

} // verus!