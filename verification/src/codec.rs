//! Order codec: a shuffle order (a sequence of image indices) travels inside
//! URLs as a comma-joined decimal token.  Decoding tolerates malformed input:
//! any token with a field that does not parse as a `usize` yields the empty
//! sequence, never a partial result.

use crate::ascii::ascii_bytes;
use crate::ascii::ascii_chars_of;
use crate::ascii::ascii_to_string;
use crate::ascii::lemma_ascii_chars_bytes;
use vstd::prelude::*;
use vstd::string::StringSliceAdditionalSpecFns;
use vstd::utf8::encode_utf8;

verus! {

// ---------------------------------------------------------------------------
// Byte classes
// ---------------------------------------------------------------------------

/// ASCII decimal digit `'0'..='9'`.
pub open spec fn is_digit_byte(b: u8) -> bool {
    48 <= b <= 57
}

/// ASCII hexadecimal digit, either case.
pub open spec fn is_hex_byte(b: u8) -> bool {
    48 <= b <= 57 || 65 <= b <= 70 || 97 <= b <= 102
}

/// Numeric value of an ASCII hexadecimal digit.
pub open spec fn hex_byte_value(b: u8) -> int {
    if 48 <= b <= 57 {
        b - 48
    } else if 65 <= b <= 70 {
        b - 55
    } else {
        b - 87
    }
}

// ---------------------------------------------------------------------------
// Percent-decoding
// ---------------------------------------------------------------------------

/// Percent-decoding of a byte string: `'%'` followed by two hexadecimal
/// digits becomes the denoted byte; every other byte, including a `'%'` not
/// followed by two hexadecimal digits, is passed through unchanged.
pub open spec fn percent_decode_spec(s: Seq<u8>) -> Seq<u8>
    decreases s.len(),
{
    if s.len() == 0 {
        Seq::empty()
    } else if s[0] == 37 && s.len() >= 3 && is_hex_byte(s[1]) && is_hex_byte(s[2]) {
        seq![(hex_byte_value(s[1]) * 16 + hex_byte_value(s[2])) as u8] + percent_decode_spec(
            s.skip(3),
        )
    } else {
        seq![s[0]] + percent_decode_spec(s.skip(1))
    }
}

/// Relies on `percent_encoding::percent_decode`: each `'%'` followed by two
/// hexadecimal digits yields the denoted byte and consumes all three bytes;
/// any other byte is yielded unchanged.
#[verifier::external_body]
fn percent_decode_exec(s: &[u8]) -> (r: Vec<u8>)
    ensures
        r@ == percent_decode_spec(s@),
{
    percent_encoding::percent_decode(s).collect()
}

// ---------------------------------------------------------------------------
// Splitting on commas
// ---------------------------------------------------------------------------

/// Split a byte string at every comma.  Always yields at least one field;
/// the empty string yields one empty field.
pub open spec fn split_commas(s: Seq<u8>) -> Seq<Seq<u8>>
    decreases s.len(),
{
    if s.len() == 0 {
        seq![Seq::<u8>::empty()]
    } else if s[0] == 44 {
        seq![Seq::<u8>::empty()] + split_commas(s.skip(1))
    } else {
        let rest = split_commas(s.skip(1));
        seq![seq![s[0]] + rest[0]] + rest.skip(1)
    }
}

pub proof fn lemma_split_commas_len(s: Seq<u8>)
    ensures
        split_commas(s).len() >= 1,
    decreases s.len(),
{
    if s.len() != 0 {
        lemma_split_commas_len(s.skip(1));
    }
}

// ---------------------------------------------------------------------------
// Decimal fields
// ---------------------------------------------------------------------------

pub open spec fn all_digits(f: Seq<u8>) -> bool {
    forall|i: int| 0 <= i < f.len() ==> is_digit_byte(#[trigger] f[i])
}

/// Value of a string of decimal digits, most significant first.
pub open spec fn digits_val(f: Seq<u8>) -> int
    decreases f.len(),
{
    if f.len() == 0 {
        0
    } else {
        digits_val(f.drop_last()) * 10 + f.last() - 48
    }
}

/// A leading `'+'` sign is accepted, as integer parsing accepts one.
pub open spec fn strip_plus(f: Seq<u8>) -> Seq<u8> {
    if f.len() > 0 && f[0] == 43 {
        f.skip(1)
    } else {
        f
    }
}

/// Whether a field parses as a `usize`: an optional leading `'+'`, then at
/// least one decimal digit, and a value that fits.
pub open spec fn field_ok(f: Seq<u8>) -> bool {
    let d = strip_plus(f);
    d.len() > 0 && all_digits(d) && digits_val(d) <= usize::MAX
}

pub open spec fn field_val(f: Seq<u8>) -> int {
    digits_val(strip_plus(f))
}

// ---------------------------------------------------------------------------
// The codec, as specification
// ---------------------------------------------------------------------------

/// Whether every field of a split token parses.
pub open spec fn all_fields_ok(fields: Seq<Seq<u8>>) -> bool {
    forall|i: int| 0 <= i < fields.len() ==> field_ok(#[trigger] fields[i])
}

/// What decoding a token yields: percent-decode, split at commas, parse every
/// field; if any field fails to parse, the whole result is empty.
pub open spec fn decode_spec(s: Seq<u8>) -> Seq<usize> {
    let fields = split_commas(percent_decode_spec(s));
    if all_fields_ok(fields) {
        Seq::new(fields.len(), |i: int| field_val(fields[i]) as usize)
    } else {
        Seq::empty()
    }
}

/// Decimal representation of a non-negative integer, most significant digit
/// first, no sign and no leading zeros.
pub open spec fn dec_rep(n: int) -> Seq<u8>
    decreases n,
{
    if n < 10 {
        seq![(48 + n) as u8]
    } else {
        dec_rep(n / 10) + seq![(48 + n % 10) as u8]
    }
}

/// What encoding an order yields: the decimal representations of its entries,
/// joined by commas.  The empty order encodes to the empty token.
pub open spec fn encode_spec(p: Seq<usize>) -> Seq<u8>
    decreases p.len(),
{
    if p.len() == 0 {
        Seq::empty()
    } else if p.len() == 1 {
        dec_rep(p[0] as int)
    } else {
        encode_spec(p.drop_last()) + seq![44u8] + dec_rep(p.last() as int)
    }
}

// ---------------------------------------------------------------------------
// Facts about digit strings
// ---------------------------------------------------------------------------

pub proof fn lemma_digits_val_nonneg(f: Seq<u8>)
    requires
        all_digits(f),
    ensures
        digits_val(f) >= 0,
    decreases f.len(),
{
    if f.len() > 0 {
        assert(all_digits(f.drop_last())) by {
            assert forall|k: int| 0 <= k < f.len() - 1 implies is_digit_byte(
                #[trigger] f.drop_last()[k],
            ) by {
                assert(f.drop_last()[k] == f[k]);
            }
        }
        lemma_digits_val_nonneg(f.drop_last());
    }
}

pub proof fn lemma_digits_val_mono(f: Seq<u8>, i: int)
    requires
        all_digits(f),
        0 <= i <= f.len(),
    ensures
        digits_val(f.take(i)) <= digits_val(f),
    decreases f.len(),
{
    if i < f.len() {
        assert(all_digits(f.drop_last())) by {
            assert forall|k: int| 0 <= k < f.len() - 1 implies is_digit_byte(
                #[trigger] f.drop_last()[k],
            ) by {
                assert(f.drop_last()[k] == f[k]);
            }
        }
        assert(f.drop_last().take(i) =~= f.take(i));
        lemma_digits_val_mono(f.drop_last(), i);
        lemma_digits_val_nonneg(f.drop_last());
    } else {
        assert(f.take(i) =~= f);
    }
}

// ---------------------------------------------------------------------------
// Executable decoding
// ---------------------------------------------------------------------------

/// Parse one field as the standard `usize` parser would: an optional leading
/// `'+'`, then at least one decimal digit, rejecting values that overflow.
fn parse_field(f: &[u8]) -> (r: Option<usize>)
    ensures
        r is Some <==> field_ok(f@),
        r matches Some(v) ==> v as int == field_val(f@),
{
    let ghost d: Seq<u8> = strip_plus(f@);
    let start: usize = if f.len() > 0 && f[0] == 43 {
        1
    } else {
        0
    };
    proof {
        if start == 0 {
            assert(f@.skip(0) =~= f@);
        }
        assert(d == f@.skip(start as int));
    }
    if f.len() == start {
        proof {
            assert(d.len() == 0);
        }
        return None;
    }
    let mut acc: usize = 0;
    let mut j: usize = start;
    while j < f.len()
        invariant
            start <= j <= f@.len(),
            start <= 1,
            f@.len() > start,
            d == strip_plus(f@),
            d == f@.skip(start as int),
            all_digits(d.take(j - start)),
            acc as int == digits_val(d.take(j - start)),
        decreases f@.len() - j,
    {
        let b = f[j];
        proof {
            assert(d[j - start] == f@[j as int]);
        }
        if b < 48 || b > 57 {
            proof {
                assert(!all_digits(d));
            }
            return None;
        }
        let acc10 = match acc.checked_mul(10) {
            Some(x) => x,
            None => {
                proof {
                    lemma_overflow_not_ok(d, j - start, acc as int, b);
                }
                return None;
            },
        };
        let accn = match acc10.checked_add((b - 48) as usize) {
            Some(x) => x,
            None => {
                proof {
                    lemma_overflow_not_ok(d, j - start, acc as int, b);
                }
                return None;
            },
        };
        proof {
            assert(d.take(j - start + 1).drop_last() =~= d.take(j - start));
            assert(d.take(j - start + 1).last() == b);
            assert(all_digits(d.take(j - start + 1))) by {
                assert forall|k: int| 0 <= k < j - start + 1 implies is_digit_byte(
                    #[trigger] d.take(j - start + 1)[k],
                ) by {
                    if k < j - start {
                        assert(d.take(j - start + 1)[k] == d.take(j - start)[k]);
                    }
                }
            }
        }
        acc = accn;
        j += 1;
    }
    proof {
        assert(d.take(f@.len() - start) =~= d);
        lemma_digits_val_nonneg(d);
    }
    Some(acc)
}

/// When the digits seen so far already exceed `usize::MAX`, the whole field
/// cannot parse.
proof fn lemma_overflow_not_ok(d: Seq<u8>, j: int, acc: int, b: u8)
    requires
        0 <= j < d.len(),
        d[j] == b,
        is_digit_byte(b),
        all_digits(d.take(j)),
        acc == digits_val(d.take(j)),
        acc * 10 + b - 48 > usize::MAX,
    ensures
        !(all_digits(d) && digits_val(d) <= usize::MAX),
{
    if all_digits(d) {
        assert(d.take(j + 1).drop_last() =~= d.take(j));
        assert(d.take(j + 1).last() == b);
        assert(digits_val(d.take(j + 1)) == acc * 10 + b - 48);
        lemma_digits_val_mono(d, j + 1);
    }
}

/// Split a byte string at its commas, scanning from the back so that each
/// step matches one unfolding of `split_commas`.
fn split_commas_exec(s: &[u8]) -> (r: Vec<Vec<u8>>)
    ensures
        r@.len() == split_commas(s@).len(),
        forall|k: int| 0 <= k < r@.len() ==> r@[k]@ == split_commas(s@)[k],
{
    let mut rest: Vec<Vec<u8>> = Vec::new();
    rest.push(Vec::new());
    let mut i: usize = s.len();
    proof {
        assert(s@.skip(s@.len() as int) =~= Seq::<u8>::empty());
    }
    while i > 0
        invariant
            0 <= i <= s@.len(),
            rest@.len() == split_commas(s@.skip(i as int)).len(),
            forall|k: int|
                0 <= k < rest@.len() ==> rest@[k]@ == split_commas(s@.skip(i as int))[k],
        decreases i,
    {
        let ghost old_suffix = s@.skip(i as int);
        let b = s[i - 1];
        proof {
            assert(s@.skip(i - 1)[0] == s@[i - 1]);
            assert(s@.skip(i - 1).skip(1) =~= s@.skip(i as int));
            lemma_split_commas_len(old_suffix);
        }
        if b == 44 {
            let nf: Vec<u8> = Vec::new();
            rest.insert(0, nf);
        } else {
            let mut f = rest.remove(0);
            f.insert(0, b);
            rest.insert(0, f);
        }
        i -= 1;
    }
    proof {
        assert(s@.skip(0) =~= s@);
    }
    rest
}

/// Decode a token held as bytes.
pub fn decode_bytes(s: &[u8]) -> (r: Vec<usize>)
    ensures
        r@ == decode_spec(s@),
{
    let d = percent_decode_exec(s);
    let fields = split_commas_exec(d.as_slice());
    let ghost gfields = split_commas(percent_decode_spec(s@));
    let mut out: Vec<usize> = Vec::new();
    let mut k: usize = 0;
    while k < fields.len()
        invariant
            0 <= k <= fields@.len(),
            gfields == split_commas(percent_decode_spec(s@)),
            fields@.len() == gfields.len(),
            forall|i: int| 0 <= i < fields@.len() ==> fields@[i]@ == gfields[i],
            forall|i: int| 0 <= i < k ==> field_ok(#[trigger] gfields[i]),
            out@.len() == k,
            forall|i: int| 0 <= i < k ==> out@[i] as int == field_val(#[trigger] gfields[i]),
        decreases fields@.len() - k,
    {
        match parse_field(fields[k].as_slice()) {
            Some(v) => {
                out.push(v);
            },
            None => {
                proof {
                    assert(!field_ok(gfields[k as int]));
                    assert(!all_fields_ok(gfields));
                    lemma_decode_malformed(s@);
                }
                return Vec::new();
            },
        }
        k += 1;
    }
    proof {
        assert(out@ =~= decode_spec(s@));
    }
    out
}

// ---------------------------------------------------------------------------
// Executable encoding
// ---------------------------------------------------------------------------

/// Append the decimal digits of `n`, most significant first.
pub(crate) fn push_decimal(out: &mut Vec<u8>, n: usize)
    ensures
        final(out)@ == old(out)@ + dec_rep(n as int),
    decreases n,
{
    if n < 10 {
        out.push(48 + n as u8);
        proof {
            assert(old(out)@ + dec_rep(n as int) =~= old(out)@.push((48 + n) as u8));
        }
    } else {
        push_decimal(out, n / 10);
        out.push(48 + (n % 10) as u8);
        proof {
            assert(old(out)@ + dec_rep(n as int) =~= (old(out)@ + dec_rep(n as int / 10)).push(
                (48 + n as int % 10) as u8,
            ));
        }
    }
}

/// Encode an order as its comma-joined decimal token, held as bytes.
pub fn encode_order_bytes(p: &Vec<usize>) -> (t: Vec<u8>)
    ensures
        t@ == encode_spec(p@),
{
    let mut out: Vec<u8> = Vec::new();
    let mut i: usize = 0;
    while i < p.len()
        invariant
            0 <= i <= p@.len(),
            out@ == encode_spec(p@.take(i as int)),
        decreases p@.len() - i,
    {
        let ghost prev = out@;
        if i > 0 {
            out.push(44);
        }
        push_decimal(&mut out, p[i]);
        proof {
            assert(p@.take(i + 1).drop_last() =~= p@.take(i as int));
            assert(p@.take(i + 1).last() == p@[i as int]);
            if i == 0 {
                assert(out@ =~= dec_rep(p@[0] as int));
            } else {
                assert(out@ =~= encode_spec(p@.take(i as int)) + seq![44u8] + dec_rep(
                    p@[i as int] as int,
                ));
            }
        }
        i += 1;
    }
    proof {
        assert(p@.take(p@.len() as int) =~= p@);
    }
    out
}

// ---------------------------------------------------------------------------
// The round trip
// ---------------------------------------------------------------------------

/// The decimal representation of a non-negative integer is a non-empty digit
/// string with that value.
pub proof fn lemma_dec_rep(n: int)
    requires
        n >= 0,
    ensures
        dec_rep(n).len() >= 1,
        all_digits(dec_rep(n)),
        digits_val(dec_rep(n)) == n,
    decreases n,
{
    if n < 10 {
        assert(dec_rep(n) =~= seq![(48 + n) as u8]);
        assert(dec_rep(n).drop_last() =~= Seq::<u8>::empty());
        assert(dec_rep(n).last() == (48 + n) as u8);
        assert((48 + n) as u8 == 48 + n);
        assert(digits_val(dec_rep(n)) == digits_val(Seq::<u8>::empty()) * 10 + (48 + n) - 48);
    } else {
        lemma_dec_rep(n / 10);
        let d = (48 + n % 10) as u8;
        assert(d == 48 + n % 10);
        assert(dec_rep(n) == dec_rep(n / 10) + seq![d]);
        assert(dec_rep(n).drop_last() =~= dec_rep(n / 10));
        assert(dec_rep(n).last() == d);
        assert(digits_val(dec_rep(n)) == digits_val(dec_rep(n / 10)) * 10 + d - 48);
        assert(n == (n / 10) * 10 + n % 10) by {
            vstd::arithmetic::div_mod::lemma_fundamental_div_mod(n, 10);
        }
        assert(all_digits(dec_rep(n))) by {
            assert forall|k: int| 0 <= k < dec_rep(n).len() implies is_digit_byte(
                #[trigger] dec_rep(n)[k],
            ) by {
                if k < dec_rep(n / 10).len() {
                    assert(dec_rep(n)[k] == dec_rep(n / 10)[k]);
                } else {
                    assert(dec_rep(n)[k] == d);
                }
            }
        }
    }
}

/// Every byte of an encoded order is a digit or a comma.
proof fn lemma_encode_bytes(p: Seq<usize>)
    ensures
        forall|k: int|
            0 <= k < encode_spec(p).len() ==> is_digit_byte(#[trigger] encode_spec(p)[k])
                || encode_spec(p)[k] == 44,
    decreases p.len(),
{
    if p.len() == 1 {
        lemma_dec_rep(p[0] as int);
    } else if p.len() > 1 {
        lemma_encode_bytes(p.drop_last());
        lemma_dec_rep(p.last() as int);
        let e = encode_spec(p);
        let front = encode_spec(p.drop_last());
        let tail = dec_rep(p.last() as int);
        assert forall|k: int| 0 <= k < e.len() implies is_digit_byte(#[trigger] e[k]) || e[k]
            == 44 by {
            if k < front.len() {
                assert(e[k] == front[k]);
            } else if k == front.len() {
                assert(e[k] == 44);
            } else {
                assert(e[k] == tail[k - front.len() - 1]);
            }
        }
    }
}

/// Percent-decoding passes a string without `'%'` through unchanged.
proof fn lemma_pd_identity(s: Seq<u8>)
    requires
        forall|k: int| 0 <= k < s.len() ==> #[trigger] s[k] != 37,
    ensures
        percent_decode_spec(s) == s,
    decreases s.len(),
{
    if s.len() > 0 {
        lemma_pd_identity(s.skip(1));
        assert(seq![s[0]] + s.skip(1) =~= s);
    }
}

/// Splitting a comma-free prefix followed by `tail` extends the first field
/// of `tail`'s split.
proof fn lemma_split_prefix_nocomma(f: Seq<u8>, tail: Seq<u8>)
    requires
        forall|k: int| 0 <= k < f.len() ==> #[trigger] f[k] != 44,
    ensures
        split_commas(f + tail) == seq![f + split_commas(tail)[0]] + split_commas(tail).skip(1),
    decreases f.len(),
{
    lemma_split_commas_len(tail);
    if f.len() == 0 {
        assert(f + tail =~= tail);
        assert(f + split_commas(tail)[0] =~= split_commas(tail)[0]);
        assert(seq![f + split_commas(tail)[0]] + split_commas(tail).skip(1) =~~= split_commas(
            tail,
        ));
    } else {
        lemma_split_prefix_nocomma(f.skip(1), tail);
        let ft = f + tail;
        assert(ft[0] == f[0]);
        assert(ft.skip(1) =~= f.skip(1) + tail);
        let rest = split_commas(f.skip(1) + tail);
        assert(split_commas(ft) == seq![seq![ft[0]] + rest[0]] + rest.skip(1));
        let st = split_commas(tail);
        assert(rest == seq![f.skip(1) + st[0]] + st.skip(1));
        assert(rest[0] == f.skip(1) + st[0]);
        assert(rest.skip(1) =~= st.skip(1));
        assert(seq![f[0]] + (f.skip(1) + st[0]) =~= f + st[0]);
        assert(split_commas(ft) =~~= seq![f + st[0]] + st.skip(1));
    }
}

/// Unfolding an encoded order at its first entry.
proof fn lemma_encode_front(p: Seq<usize>)
    requires
        p.len() >= 2,
    ensures
        encode_spec(p) == dec_rep(p[0] as int) + seq![44u8] + encode_spec(p.skip(1)),
    decreases p.len(),
{
    if p.len() == 2 {
        assert(p.drop_last() =~= seq![p[0]]);
        assert(p.skip(1) =~= seq![p[1]]);
        assert(encode_spec(seq![p[0]]) == dec_rep(p[0] as int));
        assert(encode_spec(seq![p[1]]) == dec_rep(p[1] as int));
    } else {
        lemma_encode_front(p.drop_last());
        assert(p.drop_last()[0] == p[0]);
        assert(p.drop_last().skip(1) =~= p.skip(1).drop_last());
        assert(p.skip(1).len() >= 2);
        assert(p.skip(1).last() == p.last());
        assert(encode_spec(p.skip(1)) == encode_spec(p.skip(1).drop_last()) + seq![44u8]
            + dec_rep(p.skip(1).last() as int));
        assert(encode_spec(p) == encode_spec(p.drop_last()) + seq![44u8] + dec_rep(
            p.last() as int,
        ));
        assert(encode_spec(p) =~= dec_rep(p[0] as int) + seq![44u8] + encode_spec(p.skip(1)));
    }
}

/// Splitting an encoded order recovers the decimal representation of each
/// entry.
proof fn lemma_split_encode(p: Seq<usize>)
    requires
        p.len() >= 1,
    ensures
        split_commas(encode_spec(p)) == Seq::new(p.len(), |i: int| dec_rep(p[i] as int)),
    decreases p.len(),
{
    lemma_dec_rep(p[0] as int);
    let d0 = dec_rep(p[0] as int);
    assert(forall|k: int| 0 <= k < d0.len() ==> #[trigger] d0[k] != 44);
    if p.len() == 1 {
        lemma_split_prefix_nocomma(d0, Seq::empty());
        assert(d0 + Seq::<u8>::empty() =~= d0);
        assert(split_commas(Seq::<u8>::empty()) == seq![Seq::<u8>::empty()]);
        assert(d0 + split_commas(Seq::<u8>::empty())[0] =~= d0);
        assert(split_commas(encode_spec(p)) =~~= Seq::new(p.len(), |i: int| dec_rep(p[i] as int)));
    } else {
        lemma_encode_front(p);
        let tail = seq![44u8] + encode_spec(p.skip(1));
        lemma_split_prefix_nocomma(d0, tail);
        assert(d0 + tail =~= encode_spec(p));
        assert(tail[0] == 44);
        assert(tail.skip(1) =~= encode_spec(p.skip(1)));
        assert(split_commas(tail) == seq![Seq::<u8>::empty()] + split_commas(encode_spec(p.skip(1))));
        lemma_split_encode(p.skip(1));
        let strest = Seq::new(p.skip(1).len(), |i: int| dec_rep(p.skip(1)[i] as int));
        assert(split_commas(tail)[0] =~= Seq::<u8>::empty());
        assert(split_commas(tail).skip(1) =~= strest);
        assert(d0 + Seq::<u8>::empty() =~= d0);
        assert(split_commas(encode_spec(p)) == seq![d0] + strest);
        assert(seq![d0] + strest =~~= Seq::new(p.len(), |i: int| dec_rep(p[i] as int)));
    }
}

/// The round-trip law: decoding an encoded order gives the order back, for
/// every order, including the empty one.
pub proof fn lemma_round_trip(p: Seq<usize>)
    ensures
        decode_spec(encode_spec(p)) == p,
{
    if p.len() == 0 {
        assert(encode_spec(p) == Seq::<u8>::empty());
        assert(percent_decode_spec(Seq::<u8>::empty()) == Seq::<u8>::empty());
        assert(split_commas(Seq::<u8>::empty()) == seq![Seq::<u8>::empty()]);
        assert(strip_plus(Seq::<u8>::empty()).len() == 0);
        assert(!field_ok(split_commas(Seq::<u8>::empty())[0]));
        assert(!all_fields_ok(split_commas(Seq::<u8>::empty())));
        assert(decode_spec(encode_spec(p)) =~= p);
    } else {
        let e = encode_spec(p);
        lemma_encode_bytes(p);
        lemma_pd_identity(e);
        lemma_split_encode(p);
        let fields = split_commas(e);
        assert(fields == Seq::new(p.len(), |i: int| dec_rep(p[i] as int)));
        assert forall|i: int| 0 <= i < fields.len() implies field_ok(#[trigger] fields[i])
            && field_val(fields[i]) == p[i] by {
            lemma_dec_rep(p[i] as int);
            assert(fields[i] == dec_rep(p[i] as int));
            assert(fields[i][0] != 43);
            assert(strip_plus(fields[i]) == fields[i]);
        }
        assert(all_fields_ok(fields));
        assert(decode_spec(e) =~= p);
    }
}

/// A token with any field that does not parse yields the empty sequence:
/// decoding never returns a partial prefix.
pub proof fn lemma_decode_malformed(s: Seq<u8>)
    requires
        !all_fields_ok(split_commas(percent_decode_spec(s))),
    ensures
        decode_spec(s) == Seq::<usize>::empty(),
{
}

// ---------------------------------------------------------------------------
// The codec over strings
// ---------------------------------------------------------------------------

/// An encoded order consists of ASCII bytes only.
pub proof fn lemma_encode_ascii(p: Seq<usize>)
    ensures
        ascii_bytes(encode_spec(p)),
{
    lemma_encode_bytes(p);
}

/// Encode an order as its comma-joined decimal token.
pub fn encode_order(p: &Vec<usize>) -> (t: String)
    ensures
        t@ == ascii_chars_of(encode_spec(p@)),
        encode_utf8(t@) == encode_spec(p@),
{
    let bytes = encode_order_bytes(p);
    proof {
        lemma_encode_ascii(p@);
        lemma_ascii_chars_bytes(bytes@);
    }
    ascii_to_string(&bytes)
}

/// Decode a token, working on the UTF-8 bytes of the string.
pub fn decode_order(token: &str) -> (r: Vec<usize>)
    ensures
        r@ == decode_spec(token.spec_bytes()),
{
    decode_bytes(token.as_bytes())
}

} // verus!

