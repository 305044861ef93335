//! Link composer: builds the outgoing relative URLs that carry the
//! navigation state.  The query string holds, in a fixed order, whichever of
//! `interval`, `order`, `shuffle` and `save` are present, always followed by
//! `page`; values are form-urlencoded.  Presence, not value, is the toggle
//! for the boolean flags.

use crate::ascii::ascii_bytes;
use crate::ascii::ascii_chars_of;
use crate::ascii::ascii_to_string;
use crate::ascii::lemma_ascii_chars_bytes;
use crate::codec::dec_rep;
use crate::codec::is_digit_byte;
use crate::codec::lemma_dec_rep;
use crate::codec::push_decimal;
use vstd::prelude::*;
use vstd::string::StringSliceAdditionalSpecFns;
use vstd::utf8::encode_utf8;

verus! {

// ---------------------------------------------------------------------------
// Form-urlencoding of one value
// ---------------------------------------------------------------------------

/// Bytes the form-urlencoded byte serializer passes through unchanged:
/// `'*'`, `'-'`, `'.'`, `'_'`, digits and ASCII letters.
pub open spec fn form_unchanged_byte(b: u8) -> bool {
    b == 42 || b == 45 || b == 46 || b == 95 || 48 <= b <= 57 || 65 <= b <= 90 || 97 <= b <= 122
}

/// Upper-case hexadecimal digit for a value below 16.
pub open spec fn hex_upper(d: int) -> u8 {
    if d < 10 {
        (48 + d) as u8
    } else {
        (55 + d) as u8
    }
}

/// How the form-urlencoded byte serializer renders one byte: unchanged,
/// `' '` as `'+'`, anything else as an upper-case percent escape.
pub open spec fn form_encode_byte(b: u8) -> Seq<u8> {
    if form_unchanged_byte(b) {
        seq![b]
    } else if b == 32 {
        seq![43u8]
    } else {
        seq![37u8, hex_upper(b as int / 16), hex_upper(b as int % 16)]
    }
}

/// Form-urlencoding of a byte string.
pub open spec fn form_encode_spec(s: Seq<u8>) -> Seq<u8>
    decreases s.len(),
{
    if s.len() == 0 {
        Seq::empty()
    } else {
        form_encode_byte(s[0]) + form_encode_spec(s.skip(1))
    }
}

/// The encoding of any byte string is ASCII.
pub proof fn lemma_form_encode_ascii(s: Seq<u8>)
    ensures
        ascii_bytes(form_encode_spec(s)),
    decreases s.len(),
{
    if s.len() > 0 {
        lemma_form_encode_ascii(s.skip(1));
        let e = form_encode_spec(s);
        let b0 = form_encode_byte(s[0]);
        assert forall|i: int| 0 <= i < e.len() implies #[trigger] e[i] < 128 by {
            if i < b0.len() {
                assert(e[i] == b0[i]);
            } else {
                assert(e[i] == form_encode_spec(s.skip(1))[i - b0.len()]);
            }
        }
    }
}

/// Relies on `url::form_urlencoded::byte_serialize`: `' '` becomes `'+'`,
/// bytes outside `[0-9A-Za-z*\-._]` become upper-case percent escapes, and
/// all others pass through unchanged.
#[verifier::external_body]
fn form_encode(v: &[u8]) -> (r: Vec<u8>)
    ensures
        r@ == form_encode_spec(v@),
{
    url::form_urlencoded::byte_serialize(v).collect::<String>().into_bytes()
}

// ---------------------------------------------------------------------------
// The URL, as specification
// ---------------------------------------------------------------------------

/// `"interval="`
pub open spec fn key_interval() -> Seq<u8> {
    seq![105u8, 110u8, 116u8, 101u8, 114u8, 118u8, 97u8, 108u8, 61u8]
}

/// `"order="`
pub open spec fn key_order() -> Seq<u8> {
    seq![111u8, 114u8, 100u8, 101u8, 114u8, 61u8]
}

/// `"shuffle="`
pub open spec fn key_shuffle() -> Seq<u8> {
    seq![115u8, 104u8, 117u8, 102u8, 102u8, 108u8, 101u8, 61u8]
}

/// `"save="`
pub open spec fn key_save() -> Seq<u8> {
    seq![115u8, 97u8, 118u8, 101u8, 61u8]
}

/// `"page="`
pub open spec fn key_page() -> Seq<u8> {
    seq![112u8, 97u8, 103u8, 101u8, 61u8]
}

/// `"true"`
pub open spec fn lit_true() -> Seq<u8> {
    seq![116u8, 114u8, 117u8, 101u8]
}

/// The UTF-8 bytes of an optional order token.
pub open spec fn order_bytes_opt(order: Option<String>) -> Option<Seq<u8>> {
    match order {
        Some(o) => Some(encode_utf8(o@)),
        None => None,
    }
}

/// The composed relative URL, as bytes: `'?'`, then one `key=value&` segment
/// for each parameter that is present, in the fixed order interval, order,
/// shuffle, save, and finally `page=` with the page number.  Keys, decimal
/// values and `true` encode to themselves under form-urlencoding; the order
/// token is encoded.
pub open spec fn compose_url_bytes(
    shuffle: bool,
    order: Option<Seq<u8>>,
    page: int,
    interval: Option<u32>,
    save: bool,
) -> Seq<u8> {
    seq![63u8] + (match interval {
        Some(iv) => key_interval() + dec_rep(iv as int) + seq![38u8],
        None => Seq::empty(),
    }) + (match order {
        Some(o) => key_order() + form_encode_spec(o) + seq![38u8],
        None => Seq::empty(),
    }) + (if shuffle {
        key_shuffle() + lit_true() + seq![38u8]
    } else {
        Seq::empty()
    }) + (if save {
        key_save() + lit_true() + seq![38u8]
    } else {
        Seq::empty()
    }) + key_page() + dec_rep(page)
}

// ---------------------------------------------------------------------------
// Executable composition
// ---------------------------------------------------------------------------

/// Append every byte of `bytes`.
fn push_all(out: &mut Vec<u8>, bytes: &Vec<u8>)
    ensures
        final(out)@ == old(out)@ + bytes@,
{
    let mut i: usize = 0;
    while i < bytes.len()
        invariant
            0 <= i <= bytes@.len(),
            out@ == old(out)@ + bytes@.take(i as int),
        decreases bytes@.len() - i,
    {
        out.push(bytes[i]);
        proof {
            assert(old(out)@ + bytes@.take(i + 1) =~= (old(out)@ + bytes@.take(i as int)).push(
                bytes@[i as int],
            ));
        }
        i += 1;
    }
    proof {
        assert(bytes@.take(bytes@.len() as int) =~= bytes@);
    }
}

/// Compose a relative URL from the navigation state.  Pure: equal arguments
/// give the equal URL, stated exactly by `compose_url_bytes`.
#[verifier::rlimit(60)]
pub fn compose_url(
    shuffle: &Option<String>,
    order: &Option<String>,
    page: usize,
    interval: &Option<u32>,
    save: bool,
) -> (url: String)
    ensures
        encode_utf8(url@) == compose_url_bytes(
            shuffle.is_some(),
            order_bytes_opt(*order),
            page as int,
            *interval,
            save,
        ),
        url@ == ascii_chars_of(
            compose_url_bytes(
                shuffle.is_some(),
                order_bytes_opt(*order),
                page as int,
                *interval,
                save,
            ),
        ),
{
    let ghost seg_interval = match *interval {
        Some(iv) => key_interval() + dec_rep(iv as int) + seq![38u8],
        None => Seq::<u8>::empty(),
    };
    let ghost seg_order = match order_bytes_opt(*order) {
        Some(o) => key_order() + form_encode_spec(o) + seq![38u8],
        None => Seq::<u8>::empty(),
    };
    let ghost seg_shuffle = if shuffle.is_some() {
        key_shuffle() + lit_true() + seq![38u8]
    } else {
        Seq::<u8>::empty()
    };
    let ghost seg_save = if save {
        key_save() + lit_true() + seq![38u8]
    } else {
        Seq::<u8>::empty()
    };
    let ghost target = compose_url_bytes(
        shuffle.is_some(),
        order_bytes_opt(*order),
        page as int,
        *interval,
        save,
    );
    proof {
        assert(target == seq![63u8] + seg_interval + seg_order + seg_shuffle + seg_save + key_page()
            + dec_rep(page as int));
    }
    let mut out: Vec<u8> = Vec::new();
    out.push(63);
    match interval {
        Some(iv) => {
            let k: Vec<u8> = vec![105u8, 110u8, 116u8, 101u8, 114u8, 118u8, 97u8, 108u8, 61u8];
            proof {
                assert(k@ =~= key_interval());
            }
            push_all(&mut out, &k);
            push_decimal(&mut out, *iv as usize);
            out.push(38);
        },
        None => {},
    }
    proof {
        assert(out@ =~= seq![63u8] + seg_interval);
    }
    match order {
        Some(o) => {
            let k: Vec<u8> = vec![111u8, 114u8, 100u8, 101u8, 114u8, 61u8];
            proof {
                assert(k@ =~= key_order());
            }
            push_all(&mut out, &k);
            let eo = form_encode(o.as_str().as_bytes());
            push_all(&mut out, &eo);
            out.push(38);
        },
        None => {},
    }
    proof {
        assert(out@ =~= seq![63u8] + seg_interval + seg_order);
    }
    if shuffle.is_some() {
        let k: Vec<u8> = vec![
            115u8,
            104u8,
            117u8,
            102u8,
            102u8,
            108u8,
            101u8,
            61u8,
            116u8,
            114u8,
            117u8,
            101u8,
            38u8,
        ];
        proof {
            assert(k@ =~= key_shuffle() + lit_true() + seq![38u8]);
        }
        push_all(&mut out, &k);
    }
    proof {
        assert(out@ =~= seq![63u8] + seg_interval + seg_order + seg_shuffle);
    }
    if save {
        let k: Vec<u8> = vec![
            115u8,
            97u8,
            118u8,
            101u8,
            61u8,
            116u8,
            114u8,
            117u8,
            101u8,
            38u8,
        ];
        proof {
            assert(k@ =~= key_save() + lit_true() + seq![38u8]);
        }
        push_all(&mut out, &k);
    }
    proof {
        assert(out@ =~= seq![63u8] + seg_interval + seg_order + seg_shuffle + seg_save);
    }
    let k: Vec<u8> = vec![112u8, 97u8, 103u8, 101u8, 61u8];
    proof {
        assert(k@ =~= key_page());
    }
    push_all(&mut out, &k);
    push_decimal(&mut out, page);
    proof {
        assert(out@ =~= seq![63u8] + seg_interval + seg_order + seg_shuffle + seg_save + key_page()
            + dec_rep(page as int));
        assert(out@ == target);
        assert(ascii_bytes(out@)) by {
            lemma_ascii_of_url(
                shuffle.is_some(),
                order_bytes_opt(*order),
                page as int,
                *interval,
                save,
            );
        }
        lemma_ascii_chars_bytes(out@);
    }
    ascii_to_string(&out)
}

/// Every byte of a composed URL is ASCII.
proof fn lemma_ascii_of_url(
    shuffle: bool,
    order: Option<Seq<u8>>,
    page: int,
    interval: Option<u32>,
    save: bool,
)
    requires
        page >= 0,
    ensures
        ascii_bytes(compose_url_bytes(shuffle, order, page, interval, save)),
{
    let u = compose_url_bytes(shuffle, order, page, interval, save);
    let seg_interval = match interval {
        Some(iv) => key_interval() + dec_rep(iv as int) + seq![38u8],
        None => Seq::<u8>::empty(),
    };
    let seg_order = match order {
        Some(o) => key_order() + form_encode_spec(o) + seq![38u8],
        None => Seq::<u8>::empty(),
    };
    let seg_shuffle = if shuffle {
        key_shuffle() + lit_true() + seq![38u8]
    } else {
        Seq::<u8>::empty()
    };
    let seg_save = if save {
        key_save() + lit_true() + seq![38u8]
    } else {
        Seq::<u8>::empty()
    };
    assert(ascii_bytes(seg_interval)) by {
        match interval {
            Some(iv) => {
                lemma_dec_rep(iv as int);
                assert forall|i: int| 0 <= i < seg_interval.len() implies #[trigger] seg_interval[i]
                    < 128 by {
                    if key_interval().len() <= i < key_interval().len() + dec_rep(iv as int).len() {
                        assert(seg_interval[i] == dec_rep(iv as int)[i - key_interval().len()]);
                        assert(is_digit_byte(dec_rep(iv as int)[i - key_interval().len()]));
                    }
                }
            },
            None => {},
        }
    }
    assert(ascii_bytes(seg_order)) by {
        match order {
            Some(o) => {
                lemma_form_encode_ascii(o);
                assert forall|i: int| 0 <= i < seg_order.len() implies #[trigger] seg_order[i]
                    < 128 by {
                    if key_order().len() <= i < key_order().len() + form_encode_spec(o).len() {
                        assert(seg_order[i] == form_encode_spec(o)[i - key_order().len()]);
                    }
                }
            },
            None => {},
        }
    }
    assert(ascii_bytes(seg_shuffle));
    assert(ascii_bytes(seg_save));
    assert(ascii_bytes(key_page() + dec_rep(page))) by {
        lemma_dec_rep(page);
        assert forall|i: int| 0 <= i < (key_page() + dec_rep(page)).len() implies #[trigger] (
        key_page() + dec_rep(page))[i] < 128 by {
            if key_page().len() <= i {
                assert((key_page() + dec_rep(page))[i] == dec_rep(page)[i - key_page().len()]);
                assert(is_digit_byte(dec_rep(page)[i - key_page().len()]));
            }
        }
    }
    assert(u == seq![63u8] + seg_interval + seg_order + seg_shuffle + seg_save + (key_page()
        + dec_rep(page)));
    assert forall|i: int| 0 <= i < u.len() implies #[trigger] u[i] < 128 by {
        let a = seq![63u8];
        let l1 = a.len();
        let l2 = l1 + seg_interval.len();
        let l3 = l2 + seg_order.len();
        let l4 = l3 + seg_shuffle.len();
        let l5 = l4 + seg_save.len();
        if i < l1 {
            assert(u[i] == 63);
        } else if i < l2 {
            assert(u[i] == seg_interval[i - l1]);
        } else if i < l3 {
            assert(u[i] == seg_order[i - l2]);
        } else if i < l4 {
            assert(u[i] == seg_shuffle[i - l3]);
        } else if i < l5 {
            assert(u[i] == seg_save[i - l4]);
        } else {
            assert(u[i] == (key_page() + dec_rep(page))[i - l5]);
        }
    }
}

} // verus!
