//! Navigation resolver: turns one request's query parameters, the image
//! count, and the shuffle order store into the concrete view to render.
//! Malformed client input never fails a request; every malformed case
//! degrades to a defined fallback.

use crate::codec::decode_order;
use crate::codec::decode_spec;
use crate::codec::lemma_decode_malformed;
use crate::codec::all_fields_ok;
use crate::codec::field_ok;
use crate::codec::split_commas;
use crate::codec::percent_decode_spec;
use crate::store::OrderStore;
use crate::store::is_permutation_of;
use vstd::prelude::*;
use vstd::string::StringSliceAdditionalSpecFns;
use vstd::utf8::encode_utf8;

verus! {

/// Browsing mode: the displayed index is the page itself, or the page looked
/// up through a permutation.
#[derive(PartialEq, Eq, Structural, Clone, Copy, Debug)]
pub enum Mode {
    Sequential,
    Shuffled,
}

/// One request's query parameters, reduced to plain values: the presence-only
/// flags arrive as booleans.
#[derive(Debug)]
pub struct NavRequest {
    pub page: Option<usize>,
    pub order: Option<String>,
    pub shuffle: bool,
    pub interval: Option<u32>,
    pub save: bool,
}

/// What one request resolves to, plus the effective order token to echo in
/// outgoing links.
#[derive(Debug)]
pub struct ResolvedView {
    pub mode: Mode,
    pub current_index: usize,
    pub previous_page: usize,
    pub next_page: usize,
    pub current_page: usize,
    pub order_token: Option<String>,
}

/// The bytes of the request's order token; absence reads as the empty token.
pub open spec fn requested_order_bytes(order: Option<String>) -> Seq<u8> {
    match order {
        Some(s) => encode_utf8(s@),
        None => Seq::empty(),
    }
}

/// Page clamping: an absent or out-of-range page falls back to 0.
pub open spec fn clamp_page_spec(page: Option<usize>, len: int) -> int {
    match page {
        Some(p) => if p < len {
            p as int
        } else {
            0
        },
        None => 0,
    }
}

/// Circular predecessor of `page` among `len` pages.
pub open spec fn prev_page_spec(page: int, len: int) -> int {
    if page == 0 {
        len - 1
    } else {
        page - 1
    }
}

/// Circular successor of `page` among `len` pages.
pub open spec fn next_page_spec(page: int, len: int) -> int {
    if page == len - 1 {
        0
    } else {
        page + 1
    }
}

/// Whether every entry of an order lies below `len`, so that it can index a
/// library of that many images.
pub open spec fn order_in_range(s: Seq<usize>, len: int) -> bool {
    forall|i: int| 0 <= i < s.len() ==> (#[trigger] s[i]) < len
}

/// Whether every entry of the order lies below `len`.
fn all_in_range(v: &Vec<usize>, len: usize) -> (r: bool)
    ensures
        r == order_in_range(v@, len as int),
{
    let mut i: usize = 0;
    while i < v.len()
        invariant
            0 <= i <= v@.len(),
            forall|k: int| 0 <= k < i ==> (#[trigger] v@[k]) < len,
        decreases v@.len() - i,
    {
        if v[i] >= len {
            proof {
                assert(v@[i as int] >= len);
            }
            return false;
        }
        i += 1;
    }
    true
}

/// The empty token decodes to the empty sequence.
pub proof fn lemma_decode_empty()
    ensures
        decode_spec(Seq::<u8>::empty()) == Seq::<usize>::empty(),
{
    let e = Seq::<u8>::empty();
    assert(percent_decode_spec(e) == e);
    assert(split_commas(e) == seq![Seq::<u8>::empty()]);
    assert(!field_ok(split_commas(e)[0]));
    assert(!all_fields_ok(split_commas(e)));
    lemma_decode_malformed(e);
}

/// Resolve one request against the image count and the shuffle order store.
///
/// A shuffle request replaces the stored order and browses it; otherwise the
/// caller-supplied order counts only when it decodes to exactly one entry per
/// image with every entry in range, and anything else — wrong length, values
/// past the library, malformed fields — falls back to sequential browsing
/// with no token carried forward.  The page is clamped, previous/next wrap
/// circularly, and the resolved index always lies within the library.
pub fn resolve(store: &mut OrderStore, images_len: usize, req: &NavRequest) -> (v: ResolvedView)
    requires
        images_len > 0,
    ensures
        v.current_page == clamp_page_spec(req.page, images_len as int),
        v.previous_page == prev_page_spec(v.current_page as int, images_len as int),
        v.next_page == next_page_spec(v.current_page as int, images_len as int),
        v.current_page < images_len,
        v.previous_page < images_len,
        v.next_page < images_len,
        v.current_index < images_len,
        v.mode == Mode::Sequential ==> v.current_index == v.current_page && v.order_token is None,
        req.shuffle ==> {
            &&& is_permutation_of(decode_spec(final(store)@), images_len as int)
            &&& v.mode == Mode::Shuffled
            &&& (v.order_token matches Some(t) && encode_utf8(t@) == final(store)@)
            &&& v.current_index == decode_spec(final(store)@)[v.current_page as int]
        },
        !req.shuffle ==> {
            &&& final(store)@ == old(store)@
            &&& (if decode_spec(requested_order_bytes(req.order)).len() == images_len
                && order_in_range(decode_spec(requested_order_bytes(req.order)), images_len as int) {
                &&& v.mode == Mode::Shuffled
                &&& v.order_token == req.order
                &&& v.current_index == decode_spec(requested_order_bytes(req.order))[
                    v.current_page as int]
            } else {
                v.mode == Mode::Sequential
            })
        },
{
    let page0: usize = match req.page {
        Some(p) => p,
        None => 0,
    };
    let current_page: usize = if page0 >= images_len {
        0
    } else {
        page0
    };
    let previous_page: usize = if current_page == 0 {
        images_len - 1
    } else {
        current_page - 1
    };
    let next_page: usize = if current_page == images_len - 1 {
        0
    } else {
        current_page + 1
    };
    if req.shuffle {
        store.reshuffle(images_len);
        let token = store.current();
        let parsed = decode_order(token.as_str());
        proof {
            assert(parsed@ == decode_spec(store@));
        }
        let current_index = parsed[current_page];
        ResolvedView {
            mode: Mode::Shuffled,
            current_index,
            previous_page,
            next_page,
            current_page,
            order_token: Some(token),
        }
    } else {
        let parsed = match &req.order {
            Some(s) => decode_order(s.as_str()),
            None => {
                proof {
                    lemma_decode_empty();
                }
                Vec::new()
            },
        };
        if parsed.len() > 0 && parsed.len() == images_len && all_in_range(&parsed, images_len) {
            let current_index = parsed[current_page];
            let order_token = match &req.order {
                Some(s) => Some(s.clone()),
                None => None,
            };
            ResolvedView {
                mode: Mode::Shuffled,
                current_index,
                previous_page,
                next_page,
                current_page,
                order_token,
            }
        } else {
            ResolvedView {
                mode: Mode::Sequential,
                current_index: current_page,
                previous_page,
                next_page,
                current_page,
                order_token: None,
            }
        }
    }
}

} // verus!
