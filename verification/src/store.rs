//! Shuffle order store: the single piece of mutable shared state.  It holds
//! the most recently generated random permutation, already encoded as a
//! token, and replaces it wholesale on each reshuffle, so a reader never
//! observes a partial token.

use crate::ascii::ascii_bytes;
use crate::ascii::ascii_chars_of;
use crate::ascii::ascii_to_string;
use crate::ascii::lemma_ascii_chars_bytes;
use crate::codec::decode_spec;
use crate::codec::encode_order_bytes;
use crate::codec::encode_spec;
use crate::codec::lemma_encode_ascii;
use crate::codec::lemma_round_trip;
use rand::seq::SliceRandom;
use vstd::prelude::*;
use vstd::utf8::encode_utf8;

verus! {

/// The order `0, 1, ..., n - 1`.
pub open spec fn identity_order(n: int) -> Seq<usize> {
    Seq::new(n as nat, |i: int| i as usize)
}

/// `s` is a permutation of `0 .. n - 1`: right length, every entry in range,
/// no entry twice.
pub open spec fn is_permutation_of(s: Seq<usize>, n: int) -> bool {
    &&& s.len() == n
    &&& forall|i: int| 0 <= i < s.len() ==> (#[trigger] s[i]) < n
    &&& s.no_duplicates()
}

/// A sequence with the same multiset of entries as the identity order is a
/// permutation of it.
proof fn lemma_permutation_from_multiset(s: Seq<usize>, n: int)
    requires
        0 <= n <= usize::MAX,
        s.to_multiset() == identity_order(n).to_multiset(),
    ensures
        is_permutation_of(s, n),
{
    broadcast use vstd::seq_lib::group_to_multiset_ensures;

    let ident = identity_order(n);
    assert(s.len() == s.to_multiset().len());
    assert(ident.len() == ident.to_multiset().len());
    assert forall|i: int| 0 <= i < s.len() implies (#[trigger] s[i]) < n by {
        assert(s.contains(s[i]));
        assert(ident.to_multiset().count(s[i]) > 0);
        assert(ident.contains(s[i]));
        let j = choose|j: int| 0 <= j < ident.len() && ident[j] == s[i];
        assert(ident[j] == j as usize);
    }
    assert(ident.no_duplicates()) by {
        assert forall|i: int, j: int|
            0 <= i < ident.len() && 0 <= j < ident.len() && i != j implies ident[i] != ident[j] by {
            assert(ident[i] == i as usize);
            assert(ident[j] == j as usize);
        }
    }
    ident.lemma_multiset_has_no_duplicates();
    s.lemma_multiset_has_no_duplicates_conv();
}

/// Relies on `rand::seq::SliceRandom::shuffle`: an in-place, uniformly random
/// permutation of the slice's elements.
#[verifier::external_body]
fn shuffle_in_place(v: &mut Vec<usize>)
    ensures
        final(v)@.to_multiset() == old(v)@.to_multiset(),
{
    v.shuffle(&mut rand::rng());
}

/// The store.  Its view is the encoded token it holds.
pub struct OrderStore {
    token: Vec<u8>,
}

impl View for OrderStore {
    type V = Seq<u8>;

    closed spec fn view(&self) -> Seq<u8> {
        self.token@
    }
}

impl OrderStore {
    /// The held token is ASCII; every constructor establishes this.
    #[verifier::type_invariant]
    closed spec fn wf(self) -> bool {
        ascii_bytes(self.token@)
    }

    /// A store with no shuffle order yet: the empty token, which decodes to
    /// the empty sequence and therefore never passes for a valid order.
    pub fn new() -> (s: Self)
        ensures
            s@ == Seq::<u8>::empty(),
    {
        OrderStore { token: Vec::new() }
    }

    /// Generate a random permutation of `0 .. pages - 1` and replace the
    /// stored token wholesale by its encoding.  Whatever the random draw, the
    /// new token is the encoding of some permutation of `0 .. pages - 1` —
    /// and therefore decodes to one; with no pages it is the empty token.
    pub fn reshuffle(&mut self, pages: usize)
        ensures
            exists|p: Seq<usize>|
                is_permutation_of(p, pages as int) && final(self)@ == encode_spec(p),
            is_permutation_of(decode_spec(final(self)@), pages as int),
            pages == 0 ==> final(self)@ == Seq::<u8>::empty(),
    {
        let mut v: Vec<usize> = Vec::new();
        let mut i: usize = 0;
        while i < pages
            invariant
                0 <= i <= pages,
                v@ == identity_order(i as int),
            decreases pages - i,
        {
            v.push(i);
            proof {
                assert(v@ =~= identity_order(i + 1));
            }
            i += 1;
        }
        shuffle_in_place(&mut v);
        proof {
            lemma_permutation_from_multiset(v@, pages as int);
            lemma_round_trip(v@);
            lemma_encode_ascii(v@);
        }
        let t = encode_order_bytes(&v);
        self.token = t;
        proof {
            assert(is_permutation_of(v@, pages as int) && self@ == encode_spec(v@));
            if pages == 0 {
                assert(v@ =~= Seq::<usize>::empty());
                assert(self@ =~= Seq::<u8>::empty());
            }
        }
    }

    /// The stored order's encoded token.
    pub fn current(&self) -> (t: String)
        ensures
            t@ == ascii_chars_of(self@),
            encode_utf8(t@) == self@,
    {
        proof {
            use_type_invariant(&*self);
            lemma_ascii_chars_bytes(self.token@);
        }
        ascii_to_string(&self.token)
    }
}

} // verus!
