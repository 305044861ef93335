//! Which file names count as pictures: those whose extension, lower-cased,
//! is `png`, `jpeg`, `jpg` or `gif`.  The startup scan keeps only these.

use vstd::prelude::*;
use vstd::string::StringSliceAdditionalSpecFns;

verus! {

/// Index of the last `'.'` in the name, or -1 when there is none.
pub open spec fn last_dot(name: Seq<u8>) -> int
    decreases name.len(),
{
    if name.len() == 0 {
        -1
    } else if name.last() == 46 {
        name.len() - 1
    } else {
        last_dot(name.drop_last())
    }
}

/// ASCII lower-casing of one byte.
pub open spec fn ascii_lower(b: u8) -> u8 {
    if 65 <= b <= 90 {
        (b + 32) as u8
    } else {
        b
    }
}

/// The extension of a plain file name: the bytes after the last dot, when
/// that dot stands after the first byte.  A name whose only dot is its first
/// byte, such as a hidden file, has no extension.
pub open spec fn extension_spec(name: Seq<u8>) -> Option<Seq<u8>> {
    if last_dot(name) >= 1 {
        Some(name.skip(last_dot(name) + 1))
    } else {
        None
    }
}

/// `"png"`
pub open spec fn ext_png() -> Seq<u8> {
    seq![112u8, 110u8, 103u8]
}

/// `"jpeg"`
pub open spec fn ext_jpeg() -> Seq<u8> {
    seq![106u8, 112u8, 101u8, 103u8]
}

/// `"jpg"`
pub open spec fn ext_jpg() -> Seq<u8> {
    seq![106u8, 112u8, 103u8]
}

/// `"gif"`
pub open spec fn ext_gif() -> Seq<u8> {
    seq![103u8, 105u8, 102u8]
}

/// Whether a file name has a picture extension, compared lower-cased.
pub open spec fn is_picture_spec(name: Seq<u8>) -> bool {
    match extension_spec(name) {
        Some(e) => {
            let l = e.map_values(|b: u8| ascii_lower(b));
            l == ext_png() || l == ext_jpeg() || l == ext_jpg() || l == ext_gif()
        },
        None => false,
    }
}

/// Lower-case one ASCII byte.
fn lower_byte(b: u8) -> (r: u8)
    ensures
        r == ascii_lower(b),
{
    if 65 <= b && b <= 90 {
        b + 32
    } else {
        b
    }
}

/// Whether the named file is a picture, by its extension.
pub fn is_picture(name: &str) -> (r: bool)
    ensures
        r == is_picture_spec(name.spec_bytes()),
{
    let bytes = name.as_bytes();
    let mut i: usize = bytes.len();
    proof {
        assert(bytes@.take(bytes@.len() as int) =~= bytes@);
    }
    while i > 0 && bytes[i - 1] != 46
        invariant
            0 <= i <= bytes@.len(),
            last_dot(bytes@) == last_dot(bytes@.take(i as int)),
        decreases i,
    {
        proof {
            assert(bytes@.take(i as int).last() == bytes@[i - 1]);
            assert(bytes@.take(i as int).drop_last() =~= bytes@.take(i - 1));
        }
        i -= 1;
    }
    proof {
        if i == 0 {
            assert(bytes@.take(0) =~= Seq::<u8>::empty());
            assert(last_dot(bytes@) == -1);
        } else {
            assert(bytes@.take(i as int).last() == bytes@[i - 1]);
            assert(last_dot(bytes@.take(i as int)) == i - 1);
        }
    }
    if i <= 1 {
        return false;
    }
    let ghost e = bytes@.skip(i as int);
    let ghost l = e.map_values(|b: u8| ascii_lower(b));
    let n = bytes.len() - i;
    proof {
        assert(e.len() == n);
        assert(l.len() == n);
        assert(extension_spec(bytes@) == Some(e));
        assert(forall|k: int| 0 <= k < n ==> e[k] == bytes@[i + k]);
        assert(forall|k: int| 0 <= k < n ==> l[k] == ascii_lower(e[k]));
    }
    if n == 3 {
        let b0 = lower_byte(bytes[i]);
        let b1 = lower_byte(bytes[i + 1]);
        let b2 = lower_byte(bytes[i + 2]);
        let r = (b0 == 112 && b1 == 110 && b2 == 103) || (b0 == 106 && b1 == 112 && b2 == 103) || (
        b0 == 103 && b1 == 105 && b2 == 102);
        proof {
            assert(l[0] == b0 && l[1] == b1 && l[2] == b2);
            if r {
                assert(l =~= ext_png() || l =~= ext_jpg() || l =~= ext_gif());
            } else {
                assert(l.len() != ext_jpeg().len());
            }
        }
        r
    } else if n == 4 {
        let b0 = lower_byte(bytes[i]);
        let b1 = lower_byte(bytes[i + 1]);
        let b2 = lower_byte(bytes[i + 2]);
        let b3 = lower_byte(bytes[i + 3]);
        let r = b0 == 106 && b1 == 112 && b2 == 101 && b3 == 103;
        proof {
            assert(l[0] == b0 && l[1] == b1 && l[2] == b2 && l[3] == b3);
            if r {
                assert(l =~= ext_jpeg());
            }
        }
        r
    } else {
        proof {
            assert(l.len() != 3 && l.len() != 4);
        }
        false
    }
}

} // verus!
