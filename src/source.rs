//! Which files the image source reads: those whose extension names a
//! supported format, whatever its letter case.

use vstd::prelude::*;
use vstd::string::StringSliceAdditionalSpecFns;

verus! {

/// The byte `c` with an ASCII capital letter made small.
pub open spec fn ascii_lower(c: u8) -> u8 {
    if 65 <= c <= 90 {
        (c + 32) as u8
    } else {
        c
    }
}

pub open spec fn lowered(s: Seq<u8>) -> Seq<u8> {
    s.map_values(|c: u8| ascii_lower(c))
}

/// The extensions, in small letters, of the formats that are read: `png` and `webp`.
pub open spec fn supported_extensions() -> Seq<Seq<u8>> {
    seq![seq!['p' as u8, 'n' as u8, 'g' as u8], seq!['w' as u8, 'e' as u8, 'b' as u8, 'p' as u8]]
}

/// `ext` names a supported format, in any letter case.
pub open spec fn supported_extension(ext: Seq<u8>) -> bool {
    exists|k: int| 0 <= k < supported_extensions().len() && lowered(ext) == #[trigger] supported_extensions()[k]
}

fn lower_byte(c: u8) -> (r: u8)
    ensures
        r == ascii_lower(c),
{
    if 65 <= c && c <= 90 {
        c + 32
    } else {
        c
    }
}

/// `ext` equals `name` once its capital letters are made small.
fn matches_lowered(ext: &[u8], name: &[u8]) -> (r: bool)
    ensures
        r == (lowered(ext@) == name@),
{
    if ext.len() != name.len() {
        proof {
            assert(lowered(ext@).len() != name@.len());
        }
        return false;
    }
    let mut i: usize = 0;
    while i < ext.len()
        invariant
            ext@.len() == name@.len(),
            i <= ext@.len(),
            forall|j: int| 0 <= j < i ==> ascii_lower(#[trigger] ext@[j]) == name@[j],
        decreases ext@.len() - i,
    {
        if lower_byte(ext[i]) != name[i] {
            proof {
                assert(lowered(ext@)[i as int] != name@[i as int]);
            }
            return false;
        }
        i = i + 1;
    }
    proof {
        assert(lowered(ext@) =~= name@);
    }
    true
}

/// Whether a file with the extension `ext` is read as an image: `png` or
/// `webp`, in any letter case.
pub fn is_supported_extension(ext: &str) -> (r: bool)
    ensures
        r == supported_extension(ext.spec_bytes()),
{
    let b = ext.as_bytes();
    let png: [u8; 3] = ['p' as u8, 'n' as u8, 'g' as u8];
    let webp: [u8; 4] = ['w' as u8, 'e' as u8, 'b' as u8, 'p' as u8];
    proof {
        assert(png@ =~= supported_extensions()[0]);
        assert(webp@ =~= supported_extensions()[1]);
    }
    matches_lowered(b, png.as_slice()) || matches_lowered(b, webp.as_slice())
}

} // verus!
