//! The character set used by Commodore 8-bit machines (PETSCII), as far as
//! this library needs it: a byte-to-character mapping for the printable
//! range, and a fixed-width string type padded with a sentinel byte.
use vstd::prelude::*;
use vstd::slice::slice_to_vec;

verus! {

pub const PETSCII_ZERO: u8 = 48;

pub const PETSCII_ONE: u8 = 49;

pub const PETSCII_TWO: u8 = 50;

pub const PETSCII_THREE: u8 = 51;

pub const PETSCII_FOUR: u8 = 52;

pub const PETSCII_FIVE: u8 = 53;

pub const PETSCII_SIX: u8 = 54;

pub const PETSCII_SEVEN: u8 = 55;

pub const PETSCII_EIGHT: u8 = 56;

pub const PETSCII_NINE: u8 = 57;

pub const PETSCII_A: u8 = 65;

pub const PETSCII_I: u8 = 73;

pub const PETSCII_J: u8 = 74;

pub const PETSCII_Z: u8 = 90;

/// Padding byte for fixed-width PETSCII fields, and the terminator when such
/// a field is decoded.
pub const PETSCII_NBSP: u8 = 160;

/// The character a PETSCII byte stands for: the printable range 32..=93
/// (except 92) maps to the character of the same code, the padding byte maps
/// to a space, and everything else is shown as a dot.
pub open spec fn spec_decode_petscii(petscii: u8) -> char {
    if petscii == PETSCII_NBSP {
        ' '
    } else if 32 <= petscii && petscii <= 93 && petscii != 92 {
        petscii as char
    } else {
        '.'
    }
}

/// The PETSCII byte a character encodes to: upper-case letters and digits
/// keep their code, lower-case letters fold to upper case, and every other
/// character becomes `default`.
pub open spec fn spec_encode_petscii(ascii: char, default: u8) -> u8 {
    let u = ascii as u32;
    if 65 <= u && u <= 90 {
        u as u8
    } else if 97 <= u && u <= 122 {
        (u - 32) as u8
    } else if 48 <= u && u <= 57 {
        u as u8
    } else {
        default
    }
}

/// Decode a PETSCII byte to a character.
pub fn decode_petscii(petscii: u8) -> (c: char)
    ensures
        c == spec_decode_petscii(petscii),
{
    if petscii == PETSCII_NBSP {
        ' '
    } else if 32 <= petscii && petscii <= 93 && petscii != 92 {
        petscii as char
    } else {
        '.'
    }
}

/// Encode a character to PETSCII; characters outside the supported range
/// become `default`.
pub fn encode_petscii(ascii: char, default: u8) -> (r: u8)
    ensures
        r == spec_encode_petscii(ascii, default),
{
    let u = ascii as u32;
    if 65 <= u && u <= 90 {
        u as u8
    } else if 97 <= u && u <= 122 {
        (u - 32) as u8
    } else if 48 <= u && u <= 57 {
        u as u8
    } else {
        default
    }
}

/// Each character of `s` encoded to PETSCII, with the padding byte standing
/// in for unsupported characters.
pub open spec fn spec_encode_chars(s: Seq<char>) -> Seq<u8> {
    Seq::new(s.len(), |i: int| spec_encode_petscii(s[i], PETSCII_NBSP))
}

/// Position of the first padding byte in `bytes`, or `bytes.len()` when none
/// occurs: decoding a fixed-width field stops there.
pub open spec fn spec_sentinel_pos(bytes: Seq<u8>) -> int
    decreases bytes.len(),
{
    if bytes.len() == 0 {
        0
    } else if bytes[0] == PETSCII_NBSP {
        0
    } else {
        1 + spec_sentinel_pos(bytes.skip(1))
    }
}

/// The characters a PETSCII field decodes to: every byte before the first
/// padding byte, decoded.
pub open spec fn spec_decode_until_sentinel(bytes: Seq<u8>) -> Seq<char> {
    Seq::new(spec_sentinel_pos(bytes) as nat, |i: int| spec_decode_petscii(bytes[i]))
}

pub proof fn lemma_sentinel_pos_bounds(bytes: Seq<u8>)
    ensures
        0 <= spec_sentinel_pos(bytes) <= bytes.len(),
        forall|j: int| 0 <= j < spec_sentinel_pos(bytes) ==> bytes[j] != PETSCII_NBSP,
        spec_sentinel_pos(bytes) < bytes.len() ==> bytes[spec_sentinel_pos(bytes)]
            == PETSCII_NBSP,
    decreases bytes.len(),
{
    if bytes.len() > 0 && bytes[0] != PETSCII_NBSP {
        lemma_sentinel_pos_bounds(bytes.skip(1));
        assert forall|j: int| 0 <= j < spec_sentinel_pos(bytes) implies bytes[j]
            != PETSCII_NBSP by {
            if j > 0 {
                assert(bytes.skip(1)[j - 1] == bytes[j]);
            }
        }
    }
}

/// The three bound facts of `lemma_sentinel_pos_bounds` pin the position
/// down: anything satisfying them is the sentinel position.
pub proof fn lemma_sentinel_pos_unique(bytes: Seq<u8>, p: int)
    requires
        0 <= p <= bytes.len(),
        forall|j: int| 0 <= j < p ==> bytes[j] != PETSCII_NBSP,
        p < bytes.len() ==> bytes[p] == PETSCII_NBSP,
    ensures
        p == spec_sentinel_pos(bytes),
    decreases bytes.len(),
{
    if bytes.len() > 0 && bytes[0] != PETSCII_NBSP {
        assert(p >= 1);
        lemma_sentinel_pos_unique(bytes.skip(1), p - 1);
    }
}

/// Relies on String::push: appends exactly the given character at the end.
#[verifier::external_body]
fn push_char(s: &mut String, c: char)
    ensures
        final(s)@ == old(s)@.push(c),
{
    s.push(c);
}

/// A byte string in the PETSCII character set. Fixed-width on-disk fields
/// are padded with [`PETSCII_NBSP`], and decoding stops at that byte.
#[derive(Debug)]
pub struct PetsciiString {
    bytes: Vec<u8>,
}

impl View for PetsciiString {
    type V = Seq<u8>;

    closed spec fn view(&self) -> Seq<u8> {
        self.bytes@
    }
}

impl PetsciiString {
    /// Wrap a fixed-width field's bytes as they stand, padding included.
    pub fn fixed_size(bytes: &[u8]) -> (r: PetsciiString)
        ensures
            r@ == bytes@,
    {
        PetsciiString { bytes: slice_to_vec(bytes) }
    }

    /// Encode every character of `src`, unsupported ones to the padding byte.
    pub fn from_string(src: &String) -> (r: PetsciiString)
        ensures
            r@ == spec_encode_chars(src@),
    {
        let n = src.as_str().unicode_len();
        let mut bytes: Vec<u8> = Vec::new();
        for i in 0..n
            invariant
                n == src@.len(),
                bytes@ =~= spec_encode_chars(src@).take(i as int),
        {
            let ch = src.as_str().get_char(i);
            bytes.push(encode_petscii(ch, PETSCII_NBSP));
            assert(bytes@ =~= spec_encode_chars(src@).take(i + 1));
        }
        assert(spec_encode_chars(src@).take(n as int) =~= spec_encode_chars(src@));
        PetsciiString { bytes }
    }

    pub fn as_slice(&self) -> (r: &[u8])
        ensures
            r@ == self@,
    {
        self.bytes.as_slice()
    }

    pub fn len(&self) -> (n: usize)
        ensures
            n == self@.len(),
    {
        self.bytes.len()
    }

    /// A fresh copy holding the same bytes.
    pub fn duplicate(&self) -> (r: PetsciiString)
        ensures
            r@ == self@,
    {
        PetsciiString { bytes: slice_to_vec(self.bytes.as_slice()) }
    }

    /// Decode to readable text, stopping at the first padding byte.
    pub fn to_string(&self) -> (r: String)
        ensures
            r@ == spec_decode_until_sentinel(self@),
    {
        let mut out = String::new();
        let mut i: usize = 0;
        proof {
            lemma_sentinel_pos_bounds(self@);
        }
        while i < self.bytes.len() && *vstd::slice::slice_index_get(self.bytes.as_slice(), i)
            != PETSCII_NBSP
            invariant
                0 <= i <= self@.len(),
                forall|j: int| 0 <= j < i ==> self@[j] != PETSCII_NBSP,
                out@ =~= Seq::new(i as nat, |j: int| spec_decode_petscii(self@[j])),
            decreases self@.len() - i,
        {
            let b = self.bytes[i];
            let c = decode_petscii(b);
            push_char(&mut out, c);
            i = i + 1;
            assert(out@ =~= Seq::new(i as nat, |j: int| spec_decode_petscii(self@[j])));
        }
        proof {
            lemma_sentinel_pos_unique(self@, i as int);
            assert(out@ =~= spec_decode_until_sentinel(self@));
        }
        out
    }
}

} // verus!
