//! The Base64 codec: bit-extraction helpers, the 64-character alphabet with
//! its index maps, and the `encode` / `decode` pair.

use vstd::prelude::*;

verus! {

use vstd::string::StrSliceExecFns;
use vstd::string::StringExecFnsIsAscii;
use vstd::utf8::encode_utf8;
use vstd::utf8::is_ascii_chars;
use vstd::utf8::is_ascii_chars_encode_utf8;

/// The sentinel appended to encoded output so its length reaches a multiple
/// of four; it never stands for alphabet index 0 on its own.
pub const PADDING_BYTE: u8 = 61;

/// The top `n` bits of `x`, right-aligned; `n == 0` gives 0.
pub open spec fn spec_top_bits(x: u8, n: u8) -> u8
    recommends
        n <= 8,
{
    if n == 0 {
        0
    } else {
        x >> ((8 - n) as u8)
    }
}

/// The bottom `n` bits of `x`; `n == 8` gives `x` unchanged.
pub open spec fn spec_bottom_bits(x: u8, n: u8) -> u8
    recommends
        n <= 8,
{
    if n == 8 {
        x
    } else {
        x & (((1u8 << n) - 1) as u8)
    }
}

/// Returns the top `n` bits of `number`, right-aligned.
pub fn get_n_first_bit(number: u8, n: u8) -> (r: u8)
    requires
        n <= 8,
    ensures
        r == spec_top_bits(number, n),
{
    if n == 0 {
        0
    } else {
        number >> (8 - n)
    }
}

/// Returns the bottom `n` bits of `number`.
pub fn get_n_last_bits(number: u8, n: u8) -> (r: u8)
    requires
        n <= 8,
    ensures
        r == spec_bottom_bits(number, n),
{
    if n == 8 {
        number
    } else {
        proof {
            assert(n < 8 ==> (1u8 << n) >= 1) by (bit_vector);
        }
        number & ((1u8 << n) - 1)
    }
}

/// The two bit helpers act as identities at their degenerate arguments:
/// taking no top bits yields 0, and taking all eight bottom bits yields the
/// byte unchanged.
pub proof fn lemma_bit_helpers_identity(x: u8)
    ensures
        spec_top_bits(x, 0) == 0,
        spec_bottom_bits(x, 8) == x,
{
}

/// Whether `b` is one of the 64 alphabet characters `A`-`Z`, `a`-`z`,
/// `0`-`9`, `+`, `/`.
pub open spec fn spec_is_alphabet(b: u8) -> bool {
    ||| 65 <= b <= 90
    ||| 97 <= b <= 122
    ||| 48 <= b <= 57
    ||| b == 43
    ||| b == 47
}

/// The alphabet character at index `i`.
pub open spec fn spec_alphabet_byte(i: u8) -> u8
    recommends
        i < 64,
{
    if i < 26 {
        (i + 65) as u8
    } else if i < 52 {
        (i - 26 + 97) as u8
    } else if i < 62 {
        (i - 52 + 48) as u8
    } else if i == 62 {
        43
    } else {
        47
    }
}

/// The index of an alphabet character `b`.
pub open spec fn spec_index_of(b: u8) -> u8
    recommends
        spec_is_alphabet(b),
{
    if 65 <= b <= 90 {
        (b - 65) as u8
    } else if 97 <= b <= 122 {
        (b - 97 + 26) as u8
    } else if 48 <= b <= 57 {
        (b - 48 + 52) as u8
    } else if b == 43 {
        62
    } else {
        63
    }
}

/// The index a character resolves to during decoding: its alphabet index, or
/// 0 for the padding character and anything else outside the alphabet.
pub open spec fn spec_char_index(b: u8) -> u8 {
    if spec_is_alphabet(b) {
        spec_index_of(b)
    } else {
        0
    }
}

/// Index `i` maps to an alphabet character and back to `i`: the alphabet has
/// no duplicates and never contains the padding character.
pub proof fn lemma_alphabet_roundtrip(i: u8)
    requires
        i < 64,
    ensures
        spec_is_alphabet(spec_alphabet_byte(i)),
        spec_index_of(spec_alphabet_byte(i)) == i,
        spec_char_index(spec_alphabet_byte(i)) == i,
        spec_alphabet_byte(i) != PADDING_BYTE,
{
}

fn alphabet_byte(i: u8) -> (b: u8)
    requires
        i < 64,
    ensures
        b == spec_alphabet_byte(i),
{
    if i < 26 {
        i + 65
    } else if i < 52 {
        i - 26 + 97
    } else if i < 62 {
        i - 52 + 48
    } else if i == 62 {
        43
    } else {
        47
    }
}

fn is_alphabet_byte(b: u8) -> (r: bool)
    ensures
        r == spec_is_alphabet(b),
{
    (65 <= b && b <= 90) || (97 <= b && b <= 122) || (48 <= b && b <= 57) || b == 43
        || b == 47
}

fn alphabet_index(b: u8) -> (i: u8)
    ensures
        i == spec_char_index(b),
{
    if 65 <= b && b <= 90 {
        b - 65
    } else if 97 <= b && b <= 122 {
        b - 97 + 26
    } else if 48 <= b && b <= 57 {
        b - 48 + 52
    } else if b == 43 {
        62
    } else if b == 47 {
        63
    } else {
        0
    }
}

/// The first output character of a byte group: the top 6 bits of byte 1.
pub open spec fn enc_char0(b0: u8) -> u8 {
    spec_top_bits(b0, 6)
}

/// The second output character: the bottom 2 bits of byte 1 above the top 4
/// bits of byte 2.
pub open spec fn enc_char1(b0: u8, b1: u8) -> u8 {
    (spec_bottom_bits(b0, 2) << 4) | spec_top_bits(b1, 4)
}

/// The third output character: the bottom 4 bits of byte 2 above the top 2
/// bits of byte 3.
pub open spec fn enc_char2(b1: u8, b2: u8) -> u8 {
    (spec_bottom_bits(b1, 4) << 2) | spec_top_bits(b2, 2)
}

/// The fourth output character: the bottom 6 bits of byte 3.
pub open spec fn enc_char3(b2: u8) -> u8 {
    spec_bottom_bits(b2, 6)
}

/// The 6-bit value of every output character is a valid alphabet index.
pub proof fn lemma_enc_char_bounds(b0: u8, b1: u8, b2: u8)
    ensures
        enc_char0(b0) < 64,
        enc_char1(b0, b1) < 64,
        enc_char2(b1, b2) < 64,
        enc_char3(b2) < 64,
{
    assert(enc_char0(b0) < 64) by (bit_vector);
    assert(enc_char1(b0, b1) < 64) by (bit_vector);
    assert(enc_char2(b1, b2) < 64) by (bit_vector);
    assert(enc_char3(b2) < 64) by (bit_vector);
}

/// The Base64 encoding of a byte sequence: each full group of 3 bytes
/// becomes 4 alphabet characters; a trailing group of 1 or 2 bytes becomes
/// 2 or 3 characters (missing bytes read as zero), and padding brings the
/// length to a multiple of 4.
pub open spec fn spec_encode(bytes: Seq<u8>) -> Seq<u8>
    decreases bytes.len(),
{
    if bytes.len() == 0 {
        Seq::empty()
    } else if bytes.len() == 1 {
        seq![
            spec_alphabet_byte(enc_char0(bytes[0])),
            spec_alphabet_byte(enc_char1(bytes[0], 0)),
            PADDING_BYTE,
            PADDING_BYTE,
        ]
    } else if bytes.len() == 2 {
        seq![
            spec_alphabet_byte(enc_char0(bytes[0])),
            spec_alphabet_byte(enc_char1(bytes[0], bytes[1])),
            spec_alphabet_byte(enc_char2(bytes[1], 0)),
            PADDING_BYTE,
        ]
    } else {
        seq![
            spec_alphabet_byte(enc_char0(bytes[0])),
            spec_alphabet_byte(enc_char1(bytes[0], bytes[1])),
            spec_alphabet_byte(enc_char2(bytes[1], bytes[2])),
            spec_alphabet_byte(enc_char3(bytes[2])),
        ] + spec_encode(bytes.skip(3))
    }
}

/// Encodes a byte sequence into the bytes of its Base64 text.
pub fn encode_bytes(bytes: &Vec<u8>) -> (out: Vec<u8>)
    ensures
        out@ == spec_encode(bytes@),
{
    let mut out: Vec<u8> = Vec::new();
    let mut i: usize = 0;
    proof {
        assert(bytes@.skip(0) =~= bytes@);
        assert(out@ + spec_encode(bytes@.skip(0)) =~= spec_encode(bytes@));
    }
    while bytes.len() - i >= 3
        invariant
            i <= bytes.len(),
            out@ + spec_encode(bytes@.skip(i as int)) == spec_encode(bytes@),
        decreases bytes.len() - i,
    {
        let b0 = bytes[i];
        let b1 = bytes[i + 1];
        let b2 = bytes[i + 2];
        proof {
            lemma_enc_char_bounds(b0, b1, b2);
        }
        let c0 = get_n_first_bit(b0, 6);
        let c1 = (get_n_last_bits(b0, 2) << 4) | get_n_first_bit(b1, 4);
        let c2 = (get_n_last_bits(b1, 4) << 2) | get_n_first_bit(b2, 2);
        let c3 = get_n_last_bits(b2, 6);
        out.push(alphabet_byte(c0));
        out.push(alphabet_byte(c1));
        out.push(alphabet_byte(c2));
        out.push(alphabet_byte(c3));
        proof {
            assert(bytes@.skip(i as int).skip(3) =~= bytes@.skip(i + 3));
            assert(out@ + spec_encode(bytes@.skip(i + 3)) =~= spec_encode(bytes@));
        }
        i = i + 3;
    }
    if bytes.len() - i == 1 {
        let b0 = bytes[i];
        proof {
            lemma_enc_char_bounds(b0, 0, 0);
        }
        let c0 = get_n_first_bit(b0, 6);
        let c1 = (get_n_last_bits(b0, 2) << 4) | get_n_first_bit(0, 4);
        out.push(alphabet_byte(c0));
        out.push(alphabet_byte(c1));
        out.push(PADDING_BYTE);
        out.push(PADDING_BYTE);
        proof {
            assert(out@ =~= spec_encode(bytes@));
        }
    } else if bytes.len() - i == 2 {
        let b0 = bytes[i];
        let b1 = bytes[i + 1];
        proof {
            lemma_enc_char_bounds(b0, b1, 0);
        }
        let c0 = get_n_first_bit(b0, 6);
        let c1 = (get_n_last_bits(b0, 2) << 4) | get_n_first_bit(b1, 4);
        let c2 = (get_n_last_bits(b1, 4) << 2) | get_n_first_bit(0, 2);
        out.push(alphabet_byte(c0));
        out.push(alphabet_byte(c1));
        out.push(alphabet_byte(c2));
        out.push(PADDING_BYTE);
        proof {
            assert(out@ =~= spec_encode(bytes@));
        }
    } else {
        proof {
            assert(bytes@.skip(i as int) =~= Seq::<u8>::empty());
            assert(out@ =~= spec_encode(bytes@));
        }
    }
    out
}

/// The first recovered byte of a group: the 6 bits of character 1 above the
/// top 2 bits of character 2's index.
pub open spec fn dec_byte0(i0: u8, i1: u8) -> u8 {
    (i0 << 2) | spec_top_bits(i1 << 2, 2)
}

/// The second recovered byte: the bottom 4 bits of character 2's index above
/// the top 4 bits of character 3's index.
pub open spec fn dec_byte1(i1: u8, i2: u8) -> u8 {
    (spec_bottom_bits(i1, 4) << 4) | spec_top_bits(i2 << 2, 4)
}

/// The third recovered byte: the bottom 2 bits of character 3's index above
/// the 6 bits of character 4's index.
pub open spec fn dec_byte2(i2: u8, i3: u8) -> u8 {
    (spec_bottom_bits(i2, 2) << 6) | i3
}

/// Unpacking the four characters of a group recovers the three bytes the
/// group was packed from, whatever bytes follow a short trailing group.
pub proof fn lemma_group_roundtrip(b0: u8, b1: u8, b2: u8)
    ensures
        dec_byte0(enc_char0(b0), enc_char1(b0, b1)) == b0,
        dec_byte1(enc_char1(b0, b1), enc_char2(b1, b2)) == b1,
        dec_byte2(enc_char2(b1, b2), enc_char3(b2)) == b2,
{
    assert(dec_byte0(enc_char0(b0), enc_char1(b0, b1)) == b0) by (bit_vector);
    assert(dec_byte1(enc_char1(b0, b1), enc_char2(b1, b2)) == b1) by (bit_vector);
    assert(dec_byte2(enc_char2(b1, b2), enc_char3(b2)) == b2) by (bit_vector);
}

/// How many padding characters close the sequence: 0, 1 or 2.
pub open spec fn spec_num_padding(s: Seq<u8>) -> int {
    if s.len() >= 1 && s[s.len() - 1] == PADDING_BYTE {
        if s.len() >= 2 && s[s.len() - 2] == PADDING_BYTE {
            2
        } else {
            1
        }
    } else {
        0
    }
}

/// Well-formed Base64 text: the length is a multiple of four and every
/// character except the trailing padding is in the alphabet.
pub open spec fn spec_valid_base64(s: Seq<u8>) -> bool {
    &&& s.len() % 4 == 0
    &&& forall|i: int| 0 <= i < s.len() - spec_num_padding(s) ==> spec_is_alphabet(#[trigger] s[i])
}

/// The decoding of Base64 text: each group of 4 characters is unpacked into
/// 3 bytes; in the final group one byte is dropped per padding character.
pub open spec fn spec_decode(s: Seq<u8>) -> Seq<u8>
    decreases s.len(),
{
    if s.len() < 4 {
        Seq::empty()
    } else {
        let i0 = spec_char_index(s[0]);
        let i1 = spec_char_index(s[1]);
        let i2 = spec_char_index(s[2]);
        let i3 = spec_char_index(s[3]);
        if s.len() == 4 {
            if s[3] == PADDING_BYTE {
                if s[2] == PADDING_BYTE {
                    seq![dec_byte0(i0, i1)]
                } else {
                    seq![dec_byte0(i0, i1), dec_byte1(i1, i2)]
                }
            } else {
                seq![dec_byte0(i0, i1), dec_byte1(i1, i2), dec_byte2(i2, i3)]
            }
        } else {
            seq![dec_byte0(i0, i1), dec_byte1(i1, i2), dec_byte2(i2, i3)] + spec_decode(
                s.skip(4),
            )
        }
    }
}

/// Decodes the bytes of well-formed Base64 text back into the byte sequence
/// it encodes.
pub fn decode_bytes(s: &Vec<u8>) -> (out: Vec<u8>)
    requires
        spec_valid_base64(s@),
    ensures
        out@ == spec_decode(s@),
{
    let mut out: Vec<u8> = Vec::new();
    let mut i: usize = 0;
    proof {
        assert(s@.skip(0) =~= s@);
        assert(out@ + spec_decode(s@.skip(0)) =~= spec_decode(s@));
    }
    while i < s.len()
        invariant
            spec_valid_base64(s@),
            i <= s.len(),
            i % 4 == 0,
            out@ + spec_decode(s@.skip(i as int)) == spec_decode(s@),
        decreases s.len() - i,
    {
        let i0 = alphabet_index(s[i]);
        let i1 = alphabet_index(s[i + 1]);
        let i2 = alphabet_index(s[i + 2]);
        let i3 = alphabet_index(s[i + 3]);
        let d0 = (i0 << 2) | get_n_first_bit(i1 << 2, 2);
        let d1 = (get_n_last_bits(i1, 4) << 4) | get_n_first_bit(i2 << 2, 4);
        let d2 = (get_n_last_bits(i2, 2) << 6) | i3;
        out.push(d0);
        if s[i + 2] == PADDING_BYTE {
        } else if s[i + 3] == PADDING_BYTE {
            out.push(d1);
        } else {
            out.push(d1);
            out.push(d2);
        }
        proof {
            assert(s@.skip(i as int).skip(4) =~= s@.skip(i + 4));
            assert(out@ + spec_decode(s@.skip(i + 4)) =~= spec_decode(s@));
        }
        i = i + 4;
    }
    proof {
        assert(s@.skip(i as int) =~= Seq::<u8>::empty());
        assert(out@ =~= spec_decode(s@));
    }
    out
}

/// The encoded form of `bytes` holds 4 characters per started group of 3
/// input bytes; in particular its length is always a multiple of 4.
pub proof fn lemma_encode_length(bytes: Seq<u8>)
    ensures
        spec_encode(bytes).len() == 4 * ((bytes.len() + 2) / 3),
        spec_encode(bytes).len() % 4 == 0,
        bytes.len() > 0 ==> spec_encode(bytes).len() >= 4,
    decreases bytes.len(),
{
    if bytes.len() >= 3 {
        lemma_encode_length(bytes.skip(3));
    }
}

/// Alphabet closure: every character of an encoded sequence is in the
/// alphabet or is the padding character, the padding is a suffix of length
/// 0, 1 or 2 determined by the input length, and the whole output is
/// well-formed Base64 text.
pub proof fn lemma_encode_closure(bytes: Seq<u8>)
    ensures
        spec_valid_base64(spec_encode(bytes)),
        forall|i: int|
            0 <= i < spec_encode(bytes).len() ==> spec_is_alphabet(#[trigger] spec_encode(bytes)[i])
                || spec_encode(bytes)[i] == PADDING_BYTE,
        spec_num_padding(spec_encode(bytes)) == (if bytes.len() % 3 == 1 {
            2int
        } else if bytes.len() % 3 == 2 {
            1int
        } else {
            0int
        }),
    decreases bytes.len(),
{
    let s = spec_encode(bytes);
    lemma_encode_length(bytes);
    if bytes.len() == 0 {
    } else if bytes.len() == 1 {
        lemma_enc_char_bounds(bytes[0], 0, 0);
        lemma_alphabet_roundtrip(enc_char0(bytes[0]));
        lemma_alphabet_roundtrip(enc_char1(bytes[0], 0));
    } else if bytes.len() == 2 {
        lemma_enc_char_bounds(bytes[0], bytes[1], 0);
        lemma_alphabet_roundtrip(enc_char0(bytes[0]));
        lemma_alphabet_roundtrip(enc_char1(bytes[0], bytes[1]));
        lemma_alphabet_roundtrip(enc_char2(bytes[1], 0));
    } else {
        let rest = spec_encode(bytes.skip(3));
        lemma_encode_closure(bytes.skip(3));
        lemma_encode_length(bytes.skip(3));
        lemma_enc_char_bounds(bytes[0], bytes[1], bytes[2]);
        lemma_alphabet_roundtrip(enc_char0(bytes[0]));
        lemma_alphabet_roundtrip(enc_char1(bytes[0], bytes[1]));
        lemma_alphabet_roundtrip(enc_char2(bytes[1], bytes[2]));
        lemma_alphabet_roundtrip(enc_char3(bytes[2]));
        if rest.len() == 0 {
            assert(spec_num_padding(s) == 0);
        } else {
            assert(rest.len() >= 4);
            assert(s[s.len() - 1] == rest[rest.len() - 1]);
            assert(s[s.len() - 2] == rest[rest.len() - 2]);
            assert(spec_num_padding(s) == spec_num_padding(rest));
            assert(forall|i: int|
                0 <= i < s.len() - spec_num_padding(s) ==> spec_is_alphabet(#[trigger] s[i]));
        }
        assert(bytes.skip(3).len() % 3 == (bytes.len() - 3) % 3);
    }
}

/// Round trip: decoding the encoding of any byte sequence gives that
/// sequence back.
pub proof fn lemma_round_trip(bytes: Seq<u8>)
    ensures
        spec_decode(spec_encode(bytes)) == bytes,
    decreases bytes.len(),
{
    let s = spec_encode(bytes);
    if bytes.len() == 0 {
        assert(spec_decode(s) =~= bytes);
    } else if bytes.len() == 1 {
        let b0 = bytes[0];
        lemma_enc_char_bounds(b0, 0, 0);
        lemma_alphabet_roundtrip(enc_char0(b0));
        lemma_alphabet_roundtrip(enc_char1(b0, 0));
        lemma_group_roundtrip(b0, 0, 0);
        assert(spec_decode(s) =~= bytes);
    } else if bytes.len() == 2 {
        let b0 = bytes[0];
        let b1 = bytes[1];
        lemma_enc_char_bounds(b0, b1, 0);
        lemma_alphabet_roundtrip(enc_char0(b0));
        lemma_alphabet_roundtrip(enc_char1(b0, b1));
        lemma_alphabet_roundtrip(enc_char2(b1, 0));
        lemma_group_roundtrip(b0, b1, 0);
        assert(spec_decode(s) =~= bytes);
    } else {
        let b0 = bytes[0];
        let b1 = bytes[1];
        let b2 = bytes[2];
        let rest = spec_encode(bytes.skip(3));
        lemma_enc_char_bounds(b0, b1, b2);
        lemma_alphabet_roundtrip(enc_char0(b0));
        lemma_alphabet_roundtrip(enc_char1(b0, b1));
        lemma_alphabet_roundtrip(enc_char2(b1, b2));
        lemma_alphabet_roundtrip(enc_char3(b2));
        lemma_group_roundtrip(b0, b1, b2);
        lemma_round_trip(bytes.skip(3));
        lemma_encode_length(bytes.skip(3));
        if rest.len() == 0 {
            assert(spec_decode(s) =~= bytes);
        } else {
            assert(s.skip(4) =~= rest);
            assert(spec_decode(s) == seq![b0, b1, b2] + spec_decode(rest));
            assert(spec_decode(s) =~= bytes);
        }
    }
}

/// The text whose characters are the given bytes, read one character per
/// byte.
pub open spec fn bytes_as_chars(s: Seq<u8>) -> Seq<char> {
    Seq::new(s.len(), |i: int| s[i] as char)
}

/// The bytes of a text read one byte per character; faithful on ASCII text.
pub open spec fn chars_as_bytes(sc: Seq<char>) -> Seq<u8> {
    Seq::new(sc.len(), |i: int| sc[i] as u8)
}

/// Well-formed Base64 text, at the character level: ASCII text whose bytes
/// are well-formed Base64.
pub open spec fn spec_valid_base64_chars(sc: Seq<char>) -> bool {
    is_ascii_chars(sc) && spec_valid_base64(chars_as_bytes(sc))
}

/// Relies on `String::push`: appends exactly the one character given, here
/// the character whose code point is the byte `b`.
#[verifier::external_body]
fn push_byte_char(s: &mut String, b: u8)
    ensures
        final(s)@ == old(s)@.push(b as char),
{
    s.push(b as char);
}

fn bytes_to_string(v: &Vec<u8>) -> (r: String)
    ensures
        r@ == bytes_as_chars(v@),
{
    let mut r = String::new();
    let mut i: usize = 0;
    while i < v.len()
        invariant
            i <= v.len(),
            r@ == bytes_as_chars(v@.take(i as int)),
        decreases v.len() - i,
    {
        push_byte_char(&mut r, v[i]);
        proof {
            assert(r@ =~= bytes_as_chars(v@.take(i + 1)));
        }
        i = i + 1;
    }
    proof {
        assert(v@.take(v@.len() as int) =~= v@);
    }
    r
}

/// Encodes the UTF-8 bytes of `s` into their Base64 text.
pub fn encode(s: String) -> (r: String)
    ensures
        r@ == bytes_as_chars(spec_encode(encode_utf8(s@))),
{
    let bytes = s.as_str().as_bytes_vec();
    let out = encode_bytes(&bytes);
    bytes_to_string(&out)
}

/// Decides whether `s` is well-formed Base64 text, the domain on which
/// `decode` is defined.
pub fn is_valid_base64(s: &String) -> (r: bool)
    ensures
        r == spec_valid_base64_chars(s@),
{
    if !s.is_ascii() {
        return false;
    }
    proof {
        is_ascii_chars_encode_utf8(s@);
    }
    let bytes = s.as_str().as_bytes_vec();
    proof {
        assert(bytes@ =~= chars_as_bytes(s@));
    }
    let len = bytes.len();
    if len % 4 != 0 {
        return false;
    }
    let pad: usize = if len >= 1 && bytes[len - 1] == PADDING_BYTE {
        if len >= 2 && bytes[len - 2] == PADDING_BYTE {
            2
        } else {
            1
        }
    } else {
        0
    };
    assert(pad == spec_num_padding(bytes@));
    let mut j: usize = 0;
    while j < len - pad
        invariant
            pad <= len == bytes@.len(),
            pad == spec_num_padding(bytes@),
            bytes@.len() % 4 == 0,
            bytes@ == chars_as_bytes(s@),
            is_ascii_chars(s@),
            j <= len - pad,
            forall|k: int| 0 <= k < j ==> spec_is_alphabet(#[trigger] bytes@[k]),
        decreases len - pad - j,
    {
        if !is_alphabet_byte(bytes[j]) {
            return false;
        }
        j = j + 1;
    }
    true
}

/// Decodes well-formed Base64 text into the text whose characters are the
/// recovered bytes, one character per byte.
pub fn decode(s: String) -> (r: String)
    requires
        spec_valid_base64_chars(s@),
    ensures
        r@ == bytes_as_chars(spec_decode(chars_as_bytes(s@))),
{
    proof {
        is_ascii_chars_encode_utf8(s@);
    }
    let bytes = s.as_str().as_bytes_vec();
    proof {
        assert(bytes@ =~= chars_as_bytes(s@));
    }
    let out = decode_bytes(&bytes);
    bytes_to_string(&out)
}

/// Round trip at the text level: encoding ASCII text yields well-formed
/// Base64 text, and decoding that text gives the input text back.
pub proof fn lemma_round_trip_text(sc: Seq<char>)
    requires
        is_ascii_chars(sc),
    ensures
        spec_valid_base64_chars(bytes_as_chars(spec_encode(chars_as_bytes(sc)))),
        bytes_as_chars(
            spec_decode(chars_as_bytes(bytes_as_chars(spec_encode(chars_as_bytes(sc))))),
        ) == sc,
{
    let b = chars_as_bytes(sc);
    let e = spec_encode(b);
    let et = bytes_as_chars(e);
    lemma_encode_closure(b);
    assert(forall|i: int| 0 <= i < e.len() ==> #[trigger] e[i] < 128);
    assert(chars_as_bytes(et) =~= e);
    assert(is_ascii_chars(et));
    lemma_round_trip(b);
    assert(bytes_as_chars(spec_decode(chars_as_bytes(et))) =~= sc);
}

} // verus!
