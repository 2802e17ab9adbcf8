//! The BLAKE3 hasher this crate's identities are made of, and hex rendering.
//!
//! A `blake3::Hasher` is an accumulator: what it finalises to depends only on
//! the bytes it has absorbed. So it is modelled by a name for those bytes,
//! [`hasher_input`], and a name for the digest of a byte string,
//! [`blake3_digest`]; the four wrappers below are the only calls into the crate.

use vstd::prelude::*;

verus! {

/// The outside incremental hasher, carried opaquely.
#[verifier::external_type_specification]
#[verifier::external_body]
pub struct ExHasher(blake3::Hasher);

/// The bytes a hasher has absorbed, in order.
pub uninterp spec fn hasher_input(h: blake3::Hasher) -> Seq<u8>;

/// The 32-byte BLAKE3 digest of a byte string.
pub uninterp spec fn blake3_digest(data: Seq<u8>) -> Seq<u8>;

/// `blake3::Hasher::new`: a hasher that has absorbed nothing.
#[verifier::external_body]
pub(crate) fn hasher_new() -> (h: blake3::Hasher)
    ensures
        hasher_input(h) == Seq::<u8>::empty(),
{
    blake3::Hasher::new()
}

/// `blake3::Hasher::update`: appends `data` to what the hasher has absorbed.
///
/// Its tree state holds at most 2⁵⁴ chunks of 1 KiB, so the total input is
/// kept below 2⁶⁴ bytes.
#[verifier::external_body]
pub(crate) fn hasher_update(h: &mut blake3::Hasher, data: &[u8])
    requires
        hasher_input(*old(h)).len() + data@.len() <= u64::MAX,
    ensures
        hasher_input(*final(h)) == hasher_input(*old(h)) + data@,
{
    h.update(data);
}

/// `Clone` for `blake3::Hasher`: a copy that has absorbed the same bytes.
#[verifier::external_body]
pub(crate) fn hasher_clone(h: &blake3::Hasher) -> (r: blake3::Hasher)
    ensures
        hasher_input(r) == hasher_input(*h),
{
    h.clone()
}

/// `blake3::Hasher::finalize`: the digest of everything absorbed, as its 32 bytes.
///
/// The crate documents that this equals `blake3::hash` of the concatenated
/// input, so the result is named as a function of that input alone.
#[verifier::external_body]
pub(crate) fn hasher_finalize(h: &blake3::Hasher) -> (r: [u8; 32])
    ensures
        r@ == blake3_digest(hasher_input(*h)),
{
    *h.finalize().as_bytes()
}

/// The lowercase hexadecimal digit for `d < 16`.
pub open spec fn hex_char(d: u8) -> char {
    if d < 10 {
        (('0' as u8) + d) as char
    } else {
        (('a' as u8) + d - 10) as char
    }
}

/// Lowercase hex, two digits per byte, high nibble first.
pub open spec fn hex_lower(b: Seq<u8>) -> Seq<char>
    decreases b.len(),
{
    if b.len() == 0 {
        Seq::empty()
    } else {
        hex_lower(b.drop_last()) + seq![hex_char(b.last() >> 4u8), hex_char(b.last() & 0x0fu8)]
    }
}

/// The prefix every digest string carries.
pub open spec fn digest_prefix() -> Seq<char> {
    seq!['b', 'l', 'a', 'k', 'e', '3', ':']
}

/// `blake3:` followed by the hex of `digest`.
pub open spec fn digest_string(digest: Seq<u8>) -> Seq<char> {
    digest_prefix() + hex_lower(digest)
}

proof fn lemma_hex_lower_len(b: Seq<u8>)
    ensures
        hex_lower(b).len() == 2 * b.len(),
    decreases b.len(),
{
    if b.len() > 0 {
        lemma_hex_lower_len(b.drop_last());
    }
}

proof fn lemma_hex_char_injective(x: u8, y: u8)
    requires
        x < 16,
        y < 16,
        hex_char(x) == hex_char(y),
    ensures
        x == y,
{
}

/// Two digests render to the same string only if they are the same digest:
/// the rendering loses nothing, so comparing digest strings compares digests.
pub proof fn law_rendering_is_injective(a: Seq<u8>, b: Seq<u8>)
    requires
        digest_string(a) == digest_string(b),
    ensures
        a == b,
    decreases a.len(),
{
    lemma_hex_lower_len(a);
    lemma_hex_lower_len(b);
    let ha = hex_lower(a);
    let hb = hex_lower(b);
    assert(ha =~= digest_string(a).skip(7));
    assert(hb =~= digest_string(b).skip(7));
    assert(ha == hb);
    if a.len() == 0 {
        assert(a =~= b);
    } else {
        let x = a.last();
        let y = b.last();
        let n = ha.len();
        assert(ha[n - 2] == hex_char(x >> 4u8) && ha[n - 1] == hex_char(x & 0x0fu8));
        assert(hb[n - 2] == hex_char(y >> 4u8) && hb[n - 1] == hex_char(y & 0x0fu8));
        assert((x >> 4u8) < 16u8 && (x & 0x0fu8) < 16u8 && (y >> 4u8) < 16u8 && (y & 0x0fu8) < 16u8)
            by (bit_vector);
        lemma_hex_char_injective(x >> 4u8, y >> 4u8);
        lemma_hex_char_injective(x & 0x0fu8, y & 0x0fu8);
        assert(x == y) by (bit_vector)
            requires
                x >> 4u8 == y >> 4u8,
                x & 0x0fu8 == y & 0x0fu8,
        ;
        lemma_hex_lower_len(a.drop_last());
        lemma_hex_lower_len(b.drop_last());
        assert(hex_lower(a.drop_last()) =~= ha.take(n - 2));
        assert(hex_lower(b.drop_last()) =~= hb.take(n - 2));
        assert(digest_string(a.drop_last()) =~= digest_string(b.drop_last()));
        law_rendering_is_injective(a.drop_last(), b.drop_last());
        assert(a =~= a.drop_last().push(x));
        assert(b =~= b.drop_last().push(y));
    }
}

/// One hex digit as a one-character string.
pub(crate) fn hex_digit(d: u8) -> (r: &'static str)
    requires
        d < 16,
    ensures
        r@ == seq![hex_char(d)],
{
    proof {
        reveal_strlit("0");
        reveal_strlit("1");
        reveal_strlit("2");
        reveal_strlit("3");
        reveal_strlit("4");
        reveal_strlit("5");
        reveal_strlit("6");
        reveal_strlit("7");
        reveal_strlit("8");
        reveal_strlit("9");
        reveal_strlit("a");
        reveal_strlit("b");
        reveal_strlit("c");
        reveal_strlit("d");
        reveal_strlit("e");
        reveal_strlit("f");
    }
    let r = match d {
        0 => "0",
        1 => "1",
        2 => "2",
        3 => "3",
        4 => "4",
        5 => "5",
        6 => "6",
        7 => "7",
        8 => "8",
        9 => "9",
        10 => "a",
        11 => "b",
        12 => "c",
        13 => "d",
        14 => "e",
        _ => "f",
    };
    assert(r@ =~= seq![hex_char(d)]);
    r
}

/// `blake3:` followed by the lowercase hex of `digest`.
pub fn render_digest(digest: &[u8]) -> (r: String)
    ensures
        r@ == digest_string(digest@),
{
    proof {
        reveal_strlit("blake3:");
    }
    let mut out = String::from_str("blake3:");
    let mut i: usize = 0;
    while i < digest.len()
        invariant
            i <= digest@.len(),
            out@ == digest_prefix() + hex_lower(digest@.take(i as int)),
        decreases digest@.len() - i,
    {
        let b = digest[i];
        assert((b >> 4u8) < 16u8 && (b & 0x0fu8) < 16u8) by (bit_vector);
        out.append(hex_digit(b >> 4u8));
        out.append(hex_digit(b & 0x0fu8));
        proof {
            let t = digest@.take(i + 1);
            assert(t.drop_last() =~= digest@.take(i as int));
            assert(t.last() == b);
        }
        i = i + 1;
    }
    assert(digest@.take(digest@.len() as int) =~= digest@);
    out
}

} // verus!
