//! The ancestor suffixes of a domain: what is left after each dot but the last.
use vstd::prelude::*;

use vstd::utf8::{
    char_is_scalar, char_u32_cast, decode_utf8, encode_scalar, encode_utf8, has_width_1_encoding,
    is_char_boundary, is_char_boundary_iff_not_is_continuation_byte, length_of_first_scalar,
    pop_first_scalar, valid_utf8,
};

verus! {

/// The byte of the label separator `.`.
pub const DOT: u8 = 46;

/// `i` is a cut of the domain bytes `b`: a dot that has another dot after it,
/// so that what follows it is more than the top-level label.
pub open spec fn is_ancestor_cut(b: Seq<u8>, i: int) -> bool {
    &&& 0 <= i < b.len()
    &&& b[i] == DOT
    &&& exists|j: int| i < j < b.len() && b[j] == DOT
}

/// The text of `d` after its byte `i`.
pub open spec fn suffix_after(d: Seq<char>, i: int) -> Seq<char> {
    decode_utf8(encode_utf8(d).subrange(i + 1, encode_utf8(d).len() as int))
}

/// The strict ancestors of the domain `d` that are searched: the text after
/// every dot of `d` but the last one. The top-level label alone is never one.
pub open spec fn ancestor_suffixes(d: Seq<char>) -> Set<Seq<char>> {
    Set::new(|s: Seq<char>| exists|i: int| is_ancestor_cut(encode_utf8(d), i) && s == suffix_after(d, i))
}

/// In valid UTF-8 a character boundary follows every ASCII byte.
pub proof fn lemma_boundary_after_ascii(b: Seq<u8>, i: int)
    requires
        valid_utf8(b),
        0 <= i < b.len(),
        b[i] <= 0x7f,
    ensures
        is_char_boundary(b, i + 1),
    decreases b.len(),
{
    is_char_boundary_iff_not_is_continuation_byte(b, i);
    let n = length_of_first_scalar(b);
    if i < n {
        reveal_with_fuel(is_char_boundary, 2);
        assert(i == 0);
        assert(n == 1);
        assert(is_char_boundary(pop_first_scalar(b), 0));
    } else {
        let rest = pop_first_scalar(b);
        assert(rest[i - n] == b[i]);
        lemma_boundary_after_ascii(rest, i - n);
    }
}

/// The positions of the cuts of `domain`, from left to right.
pub fn ancestor_cuts(domain: &str) -> (r: Vec<usize>)
    ensures
        encode_utf8(domain@).len() <= usize::MAX,
        forall|k1: int, k2: int| 0 <= k1 < k2 < r@.len() ==> #[trigger] r@[k1] < #[trigger] r@[k2],
        forall|k: int| 0 <= k < r@.len() ==> is_ancestor_cut(encode_utf8(domain@), #[trigger] r@[k] as int),
        forall|i: int| is_ancestor_cut(encode_utf8(domain@), i) ==> exists|k: int| 0 <= k < r@.len() && #[trigger] r@[k] == i,
{
    let bytes = domain.as_bytes();
    let ghost b = bytes@;
    assert(b == encode_utf8(domain@));
    let mut seps: Vec<usize> = Vec::new();
    let mut i: usize = 0;
    while i < bytes.len()
        invariant
            b == bytes@,
            i <= b.len(),
            forall|k: int| 0 <= k < seps@.len() ==> #[trigger] seps@[k] < i && b[seps@[k] as int] == DOT,
            forall|k1: int, k2: int| 0 <= k1 < k2 < seps@.len() ==> #[trigger] seps@[k1] < #[trigger] seps@[k2],
            forall|p: int| 0 <= p < i && b[p] == DOT ==> exists|k: int| 0 <= k < seps@.len() && #[trigger] seps@[k] == p,
        decreases b.len() - i,
    {
        let ghost prev = seps@;
        if bytes[i] == DOT {
            seps.push(i);
        }
        i = i + 1;
        assert forall|p: int| 0 <= p < i && b[p] == DOT implies exists|k: int| 0 <= k < seps@.len() && #[trigger] seps@[k] == p by {
            if p == i - 1 {
                assert(seps@[seps@.len() - 1] == p);
            } else {
                let k = choose|k: int| 0 <= k < prev.len() && #[trigger] prev[k] == p;
                assert(seps@[k] == prev[k]);
            }
        }
    }
    let ghost all = seps@;
    if seps.len() > 0 {
        seps.pop();
        assert forall|k: int| 0 <= k < seps@.len() implies is_ancestor_cut(b, #[trigger] seps@[k] as int) by {
            assert(all[k] < all[all.len() - 1]);
            assert(b[all[all.len() - 1] as int] == DOT);
        }
        assert forall|p: int| is_ancestor_cut(b, p) implies exists|k: int| 0 <= k < seps@.len() && #[trigger] seps@[k] == p by {
            let j = choose|j: int| p < j < b.len() && b[j] == DOT;
            let k = choose|k: int| 0 <= k < all.len() && #[trigger] all[k] == p;
            let kj = choose|kj: int| 0 <= kj < all.len() && #[trigger] all[kj] == j;
            if k == all.len() - 1 {
                assert(all[kj] < all[k] || kj == k);
            }
            assert(seps@[k] == p);
        }
    }
    seps
}

/// The encoding of a concatenation is the concatenation of the encodings.
pub proof fn lemma_encode_concat(a: Seq<char>, b: Seq<char>)
    ensures
        encode_utf8(a + b) == encode_utf8(a) + encode_utf8(b),
    decreases a.len(),
{
    if a.len() == 0 {
        assert(a + b =~= b);
        assert(encode_utf8(a) + encode_utf8(b) =~= encode_utf8(b));
    } else {
        assert((a + b).drop_first() =~= a.drop_first() + b);
        assert((a + b)[0] == a[0]);
        lemma_encode_concat(a.drop_first(), b);
        assert(encode_utf8(a + b) =~= encode_utf8(a) + encode_utf8(b));
    }
}

/// The dot is encoded as the single byte `DOT`.
pub proof fn lemma_encode_dot()
    ensures
        encode_utf8(seq!['.']) == seq![DOT],
{
    let c: u32 = '.' as u32;
    assert(c == 46);
    assert((46u32 & 0x7Fu32) as u8 == 46u8) by (bit_vector);
    assert(seq!['.'].drop_first() =~= Seq::<char>::empty());
    assert(encode_utf8(Seq::<char>::empty()) =~= Seq::<u8>::empty());
    assert(encode_scalar(c) =~= seq![DOT]);
    assert(encode_utf8(seq!['.']) =~= encode_scalar(c) + encode_utf8(Seq::<char>::empty()));
    assert(encode_utf8(seq!['.']) =~= seq![DOT]);
}

/// A dot byte in the encoding of `s` comes from a dot character of `s`.
pub proof fn lemma_dot_byte_is_dot(s: Seq<char>, p: int)
    requires
        0 <= p < encode_utf8(s).len(),
        encode_utf8(s)[p] == DOT,
    ensures
        s.contains('.'),
    decreases s.len(),
{
    let c = s[0] as u32;
    let e = encode_scalar(c);
    char_is_scalar(s[0]);
    if p < e.len() {
        assert(e[p] == encode_utf8(s)[p]);
        if has_width_1_encoding(c) {
            assert(c <= 0x7F && (c & 0x7Fu32) as u8 == 46u8 ==> c == 46u32) by (bit_vector);
            char_u32_cast(s[0], c);
            char_u32_cast('.', 46u32);
            assert(s[0] == '.');
        } else {
            assert(forall|x: u8| #[trigger] (0x80u8 | x) >= 0x80u8) by (bit_vector);
            assert(forall|x: u8| #[trigger] (0xC0u8 | x) >= 0x80u8) by (bit_vector);
            assert(forall|x: u8| #[trigger] (0xE0u8 | x) >= 0x80u8) by (bit_vector);
            assert(forall|x: u8| #[trigger] (0xF0u8 | x) >= 0x80u8) by (bit_vector);
            assert(e[p] >= 0x80);
        }
    } else {
        let rest = s.drop_first();
        assert(encode_utf8(s) =~= e + encode_utf8(rest));
        assert(encode_utf8(rest)[p - e.len()] == encode_utf8(s)[p]);
        lemma_dot_byte_is_dot(rest, p - e.len());
        let m = choose|m: int| 0 <= m < rest.len() && rest[m] == '.';
        assert(s[m + 1] == '.');
    }
}

} // verus!
