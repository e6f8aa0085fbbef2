//! Byte offsets in UTF-8 text, and text out of bytes.

use vstd::prelude::*;

verus! {

/// The text that bytes stand for, with a replacement character for what is not UTF-8.
pub uninterp spec fn lossy(bytes: Seq<u8>) -> Seq<char>;

/// `String::from_utf8_lossy` gives a text that depends on the bytes alone. UTF-8 is decoded as it
/// is.
#[verifier::external_body]
pub(crate) fn from_utf8_lossy(bytes: &[u8]) -> (r: String)
    ensures
        r@ == lossy(bytes@),
        vstd::utf8::valid_utf8(bytes@) ==> r@ == vstd::utf8::decode_utf8(bytes@),
{
    String::from_utf8_lossy(bytes).into_owned()
}

/// `std::str::from_utf8` gives the text that bytes write where they are UTF-8, and an error where
/// they are not.
#[verifier::external_body]
pub(crate) fn from_utf8(bytes: &[u8]) -> (r: Option<String>)
    ensures
        r is Some <==> vstd::utf8::valid_utf8(bytes@),
        r matches Some(s) ==> s@ == vstd::utf8::decode_utf8(bytes@),
{
    match std::str::from_utf8(bytes) {
        Ok(s) => Some(s.to_string()),
        Err(_) => None,
    }
}

/// How many bytes a character takes.
pub open spec fn width(c: char) -> int {
    if (c as u32) < 0x80 {
        1
    } else if (c as u32) < 0x800 {
        2
    } else if (c as u32) < 0x10000 {
        3
    } else {
        4
    }
}

/// How many bytes a text takes.
pub open spec fn bytes_in(s: Seq<char>) -> int
    decreases s.len(),
{
    if s.len() == 0 {
        0
    } else {
        bytes_in(s.drop_last()) + width(s.last())
    }
}

/// Whether the byte `b` is where the character `i` begins, or where the text ends.
pub open spec fn is_at(s: Seq<char>, i: int, b: int) -> bool {
    0 <= i <= s.len() && bytes_in(s.take(i)) == b
}

/// Whether a character begins, or the text ends, at the byte `b`.
pub open spec fn is_boundary(s: Seq<char>, b: int) -> bool {
    exists|i: int| #[trigger] is_at(s, i, b)
}

/// The character that begins at the byte `b`.
pub open spec fn char_at(s: Seq<char>, b: int) -> int {
    choose|i: int| #[trigger] is_at(s, i, b)
}

/// The text between two bytes, which is empty where they are in the wrong order or inside a
/// character.
pub open spec fn part(s: Seq<char>, from: int, to: int) -> Seq<char> {
    if from <= to && is_boundary(s, from) && is_boundary(s, to) {
        s.subrange(char_at(s, from), char_at(s, to))
    } else {
        seq![]
    }
}

/// Two texts take as many bytes as both of them.
pub proof fn lemma_bytes_concat(a: Seq<char>, b: Seq<char>)
    ensures
        bytes_in(a + b) == bytes_in(a) + bytes_in(b),
    decreases b.len(),
{
    if b.len() == 0 {
        assert(a + b =~= a);
    } else {
        assert((a + b).drop_last() =~= a + b.drop_last());
        lemma_bytes_concat(a, b.drop_last());
    }
}

/// A text takes at least a byte for each character, and four at most.
pub proof fn lemma_bytes_bound(s: Seq<char>)
    ensures
        s.len() <= bytes_in(s) <= 4 * s.len(),
    decreases s.len(),
{
    if s.len() > 0 {
        lemma_bytes_bound(s.drop_last());
    }
}

/// A later character begins at a later byte.
pub proof fn lemma_bytes_grow(s: Seq<char>, i: int, j: int)
    requires
        0 <= i <= j <= s.len(),
    ensures
        bytes_in(s.take(i)) + (j - i) <= bytes_in(s.take(j)),
{
    assert(s.take(j) =~= s.take(i) + s.subrange(i, j));
    lemma_bytes_concat(s.take(i), s.subrange(i, j));
    lemma_bytes_bound(s.subrange(i, j));
}

/// One character at most begins at a byte.
pub proof fn lemma_at_one(s: Seq<char>, i: int, b: int)
    requires
        is_at(s, i, b),
    ensures
        is_boundary(s, b),
        char_at(s, b) == i,
{
    let k = char_at(s, b);
    assert(is_at(s, k, b));
    if i < k {
        lemma_bytes_grow(s, i, k);
    } else if k < i {
        lemma_bytes_grow(s, k, i);
    }
}

/// Bytes in order belong to characters in order.
pub proof fn lemma_in_order(s: Seq<char>, a: int, b: int)
    requires
        a <= b,
        is_boundary(s, a),
        is_boundary(s, b),
    ensures
        0 <= char_at(s, a) <= char_at(s, b) <= s.len(),
        is_at(s, char_at(s, a), a),
        is_at(s, char_at(s, b), b),
{
    let i = char_at(s, a);
    let j = char_at(s, b);
    assert(is_at(s, i, a) && is_at(s, j, b));
    if j < i {
        lemma_bytes_grow(s, j, i);
    }
}

/// The text takes as many bytes as its encoding.
pub proof fn lemma_bytes_encoded(s: Seq<char>)
    ensures
        vstd::utf8::encode_utf8(s).len() == bytes_in(s),
    decreases s.len(),
{
    if s.len() > 0 {
        let rest = s.drop_first();
        lemma_bytes_encoded(rest);
        vstd::utf8::char_is_scalar(s[0]);
        assert(vstd::utf8::encode_scalar(s[0] as u32).len() == width(s[0]));
        assert(s =~= seq![s[0]] + rest);
        lemma_bytes_concat(seq![s[0]], rest);
        assert(seq![s[0]].drop_last() =~= Seq::<char>::empty());
        assert(bytes_in(seq![s[0]].drop_last()) == 0);
        assert(bytes_in(seq![s[0]]) == width(s[0]));
    }
}

/// How many bytes a character takes.
pub fn width_of(c: char) -> (r: usize)
    ensures
        r == width(c),
{
    let code: u32 = c as u32;
    if code < 0x80 {
        1
    } else if code < 0x800 {
        2
    } else if code < 0x10000 {
        3
    } else {
        4
    }
}

/// How many bytes a text takes.
pub fn byte_len(s: &str) -> (r: usize)
    ensures
        r == bytes_in(s@),
{
    proof {
        lemma_bytes_encoded(s@);
    }
    s.as_bytes().len()
}

/// The character that begins at the byte `b`, if one does or the text ends there.
pub fn locate(s: &[char], b: usize) -> (r: Option<usize>)
    ensures
        r is Some <==> is_boundary(s@, b as int),
        r matches Some(i) ==> i <= s@.len() && is_at(s@, i as int, b as int) && i == char_at(
            s@,
            b as int,
        ),
{
    let mut i: usize = 0;
    let mut sum: usize = 0;
    while i < s.len() && sum < b
        invariant
            i <= s@.len(),
            sum <= b,
            sum == bytes_in(s@.take(i as int)),
        decreases s@.len() - i,
    {
        let w: usize = width_of(s[i]);
        proof {
            assert(s@.take(i + 1).drop_last() =~= s@.take(i as int));
            assert(s@.take(i + 1).last() == s@[i as int]);
            assert(bytes_in(s@.take(i + 1)) == sum + w);
        }
        if w > b - sum {
            proof {
                if is_boundary(s@, b as int) {
                    let k = char_at(s@, b as int);
                    assert(is_at(s@, k, b as int));
                    if k <= i {
                        lemma_bytes_grow(s@, k, i as int);
                    } else {
                        lemma_bytes_grow(s@, i + 1, k);
                    }
                }
            }
            return None;
        }
        sum += w;
        i += 1;
    }
    if sum == b {
        proof {
            lemma_at_one(s@, i as int, b as int);
        }
        Some(i)
    } else {
        proof {
            if is_boundary(s@, b as int) {
                let k = char_at(s@, b as int);
                assert(is_at(s@, k, b as int));
                lemma_bytes_grow(s@, k, i as int);
            }
        }
        None
    }
}

/// The text between two bytes, which is empty where they are in the wrong order or inside a
/// character.
pub fn part_of(s: &[char], from: usize, to: usize) -> (r: Vec<char>)
    ensures
        r@ == part(s@, from as int, to as int),
{
    if from > to {
        return Vec::new();
    }
    match (locate(s, from), locate(s, to)) {
        (Some(i), Some(j)) => {
            proof {
                lemma_in_order(s@, from as int, to as int);
            }
            let r: Vec<char> = vstd::slice::slice_to_vec(vstd::slice::slice_subrange(s, i, j));
            assert(r@ =~= s@.subrange(i as int, j as int));
            r
        },
        _ => Vec::new(),
    }
}

/// What is between two texts is found by the bytes that they take.
pub proof fn law_a_part_is_what_is_between(a: Seq<char>, b: Seq<char>, c: Seq<char>)
    ensures
        part(a + b + c, bytes_in(a), bytes_in(a) + bytes_in(b)) == b,
        bytes_in(a + b) == bytes_in(a) + bytes_in(b),
{
    let s = a + b + c;
    let i = a.len() as int;
    let j = i + b.len();
    assert(s.take(i) =~= a);
    assert(s.take(j) =~= a + b);
    lemma_bytes_concat(a, b);
    lemma_bytes_bound(b);
    assert(is_at(s, i, bytes_in(a)));
    assert(is_at(s, j, bytes_in(a) + bytes_in(b)));
    lemma_at_one(s, i, bytes_in(a));
    lemma_at_one(s, j, bytes_in(a) + bytes_in(b));
    assert(s.subrange(i, j) =~= b);
}

/// A place inside a character is no boundary, and no part begins there.
pub proof fn law_no_part_begins_inside_a_character(
    a: Seq<char>,
    x: char,
    c: Seq<char>,
    k: int,
    to: int,
)
    requires
        0 < k < width(x),
    ensures
        !is_boundary(a + seq![x] + c, bytes_in(a) + k),
        part(a + seq![x] + c, bytes_in(a) + k, to) == Seq::<char>::empty(),
{
    let s = a + seq![x] + c;
    let n = a.len() as int;
    if is_boundary(s, bytes_in(a) + k) {
        let i = choose|i: int| #[trigger] is_at(s, i, bytes_in(a) + k);
        assert(s.take(n) =~= a);
        assert(s.take(n + 1).drop_last() =~= a);
        assert(s.take(n + 1).last() == x);
        assert(bytes_in(s.take(n + 1)) == bytes_in(a) + width(x));
        if i <= n {
            lemma_bytes_grow(s, i, n);
        } else {
            lemma_bytes_grow(s, n + 1, i);
        }
    }
}

} // verus!
