//! Alphabets and their decode tables, shared by the text codecs.
//!
//! An alphabet is a sequence of distinct ASCII symbols, symbol `i` standing
//! for the value `i`. Its decode table has one entry per byte value: the
//! value of the byte when it is a symbol of the alphabet, and `INVALID`
//! otherwise.

use vstd::prelude::*;
use vstd::string::{StrSliceExecFns, StringExecFns};

verus! {

/// Decode-table entry of a byte that is not a symbol of the alphabet.
pub const INVALID: u8 = 0xFF;

/// The padding symbol that fills a short final group.
pub const PAD: u8 = 0x3D;

/// The position of the last occurrence of `c` in `a`, if any.
pub open spec fn last_index_of(a: Seq<u8>, c: u8) -> Option<nat>
    decreases a.len(),
{
    if a.len() == 0 {
        None
    } else if a.last() == c {
        Some((a.len() - 1) as nat)
    } else {
        last_index_of(a.drop_last(), c)
    }
}

/// The decode table of `a`: for each byte, the position of its last
/// occurrence in `a`, or `INVALID` where it does not occur.
pub open spec fn inverse_table(a: Seq<u8>) -> Seq<u8> {
    Seq::new(
        256,
        |c: int|
            match last_index_of(a, c as u8) {
                Some(i) => i as u8,
                None => INVALID,
            },
    )
}

/// `a` is an alphabet of `n` symbols: distinct ASCII bytes, none of them the
/// padding symbol.
pub open spec fn is_alphabet(a: Seq<u8>, n: nat) -> bool {
    &&& a.len() == n
    &&& a.no_duplicates()
    &&& forall|i: int| 0 <= i < a.len() ==> #[trigger] a[i] < 128 && a[i] != PAD
}

/// The characters of a sequence of ASCII bytes.
pub open spec fn ascii_chars(b: Seq<u8>) -> Seq<char> {
    Seq::new(b.len(), |i: int| b[i] as char)
}

/// Every byte of `b` is ASCII.
pub open spec fn all_ascii(b: Seq<u8>) -> bool {
    forall|i: int| 0 <= i < b.len() ==> #[trigger] b[i] < 128
}

proof fn lemma_last_index_of_bounds(a: Seq<u8>, c: u8)
    ensures
        match last_index_of(a, c) {
            Some(i) => i < a.len() && a[i as int] == c,
            None => forall|j: int| 0 <= j < a.len() ==> a[j] != c,
        },
    decreases a.len(),
{
    if a.len() > 0 && a.last() != c {
        let rest = a.drop_last();
        lemma_last_index_of_bounds(rest, c);
        assert forall|j: int| 0 <= j < rest.len() implies rest[j] == a[j] by {}
    }
}

proof fn lemma_last_index_of_distinct(a: Seq<u8>, i: int)
    requires
        a.no_duplicates(),
        0 <= i < a.len(),
    ensures
        last_index_of(a, a[i]) == Some(i as nat),
    decreases a.len(),
{
    if i < a.len() - 1 {
        assert(a.drop_last()[i] == a[i]);
        assert(a.drop_last().no_duplicates());
        lemma_last_index_of_distinct(a.drop_last(), i);
    }
}

/// The decode table of an alphabet inverts it: each symbol maps back to its
/// position, and every byte that is not a symbol maps to `INVALID`.
pub proof fn lemma_inverse_table(a: Seq<u8>)
    requires
        a.len() <= 255,
        a.no_duplicates(),
    ensures
        inverse_table(a).len() == 256,
        forall|i: int| 0 <= i < a.len() ==> inverse_table(a)[a[i] as int] == i,
        forall|c: u8|
            (forall|i: int| 0 <= i < a.len() ==> a[i] != c) ==> inverse_table(a)[c as int]
                == INVALID,
{
    assert forall|i: int| 0 <= i < a.len() implies inverse_table(a)[a[i] as int] == i by {
        lemma_last_index_of_distinct(a, i);
    }
    assert forall|c: u8| (forall|i: int| 0 <= i < a.len() ==> a[i] != c) implies inverse_table(
        a,
    )[c as int] == INVALID by {
        lemma_last_index_of_bounds(a, c);
    }
}

/// Builds the decode table of `alphabet`; where a byte occurs more than
/// once, its last position is kept.
pub fn invert_alphabet(alphabet: &[u8]) -> (m: Vec<u8>)
    requires
        alphabet@.len() <= 256,
    ensures
        m@ == inverse_table(alphabet@),
{
    let mut m = vec![INVALID; 256];
    let mut i: usize = 0;
    while i < alphabet.len()
        invariant
            i <= alphabet@.len() <= 256,
            m@.len() == 256,
            forall|c: int| 0 <= c < 256 ==> #[trigger] m@[c] == inverse_table(alphabet@.take(i as int))[c],
        decreases alphabet@.len() - i,
    {
        let c = alphabet[i];
        m.set(c as usize, i as u8);
        proof {
            let pre = alphabet@.take(i as int);
            let post = alphabet@.take(i + 1);
            assert(post.drop_last() =~= pre);
            assert forall|d: int| 0 <= d < 256 implies #[trigger] m@[d] == inverse_table(post)[d] by {
                if d != c as int {
                    assert(last_index_of(post, d as u8) == last_index_of(pre, d as u8));
                }
            }
        }
        i += 1;
    }
    assert(alphabet@.take(i as int) =~= alphabet@);
    assert(m@ =~= inverse_table(alphabet@));
    m
}

/// Relies on `String::from_utf8`: ASCII bytes are valid UTF-8, and each
/// becomes the character of the same code.
#[verifier::external_body]
pub(crate) fn ascii_string(b: Vec<u8>) -> (s: String)
    requires
        all_ascii(b@),
    ensures
        s@ == ascii_chars(b@),
{
    String::from_utf8(b).unwrap()
}

/// A table that maps each symbol of an alphabet to its position, and every
/// other byte to `INVALID`, is the alphabet's decode table.
pub proof fn lemma_table_matches(a: Seq<u8>, t: Seq<u8>)
    requires
        a.len() <= 255,
        a.no_duplicates(),
        t.len() == 256,
        forall|i: int| 0 <= i < a.len() ==> t[#[trigger] a[i] as int] == i,
        forall|c: int|
            0 <= c < 256 && #[trigger] t[c] != INVALID ==> t[c] < a.len() && a[t[c] as int] == c,
    ensures
        t == inverse_table(a),
{
    lemma_inverse_table(a);
    assert forall|c: int| 0 <= c < 256 implies #[trigger] t[c] == inverse_table(a)[c] by {
        if t[c] != INVALID {
            assert(a[t[c] as int] == c);
        } else {
            assert forall|i: int| 0 <= i < a.len() implies a[i] != c as u8 by {
                if a[i] == c as u8 {
                    assert(t[a[i] as int] == i);
                }
            }
        }
    }
    assert(t =~= inverse_table(a));
}

/// The character of the decimal digit `d`.
pub open spec fn digit_char(d: nat) -> char {
    "0123456789"@[d as int]
}

/// The decimal digits of `n`, most significant first, without leading zeros.
pub open spec fn decimal(n: nat) -> Seq<char>
    decreases n,
{
    if n < 10 {
        seq![digit_char(n)]
    } else {
        decimal(n / 10) + seq![digit_char(n % 10)]
    }
}

fn digit(d: u8) -> (r: &'static str)
    requires
        d < 10,
    ensures
        r@ == seq![digit_char(d as nat)],
{
    let digits = "0123456789";
    proof {
        reveal_strlit("0123456789");
    }
    let r = digits.substring_ascii(d as usize, d as usize + 1);
    assert(r@ =~= seq![digit_char(d as nat)]);
    r
}

/// The text `prefix` followed by `b` in decimal.
pub(crate) fn byte_message(prefix: &str, b: u8) -> (r: String)
    ensures
        r@ == prefix@ + decimal(b as nat),
{
    let mut s = String::from_str(prefix);
    proof {
        reveal_with_fuel(decimal, 3);
    }
    if b >= 100 {
        s.append(digit(b / 100));
    }
    if b >= 10 {
        s.append(digit((b / 10) % 10));
    }
    s.append(digit(b % 10));
    proof {
        if b >= 100 {
            assert(decimal(b as nat) =~= seq![digit_char(b as nat / 100)] + seq![
                digit_char((b as nat / 10) % 10),
            ] + seq![digit_char(b as nat % 10)]);
        } else if b >= 10 {
            assert(decimal(b as nat) =~= seq![digit_char((b as nat / 10) % 10)] + seq![
                digit_char(b as nat % 10),
            ]);
        }
        assert(s@ =~= prefix@ + decimal(b as nat));
    }
    s
}

} // verus!
