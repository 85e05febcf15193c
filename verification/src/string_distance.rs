//! Levenshtein distance and the similarity score derived from it.

use vstd::prelude::*;

use crate::ratio::Ratio;

verus! {

pub open spec fn min_nat(a: nat, b: nat) -> nat {
    if a <= b {
        a
    } else {
        b
    }
}

/// Fewest single-byte insertions, deletions and substitutions turning `a`
/// into `b`.
pub open spec fn edit_distance(a: Seq<u8>, b: Seq<u8>) -> nat
    decreases a.len() + b.len(),
{
    if a.len() == 0 {
        b.len()
    } else if b.len() == 0 {
        a.len()
    } else {
        let cost: nat = if a.last() == b.last() {
            0
        } else {
            1
        };
        min_nat(
            min_nat(
                edit_distance(a.drop_last(), b.drop_last()) + cost,
                edit_distance(a.drop_last(), b) + 1,
            ),
            edit_distance(a, b.drop_last()) + 1,
        )
    }
}

/// The distance never exceeds the longer input.
pub proof fn lemma_edit_distance_bound(a: Seq<u8>, b: Seq<u8>)
    ensures
        edit_distance(a, b) <= if a.len() >= b.len() {
            a.len()
        } else {
            b.len()
        },
    decreases a.len() + b.len(),
{
    if a.len() > 0 && b.len() > 0 {
        lemma_edit_distance_bound(a.drop_last(), b.drop_last());
    }
}

/// A sequence is at distance zero from itself.
pub proof fn lemma_edit_distance_self(a: Seq<u8>)
    ensures
        edit_distance(a, a) == 0,
    decreases a.len(),
{
    if a.len() > 0 {
        lemma_edit_distance_self(a.drop_last());
    }
}

/// The distance is zero exactly between equal sequences.
pub proof fn lemma_edit_distance_zero(a: Seq<u8>, b: Seq<u8>)
    ensures
        edit_distance(a, b) == 0 <==> a == b,
    decreases a.len() + b.len(),
{
    if a.len() == 0 && b.len() == 0 {
        assert(a =~= b);
    }
    if a == b {
        lemma_edit_distance_self(a);
    } else if a.len() > 0 && b.len() > 0 {
        lemma_edit_distance_zero(a.drop_last(), b.drop_last());
        if edit_distance(a, b) == 0 {
            assert(a.last() == b.last());
            assert(a.drop_last() == b.drop_last());
            assert forall|i: int| 0 <= i < a.len() implies a[i] == b[i] by {
                if i < a.len() - 1 {
                    assert(a.drop_last()[i] == b.drop_last()[i]);
                }
            }
            assert(a =~= b);
        }
    }
}

/// The distance is at least the difference of the lengths.
pub proof fn lemma_edit_distance_lower(a: Seq<u8>, b: Seq<u8>)
    ensures
        edit_distance(a, b) >= if a.len() >= b.len() {
            a.len() - b.len()
        } else {
            b.len() - a.len()
        },
    decreases a.len() + b.len(),
{
    if a.len() > 0 && b.len() > 0 {
        lemma_edit_distance_lower(a.drop_last(), b.drop_last());
        lemma_edit_distance_lower(a.drop_last(), b);
        lemma_edit_distance_lower(a, b.drop_last());
    }
}

/// The distance is the same both ways.
pub proof fn lemma_edit_distance_symmetric(a: Seq<u8>, b: Seq<u8>)
    ensures
        edit_distance(a, b) == edit_distance(b, a),
    decreases a.len() + b.len(),
{
    if a.len() > 0 && b.len() > 0 {
        lemma_edit_distance_symmetric(a.drop_last(), b.drop_last());
        lemma_edit_distance_symmetric(a.drop_last(), b);
        lemma_edit_distance_symmetric(a, b.drop_last());
    }
}

/// The byte length of the longer of two strings.
pub open spec fn longer_len(left: &str, right: &str) -> nat {
    if vstd::utf8::encode_utf8(left@).len() >= vstd::utf8::encode_utf8(right@).len() {
        vstd::utf8::encode_utf8(left@).len()
    } else {
        vstd::utf8::encode_utf8(right@).len()
    }
}

/// The similarity of two texts as a fraction: `(longer - distance) / longer`
/// over their UTF-8 bytes, and `1/1` when both are empty.
pub open spec fn similarity_spec(a: Seq<char>, b: Seq<char>) -> (nat, nat) {
    let la = vstd::utf8::encode_utf8(a).len();
    let lb = vstd::utf8::encode_utf8(b).len();
    let longer = if la >= lb {
        la
    } else {
        lb
    };
    if longer == 0 {
        (1, 1)
    } else {
        (
            (longer - edit_distance(vstd::utf8::encode_utf8(a), vstd::utf8::encode_utf8(b))) as nat,
            longer,
        )
    }
}

/// Similarity is a fraction between zero and one, a text is fully similar
/// to itself, and the score is the same both ways.
pub proof fn lemma_similarity_range(a: Seq<char>, b: Seq<char>)
    ensures
        similarity_spec(a, b).1 > 0,
        similarity_spec(a, b).0 <= similarity_spec(a, b).1,
        similarity_spec(a, a).0 == similarity_spec(a, a).1,
        similarity_spec(a, b) == similarity_spec(b, a),
{
    let ea = vstd::utf8::encode_utf8(a);
    let eb = vstd::utf8::encode_utf8(b);
    lemma_edit_distance_bound(ea, eb);
    lemma_edit_distance_self(ea);
    lemma_edit_distance_symmetric(ea, eb);
}

/// Standard O(n·m) Levenshtein distance on bytes.
pub fn levenshtein_distance(left: &str, right: &str) -> (d: usize)
    requires
        vstd::utf8::encode_utf8(left@).len() < usize::MAX,
        vstd::utf8::encode_utf8(right@).len() < usize::MAX,
    ensures
        d == edit_distance(vstd::utf8::encode_utf8(left@), vstd::utf8::encode_utf8(right@)),
{
    let left_bytes = left.as_bytes();
    let right_bytes = right.as_bytes();
    let ghost a = left_bytes@;
    let ghost b = right_bytes@;
    let right_length = right_bytes.len();
    let left_length = left_bytes.len();

    // Single-row DP; only the previous row is needed.
    let mut previous_row: Vec<usize> = Vec::with_capacity(right_length + 1);
    let mut j: usize = 0;
    while j <= right_length
        invariant
            a == left_bytes@,
            b == right_bytes@,
            right_length == b.len(),
            right_length < usize::MAX,
            j <= right_length + 1,
            previous_row@.len() == j,
            forall|t: int| 0 <= t < j ==> previous_row@[t] == edit_distance(a.take(0), b.take(t)),
        decreases right_length + 1 - j,
    {
        proof {
            assert(a.take(0).len() == 0);
        }
        previous_row.push(j);
        j += 1;
    }
    let mut current_row: Vec<usize> = Vec::with_capacity(right_length + 1);
    let mut fill: usize = 0;
    while fill <= right_length
        invariant
            right_length < usize::MAX,
            fill <= right_length + 1,
            current_row@.len() == fill,
        decreases right_length + 1 - fill,
    {
        current_row.push(0);
        fill += 1;
    }

    let mut left_index: usize = 0;
    while left_index < left_length
        invariant
            a == left_bytes@,
            b == right_bytes@,
            left_length == a.len(),
            left_length < usize::MAX,
            right_length == b.len(),
            right_length < usize::MAX,
            left_index <= left_length,
            previous_row@.len() == right_length + 1,
            current_row@.len() == right_length + 1,
            forall|t: int|
                0 <= t <= right_length ==> previous_row@[t] == edit_distance(
                    a.take(left_index as int),
                    b.take(t),
                ),
        decreases left_length - left_index,
    {
        let left_byte = left_bytes[left_index];
        let ghost ap = a.take(left_index as int);
        let ghost an = a.take(left_index + 1);
        proof {
            assert(an.drop_last() =~= ap);
            assert(an.last() == left_byte);
            assert(b.take(0).len() == 0);
            lemma_edit_distance_bound(an, b.take(0));
        }
        current_row.set(0, left_index + 1);
        let mut right_index: usize = 0;
        while right_index < right_length
            invariant
                a == left_bytes@,
                b == right_bytes@,
                left_length == a.len(),
                left_length < usize::MAX,
                right_length == b.len(),
                right_length < usize::MAX,
                left_index < left_length,
                ap == a.take(left_index as int),
                an == a.take(left_index + 1),
                an.drop_last() == ap,
                an.last() == left_byte,
                right_index <= right_length,
                previous_row@.len() == right_length + 1,
                current_row@.len() == right_length + 1,
                forall|t: int|
                    0 <= t <= right_length ==> previous_row@[t] == edit_distance(ap, b.take(t)),
                forall|t: int|
                    0 <= t <= right_index ==> current_row@[t] == edit_distance(an, b.take(t)),
            decreases right_length - right_index,
        {
            let right_byte = right_bytes[right_index];
            let ghost bp = b.take(right_index as int);
            let ghost bn = b.take(right_index + 1);
            proof {
                assert(bn.drop_last() =~= bp);
                assert(bn.last() == right_byte);
                lemma_edit_distance_bound(ap, bn);
                lemma_edit_distance_bound(an, bp);
                lemma_edit_distance_bound(ap, bp);
                lemma_edit_distance_bound(an, bn);
            }
            let substitution_cost: usize = if left_byte != right_byte {
                1
            } else {
                0
            };
            let diagonal = previous_row[right_index] + substitution_cost;
            let above = previous_row[right_index + 1] + 1;
            let beside = current_row[right_index] + 1;
            let mut best = if diagonal <= above {
                diagonal
            } else {
                above
            };
            if beside < best {
                best = beside;
            }
            current_row.set(right_index + 1, best);
            right_index += 1;
        }
        std::mem::swap(&mut previous_row, &mut current_row);
        left_index += 1;
    }
    proof {
        assert(a.take(left_length as int) =~= a);
        assert(b.take(right_length as int) =~= b);
    }
    previous_row[right_length]
}

/// Similarity in `[0, 1]` based on Levenshtein distance, normalised by the
/// byte length of the longer string: `1 - distance / longer`, and `1` for two
/// empty strings. Returned as an exact fraction.
pub fn normalised_similarity(left: &str, right: &str) -> (s: Ratio)
    requires
        vstd::utf8::encode_utf8(left@).len() < usize::MAX,
        vstd::utf8::encode_utf8(right@).len() < usize::MAX,
    ensures
        s.wf(),
        (s.numerator as nat, s.denominator as nat) == similarity_spec(left@, right@),
        longer_len(left, right) == 0 ==> s.numerator == 1 && s.denominator == 1,
        longer_len(left, right) > 0 ==> s.denominator == longer_len(left, right)
            && s.numerator + edit_distance(vstd::utf8::encode_utf8(left@), vstd::utf8::encode_utf8(right@)) == longer_len(
            left,
            right,
        ),
{
    let left_length = left.len();
    let right_length = right.len();
    let max_length = if left_length >= right_length {
        left_length
    } else {
        right_length
    };
    if max_length == 0 {
        return Ratio::new(1, 1);
    }
    let distance = levenshtein_distance(left, right);
    proof {
        lemma_edit_distance_bound(vstd::utf8::encode_utf8(left@), vstd::utf8::encode_utf8(right@));
    }
    Ratio::new(max_length - distance, max_length)
}

} // verus!
