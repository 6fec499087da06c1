//! Words as sequences of characters, and the relation that links two words
//! when they differ in exactly one position.

use vstd::prelude::*;
use vstd::std_specs::iter::IteratorSpec;

verus! {

/// Position `i` exists in both words and they hold different characters there.
pub open spec fn differ_at(a: Seq<char>, b: Seq<char>, i: int) -> bool {
    0 <= i < a.len() && i < b.len() && a[i] != b[i]
}

/// Exactly one position holds different characters in the two words. Only the
/// positions that both words have are compared, so a longer word's tail is
/// ignored; for words of equal length this is the usual relation of a word
/// ladder.
pub open spec fn one_char_diff(a: Seq<char>, b: Seq<char>) -> bool {
    exists|i: int| #[trigger]
        differ_at(a, b, i) && forall|j: int| #[trigger] differ_at(a, b, j) ==> j == i
}

/// The relation does not depend on the order of the two words.
pub proof fn lemma_one_char_diff_symmetric(a: Seq<char>, b: Seq<char>)
    ensures
        one_char_diff(a, b) == one_char_diff(b, a),
{
    assert forall|x: Seq<char>, y: Seq<char>| one_char_diff(x, y) implies one_char_diff(y, x) by {
        let i = choose|i: int| #[trigger]
            differ_at(x, y, i) && forall|j: int| #[trigger] differ_at(x, y, j) ==> j == i;
        assert(differ_at(y, x, i));
        assert forall|j: int| #[trigger] differ_at(y, x, j) implies j == i by {
            assert(differ_at(x, y, j));
        }
    }
}

/// Whether the two words differ in exactly one of the positions that both have.
pub fn is_one_char_diff(s1: &str, s2: &str) -> (result: bool)
    ensures
        result == one_char_diff(s1@, s2@),
{
    broadcast use vstd::string::group_string_axioms;

    let mut left = s1.chars();
    let mut right = s2.chars();
    let mut counter: usize = 0;
    let ghost mut k: int = 0;
    let ghost mut seen: int = 0;
    loop
        invariant_except_break
            left.remaining() == s1@.skip(k),
            right.remaining() == s2@.skip(k),
        invariant
            0 <= k <= s1@.len(),
            k <= s2@.len(),
            counter <= 1,
            counter == 0 ==> forall|j: int| #[trigger] differ_at(s1@, s2@, j) ==> j >= k,
            counter == 1 ==> differ_at(s1@, s2@, seen) && seen < k && forall|j: int| #[trigger]
                differ_at(s1@, s2@, j) ==> j == seen || j >= k,
        ensures
            k == s1@.len() || k == s2@.len(),
        decreases s1@.len() - k,
    {
        let c1 = match left.next() {
            Some(c) => c,
            None => { break ; },
        };
        let c2 = match right.next() {
            Some(c) => c,
            None => { break ; },
        };
        assert(c1 == s1@[k] && c2 == s2@[k]);
        assert(s1@.skip(k).drop_first() == s1@.skip(k + 1));
        assert(s2@.skip(k).drop_first() == s2@.skip(k + 1));
        if c1 != c2 {
            assert(differ_at(s1@, s2@, k));
            if counter == 1 {
                return false;
            }
            counter += 1;
            proof {
                seen = k;
            }
        }
        proof {
            k = k + 1;
        }
    }
    counter == 1
}

/// Whether the two strings hold the same characters.
pub fn same_word(s1: &str, s2: &str) -> (result: bool)
    ensures
        result == (s1@ == s2@),
{
    broadcast use vstd::string::group_string_axioms;

    let mut left = s1.chars();
    let mut right = s2.chars();
    let ghost mut k: int = 0;
    loop
        invariant
            0 <= k <= s1@.len(),
            k <= s2@.len(),
            left.remaining() == s1@.skip(k),
            right.remaining() == s2@.skip(k),
            s1@.take(k) == s2@.take(k),
        decreases s1@.len() - k,
    {
        let a = left.next();
        let b = right.next();
        match (a, b) {
            (Some(c1), Some(c2)) => {
                assert(c1 == s1@[k] && c2 == s2@[k]);
                assert(s1@.skip(k).drop_first() == s1@.skip(k + 1));
                assert(s2@.skip(k).drop_first() == s2@.skip(k + 1));
                if c1 != c2 {
                    return false;
                }
                assert(s1@.take(k + 1) == s1@.take(k).push(c1));
                assert(s2@.take(k + 1) == s2@.take(k).push(c2));
                proof {
                    k = k + 1;
                }
            },
            (None, None) => {
                assert(s1@.take(k) == s1@);
                assert(s2@.take(k) == s2@);
                return true;
            },
            _ => {
                return false;
            },
        }
    }
}

} // verus!
