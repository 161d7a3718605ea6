//! Lexicographic ordering of character sequences.
//!
//! The result sets of the engine are kept sorted, so that equal contents
//! always have the identical representation.  This module defines the
//! strict lexicographic order on `Seq<char>` (by Unicode scalar value),
//! proves that it is a strict total order, and provides an executable
//! three-way comparison on `&str` that decides it.

use vstd::prelude::*;

verus! {

/// Outcome of a three-way comparison.
#[derive(Debug, Clone, Copy, PartialEq, Eq, Structural)]
pub enum Cmp {
    Less,
    Equal,
    Greater,
}

/// Strict lexicographic order on character sequences, comparing
/// characters by their Unicode scalar value.
pub open spec fn chars_lt(a: Seq<char>, b: Seq<char>) -> bool
    decreases a.len(),
{
    if b.len() == 0 {
        false
    } else if a.len() == 0 {
        true
    } else if a[0] as u32 == b[0] as u32 {
        chars_lt(a.drop_first(), b.drop_first())
    } else {
        (a[0] as u32) < (b[0] as u32)
    }
}

/// Two characters with the same scalar value are the same character.
proof fn lemma_char_injective(c1: char, c2: char)
    requires
        c1 as u32 == c2 as u32,
    ensures
        c1 == c2,
{
    vstd::utf8::char_u32_cast(c1, c1 as u32);
    vstd::utf8::char_u32_cast(c2, c2 as u32);
}

/// The order is irreflexive.
pub proof fn lemma_chars_lt_irrefl(a: Seq<char>)
    ensures
        !chars_lt(a, a),
    decreases a.len(),
{
    if a.len() > 0 {
        lemma_chars_lt_irrefl(a.drop_first());
    }
}

/// At most one of `a < b`, `b < a` holds.
pub proof fn lemma_chars_lt_asymmetric(a: Seq<char>, b: Seq<char>)
    requires
        chars_lt(a, b),
    ensures
        !chars_lt(b, a),
    decreases a.len(),
{
    if a.len() > 0 && b.len() > 0 && a[0] as u32 == b[0] as u32 {
        lemma_chars_lt_asymmetric(a.drop_first(), b.drop_first());
    }
}

/// The order is transitive.
pub proof fn lemma_chars_lt_transitive(a: Seq<char>, b: Seq<char>, c: Seq<char>)
    requires
        chars_lt(a, b),
        chars_lt(b, c),
    ensures
        chars_lt(a, c),
    decreases a.len() + b.len() + c.len(),
{
    if a.len() > 0 && b.len() > 0 && c.len() > 0 {
        if a[0] as u32 == b[0] as u32 && b[0] as u32 == c[0] as u32 {
            lemma_chars_lt_transitive(a.drop_first(), b.drop_first(), c.drop_first());
        }
    }
}

/// Sequences that agree on a strict prefix are ordered by the first
/// position where they differ (or where the shorter one ends).
proof fn lemma_chars_lt_at_index(a: Seq<char>, b: Seq<char>, i: int)
    requires
        0 <= i <= a.len(),
        i <= b.len(),
        forall|j: int| 0 <= j < i ==> a[j] as u32 == b[j] as u32,
        (i == a.len() && i < b.len()) || (i < a.len() && i < b.len() && (a[i] as u32) < (b[i]
            as u32)),
    ensures
        chars_lt(a, b),
    decreases i,
{
    if i > 0 {
        lemma_chars_lt_at_index(a.drop_first(), b.drop_first(), i - 1);
    }
}

/// Sequences of the same length that agree at every position are equal.
proof fn lemma_chars_eq_at_every_index(a: Seq<char>, b: Seq<char>)
    requires
        a.len() == b.len(),
        forall|j: int| 0 <= j < a.len() ==> a[j] as u32 == b[j] as u32,
    ensures
        a == b,
{
    assert forall|j: int| 0 <= j < a.len() implies a[j] == b[j] by {
        lemma_char_injective(a[j], b[j]);
    }
    assert(a =~= b);
}

/// Three-way comparison of two strings under `chars_lt`.
pub fn cmp_str(a: &str, b: &str) -> (r: Cmp)
    ensures
        r == Cmp::Less <==> chars_lt(a@, b@),
        r == Cmp::Equal <==> a@ == b@,
        r == Cmp::Greater <==> chars_lt(b@, a@),
{
    let a_len: usize = a.unicode_len();
    let b_len: usize = b.unicode_len();
    let mut i: usize = 0;
    loop
        invariant
            0 <= i <= a_len,
            i <= b_len,
            a_len == a@.len(),
            b_len == b@.len(),
            forall|j: int| 0 <= j < i ==> a@[j] as u32 == b@[j] as u32,
        ensures
            0 <= i <= a_len,
            i <= b_len,
            a_len == a@.len(),
            b_len == b@.len(),
            i == a_len || i == b_len,
            forall|j: int| 0 <= j < i ==> a@[j] as u32 == b@[j] as u32,
        decreases a_len - i,
    {
        if i == a_len || i == b_len {
            break ;
        }
        let ca: char = a.get_char(i);
        let cb: char = b.get_char(i);
        let ua: u32 = ca as u32;
        let ub: u32 = cb as u32;
        if ua < ub {
            proof {
                lemma_chars_lt_at_index(a@, b@, i as int);
                lemma_chars_lt_irrefl(a@);
                lemma_chars_lt_asymmetric(a@, b@);
            }
            return Cmp::Less;
        }
        if ub < ua {
            proof {
                lemma_chars_lt_at_index(b@, a@, i as int);
                lemma_chars_lt_irrefl(b@);
                lemma_chars_lt_asymmetric(b@, a@);
            }
            return Cmp::Greater;
        }
        i = i + 1;
    }
    if a_len < b_len {
        proof {
            lemma_chars_lt_at_index(a@, b@, i as int);
            lemma_chars_lt_irrefl(a@);
            lemma_chars_lt_asymmetric(a@, b@);
        }
        Cmp::Less
    } else if b_len < a_len {
        proof {
            lemma_chars_lt_at_index(b@, a@, i as int);
            lemma_chars_lt_irrefl(b@);
            lemma_chars_lt_asymmetric(b@, a@);
        }
        Cmp::Greater
    } else {
        proof {
            lemma_chars_eq_at_every_index(a@, b@);
            lemma_chars_lt_irrefl(a@);
        }
        Cmp::Equal
    }
}

} // verus!
