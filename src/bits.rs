//! Bit strings and the deterministic parts of fitness, crossover and mutation.

use vstd::prelude::*;

verus! {

/// The character stands for one binary digit.
pub open spec fn is_bit(c: char) -> bool {
    c == '0' || c == '1'
}

/// Every character of `s` is a binary digit.
pub open spec fn is_bit_string(s: Seq<char>) -> bool {
    forall|i: int| 0 <= i < s.len() ==> is_bit(#[trigger] s[i])
}

/// The number of `'1'` characters in `s`.
pub open spec fn count_ones(s: Seq<char>) -> nat
    decreases s.len(),
{
    if s.len() == 0 {
        0
    } else {
        count_ones(s.drop_last()) + if s.last() == '1' { 1nat } else { 0nat }
    }
}

/// A count of ones never exceeds the length of the string.
pub proof fn lemma_count_ones_bounded(s: Seq<char>)
    ensures
        count_ones(s) <= s.len(),
    decreases s.len(),
{
    if s.len() > 0 {
        lemma_count_ones_bounded(s.drop_last());
    }
}

/// The fitness of an individual: how many of its characters are `'1'`.
pub fn fitness(b: &Vec<char>) -> (r: usize)
    ensures
        r == count_ones(b@),
        r <= b@.len(),
{
    let mut score: usize = 0;
    let mut i: usize = 0;
    while i < b.len()
        invariant
            i <= b@.len(),
            score == count_ones(b@.subrange(0, i as int)),
            score <= i,
        decreases b@.len() - i,
    {
        proof {
            assert(b@.subrange(0, i + 1).drop_last() =~= b@.subrange(0, i as int));
        }
        if b[i] == '1' {
            score = score + 1;
        }
        i = i + 1;
    }
    assert(b@.subrange(0, i as int) =~= b@);
    score
}

/// The child of single-point crossover at `idx`: `a`'s characters before
/// `idx`, `b`'s from `idx` on, as long as `a`.
pub open spec fn crossed(a: Seq<char>, b: Seq<char>, idx: int) -> Seq<char> {
    Seq::new(a.len(), |i: int| if i < idx { a[i] } else { b[i] })
}

/// The other binary digit.
pub open spec fn flipped(c: char) -> char {
    if c == '0' { '1' } else { '0' }
}

/// `b` with the digit at `idx` flipped.
pub open spec fn mutated(b: Seq<char>, idx: int) -> Seq<char> {
    b.update(idx, flipped(b[idx]))
}

/// Single-point crossover with a given cut index.
pub fn crossover_at(a: &Vec<char>, b: &Vec<char>, idx: usize) -> (child: Vec<char>)
    requires
        a@.len() == b@.len(),
        idx < a@.len(),
    ensures
        child@ == crossed(a@, b@, idx as int),
{
    let mut child: Vec<char> = Vec::with_capacity(a.len());
    let mut i: usize = 0;
    while i < a.len()
        invariant
            a@.len() == b@.len(),
            i <= a@.len(),
            child@ =~= crossed(a@, b@, idx as int).subrange(0, i as int),
        decreases a@.len() - i,
    {
        if i < idx {
            child.push(a[i]);
        } else {
            child.push(b[i]);
        }
        i = i + 1;
    }
    child
}

/// Flips the digit at `idx` and keeps every other character.
pub fn mutate_at(b: &Vec<char>, idx: usize) -> (r: Vec<char>)
    requires
        idx < b@.len(),
    ensures
        r@ == mutated(b@, idx as int),
{
    let mut r: Vec<char> = Vec::with_capacity(b.len());
    let mut i: usize = 0;
    while i < b.len()
        invariant
            i <= b@.len(),
            idx < b@.len(),
            r@ =~= mutated(b@, idx as int).subrange(0, i as int),
        decreases b@.len() - i,
    {
        let c = b[i];
        if i == idx {
            if c == '0' {
                r.push('1');
            } else {
                r.push('0');
            }
        } else {
            r.push(c);
        }
        i = i + 1;
    }
    r
}

} // verus!
