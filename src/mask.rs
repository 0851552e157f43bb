//! Letter masks: bit `i` of a mask stands for letter `i` of the alphabet
//! (`a` = 0, ..., `z` = 25).
use vstd::prelude::*;

verus! {

/// Number of letters in an accepted word.
pub const WORD_LEN: usize = 5;

/// A lowercase ASCII letter.
pub open spec fn is_letter(c: char) -> bool {
    'a' <= c && c <= 'z'
}

/// Position of a letter in the alphabet.
pub open spec fn letter_index(c: char) -> u32 {
    (c as u32 - 'a' as u32) as u32
}

/// The mask that holds the single bit of a letter.
pub open spec fn letter_bit(c: char) -> u32 {
    1u32 << letter_index(c)
}

/// The mask of a word: the bits of all of its letters, or-ed together.
pub open spec fn mask_of(w: Seq<char>) -> u32
    decreases w.len(),
{
    if w.len() == 0 {
        0
    } else {
        mask_of(w.drop_last()) | letter_bit(w.last())
    }
}

/// A word is accepted when it has exactly five letters, all lowercase ASCII,
/// none repeated.
pub open spec fn is_accepted_word(w: Seq<char>) -> bool {
    &&& w.len() == WORD_LEN
    &&& forall|i: int| 0 <= i < w.len() ==> is_letter(#[trigger] w[i])
    &&& w.no_duplicates()
}

/// The indices of the bits set in `m`.
pub open spec fn bit_set(m: u32) -> Set<u32> {
    Set::new(|k: u32| k < 32 && (m >> k) & 1u32 == 1u32)
}

/// The number of bits set in `m`.
pub open spec fn bit_count(m: u32) -> nat {
    bit_set(m).len()
}

/// The alphabet positions of the letters of a word.
pub open spec fn letter_indices(w: Seq<char>) -> Seq<u32> {
    w.map_values(|c: char| letter_index(c))
}

proof fn lemma_or_bit(a: u32, k: u32, j: u32)
    requires
        k < 32,
        j < 32,
    ensures
        (((a | (1u32 << k)) >> j) & 1u32 == 1u32) == (((a >> j) & 1u32 == 1u32) || j == k),
        ((a & (1u32 << k)) != 0) == ((a >> k) & 1u32 == 1u32),
{
    assert((((a | (1u32 << k)) >> j) & 1u32 == 1u32) == (((a >> j) & 1u32 == 1u32) || j == k))
        by (bit_vector)
        requires
            k < 32,
            j < 32,
    ;
    assert(((a & (1u32 << k)) != 0) == ((a >> k) & 1u32 == 1u32)) by (bit_vector)
        requires
            k < 32,
    ;
}

/// Setting the bit of letter index `k` adds `k` to the bit set.
proof fn lemma_bit_set_insert(a: u32, k: u32)
    requires
        k < 32,
    ensures
        bit_set(a | (1u32 << k)) == bit_set(a).insert(k),
{
    assert forall|j: u32| bit_set(a | (1u32 << k)).contains(j) == bit_set(a).insert(k).contains(
        j,
    ) by {
        if j < 32 {
            lemma_or_bit(a, k, j);
        }
    }
    assert(bit_set(a | (1u32 << k)) =~= bit_set(a).insert(k));
}

/// The bits of a word made of letters are exactly the positions of its letters.
pub proof fn lemma_mask_of_bits(w: Seq<char>)
    requires
        forall|i: int| 0 <= i < w.len() ==> is_letter(#[trigger] w[i]),
    ensures
        bit_set(mask_of(w)) == letter_indices(w).to_set(),
    decreases w.len(),
{
    if w.len() == 0 {
        assert forall|j: u32| !bit_set(0u32).contains(j) by {
            assert((0u32 >> j) & 1u32 == 0u32) by (bit_vector);
        }
        assert(bit_set(0u32) =~= Set::empty());
        assert(letter_indices(w).to_set() =~= Set::empty());
    } else {
        let p = w.drop_last();
        assert forall|i: int| 0 <= i < p.len() implies is_letter(#[trigger] p[i]) by {
            assert(p[i] == w[i]);
        }
        lemma_mask_of_bits(p);
        let k = letter_index(w.last());
        lemma_bit_set_insert(mask_of(p), k);
        assert(letter_indices(w) =~= letter_indices(p).push(k));
        letter_indices(p).lemma_push_to_set_commute(k);
    }
}

/// An accepted word's mask sets exactly the bits of its letters, five in all.
pub proof fn lemma_accepted_mask(w: Seq<char>)
    requires
        is_accepted_word(w),
    ensures
        bit_set(mask_of(w)) == letter_indices(w).to_set(),
        bit_count(mask_of(w)) == 5,
        forall|c: char| is_letter(c) ==> (w.contains(c) <==> bit_set(mask_of(w)).contains(
            letter_index(c),
        )),
{
    lemma_mask_of_bits(w);
    let s = letter_indices(w);
    assert forall|i: int, j: int| 0 <= i < s.len() && 0 <= j < s.len() && i != j implies s[i]
        != s[j] by {
        assert(w[i] != w[j]);
        assert(is_letter(w[i]) && is_letter(w[j]));
    }
    s.unique_seq_to_set();
    assert forall|c: char| is_letter(c) implies (w.contains(c) <==> s.to_set().contains(
        letter_index(c),
    )) by {
        if w.contains(c) {
            let i = choose|i: int| 0 <= i < w.len() && w[i] == c;
            assert(s[i] == letter_index(c));
        }
        if s.to_set().contains(letter_index(c)) {
            let i = choose|i: int| 0 <= i < s.len() && s[i] == letter_index(c);
            assert(is_letter(w[i]));
            assert(w[i] == c);
        }
    }
}

/// A word whose length is not five, or that repeats a letter, is not accepted.
pub proof fn lemma_rejected_words(w: Seq<char>)
    ensures
        w.len() != WORD_LEN ==> !is_accepted_word(w),
        (exists|i: int, j: int| 0 <= i < j < w.len() && w[i] == w[j]) ==> !is_accepted_word(w),
{
}

/// An accepted word's mask is never empty.
pub proof fn lemma_accepted_mask_nonzero(w: Seq<char>)
    requires
        is_accepted_word(w),
    ensures
        mask_of(w) != 0,
{
    lemma_accepted_mask(w);
    if mask_of(w) == 0 {
        assert forall|j: u32| !bit_set(0u32).contains(j) by {
            assert((0u32 >> j) & 1u32 == 0u32) by (bit_vector);
        }
        assert(bit_set(0u32) =~= Set::empty());
    }
}

/// The mask of `word`, or `None` when the word is not accepted.
pub fn word_mask(word: &str) -> (r: Option<u32>)
    ensures
        r == (if is_accepted_word(word@) {
            Some(mask_of(word@))
        } else {
            None
        }),
        r matches Some(m) ==> bit_count(m) == 5 && forall|c: char|
            is_letter(c) ==> (word@.contains(c) <==> bit_set(m).contains(letter_index(c))),
{
    let n = word.unicode_len();
    if n != WORD_LEN {
        return None;
    }
    let mut mask: u32 = 0;
    let mut i: usize = 0;
    while i < n
        invariant
            n == word@.len(),
            i <= n,
            mask == mask_of(word@.subrange(0, i as int)),
            forall|t: int| 0 <= t < i ==> is_letter(#[trigger] word@[t]),
            word@.subrange(0, i as int).no_duplicates(),
        decreases n - i,
    {
        let c = word.get_char(i);
        if !('a' <= c && c <= 'z') {
            return None;
        }
        let bit: u32 = 1u32 << (c as u32 - 'a' as u32);
        let ghost pre = word@.subrange(0, i as int);
        let ghost next = word@.subrange(0, i as int + 1);
        assert(next.drop_last() =~= pre);
        assert(pre.len() == i && next.last() == c);
        assert forall|t: int| 0 <= t < pre.len() implies is_letter(#[trigger] pre[t]) by {
            assert(pre[t] == word@[t]);
        }
        proof {
            lemma_mask_of_bits(pre);
            lemma_or_bit(mask, letter_index(c), 0);
        }
        if mask & bit != 0 {
            proof {
                assert(bit_set(mask).contains(letter_index(c)));
                assert(letter_indices(pre).to_set().contains(letter_index(c)));
                assert(letter_indices(pre).contains(letter_index(c)));
                let j = choose|j: int|
                    0 <= j < letter_indices(pre).len() && letter_indices(pre)[j] == letter_index(
                        c,
                    );
                assert(is_letter(pre[j]));
                assert(word@[j] == c);
                assert(word@[j] == word@[i as int]);
            }
            return None;
        }
        proof {
            assert(!bit_set(mask).contains(letter_index(c)));
            assert forall|a: int, b: int|
                0 <= a < next.len() && 0 <= b < next.len() && a != b implies next[a]
                != next[b] by {
                if a == i {
                    assert(letter_indices(pre)[b] == letter_index(pre[b]));
                    assert(letter_indices(pre).to_set().contains(letter_index(pre[b])));
                    assert(next[b] == pre[b]);
                } else if b == i {
                    assert(letter_indices(pre)[a] == letter_index(pre[a]));
                    assert(letter_indices(pre).to_set().contains(letter_index(pre[a])));
                    assert(next[a] == pre[a]);
                } else {
                    assert(pre[a] == next[a] && pre[b] == next[b]);
                }
            }
        }
        mask = mask | bit;
        i = i + 1;
    }
    assert(word@.subrange(0, n as int) =~= word@);
    proof {
        lemma_accepted_mask(word@);
    }
    Some(mask)
}

} // verus!
