use vstd::prelude::*;
use vstd::std_specs::iter::IteratorSpec;

verus! {

/// The characters with the Unicode `White_Space` property: the separators
/// between words.
pub open spec fn is_space_spec(c: char) -> bool {
    let u = c as u32;
    (0x9 <= u && u <= 0xD) || u == 0x20 || u == 0x85 || u == 0xA0 || u == 0x1680 || (0x2000 <= u
        && u <= 0x200A) || u == 0x2028 || u == 0x2029 || u == 0x202F || u == 0x205F || u == 0x3000
}

/// Whether position `i` of `s` starts a word: a non-space character whose
/// predecessor, if any, is a space.
pub open spec fn starts_word(s: Seq<char>, i: int) -> bool {
    &&& !is_space_spec(s[i])
    &&& (i == 0 || is_space_spec(s[i - 1]))
}

/// The number of maximal runs of non-space characters in `s`.
pub open spec fn word_count(s: Seq<char>) -> nat
    decreases s.len(),
{
    if s.len() == 0 {
        0
    } else {
        word_count(s.take(s.len() - 1)) + if starts_word(s, s.len() - 1) {
            1nat
        } else {
            0nat
        }
    }
}

/// The token estimate of a text: three quarters of its word count, rounded up.
pub open spec fn token_estimate(s: Seq<char>) -> nat {
    (3 * word_count(s) + 3) / 4
}

/// Whether `c` separates words.
pub fn is_space(c: char) -> (r: bool)
    ensures
        r == is_space_spec(c),
{
    let u = c as u32;
    (0x9 <= u && u <= 0xD) || u == 0x20 || u == 0x85 || u == 0xA0 || u == 0x1680 || (0x2000 <= u
        && u <= 0x200A) || u == 0x2028 || u == 0x2029 || u == 0x202F || u == 0x205F || u == 0x3000
}

proof fn lemma_word_count_step(s: Seq<char>, i: int)
    requires
        0 <= i < s.len(),
    ensures
        word_count(s.take(i + 1)) == word_count(s.take(i)) + if starts_word(s, i) {
            1nat
        } else {
            0nat
        },
{
    let t = s.take(i + 1);
    assert(t.take(i) =~= s.take(i));
    if i > 0 {
        assert(t[i - 1] == s[i - 1]);
    }
    assert(t[i] == s[i]);
}

proof fn lemma_word_count_le_len(s: Seq<char>)
    ensures
        word_count(s) <= s.len(),
    decreases s.len(),
{
    if s.len() > 0 {
        lemma_word_count_le_len(s.take(s.len() - 1));
    }
}

proof fn lemma_word_count_push(u: Seq<char>, c: char)
    ensures
        word_count(u) <= word_count(u.push(c)),
{
    assert(u.push(c).take(u.len() as int) =~= u);
}

/// Appending text never lowers the word count, nor the token estimate.
pub proof fn lemma_estimate_monotonic(s: Seq<char>, t: Seq<char>)
    ensures
        word_count(s) <= word_count(s + t),
        token_estimate(s) <= token_estimate(s + t),
    decreases t.len(),
{
    if t.len() == 0 {
        assert(s + t =~= s);
    } else {
        let init = t.drop_last();
        lemma_estimate_monotonic(s, init);
        assert(s + t =~= (s + init).push(t.last()));
        lemma_word_count_push(s + init, t.last());
    }
    let a = word_count(s);
    let b = word_count(s + t);
    assert((3 * a + 3) / 4 <= (3 * b + 3) / 4) by (nonlinear_arith)
        requires
            a <= b,
    ;
}

/// The number of whitespace-separated words in `text`.
pub fn count_words(text: &str) -> (r: usize)
    ensures
        r == word_count(text@),
{
    broadcast use vstd::string::axiom_spec_iter;

    let ghost s = text@;
    // The call bounds the length of the text, so that `i` and `count` fit.
    let n = text.unicode_len();
    let mut count: usize = 0;
    let mut prev_space: bool = true;
    let mut i: usize = 0;
    let mut it = text.chars();
    assert(s.take(0) =~= Seq::<char>::empty());
    assert(s.skip(0) =~= s);
    loop
        invariant
            it.remaining() == s.skip(i as int),
            0 <= i <= s.len(),
            n == s.len(),
            count == word_count(s.take(i as int)),
            prev_space == (i == 0 || is_space_spec(s[i - 1])),
        ensures
            count == word_count(s),
        decreases s.len() - i,
    {
        let next = it.next();
        match next {
            Some(c) => {
                proof {
                    assert(s.skip(i as int).len() > 0);
                    assert(c == s[i as int]);
                    assert(s.skip(i as int).drop_first() =~= s.skip(i + 1));
                    lemma_word_count_step(s, i as int);
                    lemma_word_count_le_len(s.take(i + 1));
                }
                let sp = is_space(c);
                if !sp && prev_space {
                    count = count + 1;
                }
                prev_space = sp;
                i = i + 1;
            },
            None => {
                assert(s.skip(i as int).len() == 0);
                assert(s.take(i as int) =~= s);
                break ;
            },
        }
    }
    count
}

/// A conservative estimate of the number of model tokens that `text` takes:
/// three quarters of its word count, rounded up.
pub fn estimate_tokens(text: &str) -> (r: usize)
    ensures
        r == token_estimate(text@),
{
    let w = count_words(text);
    let q = w / 4;
    let rem = w % 4;
    proof {
        assert(3 * w + 3 == 12 * q + 3 * rem + 3);
    }
    3 * q + (3 * rem + 3) / 4
}

} // verus!
