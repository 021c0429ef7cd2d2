//! Every pair of one consonant and one vowel, in both orders.

use crate::text::chars_of;
use crate::text::push_char;
use vstd::prelude::*;

verus! {

/// The consonants, in the order in which the list runs through them.
pub open spec fn consonants() -> Seq<char> {
    seq![
        'q', 'w', 'r', 't', 'p', 's', 'd', 'f', 'g', 'j', 'k', 'l', 'z', 'x', 'c', 'v', 'b', 'n',
        'm',
    ]
}

/// The vowels, in the order in which the list runs through them.
pub open spec fn vowels() -> Seq<char> {
    seq!['a', 'e', 'i', 'o', 'u']
}

/// The `k`-th word: consonant `k / 10` with vowel `(k % 10) / 2`, the
/// consonant first at even `k` and the vowel first at odd `k`.
pub open spec fn word(k: int) -> Seq<char> {
    let c = consonants()[k / 10];
    let v = vowels()[(k % 10) / 2];
    if k % 2 == 0 {
        seq![c, v]
    } else {
        seq![v, c]
    }
}

/// The whole list: 190 words of two letters.
pub open spec fn words() -> Seq<Seq<char>> {
    Seq::new(190, |k: int| word(k))
}

fn pair(a: char, b: char) -> (r: String)
    ensures
        r@ == seq![a, b],
{
    let mut r = String::new();
    push_char(&mut r, a);
    push_char(&mut r, b);
    r
}

/// The consonant-vowel list: for each consonant and each vowel, the two
/// letters in that order and then in the other.
pub fn list() -> (r: Vec<String>)
    ensures
        r@.len() == 190,
        forall|k: int| 0 <= k < 190 ==> (#[trigger] r@[k])@ == word(k),
        r@.map_values(|s: String| s@) == words(),
{
    let consonants = chars_of("qwrtpsdfgjklzxcvbnm");
    let vowels = chars_of("aeiou");
    proof {
        reveal_strlit("qwrtpsdfgjklzxcvbnm");
        reveal_strlit("aeiou");
        assert(consonants@ =~= self::consonants());
        assert(vowels@ =~= self::vowels());
    }
    let mut lst: Vec<String> = Vec::new();
    let mut i: usize = 0;
    while i < consonants.len()
        invariant
            i <= 19,
            consonants@ == self::consonants(),
            vowels@ == self::vowels(),
            lst@.len() == 10 * i,
            forall|k: int| 0 <= k < lst@.len() ==> (#[trigger] lst@[k])@ == word(k),
        decreases 19 - i,
    {
        let c = consonants[i];
        let mut j: usize = 0;
        while j < vowels.len()
            invariant
                i < 19,
                j <= 5,
                c == self::consonants()[i as int],
                vowels@ == self::vowels(),
                lst@.len() == 10 * i + 2 * j,
                forall|k: int| 0 <= k < lst@.len() ==> (#[trigger] lst@[k])@ == word(k),
            decreases 5 - j,
        {
            let v = vowels[j];
            proof {
                let k = 10 * i + 2 * j;
                assert(k / 10 == i && (k % 10) / 2 == j && k % 2 == 0);
                assert((k + 1) / 10 == i && ((k + 1) % 10) / 2 == j && (k + 1) % 2 == 1);
            }
            lst.push(pair(c, v));
            lst.push(pair(v, c));
            j += 1;
        }
        i += 1;
    }
    proof {
        assert(lst@.map_values(|s: String| s@) =~= words());
    }
    lst
}

} // verus!
