//! Helpers on strings and characters.

use vstd::prelude::*;

verus! {

/// Taken on trust, without proof: `String::push` of the standard library
/// appends the given character to the end of the string, so that the string
/// reads afterwards as it read before, with `c` after its last character.
pub assume_specification[ String::push ](s: &mut String, c: char)
    ensures
        final(s)@ == old(s)@.push(c),
;

/// Collects the characters of `s` into a vector.
pub fn chars_of(s: &str) -> (v: Vec<char>)
    ensures
        v@ == s@,
{
    let mut v: Vec<char> = Vec::new();
    for c in it: s.chars()
        invariant
            it.seq() == s@,
            v@ == s@.take(it.index() as int),
    {
        proof {
            let i = it.index() as int;
            assert(s@.take(i + 1) == s@.take(i).push(s@[i]));
        }
        v.push(c);
    }
    assert(s@.take(s@.len() as int) == s@);
    v
}

/// Whether the characters in `run` spell exactly `word`.
pub fn spells(run: &Vec<char>, word: &str) -> (b: bool)
    ensures
        b == (run@ == word@),
{
    let mut i: usize = 0;
    let mut same = true;
    for c in it: word.chars()
        invariant
            it.seq() == word@,
            i <= it.index(),
            same ==> i == it.index() && i <= run.len() && run@.take(i as int) == word@.take(
                i as int,
            ),
            !same ==> run@ != word@,
    {
        if same {
            if i < run.len() && run[i] == c {
                assert(run@.take(i + 1) == run@.take(i as int).push(run@[i as int]));
                assert(word@.take(i + 1) == word@.take(i as int).push(word@[i as int]));
                i = i + 1;
            } else {
                same = false;
                assert(run@ != word@) by {
                    if run@ == word@ {
                        assert(run@[i as int] == c);
                    }
                }
            }
        }
    }
    proof {
        if same {
            assert(word@.take(word@.len() as int) == word@);
            if i == run.len() {
                assert(run@.take(i as int) == run@);
            }
        }
    }
    same && i == run.len()
}

/// A string holding the single character `c`.
pub fn string_of(c: char) -> (s: String)
    ensures
        s@ == seq![c],
{
    let mut s = String::new();
    s.push(c);
    assert(s@ == seq![c]);
    s
}

} // verus!
