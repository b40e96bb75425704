//! Character-level text primitives: turning a `str` into its characters,
//! building strings character by character, and copying character ranges.

use vstd::prelude::*;

verus! {

use vstd::std_specs::iter::IteratorSpec;

/// Relies on std's `String::push`: appends exactly the given character to
/// the end of the string.
pub assume_specification[ std::string::String::push ](s: &mut std::string::String, c: char)
    ensures
        final(s)@ == old(s)@.push(c),
;

/// The characters of a string slice, in order.
pub fn chars_vec(s: &str) -> (r: Vec<char>)
    ensures
        r@ == s@,
{
    let mut it = s.chars();
    let mut out: Vec<char> = Vec::new();
    loop
        invariant
            out@ + it.remaining() == s@,
            out@.len() <= s@.len(),
        ensures
            out@ == s@,
        decreases s@.len() - out@.len(),
    {
        match it.next() {
            Some(c) => {
                out.push(c);
            },
            None => {
                proof {
                    assert(it.remaining().len() == 0);
                    assert(out@ =~= s@);
                }
                break ;
            },
        }
    }
    out
}

/// The substring of `text` from `from` (inclusive) to `to` (exclusive),
/// as an owned string.
pub fn string_of_range(text: &Vec<char>, from: usize, to: usize) -> (r: String)
    requires
        from <= to <= text@.len(),
    ensures
        r@ == text@.subrange(from as int, to as int),
    decreases to - from,
{
    if from == to {
        let r = String::new();
        assert(r@ =~= text@.subrange(from as int, to as int));
        r
    } else {
        let mut r = string_of_range(text, from, to - 1);
        r.push(text[to - 1]);
        assert(r@ =~= text@.subrange(from as int, to as int));
        r
    }
}

/// The characters of `text` from `from` (inclusive) to `to` (exclusive).
pub fn chars_range(text: &Vec<char>, from: usize, to: usize) -> (r: Vec<char>)
    requires
        from <= to <= text@.len(),
    ensures
        r@ == text@.subrange(from as int, to as int),
    decreases to - from,
{
    if from == to {
        let r: Vec<char> = Vec::new();
        assert(r@ =~= text@.subrange(from as int, to as int));
        r
    } else {
        let mut r = chars_range(text, from, to - 1);
        r.push(text[to - 1]);
        assert(r@ =~= text@.subrange(from as int, to as int));
        r
    }
}

/// The string holding exactly the characters of `w`.
pub fn string_of_chars(w: &Vec<char>) -> (r: String)
    ensures
        r@ == w@,
{
    let r = string_of_range(w, 0, w.len());
    assert(w@.subrange(0, w@.len() as int) =~= w@);
    r
}

} // verus!
