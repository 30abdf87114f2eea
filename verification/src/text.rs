//! The few operations on strings that the library needs beyond what vstd
//! specifies: a prefix test, proved here, and two of std's that change a
//! `String` by one character, taken as std documents them.

use vstd::prelude::*;
use vstd::std_specs::iter::IteratorSpec;

verus! {

/// Whether `prefix` stands at the start of `text`.
pub(crate) fn starts_with(text: &str, prefix: &str) -> (r: bool)
    ensures
        r == prefix@.is_prefix_of(text@),
{
    broadcast use {vstd::string::axiom_spec_iter, vstd::string::next_postcondition};

    let mut rest = text.chars();
    let mut wanted = prefix.chars();
    let ghost mut done: int = 0;
    loop
        invariant
            0 <= done <= prefix@.len(),
            done <= text@.len(),
            rest.obeys_prophetic_iter_laws(),
            wanted.obeys_prophetic_iter_laws(),
            rest.remaining() == text@.skip(done),
            wanted.remaining() == prefix@.skip(done),
            prefix@.take(done) == text@.take(done),
        decreases prefix@.len() - done,
    {
        match wanted.next() {
            None => {
                assert(prefix@.take(done) =~= prefix@);
                return true;
            },
            Some(p) => {
                assert(p == prefix@[done]);
                match rest.next() {
                    None => {
                        return false;
                    },
                    Some(t) => {
                        assert(t == text@[done]);
                        if t != p {
                            return false;
                        }
                        proof {
                            assert(prefix@.take(done + 1) =~= prefix@.take(done).push(p));
                            assert(text@.take(done + 1) =~= text@.take(done).push(t));
                            assert(text@.skip(done).drop_first() =~= text@.skip(done + 1));
                            assert(prefix@.skip(done).drop_first() =~= prefix@.skip(done + 1));
                            done = done + 1;
                        }
                    },
                }
            },
        }
    }
}

/// `String::push`: appends one character at the end. Not proved: std
/// documents it as "appends the given char to the end of this String".
#[verifier::external_body]
pub(crate) fn push_char(text: &mut String, c: char)
    ensures
        final(text)@ == old(text)@.push(c),
{
    text.push(c);
}

/// `String::pop`: removes the last character and returns it, or returns
/// `None` and leaves the string as it is when it is empty. Not proved: std
/// documents it in these words.
#[verifier::external_body]
pub(crate) fn pop_char(text: &mut String) -> (r: Option<char>)
    ensures
        old(text)@.len() == 0 ==> r.is_none() && final(text)@ == old(text)@,
        old(text)@.len() > 0 ==> r == Some(old(text)@.last()) && final(text)@ == old(
            text,
        )@.drop_last(),
{
    text.pop()
}

} // verus!
