//! Shell-word splitting of logged command lines, through the
//! `shell-words` crate.
use vstd::prelude::*;

verus! {

/// What `shell_words::split` returns for a given input: a list of words,
/// or nothing when the input has, for instance, an unclosed quote. The
/// split is a function of the input string alone.
pub uninterp spec fn shell_split_of(s: Seq<char>) -> Option<Seq<Seq<char>>>;

/// Relies on shell_words::split: the words of `s` under POSIX shell
/// parsing rules, with `Err` (malformed quoting) mapped to `None`.
#[verifier::external_body]
pub(crate) fn shell_split(s: &str) -> (r: Option<Vec<String>>)
    ensures
        r is Some <==> shell_split_of(s@) is Some,
        r matches Some(v) ==> {
            &&& shell_split_of(s@) matches Some(ss)
            &&& v@.len() == ss.len()
            &&& forall|i: int| 0 <= i < v@.len() ==> (#[trigger] v@[i]@) == ss[i]
        },
{
    match shell_words::split(s) {
        Ok(v) => Some(v),
        Err(_) => None,
    }
}

} // verus!
