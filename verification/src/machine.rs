//! What the machine and the environment tell.
use vstd::prelude::*;
use vstd::string::*;

use crate::text::{
    chars_of, decimal, law_decimal_is_read_back, parse_u64, parse_unsigned, trim, trim_string,
};

verus! {

/// `rayon::current_num_threads`: the number of worker threads, which rests on the
/// machine and on the environment.
#[verifier::external_body]
pub(crate) fn worker_threads() -> (n: usize) {
    rayon::current_num_threads()
}

/// `num_cpus::get_physical`: the number of physical cores, which rests on the machine.
#[verifier::external_body]
pub(crate) fn physical_cores() -> (n: usize) {
    num_cpus::get_physical()
}

/// The text of a variable of the environment, where it has one.
pub open spec fn given_view(given: Option<&str>) -> Option<Seq<char>> {
    match given {
        Some(text) => Some(text@),
        None => None,
    }
}

/// The number above zero that a variable of the environment gives, or another one.
pub open spec fn setting(given: Option<Seq<char>>, otherwise: int) -> int {
    match given {
        Some(text) => match parse_unsigned(trim(text), 10, usize::MAX as int) {
            Ok(n) => if n > 0 {
                n
            } else {
                otherwise
            },
            Err(_) => otherwise,
        },
        None => otherwise,
    }
}

/// Reads a number above zero from a variable of the environment.
pub fn read_setting(given: Option<&str>, otherwise: usize) -> (n: usize)
    ensures
        n == setting(given_view(given), otherwise as int),
{
    match given {
        Some(text) => match parse_u64(&chars_of(&trim_string(text)), 10, usize::MAX as u64) {
            Ok(n) => if n > 0 {
                n as usize
            } else {
                otherwise
            },
            Err(_) => otherwise,
        },
        None => otherwise,
    }
}

/// A setting is the number that is given, with or without white space around it; zero,
/// anything that is no number, and nothing leave it as it is.
pub proof fn law_settings_are_given_numbers(n: nat, text: Seq<char>, otherwise: int)
    ensures
        0 < n <= usize::MAX && trim(text) == decimal(n) ==> setting(Some(text), otherwise) == n,
        trim(text) == decimal(0) ==> setting(Some(text), otherwise) == otherwise,
        parse_unsigned(trim(text), 10, usize::MAX as int) is Err ==> setting(Some(text), otherwise)
            == otherwise,
        setting(None, otherwise) == otherwise,
{
    if n <= usize::MAX {
        law_decimal_is_read_back(n, usize::MAX as int);
    }
    law_decimal_is_read_back(0, usize::MAX as int);
}

} // verus!
