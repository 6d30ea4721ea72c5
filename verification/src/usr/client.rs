//! The decision of the network test client: which address it takes.
use vstd::prelude::*;
use crate::usr::game::main::{parse_u8, parse_u8_spec};

verus! {

/// The last byte of the address `192.168.0.<byte>` that the test client
/// takes, from its arguments (the program name first): 2 when no argument
/// follows the name, else the first argument read as a number (see
/// `parse_u8_spec`) when it is from 2 to 255, and `None` otherwise.
pub open spec fn last_digit_of(args: Seq<Seq<u8>>) -> Option<u8> {
    if args.len() <= 1 {
        Some(2u8)
    } else {
        match parse_u8_spec(args[1]) {
            Some(d) => if d >= 2 {
                Some(d)
            } else {
                None
            },
            None => None,
        }
    }
}

/// The last byte of the client's address (see `last_digit_of`).
pub fn last_digit(args: &Vec<Vec<u8>>) -> (d: Option<u8>)
    ensures
        d == last_digit_of(args@.map_values(|v: Vec<u8>| v@)),
{
    if args.len() <= 1 {
        return Some(2);
    }
    match parse_u8(args[1].as_slice()) {
        Some(d) => if d >= 2 {
            Some(d)
        } else {
            None
        },
        None => None,
    }
}

} // verus!
