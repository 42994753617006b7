//! Command-line arguments handed over at launch.

use vstd::prelude::*;

verus! {

/// The file paths among a process's arguments: everything after the program
/// name, in order.
pub open spec fn file_args(args: Seq<String>) -> Seq<String> {
    if args.len() > 1 {
        args.skip(1)
    } else {
        Seq::empty()
    }
}

/// Drops the program name from an argument list and returns the rest.
pub fn parse_file_args(args: Vec<String>) -> (files: Vec<String>)
    ensures
        files@ == file_args(args@),
{
    let mut rest = args;
    if rest.len() > 1 {
        rest.remove(0);
        assert(rest@ =~= file_args(args@));
        rest
    } else {
        Vec::new()
    }
}

} // verus!
