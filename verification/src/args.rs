//! The command line of a run: the file, the two patterns, and after them any
//! number of `--section <name> <file>` triples. Reading the files that the
//! triples name is left to the caller, one triple at a time.

use crate::pattern::PatternPair;
use crate::targets::same_bytes;
use vstd::prelude::*;
use vstd::slice::slice_to_vec;
use vstd::utf8::encode_utf8;

verus! {

/// Why a command line was refused.
#[derive(Clone, Copy, Debug, PartialEq, Eq, Structural)]
pub enum ArgError {
    /// Fewer than the program name, the file and the two patterns.
    TooFew,
    /// The two patterns are not of one length in bytes.
    LengthMismatch { source_len: usize, destination_len: usize },
    /// `--section` is the last argument.
    MissingSectionName,
    /// `--section <name>` is not followed by a file.
    MissingDataFile,
    /// The argument at this index should be `--section` and is not.
    Unexpected { at: usize },
}

/// The index of the first argument behind the file and the two patterns.
pub const FIRST_OPTION: usize = 4;

/// The number of arguments that one `--section` triple takes.
pub const OPTION_WIDTH: usize = 3;

/// The bytes of `--section`.
pub open spec fn section_flag() -> Seq<u8> {
    seq![0x2du8, 0x2du8, 0x73u8, 0x65u8, 0x63u8, 0x74u8, 0x69u8, 0x6fu8, 0x6eu8]
}

/// What every command line starts with: the file to rewrite and the pair of
/// patterns.
#[derive(Debug)]
pub struct Head {
    pub file: String,
    pub pattern: PatternPair,
}

/// One `--section` triple: the section's name and the file that holds the
/// bytes for it.
#[derive(Debug)]
pub struct SectionRequest {
    pub name: Vec<u8>,
    pub path: String,
}

/// Reads the head of a command line: the program's name, the file, the
/// source pattern and the destination pattern, which have to be of one
/// length in bytes.
pub fn parse_args(args: &Vec<String>) -> (result: Result<Head, ArgError>)
    ensures
        match result {
            Ok(head) => {
                &&& args@.len() >= FIRST_OPTION
                &&& head.file@ == args@[1]@
                &&& head.pattern.source_bytes() == encode_utf8(args@[2]@)
                &&& head.pattern.destination_bytes() == encode_utf8(args@[3]@)
                &&& encode_utf8(args@[2]@).len() == encode_utf8(args@[3]@).len()
            },
            Err(e) => if args@.len() < FIRST_OPTION {
                e == ArgError::TooFew
            } else {
                &&& encode_utf8(args@[2]@).len() != encode_utf8(args@[3]@).len()
                &&& e == ArgError::LengthMismatch {
                    source_len: encode_utf8(args@[2]@).len() as usize,
                    destination_len: encode_utf8(args@[3]@).len() as usize,
                }
            },
        },
{
    if args.len() < FIRST_OPTION {
        return Err(ArgError::TooFew);
    }
    let source = slice_to_vec(args[2].as_str().as_bytes());
    let destination = slice_to_vec(args[3].as_str().as_bytes());
    match PatternPair::new(source, destination) {
        Ok(pattern) => Ok(Head { file: args[1].clone(), pattern }),
        Err(e) => Err(
            ArgError::LengthMismatch {
                source_len: e.source_len,
                destination_len: e.destination_len,
            },
        ),
    }
}

/// Reads the `--section` triple that starts at index `at`, if the command
/// line goes that far. The next triple starts `OPTION_WIDTH` arguments on.
pub fn section_request(args: &Vec<String>, at: usize) -> (result: Result<
    Option<SectionRequest>,
    ArgError,
>)
    ensures
        match result {
            Ok(None) => at >= args@.len(),
            Ok(Some(request)) => {
                &&& at + 2 < args@.len()
                &&& encode_utf8(args@[at as int]@) == section_flag()
                &&& request.name@ == encode_utf8(args@[at + 1]@)
                &&& request.path@ == args@[at + 2]@
            },
            Err(e) => {
                &&& at < args@.len()
                &&& if encode_utf8(args@[at as int]@) != section_flag() {
                    e == ArgError::Unexpected { at }
                } else if at + 1 >= args@.len() {
                    e == ArgError::MissingSectionName
                } else {
                    at + 2 >= args@.len() && e == ArgError::MissingDataFile
                }
            },
        },
{
    let count = args.len();
    if at >= count {
        return Ok(None);
    }
    let flag: [u8; 9] = [0x2d, 0x2d, 0x73, 0x65, 0x63, 0x74, 0x69, 0x6f, 0x6e];
    assert(flag@ =~= section_flag());
    if !same_bytes(args[at].as_str().as_bytes(), &flag) {
        return Err(ArgError::Unexpected { at });
    }
    if count - at < 2 {
        return Err(ArgError::MissingSectionName);
    }
    if count - at < 3 {
        return Err(ArgError::MissingDataFile);
    }
    let name = slice_to_vec(args[at + 1].as_str().as_bytes());
    let path = args[at + 2].clone();
    Ok(Some(SectionRequest { name, path }))
}

} // verus!
