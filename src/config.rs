use vstd::prelude::*;

verus! {

/// Why the command-line arguments were refused.
#[derive(Clone, Copy, Debug, PartialEq, Eq)]
pub enum ArgumentError {
    /// Fewer than three arguments follow the program name.
    NotEnoughArguments,
    /// The thread count is not a decimal number that fits in 32 bits.
    InvalidThreadCount,
    /// The thread count is zero.
    ZeroThreadCount,
}

/// A run's settings: where to read, where to write, and how many workers.
pub struct Configuration {
    pub file_path: String,
    pub out_path: String,
    pub num_threads: u32,
}

pub open spec fn is_digit(c: char) -> bool {
    '0' <= c <= '9'
}

/// The value of a string of decimal digits.
pub open spec fn digits_value(s: Seq<char>) -> int
    decreases s.len(),
{
    if s.len() == 0 {
        0
    } else {
        digits_value(s.drop_last()) * 10 + (s.last() as int - '0' as int)
    }
}

/// What `u32`'s decimal parsing yields for `s`: an optional `+` followed by
/// one or more digits whose value fits in 32 bits; nothing otherwise.
pub open spec fn parsed_u32(s: Seq<char>) -> Option<u32> {
    let d = if s.len() > 0 && s[0] == '+' {
        s.drop_first()
    } else {
        s
    };
    if d.len() > 0 && (forall|i: int| 0 <= i < d.len() ==> is_digit(#[trigger] d[i]))
        && digits_value(d) <= u32::MAX {
        Some(digits_value(d) as u32)
    } else {
        None
    }
}

/// Relies on `str::parse::<u32>`, which accepts an optional `+` and then
/// decimal digits only, and fails on an empty string or on overflow.
#[verifier::external_body]
fn parse_u32(s: &str) -> (r: Option<u32>)
    ensures
        r == parsed_u32(s@),
{
    s.parse::<u32>().ok()
}

/// The settings that the program's arguments (the program name, the input
/// path, the output path, the worker count) give, or why they are refused.
pub open spec fn config_outcome(args: Seq<String>) -> Result<(Seq<char>, Seq<char>, u32), ArgumentError> {
    if args.len() < 4 {
        Err(ArgumentError::NotEnoughArguments)
    } else {
        match parsed_u32(args[3]@) {
            None => Err(ArgumentError::InvalidThreadCount),
            Some(n) => if n == 0 {
                Err(ArgumentError::ZeroThreadCount)
            } else {
                Ok((args[1]@, args[2]@, n))
            },
        }
    }
}

impl Configuration {
    /// Builds the settings from `args`, the program name first.
    pub fn new(args: &[String]) -> (r: Result<Configuration, ArgumentError>)
        ensures
            match r {
                Ok(c) => config_outcome(args@) == Ok::<(Seq<char>, Seq<char>, u32), ArgumentError>(
                    (c.file_path@, c.out_path@, c.num_threads),
                ),
                Err(e) => config_outcome(args@) == Err::<(Seq<char>, Seq<char>, u32), ArgumentError>(e),
            },
    {
        if args.len() < 4 {
            return Err(ArgumentError::NotEnoughArguments);
        }
        match parse_u32(args[3].as_str()) {
            None => Err(ArgumentError::InvalidThreadCount),
            Some(n) => {
                if n == 0 {
                    Err(ArgumentError::ZeroThreadCount)
                } else {
                    Ok(Configuration { file_path: args[1].clone(), out_path: args[2].clone(), num_threads: n })
                }
            },
        }
    }
}

} // verus!
