//! The command-line surface the engine consumes, and the parser for the
//! human-readable maximum-filesize string.

use vstd::prelude::*;

verus! {

/// The inputs consumed from the command line.
pub struct Cli {
    /// Database path.
    pub db: String,
    /// Path to the hook executable, invoked for each file with the file
    /// path as its sole argument.
    pub hook: String,
    /// Optional path to a logfile.
    pub logfile: Option<String>,
    /// Maximum processed filesize, as a human-readable size string
    /// (digits with an optional K/M/G/T suffix).
    pub max_filesize: Option<String>,
    /// Enable multiprocessing.
    pub use_mp: bool,
    /// Suppress log messages.
    pub suppress_logmsgs: bool,
    /// The work source to run over.
    pub command: Command,
}

/// The subcommand: run over an index file, or over glob patterns.
pub enum Command {
    Run { listing_file: String },
    RunGlob { base: String, globs: Vec<String> },
}

/// A decimal digit byte.
pub open spec fn is_ascii_digit(b: u8) -> bool {
    48 <= b <= 57
}

/// The value of a digit string, most significant first.
pub open spec fn digits_val(s: Seq<u8>) -> int
    decreases s.len(),
{
    if s.len() == 0 {
        0
    } else {
        digits_val(s.drop_last()) * 10 + (s.last() - 48)
    }
}

/// Whether every byte is a decimal digit.
pub open spec fn all_digits(s: Seq<u8>) -> bool {
    forall|i: int| 0 <= i < s.len() ==> is_ascii_digit(#[trigger] s[i])
}

/// The multiplier a size-suffix byte stands for: K, M, G, T (either
/// case) are powers of 1024; anything else is no suffix.
pub open spec fn suffix_mult(b: u8) -> Option<int> {
    if b == 75 || b == 107 {
        Some(0x400)
    } else if b == 77 || b == 109 {
        Some(0x100000)
    } else if b == 71 || b == 103 {
        Some(0x40000000)
    } else if b == 84 || b == 116 {
        Some(0x10000000000)
    } else {
        None
    }
}

/// The size a digit string and a multiplier stand for, if the digits are
/// well formed and the value fits in 64 bits.
pub open spec fn size_of_parts(num: Seq<u8>, mult: int) -> Option<u64> {
    if num.len() >= 1 && all_digits(num) && digits_val(num) * mult <= u64::MAX {
        Some((digits_val(num) * mult) as u64)
    } else {
        None
    }
}

/// What a human-readable size string means: at least one digit, an
/// optional single suffix, and a value that fits in 64 bits; anything
/// else is rejected.
pub open spec fn spec_parse_filesize(s: Seq<u8>) -> Option<u64> {
    if s.len() > 0 && suffix_mult(s.last()) is Some {
        size_of_parts(s.drop_last(), suffix_mult(s.last()).unwrap())
    } else {
        size_of_parts(s, 1)
    }
}

/// A digit string's value only grows as it gets longer, once it is past
/// 64 bits, whatever bytes follow.
proof fn lemma_digits_val_prefix_large(s: Seq<u8>, m: int)
    requires
        0 <= m <= s.len(),
        digits_val(s.subrange(0, m)) > u64::MAX as int,
    ensures
        digits_val(s) > u64::MAX as int,
    decreases s.len() - m,
{
    if m == s.len() {
        assert(s.subrange(0, m) =~= s);
    } else {
        let v = digits_val(s.subrange(0, m));
        assert(s.subrange(0, m + 1).drop_last() =~= s.subrange(0, m));
        assert(s.subrange(0, m + 1).last() == s[m]);
        assert(digits_val(s.subrange(0, m + 1)) == v * 10 + (s[m] - 48));
        assert(v * 10 + (s[m] - 48) > u64::MAX as int);
        lemma_digits_val_prefix_large(s, m + 1);
    }
}

/// Parses a human-readable size string (bytes form): digits with an
/// optional K/M/G/T suffix, powers of 1024. Rejects anything else, and
/// any value that does not fit in 64 bits.
pub fn parse_filesize(s: &[u8]) -> (r: Option<u64>)
    ensures
        r == spec_parse_filesize(s@),
{
    let n = s.len();
    if n == 0 {
        return None;
    }
    let last = s[n - 1];
    let mult: u64 = if last == 75 || last == 107 {
        1024
    } else if last == 77 || last == 109 {
        1048576
    } else if last == 71 || last == 103 {
        1073741824
    } else if last == 84 || last == 116 {
        1099511627776
    } else {
        1
    };
    let has_suffix = last == 75 || last == 107 || last == 77 || last == 109 || last == 71 || last
        == 103 || last == 84 || last == 116;
    let end: usize = if has_suffix {
        n - 1
    } else {
        n
    };
    let ghost num = if has_suffix {
        s@.drop_last()
    } else {
        s@
    };
    proof {
        assert(s@.last() == s@[n - 1]);
        assert(num =~= s@.subrange(0, end as int));
        if has_suffix {
            assert(suffix_mult(s@.last()) == Some(mult as int));
        } else {
            assert(suffix_mult(s@.last()) is None);
        }
        assert(has_suffix == (s@.len() > 0 && suffix_mult(s@.last()) is Some));
    }
    if end == 0 {
        return None;
    }
    let mut acc: u64 = 0;
    let mut j: usize = 0;
    while j < end
        invariant
            0 <= j <= end <= s@.len(),
            end >= 1,
            mult >= 1,
            num == s@.subrange(0, end as int),
            spec_parse_filesize(s@) == size_of_parts(num, mult as int),
            forall|k: int| 0 <= k < j ==> is_ascii_digit(#[trigger] s@[k]),
            acc == digits_val(s@.subrange(0, j as int)),
        decreases end - j,
    {
        let b = s[j];
        if b < 48 || b > 57 {
            proof {
                assert(num[j as int] == s@[j as int]);
                assert(!is_ascii_digit(num[j as int]));
                assert(!all_digits(num));
                assert(size_of_parts(num, mult as int) is None);
            }
            return None;
        }
        let d = (b - 48) as u64;
        proof {
            assert(s@.subrange(0, j as int + 1).drop_last() =~= s@.subrange(0, j as int));
            assert(s@.subrange(0, j as int + 1).last() == s@[j as int]);
        }
        if acc > (u64::MAX - d) / 10 {
            proof {
                assert(digits_val(s@.subrange(0, j as int + 1)) == acc * 10 + d);
                assert(acc * 10 + d > u64::MAX as int);
                assert(num.subrange(0, j as int + 1) =~= s@.subrange(0, j as int + 1));
                lemma_digits_val_prefix_large(num, j as int + 1);
                assert(digits_val(num) * (mult as int) >= digits_val(num)) by (nonlinear_arith)
                    requires
                        digits_val(num) > 0,
                        mult >= 1,
                ;
                assert(size_of_parts(num, mult as int) is None);
            }
            return None;
        }
        acc = acc * 10 + d;
        j = j + 1;
    }
    proof {
        assert(s@.subrange(0, end as int) =~= num);
        assert(acc == digits_val(num));
        assert(forall|k: int| 0 <= k < num.len() ==> #[trigger] num[k] == s@[k]);
        assert(all_digits(num));
    }
    match acc.checked_mul(mult) {
        Some(total) => {
            proof {
                assert(size_of_parts(num, mult as int) == Some(total));
            }
            Some(total)
        },
        None => {
            proof {
                assert(acc * mult > u64::MAX as int);
                assert(size_of_parts(num, mult as int) is None);
            }
            None
        },
    }
}

} // verus!
