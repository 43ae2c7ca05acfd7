//! The run's settings, read from the program's arguments.
use vstd::prelude::*;

verus! {

/// Where the mesh is read from when no path is given.
pub open spec fn default_file_path() -> Seq<char> {
    "input.obj"@
}

/// The number of chunks per axis when none, or no valid one, is given.
pub const DEFAULT_CHUNKS_PER_AXIS: usize = 10;

pub open spec fn is_digit(c: char) -> bool {
    '0' <= c <= '9'
}

/// The value of a string of decimal digits.
pub open spec fn digits_value(s: Seq<char>) -> nat
    decreases s.len(),
{
    if s.len() == 0 {
        0
    } else {
        digits_value(s.drop_last()) * 10 + ((s.last() as u32) - 48) as nat
    }
}

pub open spec fn all_digits(s: Seq<char>) -> bool {
    forall|k: int| 0 <= k < s.len() ==> is_digit(#[trigger] s[k])
}

/// `s` without its leading `+`, if it has one.
pub open spec fn unsigned_part(s: Seq<char>) -> Seq<char> {
    if s.len() > 0 && s[0] == '+' {
        s.drop_first()
    } else {
        s
    }
}

/// A decimal number as `usize` reads it: an optional `+`, then one or more
/// digits, with a value that fits.
pub open spec fn parse_usize(s: Seq<char>) -> Option<nat> {
    let digits = unsigned_part(s);
    if digits.len() == 0 || !all_digits(digits) {
        None
    } else if digits_value(digits) > usize::MAX {
        None
    } else {
        Some(digits_value(digits))
    }
}

/// A positive count given as text, if `s` is one.
pub open spec fn positive_count(s: Seq<char>) -> Option<usize> {
    match parse_usize(s) {
        Some(n) => if n >= 1 { Some(n as usize) } else { None },
        None => None,
    }
}

/// A string of digits is worth at least as much as each of its prefixes.
proof fn lemma_digits_value_grows(s: Seq<char>, k: int)
    requires
        0 <= k <= s.len(),
        forall|m: int| 0 <= m < s.len() ==> is_digit(#[trigger] s[m]),
    ensures
        digits_value(s.subrange(0, k)) <= digits_value(s),
    decreases s.len() - k,
{
    if k < s.len() {
        let p = s.subrange(0, k + 1);
        assert(p.drop_last() =~= s.subrange(0, k));
        lemma_digits_value_grows(s, k + 1);
    } else {
        assert(s.subrange(0, k) =~= s);
    }
}

/// Reads `s` as `parse_usize` does.
pub fn parse_count(s: &String) -> (r: Option<usize>)
    ensures
        r == (match parse_usize(s@) {
            Some(n) => Some(n as usize),
            None => None::<usize>,
        }),
{
    let text = s.as_str();
    if !text.is_ascii() {
        proof {
            let k = choose|k: int| 0 <= k < s@.len() && !('\0' <= #[trigger] s@[k] <= '\u{7f}');
            let digits = unsigned_part(s@);
            if s@.len() > 0 && s@[0] == '+' {
                assert(digits[k - 1] == s@[k]);
                assert(!is_digit(digits[k - 1]));
            } else {
                assert(digits[k] == s@[k]);
                assert(!is_digit(digits[k]));
            }
            assert(!all_digits(digits));
        }
        return None;
    }
    let bytes = text.as_bytes();
    proof {
        vstd::string::is_ascii_spec_bytes(text);
    }
    let len: usize = bytes.len();
    let ghost chars = s@;
    assert(len == chars.len());
    let start: usize = if len > 0 && bytes[0] == 43u8 { 1 } else { 0 };
    let ghost digits = unsigned_part(chars);
    proof {
        if len > 0 {
            assert((bytes@[0] == 43u8) == (chars[0] == '+'));
        }
        assert(digits =~= chars.subrange(start as int, len as int));
    }
    if start == len {
        return None;
    }
    let mut value: usize = 0;
    let mut k: usize = start;
    while k < len
        invariant
            start <= k <= len,
            len == chars.len(),
            len == bytes@.len(),
            forall|m: int| 0 <= m < len ==> bytes@[m] == #[trigger] chars[m] as u8,
            forall|m: int| 0 <= m < len ==> '\0' <= #[trigger] chars[m] <= '\u{7f}',
            chars == s@,
            digits == unsigned_part(chars),
            digits =~= chars.subrange(start as int, len as int),
            forall|m: int| start <= m < k ==> is_digit(#[trigger] chars[m]),
            value == digits_value(chars.subrange(start as int, k as int)),
        decreases len - k,
    {
        let b = bytes[k];
        let ghost c = chars[k as int];
        if b < 48u8 || b > 57u8 {
            proof {
                assert(!is_digit(c));
                assert(digits[k - start] == c);
                assert(!is_digit(digits[k - start]));
                assert(!all_digits(digits));
            }
            return None;
        }
        let ghost prefix = chars.subrange(start as int, k + 1);
        proof {
            assert(is_digit(c));
            assert(prefix.drop_last() =~= chars.subrange(start as int, k as int));
            assert(prefix.last() == c);
            assert((c as u32) - 48 == (b - 48u8) as u32);
        }
        let next = match value.checked_mul(10) {
            Some(tens) => tens.checked_add((b - 48u8) as usize),
            None => None,
        };
        match next {
            Some(v) => {
                value = v;
            },
            None => {
                proof {
                    assert(digits_value(prefix) > usize::MAX);
                    assert(digits.len() > 0);
                    if all_digits(digits) {
                        assert(digits.subrange(0, k + 1 - start) =~= prefix);
                        lemma_digits_value_grows(digits, k + 1 - start);
                    }
                }
                return None;
            },
        }
        k = k + 1;
    }
    proof {
        assert(chars.subrange(start as int, len as int) =~= digits);
        assert forall|m: int| 0 <= m < digits.len() implies is_digit(#[trigger] digits[m]) by {
            assert(digits[m] == chars[m + start]);
        }
    }
    Some(value)
}

/// Reads `s` as `positive_count` does.
fn parse_positive_count(s: &String) -> (r: Option<usize>)
    ensures
        r == positive_count(s@),
{
    match parse_count(s) {
        Some(n) => if n >= 1 { Some(n) } else { None },
        None => None,
    }
}

/// The settings of one run.
#[derive(Debug)]
pub struct AppConfig {
    /// The mesh file to split.
    pub file_path: String,
    /// The number of chunks along each horizontal axis.
    pub chunks_per_axis: usize,
    /// How many worker threads populate the chunks; `None` leaves it to the
    /// machine.
    pub threads_amount: Option<usize>,
}

impl AppConfig {
    /// Reads the program's arguments: the program's name, then the mesh
    /// path, the chunks per axis and the number of threads, each optional.
    /// A missing path gives `input.obj`; a missing, unreadable or zero count
    /// gives `DEFAULT_CHUNKS_PER_AXIS`; a missing, unreadable or zero number
    /// of threads gives `None`.
    pub fn build(args: Vec<String>) -> (r: AppConfig)
        ensures
            r.file_path@ == (if args@.len() >= 2 { args@[1]@ } else { default_file_path() }),
            r.chunks_per_axis == (if args@.len() >= 3 && positive_count(args@[2]@) is Some {
                positive_count(args@[2]@)->Some_0
            } else {
                DEFAULT_CHUNKS_PER_AXIS
            }),
            r.threads_amount == (if args@.len() >= 4 { positive_count(args@[3]@) } else { None::<usize> }),
    {
        broadcast use vstd::string::group_string_axioms;
        let file_path = if args.len() >= 2 {
            args[1].clone()
        } else {
            "input.obj".to_string()
        };
        let chunks_per_axis = if args.len() >= 3 {
            match parse_positive_count(&args[2]) {
                Some(n) => n,
                None => DEFAULT_CHUNKS_PER_AXIS,
            }
        } else {
            DEFAULT_CHUNKS_PER_AXIS
        };
        let threads_amount = if args.len() >= 4 {
            parse_positive_count(&args[3])
        } else {
            None
        };
        AppConfig { file_path, chunks_per_axis, threads_amount }
    }
}

} // verus!
