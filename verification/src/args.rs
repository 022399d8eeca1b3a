//! The arguments of the running program.
//!
//! A program takes unsigned numbers only. The runtime reads them from the
//! command line, in decimal, and hands them over as one array.

use vstd::prelude::*;
use vstd::string::*;
use vstd::utf8::encode_utf8;
use crate::error::{ErrorKind, IntError};
use crate::text::{byte_is_digit, is_digit};

verus! {

/// What reading the first `k` bytes of `digits` as one decimal number gives:
/// the number so far, or the first thing that went wrong. A byte that is no
/// digit is reported before the overflow that a digit in its place would
/// bring.
pub open spec fn scan_digits(digits: Seq<u8>, k: nat) -> Result<nat, IntError>
    decreases k,
{
    if k == 0 || k > digits.len() {
        Ok(0)
    } else {
        match scan_digits(digits, (k - 1) as nat) {
            Err(e) => Err(e),
            Ok(value) => if !is_digit(digits[k - 1]) {
                Err(IntError::InvalidDigit)
            } else if value * 10 + (digits[k - 1] - 0x30) > u64::MAX {
                Err(IntError::Overflow)
            } else {
                Ok((value * 10 + (digits[k - 1] - 0x30)) as nat)
            },
        }
    }
}

/// The number that `text` stands for: decimal digits, which a plus sign may
/// precede.
pub open spec fn unsigned(text: Seq<u8>) -> Result<u64, IntError> {
    if text.len() == 0 {
        Err(IntError::Empty)
    } else if text.len() == 1 && (text[0] == '+' as u8 || text[0] == '-' as u8) {
        Err(IntError::InvalidDigit)
    } else {
        let digits = if text[0] == '+' as u8 {
            text.subrange(1, text.len() as int)
        } else {
            text
        };
        match scan_digits(digits, digits.len()) {
            Err(e) => Err(e),
            Ok(value) => Ok(value as u64),
        }
    }
}

/// What went wrong among the first bytes of a number went wrong with the
/// number.
pub proof fn lemma_scan_digits_error(digits: Seq<u8>, k: nat, m: nat)
    requires
        k <= m <= digits.len(),
        scan_digits(digits, k) is Err,
    ensures
        scan_digits(digits, m) == scan_digits(digits, k),
    decreases m,
{
    if k < m {
        lemma_scan_digits_error(digits, k, (m - 1) as nat);
    }
}

/// Reads `text` as an unsigned decimal number.
pub fn parse_unsigned(text: &[u8]) -> (r: Result<u64, IntError>)
    ensures
        r == unsigned(text@),
{
    let n = text.len();
    if n == 0 {
        return Err(IntError::Empty);
    }
    if n == 1 && (text[0] == '+' as u8 || text[0] == '-' as u8) {
        return Err(IntError::InvalidDigit);
    }
    let start: usize = if text[0] == '+' as u8 {
        1
    } else {
        0
    };
    let ghost digits = text@.subrange(start as int, n as int);
    assert(start == 0 ==> digits =~= text@);
    let mut value: u64 = 0;
    let mut i: usize = start;
    while i < n
        invariant
            n == text@.len(),
            n > 0,
            !(n == 1 && (text@[0] == '+' as u8 || text@[0] == '-' as u8)),
            start == (if text@[0] == '+' as u8 {
                1int
            } else {
                0int
            }),
            start <= i <= n,
            digits == text@.subrange(start as int, n as int),
            start == 0 ==> digits == text@,
            scan_digits(digits, (i - start) as nat) == Ok::<nat, IntError>(value as nat),
        decreases n - i,
    {
        let byte = text[i];
        assert(digits[i - start] == byte);
        if !byte_is_digit(byte) {
            proof {
                lemma_scan_digits_error(digits, (i + 1 - start) as nat, digits.len());
            }
            return Err(IntError::InvalidDigit);
        }
        let next = match value.checked_mul(10) {
            None => None,
            Some(tens) => tens.checked_add((byte - 0x30) as u64),
        };
        match next {
            None => {
                proof {
                    lemma_scan_digits_error(digits, (i + 1 - start) as nat, digits.len());
                }
                return Err(IntError::Overflow);
            },
            Some(next) => {
                value = next;
            },
        }
        i += 1;
    }
    Ok(value)
}

/// The arguments of a program, as the runtime hands them over.
#[derive(Debug, PartialEq, Eq)]
pub struct Args {
    /// How many arguments there are.
    pub argc: u64,
    /// The arguments, in the order of the command line.
    pub data: Vec<u64>,
}

impl Args {
    /// `argc` counts `data`.
    pub open spec fn wf(&self) -> bool {
        self.argc == self.data@.len()
    }

    /// Reads the arguments of a program from its command line `argv`, whose
    /// first word names the program and is passed over. Fails at the first
    /// word that is no unsigned decimal number.
    pub fn parse(argv: &Vec<String>) -> (r: Result<Args, ErrorKind>)
        ensures
            match r {
                Ok(args) => {
                    &&& args.wf()
                    &&& args.data@.len() == (if argv@.len() == 0 {
                        0
                    } else {
                        argv@.len() - 1
                    })
                    &&& forall|i: int|
                        1 <= i < argv@.len() ==> unsigned(encode_utf8(argv@[i]@)) == Ok::<
                            u64,
                            IntError,
                        >(#[trigger] args.data@[i - 1])
                },
                Err(e) => exists|i: int|
                    {
                        &&& 1 <= i < argv@.len()
                        &&& unsigned(encode_utf8(#[trigger] argv@[i]@)) is Err
                        &&& e == (ErrorKind::ArgumentParseError {
                            index: i as usize,
                            cause: unsigned(encode_utf8(argv@[i]@))->Err_0,
                        })
                        &&& forall|j: int|
                            1 <= j < i ==> unsigned(encode_utf8(#[trigger] argv@[j]@)) is Ok
                    },
            },
    {
        let mut data: Vec<u64> = Vec::new();
        let mut i: usize = 1;
        while i < argv.len()
            invariant
                1 <= i,
                argv@.len() > 0 ==> i <= argv@.len(),
                argv@.len() > 0 ==> data@.len() == i - 1,
                argv@.len() == 0 ==> data@.len() == 0,
                forall|j: int|
                    1 <= j < i ==> unsigned(encode_utf8(#[trigger] argv@[j]@)) == Ok::<u64, IntError>(
                        data@[j - 1],
                    ),
            decreases argv@.len() - i,
        {
            match parse_unsigned(argv[i].as_str().as_bytes()) {
                Err(cause) => {
                    return Err(ErrorKind::ArgumentParseError { index: i, cause });
                },
                Ok(value) => {
                    data.push(value);
                },
            }
            i += 1;
        }
        let argc = data.len() as u64;
        Ok(Args { argc, data })
    }
}

} // verus!
