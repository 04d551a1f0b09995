use vstd::prelude::*;
use vstd::string::StringSliceAdditionalSpecFns;

verus! {

/// A user-configured limit: an absolute byte count, a percentage of the
/// repository, or no limit at all.
#[derive(Clone, Copy, PartialEq, Eq, Structural, Debug)]
pub enum LimitOption {
    Size(u64),
    Percentage(u64),
    Unlimited,
}

/// The tolerated residual unused bytes: a percentage `p` is taken of the used
/// bytes as `p * used / (100 - p)`, so that the resulting unused/used ratio
/// equals `p / (100 - p)`, i.e. unused stays at most `p` percent of the
/// total.  `Unlimited` tolerates everything.
pub open spec fn max_unused_of(opt: LimitOption, size_used: int) -> int {
    match opt {
        LimitOption::Unlimited => u128::MAX as int,
        LimitOption::Size(s) => s as int,
        LimitOption::Percentage(p) => p * size_used / (100 - p),
    }
}

/// The repack volume cap: a percentage is taken of the total repository
/// bytes.  `Unlimited` caps nothing.
pub open spec fn max_repack_of(opt: LimitOption, size_total: int) -> int {
    match opt {
        LimitOption::Unlimited => u128::MAX as int,
        LimitOption::Size(s) => s as int,
        LimitOption::Percentage(p) => p * size_total / 100,
    }
}

/// A limit that cannot be parsed: the number before `%`, or the byte size.
#[derive(Clone, Copy, PartialEq, Eq, Structural, Debug)]
pub enum LimitParseError {
    BadNumber,
    BadSize,
}

pub open spec fn is_digit(b: u8) -> bool {
    48 <= b <= 57
}

pub open spec fn all_digits(s: Seq<u8>) -> bool {
    forall|i: int| 0 <= i < s.len() ==> is_digit(#[trigger] s[i])
}

/// The number a run of decimal digits denotes.
pub open spec fn digits_val(s: Seq<u8>) -> int
    decreases s.len(),
{
    if s.len() == 0 {
        0
    } else {
        digits_val(s.drop_last()) * 10 + (s.last() - 48)
    }
}

/// An unsigned decimal number with an optional leading `+`, as `str::parse`
/// reads it: digits only, and the value must fit.
pub open spec fn spec_parse_u64(s: Seq<u8>) -> Option<u64> {
    let body = if s.len() > 0 && s[0] == 43 {
        s.drop_first()
    } else {
        s
    };
    if body.len() > 0 && all_digits(body) && digits_val(body) <= u64::MAX {
        Some(digits_val(body) as u64)
    } else {
        None
    }
}

/// The bytes of the literal `unlimited`.
pub open spec fn unlimited_bytes() -> Seq<u8> {
    seq![117u8, 110u8, 108u8, 105u8, 109u8, 105u8, 116u8, 101u8, 100u8]
}

/// The result that bytesize's parser gives a byte-size text such as `5b`,
/// `2 kB`, `3M` or `4TiB`: it depends on the text alone.
pub uninterp spec fn byte_size_of(s: Seq<u8>) -> Option<u64>;

/// The limit grammar: a trailing `%` makes a percentage, the exact word
/// `unlimited` lifts the limit, anything else is read as a byte size.
pub open spec fn spec_parse_limit(s: Seq<u8>) -> Result<LimitOption, LimitParseError> {
    if s.len() > 0 && s.last() == 37 {
        match spec_parse_u64(s.drop_last()) {
            Some(p) => Ok(LimitOption::Percentage(p)),
            None => Err(LimitParseError::BadNumber),
        }
    } else if s == unlimited_bytes() {
        Ok(LimitOption::Unlimited)
    } else {
        match byte_size_of(s) {
            Some(b) => Ok(LimitOption::Size(b)),
            None => Err(LimitParseError::BadSize),
        }
    }
}

proof fn lemma_digits_val_nonneg(s: Seq<u8>)
    requires
        all_digits(s),
    ensures
        digits_val(s) >= 0,
    decreases s.len(),
{
    if s.len() > 0 {
        assert forall|i: int| 0 <= i < s.drop_last().len() implies is_digit(
            #[trigger] s.drop_last()[i],
        ) by {
            assert(s.drop_last()[i] == s[i]);
        }
        lemma_digits_val_nonneg(s.drop_last());
    }
}

/// Relies on bytesize's `ByteSize` parser (its `FromStr`): the parsed byte
/// count is a function of the text alone.
#[verifier::external_body]
fn parse_byte_size(s: &str) -> (r: Option<u64>)
    ensures
        r == byte_size_of(s.spec_bytes()),
{
    <bytesize::ByteSize as core::str::FromStr>::from_str(s).ok().map(|b| b.as_u64())
}

/// Parse an unsigned decimal number with an optional leading `+`.
pub fn parse_u64(b: &[u8]) -> (r: Option<u64>)
    ensures
        r == spec_parse_u64(b@),
{
    let n = b.len();
    let start: usize = if n > 0 && b[0] == 43 {
        1
    } else {
        0
    };
    let ghost body = if b@.len() > 0 && b@[0] == 43 {
        b@.drop_first()
    } else {
        b@
    };
    proof {
        assert(body.len() == n - start);
        assert forall|q: int| 0 <= q < body.len() implies #[trigger] body[q] == b@[q + start] by {}
        assert(body.take(0) =~= Seq::<u8>::empty());
    }
    if n == start {
        return None;
    }
    let mut acc: u64 = 0;
    let mut k: usize = start;
    while k < n
        invariant
            start <= k <= n,
            n == b@.len(),
            start == 0 || start == 1,
            body == (if b@.len() > 0 && b@[0] == 43 {
                b@.drop_first()
            } else {
                b@
            }),
            body.len() == n - start,
            forall|q: int| 0 <= q < body.len() ==> #[trigger] body[q] == b@[q + start],
            all_digits(body.take(k - start)),
            acc == digits_val(body.take(k - start)),
        decreases n - k,
    {
        let c = b[k];
        proof {
            assert(body[k - start] == c);
        }
        if c < 48 || c > 57 {
            proof {
                assert(!is_digit(body[k - start]));
                assert(!all_digits(body));
            }
            return None;
        }
        let d = (c - 48) as u64;
        proof {
            assert(body.take(k - start + 1).drop_last() =~= body.take(k - start));
            assert(body.take(k - start + 1).last() == body[k - start]);
            assert(digits_val(body.take(k - start + 1)) == acc * 10 + d);
            assert forall|q: int| 0 <= q < body.take(k - start + 1).len() implies is_digit(
                #[trigger] body.take(k - start + 1)[q],
            ) by {
                if q < k - start {
                    assert(body.take(k - start)[q] == body.take(k - start + 1)[q]);
                }
            }
        }
        if acc > (u64::MAX - d) / 10 {
            proof {
                // the value already exceeds what a u64 can hold, and more
                // digits only grow it
                assert(acc * 10 + d > u64::MAX) by (nonlinear_arith)
                    requires
                        acc > ((u64::MAX - d) as u64 / 10) as int,
                        0 <= d <= 9,
                ;
                lemma_digits_val_grows(body, k - start + 1);
            }
            return None;
        }
        proof {
            assert(acc * 10 + d <= u64::MAX) by (nonlinear_arith)
                requires
                    acc <= ((u64::MAX - d) as u64 / 10) as int,
                    0 <= d <= 9,
            ;
        }
        acc = acc * 10 + d;
        k += 1;
    }
    proof {
        assert(body.take(n - start) =~= body);
    }
    Some(acc)
}

/// Once a digit prefix denotes more than a u64, the whole run does too.
proof fn lemma_digits_val_grows(s: Seq<u8>, k: int)
    requires
        0 <= k <= s.len(),
        digits_val(s.take(k)) > u64::MAX,
        all_digits(s.take(k)),
    ensures
        digits_val(s) > u64::MAX || !all_digits(s),
    decreases s.len() - k,
{
    if k < s.len() {
        if is_digit(s[k]) {
            assert(s.take(k + 1).drop_last() =~= s.take(k));
            assert(s.take(k + 1).last() == s[k]);
            assert forall|q: int| 0 <= q < s.take(k + 1).len() implies is_digit(
                #[trigger] s.take(k + 1)[q],
            ) by {
                if q < k {
                    assert(s.take(k)[q] == s.take(k + 1)[q]);
                }
            }
            assert(digits_val(s.take(k + 1)) == digits_val(s.take(k)) * 10 + (s[k] - 48));
            assert(digits_val(s.take(k)) * 10 >= digits_val(s.take(k))) by (nonlinear_arith)
                requires
                    digits_val(s.take(k)) > 0,
            ;
            lemma_digits_val_grows(s, k + 1);
        } else {
            assert(!all_digits(s));
        }
    } else {
        assert(s.take(k) =~= s);
    }
}

impl LimitOption {
    /// Read a limit: `NNN%`, `unlimited`, or a byte size.
    pub fn from_str(s: &str) -> (r: Result<LimitOption, LimitParseError>)
        ensures
            r == spec_parse_limit(s.spec_bytes()),
    {
        let b = s.as_bytes();
        let n = b.len();
        if n > 0 && b[n - 1] == 37 {
            let prefix = vstd::slice::slice_subrange(b, 0, n - 1);
            proof {
                assert(prefix@ =~= s.spec_bytes().drop_last());
            }
            match parse_u64(prefix) {
                Some(p) => Ok(LimitOption::Percentage(p)),
                None => Err(LimitParseError::BadNumber),
            }
        } else {
            let mut is_unlimited = n == 9;
            if is_unlimited {
                is_unlimited = b[0] == 117 && b[1] == 110 && b[2] == 108 && b[3] == 105 && b[4]
                    == 109 && b[5] == 105 && b[6] == 116 && b[7] == 101 && b[8] == 100;
            }
            proof {
                if is_unlimited {
                    assert(b@ =~= unlimited_bytes());
                } else {
                    assert(b@ != unlimited_bytes());
                }
            }
            if is_unlimited {
                Ok(LimitOption::Unlimited)
            } else {
                match parse_byte_size(s) {
                    Some(v) => Ok(LimitOption::Size(v)),
                    None => Err(LimitParseError::BadSize),
                }
            }
        }
    }
}

} // verus!
