//! Typed configuration, validated once at startup. The host hands the
//! poll-interval property over as raw bytes; `configure` parses it as a
//! signed decimal count of seconds — an optional leading `+` or `-`,
//! then digits, as the host's integer parsing accepts — with a default
//! when the property is absent.

use vstd::prelude::*;

verus! {

/// Validated configuration of the collection subsystem.
#[derive(Debug, PartialEq, Eq)]
pub struct Config {
    pub interval_sec: i64,
}

#[derive(Debug, PartialEq, Eq)]
pub enum ConfigError {
    BadInterval,
}

/// Poll interval used when the host sets none.
pub const DEFAULT_INTERVAL_SEC: i64 = 10;

pub open spec fn is_digit(b: u8) -> bool {
    0x30 <= b <= 0x39
}

pub open spec fn all_digits(s: Seq<u8>) -> bool {
    forall|i: int| 0 <= i < s.len() ==> is_digit(#[trigger] s[i])
}

/// Numeric value of a digit string.
pub open spec fn dec_val(s: Seq<u8>) -> int
    decreases s.len(),
{
    if s.len() == 0 {
        0
    } else {
        dec_val(s.drop_last()) * 10 + (s.last() - 0x30)
    }
}

/// The digits of the property, the optional sign stripped.
pub open spec fn digits_of(s: Seq<u8>) -> Seq<u8> {
    if s.len() > 0 && (s[0] == 0x2b || s[0] == 0x2d) {
        s.drop_first()
    } else {
        s
    }
}

pub open spec fn is_negative(s: Seq<u8>) -> bool {
    s.len() > 0 && s[0] == 0x2d
}

/// Signed value of the property.
pub open spec fn int_val(s: Seq<u8>) -> int {
    if is_negative(s) {
        -dec_val(digits_of(s))
    } else {
        dec_val(digits_of(s))
    }
}

/// An interval property is valid when it is what a signed 64-bit
/// integer parse accepts: an optional leading `+` or `-`, then at
/// least one digit, with a value that fits `i64`.
pub open spec fn valid_interval(s: Seq<u8>) -> bool {
    &&& 0 < digits_of(s).len()
    &&& all_digits(digits_of(s))
    &&& i64::MIN <= int_val(s) <= i64::MAX
}

proof fn lemma_dec_val_nonneg(s: Seq<u8>)
    requires
        all_digits(s),
    ensures
        dec_val(s) >= 0,
    decreases s.len(),
{
    if s.len() > 0 {
        assert(all_digits(s.drop_last())) by {
            assert forall|i: int| 0 <= i < s.drop_last().len() implies is_digit(
                s.drop_last()[i]) by {
                assert(s.drop_last()[i] == s[i]);
            }
        }
        lemma_dec_val_nonneg(s.drop_last());
    }
}

proof fn lemma_dec_val_prefix(s: Seq<u8>, j: int)
    requires
        all_digits(s),
        0 <= j <= s.len(),
    ensures
        dec_val(s.take(j)) <= dec_val(s),
    decreases s.len() - j,
{
    if j < s.len() {
        lemma_dec_val_prefix(s, j + 1);
        assert(s.take(j + 1).drop_last() =~= s.take(j));
        assert(all_digits(s.take(j))) by {
            assert forall|i: int| 0 <= i < s.take(j).len() implies is_digit(s.take(j)[i]) by {
                assert(s.take(j)[i] == s[i]);
            }
        }
        lemma_dec_val_nonneg(s.take(j));
        assert(dec_val(s.take(j + 1)) == dec_val(s.take(j)) * 10 + (s[j] - 0x30));
        assert(dec_val(s.take(j)) * 10 >= dec_val(s.take(j)));
    } else {
        assert(s.take(j) =~= s);
    }
}

/// Parse the poll interval. An absent property means the default; a
/// present one must be a signed decimal number of seconds that fits
/// `i64`, and yields exactly its value.
pub fn configure(interval_prop: Option<Vec<u8>>) -> (r: Result<Config, ConfigError>)
    ensures
        interval_prop is None ==> (r matches Ok(c) && c.interval_sec == DEFAULT_INTERVAL_SEC),
        interval_prop matches Some(s) ==> ((valid_interval(s@) ==> (r matches Ok(c)
            && c.interval_sec == int_val(s@))) && (!valid_interval(s@) ==> r == Err::<Config,
        ConfigError>(ConfigError::BadInterval))),
{
    match interval_prop {
        None => Ok(Config { interval_sec: DEFAULT_INTERVAL_SEC }),
        Some(s) => {
            if s.len() == 0 {
                return Err(ConfigError::BadInterval);
            }
            let neg: bool;
            let start: usize;
            let b0 = s[0];
            if b0 == 0x2b {
                neg = false;
                start = 1;
            } else if b0 == 0x2d {
                neg = true;
                start = 1;
            } else {
                neg = false;
                start = 0;
            }
            proof {
                if start == 1 {
                    assert(digits_of(s@) =~= s@.skip(1));
                } else {
                    assert(digits_of(s@) =~= s@.skip(0));
                }
            }
            if start >= s.len() {
                // a bare sign has no digits
                return Err(ConfigError::BadInterval);
            }
            // a negative value may reach one past `i64::MAX` in magnitude
            let limit: u64 = if neg {
                0x8000_0000_0000_0000
            } else {
                0x7fff_ffff_ffff_ffff
            };
            let mut acc: u64 = 0;
            let mut i: usize = start;
            while i < s.len()
                invariant
                    interval_prop == Some(s),
                    start <= i <= s@.len(),
                    start <= 1,
                    start < s@.len(),
                    neg == is_negative(s@),
                    digits_of(s@) == s@.skip(start as int),
                    limit == if neg { 0x8000_0000_0000_0000u64 } else { 0x7fff_ffff_ffff_ffffu64 },
                    acc <= limit,
                    forall|q: int| start <= q < i ==> is_digit(#[trigger] s@[q]),
                    acc == dec_val(s@.skip(start as int).take(i - start)),
                decreases s@.len() - i,
            {
                let ghost dg = s@.skip(start as int);
                let b = s[i];
                if b < 0x30 || b > 0x39 {
                    proof {
                        assert(dg[i - start] == s@[i as int]);
                        assert(!all_digits(digits_of(s@)));
                    }
                    return Err(ConfigError::BadInterval);
                }
                let d = (b - 0x30) as u64;
                if acc > (limit - d) / 10 {
                    proof {
                        vstd::arithmetic::div_mod::lemma_fundamental_div_mod(limit - d, 10);
                        vstd::arithmetic::div_mod::lemma_mod_bound(limit - d, 10);
                        assert(acc * 10 + d > limit) by (nonlinear_arith)
                            requires
                                acc > (limit - d) / 10,
                                limit - d == 10 * ((limit - d) / 10) + (limit - d) % 10,
                                0 <= (limit - d) % 10 < 10,
                                d <= 9,
                                d <= limit,
                        ;
                        assert(dg.take(i - start + 1).drop_last() =~= dg.take(i - start));
                        assert(dg.take(i - start + 1).last() == s@[i as int]);
                        assert(dec_val(dg.take(i - start + 1)) == acc * 10 + d);
                        if valid_interval(s@) {
                            lemma_dec_val_prefix(dg, i - start + 1);
                        }
                    }
                    return Err(ConfigError::BadInterval);
                }
                proof {
                    vstd::arithmetic::div_mod::lemma_fundamental_div_mod(limit - d, 10);
                    vstd::arithmetic::div_mod::lemma_mod_bound(limit - d, 10);
                    assert(acc * 10 + d <= limit) by (nonlinear_arith)
                        requires
                            acc <= (limit - d) / 10,
                            limit - d == 10 * ((limit - d) / 10) + (limit - d) % 10,
                            0 <= (limit - d) % 10 < 10,
                            d <= 9,
                    ;
                    assert(dg.take(i - start + 1).drop_last() =~= dg.take(i - start));
                    assert(dg.take(i - start + 1).last() == s@[i as int]);
                }
                acc = acc * 10 + d;
                i = i + 1;
            }
            proof {
                assert(s@.skip(start as int).take(s@.len() - start) =~= s@.skip(start as int));
            }
            if neg {
                if acc == 0x8000_0000_0000_0000 {
                    Ok(Config { interval_sec: i64::MIN })
                } else {
                    Ok(Config { interval_sec: -(acc as i64) })
                }
            } else {
                Ok(Config { interval_sec: acc as i64 })
            }
        },
    }
}

} // verus!
