use vstd::prelude::*;
use vstd::arithmetic::mul::lemma_mul_upper_bound;

verus! {

/// The serialized configuration writes sizes with binary suffixes (`B`,
/// `KB`, `MB`, `GB`) and durations with `s`, `m` or `h`. These parsers
/// turn such strings, given as their bytes, into bytes and milliseconds.

pub open spec fn is_ascii_digit(b: u8) -> bool {
    48 <= b && b <= 57
}

/// How many leading bytes of `s` are digits.
pub open spec fn digits_prefix_len(s: Seq<u8>) -> int
    decreases s.len(),
{
    if s.len() == 0 || !is_ascii_digit(s[0]) {
        0
    } else {
        1 + digits_prefix_len(s.drop_first())
    }
}

/// The number a digit string denotes, most significant digit first.
pub open spec fn digits_val(s: Seq<u8>) -> int
    decreases s.len(),
{
    if s.len() == 0 {
        0
    } else {
        digits_val(s.drop_last()) * 10 + (s.last() - 48)
    }
}

/// What a size suffix multiplies the number by: none or `B` is bytes,
/// `KB`, `MB` and `GB` are the binary steps.
pub open spec fn size_multiplier(suf: Seq<u8>) -> Option<int> {
    if suf.len() == 0 {
        Some(1)
    } else if suf.len() == 1 && suf[0] == 66 {
        Some(1)
    } else if suf.len() == 2 && suf[1] == 66 {
        if suf[0] == 75 {
            Some(1024int)
        } else if suf[0] == 77 {
            Some(1024int * 1024)
        } else if suf[0] == 71 {
            Some(1024int * 1024 * 1024)
        } else {
            None
        }
    } else {
        None
    }
}

/// What a duration suffix multiplies the number by to reach
/// milliseconds: `s`, `m` or `h`; a duration without a unit is rejected.
pub open spec fn duration_multiplier(suf: Seq<u8>) -> Option<int> {
    if suf.len() == 1 && suf[0] == 115 {
        Some(1000int)
    } else if suf.len() == 1 && suf[0] == 109 {
        Some(60int * 1000)
    } else if suf.len() == 1 && suf[0] == 104 {
        Some(60int * 60 * 1000)
    } else {
        None
    }
}

/// The size a string denotes, in bytes: one or more digits, then a size
/// suffix.
pub open spec fn parse_size_spec(s: Seq<u8>) -> Option<int> {
    let nd = digits_prefix_len(s);
    if nd == 0 {
        None
    } else {
        match size_multiplier(s.skip(nd)) {
            Option::Some(m) => Some(digits_val(s.take(nd)) * m),
            Option::None => None,
        }
    }
}

/// The duration a string denotes, in milliseconds: one or more digits,
/// then a duration suffix.
pub open spec fn parse_duration_spec(s: Seq<u8>) -> Option<int> {
    let nd = digits_prefix_len(s);
    if nd == 0 {
        None
    } else {
        match duration_multiplier(s.skip(nd)) {
            Option::Some(m) => Some(digits_val(s.take(nd)) * m),
            Option::None => None,
        }
    }
}

proof fn lemma_digits_val_nonneg(s: Seq<u8>)
    requires
        forall|i: int| 0 <= i < s.len() ==> is_ascii_digit(#[trigger] s[i]),
    ensures
        digits_val(s) >= 0,
    decreases s.len(),
{
    if s.len() > 0 {
        lemma_digits_val_nonneg(s.drop_last());
    }
}

/// The digit prefix is exactly `j` long when the first `j` bytes are
/// digits and the byte after them, if any, is not.
proof fn lemma_digits_prefix_len_eq(s: Seq<u8>, j: int)
    requires
        0 <= j <= s.len(),
        forall|i: int| 0 <= i < j ==> is_ascii_digit(#[trigger] s[i]),
        j < s.len() ==> !is_ascii_digit(s[j]),
    ensures
        digits_prefix_len(s) == j,
    decreases j,
{
    if j == 0 {
    } else {
        assert(is_ascii_digit(s[0]));
        lemma_digits_prefix_len_eq(s.drop_first(), j - 1);
    }
}

/// Scans the digit prefix. Returns its length and, when it fits, its
/// value; a prefix beyond `u64::MAX` is reported as an overflow.
fn scan_digits(s: &[u8]) -> (r: (usize, Option<u64>))
    ensures
        r.0 == digits_prefix_len(s@),
        r.0 <= s@.len(),
        forall|k: int| 0 <= k < r.0 ==> is_ascii_digit(#[trigger] s@[k]),
        match r.1 {
            Option::Some(v) => v == digits_val(s@.take(r.0 as int)),
            Option::None => digits_val(s@.take(r.0 as int)) > u64::MAX,
        },
{
    let n = s.len();
    let mut i: usize = 0;
    let mut acc: u64 = 0;
    let mut over: bool = false;
    proof {
        assert(s@.take(0) =~= Seq::<u8>::empty());
    }
    while i < n
        invariant
            n == s@.len(),
            i <= n,
            forall|k: int| 0 <= k < i ==> is_ascii_digit(#[trigger] s@[k]),
            !over ==> acc == digits_val(s@.take(i as int)),
            over ==> digits_val(s@.take(i as int)) > u64::MAX,
        ensures
            n == s@.len(),
            i <= n,
            forall|k: int| 0 <= k < i ==> is_ascii_digit(#[trigger] s@[k]),
            i < n ==> !is_ascii_digit(s@[i as int]),
            !over ==> acc == digits_val(s@.take(i as int)),
            over ==> digits_val(s@.take(i as int)) > u64::MAX,
        decreases n - i,
    {
        let b = s[i];
        if !(48 <= b && b <= 57) {
            break;
        }
        let d: u64 = (b - 48) as u64;
        proof {
            assert(s@.take(i as int + 1).drop_last() =~= s@.take(i as int));
            assert(s@.take(i as int + 1).last() == s@[i as int]);
            lemma_digits_val_nonneg(s@.take(i as int));
        }
        if over {
            proof {
                assert(digits_val(s@.take(i as int + 1)) == digits_val(s@.take(i as int)) * 10 + d);
                assert(digits_val(s@.take(i as int)) * 10 >= digits_val(s@.take(i as int)));
            }
        } else if acc > (u64::MAX - d) / 10 {
            over = true;
            proof {
                assert(digits_val(s@.take(i as int + 1)) == acc * 10 + d);
            }
        } else {
            acc = acc * 10 + d;
        }
        i += 1;
    }
    proof {
        lemma_digits_prefix_len_eq(s@, i as int);
    }
    if over {
        (i, None)
    } else {
        (i, Some(acc))
    }
}

/// Multiplies a parsed number by its suffix multiplier, reporting a
/// product beyond `u64::MAX` as `None`.
fn apply_multiplier(v: Option<u64>, m: u64, ghost_val: Ghost<int>) -> (r: Option<u64>)
    requires
        1 <= m,
        match v {
            Option::Some(x) => ghost_val@ == x,
            Option::None => ghost_val@ > u64::MAX,
        },
        ghost_val@ >= 0,
    ensures
        r == (if ghost_val@ * m <= u64::MAX {
            Some((ghost_val@ * m) as u64)
        } else {
            None::<u64>
        }),
{
    match v {
        Some(x) => {
            proof {
                lemma_mul_upper_bound(x as int, u64::MAX as int, m as int, u64::MAX as int);
            }
            let wide: u128 = (x as u128) * (m as u128);
            if wide <= u64::MAX as u128 {
                Some(wide as u64)
            } else {
                None
            }
        }
        None => {
            proof {
                assert(ghost_val@ * m >= ghost_val@ * 1) by (nonlinear_arith)
                    requires
                        m >= 1,
                        ghost_val@ >= 0,
                ;
            }
            None
        }
    }
}

/// Parses a size string such as `5GB`, `512KB` or `100` (plain bytes)
/// into bytes. Returns `None` for a malformed string and for a size that
/// does not fit in 64 bits.
pub fn parse_size(s: &[u8]) -> (r: Option<u64>)
    ensures
        r == (match parse_size_spec(s@) {
            Option::Some(v) => if v <= u64::MAX {
                Some(v as u64)
            } else {
                None::<u64>
            },
            Option::None => None::<u64>,
        }),
{
    let n = s.len();
    let (nd, v) = scan_digits(s);
    if nd == 0 {
        return None;
    }
    let rem = n - nd;
    let mult: Option<u64> = if rem == 0 {
        Some(1)
    } else if rem == 1 && s[nd] == 66 {
        Some(1)
    } else if rem == 2 && s[nd + 1] == 66 {
        if s[nd] == 75 {
            Some(1024)
        } else if s[nd] == 77 {
            Some(1024 * 1024)
        } else if s[nd] == 71 {
            Some(1024 * 1024 * 1024)
        } else {
            None
        }
    } else {
        None
    };
    proof {
        let suf = s@.skip(nd as int);
        assert(suf.len() == rem);
        assert(rem >= 1 ==> suf[0] == s@[nd as int]);
        assert(rem >= 2 ==> suf[1] == s@[nd as int + 1]);
        assert(match mult {
            Option::Some(m) => size_multiplier(suf) == Some(m as int),
            Option::None => size_multiplier(suf) == None::<int>,
        });
        assert forall|k: int| 0 <= k < nd implies is_ascii_digit(#[trigger] s@.take(
            nd as int,
        )[k]) by {
            assert(s@.take(nd as int)[k] == s@[k]);
        }
        lemma_digits_val_nonneg(s@.take(nd as int));
    }
    match mult {
        Some(m) => apply_multiplier(v, m, Ghost(digits_val(s@.take(nd as int)))),
        None => None,
    }
}

/// Parses a duration string such as `10s`, `30m` or `1h` into
/// milliseconds. Returns `None` for a malformed string and for a
/// duration that does not fit in 64 bits.
pub fn parse_duration(s: &[u8]) -> (r: Option<u64>)
    ensures
        r == (match parse_duration_spec(s@) {
            Option::Some(v) => if v <= u64::MAX {
                Some(v as u64)
            } else {
                None::<u64>
            },
            Option::None => None::<u64>,
        }),
{
    let n = s.len();
    let (nd, v) = scan_digits(s);
    if nd == 0 {
        return None;
    }
    let rem = n - nd;
    let mult: Option<u64> = if rem == 1 && s[nd] == 115 {
        Some(1000)
    } else if rem == 1 && s[nd] == 109 {
        Some(60 * 1000)
    } else if rem == 1 && s[nd] == 104 {
        Some(60 * 60 * 1000)
    } else {
        None
    };
    proof {
        let suf = s@.skip(nd as int);
        assert(suf.len() == rem);
        assert(rem >= 1 ==> suf[0] == s@[nd as int]);
        assert(match mult {
            Option::Some(m) => duration_multiplier(suf) == Some(m as int),
            Option::None => duration_multiplier(suf) == None::<int>,
        });
        assert forall|k: int| 0 <= k < nd implies is_ascii_digit(#[trigger] s@.take(
            nd as int,
        )[k]) by {
            assert(s@.take(nd as int)[k] == s@[k]);
        }
        lemma_digits_val_nonneg(s@.take(nd as int));
    }
    match mult {
        Some(m) => apply_multiplier(v, m, Ghost(digits_val(s@.take(nd as int)))),
        None => None,
    }
}

} // verus!
