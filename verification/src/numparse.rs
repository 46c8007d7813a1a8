use vstd::prelude::*;

verus! {

/// A decimal digit.
pub open spec fn is_digit(c: char) -> bool {
    '0' <= c <= '9'
}

/// The digit's value.
pub open spec fn digit_val(c: char) -> int {
    c as int - '0' as int
}

/// Every character is a decimal digit.
pub open spec fn all_digits(s: Seq<char>) -> bool {
    forall|i: int| 0 <= i < s.len() ==> is_digit(#[trigger] s[i])
}

/// The number a digit run denotes, most significant digit first.
pub open spec fn digits_val(s: Seq<char>) -> int
    decreases s.len(),
{
    if s.len() == 0 {
        0
    } else {
        digits_val(s.drop_last()) * 10 + digit_val(s.last())
    }
}

/// Ten to the `k`.
pub open spec fn pow10(k: int) -> int
    decreases k,
{
    if k <= 0 {
        1
    } else {
        10 * pow10(k - 1)
    }
}

/// Ten to the small powers, spelled out.
pub proof fn lemma_pow10_small()
    ensures
        pow10(0) == 1,
        pow10(1) == 10,
        pow10(2) == 100,
        pow10(3) == 1000,
        pow10(4) == 10000,
{
    assert(pow10(0) == 1);
    assert(pow10(1) == 10);
    assert(pow10(2) == 100);
    assert(pow10(3) == 1000);
    assert(pow10(4) == 10000);
}

/// Ten to any power is at least one.
pub proof fn lemma_pow10_pos(a: int)
    ensures
        pow10(a) >= 1,
    decreases a,
{
    if a > 0 {
        lemma_pow10_pos(a - 1);
    }
}

/// Ten to the power never shrinks as the exponent grows.
pub proof fn lemma_pow10_le(a: int, b: int)
    requires
        a <= b,
    ensures
        pow10(a) <= pow10(b),
        pow10(a) >= 1,
    decreases b - a,
{
    lemma_pow10_pos(a);
    if a < b {
        lemma_pow10_le(a, b - 1);
        lemma_pow10_pos(b - 1);
    }
}

/// A digit run denotes a value from zero up to (excluding) ten to its
/// length.
pub proof fn lemma_digits_val_bound(s: Seq<char>)
    requires
        all_digits(s),
    ensures
        0 <= digits_val(s) < pow10(s.len() as int),
    decreases s.len(),
{
    if s.len() > 0 {
        assert(all_digits(s.drop_last())) by {
            assert(forall|i: int|
                0 <= i < s.len() - 1 ==> #[trigger] s.drop_last()[i] == s[i]);
        }
        lemma_digits_val_bound(s.drop_last());
        assert(is_digit(s.last()));
    }
}

/// A digit run denotes at least what any of its prefixes denotes.
pub proof fn lemma_digits_val_extend(s: Seq<char>, k: int)
    requires
        all_digits(s),
        0 <= k <= s.len(),
    ensures
        digits_val(s) >= digits_val(s.take(k)),
    decreases s.len() - k,
{
    if k < s.len() {
        assert(all_digits(s.take(k + 1))) by {
            assert(forall|i: int| 0 <= i < k + 1 ==> #[trigger] s.take(k + 1)[i] == s[i]);
        }
        assert(s.take(k + 1).drop_last() =~= s.take(k));
        assert(digits_val(s.take(k + 1)) == digits_val(s.take(k)) * 10 + digit_val(s[k]));
        assert(all_digits(s.take(k))) by {
            assert(forall|i: int| 0 <= i < k ==> #[trigger] s.take(k)[i] == s[i]);
        }
        lemma_digits_val_bound(s.take(k));
        lemma_digits_val_extend(s, k + 1);
    } else {
        assert(s.take(k) =~= s);
    }
}

/// Reads the digit run `s[a..b]` as a number, bailing out on a non-digit or
/// when the value tops the cap.
#[verifier::loop_isolation(false)]
fn digits_to_val(s: &Vec<char>, a: usize, b: usize, cap: u128) -> (r: Option<u128>)
    requires
        a <= b <= s@.len(),
        cap < 0x1_0000_0000_0000_0000_0000_0000,
    ensures
        match r {
            Some(v) => {
                &&& all_digits(s@.subrange(a as int, b as int))
                &&& v as int == digits_val(s@.subrange(a as int, b as int))
                &&& v <= cap
            },
            None => !all_digits(s@.subrange(a as int, b as int)) || digits_val(
                s@.subrange(a as int, b as int),
            ) > cap,
        },
{
    let ghost body = s@.subrange(a as int, b as int);
    let mut acc: u128 = 0;
    let mut i: usize = a;
    while i < b
        invariant
            a <= i <= b,
            all_digits(body.take(i - a)),
            acc as int == digits_val(body.take(i - a)),
            acc <= cap,
        decreases b - i,
    {
        let c = s[i];
        if c < '0' || c > '9' {
            proof {
                assert(body[i - a] == c);
                assert(!is_digit(body[i - a]));
            }
            return None;
        }
        let d: u128 = (c as u32 as u128) - 48;
        let next: u128 = acc * 10 + d;
        proof {
            assert(body.take(i - a + 1).drop_last() =~= body.take(i - a));
            assert(body.take(i - a + 1).last() == body[i - a]);
            assert(body[i - a] == c);
            assert(digit_val(c) == d as int);
            assert(digits_val(body.take(i - a + 1)) == next as int);
        }
        if next > cap {
            proof {
                if all_digits(body) {
                    lemma_digits_val_extend(body, i - a + 1);
                }
            }
            return None;
        }
        acc = next;
        i = i + 1;
    }
    proof {
        assert(body.take(b - a) =~= body);
    }
    Some(acc)
}

/// How `u32::from_str` reads a string: an optional leading `+`, then at
/// least one digit, denoting a value that fits.
pub open spec fn parse_u32_spec(s: Seq<char>) -> Option<u32> {
    let body = if s.len() > 0 && s[0] == '+' {
        s.drop_first()
    } else {
        s
    };
    if body.len() > 0 && all_digits(body) && digits_val(body) <= u32::MAX {
        Some(digits_val(body) as u32)
    } else {
        None
    }
}

/// Reads an unsigned integer as `str::parse::<u32>` would.
pub fn parse_u32(s: &Vec<char>) -> (r: Option<u32>)
    ensures
        r == parse_u32_spec(s@),
{
    let start: usize = if s.len() > 0 && s[0] == '+' {
        1
    } else {
        0
    };
    proof {
        if start == 1 {
            assert(s@.subrange(1, s@.len() as int) =~= s@.drop_first());
        } else {
            assert(s@.subrange(0, s@.len() as int) =~= s@);
        }
    }
    if start >= s.len() {
        return None;
    }
    match digits_to_val(s, start, s.len(), u32::MAX as u128) {
        Some(v) => Some(v as u32),
        None => None,
    }
}

/// How the engine reads a price: an optional leading `+`, digits with an
/// optional dot and at most four fraction digits (at least one digit in
/// all), denoting a tick count (price times ten thousand) that fits in
/// sixty-four bits. Anything else — a sign, an exponent, a word — is
/// rejected, so no unordered value ever reaches the book.
pub open spec fn parse_price_spec(s: Seq<char>) -> Option<u64> {
    let body = if s.len() > 0 && s[0] == '+' {
        s.drop_first()
    } else {
        s
    };
    let dot = crate::fixmessage::find_char_from(body, '.', 0);
    let ip = if dot == -1 {
        body
    } else {
        body.take(dot)
    };
    let fp = if dot == -1 {
        Seq::<char>::empty()
    } else {
        body.skip(dot + 1)
    };
    if ip.len() + fp.len() == 0 {
        None
    } else if !(all_digits(ip) && all_digits(fp)) {
        None
    } else if fp.len() > 4 {
        None
    } else {
        let val = digits_val(ip) * 10000 + digits_val(fp) * pow10(4 - fp.len());
        if val <= u64::MAX {
            Some(val as u64)
        } else {
            None
        }
    }
}

/// Reads a decimal price into ticks (four fraction digits).
pub fn parse_price(s: &Vec<char>) -> (r: Option<u64>)
    ensures
        r == parse_price_spec(s@),
{
    let start: usize = if s.len() > 0 && s[0] == '+' {
        1
    } else {
        0
    };
    let ghost body = if s@.len() > 0 && s@[0] == '+' {
        s@.drop_first()
    } else {
        s@
    };
    proof {
        assert(body =~= s@.subrange(start as int, s@.len() as int));
    }
    let n = s.len();
    let dot = crate::fixmessage::find_char_exec(s, '.', start);
    let (ip_a, ip_b, fp_a, fp_b): (usize, usize, usize, usize) = match dot {
        Some(d) => (start, d, d + 1, n),
        None => (start, n, n, n),
    };
    proof {
        let sdot = crate::fixmessage::find_char_from(body, '.', 0);
        crate::fixmessage::lemma_find_char_from(body, '.', 0);
        crate::fixmessage::lemma_find_char_from(s@, '.', start as int);
        assert forall|j: int| 0 <= j < body.len() implies body[j] == s@[start + j] by {}
        match dot {
            Some(d) => {
                assert(s@[d as int] == '.');
                assert(body[d - start] == '.');
                assert(forall|j: int| 0 <= j < d - start ==> #[trigger] body[j] != '.');
                assert(sdot == d - start) by {
                    if sdot >= 0 && sdot < d - start {
                        assert(body[sdot] == '.');
                        assert(s@[start + sdot] == '.');
                    }
                    if sdot > d - start || sdot == -1 {
                        assert(body[d - start] != '.');
                    }
                }
                assert(body.take(sdot) =~= s@.subrange(ip_a as int, ip_b as int));
                assert(body.skip(sdot + 1) =~= s@.subrange(fp_a as int, fp_b as int));
            },
            None => {
                assert(forall|j: int| 0 <= j < body.len() ==> #[trigger] body[j] != '.');
                assert(sdot == -1) by {
                    if sdot != -1 {
                        assert(body[sdot] == '.');
                    }
                }
                assert(body =~= s@.subrange(ip_a as int, ip_b as int));
                assert(Seq::<char>::empty() =~= s@.subrange(fp_a as int, fp_b as int));
            },
        }
    }
    let ghost ip = s@.subrange(ip_a as int, ip_b as int);
    let ghost fp = s@.subrange(fp_a as int, fp_b as int);
    if ip_b - ip_a == 0 && fp_b - fp_a == 0 {
        return None;
    }
    if fp_b - fp_a > 4 {
        return None;
    }
    let ipv = match digits_to_val(s, ip_a, ip_b, u64::MAX as u128) {
        None => {
            proof {
                if all_digits(ip) && all_digits(fp) {
                    lemma_digits_val_bound(ip);
                    lemma_digits_val_bound(fp);
                    lemma_pow10_le(0, 4 - fp.len());
                    assert(digits_val(ip) > u64::MAX);
                    assert(digits_val(ip) * 10000 + digits_val(fp) * pow10(4 - fp.len())
                        > u64::MAX) by (nonlinear_arith)
                        requires
                            digits_val(ip) > u64::MAX,
                            digits_val(fp) >= 0,
                            pow10(4 - fp.len()) >= 1,
                    ;
                }
            }
            return None;
        },
        Some(v) => v,
    };
    let fpv = match digits_to_val(s, fp_a, fp_b, u64::MAX as u128) {
        None => {
            proof {
                if all_digits(fp) {
                    lemma_digits_val_bound(fp);
                    lemma_pow10_le(fp.len() as int, 4);
                    lemma_pow10_small();
                }
            }
            return None;
        },
        Some(v) => v,
    };
    proof {
        lemma_digits_val_bound(fp);
        lemma_pow10_le(fp.len() as int, 4);
        lemma_pow10_small();
        assert(fpv < 10000);
    }
    let scale: u128 = if fp_b - fp_a == 0 {
        10000
    } else if fp_b - fp_a == 1 {
        1000
    } else if fp_b - fp_a == 2 {
        100
    } else if fp_b - fp_a == 3 {
        10
    } else {
        1
    };
    proof {
        lemma_pow10_small();
        assert(scale as int == pow10(4 - fp.len()));
        assert(fpv * scale < 100000000) by (nonlinear_arith)
            requires
                0 <= fpv < 10000,
                1 <= scale <= 10000,
        ;
    }
    let val: u128 = ipv * 10000 + fpv * scale;
    proof {
        assert(fpv * scale == digits_val(fp) * pow10(4 - fp.len())) by (nonlinear_arith)
            requires
                fpv as int == digits_val(fp),
                scale as int == pow10(4 - fp.len()),
        ;
    }
    if val > 0xffff_ffff_ffff_ffffu128 {
        return None;
    }
    Some(val as u64)
}

} // verus!
