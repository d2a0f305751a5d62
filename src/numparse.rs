use vstd::prelude::*;

verus! {

pub open spec fn digit_value(c: char) -> nat {
    (c as nat - '0' as nat) as nat
}

pub open spec fn all_digits(s: Seq<char>) -> bool {
    forall|i: int| 0 <= i < s.len() ==> '0' <= #[trigger] s[i] && s[i] <= '9'
}

/// The number that a sequence of decimal digits spells.
pub open spec fn decimal_value(s: Seq<char>) -> nat
    decreases s.len(),
{
    if s.len() == 0 {
        0
    } else {
        decimal_value(s.drop_last()) * 10 + digit_value(s.last())
    }
}

/// The digits of an unsigned decimal literal: an optional leading `+`, then the digits.
pub open spec fn unsigned_digits(s: Seq<char>) -> Seq<char> {
    if s.len() > 0 && s[0] == '+' {
        s.drop_first()
    } else {
        s
    }
}

/// What `u64::from_str` accepts: at least one digit after an optional `+`, and a value
/// that fits in 64 bits.
pub open spec fn parses_u64(s: Seq<char>) -> bool {
    let d = unsigned_digits(s);
    d.len() > 0 && all_digits(d) && decimal_value(d) <= u64::MAX
}

/// Reads an unsigned decimal number, as `u64::from_str` does.
pub fn parse_u64(s: &str) -> (r: Option<u64>)
    ensures
        r is Some <==> parses_u64(s@),
        r matches Some(n) ==> n == decimal_value(unsigned_digits(s@)),
{
    let cs = crate::text::chars_of(s);
    let mut i: usize = 0;
    if cs.len() > 0 && cs[0] == '+' {
        i = 1;
    }
    let ghost d = unsigned_digits(s@);
    let start = i;
    proof {
        assert(d =~= cs@.subrange(start as int, cs@.len() as int));
    }
    if start == cs.len() {
        return None;
    }
    let mut acc: u64 = 0;
    while i < cs.len()
        invariant
            start <= i <= cs.len(),
            d == cs@.subrange(start as int, cs@.len() as int),
            d == unsigned_digits(s@),
            all_digits(cs@.subrange(start as int, i as int)),
            acc as nat == decimal_value(cs@.subrange(start as int, i as int)),
        decreases cs.len() - i,
    {
        let c = cs[i];
        let ghost pre = cs@.subrange(start as int, i as int);
        let ghost next = cs@.subrange(start as int, i + 1);
        proof {
            assert(next.drop_last() =~= pre);
            assert(next.last() == c);
        }
        if c < '0' || c > '9' {
            proof {
                assert(d[i - start] == c);
                assert(!all_digits(d));
                assert(!parses_u64(s@));
            }
            return None;
        }
        let v = (c as u32 - '0' as u32) as u64;
        if acc > (u64::MAX - v) / 10 {
            proof {
                lemma_decimal_monotone(d, i - start + 1);
                assert(d.subrange(0, i - start + 1) =~= next);
                assert(digit_value(c) == v as nat);
                let a = acc as int;
                let w = v as int;
                assert(a * 10 + w > u64::MAX) by (nonlinear_arith)
                    requires
                        a > (u64::MAX - w) / 10,
                        0 <= w <= 9,
                ;
            }
            return None;
        }
        acc = acc * 10 + v;
        proof {
            assert(all_digits(next));
        }
        i = i + 1;
    }
    assert(cs@.subrange(start as int, i as int) =~= d);
    Some(acc)
}

/// A longer run of digits never spells a smaller number.
proof fn lemma_decimal_monotone(d: Seq<char>, k: int)
    requires
        0 <= k <= d.len(),
    ensures
        decimal_value(d.subrange(0, k)) <= decimal_value(d),
    decreases d.len() - k,
{
    if k < d.len() {
        lemma_decimal_monotone(d, k + 1);
        assert(d.subrange(0, k + 1).drop_last() =~= d.subrange(0, k));
        assert(decimal_value(d.subrange(0, k + 1)) >= decimal_value(d.subrange(0, k)) * 10) by (nonlinear_arith)
            requires decimal_value(d.subrange(0, k + 1)) == decimal_value(d.subrange(0, k)) * 10 + digit_value(d.subrange(0, k + 1).last());
        assert(decimal_value(d.subrange(0, k)) * 10 >= decimal_value(d.subrange(0, k))) by (nonlinear_arith);
    } else {
        assert(d.subrange(0, k) =~= d);
    }
}

/// What `i64::from_str` accepts, and the value it reads: an optional sign, then at least one
/// digit, within the 64-bit signed range.
pub open spec fn signed_value(s: Seq<char>) -> Option<int> {
    if s.len() > 0 && s[0] == '-' {
        let d = s.drop_first();
        if d.len() > 0 && all_digits(d) && decimal_value(d) <= 9223372036854775808 {
            Some(-(decimal_value(d) as int))
        } else {
            None
        }
    } else if parses_u64(s) && decimal_value(unsigned_digits(s)) <= i64::MAX {
        Some(decimal_value(unsigned_digits(s)) as int)
    } else {
        None
    }
}

/// Reads a signed decimal number, as `i64::from_str` does.
pub fn parse_i64(s: &str) -> (r: Option<i64>)
    ensures
        r is Some <==> signed_value(s@) is Some,
        r matches Some(n) ==> signed_value(s@) == Some(n as int),
{
    let cs = crate::text::chars_of(s);
    if cs.len() > 0 && cs[0] == '-' {
        let rest = crate::text::string_of(&crate::text::sub_chars(&cs, 1, cs.len()));
        assert(rest@ =~= s@.drop_first());
        if cs.len() > 1 && cs[1] == '+' {
            proof {
                assert(rest@[0] == '+');
                assert(!all_digits(rest@));
            }
            return None;
        }
        match parse_u64(rest.as_str()) {
            Some(v) => {
                proof {
                    if rest@.len() > 0 {
                        assert(unsigned_digits(rest@) == rest@);
                    }
                }
                if v <= 9223372036854775807 {
                    Some(-(v as i64))
                } else if v == 9223372036854775808 {
                    Some(i64::MIN)
                } else {
                    None
                }
            },
            None => {
                proof {
                    if rest@.len() > 0 {
                        assert(unsigned_digits(rest@) == rest@);
                    }
                }
                None
            },
        }
    } else {
        match parse_u64(s) {
            Some(v) => {
                if v <= 9223372036854775807 {
                    Some(v as i64)
                } else {
                    None
                }
            },
            None => None,
        }
    }
}

} // verus!
