use vstd::prelude::*;

verus! {

/// The character of a decimal digit `d < 10`.
pub open spec fn digit_char(d: nat) -> char {
    if d == 0 {
        '0'
    } else if d == 1 {
        '1'
    } else if d == 2 {
        '2'
    } else if d == 3 {
        '3'
    } else if d == 4 {
        '4'
    } else if d == 5 {
        '5'
    } else if d == 6 {
        '6'
    } else if d == 7 {
        '7'
    } else if d == 8 {
        '8'
    } else {
        '9'
    }
}

pub open spec fn is_digit(c: char) -> bool {
    '0' <= c && c <= '9'
}

/// The value of a decimal digit character.
pub open spec fn digit_value(c: char) -> nat {
    (c as u32 - '0' as u32) as nat
}

/// The decimal text of `n`, without leading zeros.
pub open spec fn decimal(n: nat) -> Seq<char>
    decreases n,
{
    if n < 10 {
        seq![digit_char(n)]
    } else {
        decimal(n / 10).push(digit_char(n % 10))
    }
}

/// The value of a text of decimal digits.
pub open spec fn value_of(t: Seq<char>) -> nat
    decreases t.len(),
{
    if t.len() == 0 {
        0
    } else {
        value_of(t.drop_last()) * 10 + digit_value(t.last())
    }
}

/// A decimal text as `decimal` writes it: digits only, and no leading zero
/// unless it is the only digit.
pub open spec fn canonical_digits(t: Seq<char>) -> bool {
    &&& t.len() > 0
    &&& forall|i: int| 0 <= i < t.len() ==> is_digit(#[trigger] t[i])
    &&& (t.len() == 1 || t[0] != '0')
}

proof fn lemma_digit(d: nat)
    requires
        d < 10,
    ensures
        is_digit(digit_char(d)),
        digit_value(digit_char(d)) == d,
        d != 0 ==> digit_char(d) != '0',
{
}

proof fn lemma_digit_char(c: char)
    requires
        is_digit(c),
    ensures
        digit_value(c) < 10,
        digit_char(digit_value(c)) == c,
{
    assert(c as u32 >= '0' as u32 && c as u32 <= '9' as u32);
    let v = c as u32;
    assert(v == 48 || v == 49 || v == 50 || v == 51 || v == 52 || v == 53 || v == 54 || v == 55
        || v == 56 || v == 57);
}

/// `decimal` writes a canonical text whose value is `n`.
pub proof fn lemma_decimal(n: nat)
    ensures
        canonical_digits(decimal(n)),
        value_of(decimal(n)) == n,
    decreases n,
{
    if n < 10 {
        lemma_digit(n);
        let t = decimal(n);
        assert(t.drop_last() =~= Seq::<char>::empty());
        assert(value_of(t) == value_of(t.drop_last()) * 10 + digit_value(t.last()));
    } else {
        lemma_decimal(n / 10);
        lemma_digit(n % 10);
        let s = decimal(n / 10);
        let t = decimal(n);
        assert(t == s.push(digit_char(n % 10)));
        assert(t.drop_last() == s);
        assert(t.last() == digit_char(n % 10));
        assert(n == (n / 10) * 10 + n % 10) by (nonlinear_arith);
        assert(value_of(t) == value_of(s) * 10 + digit_value(t.last()));
        assert(t[0] == s[0]);
        assert forall|i: int| 0 <= i < t.len() implies is_digit(#[trigger] t[i]) by {
            if i < s.len() {
                assert(t[i] == s[i]);
            }
        }
        if s[0] == '0' {
            assert(s.len() == 1);
            assert(s.drop_last() =~= Seq::<char>::empty());
            assert(value_of(s) == value_of(s.drop_last()) * 10 + digit_value(s.last()));
            assert(s.last() == s[0]);
        }
    }
}

/// A canonical text has a value of at least one unless it is `0`.
proof fn lemma_value_positive(t: Seq<char>)
    requires
        t.len() > 0,
        forall|i: int| 0 <= i < t.len() ==> is_digit(#[trigger] t[i]),
        t[0] != '0',
    ensures
        value_of(t) >= 1,
        t.len() > 1 ==> value_of(t) >= 10,
    decreases t.len(),
{
    if t.len() == 1 {
        lemma_digit_char(t[0]);
        assert(t.last() == t[0]);
        assert(value_of(t.drop_last()) == 0);
        if digit_value(t[0]) == 0 {
            assert(digit_char(0) == t[0]);
        }
    } else {
        let s = t.drop_last();
        assert(s[0] == t[0]);
        lemma_value_positive(s);
    }
}

/// A canonical text is what `decimal` writes for its value.
pub proof fn lemma_canonical(t: Seq<char>)
    requires
        canonical_digits(t),
    ensures
        decimal(value_of(t)) == t,
    decreases t.len(),
{
    let c = t.last();
    lemma_digit_char(c);
    let d = digit_value(c);
    if t.len() == 1 {
        assert(value_of(t.drop_last()) == 0);
        assert(t =~= seq![c]);
    } else {
        let s = t.drop_last();
        assert(s[0] == t[0]);
        lemma_value_positive(s);
        assert(canonical_digits(s));
        lemma_canonical(s);
        let v = value_of(s);
        assert((v * 10 + d) / 10 == v && (v * 10 + d) % 10 == d) by (nonlinear_arith)
            requires
                d < 10,
        ;
        assert(t == s.push(c));
    }
}

/// A prefix of a digit text has no greater value than the whole.
proof fn lemma_value_prefix(s: Seq<char>, k: int)
    requires
        0 <= k <= s.len(),
    ensures
        value_of(s.subrange(0, k)) <= value_of(s),
    decreases s.len(),
{
    if k < s.len() {
        let p = s.drop_last();
        lemma_value_prefix(p, k);
        assert(p.subrange(0, k) == s.subrange(0, k));
    } else {
        assert(s.subrange(0, k) == s);
    }
}

/// Reads `t[from..to]` as a canonical decimal text of a `u64`.
pub fn parse_decimal(t: &Vec<char>, from: usize, to: usize) -> (r: Option<u64>)
    requires
        from <= to <= t@.len(),
    ensures
        r matches Some(n) ==> canonical_digits(t@.subrange(from as int, to as int)) && value_of(
            t@.subrange(from as int, to as int),
        ) == n,
        r is None ==> !(canonical_digits(t@.subrange(from as int, to as int)) && value_of(
            t@.subrange(from as int, to as int),
        ) <= u64::MAX),
{
    let ghost seg = t@.subrange(from as int, to as int);
    if from == to {
        return None;
    }
    if to - from > 1 && t[from] == '0' {
        return None;
    }
    let mut v: u64 = 0;
    let mut i: usize = from;
    while i < to
        invariant
            from <= i <= to <= t@.len(),
            seg == t@.subrange(from as int, to as int),
            v == value_of(t@.subrange(from as int, i as int)),
            forall|j: int| from <= j < i ==> is_digit(#[trigger] t@[j]),
        decreases to - i,
    {
        let c = t[i];
        let ghost pre = t@.subrange(from as int, i as int);
        let ghost next = t@.subrange(from as int, i + 1);
        assert(next.drop_last() == pre);
        assert(next.last() == c);
        if !('0' <= c && c <= '9') {
            assert(seg[i - from] == c);
            return None;
        }
        let d = (c as u32 - '0' as u32) as u64;
        assert(d == digit_value(c));
        if v > (u64::MAX - d) / 10 {
            proof {
                assert(v * 10 + d > u64::MAX) by (nonlinear_arith)
                    requires
                        v > (u64::MAX - d) / 10,
                        d <= 9,
                ;
                assert(seg.subrange(0, i + 1 - from) == next);
                lemma_value_prefix(seg, i + 1 - from);
            }
            return None;
        }
        assert(v * 10 + d <= u64::MAX) by (nonlinear_arith)
            requires
                v <= (u64::MAX - d) / 10,
                d <= 9,
        ;
        v = v * 10 + d;
        i = i + 1;
    }
    assert(t@.subrange(from as int, i as int) == seg);
    assert(seg[0] == t@[from as int]);
    Some(v)
}

/// Appends the decimal text of `n` to `out`.
pub fn push_decimal(out: &mut Vec<char>, n: u64)
    ensures
        final(out)@ == old(out)@ + decimal(n as nat),
    decreases n,
{
    if n >= 10 {
        push_decimal(out, n / 10);
    }
    let d = n % 10;
    let c = if d == 0 {
        '0'
    } else if d == 1 {
        '1'
    } else if d == 2 {
        '2'
    } else if d == 3 {
        '3'
    } else if d == 4 {
        '4'
    } else if d == 5 {
        '5'
    } else if d == 6 {
        '6'
    } else if d == 7 {
        '7'
    } else if d == 8 {
        '8'
    } else {
        '9'
    };
    out.push(c);
}

} // verus!
