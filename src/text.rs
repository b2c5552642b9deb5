use vstd::prelude::*;

verus! {

/// The characters of `s`, in order, as a vector that can be indexed.
pub fn chars_of(s: &str) -> (r: Vec<char>)
    ensures
        r@ == s@,
{
    let mut r: Vec<char> = Vec::new();
    for c in it: s.chars()
        invariant
            r@ == it.seq().take(it.index() as int),
            it.seq() == s@,
    {
        r.push(c);
    }
    r
}

/// An ASCII decimal digit.
pub open spec fn is_digit(c: char) -> bool {
    '0' <= c && c <= '9'
}

pub fn is_ascii_digit(c: char) -> (r: bool)
    ensures
        r == is_digit(c),
{
    '0' <= c && c <= '9'
}

pub open spec fn digit_value(c: char) -> nat {
    (c as u32 - '0' as u32) as nat
}

pub open spec fn all_digits(s: Seq<char>) -> bool {
    forall|i: int| 0 <= i < s.len() ==> is_digit(#[trigger] s[i])
}

/// The number that a run of decimal digits denotes (leading zeros allowed).
pub open spec fn digits_value(s: Seq<char>) -> nat
    decreases s.len(),
{
    if s.len() == 0 {
        0
    } else {
        digits_value(s.drop_last()) * 10 + digit_value(s.last())
    }
}

/// The integer that `s` denotes in the syntax of Rust's integer `FromStr`:
/// an optional `+` (or `-` where `signed`), then one or more decimal digits.
pub open spec fn int_text(s: Seq<char>, signed: bool) -> Option<int> {
    if s.len() == 0 {
        None
    } else if s[0] == '+' || (signed && s[0] == '-') {
        let d = s.skip(1);
        if d.len() > 0 && all_digits(d) {
            if s[0] == '-' {
                Some(-(digits_value(d) as int))
            } else {
                Some(digits_value(d) as int)
            }
        } else {
            None
        }
    } else if all_digits(s) {
        Some(digits_value(s) as int)
    } else {
        None
    }
}

/// Appending digits never makes the value smaller.
pub proof fn lemma_digits_value_prefix(s: Seq<char>, k: int)
    requires
        0 <= k <= s.len(),
        all_digits(s),
    ensures
        digits_value(s.take(k)) <= digits_value(s),
    decreases s.len(),
{
    if k < s.len() {
        let t = s.drop_last();
        assert(all_digits(t)) by {
            assert forall|i: int| 0 <= i < t.len() implies is_digit(#[trigger] t[i]) by {
                assert(t[i] == s[i]);
            }
        }
        lemma_digits_value_prefix(t, k);
        assert(t.take(k) =~= s.take(k));
    } else {
        assert(s.take(k) =~= s);
    }
}

/// Parses `s[lo..hi]` as a nonempty run of decimal digits whose value is at most `cap`.
pub fn parse_digits(s: &Vec<char>, lo: usize, hi: usize, cap: u64) -> (r: Option<u64>)
    requires
        lo <= hi <= s@.len(),
    ensures
        r is Some <==> (lo < hi && all_digits(s@.subrange(lo as int, hi as int))
            && digits_value(s@.subrange(lo as int, hi as int)) <= cap),
        r matches Some(v) ==> v == digits_value(s@.subrange(lo as int, hi as int)),
{
    if lo == hi {
        return None;
    }
    let mut v: u64 = 0;
    let mut i: usize = lo;
    while i < hi
        invariant
            lo <= i <= hi <= s@.len(),
            all_digits(s@.subrange(lo as int, i as int)),
            v == digits_value(s@.subrange(lo as int, i as int)),
            v <= cap,
        decreases hi - i,
    {
        let c = s[i];
        let ghost pre = s@.subrange(lo as int, i as int);
        let ghost next = s@.subrange(lo as int, i + 1);
        let ghost full = s@.subrange(lo as int, hi as int);
        assert(next.drop_last() =~= pre);
        assert(full[i - lo] == c);
        if !('0' <= c && c <= '9') {
            return None;
        }
        let d: u64 = (c as u32 - '0' as u32) as u64;
        let nv: u128 = v as u128 * 10 + d as u128;
        assert(all_digits(next)) by {
            assert forall|j: int| 0 <= j < next.len() implies is_digit(#[trigger] next[j]) by {
                if j < pre.len() {
                    assert(next[j] == pre[j]);
                }
            }
        }
        if nv > cap as u128 {
            proof {
                if all_digits(full) {
                    lemma_digits_value_prefix(full, i + 1 - lo);
                    assert(full.take(i + 1 - lo) =~= next);
                }
            }
            return None;
        }
        v = nv as u64;
        i = i + 1;
    }
    Some(v)
}

/// Parses `s[lo..hi]` as an `i64` written in the syntax of `int_text`.
pub fn parse_i64(s: &Vec<char>, lo: usize, hi: usize) -> (r: Option<i64>)
    requires
        lo <= hi <= s@.len(),
    ensures
        r is Some <==> (int_text(s@.subrange(lo as int, hi as int), true) matches Some(v)
            && i64::MIN <= v <= i64::MAX),
        r matches Some(x) ==> int_text(s@.subrange(lo as int, hi as int), true) == Some(x as int),
{
    let ghost sub = s@.subrange(lo as int, hi as int);
    if lo == hi {
        return None;
    }
    let c = s[lo];
    assert(sub[0] == c);
    if c == '+' || c == '-' {
        assert(sub.skip(1) =~= s@.subrange(lo + 1, hi as int));
        let cap: u64 = if c == '-' { 0x8000_0000_0000_0000u64 } else { 0x7fff_ffff_ffff_ffffu64 };
        match parse_digits(s, lo + 1, hi, cap) {
            None => None,
            Some(m) => {
                if c == '-' {
                    if m == 0x8000_0000_0000_0000u64 {
                        Some(i64::MIN)
                    } else {
                        Some(-(m as i64))
                    }
                } else {
                    Some(m as i64)
                }
            },
        }
    } else {
        match parse_digits(s, lo, hi, 0x7fff_ffff_ffff_ffffu64) {
            None => None,
            Some(m) => Some(m as i64),
        }
    }
}

/// Parses `s[lo..hi]` as a `u8` written in the syntax of `int_text` (no sign but `+`).
pub fn parse_u8(s: &Vec<char>, lo: usize, hi: usize) -> (r: Option<u8>)
    requires
        lo <= hi <= s@.len(),
    ensures
        r is Some <==> (int_text(s@.subrange(lo as int, hi as int), false) matches Some(v)
            && v <= u8::MAX),
        r matches Some(x) ==> int_text(s@.subrange(lo as int, hi as int), false) == Some(x as int),
{
    let ghost sub = s@.subrange(lo as int, hi as int);
    if lo == hi {
        return None;
    }
    let c = s[lo];
    assert(sub[0] == c);
    let start: usize = if c == '+' { lo + 1 } else { lo };
    assert(sub.skip(1) =~= s@.subrange(lo + 1, hi as int));
    match parse_digits(s, start, hi, 0xff) {
        None => None,
        Some(m) => Some(m as u8),
    }
}

/// The pieces of `s` between occurrences of `sep`; `n` separators give `n + 1` pieces.
pub open spec fn split_spec(s: Seq<char>, sep: char) -> Seq<Seq<char>>
    decreases s.len(),
{
    if s.len() == 0 {
        seq![Seq::empty()]
    } else {
        let r = split_spec(s.drop_last(), sep);
        if s.last() == sep {
            r.push(Seq::empty())
        } else {
            r.update(r.len() - 1, r.last().push(s.last()))
        }
    }
}

pub proof fn lemma_split_spec_nonempty(s: Seq<char>, sep: char)
    ensures
        split_spec(s, sep).len() >= 1,
    decreases s.len(),
{
    if s.len() > 0 {
        lemma_split_spec_nonempty(s.drop_last(), sep);
    }
}

/// The ranges of `s` that `split_spec` cuts out.
pub fn split_ranges(s: &Vec<char>, sep: char) -> (r: Vec<(usize, usize)>)
    ensures
        r@.len() == split_spec(s@, sep).len(),
        forall|k: int| #![trigger r@[k]] 0 <= k < r@.len() ==> r@[k].0 <= r@[k].1 <= s@.len(),
        forall|k: int|
            0 <= k < r@.len() ==> s@.subrange(r@[k].0 as int, r@[k].1 as int)
                == #[trigger] split_spec(s@, sep)[k],
{
    let mut r: Vec<(usize, usize)> = Vec::new();
    let mut start: usize = 0;
    let mut i: usize = 0;
    assert(s@.take(0) =~= Seq::<char>::empty());
    assert(s@.subrange(0, 0) =~= Seq::<char>::empty());
    while i < s.len()
        invariant
            start <= i <= s@.len(),
            r@.len() + 1 == split_spec(s@.take(i as int), sep).len(),
            forall|k: int| #![trigger r@[k]] 0 <= k < r@.len() ==> r@[k].0 <= r@[k].1 <= i,
            forall|k: int|
                0 <= k < r@.len() ==> s@.subrange(r@[k].0 as int, r@[k].1 as int)
                    == #[trigger] split_spec(s@.take(i as int), sep)[k],
            s@.subrange(start as int, i as int) == split_spec(s@.take(i as int), sep).last(),
        decreases s@.len() - i,
    {
        let ghost old_spec = split_spec(s@.take(i as int), sep);
        assert(s@.take(i + 1).drop_last() =~= s@.take(i as int));
        assert(s@.take(i + 1).last() == s@[i as int]);
        proof {
            lemma_split_spec_nonempty(s@.take(i as int), sep);
        }
        let ghost old_r = r@;
        if s[i] == sep {
            r.push((start, i));
            start = i + 1;
            assert(s@.subrange(start as int, i + 1) =~= Seq::<char>::empty());
        } else {
            assert(s@.subrange(start as int, i + 1) =~= s@.subrange(start as int, i as int).push(
                s@[i as int],
            ));
        }
        assert forall|k: int| #![trigger r@[k]] 0 <= k < r@.len() implies r@[k].0 <= r@[k].1 <= i + 1 by {
            if k < old_r.len() {
                assert(r@[k] == old_r[k]);
            }
        }
        let ghost new_spec = split_spec(s@.take(i + 1), sep);
        assert(new_spec == if s@[i as int] == sep {
            old_spec.push(Seq::empty())
        } else {
            old_spec.update(old_spec.len() - 1, old_spec.last().push(s@[i as int]))
        });
        assert forall|k: int| 0 <= k < r@.len() implies s@.subrange(
            r@[k].0 as int,
            r@[k].1 as int,
        ) == #[trigger] new_spec[k] by {
            if k < old_r.len() {
                assert(r@[k] == old_r[k]);
                assert(new_spec[k] == old_spec[k]);
            } else {
                assert(new_spec[k] == old_spec[k]);
            }
        }
        i = i + 1;
        assert(new_spec == split_spec(s@.take(i as int), sep));
    }
    assert(s@.take(s@.len() as int) =~= s@);
    let ghost old_r = r@;
    let ghost fin = split_spec(s@, sep);
    r.push((start, s.len()));
    assert forall|k: int| 0 <= k < r@.len() implies s@.subrange(r@[k].0 as int, r@[k].1 as int)
        == #[trigger] fin[k] by {
        if k < old_r.len() {
            assert(r@[k] == old_r[k]);
            assert(split_spec(s@.take(i as int), sep)[k] == fin[k]);
        } else {
            assert(k == fin.len() - 1);
            assert(r@[k] == (start, s.len()));
            assert(s@.subrange(start as int, s@.len() as int) == fin.last());
        }
    }
    r
}

/// The digit character for `d < 10`.
pub open spec fn digit_char(d: nat) -> char {
    if d == 0 {
        '0'
    } else if d == 1 {
        '1'
    } else if d == 2 {
        '2'
    } else if d == 3 {
        '3'
    } else if d == 4 {
        '4'
    } else if d == 5 {
        '5'
    } else if d == 6 {
        '6'
    } else if d == 7 {
        '7'
    } else if d == 8 {
        '8'
    } else {
        '9'
    }
}

/// The decimal text of `n`, without leading zeros.
pub open spec fn decimal(n: nat) -> Seq<char>
    decreases n,
{
    if n < 10 {
        seq![digit_char(n)]
    } else {
        decimal(n / 10).push(digit_char(n % 10))
    }
}

/// The decimal text of `v`, with a leading `-` when it is negative.
pub open spec fn signed_decimal(v: int) -> Seq<char> {
    if v < 0 {
        seq!['-'] + decimal((-v) as nat)
    } else {
        decimal(v as nat)
    }
}

fn digit_char_of(d: u128) -> (c: char)
    requires
        d < 10,
    ensures
        c == digit_char(d as nat),
{
    if d == 0 {
        '0'
    } else if d == 1 {
        '1'
    } else if d == 2 {
        '2'
    } else if d == 3 {
        '3'
    } else if d == 4 {
        '4'
    } else if d == 5 {
        '5'
    } else if d == 6 {
        '6'
    } else if d == 7 {
        '7'
    } else if d == 8 {
        '8'
    } else {
        '9'
    }
}

/// Relies on `String::push`: it appends one character at the end.
#[verifier::external_body]
pub(crate) fn push_char(out: &mut String, c: char)
    ensures
        final(out)@ == old(out)@.push(c),
{
    out.push(c);
}

/// The characters `v[lo..hi]` as a vector.
pub fn sub_vec(v: &Vec<char>, lo: usize, hi: usize) -> (r: Vec<char>)
    requires
        lo <= hi <= v@.len(),
    ensures
        r@ == v@.subrange(lo as int, hi as int),
{
    let mut out: Vec<char> = Vec::new();
    let mut i: usize = lo;
    while i < hi
        invariant
            lo <= i <= hi <= v@.len(),
            out@ == v@.subrange(lo as int, i as int),
        decreases hi - i,
    {
        assert(v@.subrange(lo as int, i + 1) =~= v@.subrange(lo as int, i as int).push(v@[i as int]));
        out.push(v[i]);
        i = i + 1;
    }
    out
}

/// The characters `v[lo..hi]` as a string.
pub fn string_of(v: &Vec<char>, lo: usize, hi: usize) -> (r: String)
    requires
        lo <= hi <= v@.len(),
    ensures
        r@ == v@.subrange(lo as int, hi as int),
{
    let mut out = String::new();
    let mut i: usize = lo;
    while i < hi
        invariant
            lo <= i <= hi <= v@.len(),
            out@ == v@.subrange(lo as int, i as int),
        decreases hi - i,
    {
        assert(v@.subrange(lo as int, i + 1) =~= v@.subrange(lo as int, i as int).push(v@[i as int]));
        push_char(&mut out, v[i]);
        i = i + 1;
    }
    out
}

/// Appends the characters of `s`.
pub fn push_text(out: &mut String, s: &str)
    ensures
        final(out)@ == old(out)@ + s@,
{
    let ghost start = out@;
    for c in it: s.chars()
        invariant
            out@ == start + it.seq().take(it.index() as int),
            it.seq() == s@,
    {
        proof {
            assert(it.seq().take(it.index() + 1) =~= it.seq().take(it.index() as int).push(c));
        }
        push_char(out, c);
    }
    assert(s@.take(s@.len() as int) =~= s@);
}

fn push_natural(out: &mut String, n: u128)
    ensures
        final(out)@ == old(out)@ + decimal(n as nat),
    decreases n,
{
    if n >= 10 {
        push_natural(out, n / 10);
    }
    let c = digit_char_of(n % 10);
    push_char(out, c);
    assert(final(out)@ =~= old(out)@ + decimal(n as nat));
}

/// Appends the decimal text of `v`.
pub fn push_decimal(out: &mut String, v: i128)
    requires
        v > i128::MIN,
    ensures
        final(out)@ == old(out)@ + signed_decimal(v as int),
{
    if v < 0 {
        push_char(out, '-');
        push_natural(out, (-v) as u128);
        assert(final(out)@ =~= old(out)@ + signed_decimal(v as int));
    } else {
        push_natural(out, v as u128);
    }
}

} // verus!
