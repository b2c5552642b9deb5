use vstd::prelude::*;

use crate::error::EvidenceError;
use crate::text::{
    all_digits, chars_of, decimal, digit_char, digit_value, digits_value, is_ascii_digit, is_digit,
    parse_digits, push_char, push_decimal,
};

verus! {

/// The kind of one CIGAR operation.
#[derive(Clone, Copy, Debug, PartialEq, Eq, Structural)]
pub enum CigarKind {
    Match,
    Ins,
    Del,
    RefSkip,
    SoftClip,
    HardClip,
    Pad,
    Equal,
    Diff,
}

/// One CIGAR operation: a kind and a length.
#[derive(Clone, Copy, Debug, PartialEq, Eq, Structural)]
pub struct CigarOp {
    pub kind: CigarKind,
    pub len: u32,
}

/// The letter that stands for a kind in CIGAR text.
pub open spec fn kind_char(k: CigarKind) -> char {
    match k {
        CigarKind::Match => 'M',
        CigarKind::Ins => 'I',
        CigarKind::Del => 'D',
        CigarKind::RefSkip => 'N',
        CigarKind::SoftClip => 'S',
        CigarKind::HardClip => 'H',
        CigarKind::Pad => 'P',
        CigarKind::Equal => '=',
        CigarKind::Diff => 'X',
    }
}

/// The kind that a letter of CIGAR text stands for, if any.
pub open spec fn char_kind(c: char) -> Option<CigarKind> {
    if c == 'M' {
        Some(CigarKind::Match)
    } else if c == 'I' {
        Some(CigarKind::Ins)
    } else if c == 'D' {
        Some(CigarKind::Del)
    } else if c == 'N' {
        Some(CigarKind::RefSkip)
    } else if c == 'S' {
        Some(CigarKind::SoftClip)
    } else if c == 'H' {
        Some(CigarKind::HardClip)
    } else if c == 'P' {
        Some(CigarKind::Pad)
    } else if c == '=' {
        Some(CigarKind::Equal)
    } else if c == 'X' {
        Some(CigarKind::Diff)
    } else {
        None
    }
}

pub fn kind_of_char(c: char) -> (r: Option<CigarKind>)
    ensures
        r == char_kind(c),
{
    if c == 'M' {
        Some(CigarKind::Match)
    } else if c == 'I' {
        Some(CigarKind::Ins)
    } else if c == 'D' {
        Some(CigarKind::Del)
    } else if c == 'N' {
        Some(CigarKind::RefSkip)
    } else if c == 'S' {
        Some(CigarKind::SoftClip)
    } else if c == 'H' {
        Some(CigarKind::HardClip)
    } else if c == 'P' {
        Some(CigarKind::Pad)
    } else if c == '=' {
        Some(CigarKind::Equal)
    } else if c == 'X' {
        Some(CigarKind::Diff)
    } else {
        None
    }
}

pub fn char_of_kind(k: CigarKind) -> (c: char)
    ensures
        c == kind_char(k),
{
    match k {
        CigarKind::Match => 'M',
        CigarKind::Ins => 'I',
        CigarKind::Del => 'D',
        CigarKind::RefSkip => 'N',
        CigarKind::SoftClip => 'S',
        CigarKind::HardClip => 'H',
        CigarKind::Pad => 'P',
        CigarKind::Equal => '=',
        CigarKind::Diff => 'X',
    }
}

/// Kinds that consume reference bases.
pub open spec fn consumes_reference(k: CigarKind) -> bool {
    k == CigarKind::Del || k == CigarKind::Match || k == CigarKind::RefSkip || k
        == CigarKind::Equal || k == CigarKind::Diff
}

/// Kinds counted in a read offset: those that consume query bases.
pub open spec fn counts_toward_offset(k: CigarKind) -> bool {
    k == CigarKind::SoftClip || k == CigarKind::Ins || k == CigarKind::Equal || k
        == CigarKind::Diff
}

/// The number of leading decimal digits of `s`.
pub open spec fn leading_digits(s: Seq<char>) -> nat
    decreases s.len(),
{
    if s.len() > 0 && is_digit(s[0]) {
        1 + leading_digits(s.skip(1))
    } else {
        0
    }
}

/// The operations that CIGAR text spells: each a nonempty run of decimal
/// digits whose value fits in `u32`, then one kind letter.
pub open spec fn parse_cigar_text(s: Seq<char>) -> Option<Seq<CigarOp>>
    decreases s.len(),
{
    if s.len() == 0 {
        Some(Seq::empty())
    } else {
        let k = leading_digits(s);
        if k == 0 || k >= s.len() || char_kind(s[k as int]) is None || digits_value(
            s.take(k as int),
        ) > u32::MAX {
            None
        } else {
            match parse_cigar_text(s.skip(k + 1 as int)) {
                None => None,
                Some(rest) => Some(
                    seq![CigarOp { kind: char_kind(s[k as int])->0, len: digits_value(s.take(k as int)) as u32 }]
                        + rest,
                ),
            }
        }
    }
}

/// The CIGAR text of a list of operations.
pub open spec fn cigar_text(ops: Seq<CigarOp>) -> Seq<char>
    decreases ops.len(),
{
    if ops.len() == 0 {
        Seq::empty()
    } else {
        cigar_text(ops.drop_last()) + decimal(ops.last().len as nat) + seq![kind_char(ops.last().kind)]
    }
}

/// The accumulated length of the operations of kind `k`.
pub open spec fn total_of(ops: Seq<CigarOp>, k: CigarKind) -> nat
    decreases ops.len(),
{
    if ops.len() == 0 {
        0
    } else {
        total_of(ops.drop_last(), k) + if ops.last().kind == k {
            ops.last().len as nat
        } else {
            0
        }
    }
}

/// Every per-kind total fits in `u32`.
pub open spec fn totals_fit(ops: Seq<CigarOp>) -> bool {
    forall|k: CigarKind| #[trigger] total_of(ops, k) <= u32::MAX
}

/// The read offset of the first match operation: the lengths of the
/// query-consuming operations before it; `None` when there is no match.
pub open spec fn first_match_offset(ops: Seq<CigarOp>) -> Option<nat>
    decreases ops.len(),
{
    if ops.len() == 0 {
        None
    } else if ops[0].kind == CigarKind::Match {
        Some(0)
    } else {
        match first_match_offset(ops.skip(1)) {
            None => None,
            Some(v) => Some(
                v + if counts_toward_offset(ops[0].kind) {
                    ops[0].len as nat
                } else {
                    0
                },
            ),
        }
    }
}

/// The read offset that CIGAR text gives, or why it gives none.
pub open spec fn text_offset(s: Seq<char>) -> Result<i64, EvidenceError> {
    match parse_cigar_text(s) {
        None => Err(EvidenceError::MalformedCigar),
        Some(ops) => match first_match_offset(ops) {
            Some(v) => if v <= i64::MAX {
                Ok(v as i64)
            } else {
                Err(EvidenceError::MalformedCigar)
            },
            None => Err(EvidenceError::MalformedCigar),
        },
    }
}

pub proof fn lemma_total_of_prefix(ops: Seq<CigarOp>, m: int, k: CigarKind)
    requires
        0 <= m <= ops.len(),
    ensures
        total_of(ops.take(m), k) <= total_of(ops, k),
    decreases ops.len(),
{
    if m < ops.len() {
        lemma_total_of_prefix(ops.drop_last(), m, k);
        assert(ops.drop_last().take(m) =~= ops.take(m));
    } else {
        assert(ops.take(m) =~= ops);
    }
}

proof fn lemma_leading_digits(s: Seq<char>, j: int)
    requires
        0 <= j <= s.len(),
        all_digits(s.take(j)),
        j == s.len() || !is_digit(s[j]),
    ensures
        leading_digits(s) == j,
    decreases j,
{
    if j > 0 {
        assert(s.take(j)[0] == s[0]);
        let t = s.skip(1);
        assert(all_digits(t.take(j - 1))) by {
            assert forall|i: int| 0 <= i < j - 1 implies is_digit(#[trigger] t.take(j - 1)[i]) by {
                assert(t.take(j - 1)[i] == s.take(j)[i + 1]);
            }
        }
        if j < s.len() {
            assert(t[j - 1] == s[j]);
        }
        lemma_leading_digits(t, j - 1);
    } else {
        if s.len() > 0 {
            assert(!is_digit(s[0]));
        }
    }
}

/// `prefix` followed by what `rest` holds, if it holds anything.
pub open spec fn prepend(prefix: Seq<CigarOp>, rest: Option<Seq<CigarOp>>) -> Option<Seq<CigarOp>> {
    match rest {
        None => None,
        Some(r) => Some(prefix + r),
    }
}

/// Parses CIGAR text into its operations.
pub fn parse_cigar_ops(s: &Vec<char>) -> (r: Result<Vec<CigarOp>, EvidenceError>)
    ensures
        match parse_cigar_text(s@) {
            None => r == Err::<Vec<CigarOp>, EvidenceError>(EvidenceError::MalformedCigar),
            Some(ops) => r matches Ok(v) && v@ == ops,
        },
{
    let mut ops: Vec<CigarOp> = Vec::new();
    let mut i: usize = 0;
    let n = s.len();
    assert(s@.skip(0) =~= s@);
    proof {
        match parse_cigar_text(s@) {
            None => {},
            Some(r) => {
                assert(Seq::<CigarOp>::empty() + r =~= r);
            },
        }
    }
    while i < n
        invariant
            i <= n == s@.len(),
            parse_cigar_text(s@) == prepend(ops@, parse_cigar_text(s@.skip(i as int))),
        decreases n - i,
    {
        let ghost rest = s@.skip(i as int);
        let mut j: usize = i;
        while j < n && is_ascii_digit(s[j])
            invariant
                i <= j <= n == s@.len(),
                all_digits(s@.subrange(i as int, j as int)),
            decreases n - j,
        {
            proof {
                let t = s@.subrange(i as int, j + 1);
                assert forall|q: int| 0 <= q < t.len() implies is_digit(#[trigger] t[q]) by {
                    if q < j - i {
                        assert(t[q] == s@.subrange(i as int, j as int)[q]);
                    }
                }
            }
            j = j + 1;
        }
        let ghost k = j - i;
        assert(rest.take(k) =~= s@.subrange(i as int, j as int));
        proof {
            if j < n {
                assert(rest[k] == s@[j as int]);
            }
            lemma_leading_digits(rest, k);
        }
        if j == i || j == n {
            return Err(EvidenceError::MalformedCigar);
        }
        assert(rest[k] == s@[j as int]);
        let kind = match kind_of_char(s[j]) {
            None => {
                return Err(EvidenceError::MalformedCigar);
            },
            Some(kd) => kd,
        };
        let len: u32 = match parse_digits(s, i, j, 0xffff_ffff) {
            None => {
                return Err(EvidenceError::MalformedCigar);
            },
            Some(v) => v as u32,
        };
        let op = CigarOp { kind, len };
        let ghost old_ops = ops@;
        assert(rest.skip(k + 1) =~= s@.skip(j + 1));
        ops.push(op);
        proof {
            match parse_cigar_text(s@.skip(j + 1)) {
                None => {},
                Some(r) => {
                    assert(old_ops + (seq![op] + r) =~= ops@ + r);
                },
            }
        }
        i = j + 1;
    }
    assert(s@.skip(n as int) =~= Seq::<char>::empty());
    assert(ops@ + Seq::<CigarOp>::empty() =~= ops@);
    Ok(ops)
}

/// The read offset of the first match operation of `ops`; `MalformedCigar`
/// where there is none, or where it does not fit in `i64`.
pub fn offset_of_ops(ops: &Vec<CigarOp>) -> (r: Result<i64, EvidenceError>)
    ensures
        r == match first_match_offset(ops@) {
            Some(v) => if v <= i64::MAX {
                Ok(v as i64)
            } else {
                Err(EvidenceError::MalformedCigar)
            },
            None => Err(EvidenceError::MalformedCigar),
        },
{
    let mut acc: u128 = 0;
    let mut i: usize = 0;
    assert(ops@.skip(0) =~= ops@);
    while i < ops.len()
        invariant
            i <= ops@.len(),
            acc <= i * 0xffff_ffffu128,
            match first_match_offset(ops@.skip(i as int)) {
                None => first_match_offset(ops@) is None,
                Some(v) => first_match_offset(ops@) == Some((v + acc) as nat),
            },
        decreases ops@.len() - i,
    {
        let op = ops[i];
        assert(ops@.skip(i as int)[0] == op);
        if op.kind == CigarKind::Match {
            if acc > 0x7fff_ffff_ffff_ffffu128 {
                return Err(EvidenceError::MalformedCigar);
            }
            return Ok(acc as i64);
        }
        assert(ops@.skip(i as int).skip(1) =~= ops@.skip(i + 1));
        if op.kind == CigarKind::SoftClip || op.kind == CigarKind::Ins || op.kind == CigarKind::Equal
            || op.kind == CigarKind::Diff {
            acc = acc + op.len as u128;
        }
        i = i + 1;
    }
    Err(EvidenceError::MalformedCigar)
}

/// The per-kind totals that CIGAR text gives.
pub fn parse_cigar(cigar_str: &str) -> (r: Result<CigarTotals, EvidenceError>)
    ensures
        r is Ok <==> (parse_cigar_text(cigar_str@) matches Some(ops) && totals_fit(ops)),
        r matches Ok(t) ==> t.is_totals_of(parse_cigar_text(cigar_str@)->0) && t == totals_spec(
            parse_cigar_text(cigar_str@)->0,
        ),
        r matches Err(e) ==> e == EvidenceError::MalformedCigar,
{
    let s = chars_of(cigar_str);
    match parse_cigar_ops(&s) {
        Err(e) => Err(e),
        Ok(ops) => CigarTotals::from_ops(&ops),
    }
}

/// The read offset of the first aligned base that CIGAR text gives: the
/// lengths of the soft-clip, insertion, sequence-match and sequence-mismatch
/// operations before its first match operation.
pub fn find_first_match_pos(cigar_str: &str) -> (r: Result<i64, EvidenceError>)
    ensures
        r == text_offset(cigar_str@),
{
    let s = chars_of(cigar_str);
    match parse_cigar_ops(&s) {
        Err(e) => Err(e),
        Ok(ops) => offset_of_ops(&ops),
    }
}

/// The CIGAR text of `ops`.
pub fn cigar_to_string(ops: &Vec<CigarOp>) -> (r: String)
    ensures
        r@ == cigar_text(ops@),
{
    let mut out = String::new();
    let mut i: usize = 0;
    assert(ops@.take(0) =~= Seq::<CigarOp>::empty());
    while i < ops.len()
        invariant
            i <= ops@.len(),
            out@ == cigar_text(ops@.take(i as int)),
        decreases ops@.len() - i,
    {
        let op = ops[i];
        assert(ops@.take(i + 1).drop_last() =~= ops@.take(i as int));
        push_decimal(&mut out, op.len as i128);
        let c = char_of_kind(op.kind);
        push_char(&mut out, c);
        i = i + 1;
    }
    assert(ops@.take(ops@.len() as int) =~= ops@);
    out
}

proof fn lemma_digit_char_value(d: nat)
    requires
        d < 10,
    ensures
        is_digit(digit_char(d)),
        digit_value(digit_char(d)) == d,
{
}

/// The decimal text of `n` is a nonempty run of digits that denotes `n`.
pub proof fn lemma_decimal_digits(n: nat)
    ensures
        decimal(n).len() >= 1,
        all_digits(decimal(n)),
        digits_value(decimal(n)) == n,
    decreases n,
{
    lemma_digit_char_value(n % 10);
    if n >= 10 {
        lemma_decimal_digits(n / 10);
        let s = decimal(n / 10);
        let t = decimal(n);
        assert(t.drop_last() =~= s);
        assert forall|i: int| 0 <= i < t.len() implies is_digit(#[trigger] t[i]) by {
            if i < s.len() {
                assert(t[i] == s[i]);
            }
        }
        assert(t.last() == digit_char(n % 10));
        assert(digits_value(t) == digits_value(s) * 10 + digit_value(t.last()));
        assert(n == (n / 10) * 10 + n % 10);
    } else {
        lemma_digit_char_value(n);
        let t = decimal(n);
        assert(t.drop_last() =~= Seq::<char>::empty());
        assert(digits_value(t.drop_last()) == 0);
        assert(t.last() == digit_char(n));
        assert(digits_value(t) == digits_value(t.drop_last()) * 10 + digit_value(t.last()));
    }
}

/// The text of one operation.
pub open spec fn op_text(op: CigarOp) -> Seq<char> {
    decimal(op.len as nat) + seq![kind_char(op.kind)]
}

proof fn lemma_cigar_text_front(ops: Seq<CigarOp>)
    requires
        ops.len() > 0,
    ensures
        cigar_text(ops) == op_text(ops[0]) + cigar_text(ops.skip(1)),
    decreases ops.len(),
{
    if ops.len() == 1 {
        assert(ops.drop_last() =~= Seq::<CigarOp>::empty());
        assert(ops.skip(1) =~= Seq::<CigarOp>::empty());
        assert(cigar_text(ops) =~= op_text(ops[0]) + cigar_text(ops.skip(1)));
    } else {
        lemma_cigar_text_front(ops.drop_last());
        assert(ops.drop_last().skip(1) =~= ops.skip(1).drop_last());
        assert(ops.skip(1).last() == ops.last());
        assert(cigar_text(ops) =~= op_text(ops[0]) + cigar_text(ops.skip(1)));
    }
}

/// Rendering operations as CIGAR text and parsing the text gives them back.
pub proof fn lemma_cigar_text_parses_back(ops: Seq<CigarOp>)
    ensures
        parse_cigar_text(cigar_text(ops)) == Some(ops),
    decreases ops.len(),
{
    if ops.len() == 0 {
        assert(cigar_text(ops) =~= Seq::<char>::empty());
        assert(parse_cigar_text(Seq::<char>::empty()) == Some(Seq::<CigarOp>::empty()));
        assert(ops =~= Seq::<CigarOp>::empty());
    } else {
        let op = ops[0];
        let rest = ops.skip(1);
        lemma_cigar_text_front(ops);
        lemma_cigar_text_parses_back(rest);
        lemma_decimal_digits(op.len as nat);
        let d = decimal(op.len as nat);
        let s = cigar_text(ops);
        let k = d.len() as int;
        assert(s == d + seq![kind_char(op.kind)] + cigar_text(rest));
        assert(s.take(k) =~= d);
        assert(s[k] == kind_char(op.kind));
        assert(!is_digit(kind_char(op.kind)));
        assert(char_kind(kind_char(op.kind)) == Some(op.kind));
        lemma_leading_digits(s, k);
        assert(s.skip(k + 1) =~= cigar_text(rest));
        assert(seq![op] + rest =~= ops);
    }
}

/// Per-kind totals of a CIGAR.
#[derive(Clone, Copy, Debug, PartialEq, Eq, Structural)]
pub struct CigarTotals {
    pub matched: u32,
    pub ins: u32,
    pub del: u32,
    pub ref_skip: u32,
    pub soft_clip: u32,
    pub hard_clip: u32,
    pub pad: u32,
    pub equal: u32,
    pub diff: u32,
}

/// The totals of `ops`, each cut to `u32`.
pub open spec fn totals_spec(ops: Seq<CigarOp>) -> CigarTotals {
    CigarTotals {
        matched: total_of(ops, CigarKind::Match) as u32,
        ins: total_of(ops, CigarKind::Ins) as u32,
        del: total_of(ops, CigarKind::Del) as u32,
        ref_skip: total_of(ops, CigarKind::RefSkip) as u32,
        soft_clip: total_of(ops, CigarKind::SoftClip) as u32,
        hard_clip: total_of(ops, CigarKind::HardClip) as u32,
        pad: total_of(ops, CigarKind::Pad) as u32,
        equal: total_of(ops, CigarKind::Equal) as u32,
        diff: total_of(ops, CigarKind::Diff) as u32,
    }
}

impl CigarTotals {
    pub open spec fn total(self, k: CigarKind) -> u32 {
        match k {
            CigarKind::Match => self.matched,
            CigarKind::Ins => self.ins,
            CigarKind::Del => self.del,
            CigarKind::RefSkip => self.ref_skip,
            CigarKind::SoftClip => self.soft_clip,
            CigarKind::HardClip => self.hard_clip,
            CigarKind::Pad => self.pad,
            CigarKind::Equal => self.equal,
            CigarKind::Diff => self.diff,
        }
    }

    /// The totals of `ops`.
    pub open spec fn is_totals_of(self, ops: Seq<CigarOp>) -> bool {
        forall|k: CigarKind| #[trigger] self.total(k) == total_of(ops, k)
    }

    /// All totals zero.
    pub fn zero() -> (r: CigarTotals)
        ensures
            r.is_totals_of(Seq::empty()),
    {
        CigarTotals {
            matched: 0,
            ins: 0,
            del: 0,
            ref_skip: 0,
            soft_clip: 0,
            hard_clip: 0,
            pad: 0,
            equal: 0,
            diff: 0,
        }
    }

    /// The total of kind `k`.
    pub fn get(&self, k: CigarKind) -> (r: u32)
        ensures
            r == self.total(k),
    {
        match k {
            CigarKind::Match => self.matched,
            CigarKind::Ins => self.ins,
            CigarKind::Del => self.del,
            CigarKind::RefSkip => self.ref_skip,
            CigarKind::SoftClip => self.soft_clip,
            CigarKind::HardClip => self.hard_clip,
            CigarKind::Pad => self.pad,
            CigarKind::Equal => self.equal,
            CigarKind::Diff => self.diff,
        }
    }

    /// These totals with `n` more of kind `k`, or `None` where that total
    /// would not fit in `u32`.
    pub fn add(&self, k: CigarKind, n: u32) -> (r: Option<CigarTotals>)
        ensures
            r is Some <==> self.total(k) + n <= u32::MAX,
            r matches Some(t) ==> forall|j: CigarKind| #[trigger] t.total(j) == self.total(j) + if j == k {
                n as int
            } else {
                0
            },
    {
        let cur = self.get(k);
        if cur > u32::MAX - n {
            return None;
        }
        let v = cur + n;
        let mut t = *self;
        match k {
            CigarKind::Match => t.matched = v,
            CigarKind::Ins => t.ins = v,
            CigarKind::Del => t.del = v,
            CigarKind::RefSkip => t.ref_skip = v,
            CigarKind::SoftClip => t.soft_clip = v,
            CigarKind::HardClip => t.hard_clip = v,
            CigarKind::Pad => t.pad = v,
            CigarKind::Equal => t.equal = v,
            CigarKind::Diff => t.diff = v,
        }
        Some(t)
    }

    /// The per-kind totals of `ops`; `MalformedCigar` where one does not fit in `u32`.
    pub fn from_ops(ops: &Vec<CigarOp>) -> (r: Result<CigarTotals, EvidenceError>)
        ensures
            r is Ok <==> totals_fit(ops@),
            r matches Ok(t) ==> t.is_totals_of(ops@) && t == totals_spec(ops@),
            r matches Err(e) ==> e == EvidenceError::MalformedCigar,
    {
        let mut t = CigarTotals::zero();
        let mut i: usize = 0;
        assert(ops@.take(0) =~= Seq::<CigarOp>::empty());
        while i < ops.len()
            invariant
                i <= ops@.len(),
                t.is_totals_of(ops@.take(i as int)),
            decreases ops@.len() - i,
        {
            let op = ops[i];
            assert(ops@.take(i + 1).drop_last() =~= ops@.take(i as int));
            match t.add(op.kind, op.len) {
                None => {
                    proof {
                        lemma_total_of_prefix(ops@, i + 1, op.kind);
                        assert(total_of(ops@.take(i + 1), op.kind) > u32::MAX);
                    }
                    return Err(EvidenceError::MalformedCigar);
                },
                Some(nt) => {
                    t = nt;
                },
            }
            i = i + 1;
        }
        assert(ops@.take(ops@.len() as int) =~= ops@);
        assert forall|k: CigarKind| #[trigger] total_of(ops@, k) <= u32::MAX by {
            assert(t.total(k) == total_of(ops@, k));
        }
        assert(t.total(CigarKind::Match) == total_of(ops@, CigarKind::Match));
        assert(t.total(CigarKind::Ins) == total_of(ops@, CigarKind::Ins));
        assert(t.total(CigarKind::Del) == total_of(ops@, CigarKind::Del));
        assert(t.total(CigarKind::RefSkip) == total_of(ops@, CigarKind::RefSkip));
        assert(t.total(CigarKind::SoftClip) == total_of(ops@, CigarKind::SoftClip));
        assert(t.total(CigarKind::HardClip) == total_of(ops@, CigarKind::HardClip));
        assert(t.total(CigarKind::Pad) == total_of(ops@, CigarKind::Pad));
        assert(t.total(CigarKind::Equal) == total_of(ops@, CigarKind::Equal));
        assert(t.total(CigarKind::Diff) == total_of(ops@, CigarKind::Diff));
        Ok(t)
    }
}

} // verus!
