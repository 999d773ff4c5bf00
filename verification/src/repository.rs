//! The repository's file-naming and ordering scheme.
//!
//! A devlog file is named `YYYY-MM-DD-SSS.devlog`: a zero-padded date and a
//! zero-padded same-day sequence number, followed by the fixed extension.
//! All names have one length and are digit-for-digit comparable, so the
//! lexical order of file names is the chronological order of the files.
//! The operations here work on parsed names; listing a directory and
//! reading the clock stay with the caller.

use crate::error::Error;
use vstd::prelude::*;
use vstd::seq_lib::*;
use vstd::set_lib::lemma_len_subset;

verus! {

/// The separator between the date and sequence fields: `-`.
pub const DASH: u8 = 45;

/// A calendar date as the clock reports it.
#[derive(Clone, Copy, PartialEq, Eq, Structural, Debug)]
pub struct Date {
    pub year: u16,
    pub month: u8,
    pub day: u8,
}

impl Date {
    /// The ranges a dated file name can carry.
    pub open spec fn wf(self) -> bool {
        self.year <= 9999 && 1 <= self.month <= 12 && 1 <= self.day <= 31
    }

    /// The date as one number that orders dates chronologically.
    pub open spec fn key(self) -> int {
        self.year * 10000 + self.month * 100 + self.day
    }
}

/// The name of one devlog file: its date and its same-day sequence number.
#[derive(Clone, Copy, PartialEq, Eq, Structural, Debug)]
pub struct LogName {
    pub date: Date,
    pub seq: u16,
}

impl LogName {
    /// A name a file can actually carry: a valid date and a sequence number
    /// of at most three digits.
    pub open spec fn wf(self) -> bool {
        self.date.wf() && self.seq <= 999
    }

    /// The name as one number: names compare chronologically by it.
    pub open spec fn key(self) -> int {
        self.date.key() * 1000 + self.seq
    }

    /// The chronological key, as executable code.
    pub fn key_u64(&self) -> (r: u64)
        requires
            self.wf(),
        ensures
            r as int == self.key(),
    {
        (self.date.year as u64) * 10000000 + (self.date.month as u64) * 100000 + (self.date.day
            as u64) * 1000 + (self.seq as u64)
    }
}

/// A decimal digit's byte.
pub open spec fn digit(v: int) -> u8
    recommends
        0 <= v <= 9,
{
    (48 + v) as u8
}

/// Whether a byte is a decimal digit.
pub open spec fn is_digit(c: u8) -> bool {
    48 <= c <= 57
}

/// The fixed file extension, `.devlog`.
pub open spec fn devlog_ext() -> Seq<u8> {
    seq![46u8, 100u8, 101u8, 118u8, 108u8, 111u8, 103u8]
}

/// The file name a log name renders to: `YYYY-MM-DD-SSS.devlog`.
pub open spec fn name_bytes(n: LogName) -> Seq<u8> {
    let y = n.date.year as int;
    let m = n.date.month as int;
    let d = n.date.day as int;
    let q = n.seq as int;
    seq![
        digit(y / 1000),
        digit(y / 100 % 10),
        digit(y / 10 % 10),
        digit(y % 10),
        DASH,
        digit(m / 10),
        digit(m % 10),
        DASH,
        digit(d / 10),
        digit(d % 10),
        DASH,
        digit(q / 100),
        digit(q / 10 % 10),
        digit(q % 10),
    ] + devlog_ext()
}

/// The month field of a well-shaped name's bytes.
pub open spec fn month_val(s: Seq<u8>) -> int {
    (s[5] - 48) * 10 + (s[6] - 48)
}

/// The day field of a well-shaped name's bytes.
pub open spec fn day_val(s: Seq<u8>) -> int {
    (s[8] - 48) * 10 + (s[9] - 48)
}

/// Whether a byte sequence is a devlog file name: padded digit fields,
/// separators and extension in place, month and day in calendar range.
pub open spec fn valid_name_bytes(s: Seq<u8>) -> bool {
    &&& s.len() == 21
    &&& is_digit(s[0]) && is_digit(s[1]) && is_digit(s[2]) && is_digit(s[3])
    &&& s[4] == DASH
    &&& is_digit(s[5]) && is_digit(s[6])
    &&& s[7] == DASH
    &&& is_digit(s[8]) && is_digit(s[9])
    &&& s[10] == DASH
    &&& is_digit(s[11]) && is_digit(s[12]) && is_digit(s[13])
    &&& s.skip(14) == devlog_ext()
    &&& 1 <= month_val(s) <= 12
    &&& 1 <= day_val(s) <= 31
}

impl LogName {
    /// Renders the name into its file name bytes.
    pub fn file_name(&self) -> (r: Vec<u8>)
        requires
            self.wf(),
        ensures
            r@ == name_bytes(*self),
    {
        let y = self.date.year;
        let m = self.date.month;
        let d = self.date.day;
        let q = self.seq;
        let mut out: Vec<u8> = Vec::new();
        out.push(48 + (y / 1000) as u8);
        out.push(48 + (y / 100 % 10) as u8);
        out.push(48 + (y / 10 % 10) as u8);
        out.push(48 + (y % 10) as u8);
        out.push(DASH);
        out.push(48 + m / 10);
        out.push(48 + m % 10);
        out.push(DASH);
        out.push(48 + d / 10);
        out.push(48 + d % 10);
        out.push(DASH);
        out.push(48 + (q / 100) as u8);
        out.push(48 + (q / 10 % 10) as u8);
        out.push(48 + (q % 10) as u8);
        out.push(46);
        out.push(100);
        out.push(101);
        out.push(118);
        out.push(108);
        out.push(111);
        out.push(103);
        proof {
            assert(out@ =~= name_bytes(*self));
        }
        out
    }
}

/// How a four-digit value decomposes into the digits that render it.
proof fn lemma_decompose4(y: int, a: int, b: int, c: int, d: int)
    requires
        0 <= a <= 9,
        0 <= b <= 9,
        0 <= c <= 9,
        0 <= d <= 9,
        y == a * 1000 + b * 100 + c * 10 + d,
    ensures
        y / 1000 == a,
        y / 100 % 10 == b,
        y / 10 % 10 == c,
        y % 10 == d,
{
    assert(y / 1000 == a && y / 100 == a * 10 + b && y / 10 == a * 100 + b * 10 + c && y % 10 == d);
    assert((a * 10 + b) % 10 == b);
    assert((a * 100 + b * 10 + c) % 10 == c);
}

/// How a two-digit value decomposes into the digits that render it.
proof fn lemma_decompose2(m: int, a: int, b: int)
    requires
        0 <= a <= 9,
        0 <= b <= 9,
        m == a * 10 + b,
    ensures
        m / 10 == a,
        m % 10 == b,
{
}

/// How a three-digit value decomposes into the digits that render it.
proof fn lemma_decompose3(q: int, a: int, b: int, c: int)
    requires
        0 <= a <= 9,
        0 <= b <= 9,
        0 <= c <= 9,
        q == a * 100 + b * 10 + c,
    ensures
        q / 100 == a,
        q / 10 % 10 == b,
        q % 10 == c,
{
    assert(q / 100 == a && q / 10 == a * 10 + b);
    assert((a * 10 + b) % 10 == b);
}

/// Whether a byte is a decimal digit, as executable code.
fn is_digit_b(c: u8) -> (r: bool)
    ensures
        r == is_digit(c),
{
    48 <= c && c <= 57
}

/// Parses a file name back into a log name.  Succeeds exactly on the byte
/// sequences the naming scheme produces, and on those returns the name that
/// renders back to the input.
pub fn parse_name(s: &[u8]) -> (r: Option<LogName>)
    ensures
        r is Some <==> valid_name_bytes(s@),
        r matches Some(n) ==> n.wf() && name_bytes(n) == s@,
{
    if s.len() != 21 {
        return None;
    }
    if !(is_digit_b(s[0]) && is_digit_b(s[1]) && is_digit_b(s[2]) && is_digit_b(s[3])) {
        return None;
    }
    if s[4] != DASH {
        return None;
    }
    if !(is_digit_b(s[5]) && is_digit_b(s[6])) {
        return None;
    }
    if s[7] != DASH {
        return None;
    }
    if !(is_digit_b(s[8]) && is_digit_b(s[9])) {
        return None;
    }
    if s[10] != DASH {
        return None;
    }
    if !(is_digit_b(s[11]) && is_digit_b(s[12]) && is_digit_b(s[13])) {
        return None;
    }
    if !(s[14] == 46 && s[15] == 100 && s[16] == 101 && s[17] == 118 && s[18] == 108 && s[19]
        == 111 && s[20] == 103) {
        proof {
            assert(valid_name_bytes(s@) ==> s@.skip(14) == devlog_ext() && s@.skip(14)[0] == s@[14]
                && s@.skip(14)[1] == s@[15] && s@.skip(14)[2] == s@[16] && s@.skip(14)[3] == s@[17]
                && s@.skip(14)[4] == s@[18] && s@.skip(14)[5] == s@[19] && s@.skip(14)[6]
                == s@[20]);
        }
        return None;
    }
    let year: u16 = (s[0] - 48) as u16 * 1000 + (s[1] - 48) as u16 * 100 + (s[2] - 48) as u16 * 10
        + (s[3] - 48) as u16;
    let month: u8 = (s[5] - 48) * 10 + (s[6] - 48);
    let day: u8 = (s[8] - 48) * 10 + (s[9] - 48);
    let seq: u16 = (s[11] - 48) as u16 * 100 + (s[12] - 48) as u16 * 10 + (s[13] - 48) as u16;
    if month < 1 || month > 12 {
        return None;
    }
    if day < 1 || day > 31 {
        return None;
    }
    let n = LogName { date: Date { year, month, day }, seq };
    proof {
        lemma_decompose4(
            year as int,
            s@[0] - 48,
            s@[1] - 48,
            s@[2] - 48,
            s@[3] - 48,
        );
        lemma_decompose2(month as int, s@[5] - 48, s@[6] - 48);
        lemma_decompose2(day as int, s@[8] - 48, s@[9] - 48);
        lemma_decompose3(seq as int, s@[11] - 48, s@[12] - 48, s@[13] - 48);
        assert(s@.skip(14) =~= devlog_ext());
        assert(name_bytes(n) =~= s@);
    }
    Some(n)
}

/// A well-formed name always renders to bytes the parser accepts: the naming
/// scheme round-trips.
pub proof fn lemma_name_bytes_valid(n: LogName)
    requires
        n.wf(),
    ensures
        valid_name_bytes(name_bytes(n)),
{
    let s = name_bytes(n);
    lemma_decompose_of_value(n);
    assert(s.skip(14) =~= devlog_ext());
}

/// The digits of each field of a rendered name recompose to the field.
proof fn lemma_decompose_of_value(n: LogName)
    requires
        n.wf(),
    ensures
        month_val(name_bytes(n)) == n.date.month as int,
        day_val(name_bytes(n)) == n.date.day as int,
{
    let m = n.date.month as int;
    let d = n.date.day as int;
    assert(m == (m / 10) * 10 + m % 10);
    assert(d == (d / 10) * 10 + d % 10);
}

/// Two distinct well-formed names never render to the same file name.
pub proof fn lemma_name_bytes_injective(a: LogName, b: LogName)
    requires
        a.wf(),
        b.wf(),
        name_bytes(a) == name_bytes(b),
    ensures
        a == b,
{
    let sa = name_bytes(a);
    let sb = name_bytes(b);
    let ya = a.date.year as int;
    let yb = b.date.year as int;
    let ma = a.date.month as int;
    let mb = b.date.month as int;
    let da = a.date.day as int;
    let db = b.date.day as int;
    let qa = a.seq as int;
    let qb = b.seq as int;
    assert(sa[0] == digit(ya / 1000) && sa[1] == digit(ya / 100 % 10) && sa[2] == digit(
        ya / 10 % 10,
    ) && sa[3] == digit(ya % 10) && sa[5] == digit(ma / 10) && sa[6] == digit(ma % 10) && sa[8]
        == digit(da / 10) && sa[9] == digit(da % 10) && sa[11] == digit(qa / 100) && sa[12]
        == digit(qa / 10 % 10) && sa[13] == digit(qa % 10));
    assert(sb[0] == digit(yb / 1000) && sb[1] == digit(yb / 100 % 10) && sb[2] == digit(
        yb / 10 % 10,
    ) && sb[3] == digit(yb % 10) && sb[5] == digit(mb / 10) && sb[6] == digit(mb % 10) && sb[8]
        == digit(db / 10) && sb[9] == digit(db % 10) && sb[11] == digit(qb / 100) && sb[12]
        == digit(qb / 10 % 10) && sb[13] == digit(qb % 10));
    lemma_digit_injective(ya / 1000, yb / 1000);
    lemma_digit_injective(ya / 100 % 10, yb / 100 % 10);
    lemma_digit_injective(ya / 10 % 10, yb / 10 % 10);
    lemma_digit_injective(ya % 10, yb % 10);
    lemma_digit_injective(ma / 10, mb / 10);
    lemma_digit_injective(ma % 10, mb % 10);
    lemma_digit_injective(da / 10, db / 10);
    lemma_digit_injective(da % 10, db % 10);
    lemma_digit_injective(qa / 100, qb / 100);
    lemma_digit_injective(qa / 10 % 10, qb / 10 % 10);
    lemma_digit_injective(qa % 10, qb % 10);
    lemma_recompose_all(a);
    lemma_recompose_all(b);
}

/// Digit bytes of in-range values are equal only for equal values.
proof fn lemma_digit_injective(x: int, y: int)
    requires
        0 <= x <= 9,
        0 <= y <= 9,
    ensures
        digit(x) == digit(y) ==> x == y,
{
    assert(digit(x) as int == 48 + x);
    assert(digit(y) as int == 48 + y);
}

/// Each field of a well-formed name is recovered from its rendered digits.
proof fn lemma_recompose_all(n: LogName)
    requires
        n.wf(),
    ensures
        n.date.year as int == (n.date.year as int / 1000) * 1000 + (n.date.year as int / 100 % 10)
            * 100 + (n.date.year as int / 10 % 10) * 10 + n.date.year as int % 10,
        n.date.month as int == (n.date.month as int / 10) * 10 + n.date.month as int % 10,
        n.date.day as int == (n.date.day as int / 10) * 10 + n.date.day as int % 10,
        n.seq as int == (n.seq as int / 100) * 100 + (n.seq as int / 10 % 10) * 10 + n.seq as int
            % 10,
{
    let y = n.date.year as int;
    assert(y == (y / 1000) * 1000 + (y / 100 % 10) * 100 + (y / 10 % 10) * 10 + y % 10) by {
        assert(y / 100 == (y / 1000) * 10 + y / 100 % 10);
        assert(y / 10 == (y / 100) * 10 + y / 10 % 10);
        assert(y == (y / 10) * 10 + y % 10);
    }
    let q = n.seq as int;
    assert(q == (q / 100) * 100 + (q / 10 % 10) * 10 + q % 10) by {
        assert(q / 10 == (q / 100) * 10 + q / 10 % 10);
        assert(q == (q / 10) * 10 + q % 10);
    }
}

/// Strict lexicographic (byte-wise) order, the order `ls` shows file names
/// in: a proper prefix comes first, otherwise the first differing byte
/// decides.
pub open spec fn lex_lt(x: Seq<u8>, y: Seq<u8>) -> bool
    decreases x.len(),
{
    if y.len() == 0 {
        false
    } else if x.len() == 0 {
        true
    } else if x[0] < y[0] {
        true
    } else if x[0] > y[0] {
        false
    } else {
        lex_lt(x.skip(1), y.skip(1))
    }
}

/// Nothing precedes itself lexicographically.
proof fn lemma_lex_irrefl(x: Seq<u8>)
    ensures
        !lex_lt(x, x),
    decreases x.len(),
{
    if x.len() > 0 {
        lemma_lex_irrefl(x.skip(1));
    }
}

/// Peeling one byte off two same-length sequences: the heads decide, and on
/// a tie the tails do.
proof fn lemma_lex_cons(u: u8, x: Seq<u8>, v: u8, y: Seq<u8>)
    ensures
        lex_lt(seq![u] + x, seq![v] + y) <==> (u < v || (u == v && lex_lt(x, y))),
{
    let xs = seq![u] + x;
    let ys = seq![v] + y;
    assert(xs[0] == u && ys[0] == v);
    assert(xs.skip(1) =~= x);
    assert(ys.skip(1) =~= y);
}

/// Four-digit fields compare lexicographically as their values do.
proof fn lemma_lex_digits4(xa: int, xb: int)
    requires
        0 <= xa <= 9999,
        0 <= xb <= 9999,
    ensures
        lex_lt(
            seq![digit(xa / 1000), digit(xa / 100 % 10), digit(xa / 10 % 10), digit(xa % 10)],
            seq![digit(xb / 1000), digit(xb / 100 % 10), digit(xb / 10 % 10), digit(xb % 10)],
        ) <==> xa < xb,
{
    let a0 = xa / 1000;
    let a1 = xa / 100 % 10;
    let a2 = xa / 10 % 10;
    let a3 = xa % 10;
    let b0 = xb / 1000;
    let b1 = xb / 100 % 10;
    let b2 = xb / 10 % 10;
    let b3 = xb % 10;
    assert(xa == a0 * 1000 + a1 * 100 + a2 * 10 + a3 && a0 <= 9) by {
        assert(xa / 100 == (xa / 1000) * 10 + xa / 100 % 10);
        assert(xa / 10 == (xa / 100) * 10 + xa / 10 % 10);
        assert(xa == (xa / 10) * 10 + xa % 10);
    }
    assert(xb == b0 * 1000 + b1 * 100 + b2 * 10 + b3 && b0 <= 9) by {
        assert(xb / 100 == (xb / 1000) * 10 + xb / 100 % 10);
        assert(xb / 10 == (xb / 100) * 10 + xb / 10 % 10);
        assert(xb == (xb / 10) * 10 + xb % 10);
    }
    let ta = seq![digit(a1), digit(a2), digit(a3)];
    let tb = seq![digit(b1), digit(b2), digit(b3)];
    assert(seq![digit(a0), digit(a1), digit(a2), digit(a3)] =~= seq![digit(a0)] + ta);
    assert(seq![digit(b0), digit(b1), digit(b2), digit(b3)] =~= seq![digit(b0)] + tb);
    lemma_lex_cons(digit(a0), ta, digit(b0), tb);
    lemma_lex_digits3_parts(a1, a2, a3, b1, b2, b3);
}

/// Three explicit digits compare lexicographically as digit tuples do.
proof fn lemma_lex_digits3_parts(a1: int, a2: int, a3: int, b1: int, b2: int, b3: int)
    requires
        0 <= a1 <= 9,
        0 <= a2 <= 9,
        0 <= a3 <= 9,
        0 <= b1 <= 9,
        0 <= b2 <= 9,
        0 <= b3 <= 9,
    ensures
        lex_lt(seq![digit(a1), digit(a2), digit(a3)], seq![digit(b1), digit(b2), digit(b3)])
            <==> (a1 < b1 || (a1 == b1 && (a2 < b2 || (a2 == b2 && a3 < b3)))),
{
    let ta = seq![digit(a2), digit(a3)];
    let tb = seq![digit(b2), digit(b3)];
    assert(seq![digit(a1), digit(a2), digit(a3)] =~= seq![digit(a1)] + ta);
    assert(seq![digit(b1), digit(b2), digit(b3)] =~= seq![digit(b1)] + tb);
    lemma_lex_cons(digit(a1), ta, digit(b1), tb);
    lemma_lex_digits2_parts(a2, a3, b2, b3);
}

/// Two explicit digits compare lexicographically as digit pairs do.
proof fn lemma_lex_digits2_parts(a2: int, a3: int, b2: int, b3: int)
    requires
        0 <= a2 <= 9,
        0 <= a3 <= 9,
        0 <= b2 <= 9,
        0 <= b3 <= 9,
    ensures
        lex_lt(seq![digit(a2), digit(a3)], seq![digit(b2), digit(b3)]) <==> (a2 < b2 || (a2 == b2
            && a3 < b3)),
{
    assert(seq![digit(a2), digit(a3)] =~= seq![digit(a2)] + seq![digit(a3)]);
    assert(seq![digit(b2), digit(b3)] =~= seq![digit(b2)] + seq![digit(b3)]);
    lemma_lex_cons(digit(a2), seq![digit(a3)], digit(b2), seq![digit(b3)]);
    assert(seq![digit(a3)] =~= seq![digit(a3)] + Seq::<u8>::empty());
    assert(seq![digit(b3)] =~= seq![digit(b3)] + Seq::<u8>::empty());
    lemma_lex_cons(digit(a3), Seq::<u8>::empty(), digit(b3), Seq::<u8>::empty());
}

/// The load-bearing invariant of the naming scheme: the lexical order of
/// two rendered file names is exactly the chronological order of the names,
/// so a directory listing sorted by file name is sorted by time.
pub proof fn lemma_lexical_order_is_chronological(a: LogName, b: LogName)
    requires
        a.wf(),
        b.wf(),
    ensures
        lex_lt(name_bytes(a), name_bytes(b)) <==> a.key() < b.key(),
{
    let ya = a.date.year as int;
    let yb = b.date.year as int;
    let ma = a.date.month as int;
    let mb = b.date.month as int;
    let da = a.date.day as int;
    let db = b.date.day as int;
    let qa = a.seq as int;
    let qb = b.seq as int;
    let y4a = seq![digit(ya / 1000), digit(ya / 100 % 10), digit(ya / 10 % 10), digit(ya % 10)];
    let y4b = seq![digit(yb / 1000), digit(yb / 100 % 10), digit(yb / 10 % 10), digit(yb % 10)];
    let m2a = seq![digit(ma / 10), digit(ma % 10)];
    let m2b = seq![digit(mb / 10), digit(mb % 10)];
    let d2a = seq![digit(da / 10), digit(da % 10)];
    let d2b = seq![digit(db / 10), digit(db % 10)];
    let q3a = seq![digit(qa / 100), digit(qa / 10 % 10), digit(qa % 10)];
    let q3b = seq![digit(qb / 100), digit(qb / 10 % 10), digit(qb % 10)];
    let ra = seq![DASH] + m2a + (seq![DASH] + d2a + (seq![DASH] + (q3a + devlog_ext())));
    let rb = seq![DASH] + m2b + (seq![DASH] + d2b + (seq![DASH] + (q3b + devlog_ext())));
    assert(name_bytes(a) =~= y4a + ra);
    assert(name_bytes(b) =~= y4b + rb);

    // year digits decide first
    lemma_lex_concat(y4a, ra, y4b, rb);
    lemma_lex_digits4(ya, yb);
    lemma_name_field_recompose(ya, ma, da, qa);
    lemma_name_field_recompose(yb, mb, db, qb);
    assert(y4a == y4b ==> ya == yb) by {
        if y4a == y4b {
            lemma_digit_injective(ya / 1000, yb / 1000);
            lemma_digit_injective(ya / 100 % 10, yb / 100 % 10);
            lemma_digit_injective(ya / 10 % 10, yb / 10 % 10);
            lemma_digit_injective(ya % 10, yb % 10);
        }
    }

    // then the month pair, behind one separator
    assert(ra =~= seq![DASH] + (m2a + (seq![DASH] + d2a + (seq![DASH] + (q3a + devlog_ext())))));
    assert(rb =~= seq![DASH] + (m2b + (seq![DASH] + d2b + (seq![DASH] + (q3b + devlog_ext())))));
    lemma_lex_cons(
        DASH,
        m2a + (seq![DASH] + d2a + (seq![DASH] + (q3a + devlog_ext()))),
        DASH,
        m2b + (seq![DASH] + d2b + (seq![DASH] + (q3b + devlog_ext()))),
    );
    lemma_lex_concat(
        m2a,
        seq![DASH] + d2a + (seq![DASH] + (q3a + devlog_ext())),
        m2b,
        seq![DASH] + d2b + (seq![DASH] + (q3b + devlog_ext())),
    );
    lemma_lex_digits2_parts(ma / 10, ma % 10, mb / 10, mb % 10);
    assert(m2a == m2b ==> ma == mb) by {
        if m2a == m2b {
            lemma_digit_injective(ma / 10, mb / 10);
            lemma_digit_injective(ma % 10, mb % 10);
        }
    }

    // then the day pair
    assert(seq![DASH] + d2a + (seq![DASH] + (q3a + devlog_ext())) =~= seq![DASH] + (d2a + (
    seq![DASH] + (q3a + devlog_ext()))));
    assert(seq![DASH] + d2b + (seq![DASH] + (q3b + devlog_ext())) =~= seq![DASH] + (d2b + (
    seq![DASH] + (q3b + devlog_ext()))));
    lemma_lex_cons(
        DASH,
        d2a + (seq![DASH] + (q3a + devlog_ext())),
        DASH,
        d2b + (seq![DASH] + (q3b + devlog_ext())),
    );
    lemma_lex_concat(
        d2a,
        seq![DASH] + (q3a + devlog_ext()),
        d2b,
        seq![DASH] + (q3b + devlog_ext()),
    );
    lemma_lex_digits2_parts(da / 10, da % 10, db / 10, db % 10);
    assert(d2a == d2b ==> da == db) by {
        if d2a == d2b {
            lemma_digit_injective(da / 10, db / 10);
            lemma_digit_injective(da % 10, db % 10);
        }
    }

    // then the sequence triple, and the shared extension never decides
    lemma_lex_cons(DASH, q3a + devlog_ext(), DASH, q3b + devlog_ext());
    lemma_lex_concat(q3a, devlog_ext(), q3b, devlog_ext());
    lemma_lex_digits3_parts(qa / 100, qa / 10 % 10, qa % 10, qb / 100, qb / 10 % 10, qb % 10);
    lemma_lex_irrefl(devlog_ext());
    assert(q3a == q3b ==> qa == qb) by {
        if q3a == q3b {
            lemma_digit_injective(qa / 100, qb / 100);
            lemma_digit_injective(qa / 10 % 10, qb / 10 % 10);
            lemma_digit_injective(qa % 10, qb % 10);
        }
    }

    // the key orders by the same field tuple
    assert(a.key() < b.key() <==> (ya < yb || (ya == yb && (ma < mb || (ma == mb && (da < db || (da
        == db && qa < qb)))))));
}

/// Splitting two same-length prefixes off: the prefixes decide, and on a
/// tie the rests do.
proof fn lemma_lex_concat(a1: Seq<u8>, a2: Seq<u8>, b1: Seq<u8>, b2: Seq<u8>)
    requires
        a1.len() == b1.len(),
    ensures
        lex_lt(a1 + a2, b1 + b2) <==> (lex_lt(a1, b1) || (a1 == b1 && lex_lt(a2, b2))),
    decreases a1.len(),
{
    if a1.len() == 0 {
        assert(a1 + a2 =~= a2);
        assert(b1 + b2 =~= b2);
        assert(a1 =~= b1);
    } else {
        assert((a1 + a2)[0] == a1[0]);
        assert((b1 + b2)[0] == b1[0]);
        assert((a1 + a2).skip(1) =~= a1.skip(1) + a2);
        assert((b1 + b2).skip(1) =~= b1.skip(1) + b2);
        lemma_lex_concat(a1.skip(1), a2, b1.skip(1), b2);
        assert(a1 == b1 <==> (a1[0] == b1[0] && a1.skip(1) == b1.skip(1))) by {
            if a1[0] == b1[0] && a1.skip(1) == b1.skip(1) {
                assert forall|i: int| 0 <= i < a1.len() implies a1[i] == b1[i] by {
                    if i > 0 {
                        assert(a1.skip(1)[i - 1] == b1.skip(1)[i - 1]);
                    }
                }
                assert(a1 =~= b1);
            }
        }
    }
}

/// Each field of a name recomposes from its rendered digits.
proof fn lemma_name_field_recompose(y: int, m: int, d: int, q: int)
    requires
        0 <= y <= 9999,
        0 <= m <= 99,
        0 <= d <= 99,
        0 <= q <= 999,
    ensures
        y == (y / 1000) * 1000 + (y / 100 % 10) * 100 + (y / 10 % 10) * 10 + y % 10,
        m == (m / 10) * 10 + m % 10,
        d == (d / 10) * 10 + d % 10,
        q == (q / 100) * 100 + (q / 10 % 10) * 10 + q % 10,
{
    assert(y / 100 == (y / 1000) * 10 + y / 100 % 10);
    assert(y / 10 == (y / 100) * 10 + y / 10 % 10);
    assert(y == (y / 10) * 10 + y % 10);
    assert(q / 10 == (q / 100) * 10 + q / 10 % 10);
    assert(q == (q / 10) * 10 + q % 10);
}

/// The chronologically last name among `names`, or nothing when there are
/// none yet.
pub fn latest(names: &Vec<LogName>) -> (r: Option<LogName>)
    requires
        forall|i: int| 0 <= i < names@.len() ==> names@[i].wf(),
    ensures
        r is Some <==> names@.len() > 0,
        r matches Some(m) ==> names@.contains(m) && forall|i: int|
            0 <= i < names@.len() ==> names@[i].key() <= m.key(),
{
    let mut best: Option<LogName> = None;
    let mut i: usize = 0;
    while i < names.len()
        invariant
            0 <= i <= names@.len(),
            forall|k: int| 0 <= k < names@.len() ==> names@[k].wf(),
            best is Some <==> i > 0,
            best matches Some(m) ==> names@.contains(m) && m.wf() && forall|k: int|
                0 <= k < i ==> names@[k].key() <= m.key(),
        decreases names@.len() - i,
    {
        let cand = names[i];
        match best {
            None => {
                best = Some(cand);
            },
            Some(b) => {
                if cand.key_u64() > b.key_u64() {
                    best = Some(cand);
                }
            },
        }
        i = i + 1;
    }
    best
}

/// The chronological key of today's date as a fresh first-of-day name would
/// carry it.
fn date_key_u64(d: Date) -> (r: u64)
    requires
        d.wf(),
    ensures
        r as int == d.key(),
{
    (d.year as u64) * 10000 + (d.month as u64) * 100 + (d.day as u64)
}

/// The name the next devlog file gets: today's date with sequence number 0,
/// or, when the latest file is from today or later, the latest file's date
/// with the next sequence number, so the new name always sorts strictly
/// after every existing one.  Fails exactly when that date's sequence
/// numbers are used up.
pub fn next_name(latest: &Option<LogName>, today: Date) -> (r: Result<LogName, Error>)
    requires
        today.wf(),
        latest matches Some(l) ==> l.wf(),
    ensures
        r is Err <==> (latest matches Some(l) && l.date.key() >= today.key() && l.seq == 999),
        r matches Err(e) ==> e is LogFileLimitExceeded,
        latest is None ==> r == Ok::<LogName, Error>(LogName { date: today, seq: 0 }),
        latest matches Some(l) ==> (l.date.key() < today.key() ==> r == Ok::<LogName, Error>(
            LogName { date: today, seq: 0 },
        )) && (l.date.key() >= today.key() && l.seq < 999 ==> r == Ok::<LogName, Error>(
            LogName { date: l.date, seq: (l.seq + 1) as u16 },
        )) && (r matches Ok(n) ==> n.key() > l.key()),
        r matches Ok(n) ==> n.wf() && n.date.key() >= today.key(),
{
    match latest {
        None => Ok(LogName { date: today, seq: 0 }),
        Some(l) => {
            if date_key_u64(l.date) < date_key_u64(today) {
                Ok(LogName { date: today, seq: 0 })
            } else if l.seq < 999 {
                Ok(LogName { date: l.date, seq: l.seq + 1 })
            } else {
                Err(Error::LogFileLimitExceeded)
            }
        },
    }
}

/// The file initialization resolves to: the newest existing file of today's
/// date, or, when today has none, a fresh first-of-day name that the caller
/// must create (the second component tells it to).  An existing file is
/// never overwritten.
pub fn init_name(names: &Vec<LogName>, today: Date) -> (r: (LogName, bool))
    requires
        today.wf(),
        forall|i: int| 0 <= i < names@.len() ==> names@[i].wf(),
    ensures
        r.0.wf(),
        r.1 ==> r.0 == (LogName { date: today, seq: 0 }) && forall|i: int|
            0 <= i < names@.len() ==> names@[i].date != today,
        !r.1 ==> names@.contains(r.0) && r.0.date == today && forall|i: int|
            0 <= i < names@.len() && names@[i].date == today ==> names@[i].seq <= r.0.seq,
{
    let mut found: Option<LogName> = None;
    let mut i: usize = 0;
    while i < names.len()
        invariant
            0 <= i <= names@.len(),
            today.wf(),
            forall|k: int| 0 <= k < names@.len() ==> names@[k].wf(),
            found is None ==> forall|k: int| 0 <= k < i ==> names@[k].date != today,
            found matches Some(m) ==> names@.contains(m) && m.date == today && forall|k: int|
                0 <= k < i && names@[k].date == today ==> names@[k].seq <= m.seq,
        decreases names@.len() - i,
    {
        let cand = names[i];
        if cand.date == today {
            match found {
                None => {
                    found = Some(cand);
                },
                Some(f) => {
                    if cand.seq > f.seq {
                        found = Some(cand);
                    }
                },
            }
        }
        i = i + 1;
    }
    match found {
        Some(f) => (f, false),
        None => (LogName { date: today, seq: 0 }, true),
    }
}

/// Up to `limit` names, the most recent first: the result is exactly the
/// chronological top of `names`, in strictly descending order, and is all
/// of `names` when fewer than `limit` exist.
pub fn tail(names: &Vec<LogName>, limit: usize) -> (r: Vec<LogName>)
    requires
        limit >= 1,
        forall|i: int| 0 <= i < names@.len() ==> names@[i].wf(),
        forall|i: int, j: int|
            0 <= i < j < names@.len() ==> names@[i].key() != names@[j].key(),
    ensures
        r@.len() == if limit as int <= names@.len() {
            limit as int
        } else {
            names@.len() as int
        },
        forall|i: int, j: int| 0 <= i < j < r@.len() ==> r@[j].key() < r@[i].key(),
        forall|i: int| 0 <= i < r@.len() ==> names@.contains(r@[i]),
        forall|i: int|
            0 <= i < names@.len() ==> (r@.contains(names@[i]) || (r@.len() == limit
                && names@[i].key() < r@[r@.len() - 1].key())),
{
    let mut r: Vec<LogName> = Vec::new();
    let ghost nsq = names@;
    while r.len() < limit && r.len() < names.len()
        invariant
            limit >= 1,
            nsq == names@,
            r@.len() <= limit,
            r@.len() <= nsq.len(),
            forall|k: int| 0 <= k < nsq.len() ==> nsq[k].wf(),
            forall|i: int, j: int| 0 <= i < j < nsq.len() ==> nsq[i].key() != nsq[j].key(),
            forall|i: int, j: int| 0 <= i < j < r@.len() ==> r@[j].key() < r@[i].key(),
            forall|i: int| 0 <= i < r@.len() ==> nsq.contains(r@[i]),
            forall|i: int| 0 <= i < r@.len() ==> r@[i].wf(),
            r@.len() > 0 ==> forall|k: int|
                0 <= k < nsq.len() && nsq[k].key() > r@[r@.len() - 1].key() ==> r@.contains(
                    nsq[k],
                ),
        decreases limit - r@.len(),
    {
        let bound: Option<LogName> = if r.len() > 0 {
            Some(r[r.len() - 1])
        } else {
            None
        };
        let mut best: Option<LogName> = None;
        let mut j: usize = 0;
        while j < names.len()
            invariant
                0 <= j <= nsq.len(),
                nsq == names@,
                forall|k: int| 0 <= k < nsq.len() ==> nsq[k].wf(),
                bound matches Some(b) ==> b.wf(),
                best is None ==> forall|k: int|
                    0 <= k < j ==> !admissible(bound, nsq[k]),
                best matches Some(m) ==> nsq.contains(m) && m.wf() && admissible(bound, m)
                    && forall|k: int|
                    0 <= k < j && admissible(bound, nsq[k]) ==> nsq[k].key() <= m.key(),
            decreases nsq.len() - j,
        {
            let cand = names[j];
            let ok = match bound {
                None => true,
                Some(b) => cand.key_u64() < b.key_u64(),
            };
            if ok {
                match best {
                    None => {
                        best = Some(cand);
                    },
                    Some(m) => {
                        if cand.key_u64() > m.key_u64() {
                            best = Some(cand);
                        }
                    },
                }
            }
            j = j + 1;
        }
        proof {
            if best is None {
                lemma_all_picked(nsq, r@, bound);
            }
        }
        let b = best.unwrap();
        let ghost pre = r@;
        r.push(b);
        proof {
            assert(r@ =~= pre.push(b));
            assert forall|k: int|
                0 <= k < nsq.len() && nsq[k].key() > r@[r@.len() - 1].key() implies r@.contains(
                nsq[k],
            ) by {
                let x = nsq[k];
                if pre.len() == 0 {
                    assert(admissible(bound, x));
                    assert(false);
                } else {
                    let last = pre[pre.len() - 1];
                    if x.key() > last.key() {
                        assert(pre.contains(x));
                        let w = choose|w: int| 0 <= w < pre.len() && pre[w] == x;
                        assert(r@[w] == x);
                    } else if x.key() == last.key() {
                        lemma_same_key_same(nsq, x, last);
                        assert(pre.contains(x));
                        let w = choose|w: int| 0 <= w < pre.len() && pre[w] == x;
                        assert(r@[w] == x);
                    } else {
                        assert(admissible(bound, x));
                        assert(false);
                    }
                }
            }
            assert forall|i: int| 0 <= i < r@.len() implies nsq.contains(r@[i]) by {
                if i < pre.len() {
                    assert(r@[i] == pre[i]);
                }
            }
        }
    }
    proof {
        if r@.len() < limit {
            assert(r@.len() == nsq.len());
            assert forall|i: int| 0 <= i < nsq.len() implies r@.contains(nsq[i]) by {
                lemma_take_all(nsq, r@, nsq[i]);
            }
        } else {
            assert forall|i: int|
                0 <= i < nsq.len() && !r@.contains(nsq[i]) implies nsq[i].key() < r@[r@.len()
                - 1].key() by {
                let x = nsq[i];
                let last = r@[r@.len() - 1];
                assert(r@.contains(last));
                if x.key() > last.key() {
                    assert(r@.contains(x));
                } else if x.key() == last.key() {
                    lemma_same_key_same(nsq, x, last);
                }
            }
        }
    }
    r
}

/// Whether a name may still be picked, given the last one picked.
spec fn admissible(bound: Option<LogName>, x: LogName) -> bool {
    match bound {
        None => true,
        Some(b) => x.key() < b.key(),
    }
}

/// Two names of one listing with one key are one name: keys are distinct.
proof fn lemma_same_key_same(nsq: Seq<LogName>, x: LogName, y: LogName)
    requires
        forall|i: int, j: int| 0 <= i < j < nsq.len() ==> nsq[i].key() != nsq[j].key(),
        nsq.contains(x),
        nsq.contains(y),
        x.key() == y.key(),
    ensures
        x == y,
{
    let ix = choose|i: int| 0 <= i < nsq.len() && nsq[i] == x;
    let iy = choose|i: int| 0 <= i < nsq.len() && nsq[i] == y;
    if ix != iy {
        assert(nsq[ix].key() != nsq[iy].key());
    }
}

/// When nothing admissible is left, every listed name was already picked,
/// so the picked sequence is at least as long as the listing.
proof fn lemma_all_picked(nsq: Seq<LogName>, r: Seq<LogName>, bound: Option<LogName>)
    requires
        forall|i: int, j: int| 0 <= i < j < nsq.len() ==> nsq[i].key() != nsq[j].key(),
        forall|i: int, j: int| 0 <= i < j < r.len() ==> r[j].key() < r[i].key(),
        forall|i: int| 0 <= i < r.len() ==> nsq.contains(r[i]),
        r.len() > 0 ==> forall|k: int|
            0 <= k < nsq.len() && nsq[k].key() > r[r.len() - 1].key() ==> r.contains(nsq[k]),
        bound == if r.len() > 0 {
            Some(r[r.len() - 1])
        } else {
            None::<LogName>
        },
        forall|k: int| 0 <= k < nsq.len() ==> !admissible(bound, nsq[k]),
    ensures
        nsq.len() <= r.len(),
{
    if r.len() == 0 {
        if nsq.len() > 0 {
            assert(admissible(bound, nsq[0]));
            assert(false);
        }
    } else {
        let last = r[r.len() - 1];
        assert forall|k: int| 0 <= k < nsq.len() implies r.contains(nsq[k]) by {
            let x = nsq[k];
            assert(!admissible(bound, x));
            if x.key() > last.key() {
            } else if x.key() == last.key() {
                assert(r.contains(last));
                lemma_same_key_same(nsq, x, last);
                assert(r.contains(x));
            }
        }
        assert(nsq.no_duplicates()) by {
            assert forall|i: int, j: int|
                0 <= i < nsq.len() && 0 <= j < nsq.len() && i != j implies nsq[i] != nsq[j] by {
                if i < j {
                    assert(nsq[i].key() != nsq[j].key());
                } else {
                    assert(nsq[j].key() != nsq[i].key());
                }
            }
        }
        assert(r.no_duplicates()) by {
            assert forall|i: int, j: int|
                0 <= i < r.len() && 0 <= j < r.len() && i != j implies r[i] != r[j] by {
                if i < j {
                    assert(r[j].key() < r[i].key());
                } else {
                    assert(r[i].key() < r[j].key());
                }
            }
        }
        broadcast use vstd::seq_lib::seq_to_set_is_finite;

        nsq.unique_seq_to_set();
        r.unique_seq_to_set();
        assert(nsq.to_set().subset_of(r.to_set())) by {
            assert forall|x: LogName| nsq.to_set().contains(x) implies r.to_set().contains(x) by {
                assert(nsq.contains(x));
                let k = choose|k: int| 0 <= k < nsq.len() && nsq[k] == x;
                assert(r.contains(nsq[k]));
            }
        }
        lemma_len_subset(nsq.to_set(), r.to_set());
    }
}

/// When the picked sequence is as long as a distinct-keyed listing and all
/// picks come from it, every listed name was picked.
proof fn lemma_take_all(nsq: Seq<LogName>, r: Seq<LogName>, x: LogName)
    requires
        forall|i: int, j: int| 0 <= i < j < nsq.len() ==> nsq[i].key() != nsq[j].key(),
        forall|i: int, j: int| 0 <= i < j < r.len() ==> r[j].key() < r[i].key(),
        forall|i: int| 0 <= i < r.len() ==> nsq.contains(r[i]),
        r.len() == nsq.len(),
        nsq.contains(x),
    ensures
        r.contains(x),
{
    if !r.contains(x) {
        assert(nsq.no_duplicates()) by {
            assert forall|i: int, j: int|
                0 <= i < nsq.len() && 0 <= j < nsq.len() && i != j implies nsq[i] != nsq[j] by {
                if i < j {
                    assert(nsq[i].key() != nsq[j].key());
                } else {
                    assert(nsq[j].key() != nsq[i].key());
                }
            }
        }
        assert(r.no_duplicates()) by {
            assert forall|i: int, j: int|
                0 <= i < r.len() && 0 <= j < r.len() && i != j implies r[i] != r[j] by {
                if i < j {
                    assert(r[j].key() < r[i].key());
                } else {
                    assert(r[i].key() < r[j].key());
                }
            }
        }
        broadcast use vstd::seq_lib::seq_to_set_is_finite;

        nsq.unique_seq_to_set();
        r.unique_seq_to_set();
        assert(r.to_set().subset_of(nsq.to_set().remove(x))) by {
            assert forall|y: LogName| r.to_set().contains(y) implies nsq.to_set().remove(
                x,
            ).contains(y) by {
                assert(r.contains(y));
                let k = choose|k: int| 0 <= k < r.len() && r[k] == y;
                assert(nsq.contains(r[k]));
                assert(y != x);
            }
        }
        assert(nsq.to_set().contains(x));
        assert(nsq.to_set().remove(x).len() == nsq.to_set().len() - 1);
        lemma_len_subset(r.to_set(), nsq.to_set().remove(x));
        assert(false);
    }
}

} // verus!
