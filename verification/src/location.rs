//! Structures that locate things inside a source code. They are used to build error
//! messages.

use vstd::prelude::*;
use vstd::string::*;

verus! {

/// A byte offset inside a source file.
#[derive(Debug, Clone, Copy, PartialEq, Eq, Structural, PartialOrd, Ord, Default)]
pub struct Byte(pub usize);

/// The identifier of a file.
#[derive(Clone, Default, Copy, Hash, PartialEq, Eq, Structural, PartialOrd, Ord, Debug)]
pub struct FileId(pub usize);

/// A span that locates a piece of data inside a source code.
#[derive(Clone, Copy, Debug, PartialEq, Eq, Structural, Default)]
pub struct Span {
    pub file: FileId,
    pub start: Byte,
    pub end: Byte,
}

/// The smaller of two offsets.
pub open spec fn min_offset(a: usize, b: usize) -> usize {
    if a <= b { a } else { b }
}

/// The larger of two offsets.
pub open spec fn max_offset(a: usize, b: usize) -> usize {
    if a >= b { a } else { b }
}

/// The character of the decimal digit `d`.
pub open spec fn digit_char(d: nat) -> char {
    (d + 48) as char
}

/// The decimal digits of `n`, most significant first, with no leading zero.
pub open spec fn decimal(n: nat) -> Seq<char>
    decreases n,
{
    if n < 10 {
        seq![digit_char(n)]
    } else {
        decimal(n / 10) + seq![digit_char(n % 10)]
    }
}

/// Whether `c` is one of the decimal digits `0` to `9`.
pub open spec fn is_digit(c: char) -> bool {
    48 <= c as int && c as int <= 57
}

/// The number that a string of decimal digits stands for, read most significant first.
pub open spec fn digits_value(s: Seq<char>) -> int
    decreases s.len(),
{
    if s.len() == 0 {
        0
    } else {
        digits_value(s.drop_last()) * 10 + (s.last() as int - 48)
    }
}

/// The text of a number is a non-empty string of decimal digits, with no leading zero
/// unless the number is zero, that reads back as the number.
pub proof fn lemma_decimal_reads_back(n: nat)
    ensures
        decimal(n).len() >= 1,
        forall|i: int| 0 <= i < decimal(n).len() ==> is_digit(#[trigger] decimal(n)[i]),
        n > 0 ==> decimal(n)[0] != '0',
        digits_value(decimal(n)) == n,
    decreases n,
{
    if n < 10 {
        let c = digit_char(n);
        assert(c as int == n + 48);
        assert(decimal(n) == seq![c]);
        assert(seq![c].drop_last() =~= Seq::<char>::empty());
        assert(digits_value(Seq::<char>::empty()) == 0);
        assert(digits_value(seq![c]) == digits_value(seq![c].drop_last()) * 10 + (c as int - 48));
        if n > 0 {
            assert(c != '0');
        }
    } else {
        let q = n / 10;
        let r = n % 10;
        lemma_decimal_reads_back(q);
        let c = digit_char(r);
        assert(c as int == r + 48);
        let d = decimal(n);
        assert(d == decimal(q) + seq![c]);
        assert(d.drop_last() =~= decimal(q));
        assert(d.last() == c);
        assert(digits_value(d) == digits_value(decimal(q)) * 10 + (c as int - 48));
        assert(forall|i: int| 0 <= i < d.len() ==> is_digit(#[trigger] d[i])) by {
            assert forall|i: int| 0 <= i < d.len() implies is_digit(#[trigger] d[i]) by {
                if i < decimal(q).len() {
                    assert(d[i] == decimal(q)[i]);
                }
            }
        }
        assert(q > 0);
        assert(d[0] == decimal(q)[0]);
        assert(q * 10 + r == n) by (nonlinear_arith)
            requires
                q == n / 10,
                r == n % 10,
        ;
    }
}

/// The text of a span, split at its `~`, reads back as the start and the end: the `~`
/// is its only character that is not a digit.
pub proof fn lemma_span_text_reads_back(start: nat, end: nat)
    ensures
        ({
            let t = decimal(start) + seq!['~'] + decimal(end);
            let i = decimal(start).len() as int;
            &&& 0 < i < t.len() - 1
            &&& t[i] == '~'
            &&& forall|j: int| 0 <= j < t.len() && j != i ==> is_digit(#[trigger] t[j])
            &&& digits_value(t.subrange(0, i)) == start
            &&& digits_value(t.subrange(i + 1, t.len() as int)) == end
        }),
{
    lemma_decimal_reads_back(start);
    lemma_decimal_reads_back(end);
    let a = decimal(start);
    let b = decimal(end);
    let t = a + seq!['~'] + b;
    let i = a.len() as int;
    assert(t.subrange(0, i) =~= a);
    assert(t.subrange(i + 1, t.len() as int) =~= b);
    assert forall|j: int| 0 <= j < t.len() && j != i implies is_digit(#[trigger] t[j]) by {
        if j < i {
            assert(t[j] == a[j]);
        } else {
            assert(t[j] == b[j - i - 1]);
        }
    }
}

/// The text of the decimal digit `d`.
fn digit_text(d: usize) -> (s: &'static str)
    requires
        d < 10,
    ensures
        s@ == seq![digit_char(d as nat)],
{
    proof {
        reveal_strlit("0");
        reveal_strlit("1");
        reveal_strlit("2");
        reveal_strlit("3");
        reveal_strlit("4");
        reveal_strlit("5");
        reveal_strlit("6");
        reveal_strlit("7");
        reveal_strlit("8");
        reveal_strlit("9");
    }
    if d == 0 {
        "0"
    } else if d == 1 {
        "1"
    } else if d == 2 {
        "2"
    } else if d == 3 {
        "3"
    } else if d == 4 {
        "4"
    } else if d == 5 {
        "5"
    } else if d == 6 {
        "6"
    } else if d == 7 {
        "7"
    } else if d == 8 {
        "8"
    } else {
        "9"
    }
}

/// `n` written in decimal.
pub(crate) fn decimal_text(n: usize) -> (s: String)
    ensures
        s@ == decimal(n as nat),
    decreases n,
{
    if n < 10 {
        String::from_str(digit_text(n))
    } else {
        let mut s = decimal_text(n / 10);
        s.append(digit_text(n % 10));
        s
    }
}

impl Span {
    /// The span that points nowhere: file 0, from byte 0 to byte 0.
    pub open spec fn ghost_spec() -> Span {
        Span { file: FileId(0), start: Byte(0), end: Byte(0) }
    }

    /// A span that points nowhere: file 0, from byte 0 to byte 0.
    pub fn ghost() -> (s: Span)
        ensures
            s == Span::ghost_spec(),
    {
        Span { file: FileId(0), start: Byte(0), end: Byte(0) }
    }

    /// The span as the compiler shows it: its start and end offsets, `start~end`.
    pub fn text(&self) -> (s: String)
        ensures
            s@ == decimal(self.start.0 as nat) + seq!['~'] + decimal(self.end.0 as nat),
            exists|i: int|
                0 < i < s@.len() - 1 && s@[i] == '~' && digits_value(s@.subrange(0, i))
                    == self.start.0 && digits_value(s@.subrange(i + 1, s@.len() as int))
                    == self.end.0 && forall|j: int|
                    0 <= j < s@.len() && j != i ==> is_digit(#[trigger] s@[j]),
    {
        proof {
            reveal_strlit("~");
            lemma_span_text_reads_back(self.start.0 as nat, self.end.0 as nat);
        }
        let mut s = decimal_text(self.start.0);
        s.append("~");
        let e = decimal_text(self.end.0);
        s.append(e.as_str());
        s
    }

    pub fn new(file: FileId, start: Byte, end: Byte) -> (s: Span)
        ensures
            s.file == file,
            s.start == start,
            s.end == end,
    {
        Span { file, start, end }
    }

    pub fn from_usize(file: FileId, start: usize, end: usize) -> (s: Span)
        ensures
            s.file == file,
            s.start.0 == start,
            s.end.0 == end,
    {
        Span { file, start: Byte(start), end: Byte(end) }
    }

    /// The smallest span that covers both spans. The file is the one of `self`.
    pub fn mix(self, other: Span) -> (s: Span)
        ensures
            s.file == self.file,
            s.start.0 == min_offset(self.start.0, other.start.0),
            s.end.0 == max_offset(self.end.0, other.end.0),
    {
        let start = if self.start.0 <= other.start.0 { self.start } else { other.start };
        let end = if self.end.0 >= other.end.0 { self.end } else { other.end };
        Span { file: self.file, start, end }
    }
}

/// A piece of data together with the span where it was found.
#[derive(Clone, Debug, PartialEq, Eq)]
pub struct Spanned<T> {
    pub data: T,
    pub span: Span,
}

impl<T> Spanned<T> {
    pub fn new(data: T, range: Span) -> (s: Spanned<T>)
        ensures
            s.data == data,
            s.span == range,
    {
        Spanned { data, span: range }
    }

    /// Transforms the data with `f`, keeping the span.
    pub fn map<U, F: FnOnce(&T) -> U>(&self, f: F) -> (s: Spanned<U>)
        requires
            f.requires((&self.data,)),
        ensures
            f.ensures((&self.data,), s.data),
            s.span == self.span,
    {
        Spanned { data: f(&self.data), span: self.span }
    }

    /// Replaces the data, keeping the span.
    pub fn with<U>(self, data: U) -> (s: Spanned<U>)
        ensures
            s.data == data,
            s.span == self.span,
    {
        Spanned { data, span: self.span }
    }
}

/// Mixing is commutative on the covered range: the start and the end do not depend on
/// the order of the two spans.
pub proof fn lemma_mix_covers_both(a: Span, b: Span)
    ensures
        min_offset(a.start.0, b.start.0) == min_offset(b.start.0, a.start.0),
        max_offset(a.end.0, b.end.0) == max_offset(b.end.0, a.end.0),
        min_offset(a.start.0, b.start.0) <= a.start.0,
        min_offset(a.start.0, b.start.0) <= b.start.0,
        max_offset(a.end.0, b.end.0) >= a.end.0,
        max_offset(a.end.0, b.end.0) >= b.end.0,
{
}

} // verus!
