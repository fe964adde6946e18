//! Small types that several parts of the program use.
use crate::strings;
use vstd::prelude::*;

verus! {

/// A path that can be shown to the user.
#[derive(Debug, PartialEq, Eq)]
pub struct DisplayablePathBuf(pub String);

impl Clone for DisplayablePathBuf {
    fn clone(&self) -> (r: Self)
        ensures
            r == *self,
    {
        DisplayablePathBuf(self.0.clone())
    }
}

impl DisplayablePathBuf {
    /// Any text is a path.
    pub fn from_str(s: &str) -> (r: Self)
        ensures
            r.0@ == s@,
    {
        DisplayablePathBuf(String::from_str(s))
    }

    /// The path as it is shown.
    pub fn to_string(&self) -> (r: String)
        ensures
            r@ == self.0@,
    {
        self.0.clone()
    }
}

/// A size in characters.
#[derive(Debug, Clone, Copy, PartialEq, Eq, Structural)]
pub struct Rect {
    pub cols: usize,
    pub rows: usize,
}

/// Ignoring errors of a certain kind.
pub trait IoResultExt<K>: Sized {
    /// The error, if it is one.
    spec fn failure(&self) -> Option<K>;

    /// Turns an error of the given kind into a success.
    fn ignore(self, kind: K) -> (r: Self)
        ensures
            r.failure() == (if self.failure() == Some(kind) {
                None
            } else {
                self.failure()
            }),
    ;
}

/// What an error of input or output is about, as far as it matters here.
#[derive(Debug, Clone, Copy, PartialEq, Eq, Structural)]
pub enum IoErrorKind {
    NotFound,
    AlreadyExists,
    /// Something else, told apart by a number.
    Other(u32),
}

impl IoResultExt<IoErrorKind> for Result<(), IoErrorKind> {
    open spec fn failure(&self) -> Option<IoErrorKind> {
        match self {
            Ok(_) => None,
            Err(kind) => Some(*kind),
        }
    }

    fn ignore(self, kind: IoErrorKind) -> (r: Self) {
        match self {
            Err(e) => {
                if e == kind {
                    Ok(())
                } else {
                    Err(e)
                }
            },
            Ok(_) => Ok(()),
        }
    }
}

/// The error that counts after one more result.
pub open spec fn first_error<E>(first: Option<E>, result: Result<(), E>) -> Option<E> {
    match (first, result) {
        (Some(e), _) => Some(e),
        (None, Err(e)) => Some(e),
        (None, Ok(_)) => None,
    }
}

/// Keeps track of a group of tasks of which the first error counts.
#[derive(Debug)]
pub struct ErrGroup<E> {
    first: Option<E>,
}

impl<E> ErrGroup<E> {
    /// The error that counts.
    pub closed spec fn error(&self) -> Option<E> {
        self.first
    }

    pub fn new() -> (r: Self)
        ensures
            r.error() is None,
    {
        ErrGroup { first: None }
    }

    /// Takes note of the end of a task. Says whether the other tasks are to be
    /// canceled.
    pub fn finished(&mut self, result: Result<(), E>) -> (r: bool)
        ensures
            r == (result is Err),
            final(self).error() == first_error(old(self).error(), result),
    {
        match result {
            Ok(_) => false,
            Err(e) => {
                if self.first.is_none() {
                    self.first = Some(e);
                }
                true
            },
        }
    }

    /// The result of the group, when all tasks have ended.
    pub fn wait(self) -> (r: Result<(), E>)
        ensures
            match r {
                Ok(_) => self.error() is None,
                Err(e) => self.error() == Some(e),
            },
    {
        match self.first {
            Some(e) => Err(e),
            None => Ok(()),
        }
    }
}

/// A size in bytes, with saturating operations. Unsigned.
#[derive(Debug, Clone, Copy, PartialEq, Eq, PartialOrd, Ord)]
pub struct ByteSize(usize);

/// The greatest machine word that does not exceed `n`.
pub open spec fn saturated(n: int) -> usize {
    if n > usize::MAX {
        usize::MAX
    } else if n < 0 {
        0
    } else {
        n as usize
    }
}

/// Why a text is not a size.
#[derive(Debug, Clone, Copy, PartialEq, Eq, Structural)]
pub enum SizeError {
    /// There is no number.
    Empty,
    /// There is something that is not a digit.
    InvalidDigit,
    /// The number is too large for a machine word.
    TooLarge,
}

impl SizeError {
    /// What is wrong.
    pub open spec fn reason(&self) -> Seq<char> {
        match self {
            SizeError::Empty => "cannot parse integer from empty string"@,
            SizeError::InvalidDigit => "invalid digit found in string"@,
            SizeError::TooLarge => "number too large to fit in target type"@,
        }
    }

    /// The message for this error, about the given text.
    pub fn describe(&self, input: &str) -> (r: String)
        ensures
            r@ == "invalid size format "@ + strings::debug_text(input@) + ": "@ + self.reason(),
    {
        let mut out: String = String::from_str("invalid size format ");
        out.append(strings::debug_string(input).as_str());
        out.append(": ");
        out.append(
            match self {
                SizeError::Empty => "cannot parse integer from empty string",
                SizeError::InvalidDigit => "invalid digit found in string",
                SizeError::TooLarge => "number too large to fit in target type",
            },
        );
        out
    }
}

/// What a suffix multiplies a number by; 1 for what is not a suffix.
pub open spec fn multiplier(c: char) -> int {
    if c == 'k' || c == 'K' {
        1024
    } else if c == 'm' || c == 'M' {
        1048576
    } else if c == 'g' || c == 'G' {
        1073741824
    } else {
        1
    }
}

/// What the suffix of a text multiplies by.
pub open spec fn size_factor(s: Seq<char>) -> int {
    if s.len() > 0 {
        multiplier(s.last())
    } else {
        1
    }
}

/// A text without its suffix.
pub open spec fn number_part(s: Seq<char>) -> Seq<char> {
    if size_factor(s) > 1 {
        s.drop_last()
    } else {
        s
    }
}

/// The digits of a number: a plus sign may stand before them.
pub open spec fn digits_of(s: Seq<char>) -> Seq<char> {
    if s.len() > 1 && s[0] == '+' {
        s.skip(1)
    } else {
        s
    }
}

/// A digit.
pub open spec fn is_digit(c: char) -> bool {
    '0' <= c <= '9'
}

/// How many digits a text starts with.
pub open spec fn leading_digits(s: Seq<char>) -> nat
    decreases s.len(),
{
    if s.len() > 0 && is_digit(s[0]) {
        1 + leading_digits(s.skip(1))
    } else {
        0
    }
}

/// The number that digits stand for.
pub open spec fn number_of(s: Seq<char>) -> int
    decreases s.len(),
{
    if s.len() == 0 {
        0
    } else {
        number_of(s.drop_last()) * 10 + (s.last() as int - 48)
    }
}

/// The size that a text stands for: a number of bytes, or of the units that
/// the suffixes K, M and G stand for.
pub open spec fn parsed_size(s: Seq<char>) -> Result<usize, SizeError> {
    let digits = digits_of(number_part(s));
    let lead = leading_digits(digits) as int;
    if number_part(s).len() == 0 {
        Err(SizeError::Empty)
    } else if number_of(digits.take(lead)) > usize::MAX {
        Err(SizeError::TooLarge)
    } else if lead < digits.len() {
        Err(SizeError::InvalidDigit)
    } else {
        Ok(saturated(number_of(digits) * size_factor(s)))
    }
}

proof fn lemma_leading_digits(s: Seq<char>)
    ensures
        leading_digits(s) <= s.len(),
        forall|i: int| 0 <= i < leading_digits(s) ==> is_digit(#[trigger] s[i]),
        leading_digits(s) < s.len() ==> !is_digit(s[leading_digits(s) as int]),
    decreases s.len(),
{
    if s.len() > 0 && is_digit(s[0]) {
        let t = s.skip(1);
        lemma_leading_digits(t);
        assert forall|i: int| 0 <= i < leading_digits(s) implies is_digit(#[trigger] s[i]) by {
            if i > 0 {
                assert(t[i - 1] == s[i]);
            }
        }
        if leading_digits(s) < s.len() {
            assert(t[leading_digits(t) as int] == s[leading_digits(s) as int]);
        }
    }
}

/// More digits make no smaller number.
proof fn lemma_number_grows(s: Seq<char>, m: int, n: int)
    requires
        0 <= m <= n <= s.len(),
        forall|i: int| 0 <= i < n ==> is_digit(#[trigger] s[i]),
    ensures
        0 <= number_of(s.take(m)) <= number_of(s.take(n)),
    decreases n,
{
    if n > 0 {
        assert(s.take(n).drop_last() =~= s.take(n - 1));
        assert(is_digit(s[n - 1]));
        lemma_number_grows(s, 0, n - 1);
        if m < n {
            lemma_number_grows(s, m, n - 1);
        }
    }
    assert(s.take(0) =~= Seq::empty());
}

fn factor(c: char) -> (r: usize)
    ensures
        r == multiplier(c),
{
    if c == 'k' || c == 'K' {
        1024
    } else if c == 'm' || c == 'M' {
        1024 * 1024
    } else if c == 'g' || c == 'G' {
        1024 * 1024 * 1024
    } else {
        1
    }
}

/// The product of two sizes, as far as it fits.
fn times(a: usize, b: usize) -> (r: usize)
    ensures
        r == saturated(a * b),
{
    assert(a * b >= 0) by (nonlinear_arith)
        requires
            a >= 0,
            b >= 0,
    ;
    match a.checked_mul(b) {
        Some(n) => n,
        None => usize::MAX,
    }
}

/// Reads a number.
fn read_number(chars: &Vec<char>, from: usize, to: usize) -> (r: Result<usize, SizeError>)
    requires
        from < to <= chars@.len(),
    ensures
        ({
            let digits = chars@.subrange(from as int, to as int);
            let lead = leading_digits(digits) as int;
            match r {
                Ok(n) => lead == digits.len() && n == number_of(digits),
                Err(SizeError::InvalidDigit) => lead < digits.len() && number_of(digits.take(lead))
                    <= usize::MAX,
                Err(SizeError::TooLarge) => number_of(digits.take(lead)) > usize::MAX,
                Err(SizeError::Empty) => false,
            }
        }),
{
    let ghost digits = chars@.subrange(from as int, to as int);
    let ghost lead = leading_digits(digits) as int;
    proof {
        lemma_leading_digits(digits);
    }
    let mut n: usize = 0;
    let mut i: usize = from;
    assert(digits.take(0) =~= Seq::empty());
    while i < to
        invariant
            from <= i <= to <= chars@.len(),
            digits == chars@.subrange(from as int, to as int),
            lead == leading_digits(digits),
            i - from <= lead <= digits.len(),
            forall|k: int| 0 <= k < lead ==> is_digit(#[trigger] digits[k]),
            lead < digits.len() ==> !is_digit(digits[lead]),
            n == number_of(digits.take(i - from)),
        decreases to - i,
    {
        let c: char = chars[i];
        assert(digits[i - from] == c);
        if c < '0' || c > '9' {
            return Err(SizeError::InvalidDigit);
        }
        let d: usize = (c as u32 - 48) as usize;
        proof {
            assert(i - from < lead);
            assert(digits.take(i + 1 - from).drop_last() =~= digits.take(i - from));
            assert(number_of(digits.take(i + 1 - from)) == n * 10 + d);
            lemma_number_grows(digits, i + 1 - from, lead);
        }
        n =
        match n.checked_mul(10) {
            Some(ten) => match ten.checked_add(d) {
                Some(n) => n,
                None => {
                    return Err(SizeError::TooLarge);
                },
            },
            None => {
                return Err(SizeError::TooLarge);
            },
        };
        i += 1;
    }
    assert(digits.take(i - from) =~= digits);
    Ok(n)
}

impl ByteSize {
    /// The number of bytes.
    pub closed spec fn bytes(&self) -> usize {
        self.0
    }

    /// Reads a size: a number of bytes, or one with a suffix K, M or G.
    pub fn from_str(input: &str) -> (r: Result<Self, SizeError>)
        ensures
            match r {
                Ok(size) => parsed_size(input@) == Ok::<usize, SizeError>(size.bytes()),
                Err(e) => parsed_size(input@) == Err::<usize, SizeError>(e),
            },
    {
        let chars = strings::chars_of(input);
        let mut to: usize = chars.len();
        let mut unit: usize = 1;
        if to > 0 {
            unit = factor(chars[to - 1]);
            if unit > 1 {
                to -= 1;
            }
        }
        assert(chars@.subrange(0, to as int) =~= number_part(input@));
        if to == 0 {
            return Err(SizeError::Empty);
        }
        let from: usize = if to > 1 && chars[0] == '+' {
            1
        } else {
            0
        };
        assert(chars@.subrange(from as int, to as int) =~= digits_of(number_part(input@)));
        proof {
            let digits = digits_of(number_part(input@));
            assert(digits.take(digits.len() as int) =~= digits);
        }
        match read_number(&chars, from, to) {
            Ok(n) => Ok(ByteSize(times(n, unit))),
            Err(e) => Err(e),
        }
    }

    pub fn from_mib(mib: usize) -> (r: Self)
        ensures
            r.bytes() == saturated(mib * (1024 * 1024)),
    {
        ByteSize(times(mib, 1024 * 1024))
    }

    pub fn from_bytes(b: usize) -> (r: Self)
        ensures
            r.bytes() == b,
    {
        ByteSize(b)
    }

    pub fn to_bytes(self) -> (r: usize)
        ensures
            r == self.bytes(),
    {
        self.0
    }

    /// The sum of two sizes.
    pub fn plus(self, rhs: ByteSize) -> (r: ByteSize)
        ensures
            r.bytes() == saturated(self.bytes() + rhs.bytes()),
    {
        ByteSize(self.0.saturating_add(rhs.0))
    }

    /// What is left of a size.
    pub fn minus(self, rhs: ByteSize) -> (r: ByteSize)
        ensures
            r.bytes() == saturated(self.bytes() - rhs.bytes()),
    {
        ByteSize(self.0.saturating_sub(rhs.0))
    }

    /// The sum of some sizes.
    pub fn sum(sizes: &Vec<ByteSize>) -> (r: ByteSize)
        ensures
            r.bytes() == saturated(total(sizes@)),
    {
        let mut sum: ByteSize = ByteSize::from_bytes(0);
        let mut i: usize = 0;
        assert(sizes@.take(0) =~= Seq::empty());
        while i < sizes.len()
            invariant
                i <= sizes@.len(),
                total(sizes@.take(i as int)) >= 0,
                sum.bytes() == saturated(total(sizes@.take(i as int))),
            decreases sizes@.len() - i,
        {
            assert(sizes@.take(i + 1).drop_last() =~= sizes@.take(i as int));
            sum = sum.plus(sizes[i]);
            i += 1;
        }
        assert(sizes@.take(i as int) =~= sizes@);
        sum
    }
}

/// The sum of some sizes, without a limit.
pub open spec fn total(sizes: Seq<ByteSize>) -> int
    decreases sizes.len(),
{
    if sizes.len() == 0 {
        0
    } else {
        total(sizes.drop_last()) + sizes.last().bytes()
    }
}

/// The number that the decimal notation of a number stands for is that number.
pub proof fn lemma_decimal_is_read(n: int)
    requires
        n >= 0,
    ensures
        number_of(strings::decimal(n)) == n,
    decreases n,
{
    reveal_with_fuel(number_of, 2);
    if n >= 10 {
        lemma_decimal_is_read(n / 10);
        let front = strings::decimal_digits(n / 10);
        assert(strings::decimal(n / 10) == front);
        assert(strings::decimal(n).drop_last() =~= front);
    } else {
        assert(strings::decimal(n).drop_last() =~= Seq::empty());
    }
}

/// A text of digits starts with all of them.
proof fn lemma_all_digits(s: Seq<char>)
    requires
        forall|i: int| 0 <= i < s.len() ==> is_digit(#[trigger] s[i]),
    ensures
        leading_digits(s) == s.len(),
    decreases s.len(),
{
    if s.len() > 0 {
        let rest = s.skip(1);
        assert forall|i: int| 0 <= i < rest.len() implies is_digit(#[trigger] rest[i]) by {
            assert(rest[i] == s[i + 1]);
        }
        lemma_all_digits(rest);
    }
}

/// A number of bytes is read as it is written: a plus sign changes nothing, and
/// a number that does not fit is refused.
#[verifier::spinoff_prover]
pub proof fn lemma_size_in_bytes(n: int)
    requires
        n >= 0,
    ensures
        n <= usize::MAX ==> parsed_size(strings::decimal(n)) == Ok::<usize, SizeError>(n as usize),
        n <= usize::MAX ==> parsed_size(seq!['+'] + strings::decimal(n)) == Ok::<
            usize,
            SizeError,
        >(n as usize),
        n > usize::MAX ==> parsed_size(strings::decimal(n)) == Err::<usize, SizeError>(
            SizeError::TooLarge,
        ),
{
    let s = strings::decimal(n);
    strings::lemma_decimal_digits(n);
    lemma_decimal_is_read(n);
    assert forall|i: int| 0 <= i < s.len() implies is_digit(#[trigger] s[i]) by {}
    lemma_all_digits(s);
    assert(s.last() == s[s.len() - 1]);
    assert(number_part(s) == s);
    assert(digits_of(s) == s) by {
        assert(is_digit(s[0]));
    }
    assert(s.take(s.len() as int) =~= s);
    let t = seq!['+'] + s;
    assert(t.last() == s.last());
    assert(number_part(t) == t);
    assert(t.skip(1) =~= s);
}

/// The suffixes K, M and G, in either case, stand for the powers of 1024; a
/// size that does not fit is cut to the largest that does.
pub proof fn lemma_size_with_suffix(n: int, suffix: char)
    requires
        0 <= n <= usize::MAX,
    ensures
        ({
            let unit: int = if suffix == 'k' || suffix == 'K' {
                1024
            } else if suffix == 'm' || suffix == 'M' {
                1024int * 1024
            } else {
                1024int * 1024 * 1024
            };
            let read = parsed_size(strings::decimal(n).push(suffix));
            &&& suffix == 'k' || suffix == 'K' || suffix == 'm' || suffix == 'M' || suffix == 'g'
                || suffix == 'G' ==> {
                &&& read is Ok
                &&& n * unit <= usize::MAX ==> read->Ok_0 == n * unit
                &&& n * unit > usize::MAX ==> read->Ok_0 == usize::MAX
            }
        }),
{
    let s = strings::decimal(n);
    let t = s.push(suffix);
    strings::lemma_decimal_digits(n);
    lemma_decimal_is_read(n);
    assert forall|i: int| 0 <= i < s.len() implies is_digit(#[trigger] s[i]) by {}
    lemma_all_digits(s);
    assert(t.drop_last() =~= s);
    assert(digits_of(s) == s) by {
        assert(is_digit(s[0]));
    }
    assert(s.take(s.len() as int) =~= s);
    let f = multiplier(suffix);
    assert(n * f >= 0) by (nonlinear_arith)
        requires
            n >= 0,
            f >= 1,
    ;
}

/// What is read as a size consists of digits, with at most a plus sign before
/// them and a suffix after them; the empty text and a suffix alone are refused
/// as empty.
pub proof fn lemma_what_is_a_size(s: Seq<char>, i: int)
    requires
        parsed_size(s) is Ok,
        0 <= i < s.len(),
        !('0' <= s[i] <= '9'),
    ensures
        i == 0 && s[i] == '+' || i == s.len() - 1 && (s[i] == 'k' || s[i] == 'K' || s[i] == 'm'
            || s[i] == 'M' || s[i] == 'g' || s[i] == 'G'),
        s.len() > 1,
{
    let part = number_part(s);
    let digits = digits_of(part);
    lemma_leading_digits(digits);
    let k = part.len() - digits.len();
    if i < part.len() && i >= k {
        assert(digits[i - k] == s[i]);
    }
    assert(part.len() > 0);
    if s.len() == 1 {
        assert(part == s);
    }
}

/// A text with no number in it is refused as empty.
pub proof fn lemma_empty_size(suffix: char)
    ensures
        parsed_size(Seq::empty()) == Err::<usize, SizeError>(SizeError::Empty),
        multiplier(suffix) > 1 ==> parsed_size(seq![suffix]) == Err::<usize, SizeError>(
            SizeError::Empty,
        ),
{
    assert(seq![suffix].drop_last() =~= Seq::<char>::empty());
}

/// A sum does not depend on how the sizes are grouped.
pub proof fn lemma_total(a: Seq<ByteSize>, b: Seq<ByteSize>, size: ByteSize)
    ensures
        total(a + b) == total(a) + total(b),
        total(seq![size]) == size.bytes(),
        total(a) >= 0,
    decreases b.len(), a.len(),
{
    reveal_with_fuel(total, 2);
    assert(seq![size].drop_last() =~= Seq::empty());
    if b.len() == 0 {
        assert(a + b =~= a);
        if a.len() > 0 {
            lemma_total(a.drop_last(), b, size);
        }
    } else {
        assert((a + b).drop_last() =~= a + b.drop_last());
        lemma_total(a, b.drop_last(), size);
    }
}

/// A character that is no digit, with more text after it, makes a number
/// invalid.
pub proof fn lemma_invalid_size(n: int, c: char, rest: Seq<char>)
    requires
        0 <= n <= usize::MAX,
        !('0' <= c <= '9'),
        rest.len() > 1,
    ensures
        parsed_size(strings::decimal(n).push(c) + rest) == Err::<usize, SizeError>(
            SizeError::InvalidDigit,
        ),
{
    let d = strings::decimal(n);
    let s = d.push(c) + rest;
    strings::lemma_decimal_digits(n);
    lemma_decimal_is_read(n);
    let part = number_part(s);
    assert(part[0] == d[0]);
    assert(digits_of(part) == part);
    lemma_leading_digits(part);
    let lead = leading_digits(part) as int;
    assert(part[d.len() as int] == c);
    if lead < d.len() {
        assert(part[lead] == d[lead]);
    }
    assert(lead == d.len());
    assert(part.take(lead) =~= d);
}

/// Of several errors the first one counts, whatever comes after it; and there is
/// one only if a task has failed.
pub proof fn lemma_first_error<E>(a: Result<(), E>, b: Result<(), E>)
    ensures
        a matches Err(e) ==> first_error(first_error(None, a), b) == Some(e),
        a is Ok ==> (b matches Err(e) ==> first_error(first_error(None, a), b) == Some(e)),
        a is Ok && b is Ok ==> first_error(first_error(None, a), b) is None,
{
}

/// What fits stays as it is; what does not is cut to the nearest size that does.
pub proof fn lemma_saturated(n: int)
    ensures
        0 <= n <= usize::MAX ==> saturated(n) == n,
        n < 0 ==> saturated(n) == 0,
        n > usize::MAX ==> saturated(n) == usize::MAX,
{
}

} // verus!
