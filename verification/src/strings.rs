//! Text: the small operations on strings that the rest of the library is
//! written with, each stated over the sequence of characters that a string
//! holds.
use vstd::prelude::*;

verus! {

/// `String::push`: appends the character to the end.
pub assume_specification[ String::push ](s: &mut String, c: char)
    ensures
        final(s)@ == old(s)@.push(c),
;

/// The characters of a string.
pub fn chars_of(s: &str) -> (r: Vec<char>)
    ensures
        r@ == s@,
{
    let mut out: Vec<char> = Vec::new();
    for c in it: s.chars()
        invariant
            it.seq() == s@,
            out@ =~= s@.take(it.index() as int),
    {
        out.push(c);
    }
    assert(s@.take(s@.len() as int) =~= s@);
    out
}

/// The string made of the characters from `from` up to `to`.
pub fn string_of(chars: &Vec<char>, from: usize, to: usize) -> (r: String)
    requires
        from <= to <= chars@.len(),
    ensures
        r@ == chars@.subrange(from as int, to as int),
{
    let mut out: String = String::new();
    let mut i: usize = from;
    while i < to
        invariant
            from <= i <= to <= chars@.len(),
            out@ =~= chars@.subrange(from as int, i as int),
        decreases to - i,
    {
        out.push(chars[i]);
        i += 1;
    }
    out
}

/// Whether a string holds exactly the given text.
pub fn is_text(s: &String, text: &str) -> (r: bool)
    ensures
        r == (s@ == text@),
{
    *s == String::from_str(text)
}

/// The strings' characters.
pub open spec fn texts(v: Seq<String>) -> Seq<Seq<char>> {
    Seq::new(v.len(), |i: int| v[i]@)
}

/// A vector of the same strings.
pub fn copy_texts(v: &Vec<String>) -> (r: Vec<String>)
    ensures
        r@ == v@,
{
    let mut out: Vec<String> = Vec::new();
    let mut i: usize = 0;
    while i < v.len()
        invariant
            i <= v@.len(),
            out@ =~= v@.take(i as int),
        decreases v@.len() - i,
    {
        out.push(v[i].clone());
        i += 1;
    }
    assert(v@.take(i as int) =~= v@);
    out
}

/// The digit that stands for `d`.
pub open spec fn digit(d: int) -> char {
    (48 + d) as char
}

/// A number in decimal notation, without leading zeros.
pub open spec fn decimal(n: int) -> Seq<char> {
    if n < 0 {
        seq!['-'] + decimal_digits(-n)
    } else {
        decimal_digits(n)
    }
}

/// The digits of a number that is not negative.
pub open spec fn decimal_digits(n: int) -> Seq<char>
    decreases n,
{
    if n < 10 {
        seq![digit(n)]
    } else {
        decimal_digits(n / 10).push(digit(n % 10))
    }
}

fn digit_char(d: u64) -> (r: char)
    requires
        d < 10,
    ensures
        r == digit(d as int),
{
    (48u8 + d as u8) as char
}

/// Appends the digits of a number.
fn push_digits(out: &mut String, n: u64)
    ensures
        final(out)@ == old(out)@ + decimal_digits(n as int),
    decreases n,
{
    if n >= 10 {
        push_digits(out, n / 10);
    }
    out.push(digit_char(n % 10));
    assert(out@ =~= old(out)@ + decimal_digits(n as int));
}

/// A number in decimal notation.
pub fn decimal_text(n: u64) -> (r: String)
    ensures
        r@ == decimal(n as int),
{
    let mut out: String = String::new();
    push_digits(&mut out, n);
    assert(out@ =~= decimal(n as int));
    out
}

/// A signed number in decimal notation.
pub fn signed_decimal_text(n: i32) -> (r: String)
    ensures
        r@ == decimal(n as int),
{
    if n < 0 {
        let mut out: String = String::new();
        out.push('-');
        push_digits(&mut out, (-(n as i64)) as u64);
        assert(out@ =~= decimal(n as int));
        out
    } else {
        decimal_text(n as u64)
    }
}

proof fn lemma_digits_nonempty(n: int)
    requires
        n >= 0,
    ensures
        decimal_digits(n).len() > 0,
{
}

/// Different numbers have different notations.
pub proof fn lemma_decimal_injective(a: int, b: int)
    requires
        0 <= a,
        0 <= b,
        decimal(a) == decimal(b),
    ensures
        a == b,
    decreases a,
{
    let x = decimal_digits(a);
    let y = decimal_digits(b);
    assert(x.last() == digit(a % 10)) by {
        if a < 10 {
            assert(a % 10 == a);
        }
    }
    assert(y.last() == digit(b % 10)) by {
        if b < 10 {
            assert(b % 10 == b);
        }
    }
    assert(a % 10 == b % 10);
    if a < 10 && b >= 10 {
        lemma_digits_nonempty(b / 10);
        assert(y.len() > 1);
    } else if a >= 10 && b < 10 {
        lemma_digits_nonempty(a / 10);
        assert(x.len() > 1);
    } else if a >= 10 {
        assert(x.drop_last() =~= decimal_digits(a / 10));
        assert(y.drop_last() =~= decimal_digits(b / 10));
        lemma_decimal_injective(a / 10, b / 10);
    }
}

/// The pieces of `s` between occurrences of `sep`; one more than there are
/// occurrences.
pub open spec fn pieces(s: Seq<char>, sep: char) -> Seq<Seq<char>>
    decreases s.len(),
{
    if s.len() == 0 {
        seq![Seq::empty()]
    } else {
        let before = pieces(s.drop_last(), sep);
        if s.last() == sep {
            before.push(Seq::empty())
        } else {
            before.drop_last().push(before.last().push(s.last()))
        }
    }
}

/// Of a text that begins with the separator the first piece is empty.
pub proof fn lemma_leading_separator(s: Seq<char>, sep: char)
    requires
        s.len() > 0,
        s[0] == sep,
    ensures
        pieces(s, sep).len() > 1,
        pieces(s, sep)[0].len() == 0,
    decreases s.len(),
{
    reveal_with_fuel(pieces, 2);
    let rest = s.drop_last();
    if rest.len() > 0 {
        lemma_leading_separator(rest, sep);
    } else {
        assert(pieces(rest, sep).len() == 1);
    }
}

/// Pieces put together again with the separator between them.
pub open spec fn joined(parts: Seq<Seq<char>>, sep: Seq<char>) -> Seq<char>
    decreases parts.len(),
{
    if parts.len() == 0 {
        Seq::empty()
    } else if parts.len() == 1 {
        parts[0]
    } else {
        joined(parts.drop_last(), sep) + sep + parts.last()
    }
}

/// What is cut at a separator is the text again when it is joined, and no
/// piece holds the separator.
pub proof fn lemma_pieces(s: Seq<char>, sep: char)
    ensures
        pieces(s, sep).len() > 0,
        joined(pieces(s, sep), seq![sep]) == s,
        forall|i: int| 0 <= i < pieces(s, sep).len() ==> !(#[trigger] pieces(s, sep)[i]).contains(sep),
    decreases s.len(),
{
    if s.len() == 0 {
        assert(joined(pieces(s, sep), seq![sep]) =~= s);
    } else {
        let t = s.drop_last();
        let before = pieces(t, sep);
        lemma_pieces(t, sep);
        let after = pieces(s, sep);
        assert(s =~= t.push(s.last()));
        if s.last() == sep {
            assert(after.drop_last() =~= before);
            assert(joined(after, seq![sep]) =~= s);
        } else {
            assert(after.drop_last() =~= before.drop_last());
            assert(!before.last().contains(sep)) by {
                assert(before[before.len() - 1] == before.last());
            }
            assert forall|i: int| 0 <= i < after.len() implies !(#[trigger] after[i]).contains(
                sep,
            ) by {
                if i < after.len() - 1 {
                    assert(after[i] == before[i]);
                } else if after[i].contains(sep) {
                    let k = after[i].index_of(sep);
                    if k < before.last().len() {
                        assert(before.last()[k] == sep);
                    }
                }
            }
            assert(joined(after, seq![sep]) =~= s);
        }
    }
}

/// Cuts a string at each occurrence of `sep`.
pub fn split(s: &str, sep: char) -> (r: Vec<String>)
    ensures
        texts(r@) == pieces(s@, sep),
{
    let chars = chars_of(s);
    let mut out: Vec<String> = Vec::new();
    let mut current: String = String::new();
    let mut i: usize = 0;
    while i < chars.len()
        invariant
            i <= chars@.len(),
            texts(out@).push(current@) =~= pieces(chars@.take(i as int), sep),
        decreases chars@.len() - i,
    {
        let c = chars[i];
        let ghost before = texts(out@).push(current@);
        assert(chars@.take(i + 1).drop_last() =~= chars@.take(i as int));
        assert(chars@.take(i + 1).last() == c);
        assert(before.drop_last() =~= texts(out@));
        if c == sep {
            out.push(current);
            current = String::new();
            assert(texts(out@) =~= before);
        } else {
            current.push(c);
        }
        i += 1;
    }
    assert(chars@.take(i as int) =~= chars@);
    let ghost last = current@;
    let ghost done = texts(out@);
    out.push(current);
    assert(texts(out@) =~= done.push(last));
    out
}

/// A line without the carriage return at its end, if it has one.
pub open spec fn without_return(line: Seq<char>) -> Seq<char> {
    if line.len() > 0 && line.last() == '\r' {
        line.drop_last()
    } else {
        line
    }
}

/// The lines of a text. A line ends with a line feed, or with a carriage
/// return and a line feed; the last one need not end so.
pub open spec fn lines_of(s: Seq<char>) -> Seq<Seq<char>> {
    let parts = pieces(s, '\n');
    let ended = Seq::new((parts.len() - 1) as nat, |i: int| without_return(parts[i]));
    if parts.last().len() == 0 {
        ended
    } else {
        ended.push(parts.last())
    }
}

/// Cuts a text into its lines.
pub fn lines(s: &str) -> (r: Vec<String>)
    ensures
        texts(r@) == lines_of(s@),
{
    proof {
        lemma_pieces(s@, '\n');
    }
    let parts = split(s, '\n');
    let ghost all = pieces(s@, '\n');
    let last: usize = parts.len() - 1;
    let mut out: Vec<String> = Vec::new();
    let mut i: usize = 0;
    while i < last
        invariant
            i <= last,
            last == parts@.len() - 1,
            texts(parts@) == all,
            texts(out@) =~= Seq::new(i as nat, |k: int| without_return(all[k])),
        decreases last - i,
    {
        let chars = chars_of(parts[i].as_str());
        assert(chars@ == all[i as int]);
        let keep: usize = if chars.len() > 0 && chars[chars.len() - 1] == '\r' {
            chars.len() - 1
        } else {
            chars.len()
        };
        let line = string_of(&chars, 0, keep);
        assert(line@ =~= without_return(all[i as int]));
        let ghost before = texts(out@);
        out.push(line);
        assert(texts(out@) =~= before.push(line@));
        i += 1;
    }
    assert(all.last() == parts@[last as int]@);
    if !parts[last].as_str().is_empty() {
        let ghost before = texts(out@);
        out.push(parts[last].clone());
        assert(texts(out@) =~= before.push(all.last()));
    }
    assert(texts(out@) =~= lines_of(s@));
    out
}

/// `String::from_utf8`: bytes that are valid UTF-8 are decoded, others are
/// refused.
#[verifier::external_body]
pub(crate) fn utf8_text(bytes: Vec<u8>) -> (r: Option<String>)
    ensures
        r is Some <==> vstd::utf8::valid_utf8(bytes@),
        r matches Some(s) ==> s@ == vstd::utf8::decode_utf8(bytes@),
{
    String::from_utf8(bytes).ok()
}

/// What `String::from_utf8_lossy` makes of bytes.
pub uninterp spec fn lossy_text(bytes: Seq<u8>) -> Seq<char>;

/// `String::from_utf8_lossy`: its result is a function of the bytes. Valid
/// UTF-8 is decoded; what stands for bytes that are not is left unsaid.
#[verifier::external_body]
pub(crate) fn lossy_string(bytes: &Vec<u8>) -> (r: String)
    ensures
        r@ == lossy_text(bytes@),
        vstd::utf8::valid_utf8(bytes@) ==> r@ == vstd::utf8::decode_utf8(bytes@),
{
    String::from_utf8_lossy(bytes).into_owned()
}

/// `part` occurs in `s`.
pub open spec fn has_part(s: Seq<char>, part: Seq<char>) -> bool {
    exists|i: int|
        0 <= i <= s.len() - part.len() && #[trigger] s.subrange(i, i + part.len()) == part
}

/// Whether `part` occurs in `s`.
pub fn contains_text(s: &str, part: &str) -> (r: bool)
    ensures
        r == has_part(s@, part@),
{
    let a = chars_of(s);
    let b = chars_of(part);
    let n: usize = a.len();
    if b.len() > n {
        return false;
    }
    if b.len() == 0 {
        assert(s@.subrange(0, 0int + part@.len()) =~= part@);
        return true;
    }
    let last: usize = n - b.len();
    let mut i: usize = 0;
    while i <= last
        invariant
            a@ == s@,
            b@ == part@,
            n == a@.len(),
            last == n - b@.len(),
            last < n,
            i <= last + 1,
            forall|k: int| 0 <= k < i ==> #[trigger] a@.subrange(k, k + b@.len()) != b@,
        decreases last + 1 - i,
    {
        let mut j: usize = 0;
        while j < b.len() && a[i + j] == b[j]
            invariant
                j <= b@.len(),
                i <= last,
                n == a@.len(),
                last == n - b@.len(),
                a@.subrange(i as int, i + j) =~= b@.take(j as int),
            decreases b@.len() - j,
        {
            j += 1;
        }
        if j == b.len() {
            assert(a@.subrange(i as int, i + b@.len()) =~= b@);
            return true;
        }
        assert(a@.subrange(i as int, i + b@.len())[j as int] != b@[j as int]);
        i += 1;
    }
    false
}

/// Puts strings together with `sep` between them.
pub fn join(parts: &Vec<String>, sep: &str) -> (r: String)
    ensures
        r@ == joined(texts(parts@), sep@),
{
    let mut out: String = String::new();
    let mut i: usize = 0;
    let ghost all = texts(parts@);
    while i < parts.len()
        invariant
            i <= parts@.len(),
            all == texts(parts@),
            out@ == joined(all.take(i as int), sep@),
        decreases parts@.len() - i,
    {
        assert(all.take(i + 1).drop_last() =~= all.take(i as int));
        if i > 0 {
            out.append(sep);
        }
        out.append(parts[i].as_str());
        assert(out@ =~= joined(all.take(i + 1), sep@));
        i += 1;
    }
    assert(all.take(i as int) =~= all);
    out
}

/// The characters that count as white space.
pub open spec fn is_space(c: char) -> bool {
    ||| '\u{9}' <= c <= '\u{d}'
    ||| c == ' '
    ||| c == '\u{85}'
    ||| c == '\u{a0}'
    ||| c == '\u{1680}'
    ||| '\u{2000}' <= c <= '\u{200a}'
    ||| c == '\u{2028}'
    ||| c == '\u{2029}'
    ||| c == '\u{202f}'
    ||| c == '\u{205f}'
    ||| c == '\u{3000}'
}

fn space(c: char) -> (r: bool)
    ensures
        r == is_space(c),
{
    ('\u{9}' <= c && c <= '\u{d}') || c == ' ' || c == '\u{85}' || c == '\u{a0}' || c == '\u{1680}'
        || ('\u{2000}' <= c && c <= '\u{200a}') || c == '\u{2028}' || c == '\u{2029}' || c
        == '\u{202f}' || c == '\u{205f}' || c == '\u{3000}'
}

/// `s` without the white space at its start.
pub open spec fn trimmed_start(s: Seq<char>) -> Seq<char>
    decreases s.len(),
{
    if s.len() > 0 && is_space(s.first()) {
        trimmed_start(s.drop_first())
    } else {
        s
    }
}

/// `s` without the white space at its end.
pub open spec fn trimmed_end(s: Seq<char>) -> Seq<char>
    decreases s.len(),
{
    if s.len() > 0 && is_space(s.last()) {
        trimmed_end(s.drop_last())
    } else {
        s
    }
}

/// `s` without the white space at its ends.
pub open spec fn trimmed(s: Seq<char>) -> Seq<char> {
    trimmed_end(trimmed_start(s))
}

/// Cuts the white space off both ends.
pub fn trim(s: &str) -> (r: String)
    ensures
        r@ == trimmed(s@),
{
    let chars = chars_of(s);
    let mut from: usize = 0;
    assert(chars@.skip(0) =~= chars@);
    while from < chars.len() && space(chars[from])
        invariant
            from <= chars@.len(),
            trimmed_start(chars@) == trimmed_start(chars@.skip(from as int)),
        decreases chars@.len() - from,
    {
        assert(chars@.skip(from as int).drop_first() =~= chars@.skip(from + 1));
        from += 1;
    }
    let ghost rest = chars@.skip(from as int);
    assert(trimmed_start(chars@) == rest);
    let mut to: usize = chars.len();
    assert(chars@.subrange(from as int, to as int) =~= rest);
    while to > from && space(chars[to - 1])
        invariant
            from <= to <= chars@.len(),
            trimmed_end(rest) == trimmed_end(chars@.subrange(from as int, to as int)),
        decreases to,
    {
        assert(chars@.subrange(from as int, to as int).drop_last() =~= chars@.subrange(
            from as int,
            to - 1,
        ));
        to -= 1;
    }
    string_of(&chars, from, to)
}

/// Whether `a` comes before `b` in the order of a dictionary, by the numbers
/// of the characters.
pub open spec fn text_before(a: Seq<char>, b: Seq<char>) -> bool
    decreases a.len(),
{
    if b.len() == 0 {
        false
    } else if a.len() == 0 {
        true
    } else if a.first() == b.first() {
        text_before(a.drop_first(), b.drop_first())
    } else {
        a.first() < b.first()
    }
}

/// No text comes before itself, and of two different texts one comes before
/// the other.
pub proof fn lemma_text_order(a: Seq<char>, b: Seq<char>)
    ensures
        !text_before(a, a),
        a != b ==> text_before(a, b) != text_before(b, a),
    decreases a.len(),
{
    if a.len() > 0 && b.len() > 0 {
        lemma_text_order(a.drop_first(), b.drop_first());
        if a.first() == b.first() && a.drop_first() == b.drop_first() {
            assert(a =~= seq![a.first()] + a.drop_first());
            assert(b =~= seq![b.first()] + b.drop_first());
        }
    } else if a.len() > 0 {
        lemma_text_order(a.drop_first(), b);
    } else if b.len() == 0 {
        assert(a =~= b);
    }
}

/// The order of texts is transitive.
pub proof fn lemma_text_order_transitive(a: Seq<char>, b: Seq<char>, c: Seq<char>)
    requires
        text_before(a, b),
        text_before(b, c),
    ensures
        text_before(a, c),
    decreases a.len(),
{
    if a.len() > 0 && a.first() == b.first() && b.first() == c.first() {
        lemma_text_order_transitive(a.drop_first(), b.drop_first(), c.drop_first());
    }
}

/// Whether `a` comes before `b`.
pub fn comes_before(a: &str, b: &str) -> (r: bool)
    ensures
        r == text_before(a@, b@),
{
    let x = chars_of(a);
    let y = chars_of(b);
    let mut i: usize = 0;
    assert(x@.skip(0) =~= x@);
    assert(y@.skip(0) =~= y@);
    while i < x.len() && i < y.len()
        invariant
            x@ == a@,
            y@ == b@,
            i <= x@.len(),
            i <= y@.len(),
            text_before(x@, y@) == text_before(x@.skip(i as int), y@.skip(i as int)),
        decreases x@.len() - i,
    {
        assert(x@.skip(i as int).drop_first() =~= x@.skip(i + 1));
        assert(y@.skip(i as int).drop_first() =~= y@.skip(i + 1));
        if x[i] != y[i] {
            return x[i] < y[i];
        }
        i += 1;
    }
    i < y.len()
}

/// A path below a directory: an absolute path stands for itself.
pub open spec fn path_joined(base: Seq<char>, path: Seq<char>) -> Seq<char> {
    if path.len() > 0 && path.first() == '/' {
        path
    } else if base.len() == 0 || base.last() == '/' {
        base + path
    } else {
        base.push('/') + path
    }
}

/// Joins a path to a directory.
pub fn join_path(base: &str, path: &str) -> (r: String)
    ensures
        r@ == path_joined(base@, path@),
{
    let b = chars_of(base);
    let p = chars_of(path);
    if p.len() > 0 && p[0] == '/' {
        return String::from_str(path);
    }
    let mut out: String = String::from_str(base);
    if b.len() > 0 && b[b.len() - 1] != '/' {
        out.push('/');
    }
    out.append(path);
    out
}

/// How `format!("{:?}", s)` writes a string.
pub uninterp spec fn debug_text(s: Seq<char>) -> Seq<char>;

/// Whether every character is a printable ASCII character other than the
/// double quote and the backslash.
pub open spec fn needs_no_escape(s: Seq<char>) -> bool {
    forall|i: int|
        0 <= i < s.len() ==> ' ' <= (#[trigger] s[i]) <= '~' && s[i] != '"' && s[i] != '\\'
}

/// The `Debug` form of a string, as `format!` writes it. Its result is a
/// function of the string; of plain ASCII text that needs no escape it is the
/// text in double quotes.
#[verifier::external_body]
pub(crate) fn debug_string(s: &str) -> (r: String)
    ensures
        r@ == debug_text(s@),
        needs_no_escape(s@) ==> r@ == seq!['"'] + s@ + seq!['"'],
{
    format!("{:?}", s)
}

/// A text comes before another if it is the start of it, or if the first
/// character in which they differ is the smaller one, and only then.
pub proof fn lemma_dictionary_order(a: Seq<char>, b: Seq<char>, same: int)
    requires
        0 <= same <= a.len(),
        same <= b.len(),
        a.take(same) == b.take(same),
    ensures
        same == a.len() && same < b.len() ==> text_before(a, b),
        same == b.len() ==> !text_before(a, b),
        same < a.len() && same < b.len() && a[same] < b[same] ==> text_before(a, b),
        same < a.len() && same < b.len() && a[same] > b[same] ==> !text_before(a, b),
    decreases same,
{
    if same > 0 {
        assert(a.first() == a.take(same)[0]);
        assert(b.first() == b.take(same)[0]);
        let x = a.drop_first();
        let y = b.drop_first();
        assert(x.take(same - 1) =~= a.take(same).drop_first());
        assert(y.take(same - 1) =~= b.take(same).drop_first());
        lemma_dictionary_order(x, y, same - 1);
    }
}

/// A decimal notation consists of digits, without a zero at its start but for
/// the number zero itself; that of a negative number has a minus sign before
/// it.
pub proof fn lemma_decimal_digits(n: int)
    requires
        n >= 0,
    ensures
        decimal(n).len() > 0,
        forall|i: int| 0 <= i < decimal(n).len() ==> '0' <= #[trigger] decimal(n)[i] <= '9',
        n > 0 ==> decimal(n)[0] != '0',
        n > 0 ==> decimal(-n) == seq!['-'] + decimal(n),
    decreases n,
{
    if n >= 10 {
        lemma_decimal_digits(n / 10);
        let front = decimal_digits(n / 10);
        assert(decimal(n / 10) == front);
        assert forall|i: int| 0 <= i < decimal(n).len() implies '0' <= #[trigger] decimal(
            n,
        )[i] <= '9' by {
            if i < front.len() {
                assert(decimal(n)[i] == front[i]);
            }
        }
        assert(decimal(n)[0] == front[0]);
    }
}

/// The number that one more digit at the end makes of a number.
pub proof fn lemma_decimal_grows(n: int, d: int)
    requires
        n > 0,
        0 <= d < 10,
    ensures
        decimal(10 * n + d) == decimal(n) + decimal(d),
        decimal(d).len() == 1,
        decimal(d)[0] as int == '0' as int + d,
{
    let m = 10 * n + d;
    assert(m / 10 == n && m % 10 == d);
    assert(decimal(m) =~= decimal(n) + decimal(d));
}

/// Only white space is trimmed, and all of it at both ends.
pub proof fn lemma_trimmed(s: Seq<char>) -> (r: (int, int))
    ensures
        0 <= r.0 <= r.1 <= s.len(),
        trimmed(s) == s.subrange(r.0, r.1),
        forall|i: int| 0 <= i < r.0 || r.1 <= i < s.len() ==> is_space(#[trigger] s[i]),
        r.0 < r.1 ==> !is_space(s[r.0]) && !is_space(s[r.1 - 1]),
{
    let i = lemma_trimmed_start(s);
    let rest = s.skip(i);
    let k = lemma_trimmed_end(rest);
    assert(rest.take(k) =~= s.subrange(i, i + k));
    assert forall|j: int| i + k <= j < s.len() implies is_space(#[trigger] s[j]) by {
        assert(rest[j - i] == s[j]);
    }
    if k > 0 {
        assert(rest.len() > 0);
        assert(rest[0] == s[i] && rest[k - 1] == s[i + k - 1]);
    }
    (i, i + k)
}

/// Where a text starts without the white space at its start.
proof fn lemma_trimmed_start(s: Seq<char>) -> (i: int)
    ensures
        0 <= i <= s.len(),
        trimmed_start(s) == s.skip(i),
        forall|j: int| 0 <= j < i ==> is_space(#[trigger] s[j]),
        i < s.len() ==> !is_space(s[i]),
    decreases s.len(),
{
    if s.len() > 0 && is_space(s.first()) {
        let rest = s.drop_first();
        let i = lemma_trimmed_start(rest);
        assert(rest.skip(i) =~= s.skip(i + 1));
        assert forall|j: int| 0 <= j < i + 1 implies is_space(#[trigger] s[j]) by {
            if j > 0 {
                assert(rest[j - 1] == s[j]);
            }
        }
        if i < rest.len() {
            assert(rest[i] == s[i + 1]);
        }
        i + 1
    } else {
        assert(s.skip(0) =~= s);
        0
    }
}

/// Where a text ends without the white space at its end.
proof fn lemma_trimmed_end(s: Seq<char>) -> (k: int)
    ensures
        0 <= k <= s.len(),
        trimmed_end(s) == s.take(k),
        forall|j: int| k <= j < s.len() ==> is_space(#[trigger] s[j]),
        k > 0 ==> !is_space(s[k - 1]),
        k == 0 ==> forall|j: int| 0 <= j < s.len() ==> is_space(#[trigger] s[j]),
    decreases s.len(),
{
    if s.len() > 0 && is_space(s.last()) {
        let rest = s.drop_last();
        let k = lemma_trimmed_end(rest);
        assert(rest.take(k) =~= s.take(k));
        assert forall|j: int| k <= j < s.len() implies is_space(#[trigger] s[j]) by {
            if j < rest.len() {
                assert(rest[j] == s[j]);
            }
        }
        if k > 0 {
            assert(rest[k - 1] == s[k - 1]);
        }
        k
    } else {
        assert(s.take(s.len() as int) =~= s);
        s.len() as int
    }
}

/// The characters of ASCII that count as white space: no visible one does.
pub proof fn lemma_ascii_space(c: char)
    requires
        c <= '~',
    ensures
        is_space(c) <==> c == ' ' || c == '\t' || c == '\n' || c == '\u{b}' || c == '\u{c}' || c
            == '\r',
{
}

/// What has no white space at its ends stays as it is.
pub proof fn lemma_nothing_to_trim(s: Seq<char>)
    requires
        s.len() > 0 ==> !is_space(s.first()) && !is_space(s.last()),
    ensures
        trimmed(s) == s,
{
}

/// More text without a separator goes to the last piece.
pub proof fn lemma_pieces_append(s: Seq<char>, more: Seq<char>, sep: char)
    requires
        !more.contains(sep),
    ensures
        pieces(s + more, sep) == pieces(s, sep).drop_last().push(pieces(s, sep).last() + more),
    decreases more.len(),
{
    let before = pieces(s, sep);
    lemma_pieces(s, sep);
    if more.len() == 0 {
        assert(s + more =~= s);
        assert(before.last() + more =~= before.last());
        assert(before.drop_last().push(before.last()) =~= before);
    } else {
        let front = more.drop_last();
        assert(more[more.len() - 1] != sep);
        assert(!front.contains(sep)) by {
            if front.contains(sep) {
                let i = front.index_of(sep);
                assert(more[i] == sep);
            }
        }
        lemma_pieces_append(s, front, sep);
        let mid = pieces(s + front, sep);
        assert((s + more).drop_last() =~= s + front);
        assert(mid.drop_last() =~= before.drop_last());
        assert(mid.last() == before.last() + front);
        assert((before.last() + front).push(more.last()) =~= before.last() + more);
    }
}

/// A text is divided at every separator and nowhere else: putting parts
/// together that have no separator in them and dividing them again gives the
/// parts.
pub proof fn lemma_joined_pieces(parts: Seq<Seq<char>>, sep: char)
    requires
        parts.len() > 0,
        forall|i: int| 0 <= i < parts.len() ==> !(#[trigger] parts[i]).contains(sep),
    ensures
        pieces(joined(parts, seq![sep]), sep) == parts,
    decreases parts.len(),
{
    let last = parts.last();
    assert(last == parts[parts.len() - 1]);
    if parts.len() == 1 {
        let none = Seq::<char>::empty();
        lemma_pieces_append(none, last, sep);
        assert(none + last =~= parts[0]);
        assert(none + last =~= joined(parts, seq![sep]));
        assert(pieces(joined(parts, seq![sep]), sep) =~= parts);
    } else {
        let front = parts.drop_last();
        assert forall|i: int| 0 <= i < front.len() implies !(#[trigger] front[i]).contains(
            sep,
        ) by {
            assert(front[i] == parts[i]);
        }
        lemma_joined_pieces(front, sep);
        let s = joined(front, seq![sep]);
        let t = s + seq![sep];
        assert(t.drop_last() =~= s);
        assert(pieces(t, sep) == front.push(Seq::empty()));
        lemma_pieces_append(t, last, sep);
        assert(front.push(Seq::empty()).drop_last() =~= front);
        assert(Seq::<char>::empty() + last =~= last);
        assert(front.push(last) =~= parts);
    }
}

/// The pieces of lines that all end.
proof fn lemma_pieces_of_lines(lines: Seq<Seq<char>>)
    requires
        forall|i: int| 0 <= i < lines.len() ==> !(#[trigger] lines[i]).contains('\n'),
    ensures
        pieces(crate::text::ended_lines(lines), '\n') == lines.push(Seq::empty()),
    decreases lines.len(),
{
    if lines.len() == 0 {
        assert(seq![Seq::<char>::empty()] =~= lines.push(Seq::empty()));
    } else {
        let front = lines.drop_last();
        let last = lines.last();
        assert(last == lines[lines.len() - 1]);
        assert forall|i: int| 0 <= i < front.len() implies !(#[trigger] front[i]).contains(
            '\n',
        ) by {
            assert(front[i] == lines[i]);
        }
        lemma_pieces_of_lines(front);
        let s = crate::text::ended_lines(front);
        lemma_pieces_append(s, last, '\n');
        let t = s + last;
        assert(front.push(Seq::empty()).drop_last() =~= front);
        assert(Seq::<char>::empty() + last =~= last);
        assert(front.push(last) =~= lines);
        assert((t + seq!['\n']).drop_last() =~= t);
    }
}

/// Lines that were written one after the other, each with a line feed at its
/// end, are read again as they were, but for a carriage return before the line
/// feed; and so is a last line without a line feed.
pub proof fn lemma_lines_are_read(lines: Seq<Seq<char>>, rest: Seq<char>)
    requires
        forall|i: int| 0 <= i < lines.len() ==> !(#[trigger] lines[i]).contains('\n'),
        !rest.contains('\n'),
    ensures
        ({
            let read = lines_of(crate::text::ended_lines(lines) + rest);
            &&& read.len() == lines.len() + if rest.len() > 0 {
                1int
            } else {
                0
            }
            &&& forall|i: int|
                0 <= i < lines.len() ==> #[trigger] read[i] == lines[i] || read[i].push('\r')
                    == lines[i]
            &&& forall|i: int|
                0 <= i < lines.len() && (#[trigger] lines[i]).len() > 0 && lines[i].last() == '\r'
                    ==> read[i].len() == lines[i].len() - 1
            &&& forall|i: int|
                0 <= i < lines.len() && (#[trigger] lines[i]).len() > 0 && lines[i].last() != '\r'
                    ==> read[i] == lines[i]
            &&& rest.len() > 0 ==> read.last() == rest
        }),
{
    lemma_pieces_of_lines(lines);
    let s = crate::text::ended_lines(lines);
    lemma_pieces_append(s, rest, '\n');
    let parts = pieces(s + rest, '\n');
    assert(lines.push(Seq::empty()).drop_last() =~= lines);
    assert(Seq::<char>::empty() + rest =~= rest);
    assert(parts =~= lines.push(rest));
    let read = lines_of(s + rest);
    assert forall|i: int| 0 <= i < lines.len() implies #[trigger] read[i] == without_return(
        lines[i],
    ) by {
        assert(parts[i] == lines[i]);
    }
    assert forall|i: int| 0 <= i < lines.len() implies #[trigger] read[i] == lines[i] || read[i].push(
        '\r',
    ) == lines[i] by {
        if lines[i].len() > 0 && lines[i].last() == '\r' {
            assert(read[i].push('\r') =~= lines[i]);
        }
    }
    assert forall|i: int|
        0 <= i < lines.len() && (#[trigger] lines[i]).len() > 0 && lines[i].last() != '\r' implies read[i]
        == lines[i] by {
        assert(read[i] == without_return(lines[i]));
    }
    assert forall|i: int|
        0 <= i < lines.len() && (#[trigger] lines[i]).len() > 0 && lines[i].last() == '\r' implies read[i].len()
        == lines[i].len() - 1 by {
        assert(read[i] == without_return(lines[i]));
    }
}

/// A path below a directory is that of the directory, a slash and the path;
/// there is no second slash, and an absolute path is not below the directory.
pub proof fn lemma_path_joined(base: Seq<char>, path: Seq<char>)
    requires
        path.len() > 0 ==> path.first() != '/',
    ensures
        base.len() > 0 && base.last() != '/' ==> path_joined(base, path) == base + "/"@ + path,
        path_joined(base + "/"@, path) == base + "/"@ + path,
        path_joined(Seq::empty(), path) == path,
        path_joined(base, "/"@ + path) == "/"@ + path,
{
    reveal_strlit("/");
    if base.len() > 0 && base.last() != '/' {
        assert(path_joined(base, path) =~= base + "/"@ + path);
    }
    assert((base + "/"@).last() == '/');
    assert(path_joined(base + "/"@, path) =~= base + "/"@ + path);
    assert(path_joined(Seq::empty(), path) =~= path);
    assert(("/"@ + path).first() == '/');
}

/// A part occurs in a text exactly if the text is made of something, the part and
/// something more.
pub proof fn lemma_has_part(front: Seq<char>, part: Seq<char>, rest: Seq<char>, s: Seq<char>)
    ensures
        has_part(front + part + rest, part),
        has_part(s, part) ==> exists|k: int|
            0 <= k <= s.len() - part.len() && s == #[trigger] s.take(k) + part + s.skip(
                k + part.len(),
            ),
{
    let m = front.len() as int;
    assert((front + part + rest).subrange(m, m + part.len()) =~= part);
    if has_part(s, part) {
        let k = choose|k: int|
            0 <= k <= s.len() - part.len() && #[trigger] s.subrange(k, k + part.len()) == part;
        assert(s =~= s.take(k) + s.subrange(k, k + part.len()) + s.skip(k + part.len()));
        assert(s == s.take(k) + part + s.skip(k + part.len()));
    }
}

/// Beyond ASCII, white space is what Unicode calls so: next line, the spaces
/// that do not break, those of fixed width, and the separators of lines and
/// paragraphs.
pub proof fn lemma_unicode_space(c: char)
    requires
        c > '~',
    ensures
        is_space(c) <==> c == '\u{85}' || c == '\u{a0}' || c == '\u{1680}' || ('\u{2000}' <= c && c
            <= '\u{200a}') || c == '\u{2028}' || c == '\u{2029}' || c == '\u{202f}' || c
            == '\u{205f}' || c == '\u{3000}',
{
}

} // verus!
