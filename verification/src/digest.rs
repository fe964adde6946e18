//! Digests of structured values: a value is written down as bytes in such a
//! way that different values give different bytes, and those are hashed.
use sha3::Digest;
use vstd::prelude::*;

verus! {

/// What the hash function SHA3-256 makes of the given bytes.
pub uninterp spec fn sha3_256(data: Seq<u8>) -> Seq<u8>;

/// `sha3::Sha3_256::digest`: its result is a function of the bytes, and 32
/// bytes long.
#[verifier::external_body]
fn digest_bytes(data: &Vec<u8>) -> (r: Vec<u8>)
    ensures
        r@ == sha3_256(data@),
        r@.len() == 32,
{
    sha3::Sha3_256::digest(data.as_slice()).to_vec()
}

/// The hexadecimal digit for a number below 16, in lower case.
pub open spec fn hex_digit(d: int) -> char {
    if d < 10 {
        (48 + d) as char
    } else {
        (87 + d) as char
    }
}

/// Two hexadecimal digits for each byte, the higher one first.
pub open spec fn hex_text(data: Seq<u8>) -> Seq<char> {
    Seq::new(
        2 * data.len(),
        |i: int|
            if i % 2 == 0 {
                hex_digit(data[i / 2] as int / 16)
            } else {
                hex_digit(data[i / 2] as int % 16)
            },
    )
}

/// `hex::encode`: each byte becomes two lower-case hexadecimal digits.
#[verifier::external_body]
fn hex_encode(data: &Vec<u8>) -> (r: String)
    ensures
        r@ == hex_text(data@),
{
    hex::encode(data)
}

/// A digest in hexadecimal notation.
pub fn digest_text(digest: &Vec<u8>) -> (r: String)
    ensures
        r@ == hex_text(digest@),
{
    hex_encode(digest)
}

/// A number in the given number of bytes, the lowest first.
pub open spec fn le_bytes(n: nat, len: nat) -> Seq<u8>
    decreases len,
{
    if len == 0 {
        Seq::empty()
    } else {
        seq![(n % 256) as u8] + le_bytes(n / 256, (len - 1) as nat)
    }
}

/// How many numbers can be written in the given number of bytes.
pub open spec fn le_bound(len: nat) -> nat
    decreases len,
{
    if len == 0 {
        1
    } else {
        256 * le_bound((len - 1) as nat)
    }
}

/// The bytes of a number: eight of them.
pub open spec fn number_bytes(n: nat) -> Seq<u8> {
    le_bytes(n, 8)
}

/// The bytes of a signed number: four of them, in two's complement.
pub open spec fn signed_bytes(n: i32) -> Seq<u8> {
    le_bytes(
        if n < 0 {
            (n + 0x1_0000_0000) as nat
        } else {
            n as nat
        },
        4,
    )
}

/// The byte of a truth value.
pub open spec fn flag_bytes(b: bool) -> Seq<u8> {
    seq![
        if b {
            1u8
        } else {
            0u8
        },
    ]
}

/// The bytes of a text: its UTF-8 form, and a byte that UTF-8 never has.
pub open spec fn text_bytes(s: Seq<char>) -> Seq<u8> {
    vstd::utf8::encode_utf8(s).push(0xff)
}

/// The bytes of some values, one after the other.
pub open spec fn each<A>(s: Seq<A>, enc: spec_fn(A) -> Seq<u8>) -> Seq<u8>
    decreases s.len(),
{
    if s.len() == 0 {
        Seq::empty()
    } else {
        each(s.drop_last(), enc) + enc(s.last())
    }
}

/// The bytes of a list: its length, then its entries.
pub open spec fn list_bytes<A>(s: Seq<A>, enc: spec_fn(A) -> Seq<u8>) -> Seq<u8> {
    number_bytes(s.len()) + each(s, enc)
}

/// The encoder of texts.
pub open spec fn text_encoder() -> spec_fn(Seq<char>) -> Seq<u8> {
    |s: Seq<char>| text_bytes(s)
}

/// The encoder of signed numbers.
pub open spec fn signed_encoder() -> spec_fn(i32) -> Seq<u8> {
    |n: i32| signed_bytes(n)
}

/// Whatever follows the bytes of a value, it can be told where they end and
/// which of the values with `ok` they stand for.
pub open spec fn self_delimiting<A>(ok: spec_fn(A) -> bool, enc: spec_fn(A) -> Seq<u8>) -> bool {
    forall|a: A, b: A, x: Seq<u8>, y: Seq<u8>|
        #![trigger enc(a) + x, enc(b) + y]
        ok(a) && ok(b) && enc(a) + x == enc(b) + y ==> a == b && x == y
}

/// Every value.
pub open spec fn all_values<A>() -> spec_fn(A) -> bool {
    |a: A| true
}

/// Equal sequences that start with parts of the same length.
pub proof fn lemma_same_length(p: Seq<u8>, q: Seq<u8>, x: Seq<u8>, y: Seq<u8>)
    requires
        p.len() == q.len(),
        p + x == q + y,
    ensures
        p == q,
        x == y,
{
    let n = p.len() as int;
    assert((p + x).take(n) =~= p);
    assert((q + y).take(n) =~= q);
    assert((p + x).skip(n) =~= x);
    assert((q + y).skip(n) =~= y);
}

proof fn lemma_le_len(n: nat, len: nat)
    ensures
        le_bytes(n, len).len() == len,
    decreases len,
{
    if len > 0 {
        lemma_le_len(n / 256, (len - 1) as nat);
    }
}

proof fn lemma_le_injective(a: nat, b: nat, len: nat)
    requires
        a < le_bound(len),
        b < le_bound(len),
        le_bytes(a, len) == le_bytes(b, len),
    ensures
        a == b,
    decreases len,
{
    if len > 0 {
        let k = (len - 1) as nat;
        let p = le_bytes(a, len);
        let q = le_bytes(b, len);
        assert(p[0] == (a % 256) as u8);
        assert(q[0] == (b % 256) as u8);
        assert(p.skip(1) =~= le_bytes(a / 256, k));
        assert(q.skip(1) =~= le_bytes(b / 256, k));
        lemma_le_injective(a / 256, b / 256, k);
    }
}

proof fn lemma_le_bounds()
    ensures
        le_bound(8) == 0x1_0000_0000_0000_0000,
        le_bound(4) == 0x1_0000_0000,
{
    reveal_with_fuel(le_bound, 9);
}

/// The bytes of numbers below 2^64 are self-delimiting.
pub proof fn lemma_numbers(a: nat, b: nat, x: Seq<u8>, y: Seq<u8>)
    requires
        a < 0x1_0000_0000_0000_0000,
        b < 0x1_0000_0000_0000_0000,
        number_bytes(a) + x == number_bytes(b) + y,
    ensures
        a == b,
        x == y,
{
    lemma_le_bounds();
    lemma_le_len(a, 8);
    lemma_le_len(b, 8);
    lemma_same_length(number_bytes(a), number_bytes(b), x, y);
    lemma_le_injective(a, b, 8);
}

/// The bytes of signed numbers are self-delimiting.
pub proof fn lemma_signed()
    ensures
        self_delimiting(all_values(), signed_encoder()),
{
    let enc = signed_encoder();
    assert forall|a: i32, b: i32, x: Seq<u8>, y: Seq<u8>|
        #![trigger enc(a) + x, enc(b) + y]
        enc(a) + x == enc(b) + y implies a == b && x == y by {
        lemma_le_bounds();
        let m: nat = if a < 0 {
            (a + 0x1_0000_0000) as nat
        } else {
            a as nat
        };
        let n: nat = if b < 0 {
            (b + 0x1_0000_0000) as nat
        } else {
            b as nat
        };
        lemma_le_len(m, 4);
        lemma_le_len(n, 4);
        lemma_same_length(signed_bytes(a), signed_bytes(b), x, y);
        lemma_le_injective(m, n, 4);
    }
}

/// The bytes of truth values are self-delimiting.
pub proof fn lemma_flags(a: bool, b: bool, x: Seq<u8>, y: Seq<u8>)
    requires
        flag_bytes(a) + x == flag_bytes(b) + y,
    ensures
        a == b,
        x == y,
{
    lemma_same_length(flag_bytes(a), flag_bytes(b), x, y);
    assert(flag_bytes(a)[0] == flag_bytes(b)[0]);
}

/// No byte of the UTF-8 form of a character is 0xff.
proof fn lemma_scalar_bytes(scalar: u32)
    ensures
        vstd::utf8::leading_byte_width_1(scalar) != 0xff,
        vstd::utf8::leading_byte_width_2(scalar) != 0xff,
        vstd::utf8::leading_byte_width_3(scalar) != 0xff,
        vstd::utf8::leading_byte_width_4(scalar) != 0xff,
        vstd::utf8::last_continuation_byte(scalar) != 0xff,
        vstd::utf8::second_last_continuation_byte(scalar) != 0xff,
        vstd::utf8::third_last_continuation_byte(scalar) != 0xff,
{
    assert((scalar & 0x7F) as u8 != 0xff) by (bit_vector);
    assert(0xC0u8 | ((scalar >> 6) & 0x1F) as u8 != 0xff) by (bit_vector);
    assert(0xE0u8 | ((scalar >> 12) & 0x0F) as u8 != 0xff) by (bit_vector);
    assert(0xF0u8 | ((scalar >> 18) & 0x7) as u8 != 0xff) by (bit_vector);
    assert(0x80u8 | (scalar & 0x3F) as u8 != 0xff) by (bit_vector);
    assert(0x80u8 | ((scalar >> 6) & 0x3F) as u8 != 0xff) by (bit_vector);
    assert(0x80u8 | ((scalar >> 12) & 0x3F) as u8 != 0xff) by (bit_vector);
}

/// UTF-8 has no byte 0xff.
proof fn lemma_utf8_bytes(s: Seq<char>)
    ensures
        forall|i: int|
            0 <= i < vstd::utf8::encode_utf8(s).len() ==> #[trigger] vstd::utf8::encode_utf8(s)[i]
                != 0xff,
    decreases s.len(),
{
    if s.len() > 0 {
        lemma_scalar_bytes(s[0] as u32);
        lemma_utf8_bytes(s.drop_first());
        let first = vstd::utf8::encode_scalar(s[0] as u32);
        let rest = vstd::utf8::encode_utf8(s.drop_first());
        assert forall|i: int| 0 <= i < vstd::utf8::encode_utf8(s).len() implies #[trigger]
        vstd::utf8::encode_utf8(s)[i] != 0xff by {
            if i < first.len() {
                assert(vstd::utf8::encode_utf8(s)[i] == first[i]);
            } else {
                assert(vstd::utf8::encode_utf8(s)[i] == rest[i - first.len()]);
            }
        }
    }
}

/// The bytes of texts are self-delimiting.
pub proof fn lemma_texts()
    ensures
        self_delimiting(all_values(), text_encoder()),
{
    let enc = text_encoder();
    assert forall|a: Seq<char>, b: Seq<char>, x: Seq<u8>, y: Seq<u8>|
        #![trigger enc(a) + x, enc(b) + y]
        enc(a) + x == enc(b) + y implies a == b && x == y by {
        let p = vstd::utf8::encode_utf8(a);
        let q = vstd::utf8::encode_utf8(b);
        lemma_utf8_bytes(a);
        lemma_utf8_bytes(b);
        let s = enc(a) + x;
        let t = enc(b) + y;
        assert(s[p.len() as int] == 0xff);
        assert(t[q.len() as int] == 0xff);
        if p.len() < q.len() {
            assert(t[p.len() as int] == q[p.len() as int]);
        } else if q.len() < p.len() {
            assert(s[q.len() as int] == p[q.len() as int]);
        }
        lemma_same_length(enc(a), enc(b), x, y);
        assert(text_bytes(a).drop_last() =~= p);
        assert(text_bytes(b).drop_last() =~= q);
        vstd::utf8::encode_utf8_decode_utf8(a);
        vstd::utf8::encode_utf8_decode_utf8(b);
    }
}

/// Lists of the same length, of values whose bytes are self-delimiting.
pub proof fn lemma_each<A>(
    ok: spec_fn(A) -> bool,
    enc: spec_fn(A) -> Seq<u8>,
    s: Seq<A>,
    t: Seq<A>,
    x: Seq<u8>,
    y: Seq<u8>,
)
    requires
        self_delimiting(ok, enc),
        forall|i: int| 0 <= i < s.len() ==> ok(#[trigger] s[i]),
        forall|i: int| 0 <= i < t.len() ==> ok(#[trigger] t[i]),
        s.len() == t.len(),
        each(s, enc) + x == each(t, enc) + y,
    ensures
        s == t,
        x == y,
    decreases s.len(),
{
    if s.len() == 0 {
        assert(s =~= t);
        assert(each(s, enc) + x =~= x);
        assert(each(t, enc) + y =~= y);
    } else {
        let u = enc(s.last()) + x;
        let v = enc(t.last()) + y;
        assert(each(s, enc) + x =~= each(s.drop_last(), enc) + u);
        assert(each(t, enc) + y =~= each(t.drop_last(), enc) + v);
        assert(ok(s[s.len() - 1]) && ok(t[t.len() - 1]));
        lemma_each(ok, enc, s.drop_last(), t.drop_last(), u, v);
        assert(s =~= s.drop_last().push(s.last()));
        assert(t =~= t.drop_last().push(t.last()));
    }
}

/// Lists of values whose bytes are self-delimiting have such bytes too.
pub proof fn lemma_lists<A>(
    ok: spec_fn(A) -> bool,
    enc: spec_fn(A) -> Seq<u8>,
    s: Seq<A>,
    t: Seq<A>,
    x: Seq<u8>,
    y: Seq<u8>,
)
    requires
        self_delimiting(ok, enc),
        forall|i: int| 0 <= i < s.len() ==> ok(#[trigger] s[i]),
        forall|i: int| 0 <= i < t.len() ==> ok(#[trigger] t[i]),
        s.len() < 0x1_0000_0000_0000_0000,
        t.len() < 0x1_0000_0000_0000_0000,
        list_bytes(s, enc) + x == list_bytes(t, enc) + y,
    ensures
        s == t,
        x == y,
{
    assert(list_bytes(s, enc) + x =~= number_bytes(s.len()) + (each(s, enc) + x));
    assert(list_bytes(t, enc) + y =~= number_bytes(t.len()) + (each(t, enc) + y));
    lemma_numbers(s.len(), t.len(), each(s, enc) + x, each(t, enc) + y);
    lemma_each(ok, enc, s, t, x, y);
}

/// [`lemma_texts`] for two texts.
pub proof fn lemma_text(a: Seq<char>, b: Seq<char>, x: Seq<u8>, y: Seq<u8>)
    requires
        text_bytes(a) + x == text_bytes(b) + y,
    ensures
        a == b,
        x == y,
{
    lemma_texts();
    let enc = text_encoder();
    assert(enc(a) + x == enc(b) + y);
}

/// [`lemma_lists`] for lists of texts.
pub proof fn lemma_text_lists(s: Seq<Seq<char>>, t: Seq<Seq<char>>, x: Seq<u8>, y: Seq<u8>)
    requires
        s.len() < 0x1_0000_0000_0000_0000,
        t.len() < 0x1_0000_0000_0000_0000,
        list_bytes(s, text_encoder()) + x == list_bytes(t, text_encoder()) + y,
    ensures
        s == t,
        x == y,
{
    lemma_texts();
    lemma_lists(all_values(), text_encoder(), s, t, x, y);
}

/// [`lemma_lists`] for lists of signed numbers.
pub proof fn lemma_signed_lists(s: Seq<i32>, t: Seq<i32>, x: Seq<u8>, y: Seq<u8>)
    requires
        s.len() < 0x1_0000_0000_0000_0000,
        t.len() < 0x1_0000_0000_0000_0000,
        list_bytes(s, signed_encoder()) + x == list_bytes(t, signed_encoder()) + y,
    ensures
        s == t,
        x == y,
{
    lemma_signed();
    lemma_lists(all_values(), signed_encoder(), s, t, x, y);
}

/// Concatenation is associative.
pub proof fn lemma_regroup(p: Seq<u8>, q: Seq<u8>, x: Seq<u8>)
    ensures
        (p + q) + x == p + (q + x),
{
    assert((p + q) + x =~= p + (q + x));
}

/// Collects the bytes of values and hashes them.
#[derive(Debug)]
pub struct DigestHasher {
    bytes: Vec<u8>,
}

impl View for DigestHasher {
    type V = Seq<u8>;

    closed spec fn view(&self) -> Seq<u8> {
        self.bytes@
    }
}

impl DigestHasher {
    pub fn new() -> (r: Self)
        ensures
            r@ == Seq::<u8>::empty(),
    {
        DigestHasher { bytes: Vec::new() }
    }

    fn write_byte(&mut self, b: u8)
        ensures
            final(self)@ == old(self)@.push(b),
    {
        self.bytes.push(b);
    }

    fn write_le(&mut self, n: u64, len: u64)
        requires
            len <= 8,
        ensures
            final(self)@ == old(self)@ + le_bytes(n as nat, len as nat),
        decreases len,
    {
        if len > 0 {
            let low: u8 = (n % 256) as u8;
            self.write_byte(low);
            let ghost mid = self@;
            self.write_le(n / 256, len - 1);
            assert(self@ =~= old(self)@ + le_bytes(n as nat, len as nat)) by {
                assert(mid == old(self)@.push(low));
            }
        } else {
            assert(self@ =~= old(self)@ + le_bytes(n as nat, len as nat));
        }
    }

    pub fn write_number(&mut self, n: u64)
        ensures
            final(self)@ == old(self)@ + number_bytes(n as nat),
    {
        self.write_le(n, 8);
    }

    pub fn write_signed(&mut self, n: i32)
        ensures
            final(self)@ == old(self)@ + signed_bytes(n),
    {
        if n < 0 {
            self.write_le((n as i64 + 0x1_0000_0000) as u64, 4);
        } else {
            self.write_le(n as u64, 4);
        }
    }

    pub fn write_flag(&mut self, b: bool)
        ensures
            final(self)@ == old(self)@ + flag_bytes(b),
    {
        self.write_byte(
            if b {
                1
            } else {
                0
            },
        );
        assert(self@ =~= old(self)@ + flag_bytes(b));
    }

    pub fn write_text(&mut self, s: &str)
        ensures
            final(self)@ == old(self)@ + text_bytes(s@),
    {
        let utf8 = s.as_bytes();
        self.bytes.extend_from_slice(utf8);
        self.bytes.push(0xff);
        assert(self@ =~= old(self)@ + text_bytes(s@));
    }

    pub fn write_texts(&mut self, list: &Vec<String>)
        ensures
            final(self)@ == old(self)@ + list_bytes(crate::strings::texts(list@), text_encoder()),
    {
        let ghost start = self@ + number_bytes(list@.len());
        let ghost all = crate::strings::texts(list@);
        let ghost enc = text_encoder();
        self.write_number(list.len() as u64);
        let mut i: usize = 0;
        assert(all.take(0) =~= Seq::empty());
        assert(self@ =~= start + each(all.take(0), enc));
        while i < list.len()
            invariant
                i <= list@.len(),
                all == crate::strings::texts(list@),
                enc == text_encoder(),
                self@ == start + each(all.take(i as int), enc),
            decreases list@.len() - i,
        {
            assert(all.take(i + 1).drop_last() =~= all.take(i as int));
            assert(all.take(i + 1).last() == all[i as int]);
            self.write_text(list[i].as_str());
            assert(self@ =~= start + each(all.take(i + 1), enc));
            i += 1;
        }
        assert(all.take(i as int) =~= all);
        assert(self@ =~= old(self)@ + list_bytes(all, enc));
    }

    pub fn write_signed_numbers(&mut self, list: &Vec<i32>)
        ensures
            final(self)@ == old(self)@ + list_bytes(list@, signed_encoder()),
    {
        let ghost start = self@ + number_bytes(list@.len());
        let ghost all = list@;
        let ghost enc = signed_encoder();
        self.write_number(list.len() as u64);
        let mut i: usize = 0;
        assert(all.take(0) =~= Seq::empty());
        assert(self@ =~= start + each(all.take(0), enc));
        while i < list.len()
            invariant
                i <= list@.len(),
                all == list@,
                enc == signed_encoder(),
                self@ == start + each(all.take(i as int), enc),
            decreases list@.len() - i,
        {
            assert(all.take(i + 1).drop_last() =~= all.take(i as int));
            assert(all.take(i + 1).last() == all[i as int]);
            self.write_signed(list[i]);
            assert(self@ =~= start + each(all.take(i + 1), enc));
            i += 1;
        }
        assert(all.take(i as int) =~= all);
        assert(self@ =~= old(self)@ + list_bytes(all, enc));
    }

    /// The digest of what was written, in hexadecimal notation.
    pub fn finish(self) -> (r: String)
        ensures
            r@ == hex_text(sha3_256(self@)),
    {
        digest_text(&digest_bytes(&self.bytes))
    }
}

/// The number that a hexadecimal digit stands for, or 16 for what is none.
pub open spec fn hex_value(c: char) -> int {
    if '0' <= c <= '9' {
        c as int - '0' as int
    } else if 'a' <= c <= 'f' {
        c as int - 'a' as int + 10
    } else {
        16
    }
}

/// From a hexadecimal text the bytes can be read again, two digits for each, and
/// it has no other characters in it.
pub proof fn lemma_hex_text(data: Seq<u8>, i: int)
    requires
        0 <= i < data.len(),
    ensures
        hex_text(data).len() == 2 * data.len(),
        hex_value(hex_text(data)[2 * i]) < 16,
        hex_value(hex_text(data)[2 * i + 1]) < 16,
        16 * hex_value(hex_text(data)[2 * i]) + hex_value(hex_text(data)[2 * i + 1]) == data[i],
{
    let b = data[i] as int;
    assert((2 * i) / 2 == i && (2 * i) % 2 == 0);
    assert((2 * i + 1) / 2 == i && (2 * i + 1) % 2 == 1);
    assert(0 <= b / 16 < 16 && 0 <= b % 16 < 16);
}

/// Different bytes have different hexadecimal texts.
pub proof fn lemma_hex_texts(a: Seq<u8>, b: Seq<u8>)
    requires
        hex_text(a) == hex_text(b),
    ensures
        a == b,
{
    assert(hex_text(a).len() == 2 * a.len() && hex_text(b).len() == 2 * b.len());
    assert forall|i: int| 0 <= i < a.len() implies a[i] == b[i] by {
        lemma_hex_text(a, i);
        lemma_hex_text(b, i);
    }
    assert(a =~= b);
}

/// The number that bytes stand for, the lowest first.
pub open spec fn le_value(bytes: Seq<u8>) -> int
    decreases bytes.len(),
{
    if bytes.len() == 0 {
        0
    } else {
        bytes.first() + 256 * le_value(bytes.drop_first())
    }
}

/// The bytes of a number stand for that number, if it fits in them.
pub proof fn lemma_le_value(n: nat, len: nat)
    requires
        n < le_bound(len),
    ensures
        le_bytes(n, len).len() == len,
        le_value(le_bytes(n, len)) == n,
    decreases len,
{
    if len > 0 {
        let rest = le_bytes(n / 256, (len - 1) as nat);
        assert(n / 256 < le_bound((len - 1) as nat));
        lemma_le_value(n / 256, (len - 1) as nat);
        assert(le_bytes(n, len).drop_first() =~= rest);
        assert(le_bytes(n, len).first() == (n % 256) as u8);
    }
}

/// A number is written in eight bytes, a signed one in four, and a truth value
/// in one.
pub proof fn lemma_bytes_of_numbers(n: nat, s: i32, b: bool)
    requires
        n <= u64::MAX,
    ensures
        number_bytes(n).len() == 8,
        le_value(number_bytes(n)) == n,
        signed_bytes(s).len() == 4,
        s >= 0 ==> le_value(signed_bytes(s)) == s,
        s < 0 ==> le_value(signed_bytes(s)) == s + 0x1_0000_0000,
        flag_bytes(b).len() == 1,
        le_value(flag_bytes(b)) == if b {
            1int
        } else {
            0
        },
{
    reveal_with_fuel(le_bound, 9);
    reveal_with_fuel(le_value, 2);
    lemma_le_value(n, 8);
    lemma_le_value(
        if s < 0 {
            (s + 0x1_0000_0000) as nat
        } else {
            s as nat
        },
        4,
    );
    assert(flag_bytes(b).drop_first() =~= Seq::empty());
}

/// A text is written as UTF-8 with the byte 255 after it, and a list with its
/// length before it.
pub proof fn lemma_bytes_of_texts(s: Seq<char>, list: Seq<Seq<char>>)
    ensures
        text_bytes(s).drop_last() == vstd::utf8::encode_utf8(s),
        text_bytes(s).last() == 255,
        list.len() <= u64::MAX ==> le_value(
            list_bytes(list, text_encoder()).take(8),
        ) == list.len(),
        list_bytes(list, text_encoder()).skip(8) == each(list, text_encoder()),
        each(list.push(s), text_encoder()) == each(list, text_encoder()) + text_bytes(s),
{
    assert(text_bytes(s).drop_last() =~= vstd::utf8::encode_utf8(s));
    reveal_with_fuel(le_bytes, 9);
    let front = number_bytes(list.len());
    assert(front.len() == 8);
    let all = list_bytes(list, text_encoder());
    assert(all.take(8) =~= front);
    assert(all.skip(8) =~= each(list, text_encoder()));
    if list.len() <= u64::MAX {
        lemma_bytes_of_numbers(list.len(), 0, true);
    }
    assert(list.push(s).drop_last() =~= list);
}

} // verus!
