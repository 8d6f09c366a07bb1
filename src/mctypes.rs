//! Primitive protocol types: VarInt, strings, booleans, UUIDs,
//! packed block positions, structured blobs and item slots.
use vstd::prelude::*;
use vstd::string::StringSliceAdditionalSpecFns;

verus! {

/// The maximum size, in bytes, of a VarInt.
pub const MAX_VAR_INT_SIZE: usize = 5;

/// The maximum length, in bytes, of a decoded string.
pub const MAX_STRING_LEN: usize = 65536;

/// An error which occurred when reading a protocol type.
#[derive(Debug, PartialEq, Eq, Structural)]
pub enum McTypeError {
    /// A VarInt would need more than five bytes; holds the size it would have.
    VarIntTooBig(usize),
    /// A string's prefixed length exceeds the maximum; holds both.
    StringTooLong(usize, usize),
    /// The input ended before the value was complete.
    NotEnoughBytes,
    /// The structured-data reader rejected the blob.
    Nbt,
    /// A boolean byte other than 0 or 1.
    InvalidBoolean(u8),
    /// An item id that names no known item type.
    InvalidItemId(i32),
    /// An entity metadata entry with a type tag outside the known ones.
    UnknownMetadataType(i32),
    /// An entity metadata entry of a known kind whose payload has no
    /// defined form here (structured blob or particle).
    UnsupportedMetadataType(i32),
    /// A direction value outside the six directions.
    InvalidDirection(i32),
    /// A packet frame with a negative length.
    NegativeLength(i32),
}

/// A consumable cursor over a byte buffer.
pub struct ByteReader {
    data: Vec<u8>,
    pos: usize,
}

impl View for ByteReader {
    type V = Seq<u8>;

    /// The bytes that are still to be read.
    closed spec fn view(&self) -> Seq<u8> {
        self.data@.subrange(self.pos as int, self.data@.len() as int)
    }
}

impl ByteReader {
    /// The whole buffer, read and unread.
    pub closed spec fn buffer(&self) -> Seq<u8> {
        self.data@
    }

    /// The position lies within the buffer.
    pub closed spec fn wf(&self) -> bool {
        self.pos <= self.data@.len()
    }

    /// A reader positioned at the start of `data`.
    pub fn new(data: Vec<u8>) -> (r: ByteReader)
        ensures
            r.wf(),
            r@ == data@,
    {
        let r = ByteReader { data, pos: 0 };
        assert(r@ =~= r.data@);
        r
    }

    /// The number of bytes that are still to be read.
    pub fn remaining(&self) -> (r: usize)
        requires
            self.wf(),
        ensures
            r == self@.len(),
    {
        self.data.len() - self.pos
    }

    /// Reads one byte.
    pub fn try_get_u8(&mut self) -> (r: Result<u8, McTypeError>)
        requires
            old(self).wf(),
        ensures
            final(self).wf(),
            final(self).buffer() == old(self).buffer(),
            is_rest_of(old(self)@, final(self)@),
            old(self)@.len() == 0 ==> r == Err::<u8, McTypeError>(McTypeError::NotEnoughBytes)
                && final(self)@ == old(self)@,
            old(self)@.len() > 0 ==> r == Ok::<u8, McTypeError>(old(self)@[0])
                && final(self)@ == old(self)@.drop_first(),
    {
        if self.pos < self.data.len() {
            let b = self.data[self.pos];
            self.pos = self.pos + 1;
            assert(self@ =~= old(self)@.drop_first());
            assert(self@ =~= old(self)@.skip(old(self)@.len() - self@.len()));
            Ok(b)
        } else {
            assert(self@ =~= self@.skip(0));
            Err(McTypeError::NotEnoughBytes)
        }
    }
}

/// The two's-complement bit pattern of a 32-bit signed value, as a number.
pub open spec fn u32_of_i32(x: i32) -> nat {
    if x >= 0 {
        x as nat
    } else {
        (x + 0x1_0000_0000) as nat
    }
}

/// The 32-bit signed value whose bit pattern is `v` (taken modulo 2^32).
pub open spec fn i32_of_bits(v: nat) -> i32 {
    let w = v % 0x1_0000_0000;
    if w < 0x8000_0000 {
        w as i32
    } else {
        (w - 0x1_0000_0000) as i32
    }
}

/// The VarInt encoding of the unsigned number `v`: seven bits per byte,
/// low group first, high bit set on every byte but the last.
pub open spec fn varint_bytes(v: nat) -> Seq<u8>
    decreases v,
{
    if v < 128 {
        seq![v as u8]
    } else {
        seq![(v % 128 + 128) as u8] + varint_bytes(v / 128)
    }
}

/// The VarInt encoding of a 32-bit signed value.
pub open spec fn spec_varint(x: i32) -> Seq<u8> {
    varint_bytes(u32_of_i32(x))
}

/// Reads a VarInt from the front of `s`, with at most `budget` bytes;
/// on success gives the unsigned value and the number of bytes read.
pub open spec fn parse_varint_from(s: Seq<u8>, budget: nat) -> Result<(nat, nat), McTypeError>
    decreases budget,
{
    if s.len() == 0 {
        Err(McTypeError::NotEnoughBytes)
    } else if s[0] < 128 {
        Ok((s[0] as nat, 1))
    } else if budget <= 1 {
        Err(McTypeError::VarIntTooBig(6))
    } else {
        match parse_varint_from(s.drop_first(), (budget - 1) as nat) {
            Ok((v, n)) => Ok((((s[0] - 128) + 128 * v) as nat, n + 1)),
            Err(e) => Err(e),
        }
    }
}

proof fn lemma_parse_varint_len(s: Seq<u8>, budget: nat)
    ensures
        parse_varint_from(s, budget) matches Ok((_, n)) ==> 1 <= n <= s.len(),
    decreases budget,
{
    if s.len() > 0 && s[0] >= 128 && budget > 1 {
        lemma_parse_varint_len(s.drop_first(), (budget - 1) as nat);
    }
}

/// How many bytes a failed VarInt read takes: all of a short input, else
/// the five bytes of a too-long encoding.
pub open spec fn varint_err_taken(s: Seq<u8>) -> int {
    if s.len() < 5 {
        s.len() as int
    } else {
        5
    }
}

/// `b` is what is left of `a` after some bytes at its front were read.
pub open spec fn is_rest_of(a: Seq<u8>, b: Seq<u8>) -> bool {
    b.len() <= a.len() && b == a.skip(a.len() - b.len())
}

/// What is left after what is left is left of the whole.
pub proof fn lemma_rest_trans(a: Seq<u8>, b: Seq<u8>, c: Seq<u8>)
    requires
        is_rest_of(a, b),
        is_rest_of(b, c),
    ensures
        is_rest_of(a, c),
{
    assert(c =~= a.skip(a.len() - c.len()));
}

/// Reads a VarInt from the front of `s`: its value and the number of bytes.
pub open spec fn parse_varint(s: Seq<u8>) -> Result<(i32, nat), McTypeError> {
    match parse_varint_from(s, 5) {
        Ok((v, n)) => Ok((i32_of_bits(v), n)),
        Err(e) => Err(e),
    }
}

/// 128 to the power `k`.
pub open spec fn pow128(k: nat) -> nat
    decreases k,
{
    if k == 0 {
        1
    } else {
        128 * pow128((k - 1) as nat)
    }
}

proof fn lemma_parse_varint_bytes(v: nat, rest: Seq<u8>, budget: nat)
    requires
        varint_bytes(v).len() <= budget,
    ensures
        parse_varint_from(varint_bytes(v) + rest, budget) == Ok::<(nat, nat), McTypeError>(
            (v, varint_bytes(v).len()),
        ),
    decreases v,
{
    let s = varint_bytes(v) + rest;
    if v < 128 {
        assert(s[0] == v as u8);
    } else {
        let tail = varint_bytes(v / 128);
        assert(s[0] == (v % 128 + 128) as u8);
        assert(s.drop_first() =~= tail + rest);
        lemma_parse_varint_bytes(v / 128, rest, (budget - 1) as nat);
    }
}

/// Decoding the encoding of any 32-bit value gives that value back and
/// consumes exactly the encoding, whatever bytes follow it.
pub proof fn lemma_varint_round_trip(x: i32, rest: Seq<u8>)
    ensures
        parse_varint(spec_varint(x) + rest) == Ok::<(i32, nat), McTypeError>(
            (x, spec_varint(x).len()),
        ),
        1 <= spec_varint(x).len() <= 5,
{
    let v = u32_of_i32(x);
    lemma_varint_needed(x);
    lemma_parse_varint_bytes(v, rest, 5);
}

/// Appends the VarInt encoding of `x` to `buf`; returns the number of bytes
/// written.
pub fn put_var_int(buf: &mut Vec<u8>, x: i32) -> (r: usize)
    ensures
        final(buf)@ == old(buf)@ + spec_varint(x),
        r == spec_varint(x).len(),
        r == varint_needed_bytes_spec(x),
{
    let mut v: u32 = if x >= 0 {
        x as u32
    } else {
        ((x + 0x7FFF_FFFF + 1) as u32) + 0x8000_0000
    };
    let mut count: usize = 1;
    proof {
        lemma_varint_round_trip(x, Seq::empty());
        lemma_varint_needed(x);
    }
    while v >= 128
        invariant
            buf@ + varint_bytes(v as nat) == old(buf)@ + spec_varint(x),
            count + varint_bytes(v as nat).len() == spec_varint(x).len() + 1,
            spec_varint(x).len() <= 5,
        decreases v,
    {
        let b: u8 = (v % 128 + 128) as u8;
        proof {
            assert(varint_bytes(v as nat) == seq![b] + varint_bytes((v / 128) as nat));
            assert(buf@.push(b) + varint_bytes((v / 128) as nat) =~= buf@ + varint_bytes(v as nat));
        }
        buf.push(b);
        v = v / 128;
        count = count + 1;
    }
    proof {
        assert(varint_bytes(v as nat) == seq![v as u8]);
        assert(buf@.push(v as u8) =~= buf@ + varint_bytes(v as nat));
    }
    buf.push(v as u8);
    count
}

impl ByteReader {
    /// Reads a VarInt of at most five bytes.
    pub fn try_get_var_int(&mut self) -> (r: Result<i32, McTypeError>)
        requires
            old(self).wf(),
        ensures
            final(self).wf(),
            final(self).buffer() == old(self).buffer(),
            is_rest_of(old(self)@, final(self)@),
            match parse_varint(old(self)@) {
                Ok((v, n)) => r == Ok::<i32, McTypeError>(v) && final(self)@ == old(self)@.skip(
                    n as int,
                ),
                Err(e) => r == Err::<i32, McTypeError>(e) && final(self)@ == old(self)@.skip(
                    varint_err_taken(old(self)@),
                ),
            },
    {
        let ghost s0 = self@;
        let mut acc: u64 = 0;
        let mut mul: u64 = 1;
        let mut k: usize = 0;
        assert(s0.skip(0) =~= s0);
        loop
            invariant
                self.wf(),
                k < 5,
                k <= s0.len(),
                s0 == old(self)@,
                self.buffer() == old(self).buffer(),
                self@ == s0.skip(k as int),
                mul == pow128(k as nat),
                mul <= 0x1000_0000,
                acc < mul,
                match parse_varint_from(s0.skip(k as int), (5 - k) as nat) {
                    Ok((v, n)) => parse_varint_from(s0, 5) == Ok::<(nat, nat), McTypeError>(
                        ((acc + mul * v) as nat, (n + k) as nat),
                    ),
                    Err(e) => parse_varint_from(s0, 5) == Err::<(nat, nat), McTypeError>(e),
                },
            decreases 5 - k,
        {
            let ghost cur = self@;
            let b = match self.try_get_u8() {
                Ok(b) => b,
                Err(e) => {
                    assert(parse_varint_from(cur, (5 - k) as nat) == Err::<(nat, nat), McTypeError>(
                        McTypeError::NotEnoughBytes,
                    ));
                    assert(parse_varint_from(s0, 5) == Err::<(nat, nat), McTypeError>(
                        McTypeError::NotEnoughBytes,
                    ));
                    assert(parse_varint(s0) == Err::<(i32, nat), McTypeError>(
                        McTypeError::NotEnoughBytes,
                    ));
                    return Err(e);
                },
            };
            assert(cur.drop_first() =~= s0.skip(k + 1));
            proof {
                reveal_with_fuel(pow128, 5);
            }
            if b < 128 {
                let ghost total = acc + mul * b;
                assert(acc + mul * b < 0x8_0000_0000 && acc + mul * b < mul * 128) by (nonlinear_arith)
                    requires acc < mul, b < 128, mul <= 0x1000_0000, 
                { }
                acc = acc + mul * (b as u64);
                let w: u64 = acc % 0x1_0000_0000;
                return if w < 0x8000_0000 {
                    Ok(w as i32)
                } else {
                    Ok(((w - 0x8000_0000) as i32) - 0x7FFF_FFFF - 1)
                };
            }
            if k == 4 {
                assert(parse_varint_from(cur, (5 - k) as nat) == Err::<(nat, nat), McTypeError>(
                    McTypeError::VarIntTooBig(6),
                ));
                assert(parse_varint(s0) == Err::<(i32, nat), McTypeError>(
                    McTypeError::VarIntTooBig(6),
                ));
                return Err(McTypeError::VarIntTooBig(6));
            }
            proof {
                reveal_with_fuel(pow128, 5);
                assert(mul <= 0x20_0000);
            }
            assert(acc + mul * (b - 128) < mul * 128) by (nonlinear_arith)
                requires
                    acc < mul,
                    b >= 128,
                    b < 256,
            ;
            proof {
                let ghost nxt = s0.skip(k + 1);
                assert(cur[0] == b);
                match parse_varint_from(nxt, (4 - k) as nat) {
                    Ok((v, n)) => {
                        assert(parse_varint_from(cur, (5 - k) as nat) == Ok::<(nat, nat), McTypeError>(
                            (((b - 128) + 128 * v) as nat, n + 1),
                        ));
                        assert(acc + mul * ((b - 128) + 128 * v) == (acc + mul * (b - 128)) + (mul * 128) * v)
                            by (nonlinear_arith);
                    },
                    Err(e) => {
                        assert(parse_varint_from(cur, (5 - k) as nat) == Err::<(nat, nat), McTypeError>(e));
                    },
                }
            }
            acc = acc + mul * ((b - 128) as u64);
            mul = mul * 128;
            k = k + 1;
        }
    }
}

/// The number of bytes that the VarInt encoding of `x` takes.
pub open spec fn varint_needed_bytes_spec(x: i32) -> nat {
    let v = u32_of_i32(x);
    if v < 0x80 {
        1
    } else if v < 0x4000 {
        2
    } else if v < 0x20_0000 {
        3
    } else if v < 0x1000_0000 {
        4
    } else {
        5
    }
}

/// The number of bits up to and including the highest set bit of `v`.
pub open spec fn bit_length(v: nat) -> nat
    decreases v,
{
    if v == 0 {
        0
    } else {
        1 + bit_length(v / 2)
    }
}

/// One byte for each started group of seven bits of the two's-complement
/// pattern, and at least one.
pub open spec fn bytes_for_bits(x: i32) -> nat {
    let b = bit_length(u32_of_i32(x));
    if b == 0 {
        1
    } else {
        (b + 6) / 7
    }
}

/// 2 to the power `n`.
pub open spec fn pow2(n: nat) -> nat
    decreases n,
{
    if n == 0 {
        1
    } else {
        2 * pow2((n - 1) as nat)
    }
}

proof fn lemma_pow2_pos(n: nat)
    ensures
        pow2(n) > 0,
    decreases n,
{
    if n > 0 {
        lemma_pow2_pos((n - 1) as nat);
    }
}

proof fn lemma_bit_length_bound(v: nat, n: nat)
    ensures
        v < pow2(n) <==> bit_length(v) <= n,
    decreases v,
{
    if v > 0 {
        if n > 0 {
            lemma_bit_length_bound(v / 2, (n - 1) as nat);
            let p = pow2((n - 1) as nat);
            assert(pow2(n) == 2 * p);
            assert(v < 2 * p <==> v / 2 < p);
        } else {
            assert(pow2(0) == 1);
        }
    } else {
        lemma_pow2_pos(n);
    }
}

proof fn lemma_bytes_for_bits(x: i32)
    ensures
        bytes_for_bits(x) == varint_needed_bytes_spec(x),
{
    let v = u32_of_i32(x);
    reveal_with_fuel(pow2, 33);
    lemma_bit_length_bound(v, 7);
    lemma_bit_length_bound(v, 14);
    lemma_bit_length_bound(v, 21);
    lemma_bit_length_bound(v, 28);
    lemma_bit_length_bound(v, 32);
    lemma_bit_length_bound(v, 0);
}

proof fn lemma_varint_needed(x: i32)
    ensures
        spec_varint(x).len() == varint_needed_bytes_spec(x),
{
    let v = u32_of_i32(x);
    reveal_with_fuel(varint_bytes, 6);
    assert(v < 0x1_0000_0000);
}

/// Returns the number of bytes which will be needed to write a given VarInt:
/// one for each started group of seven bits up to the highest set bit, and
/// at least one.
pub fn varint_needed_bytes(x: i32) -> (r: usize)
    ensures
        r == varint_needed_bytes_spec(x),
        r == spec_varint(x).len(),
        r == bytes_for_bits(x),
{
    proof {
        lemma_varint_needed(x);
        lemma_bytes_for_bits(x);
    }
    if x < 0 {
        5
    } else if x < 0x80 {
        1
    } else if x < 0x4000 {
        2
    } else if x < 0x20_0000 {
        3
    } else if x < 0x1000_0000 {
        4
    } else {
        5
    }
}


/// 256 to the power `k`.
pub open spec fn pow256(k: nat) -> nat
    decreases k,
{
    if k == 0 {
        1
    } else {
        256 * pow256((k - 1) as nat)
    }
}

/// The low `n` bytes of `w`, most significant first.
pub open spec fn be_bytes(w: nat, n: nat) -> Seq<u8>
    decreases n,
{
    if n == 0 {
        Seq::empty()
    } else {
        be_bytes(w / 256, (n - 1) as nat).push((w % 256) as u8)
    }
}

/// The number whose big-endian bytes are `s`.
pub open spec fn be_value(s: Seq<u8>) -> nat
    decreases s.len(),
{
    if s.len() == 0 {
        0
    } else {
        be_value(s.drop_last()) * 256 + s.last() as nat
    }
}

/// `be_bytes(w, n)` has `n` bytes.
pub proof fn lemma_be_bytes_len(w: nat, n: nat)
    ensures
        be_bytes(w, n).len() == n,
    decreases n,
{
    if n > 0 {
        lemma_be_bytes_len(w / 256, (n - 1) as nat);
    }
}

proof fn lemma_be_value_bound(s: Seq<u8>)
    ensures
        be_value(s) < pow256(s.len()),
    decreases s.len(),
{
    if s.len() > 0 {
        lemma_be_value_bound(s.drop_last());
        let a = be_value(s.drop_last());
        let p = pow256((s.len() - 1) as nat);
        let b = s.last() as nat;
        assert(a * 256 + b < 256 * p) by (nonlinear_arith)
            requires
                a < p,
                b < 256,
        ;
    }
}

/// Reading back `n` big-endian bytes gives the number modulo 256^n.
pub proof fn lemma_be_round_trip(w: nat, n: nat)
    ensures
        be_value(be_bytes(w, n)) == w % pow256(n),
    decreases n,
{
    if n == 0 {
    } else {
        let m = (n - 1) as nat;
        lemma_be_round_trip(w / 256, m);
        let s = be_bytes(w, n);
        assert(s.drop_last() =~= be_bytes(w / 256, m));
        let p = pow256(m);
        lemma_pow256_pos(m);
        vstd::arithmetic::div_mod::lemma_breakdown(w as int, 256, p as int);
        assert(256 * p == p * 256) by (nonlinear_arith);
        assert(((w / 256) % p) * 256 == 256 * ((w / 256) % p)) by (nonlinear_arith);
    }
}

proof fn lemma_pow256_pos(n: nat)
    ensures
        pow256(n) > 0,
    decreases n,
{
    if n > 0 {
        lemma_pow256_pos((n - 1) as nat);
    }
}

/// Appends the low `n` bytes of `w`, most significant first.
fn put_be(buf: &mut Vec<u8>, w: u128, n: usize)
    ensures
        final(buf)@ == old(buf)@ + be_bytes(w as nat, n as nat),
    decreases n,
{
    if n > 0 {
        put_be(buf, w / 256, n - 1);
        buf.push((w % 256) as u8);
        assert(buf@ =~= old(buf)@ + be_bytes(w as nat, n as nat));
    }
}

/// Appends `x` as a four-byte big-endian word.
pub fn put_u32_be(buf: &mut Vec<u8>, x: u32)
    ensures
        final(buf)@ == old(buf)@ + be_bytes(x as nat, 4),
{
    put_be(buf, x as u128, 4);
}

impl ByteReader {
    /// Reads a four-byte big-endian word.
    pub fn try_get_u32_be(&mut self) -> (r: Result<u32, McTypeError>)
        requires
            old(self).wf(),
        ensures
            final(self).wf(),
            is_rest_of(old(self)@, final(self)@),
            match parse_be(old(self)@, 4) {
                Ok((v, n)) => r == Ok::<u32, McTypeError>(v as u32) && final(self)@
                    == old(self)@.skip(n as int),
                Err(e) => r == Err::<u32, McTypeError>(e) && final(self)@ == old(self)@,
            },
    {
        let w = self.get_be(4)?;
        proof {
            reveal_with_fuel(pow256, 5);
        }
        Ok(w as u32)
    }

    /// Reads an `n`-byte big-endian number, or fails without consuming
    /// anything where fewer than `n` bytes remain.
    fn get_be(&mut self, n: usize) -> (r: Result<u128, McTypeError>)
        requires
            old(self).wf(),
            n <= 16,
        ensures
            final(self).wf(),
            is_rest_of(old(self)@, final(self)@),
            old(self)@.len() < n ==> r == Err::<u128, McTypeError>(McTypeError::NotEnoughBytes)
                && final(self)@ == old(self)@,
            old(self)@.len() >= n ==> r == Ok::<u128, McTypeError>(
                be_value(old(self)@.take(n as int)) as u128,
            ) && final(self)@ == old(self)@.skip(n as int) && be_value(old(self)@.take(n as int))
                < pow256(n as nat),
    {
        if self.data.len() - self.pos < n {
            assert(self@ =~= self@.skip(0));
            return Err(McTypeError::NotEnoughBytes);
        }
        let ghost s0 = self@;
        proof {
            reveal_with_fuel(pow256, 17);
            lemma_pow256_mono(n as nat, 16);
        }
        let mut acc: u128 = 0;
        let mut i: usize = 0;
        while i < n
            invariant
                self.wf(),
                i <= n,
                n <= 16,
                s0.len() >= n,
                s0 == old(self)@,
                self@ == s0.skip(i as int),
                acc as nat == be_value(s0.take(i as int)),
                pow256(n as nat) <= 0x1_0000_0000_0000_0000_0000_0000_0000_0000,
            decreases n - i,
        {
            let ghost cur = self@;
            let b = match self.try_get_u8() {
                Ok(b) => b,
                Err(_) => {
                    return Err(McTypeError::NotEnoughBytes);
                },
            };
            proof {
                assert(cur.drop_first() =~= s0.skip(i + 1));
                assert(s0.take(i + 1).drop_last() =~= s0.take(i as int));
                lemma_be_value_bound(s0.take(i as int));
                lemma_pow256_mono((i + 1) as nat, n as nat);
                let a = acc as nat;
                let p = pow256(i as nat);
                assert(a * 256 + b < 256 * p) by (nonlinear_arith)
                    requires
                        a < p,
                        b < 256,
                ;
            }
            acc = acc * 256 + b as u128;
            i = i + 1;
        }
        proof {
            lemma_be_value_bound(s0.take(n as int));
            assert(self@ =~= s0.skip(s0.len() - self@.len()));
        }
        Ok(acc)
    }
}

proof fn lemma_pow256_mono(a: nat, b: nat)
    requires
        a <= b,
    ensures
        pow256(a) <= pow256(b),
    decreases b,
{
    if a < b {
        lemma_pow256_mono(a, (b - 1) as nat);
        lemma_pow256_pos((b - 1) as nat);
    }
}


/// Relies on `String::push`: appends one character to the string.
#[verifier::external_body]
fn push_char(s: &mut String, c: char)
    ensures
        final(s)@ == old(s)@.push(c),
{
    s.push(c)
}

/// Each byte taken as the character of the same code point.
pub open spec fn latin1(s: Seq<u8>) -> Seq<char> {
    Seq::new(s.len(), |i: int| s[i] as char)
}

/// Reads a length-prefixed string from the front of `s`: its characters,
/// one for each byte, and the number of bytes read. A negative length is
/// converted to `usize` as a Rust `as` cast does (sign-extended), which puts
/// it over the maximum.
pub open spec fn parse_string(s: Seq<u8>) -> Result<(Seq<char>, nat), McTypeError> {
    match parse_varint(s) {
        Err(e) => Err(e),
        Ok((len, n)) => {
            if len < 0 || len > MAX_STRING_LEN {
                Err(McTypeError::StringTooLong(len as usize, MAX_STRING_LEN))
            } else if s.len() < n + len {
                Err(McTypeError::NotEnoughBytes)
            } else {
                Ok((latin1(s.subrange(n as int, n + len)), n + len as nat))
            }
        },
    }
}

/// The encoding of a string: its byte length as a VarInt, then its bytes.
pub open spec fn spec_string(b: Seq<u8>) -> Seq<u8> {
    spec_varint(b.len() as i32) + b
}

/// Appends a string: its length in bytes as a VarInt, then its UTF-8 bytes.
pub fn put_string(buf: &mut Vec<u8>, x: &str)
    requires
        x.spec_bytes().len() <= i32::MAX,
    ensures
        final(buf)@ == old(buf)@ + spec_string(x.spec_bytes()),
{
    let bytes = x.as_bytes();
    let len = bytes.len();
    put_var_int(buf, len as i32);
    let ghost mid = buf@;
    let mut i: usize = 0;
    while i < len
        invariant
            i <= len,
            len == bytes@.len(),
            buf@ == mid + bytes@.take(i as int),
        decreases len - i,
    {
        buf.push(bytes[i]);
        i = i + 1;
        assert(buf@ =~= mid + bytes@.take(i as int));
    }
    assert(bytes@.take(len as int) =~= bytes@);
}

/// Appends a boolean as one byte, 1 or 0.
pub fn put_bool(buf: &mut Vec<u8>, x: bool)
    ensures
        final(buf)@ == old(buf)@.push(if x { 1u8 } else { 0u8 }),
{
    if x {
        buf.push(1);
    } else {
        buf.push(0);
    }
}

/// Appends a UUID as its 16 bytes, most significant first.
pub fn put_uuid(buf: &mut Vec<u8>, x: u128)
    ensures
        final(buf)@ == old(buf)@ + be_bytes(x as nat, 16),
{
    put_be(buf, x, 16);
}

/// A block position; on the wire x and z take 26 bits and y 12.
#[derive(Clone, Copy, Debug, PartialEq, Eq, Structural)]
pub struct BlockPosition {
    pub x: i32,
    pub y: i32,
    pub z: i32,
}

impl BlockPosition {
    pub fn new(x: i32, y: i32, z: i32) -> (r: BlockPosition)
        ensures
            r == (BlockPosition { x, y, z }),
    {
        BlockPosition { x, y, z }
    }

    /// The coordinates fit the packed form: 26 bits for x and z, 12 for y.
    pub open spec fn in_range(self) -> bool {
        -0x200_0000 <= self.x < 0x200_0000 && -0x800 <= self.y < 0x800 && -0x200_0000 <= self.z
            < 0x200_0000
    }
}

/// The packed 64-bit word of a position: x in the top 26 bits, then y in
/// 12 bits, then z in the low 26 bits, each taken modulo its width.
pub open spec fn pack_position(p: BlockPosition) -> nat {
    ((p.x as int % 0x400_0000) * 0x40_0000_0000 + (p.y as int % 0x1000) * 0x400_0000 + (
    p.z as int % 0x400_0000)) as nat
}

/// A field of `2 * half` values read as a two's-complement number.
pub open spec fn sign_extend(v: int, half: int) -> int {
    if v >= half {
        v - 2 * half
    } else {
        v
    }
}

/// The position that a packed word stands for, each field sign-extended.
pub open spec fn unpack_position(w: nat) -> BlockPosition {
    BlockPosition {
        x: sign_extend(w as int / 0x40_0000_0000, 0x200_0000) as i32,
        y: sign_extend((w as int / 0x400_0000) % 0x1000, 0x800) as i32,
        z: sign_extend(w as int % 0x400_0000, 0x200_0000) as i32,
    }
}

/// `x` modulo `m`, for a power of two `m` up to 2^26.
fn low_bits(x: i32, m: u64) -> (r: u64)
    requires
        m == 0x1000 || m == 0x400_0000,
    ensures
        r == x as int % m as int,
{
    if x >= 0 {
        (x as u64) % m
    } else {
        let u: u64 = (x as i64 + 0x1_0000_0000i64) as u64;
        proof {
            let k: int = if m == 0x1000 { 0x10_0000 } else { 0x40 };
            assert(0x1_0000_0000 == m * k);
            vstd::arithmetic::div_mod::lemma_mod_multiples_vanish(k, x as int, m as int);
        }
        u % m
    }
}

/// Appends a block position as its packed word, big-endian.
pub fn put_block_position(buf: &mut Vec<u8>, x: &BlockPosition)
    ensures
        final(buf)@ == old(buf)@ + be_bytes(pack_position(*x), 8),
{
    let a = low_bits(x.x, 0x400_0000);
    let b = low_bits(x.y, 0x1000);
    let c = low_bits(x.z, 0x400_0000);
    assert(a * 0x40_0000_0000 + b * 0x400_0000 + c < 0x1_0000_0000_0000_0000) by (nonlinear_arith)
        requires
            a < 0x400_0000,
            b < 0x1000,
            c < 0x400_0000,
    ;
    let w: u64 = a * 0x40_0000_0000 + b * 0x400_0000 + c;
    put_be(buf, w as u128, 8);
}

/// A position within range survives packing and unpacking.
pub proof fn lemma_position_round_trip(p: BlockPosition)
    requires
        p.in_range(),
    ensures
        unpack_position(pack_position(p)) == p,
        pack_position(p) < 0x1_0000_0000_0000_0000,
{
    let a = p.x as int % 0x400_0000;
    let b = p.y as int % 0x1000;
    let c = p.z as int % 0x400_0000;
    let w = pack_position(p) as int;
    assert(0 <= a < 0x400_0000 && 0 <= b < 0x1000 && 0 <= c < 0x400_0000);
    assert(w == a * 0x40_0000_0000 + (b * 0x400_0000 + c));
    assert(b * 0x400_0000 + c < 0x40_0000_0000) by (nonlinear_arith)
        requires
            0 <= b < 0x1000,
            0 <= c < 0x400_0000,
    ;
    assert(0 <= b * 0x400_0000 + c) by (nonlinear_arith)
        requires
            0 <= b,
            0 <= c,
    ;
    vstd::arithmetic::div_mod::lemma_fundamental_div_mod_converse(
        w,
        0x40_0000_0000,
        a,
        b * 0x400_0000 + c,
    );
    assert(w == (a * 0x1000 + b) * 0x400_0000 + c) by (nonlinear_arith)
        requires
            w == a * 0x40_0000_0000 + (b * 0x400_0000 + c),
    ;
    assert(0 <= a * 0x1000 + b) by (nonlinear_arith)
        requires
            0 <= a,
            0 <= b,
    ;
    vstd::arithmetic::div_mod::lemma_fundamental_div_mod_converse(
        w,
        0x400_0000,
        a * 0x1000 + b,
        c,
    );
    vstd::arithmetic::div_mod::lemma_fundamental_div_mod_converse(a * 0x1000 + b, 0x1000, a, b);
    assert(w < 0x1_0000_0000_0000_0000) by (nonlinear_arith)
        requires
            w == a * 0x40_0000_0000 + (b * 0x400_0000 + c),
            0 <= a < 0x400_0000,
            b * 0x400_0000 + c < 0x40_0000_0000,
    ;
}

/// Reads one byte as a boolean: 0 is false, 1 is true.
pub open spec fn parse_bool(s: Seq<u8>) -> Result<(bool, nat), McTypeError> {
    if s.len() == 0 {
        Err(McTypeError::NotEnoughBytes)
    } else if s[0] == 0 {
        Ok((false, 1))
    } else if s[0] == 1 {
        Ok((true, 1))
    } else {
        Err(McTypeError::InvalidBoolean(s[0]))
    }
}

/// Reads a fixed-width big-endian number of `n` bytes.
pub open spec fn parse_be(s: Seq<u8>, n: nat) -> Result<(nat, nat), McTypeError> {
    if s.len() < n {
        Err(McTypeError::NotEnoughBytes)
    } else {
        Ok((be_value(s.take(n as int)), n))
    }
}

/// Reads a packed block position.
pub open spec fn parse_block_position(s: Seq<u8>) -> Result<(BlockPosition, nat), McTypeError> {
    match parse_be(s, 8) {
        Ok((w, n)) => Ok((unpack_position(w), n)),
        Err(e) => Err(e),
    }
}

impl ByteReader {
    /// Reads a length-prefixed string, each byte taken as one character.
    pub fn try_get_string(&mut self) -> (r: Result<String, McTypeError>)
        requires
            old(self).wf(),
        ensures
            final(self).wf(),
            is_rest_of(old(self)@, final(self)@),
            match parse_string(old(self)@) {
                Ok((v, n)) => r matches Ok(t) && t@ == v && final(self)@ == old(self)@.skip(n as int),
                Err(e) => r == Err::<String, McTypeError>(e),
            },
            r is Err ==> match parse_varint(old(self)@) {
                Ok((_, n)) => final(self)@ == old(self)@.skip(n as int),
                Err(_) => final(self)@ == old(self)@.skip(varint_err_taken(old(self)@)),
            },
    {
        let ghost s0 = self@;
        let len = self.try_get_var_int()?;
        let ghost n0: int = match parse_varint(s0) {
            Ok((_, n)) => n as int,
            Err(_) => 0,
        };
        proof {
            lemma_parse_varint_len(s0, 5);
        }
        if len < 0 || len > 65536 {
            return Err(McTypeError::StringTooLong(len as usize, MAX_STRING_LEN));
        }
        let len = len as usize;
        if self.data.len() - self.pos < len {
            assert(self@ == s0.skip(n0));
            assert(n0 <= s0.len());
            assert(self@.len() == self.data.len() - self.pos);
            assert(s0.len() < n0 + len);
            return Err(McTypeError::NotEnoughBytes);
        }
        let ghost s1 = self@;
        let mut result = String::new();
        let mut i: usize = 0;
        while i < len
            invariant
                self.wf(),
                i <= len,
                s1.len() >= len,
                self@ == s1.skip(i as int),
                result@ == latin1(s1.take(i as int)),
            decreases len - i,
        {
            let ghost cur = self@;
            let b = match self.try_get_u8() {
                Ok(b) => b,
                Err(e) => {
                    return Err(e);
                },
            };
            proof {
                assert(cur.drop_first() =~= s1.skip(i + 1));
            }
            push_char(&mut result, b as char);
            i = i + 1;
            assert(result@ =~= latin1(s1.take(i as int)));
        }
        assert(s1 =~= s0.skip(n0));
        assert(s1.take(len as int) =~= s0.subrange(n0, n0 + len));
        assert(self@ =~= s0.skip(n0 + len));
        Ok(result)
    }

    /// Reads a boolean byte.
    pub fn try_get_bool(&mut self) -> (r: Result<bool, McTypeError>)
        requires
            old(self).wf(),
        ensures
            final(self).wf(),
            is_rest_of(old(self)@, final(self)@),
            match parse_bool(old(self)@) {
                Ok((v, n)) => r == Ok::<bool, McTypeError>(v) && final(self)@ == old(self)@.skip(
                    n as int,
                ),
                Err(e) => r == Err::<bool, McTypeError>(e) && final(self)@ == old(self)@.skip(
                    if old(self)@.len() == 0 { 0int } else { 1int },
                ),
            },
    {
        let ghost s0 = self@;
        let b = self.try_get_u8()?;
        assert(s0.drop_first() =~= s0.skip(1));
        if b == 0 {
            Ok(false)
        } else if b == 1 {
            Ok(true)
        } else {
            Err(McTypeError::InvalidBoolean(b))
        }
    }

    /// Reads a UUID from 16 raw bytes, most significant first.
    pub fn try_get_uuid(&mut self) -> (r: Result<u128, McTypeError>)
        requires
            old(self).wf(),
        ensures
            final(self).wf(),
            is_rest_of(old(self)@, final(self)@),
            match parse_be(old(self)@, 16) {
                Ok((v, n)) => r == Ok::<u128, McTypeError>(v as u128) && final(self)@
                    == old(self)@.skip(n as int),
                Err(e) => r == Err::<u128, McTypeError>(e) && final(self)@ == old(self)@,
            },
    {
        self.get_be(16)
    }

    /// Reads a packed block position, sign-extending each coordinate.
    pub fn try_get_block_position(&mut self) -> (r: Result<BlockPosition, McTypeError>)
        requires
            old(self).wf(),
        ensures
            final(self).wf(),
            is_rest_of(old(self)@, final(self)@),
            match parse_block_position(old(self)@) {
                Ok((v, n)) => r == Ok::<BlockPosition, McTypeError>(v) && final(self)@
                    == old(self)@.skip(n as int),
                Err(e) => r == Err::<BlockPosition, McTypeError>(e) && final(self)@ == old(self)@,
            },
    {
        let w = self.get_be(8)?;
        proof {
            reveal_with_fuel(pow256, 9);
        }
        let w = w as u64;
        let xr: u64 = w / 0x40_0000_0000;
        let yr: u64 = (w / 0x400_0000) % 0x1000;
        let zr: u64 = w % 0x400_0000;
        let x: i32 = if xr >= 0x200_0000 { (xr as i32) - 0x400_0000 } else { xr as i32 };
        let y: i32 = if yr >= 0x800 { (yr as i32) - 0x1000 } else { yr as i32 };
        let z: i32 = if zr >= 0x200_0000 { (zr as i32) - 0x400_0000 } else { zr as i32 };
        Ok(BlockPosition { x, y, z })
    }
}


#[verifier::external_type_specification]
#[verifier::external_body]
pub struct ExBlob(nbt::Blob);

#[verifier::external_type_specification]
#[verifier::external_body]
pub struct ExNbtError(nbt::Error);

/// The deepest nesting of lists and compounds that a blob may have.
pub const NBT_MAX_DEPTH: usize = 512;

/// The unsigned big-endian number in the `n` bytes of `s` from `pos`.
pub open spec fn be_at(s: Seq<u8>, pos: nat, n: nat) -> nat {
    be_value(s.subrange(pos as int, (pos + n) as int))
}

/// Where the payload of a tag of type `tag` that starts at `pos` ends, if
/// it is complete within `s`, no array or list length is negative, and lists
/// and compounds nest at most `depth` deep.
pub open spec fn nbt_payload_end(s: Seq<u8>, pos: nat, tag: u8, depth: nat) -> Option<nat>
    decreases depth, 0nat, 0nat,
{
    let fixed = |n: nat| if pos + n <= s.len() { Some(pos + n) } else { None::<nat> };
    if tag == 1 {
        fixed(1)
    } else if tag == 2 {
        fixed(2)
    } else if tag == 3 || tag == 5 {
        fixed(4)
    } else if tag == 4 || tag == 6 {
        fixed(8)
    } else if tag == 7 || tag == 11 || tag == 12 {
        let width: nat = if tag == 7 { 1 } else if tag == 11 { 4 } else { 8 };
        if pos + 4 > s.len() || be_at(s, pos, 4) >= 0x8000_0000 {
            None
        } else {
            fixed(4 + width * be_at(s, pos, 4))
        }
    } else if tag == 8 {
        if pos + 2 > s.len() {
            None
        } else {
            fixed(2 + be_at(s, pos, 2))
        }
    } else if tag == 9 {
        if depth == 0 || pos + 5 > s.len() || be_at(s, pos + 1, 4) >= 0x8000_0000 {
            None
        } else {
            nbt_list_end(s, pos + 5, s[pos as int], be_at(s, pos + 1, 4), (depth - 1) as nat)
        }
    } else if tag == 10 {
        if depth == 0 {
            None
        } else {
            nbt_compound_end(s, pos, (depth - 1) as nat)
        }
    } else {
        None
    }
}

/// Where `count` payloads of type `tag` from `pos` end.
pub open spec fn nbt_list_end(s: Seq<u8>, pos: nat, tag: u8, count: nat, depth: nat) -> Option<nat>
    decreases depth, 1nat, count,
{
    if count == 0 {
        Some(pos)
    } else {
        match nbt_payload_end(s, pos, tag, depth) {
            Some(p) => nbt_list_end(s, p, tag, (count - 1) as nat, depth),
            None => None,
        }
    }
}

/// Where the named tags from `pos`, closed by an end tag, end.
pub open spec fn nbt_compound_end(s: Seq<u8>, pos: nat, depth: nat) -> Option<nat>
    decreases depth, 1nat, s.len() - pos,
{
    if pos >= s.len() {
        None
    } else if s[pos as int] == 0 {
        Some(pos + 1)
    } else if pos + 3 > s.len() {
        None
    } else {
        let start = pos + 3 + be_at(s, pos + 1, 2);
        match nbt_payload_end(s, start, s[pos as int], depth) {
            Some(p) => if pos < p <= s.len() {
                nbt_compound_end(s, p, depth)
            } else {
                None
            },
            None => None,
        }
    }
}

proof fn lemma_payload_past_end(s: Seq<u8>, pos: nat, tag: u8, depth: nat)
    requires
        pos > s.len(),
    ensures
        nbt_payload_end(s, pos, tag, depth) is None,
{
    if tag == 10 && depth > 0 {
        assert(nbt_compound_end(s, pos, (depth - 1) as nat) is None);
    }
}

/// Where a blob from `pos` ends: a compound tag with its name, then its
/// content, when all of it is well formed in the sense above.
pub open spec fn nbt_blob_end(s: Seq<u8>, pos: nat) -> Option<nat> {
    if pos + 3 > s.len() || s[pos as int] != 0x0a {
        None
    } else {
        let start = pos + 3 + be_at(s, pos + 1, 2);
        if start > s.len() {
            None
        } else {
            nbt_compound_end(s, start, NBT_MAX_DEPTH as nat)
        }
    }
}

/// Reads the `n`-byte big-endian number at `pos`.
fn be_at_exec(data: &Vec<u8>, pos: usize, n: usize) -> (r: u64)
    requires
        n <= 4,
        pos + n <= data@.len(),
    ensures
        r == be_at(data@, pos as nat, n as nat),
{
    let mut acc: u64 = 0;
    let mut i: usize = 0;
    let dl = data.len();
    while i < n
        invariant
            i <= n,
            n <= 4,
            dl == data@.len(),
            pos + n <= data@.len(),
            acc as nat == be_value(data@.subrange(pos as int, pos + i)),
            acc < pow256(i as nat),
        decreases n - i,
    {
        proof {
            reveal_with_fuel(pow256, 5);
            assert(data@.subrange(pos as int, pos + i + 1).drop_last() =~= data@.subrange(
                pos as int,
                pos + i,
            ));
            lemma_pow256_mono(i as nat, 3);
            let a = acc as nat;
            let p = pow256(i as nat);
            let b = data@[pos + i] as nat;
            assert(a * 256 + b < 256 * p) by (nonlinear_arith)
                requires
                    a < p,
                    b < 256,
            ;
        }
        acc = acc * 256 + data[pos + i] as u64;
        i = i + 1;
    }
    acc
}

fn nbt_payload_end_exec(data: &Vec<u8>, pos: usize, tag: u8, depth: usize) -> (r: Option<usize>)
    requires
        pos <= data@.len(),
    ensures
        r matches Some(p) ==> p <= data@.len(),
        nbt_payload_end(data@, pos as nat, tag, depth as nat) == match r {
            Some(p) => Some(p as nat),
            None => None::<nat>,
        },
    decreases depth, 0nat, 0nat,
{
    let len = data.len();
    let room = len - pos;
    if tag == 1 || tag == 2 || tag == 3 || tag == 4 || tag == 5 || tag == 6 {
        let n: usize = if tag == 1 {
            1
        } else if tag == 2 {
            2
        } else if tag == 3 || tag == 5 {
            4
        } else {
            8
        };
        if n <= room {
            Some(pos + n)
        } else {
            None
        }
    } else if tag == 7 || tag == 11 || tag == 12 {
        if room < 4 {
            return None;
        }
        let count = be_at_exec(data, pos, 4);
        if count >= 0x8000_0000 {
            return None;
        }
        let width: u64 = if tag == 7 {
            1
        } else if tag == 11 {
            4
        } else {
            8
        };
        let cap: u64 = ((room - 4) as u64) / width;
        if count <= cap {
            proof {
                let rm: int = room - 4;
                assert(width * count <= rm) by (nonlinear_arith)
                    requires
                        count <= cap,
                        cap == rm / (width as int),
                        width > 0,
                        rm >= 0,
                ;
            }
            Some(pos + 4 + (width * count) as usize)
        } else {
            proof {
                let rm: int = room - 4;
                assert(width * count > rm) by (nonlinear_arith)
                    requires
                        count > cap,
                        cap == rm / (width as int),
                        width > 0,
                        rm >= 0,
                ;
            }
            None
        }
    } else if tag == 8 {
        if room < 2 {
            return None;
        }
        let n = be_at_exec(data, pos, 2);
        if n <= (room - 2) as u64 {
            Some(pos + 2 + n as usize)
        } else {
            None
        }
    } else if tag == 9 {
        if depth == 0 || room < 5 {
            return None;
        }
        let count = be_at_exec(data, pos + 1, 4);
        if count >= 0x8000_0000 {
            return None;
        }
        nbt_list_end_exec(data, pos + 5, data[pos], count, depth - 1)
    } else if tag == 10 {
        if depth == 0 {
            return None;
        }
        nbt_compound_end_exec(data, pos, depth - 1)
    } else {
        None
    }
}

fn nbt_list_end_exec(data: &Vec<u8>, pos: usize, tag: u8, count: u64, depth: usize) -> (r: Option<usize>)
    requires
        pos <= data@.len(),
    ensures
        r matches Some(p) ==> p <= data@.len(),
        nbt_list_end(data@, pos as nat, tag, count as nat, depth as nat) == match r {
            Some(p) => Some(p as nat),
            None => None::<nat>,
        },
    decreases depth, 1nat, count,
{
    if count == 0 {
        Some(pos)
    } else {
        match nbt_payload_end_exec(data, pos, tag, depth) {
            Some(p) => nbt_list_end_exec(data, p, tag, count - 1, depth),
            None => None,
        }
    }
}

fn nbt_compound_end_exec(data: &Vec<u8>, pos: usize, depth: usize) -> (r: Option<usize>)
    requires
        pos <= data@.len(),
    ensures
        r matches Some(p) ==> p <= data@.len(),
        nbt_compound_end(data@, pos as nat, depth as nat) == match r {
            Some(p) => Some(p as nat),
            None => None::<nat>,
        },
    decreases depth, 1nat, data@.len() - pos,
{
    let len = data.len();
    if pos >= len {
        return None;
    }
    if data[pos] == 0 {
        return Some(pos + 1);
    }
    if len - pos < 3 {
        return None;
    }
    let nlen = be_at_exec(data, pos + 1, 2);
    if nlen > (len - pos - 3) as u64 {
        proof {
            lemma_payload_past_end(data@, (pos + 3 + nlen) as nat, data@[pos as int], depth as nat);
        }
        return None;
    }
    let start = pos + 3 + nlen as usize;
    match nbt_payload_end_exec(data, start, data[pos], depth) {
        Some(p) => if pos < p {
            nbt_compound_end_exec(data, p, depth)
        } else {
            None
        },
        None => None,
    }
}

/// Where a well-formed blob that starts at `pos` ends, if it is one.
pub fn nbt_blob_end_exec(data: &Vec<u8>, pos: usize) -> (r: Option<usize>)
    requires
        pos <= data@.len(),
    ensures
        r matches Some(p) ==> p <= data@.len(),
        nbt_blob_end(data@, pos as nat) == match r {
            Some(p) => Some(p as nat),
            None => None::<nat>,
        },
{
    let len = data.len();
    if len - pos < 3 || data[pos] != 0x0a {
        return None;
    }
    let nlen = be_at_exec(data, pos + 1, 2);
    if nlen > (len - pos - 3) as u64 {
        return None;
    }
    nbt_compound_end_exec(data, pos + 3 + nlen as usize, NBT_MAX_DEPTH)
}

/// How many bytes the blob reader takes from the front of `s`, where it
/// reads a blob.
pub uninterp spec fn nbt_read_len(s: Seq<u8>) -> Option<nat>;

/// Relies on `nbt::Blob::to_writer`: the blob's binary form, written into a
/// fresh byte vector; it opens with the compound tag 0x0a and closes with
/// the end tag 0x00.
#[verifier::external_body]
fn nbt_to_bytes(blob: &nbt::Blob) -> (r: Result<Vec<u8>, nbt::Error>)
    ensures
        r matches Ok(b) ==> b@.len() >= 4 && b@[0] == 0x0a && b@.last() == 0x00,
{
    let mut out = Vec::new();
    blob.to_writer(&mut out)?;
    Ok(out)
}

/// Relies on `nbt::Blob::from_reader` over a `std::io::Cursor` on `data`:
/// the blob and the cursor's position after it, which a cursor never moves
/// past the end of its bytes. The input is limited to well-formed blobs, so
/// that no declared length exceeds the bytes present and nesting stays
/// shallow.
#[verifier::external_body]
fn nbt_from_bytes(data: &Vec<u8>) -> (r: Result<(nbt::Blob, usize), nbt::Error>)
    requires
        nbt_blob_end(data@, 0) is Some,
    ensures
        match nbt_read_len(data@) {
            Some(n) => r matches Ok((_, m)) && m == n && n <= data@.len(),
            None => r is Err,
        },
{
    let mut cursor = std::io::Cursor::new(&data[..]);
    let blob = nbt::Blob::from_reader(&mut cursor)?;
    Ok((blob, cursor.position() as usize))
}

/// Appends `bytes` to `buf`.
pub fn append_bytes(buf: &mut Vec<u8>, bytes: &Vec<u8>)
    ensures
        final(buf)@ == old(buf)@ + bytes@,
{
    let ghost start = buf@;
    let mut i: usize = 0;
    while i < bytes.len()
        invariant
            i <= bytes@.len(),
            buf@ == start + bytes@.take(i as int),
        decreases bytes@.len() - i,
    {
        buf.push(bytes[i]);
        i = i + 1;
        assert(buf@ =~= start + bytes@.take(i as int));
    }
    assert(bytes@.take(bytes@.len() as int) =~= bytes@);
}

/// Appends a structured blob: the blob writer's output, which opens with
/// the compound tag and closes with the end tag. On failure of the blob
/// writer nothing is appended.
pub fn put_nbt(buf: &mut Vec<u8>, x: &nbt::Blob) -> (r: Result<(), McTypeError>)
    ensures
        r is Ok ==> exists|b: Seq<u8>|
            b.len() >= 4 && b[0] == 0x0a && b.last() == 0x00 && #[trigger] (old(buf)@ + b)
                == final(buf)@,
        r is Err ==> r == Err::<(), McTypeError>(McTypeError::Nbt) && final(buf)@ == old(buf)@,
{
    match nbt_to_bytes(x) {
        Ok(bytes) => {
            append_bytes(buf, &bytes);
            Ok(())
        },
        Err(_) => Err(McTypeError::Nbt),
    }
}

/// An item stack in a slot: the item's protocol id and the count.
#[derive(Clone, Copy, Debug, PartialEq, Eq, Structural)]
pub struct ItemStack {
    pub item: i32,
    pub amount: u8,
}

/// The encoding of a slot: a presence boolean, then the item id as a
/// VarInt, the count byte and an empty item-data terminator.
pub open spec fn spec_slot(slot: Option<ItemStack>) -> Seq<u8> {
    match slot {
        None => seq![0u8],
        Some(st) => seq![1u8] + spec_varint(st.item) + seq![st.amount, 0u8],
    }
}

/// Reads a slot, where the ids `0..item_count` name the known item types.
pub open spec fn parse_slot(s: Seq<u8>, item_count: i32) -> Result<(Option<ItemStack>, nat), McTypeError> {
    match parse_bool(s) {
        Err(e) => Err(e),
        Ok((false, n)) => Ok((None, n)),
        Ok((true, n)) => match parse_varint(s.skip(n as int)) {
            Err(e) => Err(e),
            Ok((id, m)) => {
                if id < 0 || id >= item_count {
                    Err(McTypeError::InvalidItemId(id))
                } else if s.len() < n + m + 2 {
                    Err(McTypeError::NotEnoughBytes)
                } else {
                    Ok((Some(ItemStack { item: id, amount: s[(n + m) as int] }), n + m + 2))
                }
            },
        },
    }
}

/// Appends an optional item slot.
pub fn put_slot(buf: &mut Vec<u8>, slot: &Option<ItemStack>)
    ensures
        final(buf)@ == old(buf)@ + spec_slot(*slot),
{
    put_bool(buf, slot.is_some());
    if let Some(st) = slot {
        put_var_int(buf, st.item);
        buf.push(st.amount);
        buf.push(0);
    }
    assert(final(buf)@ =~= old(buf)@ + spec_slot(*slot));
}

impl ByteReader {
    /// Reads a structured blob and consumes exactly the bytes the blob
    /// reader took. Input that is not a well-formed blob is refused before
    /// the reader sees it.
    pub fn try_get_nbt(&mut self) -> (r: Result<nbt::Blob, McTypeError>)
        requires
            old(self).wf(),
        ensures
            final(self).wf(),
            nbt_blob_end(old(self)@, 0) is None ==> r == Err::<nbt::Blob, McTypeError>(
                McTypeError::Nbt,
            ) && final(self)@ == old(self)@,
            nbt_blob_end(old(self)@, 0) is Some ==> match nbt_read_len(old(self)@) {
                Some(n) => r is Ok && final(self)@ == old(self)@.skip(n as int),
                None => r == Err::<nbt::Blob, McTypeError>(McTypeError::Nbt) && final(self)@
                    == old(self)@,
            },
    {
        let ghost s0 = self@;
        let rest = self.remaining_bytes();
        if nbt_blob_end_exec(&rest, 0).is_none() {
            return Err(McTypeError::Nbt);
        }
        match nbt_from_bytes(&rest) {
            Ok((blob, n)) => {
                let room = self.data.len() - self.pos;
                assert(n <= room);
                self.pos = self.pos + n;
                assert(self@ =~= s0.skip(n as int));
                Ok(blob)
            },
            Err(_) => Err(McTypeError::Nbt),
        }
    }

    /// A copy of the bytes that are still to be read.
    pub fn remaining_bytes(&self) -> (r: Vec<u8>)
        requires
            self.wf(),
        ensures
            r@ == self@,
    {
        let mut out: Vec<u8> = Vec::new();
        let mut i: usize = self.pos;
        while i < self.data.len()
            invariant
                self.pos <= i <= self.data@.len(),
                out@ == self.data@.subrange(self.pos as int, i as int),
            decreases self.data@.len() - i,
        {
            out.push(self.data[i]);
            i = i + 1;
            assert(out@ =~= self.data@.subrange(self.pos as int, i as int));
        }
        out
    }

    /// Reads an optional item slot; the ids `0..item_count` name the known
    /// item types, any other id is rejected.
    pub fn try_get_slot(&mut self, item_count: i32) -> (r: Result<Option<ItemStack>, McTypeError>)
        requires
            old(self).wf(),
        ensures
            final(self).wf(),
            match parse_slot(old(self)@, item_count) {
                Ok((v, n)) => r == Ok::<Option<ItemStack>, McTypeError>(v) && final(self)@
                    == old(self)@.skip(n as int),
                Err(e) => r == Err::<Option<ItemStack>, McTypeError>(e),
            },
            is_rest_of(old(self)@, final(self)@),
    {
        let ghost s0 = self@;
        let exists = match self.try_get_bool() {
            Ok(b) => b,
            Err(e) => {
                assert(self@ =~= s0.skip(s0.len() - self@.len()));
                return Err(e);
            },
        };
        if !exists {
            return Ok(None);
        }
        let ghost s1 = self@;
        assert(s1 =~= s0.skip(1));
        let id = match self.try_get_var_int() {
            Ok(v) => v,
            Err(e) => {
                assert(self@ =~= s0.skip(1 + varint_err_taken(s1)));
                assert(self@ =~= s0.skip(s0.len() - self@.len()));
                return Err(e);
            },
        };
        let ghost m: int = match parse_varint(s1) {
            Ok((_, m)) => m as int,
            Err(_) => 0,
        };
        proof {
            lemma_parse_varint_len(s1, 5);
            assert(self@ =~= s0.skip(1 + m));
        }
        if id < 0 || id >= item_count {
            return Err(McTypeError::InvalidItemId(id));
        }
        if self.data.len() - self.pos < 2 {
            assert(self@.len() == self.data.len() - self.pos);
            return Err(McTypeError::NotEnoughBytes);
        }
        let amount = self.data[self.pos];
        assert(1 + m <= s0.len());
        assert(self@.len() == self.data.len() - self.pos);
        assert(self@[0] == amount);
        assert(amount == s0[1 + m]);
        assert(self@.len() == s0.len() - (1 + m));
        let ghost v1 = self@;
        self.pos = self.pos + 2;
        assert(self@ =~= v1.skip(2));
        assert(v1.skip(2) =~= s0.skip(1 + m + 2));
        Ok(Some(ItemStack { item: id, amount }))
    }
}


/// Every successful read consumes no more bytes than there are.
pub proof fn lemma_parse_within(s: Seq<u8>, item_count: i32)
    ensures
        parse_varint(s) matches Ok((_, n)) ==> 1 <= n <= s.len(),
        parse_string(s) matches Ok((_, n)) ==> n <= s.len(),
        parse_bool(s) matches Ok((_, n)) ==> n == 1 && n <= s.len(),
        parse_be(s, 4) matches Ok((_, n)) ==> n == 4 && n <= s.len(),
        parse_be(s, 16) matches Ok((_, n)) ==> n == 16 && n <= s.len(),
        parse_block_position(s) matches Ok((_, n)) ==> n == 8 && n <= s.len(),
        parse_slot(s, item_count) matches Ok((_, n)) ==> n <= s.len(),
{
    lemma_parse_varint_len(s, 5);
    if s.len() > 0 {
        lemma_parse_varint_len(s.skip(1), 5);
    }
}


/// Fixed-width big-endian words read back as written, whatever follows.
pub proof fn lemma_be_read_back(w: nat, n: nat, rest: Seq<u8>)
    ensures
        parse_be(be_bytes(w, n) + rest, n) == Ok::<(nat, nat), McTypeError>((w % pow256(n), n)),
{
    lemma_be_bytes_len(w, n);
    assert((be_bytes(w, n) + rest).take(n as int) =~= be_bytes(w, n));
    lemma_be_round_trip(w, n);
}

/// A string of at most the maximum length reads back as its bytes taken
/// one character each, whatever follows.
pub proof fn lemma_string_read_back(b: Seq<u8>, rest: Seq<u8>)
    requires
        b.len() <= MAX_STRING_LEN,
    ensures
        parse_string(spec_string(b) + rest) == Ok::<(Seq<char>, nat), McTypeError>(
            (latin1(b), spec_string(b).len()),
        ),
{
    let x = b.len() as i32;
    let s = spec_string(b) + rest;
    assert(s =~= spec_varint(x) + (b + rest));
    lemma_varint_round_trip(x, b + rest);
    let n = spec_varint(x).len();
    assert(s.subrange(n as int, (n + b.len()) as int) =~= b);
}

/// A boolean reads back as written.
pub proof fn lemma_bool_read_back(x: bool, rest: Seq<u8>)
    ensures
        parse_bool(seq![if x { 1u8 } else { 0u8 }] + rest) == Ok::<(bool, nat), McTypeError>((x, 1)),
{
}

/// A slot whose item id is known reads back as written.
pub proof fn lemma_slot_read_back(slot: Option<ItemStack>, rest: Seq<u8>, item_count: i32)
    requires
        slot matches Some(st) ==> 0 <= st.item < item_count,
    ensures
        parse_slot(spec_slot(slot) + rest, item_count) == Ok::<(Option<ItemStack>, nat), McTypeError>(
            (slot, spec_slot(slot).len()),
        ),
{
    let s = spec_slot(slot) + rest;
    match slot {
        None => {},
        Some(st) => {
            let tail = seq![st.amount, 0u8] + rest;
            assert(s.skip(1) =~= spec_varint(st.item) + tail);
            lemma_varint_round_trip(st.item, tail);
            let m = spec_varint(st.item).len();
            assert(s[(1 + m) as int] == st.amount);
        },
    }
}

/// The packed word of any position fits 64 bits.
pub proof fn lemma_pack_bound(p: BlockPosition)
    ensures
        pack_position(p) < pow256(8),
{
    reveal_with_fuel(pow256, 9);
    let a = p.x as int % 0x400_0000;
    let b = p.y as int % 0x1000;
    let c = p.z as int % 0x400_0000;
    assert(a * 0x40_0000_0000 + b * 0x400_0000 + c < 0x1_0000_0000_0000_0000) by (nonlinear_arith)
        requires
            0 <= a < 0x400_0000,
            0 <= b < 0x1000,
            0 <= c < 0x400_0000,
    ;
}

/// A position reads back as the unpacking of its packed word, whatever
/// follows.
pub proof fn lemma_position_read_back(p: BlockPosition, rest: Seq<u8>)
    ensures
        parse_block_position(be_bytes(pack_position(p), 8) + rest) == Ok::<(BlockPosition, nat), McTypeError>(
            (unpack_position(pack_position(p)), 8),
        ),
{
    lemma_be_read_back(pack_position(p), 8, rest);
    lemma_pack_bound(p);
    vstd::arithmetic::div_mod::lemma_small_mod(pack_position(p), pow256(8));
}


proof fn lemma_varint_prefix(v: nat, k: nat, budget: nat)
    requires
        k < varint_bytes(v).len(),
        varint_bytes(v).len() <= budget,
    ensures
        parse_varint_from(varint_bytes(v).take(k as int), budget) == Err::<(nat, nat), McTypeError>(
            McTypeError::NotEnoughBytes,
        ),
    decreases v,
{
    let s = varint_bytes(v).take(k as int);
    if k > 0 {
        assert(v >= 128);
        assert(s[0] == (v % 128 + 128) as u8);
        assert(s.drop_first() =~= varint_bytes(v / 128).take(k - 1));
        lemma_varint_prefix(v / 128, (k - 1) as nat, (budget - 1) as nat);
    }
}

/// Every read fails with `NotEnoughBytes` on input cut short of the value:
/// any proper prefix of a VarInt, of a string of at most the maximum length
/// or of a slot, and fewer bytes than a boolean, a UUID or a position take.
pub proof fn lemma_truncated_input(x: i32, b: Seq<u8>, slot: Option<ItemStack>, k: nat, item_count: i32)
    ensures
        k < spec_varint(x).len() ==> parse_varint(spec_varint(x).take(k as int)) == Err::<
            (i32, nat),
            McTypeError,
        >(McTypeError::NotEnoughBytes),
        b.len() <= MAX_STRING_LEN && k < spec_string(b).len() ==> parse_string(
            spec_string(b).take(k as int),
        ) == Err::<(Seq<char>, nat), McTypeError>(McTypeError::NotEnoughBytes),
        (slot matches Some(st) ==> 0 <= st.item < item_count) && k < spec_slot(slot).len()
            ==> parse_slot(spec_slot(slot).take(k as int), item_count) == Err::<
            (Option<ItemStack>, nat),
            McTypeError,
        >(McTypeError::NotEnoughBytes),
        parse_bool(Seq::empty()) == Err::<(bool, nat), McTypeError>(McTypeError::NotEnoughBytes),
        b.len() < 16 ==> parse_be(b, 16) == Err::<(nat, nat), McTypeError>(
            McTypeError::NotEnoughBytes,
        ),
        b.len() < 8 ==> parse_block_position(b) == Err::<(BlockPosition, nat), McTypeError>(
            McTypeError::NotEnoughBytes,
        ),
{
    lemma_varint_needed(x);
    if k < spec_varint(x).len() {
        lemma_varint_prefix(u32_of_i32(x), k, 5);
    }
    if b.len() <= MAX_STRING_LEN && k < spec_string(b).len() {
        let len = b.len() as i32;
        let n = spec_varint(len).len();
        lemma_varint_needed(len);
        if k < n {
            lemma_varint_prefix(u32_of_i32(len), k, 5);
            assert(spec_string(b).take(k as int) =~= spec_varint(len).take(k as int));
        } else {
            let t = spec_string(b).take(k as int);
            assert(t =~= spec_varint(len) + b.take(k - n));
            lemma_varint_round_trip(len, b.take(k - n));
        }
    }
    if (slot matches Some(st) ==> 0 <= st.item < item_count) && k < spec_slot(slot).len() {
        if let Some(st) = slot {
            let t = spec_slot(slot).take(k as int);
            let m = spec_varint(st.item).len();
            lemma_varint_needed(st.item);
            if k > 0 {
                if k < 1 + m {
                    assert(t.skip(1) =~= spec_varint(st.item).take(k - 1));
                    lemma_varint_prefix(u32_of_i32(st.item), (k - 1) as nat, 5);
                } else {
                    assert(t.skip(1) =~= spec_varint(st.item) + seq![st.amount, 0u8].take(k - 1 - m));
                    lemma_varint_round_trip(st.item, seq![st.amount, 0u8].take(k - 1 - m));
                }
            }
        }
    }
}

/// A string whose prefixed length is over the maximum is refused with
/// `StringTooLong`, whatever bytes follow the prefix.
pub proof fn lemma_oversized_string(len: i32, payload: Seq<u8>)
    requires
        len > MAX_STRING_LEN,
    ensures
        parse_string(spec_varint(len) + payload) == Err::<(Seq<char>, nat), McTypeError>(
            McTypeError::StringTooLong(len as usize, MAX_STRING_LEN),
        ),
{
    lemma_varint_round_trip(len, payload);
}


/// Reads a packet frame: a VarInt length, then that many bytes.
pub open spec fn parse_frame(s: Seq<u8>) -> Result<(Seq<u8>, nat), McTypeError> {
    match parse_varint(s) {
        Err(e) => Err(e),
        Ok((len, n)) => {
            if len < 0 {
                Err(McTypeError::NegativeLength(len))
            } else if s.len() < n + len {
                Err(McTypeError::NotEnoughBytes)
            } else {
                Ok((s.subrange(n as int, n + len), n + len as nat))
            }
        },
    }
}

/// Appends a packet frame: the payload's length as a VarInt, then the
/// payload.
pub fn put_frame(buf: &mut Vec<u8>, payload: &Vec<u8>)
    requires
        payload@.len() <= i32::MAX,
    ensures
        final(buf)@ == old(buf)@ + spec_varint(payload@.len() as i32) + payload@,
{
    put_var_int(buf, payload.len() as i32);
    let ghost mid = buf@;
    let mut i: usize = 0;
    while i < payload.len()
        invariant
            i <= payload@.len(),
            buf@ == mid + payload@.take(i as int),
        decreases payload@.len() - i,
    {
        buf.push(payload[i]);
        i = i + 1;
        assert(buf@ =~= mid + payload@.take(i as int));
    }
    assert(payload@.take(payload@.len() as int) =~= payload@);
}

impl ByteReader {
    /// Reads a packet frame. Where the frame is not complete yet the error
    /// is `NotEnoughBytes`.
    pub fn try_get_frame(&mut self) -> (r: Result<Vec<u8>, McTypeError>)
        requires
            old(self).wf(),
        ensures
            final(self).wf(),
            final(self).buffer() == old(self).buffer(),
            match parse_frame(old(self)@) {
                Ok((v, n)) => r matches Ok(f) && f@ == v && final(self)@ == old(self)@.skip(n as int),
                Err(e) => r == Err::<Vec<u8>, McTypeError>(e),
            },
    {
        let ghost s0 = self@;
        let len = self.try_get_var_int()?;
        let ghost n0: int = match parse_varint(s0) {
            Ok((_, n)) => n as int,
            Err(_) => 0,
        };
        proof {
            lemma_parse_varint_len(s0, 5);
        }
        if len < 0 {
            return Err(McTypeError::NegativeLength(len));
        }
        let len = len as usize;
        if self.data.len() - self.pos < len {
            assert(self@.len() == self.data.len() - self.pos);
            return Err(McTypeError::NotEnoughBytes);
        }
        let ghost s1 = self@;
        let mut frame: Vec<u8> = Vec::new();
        let mut i: usize = 0;
        while i < len
            invariant
                self.wf(),
                i <= len,
                s1.len() >= len,
                self@ == s1.skip(i as int),
                frame@ == s1.take(i as int),
                self.buffer() == old(self).buffer(),
            decreases len - i,
        {
            let ghost cur = self@;
            let b = match self.try_get_u8() {
                Ok(b) => b,
                Err(e) => {
                    return Err(e);
                },
            };
            proof {
                assert(cur.drop_first() =~= s1.skip(i + 1));
            }
            frame.push(b);
            i = i + 1;
            assert(frame@ =~= s1.take(i as int));
        }
        assert(s1 =~= s0.skip(n0));
        assert(s1.take(len as int) =~= s0.subrange(n0, n0 + len));
        assert(self@ =~= s0.skip(n0 + len));
        Ok(frame)
    }
}


/// Splits the complete frames off the front of a stream: the frames in
/// order, and the bytes of the incomplete frame that follows them. A frame
/// that can never be complete (a malformed length) is an error.
pub open spec fn split_frames(s: Seq<u8>) -> Result<(Seq<Seq<u8>>, Seq<u8>), McTypeError>
    decreases s.len(),
{
    match parse_frame(s) {
        Ok((f, n)) => if 0 < n <= s.len() {
            match split_frames(s.skip(n as int)) {
                Ok((fs, left)) => Ok((seq![f] + fs, left)),
                Err(e) => Err(e),
            }
        } else {
            Ok((Seq::empty(), s))
        },
        Err(McTypeError::NotEnoughBytes) => Ok((Seq::empty(), s)),
        Err(e) => Err(e),
    }
}

/// The byte contents of each frame.
pub open spec fn frames_view(v: Seq<Vec<u8>>) -> Seq<Seq<u8>> {
    Seq::new(v.len(), |i: int| v[i]@)
}

proof fn lemma_frame_len(s: Seq<u8>)
    ensures
        parse_frame(s) matches Ok((_, n)) ==> 0 < n <= s.len(),
{
    lemma_parse_varint_len(s, 5);
}

/// Takes every complete frame off the front of `pending`; gives the frames
/// in order and the bytes left over, which start an incomplete frame.
pub fn take_frames(pending: Vec<u8>) -> (r: Result<(Vec<Vec<u8>>, Vec<u8>), McTypeError>)
    ensures
        match split_frames(pending@) {
            Ok((fs, left)) => r matches Ok((v, l)) && frames_view(v@) == fs && l@ == left,
            Err(e) => r == Err::<(Vec<Vec<u8>>, Vec<u8>), McTypeError>(e),
        },
{
    let ghost s0 = pending@;
    let mut reader = ByteReader::new(pending);
    let mut frames: Vec<Vec<u8>> = Vec::new();
    proof {
        match split_frames(reader@) {
            Ok((fs, left)) => {
                assert(frames_view(frames@) + fs =~= fs);
            },
            Err(_) => {},
        }
    }
    loop
        invariant
            reader.wf(),
            s0 == pending@,
            split_frames(s0) == match split_frames(reader@) {
                Ok((fs, left)) => Ok::<(Seq<Seq<u8>>, Seq<u8>), McTypeError>(
                    (frames_view(frames@) + fs, left),
                ),
                Err(e) => Err(e),
            },
        decreases reader@.len(),
    {
        let ghost cur = reader@;
        let before = reader.pos;
        proof {
            lemma_frame_len(cur);
        }
        match reader.try_get_frame() {
            Ok(f) => {
                let ghost fv = f@;
                let ghost fr0 = frames@;
                frames.push(f);
                assert(frames_view(frames@) =~= frames_view(fr0) + seq![fv]);
                proof {
                    match split_frames(reader@) {
                        Ok((fs, left)) => {
                            assert(frames_view(fr0) + (seq![fv] + fs) =~= frames_view(frames@) + fs);
                        },
                        Err(_) => {},
                    }
                }
            },
            Err(McTypeError::NotEnoughBytes) => {
                reader.pos = before;
                assert(reader@ == cur);
                let left = reader.remaining_bytes();
                assert(split_frames(cur) == Ok::<(Seq<Seq<u8>>, Seq<u8>), McTypeError>(
                    (Seq::empty(), cur),
                ));
                assert(frames_view(frames@) + Seq::<Seq<u8>>::empty() =~= frames_view(frames@));
                return Ok((frames, left));
            },
            Err(e) => {
                assert(split_frames(cur) == Err::<(Seq<Seq<u8>>, Seq<u8>), McTypeError>(e));
                return Err(e);
            },
        }
    }
}


/// The decoded position of any packed word is what arithmetic shifts of the
/// word, read as a signed 64-bit number, give for each field.
pub proof fn lemma_position_shift_form(w: u64)
    ensures
        unpack_position(w as nat) == (BlockPosition {
            x: ((w as i64) >> 38u64) as i32,
            y: ((((w as i64) >> 26u64) & 0xFFFi64) << 52u64 >> 52u64) as i32,
            z: (((w as i64) << 38u64) >> 38u64) as i32,
        }),
{
    let a = w >> 38u64;
    let b = (w >> 26u64) & 0xFFFu64;
    let c = w & 0x3FF_FFFFu64;
    vstd::bits::lemma_u64_shr_is_div(w, 38);
    vstd::bits::lemma_u64_shr_is_div(w, 26);
    assert(vstd::arithmetic::power2::pow2(38) == 0x40_0000_0000) by {
        vstd::arithmetic::power2::lemma2_to64_rest();
    }
    assert(vstd::arithmetic::power2::pow2(26) == 0x400_0000) by {
        vstd::arithmetic::power2::lemma2_to64();
    }
    assert(b == (w >> 26u64) % 0x1000) by (bit_vector)
        requires
            b == (w >> 26u64) & 0xFFFu64,
    ;
    assert(c == w % 0x400_0000) by (bit_vector)
        requires
            c == w & 0x3FF_FFFFu64,
    ;
    assert(((w as i64) >> 38u64) as i32 == (if a >= 0x200_0000 { (a as i64 - 0x400_0000) as i32 } else {
        a as i32
    })) by (bit_vector)
        requires
            a == w >> 38u64,
    ;
    assert(((((w as i64) >> 26u64) & 0xFFFi64) << 52u64 >> 52u64) as i32 == (if b >= 0x800 {
        (b as i64 - 0x1000) as i32
    } else {
        b as i32
    })) by (bit_vector)
        requires
            b == (w >> 26u64) & 0xFFFu64,
    ;
    assert((((w as i64) << 38u64) >> 38u64) as i32 == (if c >= 0x200_0000 {
        (c as i64 - 0x400_0000) as i32
    } else {
        c as i32
    })) by (bit_vector)
        requires
            c == w & 0x3FF_FFFFu64,
    ;
    assert(a < 0x400_0000) by (bit_vector)
        requires
            a == w >> 38u64,
    ;
}

} // verus!
