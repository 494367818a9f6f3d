use vstd::prelude::*;
use vstd::arithmetic::power2::*;

use crate::error::Error;

verus! {

/// The bit of `data` at absolute bit index `i`, least significant
/// bit of each byte first.
pub open spec fn bit_at(data: Seq<u8>, i: int) -> bool {
    (data[i / 8] >> ((i % 8) as u8)) & 1 == 1
}

/// The unsigned value of the `n` bits starting at bit `pos`,
/// least-significant-first.
pub open spec fn bits_nat(data: Seq<u8>, pos: int, n: nat) -> nat
    decreases n,
{
    if n == 0 {
        0
    } else {
        bits_nat(data, pos, (n - 1) as nat) + pow2((n - 1) as nat) * (if bit_at(
            data,
            pos + n - 1,
        ) {
            1nat
        } else {
            0nat
        })
    }
}

/// The little-endian value of the `n` bytes starting at byte `i`.
pub open spec fn le_bytes(data: Seq<u8>, i: int, n: nat) -> nat
    decreases n,
{
    if n == 0 {
        0
    } else {
        le_bytes(data, i, (n - 1) as nat) + pow2(8 * (n - 1) as nat) * (data[i + n - 1] as nat)
    }
}

/// The next byte-aligned bit position at or after `pos`.
pub open spec fn align8(pos: int) -> int {
    if pos % 8 == 0 {
        pos
    } else {
        pos + 8 - pos % 8
    }
}

/// Bytes remaining once the cursor is realigned; a partly consumed
/// byte counts as consumed.
pub open spec fn s_len(data: Seq<u8>, pos: int) -> int {
    data.len() - align8(pos) / 8
}

/// Outcome of reading one bit at `pos`.
pub open spec fn s_read_bit(data: Seq<u8>, pos: int) -> Result<(bool, int), Error> {
    if pos + 1 <= 8 * data.len() {
        Ok((bit_at(data, pos), pos + 1))
    } else {
        Err(Error::UnexpectedEof)
    }
}

/// Outcome of reading `n` bits at `pos`, least-significant-first.
pub open spec fn s_read_bits(data: Seq<u8>, pos: int, n: nat) -> Result<(u64, int), Error> {
    if pos + n <= 8 * data.len() {
        Ok((bits_nat(data, pos, n) as u64, pos + n))
    } else {
        Err(Error::UnexpectedEof)
    }
}

/// Outcome of a byte-aligned little-endian load of `n` bytes:
/// the cursor realigns first.
pub open spec fn s_load_le(data: Seq<u8>, pos: int, n: nat) -> Result<(u64, int), Error> {
    let bp = align8(pos) / 8;
    if bp + n <= data.len() {
        Ok((le_bytes(data, bp, n) as u64, 8 * (bp + n)))
    } else {
        Err(Error::UnexpectedEof)
    }
}

/// Outcome of a byte-aligned read of `n` raw bytes.
pub open spec fn s_read_bytes(data: Seq<u8>, pos: int, n: nat) -> Result<(Seq<u8>, int), Error> {
    let bp = align8(pos) / 8;
    if bp + n <= data.len() {
        Ok((data.subrange(bp, bp + n), 8 * (bp + n)))
    } else {
        Err(Error::UnexpectedEof)
    }
}

pub proof fn lemma_bits_nat_bound(data: Seq<u8>, pos: int, n: nat)
    ensures
        bits_nat(data, pos, n) < pow2(n),
    decreases n,
{
    if n == 0 {
        lemma2_to64();
    } else {
        lemma_bits_nat_bound(data, pos, (n - 1) as nat);
        lemma_pow2_adds((n - 1) as nat, 1);
        lemma2_to64();
    }
}

pub proof fn lemma_le_bytes_bound(data: Seq<u8>, i: int, n: nat)
    ensures
        le_bytes(data, i, n) < pow2(8 * n),
    decreases n,
{
    if n == 0 {
        lemma2_to64();
    } else {
        lemma_le_bytes_bound(data, i, (n - 1) as nat);
        lemma_pow2_adds(8 * (n - 1) as nat, 8);
        lemma2_to64();
        assert(le_bytes(data, i, n) < pow2(8 * (n - 1) as nat) * 256) by {
            assert(data[i + n - 1] <= 255);
            assert(pow2(8 * (n - 1) as nat) * data[i + n - 1] <= pow2(8 * (n - 1) as nat) * 255)
                by (nonlinear_arith)
                requires
                    data[i + n - 1] <= 255,
                    pow2(8 * (n - 1) as nat) > 0,
            ;
            lemma_pow2_pos(8 * (n - 1) as nat);
        }
        assert(pow2(8 * (n - 1) as nat) * 256 == pow2(8 * n));
    }
}

proof fn lemma_pos_fields(byte: int, bit: int)
    requires
        0 <= bit < 8,
        0 <= byte,
    ensures
        (8 * byte + bit) / 8 == byte,
        (8 * byte + bit) % 8 == bit,
{
    assert((8 * byte + bit) / 8 == byte && (8 * byte + bit) % 8 == bit) by (nonlinear_arith)
        requires
            0 <= bit < 8,
            0 <= byte,
    ;
}

/// Realignment stays within the buffer and is monotone.
pub proof fn lemma_align8_bounds(pos: int, len: int)
    requires
        0 <= pos <= 8 * len,
    ensures
        pos <= align8(pos) <= 8 * len,
        align8(pos) % 8 == 0,
        8 * (align8(pos) / 8) == align8(pos),
        align8(pos) / 8 <= len,
{
    assert(0 <= pos % 8 < 8) by (nonlinear_arith);
    if pos % 8 == 0 {
        assert(8 * (pos / 8) == pos) by (nonlinear_arith)
            requires
                pos % 8 == 0,
                pos >= 0,
        ;
    } else {
        let a = pos + 8 - pos % 8;
        assert(a % 8 == 0 && pos < a) by (nonlinear_arith)
            requires
                a == pos + 8 - pos % 8,
                0 < pos % 8 < 8,
        ;
        assert(a <= 8 * len) by (nonlinear_arith)
            requires
                a % 8 == 0,
                pos <= 8 * len,
                a < pos + 8,
        ;
    }
    assert(8 * (align8(pos) / 8) == align8(pos)) by (nonlinear_arith)
        requires
            align8(pos) % 8 == 0,
            align8(pos) >= 0,
    ;
    assert(align8(pos) / 8 <= len) by (nonlinear_arith)
        requires
            8 * (align8(pos) / 8) == align8(pos),
            align8(pos) <= 8 * len,
    ;
}

/// Realignment is monotone in the position.
pub proof fn lemma_align8_monotone(p1: int, p2: int)
    requires
        0 <= p1 <= p2,
    ensures
        align8(p1) <= align8(p2),
{
    assert(0 <= p1 % 8 < 8 && 0 <= p2 % 8 < 8) by (nonlinear_arith);
    if p1 % 8 == 0 {
        assert(align8(p1) == p1 <= p2 <= align8(p2));
    } else if p2 % 8 == 0 {
        assert(8 * (p2 / 8) == p2) by (nonlinear_arith)
            requires
                p2 % 8 == 0,
        ;
        assert(align8(p1) <= align8(p2)) by (nonlinear_arith)
            requires
                align8(p1) == p1 + 8 - p1 % 8,
                align8(p2) == p2,
                p1 <= p2,
                p2 % 8 == 0,
                0 < p1 % 8 < 8,
                p1 % 8 == p1 - 8 * (p1 / 8),
                p2 == 8 * (p2 / 8),
        ;
    } else {
        assert(align8(p1) <= align8(p2)) by (nonlinear_arith)
            requires
                align8(p1) == p1 + 8 - p1 % 8,
                align8(p2) == p2 + 8 - p2 % 8,
                p1 <= p2,
                0 < p1 % 8 < 8,
                0 < p2 % 8 < 8,
                p1 % 8 == p1 - 8 * (p1 / 8),
                p2 % 8 == p2 - 8 * (p2 / 8),
                p1 / 8 <= p2 / 8,
        ;
    }
}

/// Later positions leave at most as many bytes.
pub proof fn lemma_s_len_monotone(data: Seq<u8>, p1: int, p2: int)
    requires
        0 <= p1 <= p2 <= 8 * data.len(),
    ensures
        0 <= s_len(data, p2) <= s_len(data, p1) <= data.len(),
{
    lemma_align8_monotone(p1, p2);
    lemma_align8_bounds(p1, data.len() as int);
    lemma_align8_bounds(p2, data.len() as int);
    assert(align8(p1) / 8 <= align8(p2) / 8) by (nonlinear_arith)
        requires
            align8(p1) <= align8(p2),
            8 * (align8(p1) / 8) == align8(p1),
            8 * (align8(p2) / 8) == align8(p2),
    ;
    assert(align8(p1) / 8 >= 0) by (nonlinear_arith)
        requires
            8 * (align8(p1) / 8) == align8(p1),
            align8(p1) >= 0,
    ;
}

/// A successful aligned load consumes exactly its `n` bytes of the
/// remaining count.
pub proof fn lemma_s_len_after_load(data: Seq<u8>, pos: int, n: nat)
    requires
        0 <= pos <= 8 * data.len(),
        s_load_le(data, pos, n) is Ok,
    ensures
        ({
            let p1 = s_load_le(data, pos, n)->Ok_0.1;
            &&& s_len(data, p1) == s_len(data, pos) - n
            &&& 0 <= p1 <= 8 * data.len()
            &&& pos <= p1
        }),
{
    lemma_align8_bounds(pos, data.len() as int);
    let bp = align8(pos) / 8;
    let p1 = 8 * (bp + n);
    assert(p1 % 8 == 0) by (nonlinear_arith)
        requires
            p1 == 8 * (bp + n),
            bp + n >= 0,
    ;
    assert(align8(p1) == p1);
    assert(align8(p1) / 8 == bp + n) by (nonlinear_arith)
        requires
            align8(p1) == 8 * (bp + n),
            bp + n >= 0,
    ;
}

/// A cursor over an immutable byte buffer that can consume single
/// bits, bit runs, and byte-aligned little-endian loads.
pub struct BitReader {
    pub data: Vec<u8>,
    pub byte: usize,
    pub bit: u8,
}

impl BitReader {
    /// The absolute bit position of the cursor.
    pub open spec fn pos(self) -> int {
        8 * self.byte + self.bit
    }

    /// The cursor lies within the buffer and the buffer is small
    /// enough for bit positions to fit a `usize`.
    pub open spec fn wf(self) -> bool {
        &&& self.bit < 8
        &&& self.pos() <= 8 * self.data@.len()
        &&& 8 * self.data@.len() <= usize::MAX
    }

    pub fn new(data: Vec<u8>) -> (r: BitReader)
        requires
            8 * data@.len() <= usize::MAX,
        ensures
            r.wf(),
            r.data@ == data@,
            r.pos() == 0,
    {
        BitReader { data, byte: 0, bit: 0 }
    }

    /// Bytes remaining; a partly consumed byte counts as consumed.
    pub fn len(&self) -> (r: usize)
        requires
            self.wf(),
        ensures
            r == s_len(self.data@, self.pos()),
    {
        proof {
            lemma_pos_fields(self.byte as int, self.bit as int);
            if self.bit != 0 {
                assert(align8(self.pos()) == 8 * (self.byte + 1));
                lemma_pos_fields(self.byte + 1, 0);
            }
        }
        if self.bit > 0 {
            self.data.len() - self.byte - 1
        } else {
            self.data.len() - self.byte
        }
    }

    /// Discards the remainder of a partly consumed byte.
    pub fn realign_to_byte(&mut self)
        requires
            old(self).wf(),
        ensures
            final(self).wf(),
            final(self).data@ == old(self).data@,
            final(self).pos() == align8(old(self).pos()),
    {
        proof {
            lemma_pos_fields(self.byte as int, self.bit as int);
        }
        if self.bit > 0 {
            self.bit = 0;
            self.byte = self.byte + 1;
        }
    }

    /// Reads one bit, least significant bit of the current byte first.
    pub fn read_bit(&mut self) -> (r: Result<bool, Error>)
        requires
            old(self).wf(),
        ensures
            final(self).wf(),
            final(self).data@ == old(self).data@,
            match r {
                Ok(b) => s_read_bit(old(self).data@, old(self).pos()) == Ok::<_, Error>((
                    b,
                    final(self).pos(),
                )),
                Err(e) => *final(self) == *old(self) && s_read_bit(old(self).data@, old(self).pos())
                    == Err::<(bool, int), _>(e),
            },
    {
        proof {
            lemma_pos_fields(self.byte as int, self.bit as int);
        }
        if self.byte >= self.data.len() {
            return Err(Error::UnexpectedEof);
        }
        let b: u8 = self.data[self.byte];
        let v: u8 = (b >> self.bit) & 1;
        if self.bit == 7 {
            self.bit = 0;
            self.byte = self.byte + 1;
        } else {
            self.bit = self.bit + 1;
        }
        Ok(v == 1)
    }

    /// Reads `n` bits as an unsigned value, least-significant-first.
    pub fn read_value_bits(&mut self, n: usize) -> (r: Result<u64, Error>)
        requires
            old(self).wf(),
            1 <= n <= 64,
        ensures
            final(self).wf(),
            final(self).data@ == old(self).data@,
            match r {
                Ok(v) => s_read_bits(old(self).data@, old(self).pos(), n as nat) == Ok::<
                    _,
                    Error,
                >((v, final(self).pos())),
                Err(e) => *final(self) == *old(self) && s_read_bits(old(self).data@, old(self).pos(), n as nat)
                    == Err::<(u64, int), _>(e),
            },
    {
        let total: usize = 8 * self.data.len();
        let used: usize = 8 * self.byte + self.bit as usize;
        if n > total - used {
            return Err(Error::UnexpectedEof);
        }
        let ghost data = self.data@;
        let ghost pos0 = self.pos();
        let mut acc: u64 = 0;
        let mut i: usize = 0;
        while i < n
            invariant
                self.wf(),
                self.data@ == data,
                1 <= n <= 64,
                0 <= i <= n,
                self.pos() == pos0 + i,
                pos0 + n <= 8 * data.len(),
                acc == bits_nat(data, pos0, i as nat),
            decreases n - i,
        {
            let b: Result<bool, Error> = self.read_bit();
            match b {
                Ok(bitv) => {
                    proof {
                        lemma_bits_nat_bound(data, pos0, i as nat);
                        vstd::bits::lemma_u64_pow2_no_overflow(i as nat);
                        vstd::bits::lemma_u64_shl_is_mul(1u64, i as u64);
                        lemma_pow2_adds(i as nat, 1);
                        lemma2_to64();
                        lemma2_to64_rest();
                    }
                    if bitv {
                        acc = acc + (1u64 << (i as u64));
                    }
                    i = i + 1;
                },
                Err(e) => {
                    proof {
                        assert(false);
                    }
                    return Err(e);
                },
            }
        }
        proof {
            lemma_bits_nat_bound(data, pos0, n as nat);
            lemma_pow2_adds(n as nat, (64 - n) as nat);
            lemma2_to64();
            lemma2_to64_rest();
            lemma_pow2_strictly_increases(n as nat, 65);
            if n < 64 {
                lemma_pow2_strictly_increases(n as nat, 64);
            }
        }
        Ok(acc)
    }

    /// Byte-aligned little-endian load of `n` bytes; realigns first.
    pub fn load_le(&mut self, n: usize) -> (r: Result<u64, Error>)
        requires
            old(self).wf(),
            1 <= n <= 8,
        ensures
            final(self).wf(),
            final(self).data@ == old(self).data@,
            match r {
                Ok(v) => s_load_le(old(self).data@, old(self).pos(), n as nat) == Ok::<_, Error>((
                    v,
                    final(self).pos(),
                )),
                Err(e) => final(self).data@ == old(self).data@ && s_load_le(
                    old(self).data@,
                    old(self).pos(),
                    n as nat,
                ) == Err::<(u64, int), _>(e),
            },
    {
        self.realign_to_byte();
        proof {
            lemma_pos_fields(self.byte as int, 0);
        }
        if n > self.data.len() - self.byte {
            return Err(Error::UnexpectedEof);
        }
        let ghost data = self.data@;
        let ghost bp = self.byte as int;
        let mut acc: u64 = 0;
        let mut k: usize = 0;
        while k < n
            invariant
                self.wf(),
                self.data@ == data,
                1 <= n <= 8,
                0 <= k <= n,
                self.bit == 0,
                self.byte == bp,
                bp + n <= data.len(),
                acc == le_bytes(data, bp, k as nat),
            decreases n - k,
        {
            proof {
                lemma_le_bytes_bound(data, bp, k as nat);
                vstd::bits::lemma_u64_pow2_no_overflow((8 * k) as nat);
                vstd::bits::lemma_u64_shl_is_mul(1u64, (8 * k) as u64);
                lemma_pow2_adds((8 * k) as nat, 8);
                lemma2_to64();
                lemma2_to64_rest();
                let b: u8 = data[bp + k];
                assert(b as u64 * pow2((8 * k) as nat) <= 255 * pow2((8 * k) as nat))
                    by (nonlinear_arith)
                    requires
                        b <= 255,
                        pow2((8 * k) as nat) > 0,
                ;
                lemma_pow2_pos((8 * k) as nat);
                assert(acc + b as u64 * pow2((8 * k) as nat) < 256 * pow2((8 * k) as nat)) by (
                nonlinear_arith)
                    requires
                        acc < pow2((8 * k) as nat),
                        b as u64 * pow2((8 * k) as nat) <= 255 * pow2((8 * k) as nat),
                        pow2((8 * k) as nat) > 0,
                ;
                assert(256 * pow2((8 * k) as nat) == pow2((8 * (k + 1)) as nat));
            }
            let piece: u64 = self.data[self.byte + k] as u64;
            proof {
                assert(piece == data[bp + k]);
                assert((1u64 << ((8 * k) as u64)) == pow2((8 * k) as nat));
                assert(piece * (1u64 << ((8 * k) as u64)) == pow2((8 * k) as nat) * (data[bp
                    + k] as nat)) by (nonlinear_arith)
                    requires
                        piece == data[bp + k],
                        (1u64 << ((8 * k) as u64)) == pow2((8 * k) as nat),
                ;
                assert(le_bytes(data, bp, (k + 1) as nat) == le_bytes(data, bp, k as nat) + pow2(
                    (8 * k) as nat,
                ) * (data[bp + k] as nat));
            }
            acc = acc + piece * (1u64 << ((8 * k) as u64));
            k = k + 1;
        }
        self.byte = self.byte + n;
        proof {
            lemma_le_bytes_bound(data, bp, n as nat);
            lemma_pow2_adds((8 * n) as nat, (64 - 8 * n) as nat);
            lemma2_to64();
            lemma2_to64_rest();
            if n < 8 {
                lemma_pow2_strictly_increases((8 * n) as nat, 64);
            }
        }
        Ok(acc)
    }

    /// Byte-aligned read of `n` raw bytes; realigns first.
    pub fn read_bytes(&mut self, n: usize) -> (r: Result<Vec<u8>, Error>)
        requires
            old(self).wf(),
        ensures
            final(self).wf(),
            final(self).data@ == old(self).data@,
            match r {
                Ok(v) => s_read_bytes(old(self).data@, old(self).pos(), n as nat) == Ok::<
                    _,
                    Error,
                >((v@, final(self).pos())),
                Err(e) => final(self).data@ == old(self).data@ && s_read_bytes(
                    old(self).data@,
                    old(self).pos(),
                    n as nat,
                ) == Err::<(Seq<u8>, int), _>(e),
            },
    {
        self.realign_to_byte();
        proof {
            lemma_pos_fields(self.byte as int, 0);
        }
        if n > self.data.len() - self.byte {
            return Err(Error::UnexpectedEof);
        }
        let ghost data = self.data@;
        let ghost bp = self.byte as int;
        let mut out: Vec<u8> = Vec::new();
        let mut k: usize = 0;
        while k < n
            invariant
                self.wf(),
                self.data@ == data,
                0 <= k <= n,
                self.bit == 0,
                self.byte == bp,
                bp + n <= data.len(),
                out@ == data.subrange(bp, bp + k),
            decreases n - k,
        {
            let piece: u8 = self.data[self.byte + k];
            out.push(piece);
            proof {
                assert(out@ =~= data.subrange(bp, bp + k + 1));
            }
            k = k + 1;
        }
        self.byte = self.byte + n;
        Ok(out)
    }
}

} // verus!
