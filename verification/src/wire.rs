//! Little-endian integers and the bounds-checked reader that every decoder
//! in this crate goes through.

use crate::error::DecodeError;
use vstd::prelude::*;
use vstd::slice::slice_subrange;

verus! {

/// The largest payload that a two-byte length field can declare.
pub const MAX_ITEM_LEN: usize = 65535;

/// 256 to the power `n`.
pub open spec fn pow256(n: nat) -> nat
    decreases n,
{
    if n == 0 {
        1
    } else {
        256 * pow256((n - 1) as nat)
    }
}

/// The number that `bytes` denote, least significant byte first.
pub open spec fn le_value(bytes: Seq<u8>) -> nat
    decreases bytes.len(),
{
    if bytes.len() == 0 {
        0
    } else {
        bytes[0] as nat + 256 * le_value(bytes.drop_first())
    }
}

/// The `width` low-order bytes of `value`, least significant byte first.
pub open spec fn le_bytes(value: nat, width: nat) -> Seq<u8>
    decreases width,
{
    if width == 0 {
        Seq::empty()
    } else {
        seq![(value % 256) as u8].add(le_bytes(value / 256, (width - 1) as nat))
    }
}

/// `le_bytes` yields exactly `width` bytes.
pub proof fn lemma_le_bytes_len(value: nat, width: nat)
    ensures
        le_bytes(value, width).len() == width,
    decreases width,
{
    if width > 0 {
        lemma_le_bytes_len(value / 256, (width - 1) as nat);
    }
}

/// A sequence of `n` bytes denotes a number below `256^n`.
pub proof fn lemma_le_value_bound(bytes: Seq<u8>)
    ensures
        le_value(bytes) < pow256(bytes.len()),
    decreases bytes.len(),
{
    if bytes.len() > 0 {
        lemma_le_value_bound(bytes.drop_first());
    }
}

/// Writing a number that fits in `width` bytes and reading it back gives the
/// number.
pub proof fn lemma_le_value_of_bytes(value: nat, width: nat)
    requires
        value < pow256(width),
    ensures
        le_value(le_bytes(value, width)) == value,
    decreases width,
{
    if width > 0 {
        let rest = le_bytes(value / 256, (width - 1) as nat);
        let all = le_bytes(value, width);
        lemma_le_value_of_bytes(value / 256, (width - 1) as nat);
        assert(all.drop_first() =~= rest);
        assert(all[0] == (value % 256) as u8);
    }
}

/// Reading bytes as a number and writing it back at the same width gives the
/// bytes.
pub proof fn lemma_le_bytes_of_value(bytes: Seq<u8>)
    ensures
        le_bytes(le_value(bytes), bytes.len()) == bytes,
    decreases bytes.len(),
{
    if bytes.len() > 0 {
        let tail = bytes.drop_first();
        lemma_le_bytes_of_value(tail);
        let v = le_value(bytes);
        assert(v % 256 == bytes[0] as nat);
        assert(v / 256 == le_value(tail));
        assert(le_bytes(v, bytes.len()) =~= bytes);
    } else {
        assert(le_bytes(le_value(bytes), bytes.len()) =~= bytes);
    }
}

/// Two and eight bytes hold exactly the values of `u16` and `u64`.
pub proof fn lemma_pow256_widths()
    ensures
        pow256(0) == 1,
        pow256(1) == 0x100,
        pow256(2) == 0x1_0000,
        pow256(8) == 0x1_0000_0000_0000_0000,
{
    reveal_with_fuel(pow256, 9);
}

/// `pow256` grows with its exponent.
pub proof fn lemma_pow256_monotonic(a: nat, b: nat)
    requires
        a <= b,
    ensures
        pow256(a) <= pow256(b),
        pow256(a) >= 1,
    decreases b,
{
    if a < b {
        lemma_pow256_monotonic(a, (b - 1) as nat);
    } else if a > 0 {
        lemma_pow256_monotonic((a - 1) as nat, (a - 1) as nat);
    }
}

/// Reads the `width` bytes of `data` that start at `at` as a little-endian
/// number.
pub fn read_le(data: &[u8], at: usize, width: usize) -> (value: u64)
    requires
        width <= 8,
        at + width <= data.len(),
    ensures
        value as nat == le_value(data@.subrange(at as int, at + width)),
{
    let mut value: u64 = 0;
    let mut left: usize = width;
    while left > 0
        invariant
            left <= width <= 8,
            at + width <= data.len(),
            value as nat == le_value(data@.subrange(at + left, at + width)),
            value < pow256((width - left) as nat),
        decreases left,
    {
        left = left - 1;
        let byte: u8 = data[at + left];
        proof {
            let longer = data@.subrange(at + left, at + width);
            let shorter = data@.subrange(at + left + 1, at + width);
            assert(longer.drop_first() =~= shorter);
            assert(longer[0] == byte);
            lemma_pow256_monotonic((width - left - 1) as nat, 7);
            assert(pow256(8) == 256 * pow256(7));
            lemma_pow256_widths();
        }
        value = value * 256 + byte as u64;
    }
    value
}

/// Appends the `width` low-order bytes of `value` to `out`, least
/// significant byte first.
pub fn push_le(out: &mut Vec<u8>, value: u64, width: usize)
    requires
        width <= 8,
        (value as nat) < pow256(width as nat),
    ensures
        final(out)@ == old(out)@ + le_bytes(value as nat, width as nat),
{
    let mut rest: u64 = value;
    let mut done: usize = 0;
    let ghost written: Seq<u8> = Seq::empty();
    while done < width
        invariant
            done <= width,
            out@ == old(out)@ + written,
            written + le_bytes(rest as nat, (width - done) as nat) == le_bytes(
                value as nat,
                width as nat,
            ),
        decreases width - done,
    {
        let byte: u8 = (rest % 256) as u8;
        out.push(byte);
        proof {
            let tail = le_bytes(rest as nat, (width - done) as nat);
            let next = le_bytes((rest / 256) as nat, (width - done - 1) as nat);
            assert(tail =~= seq![byte] + next);
            assert(written.push(byte) + next =~= written + tail);
            written = written.push(byte);
        }
        rest = rest / 256;
        done = done + 1;
    }
    proof {
        assert(le_bytes(rest as nat, 0) =~= Seq::<u8>::empty());
        assert(written + Seq::<u8>::empty() =~= written);
    }
}

/// A cursor over a buffer. Its one primitive hands out the next `n` bytes
/// or fails; nothing is ever read past the end of the buffer.
pub struct Reader<'a> {
    data: &'a [u8],
    pos: usize,
}

impl<'a> Reader<'a> {
    #[verifier::type_invariant]
    spec fn in_bounds(self) -> bool {
        self.pos <= self.data@.len()
    }

    /// The bytes that have not been handed out yet.
    pub closed spec fn rest(&self) -> Seq<u8> {
        self.data@.skip(self.pos as int)
    }

    /// A reader at the start of `data`.
    pub fn new(data: &'a [u8]) -> (reader: Self)
        ensures
            reader.rest() == data@,
    {
        Reader { data, pos: 0 }
    }

    /// How many bytes are left.
    pub fn remaining(&self) -> (n: usize)
        ensures
            n == self.rest().len(),
    {
        proof {
            use_type_invariant(self);
        }
        self.data.len() - self.pos
    }

    /// Hands out the next `n` bytes and moves past them. Fails, without
    /// moving, when fewer than `n` bytes are left.
    pub fn take(&mut self, n: usize) -> (taken: Result<&'a [u8], DecodeError>)
        ensures
            n <= old(self).rest().len() ==> taken is Ok,
            match taken {
                Ok(bytes) => {
                    &&& n <= old(self).rest().len()
                    &&& bytes@ == old(self).rest().take(n as int)
                    &&& final(self).rest() == old(self).rest().skip(n as int)
                },
                Err(e) => {
                    &&& e == DecodeError::UnexpectedEof
                    &&& n > old(self).rest().len()
                    &&& final(self).rest() == old(self).rest()
                },
            },
    {
        proof {
            use_type_invariant(&*self);
        }
        if n > self.data.len() - self.pos {
            return Err(DecodeError::UnexpectedEof);
        }
        let start: usize = self.pos;
        let bytes = slice_subrange(self.data, start, start + n);
        self.pos = start + n;
        proof {
            assert(bytes@ =~= old(self).rest().take(n as int));
            assert(self.rest() =~= old(self).rest().skip(n as int));
        }
        Ok(bytes)
    }

    /// Reads a little-endian number of `width` bytes.
    pub fn read_le(&mut self, width: usize) -> (value: Result<u64, DecodeError>)
        requires
            width <= 8,
        ensures
            match value {
                Ok(v) => {
                    &&& width <= old(self).rest().len()
                    &&& v as nat == le_value(old(self).rest().take(width as int))
                    &&& final(self).rest() == old(self).rest().skip(width as int)
                },
                Err(e) => {
                    &&& e == DecodeError::UnexpectedEof
                    &&& width > old(self).rest().len()
                    &&& final(self).rest() == old(self).rest()
                },
            },
    {
        match self.take(width) {
            Ok(bytes) => {
                let v = read_le(bytes, 0, width);
                proof {
                    assert(bytes@.subrange(0, width as int) =~= bytes@);
                }
                Ok(v)
            },
            Err(e) => Err(e),
        }
    }
}

} // verus!
