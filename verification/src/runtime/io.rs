//! Bit buffers between the interpreter, which reads and writes single bits,
//! and the outside world, which deals in bytes. Both take the bits of a byte
//! from the highest to the lowest.

use vstd::prelude::*;

verus! {

/// Bit `k` of a byte, counted from the lowest.
pub open spec fn bit_at(byte: u8, k: u8) -> bool {
    byte & (1u8 << k) != 0
}

/// The eight bits of a byte, highest first.
pub open spec fn bits_of(byte: u8) -> Seq<bool> {
    Seq::new(8, |i: int| bit_at(byte, (7 - i) as u8))
}

/// The byte whose bits, highest first, are the first eight of `bits`.
pub open spec fn byte_of(bits: Seq<bool>) -> u8 {
    (if bits[0] { 0x80u8 } else { 0 }) | (if bits[1] { 0x40u8 } else { 0 })
        | (if bits[2] { 0x20u8 } else { 0 }) | (if bits[3] { 0x10u8 } else { 0 })
        | (if bits[4] { 0x08u8 } else { 0 }) | (if bits[5] { 0x04u8 } else { 0 })
        | (if bits[6] { 0x02u8 } else { 0 }) | (if bits[7] { 0x01u8 } else { 0 })
}

/// The byte that a byte source stands for: a source that fails reads as zero.
pub open spec fn byte_read(source: Option<u8>) -> u8 {
    match source {
        Some(byte) => byte,
        None => 0,
    }
}

/// The bits that are offered next, once a read has asked for one: those
/// still pending, or those of a fresh byte where none is.
pub open spec fn bits_on_read(pending: Seq<bool>, source: Option<u8>) -> Seq<bool> {
    if pending.len() == 0 {
        bits_of(byte_read(source))
    } else {
        pending
    }
}

/// What a write of `bit` leaves of the bits written so far, and the byte that
/// it completes, if it does.
pub open spec fn bits_on_write(written: Seq<bool>, bit: bool) -> (Option<u8>, Seq<bool>) {
    let bits = written.push(bit);
    if bits.len() == 8 {
        (Some(byte_of(bits)), Seq::empty())
    } else {
        (None, bits)
    }
}

/// A byte is the byte of its bits.
pub proof fn byte_of_its_bits(byte: u8)
    ensures
        byte_of(bits_of(byte)) == byte,
{
    assert(byte == (if byte & (1u8 << 7u8) != 0 { 0x80u8 } else { 0 }) | (if byte & (1u8 << 6u8)
        != 0 { 0x40u8 } else { 0 }) | (if byte & (1u8 << 5u8) != 0 { 0x20u8 } else { 0 }) | (if byte
        & (1u8 << 4u8) != 0 { 0x10u8 } else { 0 }) | (if byte & (1u8 << 3u8) != 0 { 0x08u8 } else {
        0
    }) | (if byte & (1u8 << 2u8) != 0 { 0x04u8 } else { 0 }) | (if byte & (1u8 << 1u8) != 0 {
        0x02u8
    } else {
        0
    }) | (if byte & (1u8 << 0u8) != 0 { 0x01u8 } else { 0 })) by (bit_vector);
}

/// Holds the byte that was read last and hands it out bit by bit.
pub struct StdInBitBuffer {
    byte: u8,
    bit_idx: u8,
}

impl View for StdInBitBuffer {
    type V = Seq<bool>;

    /// The bits that are left of the last byte, in the order in which they
    /// will be handed out.
    closed spec fn view(&self) -> Seq<bool> {
        Seq::new(self.bit_idx as nat, |i: int| bit_at(self.byte, (self.bit_idx - 1 - i) as u8))
    }
}

impl StdInBitBuffer {
    #[verifier::type_invariant]
    spec fn inv(&self) -> bool {
        self.bit_idx <= 8
    }

    /// A buffer with no bit pending.
    pub fn new() -> (r: Self)
        ensures
            r@ == Seq::<bool>::empty(),
    {
        Self { byte: 0, bit_idx: 0 }
    }

    /// Whether the next read takes a fresh byte.
    pub fn is_drained(&self) -> (r: bool)
        ensures
            r == (self@.len() == 0),
    {
        self.bit_idx == 0
    }

    /// Hands out the next bit. `source` is what the byte source answers when
    /// asked for a byte: it is looked at only where no bit is pending, and a
    /// source that failed stands for a zero byte.
    pub fn read_bit(&mut self, source: Option<u8>) -> (bit: bool)
        ensures
            bit == bits_on_read(old(self)@, source)[0],
            final(self)@ == bits_on_read(old(self)@, source).drop_first(),
    {
        proof {
            use_type_invariant(&*self);
        }
        if self.bit_idx == 0 {
            let byte = match source {
                Some(byte) => byte,
                None => 0,
            };
            *self = StdInBitBuffer { byte, bit_idx: 8 };
        }
        let ghost offered = self@;
        assert(offered == bits_on_read(old(self)@, source));
        self.bit_idx = self.bit_idx - 1;
        assert(self@ =~= offered.drop_first());
        self.byte & (1u8 << self.bit_idx) != 0
    }
}

/// Collects bits until they make a byte.
pub struct StdOutBitBuffer {
    byte: u8,
    bit_idx: u8,
}

impl View for StdOutBitBuffer {
    type V = Seq<bool>;

    /// The bits written since the last full byte, oldest first.
    closed spec fn view(&self) -> Seq<bool> {
        Seq::new((8 - self.bit_idx) as nat, |i: int| bit_at(self.byte, (7 - i) as u8))
    }
}

impl StdOutBitBuffer {
    #[verifier::type_invariant]
    spec fn inv(&self) -> bool {
        &&& 1 <= self.bit_idx <= 8
        &&& forall|k: u8| k < self.bit_idx ==> !bit_at(self.byte, k)
    }

    /// A buffer with no bit written.
    pub fn new() -> (r: Self)
        ensures
            r@ == Seq::<bool>::empty(),
    {
        assert(forall|k: u8| k < 8 ==> !bit_at(0u8, k)) by {
            assert(forall|k: u8| k < 8 ==> 0u8 & (1u8 << k) == 0) by (bit_vector);
        }
        Self { byte: 0, bit_idx: 8 }
    }

    /// Takes one more bit. The eighth bit completes a byte, which is handed
    /// back for the byte sink, and the buffer starts anew.
    pub fn write_bit(&mut self, bit: bool) -> (full: Option<u8>)
        ensures
            full == bits_on_write(old(self)@, bit).0,
            final(self)@ == bits_on_write(old(self)@, bit).1,
    {
        proof {
            use_type_invariant(&*self);
        }
        let idx: u8 = self.bit_idx - 1;
        let byte: u8 = if bit {
            self.byte | (1u8 << idx)
        } else {
            self.byte
        };
        proof {
            let before = self.byte;
            assert(forall|k: u8| k < 8 && k != idx ==> bit_at(byte, k) == bit_at(before, k)) by {
                assert(forall|k: u8, b: u8, i: u8|
                    k < 8 && i < 8 && k != i ==> ((b | (1u8 << i)) & (1u8 << k) != 0) == (b & (1u8
                        << k) != 0)) by (bit_vector);
            }
            assert(bit_at(byte, idx) == bit) by {
                assert(forall|b: u8, i: u8| i < 8 ==> (b | (1u8 << i)) & (1u8 << i) != 0)
                    by (bit_vector);
            }
            assert(Seq::new((8 - idx) as nat, |i: int| bit_at(byte, (7 - i) as u8)) =~= self@.push(
                bit,
            ));
        }
        if idx == 0 {
            proof {
                byte_of_its_bits(byte);
                assert(bits_of(byte) =~= old(self)@.push(bit));
            }
            assert(forall|k: u8| k < 8 ==> !bit_at(0u8, k)) by {
                assert(forall|k: u8| k < 8 ==> 0u8 & (1u8 << k) == 0) by (bit_vector);
            }
            *self = StdOutBitBuffer { byte: 0, bit_idx: 8 };
            Some(byte)
        } else {
            *self = StdOutBitBuffer { byte, bit_idx: idx };
            None
        }
    }
}

} // verus!
