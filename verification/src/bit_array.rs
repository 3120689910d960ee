//! Fixed-capacity bit storage: one flag per bit, eight flags per byte.

use vstd::prelude::*;

verus! {

/// Whether bit `k` of `byte` is set; bit 0 is the least significant one.
pub open spec fn bit_of(byte: u8, k: usize) -> bool {
    (byte >> k) & 1 == 1
}

/// The number of bytes needed to hold `bits` flags.
pub open spec fn bytes_for(bits: nat) -> nat {
    (bits + 7) / 8
}

/// Setting bit `k` of a byte turns that bit on and leaves the other seven alone.
pub proof fn lemma_set_bit(byte: u8, k: usize, j: usize)
    requires
        k < 8,
        j < 8,
    ensures
        bit_of(byte | (1u8 << k), j) == (j == k || bit_of(byte, j)),
{
    assert(((byte | (1u8 << k)) >> j) & 1 == 1 <==> (j == k || (byte >> j) & 1 == 1))
        by (bit_vector)
        requires
            k < 8,
            j < 8,
    ;
}

/// No bit of the zero byte is set.
pub proof fn lemma_zero_byte(k: usize)
    requires
        k < 8,
    ensures
        !bit_of(0u8, k),
{
    assert((0u8 >> k) & 1 == 0) by (bit_vector);
}

/// A fixed number of flags, packed eight to a byte.  Flag `i` is bit `i % 8`
/// of byte `i / 8`.
pub struct BitArray {
    data: Vec<u8>,
    bits: usize,
}

impl BitArray {
    /// The buffer has exactly the bytes that the capacity calls for.
    pub closed spec fn wf(&self) -> bool {
        self.data@.len() == bytes_for(self.bits as nat)
    }

    /// The number of flags.
    pub closed spec fn capacity(&self) -> nat {
        self.bits as nat
    }

    /// The bytes behind the flags.
    pub closed spec fn bytes(&self) -> Seq<u8> {
        self.data@
    }

    /// The flags, in index order.
    pub open spec fn view(&self) -> Seq<bool> {
        Seq::new(self.capacity(), |i: int| bit_of(self.bytes()[i / 8], (i % 8) as usize))
    }

    /// A store of `capacity_bits` flags, none of them set.
    pub fn new(capacity_bits: usize) -> (store: Self)
        ensures
            store.wf(),
            store.capacity() == capacity_bits,
            store.bytes() == Seq::new(bytes_for(capacity_bits as nat), |i: int| 0u8),
            store@ == Seq::new(capacity_bits as nat, |i: int| false),
    {
        let len: usize = capacity_bits / 8 + if capacity_bits % 8 == 0 { 0 } else { 1 };
        let store = Self { data: vec![0u8; len], bits: capacity_bits };
        proof {
            assert(store.data@ =~= Seq::new(bytes_for(capacity_bits as nat), |i: int| 0u8));
            assert forall|i: int| 0 <= i < capacity_bits implies !store@[i] by {
                lemma_zero_byte((i % 8) as usize);
            }
            assert(store@ =~= Seq::new(capacity_bits as nat, |i: int| false));
        }
        store
    }

    /// The number of flags.
    pub fn len(&self) -> (n: usize)
        ensures
            n == self.capacity(),
            n == self@.len(),
    {
        self.bits
    }

    /// Whether flag `index` is set.
    pub fn get(&self, index: usize) -> (flag: bool)
        requires
            self.wf(),
            index < self@.len(),
        ensures
            flag == self@[index as int],
    {
        (self.data[index / 8] >> (index % 8)) & 1 == 1
    }

    /// Sets flag `index`; every other flag keeps its value, and so does every
    /// byte but the one that holds the flag.
    pub fn set(&mut self, index: usize)
        requires
            old(self).wf(),
            index < old(self)@.len(),
        ensures
            final(self).wf(),
            final(self).capacity() == old(self).capacity(),
            final(self)@ == old(self)@.update(index as int, true),
            final(self).bytes() == old(self).bytes().update(
                index as int / 8,
                old(self).bytes()[index as int / 8] | (1u8 << (index % 8)),
            ),
    {
        let byte: u8 = self.data[index / 8];
        let updated: u8 = byte | (1u8 << (index % 8));
        self.data.set(index / 8, updated);
        proof {
            let before = old(self)@;
            assert forall|i: int| 0 <= i < before.len() implies self@[i] == before.update(
                index as int,
                true,
            )[i] by {
                if i / 8 == index as int / 8 {
                    lemma_set_bit(byte, index % 8, (i % 8) as usize);
                }
            }
            assert(self@ =~= before.update(index as int, true));
        }
    }
}

/// Setting a flag a second time changes nothing: neither a flag nor a byte.
pub proof fn lemma_set_is_idempotent(before: BitArray, once: BitArray, twice: BitArray, index: usize)
    requires
        before.wf(),
        index < before@.len(),
        once.capacity() == before.capacity(),
        once@ == before@.update(index as int, true),
        once.bytes() == before.bytes().update(
            index as int / 8,
            before.bytes()[index as int / 8] | (1u8 << (index % 8)),
        ),
        twice.capacity() == once.capacity(),
        twice@ == once@.update(index as int, true),
        twice.bytes() == once.bytes().update(
            index as int / 8,
            once.bytes()[index as int / 8] | (1u8 << (index % 8)),
        ),
    ensures
        twice@ == once@,
        twice.bytes() == once.bytes(),
{
    let byte = before.bytes()[index as int / 8];
    let k = index % 8;
    assert((byte | (1u8 << k)) | (1u8 << k) == byte | (1u8 << k)) by (bit_vector);
    assert(twice@ =~= once@);
    assert(twice.bytes() =~= once.bytes());
}

} // verus!
