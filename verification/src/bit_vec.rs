//! Growable bit storage: the buffer is extended, zero-filled, whenever a flag
//! beyond its end is set.

use crate::bit_array::{bit_of, lemma_set_bit, lemma_zero_byte};
use vstd::prelude::*;
use vstd::string::StringExecFns;

verus! {

/// The flags that a byte buffer holds, in index order: flag `i` is bit `i % 8`
/// of byte `i / 8`.
pub open spec fn flags_of(bytes: Seq<u8>) -> Seq<bool> {
    Seq::new(8 * bytes.len(), |i: int| bit_of(bytes[i / 8], (i % 8) as usize))
}

/// The flags `flags` once room has been made for flag `index`: unchanged where
/// `index` is within them, else extended by unset flags to the end of the byte
/// that holds `index`.
pub open spec fn grown(flags: Seq<bool>, index: nat) -> Seq<bool> {
    if index < flags.len() {
        flags
    } else {
        flags + Seq::new((8 * (index / 8 + 1) - flags.len()) as nat, |i: int| false)
    }
}

/// The digit that stands for a flag.
pub open spec fn digit(flag: bool) -> char {
    if flag {
        '1'
    } else {
        '0'
    }
}

/// The flags as text, a byte at a time from the last byte to the first: each
/// byte's eight digits, highest bit first, and a space after them.
pub open spec fn text(flags: Seq<bool>) -> Seq<char>
    decreases flags.len(),
{
    if flags.len() < 8 {
        Seq::empty()
    } else {
        Seq::new(8, |j: int| digit(flags[flags.len() - 1 - j])) + seq![' '] + text(
            flags.subrange(0, flags.len() - 8),
        )
    }
}

/// A growing sequence of flags, packed eight to a byte.
#[derive(Debug)]
pub struct BitVec {
    data: Vec<u8>,
}

impl BitVec {
    /// The flags that storage has been allotted for, in index order; their
    /// number is a multiple of 8.
    pub closed spec fn view(&self) -> Seq<bool> {
        flags_of(self.data@)
    }

    /// Whether flag `index` is set; a flag beyond the allotted ones is not.
    pub open spec fn is_set(&self, index: nat) -> bool {
        index < self@.len() && self@[index as int]
    }

    /// An empty store.
    pub fn new() -> (store: Self)
        ensures
            store@ == Seq::<bool>::empty(),
    {
        let store = Self { data: Vec::new() };
        assert(store@ =~= Seq::<bool>::empty());
        store
    }

    /// Whether flag `index` is set.  A flag that no storage has been allotted
    /// for yet reads as not set.
    pub fn get(&self, index: usize) -> (flag: bool)
        ensures
            flag == self.is_set(index as nat),
    {
        index / 8 < self.data.len() && (self.data[index / 8] >> (index % 8)) & 1 == 1
    }

    /// Sets flag `index`, first extending the storage with unset flags where
    /// it ends before `index`.  Every other flag keeps its value.
    pub fn set(&mut self, index: usize)
        ensures
            final(self)@ == grown(old(self)@, index as nat).update(index as int, true),
            forall|i: nat| final(self).is_set(i) == (i == index || old(self).is_set(i)),
    {
        let at: usize = index / 8;
        if at >= self.data.len() {
            let expand_size: usize = at - self.data.len() + 1;
            let mut expansion: Vec<u8> = vec![0u8; expand_size];
            self.data.append(&mut expansion);
        }
        let ghost room = self@;
        proof {
            assert forall|i: int| 0 <= i < room.len() implies room[i] == grown(
                old(self)@,
                index as nat,
            )[i] by {
                if i >= old(self)@.len() {
                    lemma_zero_byte((i % 8) as usize);
                }
            }
            assert(room =~= grown(old(self)@, index as nat));
        }
        let byte: u8 = self.data[at];
        self.data.set(at, byte | (1u8 << (index % 8)));
        proof {
            assert forall|i: int| 0 <= i < room.len() implies self@[i] == room.update(
                index as int,
                true,
            )[i] by {
                if i / 8 == at {
                    lemma_set_bit(byte, index % 8, (i % 8) as usize);
                }
            }
            assert(self@ =~= room.update(index as int, true));
        }
    }

    /// The flags as text: see `text`.
    pub fn to_string(&self) -> (out: String)
        ensures
            out@ == text(self@),
    {
        let mut out = String::new();
        let mut i: usize = self.data.len();
        proof {
            assert(self.data@.subrange(0, i as int) =~= self.data@);
            assert(out@ + text(self@) =~= text(self@));
        }
        while i > 0
            invariant
                i <= self.data@.len(),
                out@ + text(flags_of(self.data@.subrange(0, i as int))) == text(self@),
            decreases i,
        {
            let byte: u8 = self.data[i - 1];
            let ghost flags = flags_of(self.data@.subrange(0, i as int));
            let ghost start = out@;
            let mut j: usize = 0;
            while j < 8
                invariant
                    j <= 8,
                    0 < i <= self.data@.len(),
                    byte == self.data@[i - 1],
                    flags == flags_of(self.data@.subrange(0, i as int)),
                    out@ == start + Seq::new(j as nat, |k: int| digit(flags[flags.len() - 1 - k])),
                decreases 8 - j,
            {
                let ghost so_far = out@;
                if (byte >> (7 - j)) & 1 == 1 {
                    proof {
                        reveal_strlit("1");
                    }
                    out.append("1");
                } else {
                    proof {
                        reveal_strlit("0");
                    }
                    out.append("0");
                }
                proof {
                    assert(flags[flags.len() - 1 - j] == bit_of(byte, (7 - j) as usize));
                    assert(out@ =~= start + Seq::new(
                        (j + 1) as nat,
                        |k: int| digit(flags[flags.len() - 1 - k]),
                    ));
                }
                j += 1;
            }
            proof {
                reveal_strlit(" ");
            }
            out.append(" ");
            proof {
                assert(flags.subrange(0, flags.len() - 8) =~= flags_of(
                    self.data@.subrange(0, i - 1),
                ));
                assert(out@ + text(flags_of(self.data@.subrange(0, i - 1))) =~= start + text(
                    flags,
                ));
            }
            i -= 1;
        }
        proof {
            assert(out@ + text(flags_of(self.data@.subrange(0, 0))) =~= out@);
        }
        out
    }
}

/// Setting a flag a second time changes nothing.
pub proof fn lemma_set_is_idempotent(flags: Seq<bool>, index: nat)
    ensures
        grown(grown(flags, index).update(index as int, true), index).update(index as int, true)
            == grown(flags, index).update(index as int, true),
{
    let once = grown(flags, index).update(index as int, true);
    assert(grown(once, index).update(index as int, true) =~= once);
}

} // verus!
