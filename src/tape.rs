use vstd::prelude::*;
use smallvec::SmallVec;

verus! {

/// A ring of 4-bit cells packed two per byte: cell `2k` is the low nibble of
/// byte `k`, cell `2k + 1` its high nibble.
#[verifier::external_body]
pub struct U4Vec {
    bytes: SmallVec<[u8; 16]>,
}

/// The packed bytes held by a tape.
pub uninterp spec fn packed(v: U4Vec) -> Seq<u8>;

/// Value of cell `i` in a packed byte string.
pub open spec fn cell_of(bytes: Seq<u8>, i: int) -> int {
    if i % 2 == 0 {
        bytes[i / 2] as int % 16
    } else {
        bytes[i / 2] as int / 16
    }
}

/// The bytes after cell `i` is set to `v` modulo 16.
pub open spec fn set_cell(bytes: Seq<u8>, i: int, v: int) -> Seq<u8> {
    let b = bytes[i / 2] as int;
    bytes.update(
        i / 2,
        (if i % 2 == 0 {
            (b / 16) * 16 + v % 16
        } else {
            (v % 16) * 16 + b % 16
        }) as u8,
    )
}

/// Number of bytes that hold `n` cells.
pub open spec fn bytes_for(n: int) -> int {
    (n + 1) / 2
}

impl U4Vec {
    pub open spec fn view(&self) -> Seq<u8> {
        packed(*self)
    }

    /// A tape of `n` cells is `bytes_for(n)` bytes long, and an unused high
    /// nibble is zero, so that equal byte strings mean equal cells.
    pub open spec fn holds(&self, n: int) -> bool {
        &&& self@.len() == bytes_for(n)
        &&& n % 2 == 1 ==> self@[n / 2] < 16
    }

    /// Relies on `SmallVec::from_elem`: `n` copies of the element.
    #[verifier::external_body]
    fn zeroed_bytes(n: usize) -> (r: U4Vec)
        ensures
            packed(r) == Seq::new(n as nat, |_i: int| 0u8),
    {
        U4Vec { bytes: SmallVec::from_elem(0u8, n) }
    }

    /// Relies on `SmallVec`'s `Index`: the byte at position `k`.
    #[verifier::external_body]
    fn byte(&self, k: usize) -> (r: u8)
        requires
            k < self@.len(),
        ensures
            r == packed(*self)[k as int],
    {
        self.bytes[k]
    }

    /// Relies on `SmallVec`'s `IndexMut`: replaces the byte at position `k`.
    #[verifier::external_body]
    fn set_byte(&mut self, k: usize, b: u8)
        requires
            k < old(self)@.len(),
        ensures
            packed(*final(self)) == packed(*old(self)).update(k as int, b),
    {
        self.bytes[k] = b;
    }

    /// Relies on `SmallVec::clone`: a vector with the same elements.
    #[verifier::external_body]
    pub(crate) fn duplicate(&self) -> (r: U4Vec)
        ensures
            packed(r) == packed(*self),
    {
        U4Vec { bytes: self.bytes.clone() }
    }

    /// Relies on `SmallVec`'s `PartialEq`: element-wise slice equality.
    #[verifier::external_body]
    pub(crate) fn same_bytes(&self, other: &U4Vec) -> (r: bool)
        ensures
            r == (packed(*self) == packed(*other)),
    {
        self.bytes == other.bytes
    }

    /// A tape of `n` cells, all zero.
    pub fn zeroed(n: usize) -> (r: U4Vec)
        ensures
            r.holds(n as int),
            r@ == Seq::new(bytes_for(n as int) as nat, |_i: int| 0u8),
            forall|i: int| 0 <= i < n ==> cell_of(r@, i) == 0,
    {
        let r = U4Vec::zeroed_bytes(n / 2 + n % 2);
        assert(r@.len() == bytes_for(n as int));
        r
    }

    pub fn get(&self, index: usize) -> (r: u8)
        requires
            index / 2 < self@.len(),
        ensures
            r < 16,
            r == cell_of(self@, index as int),
    {
        let b = self.byte(index / 2);
        if index % 2 == 0 {
            assert(b & 0x0F == b % 16 && b & 0x0F < 16) by (bit_vector);
            b & 0x0F
        } else {
            assert(b >> 4u8 == b / 16 && b >> 4u8 < 16) by (bit_vector);
            b >> 4
        }
    }

    /// Writes the low four bits of `value` into cell `index`; every other cell keeps its value.
    pub fn set(&mut self, index: usize, value: u8)
        requires
            index / 2 < old(self)@.len(),
        ensures
            final(self)@ == set_cell(old(self)@, index as int, value as int),
            final(self)@.len() == old(self)@.len(),
            cell_of(final(self)@, index as int) == value % 16,
            forall|i: int|
                0 <= i / 2 < old(self)@.len() && i != index ==> cell_of(final(self)@, i) == cell_of(
                    old(self)@,
                    i,
                ),
            forall|k: int| 0 <= k < old(self)@.len() && k != index / 2 ==> final(self)@[k] == old(self)@[k],
            forall|n: int| #[trigger] old(self).holds(n) && index < n ==> final(self).holds(n),
    {
        let k = index / 2;
        let b = self.byte(k);
        let v = value & 0x0F;
        assert(v == value % 16) by (bit_vector)
            requires v == value & 0x0F;
        let nb: u8;
        if index % 2 == 0 {
            nb = (b & 0xF0) | v;
            assert(nb % 16 == value % 16 && nb / 16 == b / 16 && nb == (b / 16) * 16 + value % 16) by (bit_vector)
                requires nb == (b & 0xF0) | v, v == value & 0x0F;
        } else {
            nb = (b & 0x0F) | (v << 4u8);
            assert(nb / 16 == value % 16 && nb % 16 == b % 16 && nb == (value % 16) * 16 + b % 16) by (bit_vector)
                requires nb == (b & 0x0F) | (v << 4u8), v == value & 0x0F;
        }
        self.set_byte(k, nb);
        assert forall|n: int| #[trigger] old(self).holds(n) && index < n implies self.holds(n) by {
            if n % 2 == 1 && n / 2 == k {
                assert(index % 2 == 0);
                assert(nb < 16) by (bit_vector)
                    requires nb / 16 == b / 16, b < 16;
            }
        }
        assert forall|i: int|
            0 <= i / 2 < old(self)@.len() && i != index implies cell_of(self@, i) == cell_of(
                old(self)@,
                i,
            ) by {
            if i / 2 == k {
                assert(i % 2 != index % 2);
            }
        }
    }
}

} // verus!
