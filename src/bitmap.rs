//! An owned bitmap: one bit per index, each set at most once.
use vstd::prelude::*;
use crate::distributor::Pubkey;
use crate::merkle_proof::bytes_eq;

verus! {

/// Why a bitmap instruction failed.
#[derive(Clone, Copy, Debug, PartialEq, Eq, Structural)]
pub enum ErrorCode {
    /// The bit at the index is set already.
    AlreadySet,
    /// The index is past the bitmap's capacity.
    IndexOverflow,
    /// The signer is not the bitmap's owner.
    Unauthorized,
}

/// A bitmap and the key that may change it.
#[derive(Debug, PartialEq, Eq)]
pub struct OwnedBitmap {
    /// Key allowed to set bits and close the bitmap.
    pub owner: Pubkey,
    /// The bits, eight to a byte, lowest bit first.
    pub bitmap: Vec<u8>,
}

/// Bit `k` (0 is the lowest) of byte `b`.
pub open spec fn bit_of(b: u8, k: int) -> bool {
    ((b >> (k as u8)) & 1u8) == 1u8
}

proof fn lemma_or_bit(b: u8, k: u8, j: u8)
    requires
        k < 8,
        j < 8,
    ensures
        (((b | (1u8 << k)) >> j) & 1u8 == 1u8) == (j == k || (b >> j) & 1u8 == 1u8),
{
    assert((((b | (1u8 << k)) >> j) & 1u8 == 1u8) == (j == k || (b >> j) & 1u8 == 1u8))
        by (bit_vector)
        requires
            k < 8,
            j < 8,
    ;
}

proof fn lemma_zero_bits(j: u8)
    requires
        j < 8,
    ensures
        (0u8 >> j) & 1u8 != 1u8,
{
    assert((0u8 >> j) & 1u8 != 1u8) by (bit_vector);
}

impl OwnedBitmap {
    /// The bits, index by index.
    pub open spec fn bits(&self) -> Seq<bool> {
        Seq::new(self.bitmap@.len() * 8, |i: int| bit_of(self.bitmap@[i / 8], i % 8))
    }

    /// The number of bits fits in a `u64`, the number of bytes in a `usize`.
    pub open spec fn wf(&self) -> bool {
        &&& self.bitmap@.len() * 8 <= u64::MAX
        &&& self.bitmap@.len() <= usize::MAX
    }

    /// The number of bits.
    pub fn capacity(&self) -> (r: u64)
        requires
            self.wf(),
        ensures
            r == self.bits().len(),
    {
        (self.bitmap.len() as u64) * 8
    }

    /// Whether the bit at `index` is set.
    pub fn is_set(&self, index: u64) -> (r: bool)
        requires
            self.wf(),
            index < self.bits().len(),
        ensures
            r == self.bits()[index as int],
    {
        assert(index / 8 < self.bitmap@.len()) by (nonlinear_arith)
            requires
                index < self.bitmap@.len() * 8,
        ;
        let vec_index = (index / 8) as usize;
        let bit_index = (index % 8) as u8;
        (self.bitmap[vec_index] >> bit_index) & 1 == 1
    }

    /// Sets the bit at `index`, which must be in range and not set yet.
    pub fn set(&mut self, index: u64) -> (r: Result<(), ErrorCode>)
        requires
            old(self).wf(),
        ensures
            index >= old(self).bits().len() ==> r == Err::<(), ErrorCode>(ErrorCode::IndexOverflow),
            index < old(self).bits().len() && old(self).bits()[index as int] ==> r == Err::<
                (),
                ErrorCode,
            >(ErrorCode::AlreadySet),
            r is Ok <==> index < old(self).bits().len() && !old(self).bits()[index as int],
            r is Err ==> *final(self) == *old(self),
            r is Ok ==> final(self).bits() == old(self).bits().update(index as int, true),
            final(self).owner == old(self).owner,
            final(self).bitmap@.len() == old(self).bitmap@.len(),
    {
        if index >= self.capacity() {
            return Err(ErrorCode::IndexOverflow);
        }
        if self.is_set(index) {
            return Err(ErrorCode::AlreadySet);
        }
        assert(index / 8 < self.bitmap@.len()) by (nonlinear_arith)
            requires
                index < self.bitmap@.len() * 8,
        ;
        let vec_index = (index / 8) as usize;
        let bit_index = (index % 8) as u8;
        let ghost before = self.bits();
        let byte = self.bitmap[vec_index];
        self.bitmap.set(vec_index, byte | (1u8 << bit_index));
        assert forall|i: int| 0 <= i < before.len() implies #[trigger] self.bits()[i] == before.update(
            index as int,
            true,
        )[i] by {
            if i / 8 == vec_index as int {
                lemma_or_bit(byte, bit_index, (i % 8) as u8);
                assert((i == index) == (i % 8 == index % 8));
            }
        }
        assert(self.bits() =~= before.update(index as int, true));
        Ok(())
    }
}

/// A bitmap owned by `owner` with `len / 8` bytes, every bit clear.
pub fn initialize(owner: &Pubkey, len: u64) -> (r: OwnedBitmap)
    requires
        len / 8 <= usize::MAX,
    ensures
        r.owner == *owner,
        r.bitmap@.len() == len / 8,
        r.wf(),
        forall|i: int| 0 <= i < r.bits().len() ==> !r.bits()[i],
{
    let n = (len / 8) as usize;
    let mut bitmap: Vec<u8> = Vec::new();
    let mut i: usize = 0;
    while i < n
        invariant
            i <= n,
            bitmap@.len() == i,
            forall|j: int| 0 <= j < i ==> bitmap@[j] == 0u8,
        decreases n - i,
    {
        bitmap.push(0u8);
        i = i + 1;
    }
    let r = OwnedBitmap { owner: *owner, bitmap };
    assert forall|i: int| 0 <= i < r.bits().len() implies !r.bits()[i] by {
        lemma_zero_bits((i % 8) as u8);
    }
    r
}

/// Sets the bit at `index` on behalf of `signer`, who must own the bitmap.
pub fn set(ob: &mut OwnedBitmap, signer: &Pubkey, index: u64) -> (r: Result<(), ErrorCode>)
    requires
        old(ob).wf(),
    ensures
        *signer != old(ob).owner ==> r == Err::<(), ErrorCode>(ErrorCode::Unauthorized) && *final(ob)
            == *old(ob),
        *signer == old(ob).owner ==> {
            &&& index >= old(ob).bits().len() ==> r == Err::<(), ErrorCode>(ErrorCode::IndexOverflow)
            &&& index < old(ob).bits().len() && old(ob).bits()[index as int] ==> r == Err::<
                (),
                ErrorCode,
            >(ErrorCode::AlreadySet)
            &&& r is Ok <==> index < old(ob).bits().len() && !old(ob).bits()[index as int]
            &&& r is Err ==> *final(ob) == *old(ob)
            &&& r is Ok ==> final(ob).bits() == old(ob).bits().update(index as int, true)
            &&& final(ob).owner == old(ob).owner
        },
{
    if !bytes_eq(signer, &ob.owner) {
        return Err(ErrorCode::Unauthorized);
    }
    ob.set(index)
}

/// Checks that `signer` owns the bitmap, which may then be closed.
pub fn close(ob: &OwnedBitmap, signer: &Pubkey) -> (r: Result<(), ErrorCode>)
    ensures
        r is Ok <==> *signer == ob.owner,
        r is Err ==> r == Err::<(), ErrorCode>(ErrorCode::Unauthorized),
{
    if !bytes_eq(signer, &ob.owner) {
        return Err(ErrorCode::Unauthorized);
    }
    Ok(())
}

} // verus!
