use vstd::prelude::*;

use ps_hkey::{InMemoryStore, InMemoryStoreError};

use crate::codec::{be16, push_key};
use crate::store::{store_bytes, stored_hkey, MAX_RAW_VALUE};

verus! {

/// Why a key could not be turned into a tree key.
#[derive(Debug)]
pub enum HtreeKeyError {
    /// The store failed.
    Store(InMemoryStoreError),
}

/// A value that names a leaf: it is turned into the 128-bit key (a UUID read as a
/// big-endian integer) under which the leaf is filed.
pub trait HtreeKey {
    /// The tree key this value stands for.
    spec fn tree_key(&self) -> u128;

    /// The value is turned into its key without the store, so the conversion cannot fail.
    spec fn converts_directly(&self) -> bool;

    /// Turns this value into its tree key.
    fn try_to_uuid(&self, store: &InMemoryStore) -> (r: Result<u128, HtreeKeyError>)
        ensures
            r matches Ok(k) ==> k == self.tree_key(),
            self.converts_directly() ==> r is Ok;

    /// The 16 bytes of this value's tree key, most significant first.
    fn try_to_bytes(&self, store: &InMemoryStore) -> (r: Result<Vec<u8>, HtreeKeyError>)
        ensures
            r matches Ok(b) ==> b@ == be16(self.tree_key()),
            self.converts_directly() ==> r is Ok,
    {
        match self.try_to_uuid(store) {
            Ok(k) => {
                let mut b: Vec<u8> = Vec::new();
                push_key(&mut b, k);
                proof {
                    assert(b@ =~= be16(k));
                }
                Ok(b)
            },
            Err(e) => Err(e),
        }
    }

    /// Stores the 16 bytes of this value's tree key and returns the compact form of the
    /// reference to them: so few bytes are inlined, so the form is the bytes themselves.
    fn try_to_hkey(&self, store: &InMemoryStore) -> (r: Result<Vec<u8>, HtreeKeyError>)
        ensures
            r matches Ok(h) ==> h@ == stored_hkey(be16(self.tree_key())) && h@ == be16(self.tree_key()),
            self.converts_directly() ==> r is Ok,
    {
        let bytes = match self.try_to_bytes(store) {
            Ok(b) => b,
            Err(e) => return Err(e),
        };
        match store_bytes(store, bytes.as_slice()) {
            Ok(h) => Ok(h),
            Err(e) => Err(HtreeKeyError::Store(e)),
        }
    }
}

/// The 128-bit pattern of a signed integer (two's complement).
pub open spec fn signed_bits(x: int) -> u128 {
    if x >= 0 {
        x as u128
    } else {
        (x + 0x1_0000_0000_0000_0000_0000_0000_0000_0000int) as u128
    }
}

/// Widens a signed integer to 128 bits and reads the bits as unsigned.
fn signed_to_key(x: i128) -> (r: u128)
    ensures
        r == signed_bits(x as int),
{
    if x >= 0 {
        x as u128
    } else {
        let y: i128 = x + 1;
        let m: u128 = (-y) as u128;
        u128::MAX - m
    }
}

impl HtreeKey for u128 {
    open spec fn tree_key(&self) -> u128 {
        *self
    }

    open spec fn converts_directly(&self) -> bool {
        true
    }

    fn try_to_uuid(&self, store: &InMemoryStore) -> (r: Result<u128, HtreeKeyError>) {
        Ok(*self)
    }
}

impl HtreeKey for u64 {
    open spec fn tree_key(&self) -> u128 {
        *self as u128
    }

    open spec fn converts_directly(&self) -> bool {
        true
    }

    fn try_to_uuid(&self, store: &InMemoryStore) -> (r: Result<u128, HtreeKeyError>) {
        Ok(*self as u128)
    }
}

impl HtreeKey for u32 {
    open spec fn tree_key(&self) -> u128 {
        *self as u128
    }

    open spec fn converts_directly(&self) -> bool {
        true
    }

    fn try_to_uuid(&self, store: &InMemoryStore) -> (r: Result<u128, HtreeKeyError>) {
        Ok(*self as u128)
    }
}

impl HtreeKey for u16 {
    open spec fn tree_key(&self) -> u128 {
        *self as u128
    }

    open spec fn converts_directly(&self) -> bool {
        true
    }

    fn try_to_uuid(&self, store: &InMemoryStore) -> (r: Result<u128, HtreeKeyError>) {
        Ok(*self as u128)
    }
}

impl HtreeKey for u8 {
    open spec fn tree_key(&self) -> u128 {
        *self as u128
    }

    open spec fn converts_directly(&self) -> bool {
        true
    }

    fn try_to_uuid(&self, store: &InMemoryStore) -> (r: Result<u128, HtreeKeyError>) {
        Ok(*self as u128)
    }
}

impl HtreeKey for usize {
    open spec fn tree_key(&self) -> u128 {
        *self as u128
    }

    open spec fn converts_directly(&self) -> bool {
        true
    }

    fn try_to_uuid(&self, store: &InMemoryStore) -> (r: Result<u128, HtreeKeyError>) {
        Ok(*self as u128)
    }
}

impl HtreeKey for i128 {
    open spec fn tree_key(&self) -> u128 {
        signed_bits(*self as int)
    }

    open spec fn converts_directly(&self) -> bool {
        true
    }

    fn try_to_uuid(&self, store: &InMemoryStore) -> (r: Result<u128, HtreeKeyError>) {
        Ok(signed_to_key(*self))
    }
}

impl HtreeKey for i64 {
    open spec fn tree_key(&self) -> u128 {
        signed_bits(*self as int)
    }

    open spec fn converts_directly(&self) -> bool {
        true
    }

    fn try_to_uuid(&self, store: &InMemoryStore) -> (r: Result<u128, HtreeKeyError>) {
        Ok(signed_to_key(*self as i128))
    }
}

impl HtreeKey for i32 {
    open spec fn tree_key(&self) -> u128 {
        signed_bits(*self as int)
    }

    open spec fn converts_directly(&self) -> bool {
        true
    }

    fn try_to_uuid(&self, store: &InMemoryStore) -> (r: Result<u128, HtreeKeyError>) {
        Ok(signed_to_key(*self as i128))
    }
}

impl HtreeKey for i16 {
    open spec fn tree_key(&self) -> u128 {
        signed_bits(*self as int)
    }

    open spec fn converts_directly(&self) -> bool {
        true
    }

    fn try_to_uuid(&self, store: &InMemoryStore) -> (r: Result<u128, HtreeKeyError>) {
        Ok(signed_to_key(*self as i128))
    }
}

impl HtreeKey for i8 {
    open spec fn tree_key(&self) -> u128 {
        signed_bits(*self as int)
    }

    open spec fn converts_directly(&self) -> bool {
        true
    }

    fn try_to_uuid(&self, store: &InMemoryStore) -> (r: Result<u128, HtreeKeyError>) {
        Ok(signed_to_key(*self as i128))
    }
}

impl HtreeKey for isize {
    open spec fn tree_key(&self) -> u128 {
        signed_bits(*self as int)
    }

    open spec fn converts_directly(&self) -> bool {
        true
    }

    fn try_to_uuid(&self, store: &InMemoryStore) -> (r: Result<u128, HtreeKeyError>) {
        Ok(signed_to_key(*self as i128))
    }
}

impl HtreeKey for bool {
    open spec fn tree_key(&self) -> u128 {
        if *self { 1 } else { 0 }
    }

    open spec fn converts_directly(&self) -> bool {
        true
    }

    fn try_to_uuid(&self, store: &InMemoryStore) -> (r: Result<u128, HtreeKeyError>) {
        Ok(if *self { 1 } else { 0 })
    }
}

impl HtreeKey for char {
    open spec fn tree_key(&self) -> u128 {
        (*self as u32) as u128
    }

    open spec fn converts_directly(&self) -> bool {
        true
    }

    fn try_to_uuid(&self, store: &InMemoryStore) -> (r: Result<u128, HtreeKeyError>) {
        Ok((*self as u32) as u128)
    }
}

impl HtreeKey for () {
    open spec fn tree_key(&self) -> u128 {
        0
    }

    open spec fn converts_directly(&self) -> bool {
        true
    }

    fn try_to_uuid(&self, store: &InMemoryStore) -> (r: Result<u128, HtreeKeyError>) {
        Ok(0)
    }
}

/// 256 to the power `n`.
pub open spec fn pow256(n: nat) -> nat
    decreases n,
{
    if n == 0 { 1 } else { 256 * pow256((n - 1) as nat) }
}

/// The first `n` bytes of `b` read as a big-endian number, with missing bytes taken as
/// zero.
pub open spec fn be_prefix(b: Seq<u8>, n: nat) -> nat
    decreases n,
{
    if n == 0 {
        0
    } else {
        let i = (n - 1) as int;
        be_prefix(b, (n - 1) as nat) * 256 + (if i < b.len() { b[i] as nat } else { 0 })
    }
}

/// The tree key of a compact form: its first 16 bytes read as a big-endian number, with
/// missing bytes taken as zero.
pub open spec fn compact_key(b: Seq<u8>) -> u128 {
    be_prefix(b, 16) as u128
}

/// The tree key of raw bytes: that of the bytes themselves when they are short enough to
/// be inlined into a reference, else that of the compact form of their reference.
pub open spec fn byte_key(b: Seq<u8>) -> u128 {
    if b.len() <= MAX_RAW_VALUE { compact_key(b) } else { compact_key(stored_hkey(b)) }
}

proof fn lemma_pow256_16()
    ensures
        pow256(16) == 0x1_0000_0000_0000_0000_0000_0000_0000_0000nat,
{
    assert(pow256(1) == 0x100) by { assert(pow256(0) == 1); }
    assert(pow256(2) == 0x1_0000);
    assert(pow256(3) == 0x100_0000);
    assert(pow256(4) == 0x1_0000_0000);
    assert(pow256(5) == 0x100_0000_0000);
    assert(pow256(6) == 0x1_0000_0000_0000);
    assert(pow256(7) == 0x100_0000_0000_0000);
    assert(pow256(8) == 0x1_0000_0000_0000_0000);
    assert(pow256(9) == 0x100_0000_0000_0000_0000);
    assert(pow256(10) == 0x1_0000_0000_0000_0000_0000);
    assert(pow256(11) == 0x100_0000_0000_0000_0000_0000);
    assert(pow256(12) == 0x1_0000_0000_0000_0000_0000_0000);
    assert(pow256(13) == 0x100_0000_0000_0000_0000_0000_0000);
    assert(pow256(14) == 0x1_0000_0000_0000_0000_0000_0000_0000);
    assert(pow256(15) == 0x100_0000_0000_0000_0000_0000_0000_0000);
}

/// The tree key of the compact form `b`.
fn compact_key_of(b: &[u8]) -> (r: u128)
    ensures
        r == compact_key(b@),
{
    let mut acc: u128 = 0;
    let mut i: usize = 0;
    proof {
        lemma_pow256_16();
    }
    while i < 16
        invariant
            i <= 16,
            acc as nat == be_prefix(b@, i as nat),
            be_prefix(b@, i as nat) < pow256(i as nat),
            pow256(16) == 0x1_0000_0000_0000_0000_0000_0000_0000_0000nat,
        decreases 16 - i,
    {
        let byte: u8 = if i < b.len() { b[i] } else { 0 };
        proof {
            let p = pow256(i as nat);
            assert(pow256((i + 1) as nat) == 256 * p);
            assert(pow256((i + 1) as nat) <= pow256(16)) by {
                lemma_pow256_mono((i + 1) as nat, 16);
            }
            let an: nat = acc as nat;
            let bn: nat = byte as nat;
            assert(an * 256 + bn < 256 * p) by (nonlinear_arith)
                requires
                    an < p,
                    bn < 256,
            ;
        }
        acc = acc * 256 + byte as u128;
        i += 1;
    }
    acc
}

proof fn lemma_pow256_mono(a: nat, b: nat)
    requires
        a <= b,
    ensures
        pow256(a) <= pow256(b),
    decreases b - a,
{
    if a < b {
        lemma_pow256_mono(a, (b - 1) as nat);
        assert(pow256(b) == 256 * pow256((b - 1) as nat));
    }
}

/// The tree key of raw bytes: bytes of at most `MAX_RAW_VALUE` bytes give the key of
/// their own compact form; longer bytes are stored and give the key of the compact form
/// of their reference.
pub fn bytes_key(store: &InMemoryStore, bytes: &[u8]) -> (r: Result<u128, HtreeKeyError>)
    ensures
        bytes@.len() <= MAX_RAW_VALUE ==> r == Ok::<u128, HtreeKeyError>(compact_key(bytes@)),
        r matches Ok(k) ==> k == byte_key(bytes@),
{
    if bytes.len() <= MAX_RAW_VALUE {
        return Ok(compact_key_of(bytes));
    }
    match store_bytes(store, bytes) {
        Ok(compact) => Ok(compact_key_of(compact.as_slice())),
        Err(e) => Err(HtreeKeyError::Store(e)),
    }
}

impl HtreeKey for Vec<u8> {
    open spec fn tree_key(&self) -> u128 {
        byte_key(self@)
    }

    open spec fn converts_directly(&self) -> bool {
        self@.len() <= MAX_RAW_VALUE
    }

    fn try_to_uuid(&self, store: &InMemoryStore) -> (r: Result<u128, HtreeKeyError>) {
        bytes_key(store, self.as_slice())
    }
}

impl<const N: usize> HtreeKey for [u8; N] {
    open spec fn tree_key(&self) -> u128 {
        byte_key(self@)
    }

    open spec fn converts_directly(&self) -> bool {
        self@.len() <= MAX_RAW_VALUE
    }

    fn try_to_uuid(&self, store: &InMemoryStore) -> (r: Result<u128, HtreeKeyError>) {
        bytes_key(store, self.as_slice())
    }
}

impl<'a, T: HtreeKey> HtreeKey for &'a T {
    open spec fn tree_key(&self) -> u128 {
        (**self).tree_key()
    }

    open spec fn converts_directly(&self) -> bool {
        (**self).converts_directly()
    }

    fn try_to_uuid(&self, store: &InMemoryStore) -> (r: Result<u128, HtreeKeyError>) {
        (**self).try_to_uuid(store)
    }
}

/// A key given by a value that `serde` serializes; the serialized bytes name the leaf.
pub struct HtreeSerdeKey<T>(pub T);

/// A key given by a value that `rkyv` serializes; the serialized bytes name the leaf.
pub struct HtreeRkyvKey<T>(pub T);

} // verus!
