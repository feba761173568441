use vstd::prelude::*;

use ps_hkey::{Hkey, HkeyFromCompactError, InMemoryStore, InMemoryStoreError, Store};

verus! {

/// The store that nodes and values are written to and read from.
#[verifier::external_type_specification]
#[verifier::external_body]
pub struct ExInMemoryStore(InMemoryStore);

/// An error reported by the store.
#[verifier::external_type_specification]
#[verifier::external_body]
pub struct ExInMemoryStoreError(InMemoryStoreError);

/// The reason a compact form could not be read back as a reference.
#[verifier::external_type_specification]
#[verifier::external_body]
pub struct ExHkeyFromCompactError(HkeyFromCompactError);

/// The compact form of the reference under which `Store::put` files `data`. Storing is
/// content-addressed (raw bytes for short data, hashes under convergent encryption
/// otherwise), so the form depends on the data alone.
pub uninterp spec fn stored_hkey(data: Seq<u8>) -> Seq<u8>;

/// Calls `Store::put` of `ps_hkey` on the in-memory store, then `Hkey::compact` on the
/// reference it returns: the data is stored (or inlined, when short) and the shortest
/// byte form of its reference is returned. The reference in between is an opaque value
/// of the outside crate, so both calls stand in this one item.
/// Claimed: that form is `stored_hkey` of the data, and it is at most two compact hashes,
/// 2 * 42 = 84 bytes, long (every form that `compact` returns is raw bytes, one compact
/// hash or two). Data of at most `MAX_RAW_VALUE` bytes is inlined: `put` makes a raw
/// reference of it without touching the store, and `compact` gives those bytes back, so
/// the call succeeds and returns the data itself. Whether the store fails on longer data
/// is not claimed.
#[verifier::external_body]
fn put_compact(store: &InMemoryStore, data: &[u8]) -> (r: Result<Vec<u8>, InMemoryStoreError>)
    ensures
        r matches Ok(bytes) ==> bytes@ == stored_hkey(data@) && bytes@.len() <= MAX_COMPACT_HKEY,
        r matches Ok(bytes) ==> (data@.len() <= MAX_RAW_VALUE ==> bytes@ == data@),
        r is Ok || data@.len() > MAX_RAW_VALUE,
{
    match store.put(data) {
        Ok(hkey) => match hkey.compact(store) {
            Ok(bytes) => Ok(bytes.to_vec()),
            Err(err) => Err(err),
        },
        Err(err) => Err(err),
    }
}

/// Why bytes could not be read back from the store.
#[derive(Debug)]
pub enum HtreeLoadError {
    /// The compact form does not describe a reference.
    Hkey(HkeyFromCompactError),
    /// The reference is to a list of parts, which is not read.
    ListReference,
    /// The store failed.
    Store(InMemoryStoreError),
}

/// The compact form of a reference to a list of parts: two compact hashes, the first with
/// its lowest bit set. Data too long for one encrypted record is filed under such a
/// reference.
pub open spec fn is_list_form(b: Seq<u8>) -> bool {
    b.len() == MAX_COMPACT_HKEY && b[0] % 2 == 1
}

/// Whether `b` is the compact form of a reference to a list of parts.
fn list_form(b: &[u8]) -> (r: bool)
    ensures
        r == is_list_form(b@),
{
    b.len() == MAX_COMPACT_HKEY && b[0] % 2 == 1
}

/// Calls `Hkey::from_compact` of `ps_hkey` on a compact form, then `Hkey::resolve` on the
/// in-memory store: the bytes that the reference stands for. The reference in between is
/// an opaque value of the outside crate, so both calls stand in this one item.
/// A reference to a list of parts is left out: resolving one parses the list record read
/// from the store, and a malformed record (such as the single byte `[`) makes that parse
/// panic.
/// Claimed: a compact form of at most `MAX_RAW_VALUE` bytes (neither a compact hash nor
/// two) is read as a raw reference, which resolves to those bytes without touching the
/// store. Of longer forms nothing is claimed: what they give depends on what the store
/// holds.
#[verifier::external_body]
fn load_compact(store: &InMemoryStore, compact: &[u8]) -> (r: Result<Vec<u8>, HtreeLoadError>)
    requires
        !is_list_form(compact@),
    ensures
        r matches Ok(bytes) ==> (compact@.len() <= MAX_RAW_VALUE ==> bytes@ == compact@),
        r is Ok || compact@.len() > MAX_RAW_VALUE,
        r is Ok || r matches Err(HtreeLoadError::Hkey(_)) || r matches Err(HtreeLoadError::Store(_)),
{
    match Hkey::from_compact(compact) {
        Ok(hkey) => match hkey.resolve(store) {
            Ok(bytes) => Ok(bytes.to_vec()),
            Err(err) => Err(HtreeLoadError::Store(err)),
        },
        Err(err) => Err(HtreeLoadError::Hkey(err)),
    }
}

/// The longest compact form of a reference.
pub const MAX_COMPACT_HKEY: usize = 84;

/// The longest data that the store inlines into its reference instead of filing it.
pub const MAX_RAW_VALUE: usize = 40;

/// What reading back the bytes filed under the compact reference `h` gives when it is
/// `v`: short references are the data itself.
pub open spec fn value_read(h: Seq<u8>, v: Seq<u8>) -> bool {
    h.len() <= MAX_RAW_VALUE ==> v == h
}

/// Stores `data` and returns the compact form of the reference to it.
pub fn store_bytes(store: &InMemoryStore, data: &[u8]) -> (r: Result<Vec<u8>, InMemoryStoreError>)
    ensures
        r matches Ok(bytes) ==> bytes@ == stored_hkey(data@) && bytes@.len() <= MAX_COMPACT_HKEY,
        data@.len() <= MAX_RAW_VALUE ==> (r matches Ok(bytes) && bytes@ == data@),
{
    put_compact(store, data)
}

/// Reads back the bytes that the compact reference `compact` stands for. References to
/// lists of parts are not read.
pub fn load_bytes(store: &InMemoryStore, compact: &[u8]) -> (r: Result<Vec<u8>, HtreeLoadError>)
    ensures
        r matches Ok(bytes) ==> value_read(compact@, bytes@),
        compact@.len() <= MAX_RAW_VALUE ==> r is Ok,
        is_list_form(compact@) <==> r matches Err(HtreeLoadError::ListReference),
{
    if list_form(compact) {
        return Err(HtreeLoadError::ListReference);
    }
    load_compact(store, compact)
}

} // verus!
