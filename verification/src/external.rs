//! The few calls this library makes into outside crates, each behind a small
//! function whose contract states what the outside code is trusted to do.

use vstd::prelude::*;
use std::hash::Hash;
use vstd::std_specs::hash::obeys_key_model;
use crate::order::{is_v4_uuid, uuid_text};

verus! {

/// Wall-clock time in nanoseconds since the Unix epoch, read with
/// `chrono::Utc::now().timestamp_nanos_opt()` (0 when chrono reports the time
/// out of range). The value depends on the machine's clock, so nothing is
/// promised of it.
#[verifier::external_body]
pub(crate) fn now_nanos() -> (t: u64) {
    chrono::Utc::now().timestamp_nanos_opt().unwrap_or(0) as u64
}

/// A random version-4 UUID from `uuid::Uuid::new_v4()`, as its 128-bit value
/// (`Uuid::as_u128`, big-endian). `new_v4` masks random bits and sets the
/// version nibble to 4 and the top two variant bits to `10`; that is all that
/// is promised, the other 122 bits being random.
#[verifier::external_body]
pub(crate) fn random_uuid() -> (v: u128)
    ensures
        is_v4_uuid(v),
{
    uuid::Uuid::new_v4().as_u128()
}

/// `uuid::Uuid::from_u128(v).to_string()`: the UUID whose bytes are `v` in
/// big-endian order, in uuid's default text form (`Display` writes the
/// hyphenated form in lowercase hexadecimal).
#[verifier::external_body]
pub(crate) fn uuid_string(v: u128) -> (s: String)
    ensures
        s@ == uuid_text(v),
{
    uuid::Uuid::from_u128(v).to_string()
}

/// `std::hash::BuildHasherDefault`, the hash builder of fnv's maps.
#[verifier::external_type_specification]
#[verifier::external_body]
#[verifier::reject_recursive_types(H)]
pub struct ExBuildHasherDefault<H>(std::hash::BuildHasherDefault<H>);

/// `fnv::FnvHasher`, the Fowler-Noll-Vo hasher.
#[verifier::external_type_specification]
#[verifier::external_body]
pub struct ExFnvHasher(fnv::FnvHasher);

/// `HashMap::insert` on an `fnv::FnvHashMap`. For keys whose `Hash` and `Eq`
/// agree with equality of values (vstd's key model; it holds of the integer
/// types), the map afterwards maps `k` to `v` and is otherwise unchanged, and
/// the value `k` had before, if any, is returned. `FnvHasher` starts every
/// hash from the same offset basis, so equal keys always hash alike.
#[verifier::external_body]
pub(crate) fn fnv_insert<K: Eq + Hash, V>(m: &mut fnv::FnvHashMap<K, V>, k: K, v: V) -> (r: Option<V>)
    requires
        obeys_key_model::<K>(),
    ensures
        final(m)@ == old(m)@.insert(k, v),
        r == if old(m)@.contains_key(k) { Some(old(m)@[k]) } else { None::<V> },
{
    m.insert(k, v)
}

/// `HashMap::get` on an `fnv::FnvHashMap`, with the value copied out. For keys
/// in vstd's key model it returns the value `k` maps to, or `None`.
#[verifier::external_body]
pub(crate) fn fnv_get<K: Eq + Hash, V: Copy>(m: &fnv::FnvHashMap<K, V>, k: &K) -> (r: Option<V>)
    requires
        obeys_key_model::<K>(),
    ensures
        r == if m@.contains_key(*k) { Some(m@[*k]) } else { None::<V> },
{
    m.get(k).copied()
}

/// `HashMap::remove` on an `fnv::FnvHashMap`. For keys in vstd's key model the
/// map afterwards lacks `k` and is otherwise unchanged, and the value `k` had,
/// if any, is returned.
#[verifier::external_body]
pub(crate) fn fnv_remove<K: Eq + Hash, V>(m: &mut fnv::FnvHashMap<K, V>, k: &K) -> (r: Option<V>)
    requires
        obeys_key_model::<K>(),
    ensures
        final(m)@ == old(m)@.remove(*k),
        r == if old(m)@.contains_key(*k) { Some(old(m)@[*k]) } else { None::<V> },
{
    m.remove(k)
}

/// `HashMap::len` on an `fnv::FnvHashMap`: for keys in vstd's key model, the
/// number of keys in the map.
#[verifier::external_body]
pub(crate) fn fnv_len<K: Eq + Hash, V>(m: &fnv::FnvHashMap<K, V>) -> (r: usize)
    requires
        obeys_key_model::<K>(),
    ensures
        r == m@.len(),
{
    m.len()
}

} // verus!
