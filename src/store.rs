use vstd::prelude::*;

verus! {

#[verifier::external_type_specification]
#[verifier::external_body]
pub struct ExDb(sled::Db);

#[verifier::external_type_specification]
#[verifier::external_body]
pub struct ExSledError(sled::Error);

/// The key/value pairs of the store's default tree.
pub uninterp spec fn ledger_contents(db: sled::Db) -> Map<Seq<u8>, Seq<u8>>;

/// The value that the store's id generator hands out next.
pub uninterp spec fn id_counter(db: sled::Db) -> u64;

/// Relies on `sled::Db::generate_id`: it takes the counter's value and
/// advances it by one (a wrapping `fetch_add`) before anything can fail, and
/// touches no key of the tree.
#[verifier::external_body]
pub(crate) fn generate_id(db: &mut sled::Db) -> (r: Result<u64, sled::Error>)
    ensures
        ledger_contents(*final(db)) == ledger_contents(*old(db)),
        id_counter(*final(db)) == (if id_counter(*old(db)) == u64::MAX {
            0u64
        } else {
            (id_counter(*old(db)) + 1) as u64
        }),
        r matches Ok(id) ==> id == id_counter(*old(db)),
{
    db.generate_id()
}

/// Relies on `sled::Tree::insert` (through `Db`'s deref to its default
/// tree): on success the key maps to the value, other keys are kept, and the
/// id generator is not touched.
#[verifier::external_body]
pub(crate) fn insert(db: &mut sled::Db, key: Vec<u8>, value: Vec<u8>) -> (r: Result<(), sled::Error>)
    ensures
        id_counter(*final(db)) == id_counter(*old(db)),
        r is Ok ==> ledger_contents(*final(db)) == ledger_contents(*old(db)).insert(key@, value@),
{
    db.insert(key, value).map(|_| ())
}

} // verus!
