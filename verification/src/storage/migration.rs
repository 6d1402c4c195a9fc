//! Schema versioning for the ledger store: the version is stamped in the
//! metadata column and forward migrations bring an older store up to the
//! current version, one observable step at a time.

use vstd::prelude::*;

verus! {

use crate::storage::{BlockchainStorage, Error};
use vstd::bytes::{spec_u32_to_le_bytes, spec_u32_from_le_bytes, u32_to_le_bytes};
use vstd::bytes::lemma_auto_spec_u32_to_from_le_bytes;

/// The schema version this library writes.
pub const CURRENT_SCHEMA_VERSION: u32 = 1;

/// A schema change from one version to the next.
pub struct Migration {
    /// The version this migration upgrades from.
    pub from_version: u32,
    /// The version this migration upgrades to.
    pub to_version: u32,
    /// What the migration changes.
    pub description: String,
}

/// Configuration for a migration run.
pub struct MigrationConfig {
    /// Whether to keep a copy before migrating (this store keeps none).
    pub backup_before_migration: bool,
    /// Whether a migration may skip over versions.
    pub allow_version_skipping: bool,
    /// Where a copy would go.
    pub backup_dir: Option<String>,
}

impl Default for MigrationConfig {
    /// Keep a copy, do not skip versions.
    fn default() -> (r: Self)
        ensures
            r.backup_before_migration == true,
            r.allow_version_skipping == false,
            r.backup_dir is None,
    {
        MigrationConfig { backup_before_migration: true, allow_version_skipping: false, backup_dir: None }
    }
}

/// The migrations this library knows, in order.
pub fn available_migrations() -> (r: Vec<Migration>)
    ensures
        r@.len() == 1,
        r@[0].from_version == 0,
        r@[0].to_version == 1,
{
    let mut migrations: Vec<Migration> = Vec::new();
    migrations.push(
        Migration {
            from_version: 0,
            to_version: 1,
            description: String::from_str("Initialize schema to version 1"),
        },
    );
    migrations
}

/// Read the schema version: the 4-byte little-endian value under the
/// metadata key, or zero when none was ever written.
pub fn get_schema_version(storage: &BlockchainStorage) -> (r: Result<u32, Error>)
    requires
        storage.wf(),
    ensures
        !storage.meta_model().dom().contains(schema_version_key_bytes())
            ==> r is Ok && r->Ok_0 == 0,
        storage.meta_model().dom().contains(schema_version_key_bytes())
            && storage.meta_model()[schema_version_key_bytes()].len() >= 4
            ==> r is Ok && r->Ok_0 == spec_u32_from_le_bytes(
            storage.meta_model()[schema_version_key_bytes()].subrange(0, 4),
        ),
        storage.meta_model().dom().contains(schema_version_key_bytes())
            && storage.meta_model()[schema_version_key_bytes()].len() < 4 ==> r is Err && r->Err_0
            is Database,
    {
        let key = schema_version_key();
        match storage.get_metadata(key.as_slice()) {
            Some(bytes) => {
                if bytes.len() < 4 {
                    return Err(Error::Database(String::from_str("Invalid schema version format")));
                }
                let version = crate::codec::read_u32(bytes.as_slice(), 0);
                Ok(version)
            },
            None => Ok(0),
        }
    }

/// Write the schema version as 4 little-endian bytes under the metadata key.
pub fn set_schema_version(storage: &mut BlockchainStorage, version: u32) -> (r: Result<(), Error>)
    requires
        old(storage).wf(),
    ensures
        final(storage).wf(),
        r is Ok,
        final(storage).meta_model() == old(storage).meta_model().insert(
            schema_version_key_bytes(),
            spec_u32_to_le_bytes(version),
        ),
    {
        let key = schema_version_key();
        let value = u32_to_le_bytes(version);
        storage.put_metadata(key, value);
        Ok(())
    }

/// The bytes of the metadata key under which the schema version is
/// stamped: the ASCII rendering of schema_version.
pub open spec fn schema_version_key_bytes() -> Seq<u8> {
    seq![115u8, 99u8, 104u8, 101u8, 109u8, 97u8, 95u8, 118u8, 101u8, 114u8, 115u8, 105u8, 111u8, 110u8]
}

/// The metadata key under which the schema version is stamped.
fn schema_version_key() -> (r: Vec<u8>)
    ensures
        r@ == schema_version_key_bytes(),
{
    let mut out: Vec<u8> = Vec::new();
    out.push(115u8);
    out.push(99u8);
    out.push(104u8);
    out.push(101u8);
    out.push(109u8);
    out.push(97u8);
    out.push(95u8);
    out.push(118u8);
    out.push(101u8);
    out.push(114u8);
    out.push(115u8);
    out.push(105u8);
    out.push(111u8);
    out.push(110u8);
    proof {
        assert(out@ =~= schema_version_key_bytes());
    }
    out
}

/// The schema version a metadata mapping stores, when it is readable:
/// zero when absent, and the leading 4-byte little-endian value otherwise.
pub open spec fn stored_schema_version(meta: Map<Seq<u8>, Seq<u8>>) -> Option<u32> {
    if !meta.dom().contains(schema_version_key_bytes()) {
        Some(0)
    } else if meta[schema_version_key_bytes()].len() >= 4 {
        Some(spec_u32_from_le_bytes(meta[schema_version_key_bytes()].subrange(0, 4)))
    } else {
        None
    }
}

/// Bring an older store up to the current schema version: at the current
/// version nothing happens; a newer version is refused; otherwise the
/// registered migrations are applied in order and the version is stamped
/// after each step. Returns whether anything was migrated.
pub fn check_and_migrate(storage: &mut BlockchainStorage, config: MigrationConfig) -> (r: Result<
    bool,
    Error,
>)
    requires
        old(storage).wf(),
    ensures
        final(storage).wf(),
        stored_schema_version(old(storage).meta_model()) == Some(CURRENT_SCHEMA_VERSION) ==> r
            is Ok && r->Ok_0 == false,
        (exists|v: u32| stored_schema_version(old(storage).meta_model()) == Some(v) && v
            > CURRENT_SCHEMA_VERSION) ==> r is Err && r->Err_0 is Database && final(storage).meta_model() == old(storage).meta_model(),
        (exists|v: u32| stored_schema_version(old(storage).meta_model()) == Some(v) && v
            < CURRENT_SCHEMA_VERSION) ==> r is Ok && r->Ok_0 == true,
        stored_schema_version(old(storage).meta_model()) is None ==> r is Err && final(storage).meta_model() == old(storage).meta_model(),
        r is Ok && r->Ok_0 == false ==> final(storage).meta_model() == old(storage).meta_model(),
        r is Ok && r->Ok_0 == true ==> stored_schema_version(final(storage).meta_model()) == Some(
            CURRENT_SCHEMA_VERSION,
        ) && final(storage).meta_model().dom().contains(schema_version_key_bytes()) && final(storage).meta_model()[schema_version_key_bytes()] == spec_u32_to_le_bytes(CURRENT_SCHEMA_VERSION),
    {
        let _ = config;
        let current_version = match get_schema_version(storage) {
            Ok(v) => v,
            Err(e) => {
                return Err(e);
            },
        };
        if current_version == CURRENT_SCHEMA_VERSION {
            return Ok(false);
        }
        if current_version > CURRENT_SCHEMA_VERSION {
            return Err(
                Error::Database(
                    String::from_str("Database schema version is newer than supported"),
                ),
            );
        }
        let migrations = available_migrations();
        let mut version = current_version;
        proof {
            assert(stored_schema_version(old(storage).meta_model()) == Some(current_version));
        }
        while version < CURRENT_SCHEMA_VERSION
            invariant
                storage.wf(),
                migrations@.len() == 1,
                migrations@[0].from_version == 0,
                migrations@[0].to_version == 1,
                version <= CURRENT_SCHEMA_VERSION,
                stored_schema_version(old(storage).meta_model()) == Some(current_version),
                current_version < CURRENT_SCHEMA_VERSION,
                version == current_version || version == CURRENT_SCHEMA_VERSION,
                version > 0 ==> storage.meta_model().dom().contains(
                    schema_version_key_bytes(),
                ) && storage.meta_model()[schema_version_key_bytes()]
                    == spec_u32_to_le_bytes(version),
            decreases CURRENT_SCHEMA_VERSION - version,
        {
            proof {
                assert(version == 0);
            }
            let mut found = false;
            let mut next_version = version;
            let mut i: usize = 0;
            while i < migrations.len()
                invariant
                    i <= migrations@.len(),
                    migrations@.len() == 1,
                    migrations@[0].from_version == 0,
                    migrations@[0].to_version == 1,
                    version == 0,
                    i >= 1 ==> found,
                    found ==> version == migrations@[0].from_version && next_version
                        == migrations@[0].to_version,
                decreases migrations@.len() - i,
            {
                if !found && migrations[i].from_version == version {
                    found = true;
                    next_version = migrations[i].to_version;
                }
                i = i + 1;
            }
            if !found {
                proof {
                    assert(false);
                }
                return Err(Error::Database(String::from_str("No migration path available")));
            }
            // the initial migration changes no stored data
            match set_schema_version(storage, next_version) {
                Ok(_) => {},
                Err(e) => {
                    return Err(e);
                },
            }
            if next_version <= version {
                proof {
                    assert(false);
                }
                return Err(Error::Database(String::from_str("No migration path available")));
            }
            version = next_version;
        }
        proof {
            vstd::bytes::lemma_auto_spec_u32_to_from_le_bytes();
            assert(spec_u32_to_le_bytes(CURRENT_SCHEMA_VERSION).subrange(0, 4)
                =~= spec_u32_to_le_bytes(CURRENT_SCHEMA_VERSION));
            assert(stored_schema_version(storage.meta_model()) == Some(CURRENT_SCHEMA_VERSION));
        }
        Ok(true)
    }

/// Verify compatibility and migrate when needed: succeeds exactly when
/// the stored version reads as at most the current one, and then the
/// stamped version is the current one or was already there.
pub fn ensure_compatible_schema(storage: &mut BlockchainStorage) -> (r: Result<(), Error>)
    requires
        old(storage).wf(),
    ensures
        final(storage).wf(),
        stored_schema_version(old(storage).meta_model()) == Some(CURRENT_SCHEMA_VERSION) ==> r
            is Ok && final(storage).meta_model() == old(storage).meta_model(),
        (exists|v: u32| stored_schema_version(old(storage).meta_model()) == Some(v) && v
            < CURRENT_SCHEMA_VERSION) ==> r is Ok && stored_schema_version(
            final(storage).meta_model(),
        ) == Some(CURRENT_SCHEMA_VERSION),
        (exists|v: u32| stored_schema_version(old(storage).meta_model()) == Some(v) && v
            > CURRENT_SCHEMA_VERSION) ==> r is Err,
        stored_schema_version(old(storage).meta_model()) is None ==> r is Err,
    {
        match check_and_migrate(storage, MigrationConfig::default()) {
            Ok(_) => Ok(()),
            Err(e) => Err(e),
        }
    }

} // verus!
