//! Opening a saved game.
//!
//! A save holds its format version, the identity of the package that wrote
//! it and a snapshot of the store. Only the store is saved: scripts come
//! from the installed package, and views and delivery caches start afresh.
use vstd::prelude::*;
use crate::protocol::Error;
use crate::resources::PackageIdentity;
use crate::store::{restored, Store, StoreSnapshot};
use crate::text::{chars_of, decimal, format_u64, push_all, push_str, str_eq, string_of};
use crate::world::{world_view, world_well_formed};

verus! {

/// The version of the save format.
pub const SAVE_VERSION: u32 = 1;

/// A package identity as plain values.
pub open spec fn identity_view(p: PackageIdentity) -> (Seq<char>, Seq<char>, u32) {
    (p.package_id@, p.package_version@, p.protocol_version)
}

pub open spec fn save_version_message(version: u32) -> Seq<char> {
    "unsupported save version: "@ + decimal(version as nat) + " (expected "@ + decimal(
        SAVE_VERSION as nat,
    ) + ")"@
}

pub open spec fn package_message(p: PackageIdentity) -> Seq<char> {
    "incompatible package: "@ + p.package_id@ + " "@ + p.package_version@ + " protocol "@ + decimal(
        p.protocol_version as nat,
    )
}

/// Whether two package identities are the same.
pub fn same_identity(a: &PackageIdentity, b: &PackageIdentity) -> (r: bool)
    ensures
        r == (identity_view(*a) == identity_view(*b)),
{
    str_eq(a.package_id.as_str(), b.package_id.as_str()) && str_eq(
        a.package_version.as_str(),
        b.package_version.as_str(),
    ) && a.protocol_version == b.protocol_version
}

/// Opens a decoded save: its format must be this one, it must come from the
/// installed package, and its store must pass the checks of a new store.
/// The snapshot comes back as it was saved.
pub fn open_save(
    format_version: u32,
    package: &PackageIdentity,
    store: StoreSnapshot,
    installed: &PackageIdentity,
) -> (r: Result<StoreSnapshot, Error>)
    requires
        world_well_formed(world_view(store.world)),
    ensures
        format_version != SAVE_VERSION ==> (r matches Err(e) && e.code@ == "incompatible_version"@
            && e.message@ == save_version_message(format_version)),
        format_version == SAVE_VERSION && identity_view(*package) != identity_view(*installed) ==> (
        r matches Err(e) && e.code@ == "incompatible_version"@ && e.message@ == package_message(*package)),
        format_version == SAVE_VERSION && identity_view(*package) == identity_view(*installed) ==> match restored(
            world_view(store.world),
            store.random_state,
            store.revision,
        ) {
            Ok(s) => r matches Ok(out) && world_view(out.world) == s.world && out.random_state == s.random
                && out.revision == s.revision,
            Err(m) => r matches Err(e) && e.code@ == "invalid_input"@ && e.message@ == m,
        },
{
    if format_version != SAVE_VERSION {
        let mut m = chars_of("unsupported save version: ");
        push_all(&mut m, &format_u64(format_version as u64));
        push_str(&mut m, " (expected ");
        push_all(&mut m, &format_u64(SAVE_VERSION as u64));
        push_str(&mut m, ")");
        return Err(Error { code: String::from_str("incompatible_version"), message: string_of(&m), details: None });
    }
    if !same_identity(package, installed) {
        let mut m = chars_of("incompatible package: ");
        push_str(&mut m, package.package_id.as_str());
        push_str(&mut m, " ");
        push_str(&mut m, package.package_version.as_str());
        push_str(&mut m, " protocol ");
        push_all(&mut m, &format_u64(package.protocol_version as u64));
        return Err(Error { code: String::from_str("incompatible_version"), message: string_of(&m), details: None });
    }
    match Store::from_snapshot(store) {
        Ok(s) => Ok(s.snapshot()),
        Err(message) => Err(Error { code: String::from_str("invalid_input"), message, details: None }),
    }
}

} // verus!
