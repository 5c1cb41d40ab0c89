//! What a remote collection query means for bundles: the checks on the item
//! that came back, and where bundles are kept on disk.
use vstd::prelude::*;
use crate::bundle::BundleError;
use crate::text::push_str;

verus! {

/// The item that a remote metadata query returned, as plain values.
pub struct QueriedItem {
    /// Whether the item's file type is a collection.
    pub is_collection: bool,
    pub title: String,
    pub preview_url: Option<String>,
    /// The collection's members, where the service listed them.
    pub children: Option<Vec<u64>>,
}

/// A remote collection that passed the checks.
#[derive(Debug)]
pub struct CollectionData {
    pub title: String,
    pub preview_url: Option<String>,
    /// The members, where they were asked for; else empty.
    pub items: Vec<u64>,
}

/// Decides what a collection query gave: the service's error, no such item,
/// an item that is not a collection or lists no members, or the collection's
/// data, with its members only where `with_children` asks for them.
pub fn check_bundle_collection(
    outcome: Result<Option<QueriedItem>, u32>,
    with_children: Option<bool>,
) -> (r: Result<CollectionData, BundleError>)
    ensures
        match outcome {
            Err(code) => r == Err::<CollectionData, BundleError>(BundleError::SteamError(code)),
            Ok(None) => r == Err::<CollectionData, BundleError>(BundleError::InvalidCollection),
            Ok(Some(q)) => if q.is_collection && q.children is Some {
                r matches Ok(d) && d.title == q.title && d.preview_url == q.preview_url && d.items@ == (
                if with_children == Some(true) {
                    q.children->0@
                } else {
                    Seq::empty()
                })
            } else {
                r == Err::<CollectionData, BundleError>(BundleError::InvalidCollection)
            },
        },
{
    match outcome {
        Err(code) => Err(BundleError::SteamError(code)),
        Ok(None) => Err(BundleError::InvalidCollection),
        Ok(Some(q)) => {
            if !q.is_collection {
                return Err(BundleError::InvalidCollection);
            }
            match q.children {
                Some(children) => {
                    let wanted = match with_children {
                        Some(w) => w,
                        None => false,
                    };
                    let items = if wanted {
                        children
                    } else {
                        Vec::new()
                    };
                    Ok(CollectionData { title: q.title, preview_url: q.preview_url, items })
                },
                None => Err(BundleError::InvalidCollection),
            }
        },
    }
}

/// Whether a path ends in a separator (`/`, or `\` as Windows writes it).
pub open spec fn ends_in_separator(dir: Seq<char>) -> bool {
    dir.len() > 0 && (dir.last() == '/' || dir.last() == '\\')
}

/// The directory of stored bundles: `bundles` joined to the user data
/// directory, as `Path::join` joins a relative part: alone under an empty
/// directory, directly after a separator, else after a `/`.
pub open spec fn bundles_dir(data_dir: Seq<char>) -> Seq<char> {
    if data_dir.len() == 0 || ends_in_separator(data_dir) {
        data_dir + "bundles"@
    } else {
        data_dir + "/bundles"@
    }
}

/// The directory of stored bundles under the user data directory `data_dir`.
pub fn bundles_path(data_dir: &str) -> (r: String)
    ensures
        r@ == bundles_dir(data_dir@),
{
    let mut r = String::new();
    push_str(&mut r, data_dir);
    let cs = crate::text::chars_of(data_dir);
    if cs.len() == 0 || cs[cs.len() - 1] == '/' || cs[cs.len() - 1] == '\\' {
        push_str(&mut r, "bundles");
    } else {
        push_str(&mut r, "/bundles");
    }
    r
}

} // verus!
