use crate::text::{contains, occurs_in, same_text};
use vstd::prelude::*;
use vstd::string::*;
use vstd::utf8::encode_utf8;

verus! {

#[derive(Clone, Debug)]
pub struct LatestVersion {
    pub release: String,
    pub snapshot: String,
}

#[derive(Clone, Debug)]
pub struct Version {
    pub id: String,
    pub url: String,
}

#[derive(Clone, Debug)]
pub struct VersionManifest {
    pub latest: LatestVersion,
    pub versions: Vec<Version>,
}

/// One stored object of the asset index: the hash it is stored under, and its size.
#[derive(Clone, Debug)]
pub struct Object {
    pub hash: String,
    pub size: usize,
}

/// The asset index: every asset's name with its object. No name stands twice.
#[derive(Clone, Debug)]
pub struct AssetIndex {
    pub objects: Vec<(String, Object)>,
}

/// No name stands twice among `objects`.
pub open spec fn names_are_distinct(objects: Seq<(String, Object)>) -> bool {
    forall|i: int, j: int| 0 <= i < j < objects.len() ==> (#[trigger] objects[i]).0@ != (#[trigger] objects[j]).0@
}

impl AssetIndex {
    /// No name stands twice.
    pub open spec fn well_formed(&self) -> bool {
        names_are_distinct(self.objects@)
    }

    /// The index over `objects`; none where a name stands twice.
    pub fn from_entries(objects: Vec<(String, Object)>) -> (index: Option<AssetIndex>)
        ensures
            index is Some <==> names_are_distinct(objects@),
            index matches Some(made) ==> made.objects == objects && made.well_formed(),
    {
        let mut j: usize = 0;
        while j < objects.len()
            invariant
                j <= objects@.len(),
                forall|a: int, b: int| 0 <= a < b < j ==> (#[trigger] objects@[a]).0@ != (#[trigger] objects@[b]).0@,
            decreases objects.len() - j,
        {
            let mut i: usize = 0;
            while i < j
                invariant
                    i <= j,
                    j < objects@.len(),
                    forall|a: int| 0 <= a < i ==> (#[trigger] objects@[a]).0@ != objects@[j as int].0@,
                decreases j - i,
            {
                if objects[i].0 == objects[j].0 {
                    return None;
                }
                i += 1;
            }
            j += 1;
        }
        Some(AssetIndex { objects })
    }
}

impl Version {
    /// The version as text: its id.
    pub fn to_string(&self) -> (text: String)
        ensures
            text@ == self.id@,
    {
        self.id.clone()
    }
}

/// Where the version manifest is published.
pub const VERSION_MANIFEST_URL: &'static str = "https://piston-meta.mojang.com/mc/game/version_manifest_v2.json";

/// Where assets are published, each under the first two digits of its hash and its hash.
pub const ASSET_URL: &'static str = "https://resources.download.minecraft.net";

/// The address of the asset stored under `hash`.
pub open spec fn spec_asset_url(hash: Seq<char>) -> Seq<char> {
    ASSET_URL@ + "/"@ + hash.subrange(0, 2) + "/"@ + hash
}

/// The address of the asset stored under `hash`: none where the hash is shorter than two
/// characters or holds anything but ASCII.
pub fn asset_url(hash: &str) -> (url: Option<String>)
    ensures
        url is Some <==> is_ascii(hash) && hash@.len() >= 2,
        url matches Some(address) ==> address@ == spec_asset_url(hash@),
{
    if !hash.is_ascii() || hash.unicode_len() < 2 {
        return None;
    }
    let prefix = hash.substring_ascii(0, 2);
    let address = String::from_str(ASSET_URL).concat("/").concat(prefix).concat("/").concat(hash);
    Some(address)
}

/// The SHA-1 digest of `bytes`, written as hexadecimal digits.
pub uninterp spec fn sha1_hex(bytes: Seq<u8>) -> Seq<char>;

/// Calls `sha1_smol::Sha1`: a fresh hasher, `update` with all of `bytes`, `digest`, and
/// the digest's text form. The result is taken to depend on the bytes alone.
#[verifier::external_body]
fn sha1_hex_digest(bytes: &Vec<u8>) -> (hex: String)
    ensures
        hex@ == sha1_hex(bytes@),
{
    let mut hasher = sha1_smol::Sha1::new();
    hasher.update(bytes);
    hasher.digest().to_string()
}

/// Why a downloaded asset is refused.
#[derive(Clone, Copy, Debug, PartialEq, Eq, Structural)]
pub enum AssetError {
    /// The bytes that came do not hash to the name they were asked for under.
    HashMismatch,
}

/// Accepts `bytes` as the asset `hash` where `digest`, the digest of the bytes, is
/// that hash.
pub fn accept_asset(hash: &str, digest: &str, bytes: Vec<u8>) -> (asset: Result<Vec<u8>, AssetError>)
    ensures
        asset == if digest@ == hash@ {
            Ok::<Vec<u8>, AssetError>(bytes)
        } else {
            Err::<Vec<u8>, AssetError>(AssetError::HashMismatch)
        },
{
    if same_text(digest, hash) {
        Ok(bytes)
    } else {
        Err(AssetError::HashMismatch)
    }
}

/// Accepts `bytes` as the asset `hash` where their SHA-1 digest is that hash.
pub fn check_asset(hash: &str, bytes: Vec<u8>) -> (asset: Result<Vec<u8>, AssetError>)
    ensures
        asset == if sha1_hex(bytes@) == hash@ {
            Ok::<Vec<u8>, AssetError>(bytes)
        } else {
            Err::<Vec<u8>, AssetError>(AssetError::HashMismatch)
        },
{
    let digest = sha1_hex_digest(&bytes);
    accept_asset(hash, digest.as_str(), bytes)
}

/// How the version to work on is found.
#[derive(Clone, Debug)]
pub enum VersionChoice {
    /// The version of this index carries exactly the name that was asked for.
    Exact(usize),
    /// The version of this index is the only one whose name holds what was asked for.
    Single(usize),
    /// Several versions hold what was asked for: the user picks among these.
    AskAmong(Vec<usize>),
    /// Nothing was asked for, or no version holds it: the user picks among all.
    AskAll,
}

/// Version `i` carries exactly the name `target`.
pub open spec fn is_exact(versions: Seq<Version>, target: Seq<char>, i: int) -> bool {
    0 <= i < versions.len() && versions[i].id@ == target
}

/// The name of version `i` holds `target`.
pub open spec fn is_candidate(versions: Seq<Version>, target: Seq<char>, i: int) -> bool {
    0 <= i < versions.len() && occurs_in(encode_utf8(versions[i].id@), encode_utf8(target))
}

/// `found` lists, in rising order, exactly the versions among the first `seen` whose name
/// holds `target`.
pub open spec fn is_candidate_list(versions: Seq<Version>, target: Seq<char>, seen: int, found: Seq<usize>) -> bool {
    &&& forall|p: int|
        0 <= p < found.len() ==> (#[trigger] found[p]) < seen && is_candidate(
            versions,
            target,
            found[p] as int,
        )
    &&& forall|p: int, q: int| 0 <= p < q < found.len() ==> (#[trigger] found[p]) < (#[trigger] found[q])
    &&& forall|i: usize| i < seen && is_candidate(versions, target, i as int) ==> #[trigger] found.contains(i)
}

/// `choice` is how the version is found among `versions` when `target` was asked for.
pub open spec fn is_version_choice(versions: Seq<Version>, target: Option<String>, choice: VersionChoice) -> bool {
    match target {
        None => choice is AskAll,
        Some(name) => match choice {
            VersionChoice::Exact(i) => is_exact(versions, name@, i as int) && forall|k: int|
                0 <= k < i ==> !is_exact(versions, name@, k),
            VersionChoice::Single(i) => {
                &&& forall|k: int| !is_exact(versions, name@, k)
                &&& is_candidate_list(versions, name@, versions.len() as int, seq![i])
            },
            VersionChoice::AskAmong(found) => {
                &&& forall|k: int| !is_exact(versions, name@, k)
                &&& found@.len() > 1
                &&& is_candidate_list(versions, name@, versions.len() as int, found@)
            },
            VersionChoice::AskAll => {
                &&& forall|k: int| !is_exact(versions, name@, k)
                &&& forall|k: int| !is_candidate(versions, name@, k)
            },
        },
    }
}

/// Decides how the version is found: the first version named exactly as asked; else the
/// only version whose name holds what was asked; else the user's pick among those that
/// hold it, or among all where none does or nothing was asked.
pub fn choose_version(versions: &Vec<Version>, target: &Option<String>) -> (choice: VersionChoice)
    ensures
        is_version_choice(versions@, *target, choice),
{
    let name = match target {
        None => {
            return VersionChoice::AskAll;
        },
        Some(name) => name,
    };
    let mut i: usize = 0;
    while i < versions.len()
        invariant
            *target == Some(*name),
            i <= versions@.len(),
            forall|k: int| 0 <= k < i ==> !is_exact(versions@, name@, k),
        decreases versions.len() - i,
    {
        if versions[i].id == *name {
            return VersionChoice::Exact(i);
        }
        i += 1;
    }
    let mut found: Vec<usize> = Vec::new();
    let mut j: usize = 0;
    while j < versions.len()
        invariant
            j <= versions@.len(),
            is_candidate_list(versions@, name@, j as int, found@),
        decreases versions.len() - j,
    {
        let ghost before = found@;
        if contains(versions[j].id.as_str(), name.as_str()) {
            found.push(j);
            proof {
                assert forall|k: usize|
                    k < j + 1 && is_candidate(versions@, name@, k as int) implies #[trigger] found@.contains(
                    k,
                ) by {
                    if k < j {
                        assert(before.contains(k));
                        let w = choose|w: int| 0 <= w < before.len() && before[w] == k;
                        assert(found@[w] == k);
                    } else {
                        assert(found@[before.len() as int] == k);
                    }
                }
            }
        }
        j += 1;
    }
    if found.len() == 0 {
        assert forall|k: int| !is_candidate(versions@, name@, k) by {
            if is_candidate(versions@, name@, k) {
                assert(found@.contains(k as usize));
            }
        }
        VersionChoice::AskAll
    } else if found.len() == 1 {
        let only = found[0];
        assert(found@ =~= seq![only]);
        VersionChoice::Single(only)
    } else {
        VersionChoice::AskAmong(found)
    }
}

} // verus!
