use minecraft_player::mojang::{
    accept_asset, asset_url, check_asset, choose_version, AssetError, AssetIndex, LatestVersion, Object,
    Version, VersionChoice, VersionManifest, ASSET_URL, VERSION_MANIFEST_URL,
};
use minecraft_player::text::{contains, ends_with, same_text};

fn versions(ids: &[&str]) -> Vec<Version> {
    ids.iter().map(|id| Version { id: id.to_string(), url: format!("https://example.invalid/{}.json", id) }).collect()
}

#[test]
fn asset_address_is_built_from_the_hash() {
    let hash = "2ef7bde608ce5404e97d5f042f95f89f1c232871";
    assert_eq!(
        asset_url(hash),
        Some("https://resources.download.minecraft.net/2e/2ef7bde608ce5404e97d5f042f95f89f1c232871".to_string())
    );
    assert_eq!(asset_url("ab"), Some(format!("{}/ab/ab", ASSET_URL)));
    assert_eq!(asset_url("a"), None);
    assert_eq!(asset_url(""), None);
    assert_eq!(asset_url("äb12"), None);
    assert!(VERSION_MANIFEST_URL.ends_with("version_manifest_v2.json"));
}

#[test]
fn asset_is_accepted_when_it_hashes_to_its_name() {
    let bytes = b"Hello World!".to_vec();
    assert_eq!(check_asset("2ef7bde608ce5404e97d5f042f95f89f1c232871", bytes.clone()), Ok(bytes.clone()));
    assert_eq!(check_asset("da39a3ee5e6b4b0d3255bfef95601890afd80709", Vec::new()), Ok(Vec::new()));
    assert_eq!(
        check_asset("2ef7bde608ce5404e97d5f042f95f89f1c232872", bytes.clone()),
        Err(AssetError::HashMismatch)
    );
    assert_eq!(check_asset("2EF7BDE608CE5404E97D5F042F95F89F1C232871", bytes.clone()), Err(AssetError::HashMismatch));
    // The digest is of the bytes, not the name handed back.
    assert_eq!(check_asset("Hello World!", bytes), Err(AssetError::HashMismatch));
}

#[test]
fn accept_asset_compares_digest_and_name() {
    assert_eq!(accept_asset("abc", "abc", vec![1, 2, 3]), Ok(vec![1, 2, 3]));
    assert_eq!(accept_asset("abc", "abd", vec![1, 2, 3]), Err(AssetError::HashMismatch));
}

#[test]
fn exact_version_wins() {
    let all = versions(&["1.21.1", "1.21", "1.20.4", "1.2"]);
    assert!(matches!(choose_version(&all, &Some("1.21".to_string())), VersionChoice::Exact(1)));
    assert!(matches!(choose_version(&all, &Some("1.2".to_string())), VersionChoice::Exact(3)));
}

#[test]
fn single_match_is_taken() {
    let all = versions(&["1.21.1", "1.21", "1.20.4", "24w14a"]);
    assert!(matches!(choose_version(&all, &Some("1.20".to_string())), VersionChoice::Single(2)));
    assert!(matches!(choose_version(&all, &Some("w14".to_string())), VersionChoice::Single(3)));
}

#[test]
fn several_matches_are_offered() {
    let all = versions(&["1.21.1", "1.21", "1.20.4", "24w14a"]);
    match choose_version(&all, &Some("1.2".to_string())) {
        VersionChoice::AskAmong(found) => assert_eq!(found, vec![0, 1, 2]),
        _ => panic!("the matching versions were not offered"),
    }
}

#[test]
fn without_a_match_all_are_offered() {
    let all = versions(&["1.21.1", "1.21"]);
    assert!(matches!(choose_version(&all, &Some("2.0".to_string())), VersionChoice::AskAll));
    assert!(matches!(choose_version(&all, &None), VersionChoice::AskAll));
    assert!(matches!(choose_version(&Vec::new(), &Some("1".to_string())), VersionChoice::AskAll));
}

#[test]
fn manifest_holds_its_versions() {
    let manifest = VersionManifest {
        latest: LatestVersion { release: "1.21.1".to_string(), snapshot: "24w14a".to_string() },
        versions: versions(&["1.21.1", "24w14a"]),
    };
    let copy = manifest.clone();
    assert_eq!(copy.latest.release, "1.21.1");
    assert_eq!(copy.versions[1].id, "24w14a");
}

#[test]
fn text_helpers_match_byte_for_byte() {
    assert!(ends_with("minecraft/sounds/a.ogg", ".ogg"));
    assert!(!ends_with("minecraft/sounds/a.ogg.bak", ".ogg"));
    assert!(!ends_with("ogg", ".ogg"));
    assert!(ends_with("anything", ""));
    assert!(contains("1.21.1", "21"));
    assert!(contains("1.21.1", ""));
    assert!(contains("abc", "abc"));
    assert!(!contains("1.21.1", "1.20"));
    assert!(!contains("ab", "abc"));
    assert!(contains("blöd", "ö"));
    assert!(same_text("sound", "sound"));
    assert!(!same_text("sound", "event"));
}

#[test]
fn version_reads_as_its_id() {
    let version = Version { id: "1.21.1".to_string(), url: "https://example.invalid/1.21.1.json".to_string() };
    assert_eq!(version.to_string(), "1.21.1");
}

#[test]
fn asset_index_holds_every_name_once() {
    let object = |hash: &str| Object { hash: hash.to_string(), size: 1 };
    let index = AssetIndex::from_entries(vec![("a.ogg".to_string(), object("01")), ("b.ogg".to_string(), object("01"))]);
    assert_eq!(index.unwrap().objects.len(), 2);
    let twice = AssetIndex::from_entries(vec![
        ("a.ogg".to_string(), object("01")),
        ("b.ogg".to_string(), object("02")),
        ("a.ogg".to_string(), object("03")),
    ]);
    assert!(twice.is_none());
    assert!(AssetIndex::from_entries(Vec::new()).is_some());
}
