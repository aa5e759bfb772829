use vaultsync::config::{
    default_atmosphere_config, fallback_workspace_config, initial_workspace_config,
    platform_supported, AuthMode,
};
use vaultsync::files::{filter_visible, sort_entries, FileInfo};
use vaultsync::keys::{decode_token, encode_token, get_or_create_master_key};
use vaultsync::paths::{dec_digits, enc_path, export_file_name, is_binary_path, is_path_prefix, sibling_name};
use vaultsync::url::{authenticate_url, url_credential};
use vaultsync::MASTER_KEY_LEN;

#[test]
fn master_key_is_created_then_reused() {
    let first = get_or_create_master_key(None);
    assert_eq!(first.key.len(), MASTER_KEY_LEN);
    let stored = first.to_store.expect("a fresh key must be persisted");

    let second = get_or_create_master_key(Some(&stored));
    assert_eq!(second.key, first.key);
    assert!(second.to_store.is_none());
}

#[test]
fn malformed_stored_keys_are_replaced() {
    let bad = get_or_create_master_key(Some("not base64!"));
    assert_eq!(bad.key.len(), MASTER_KEY_LEN);
    assert!(bad.to_store.is_some());

    // valid encoding of the wrong length is replaced too
    let short = encode_token(&vec![1, 2, 3]);
    let replaced = get_or_create_master_key(Some(&short));
    assert_eq!(replaced.key.len(), MASTER_KEY_LEN);
    assert!(replaced.to_store.is_some());
}

#[test]
fn token_encoding_round_trips() {
    let token = b"ghp_example_token".to_vec();
    let stored = encode_token(&token);
    assert_eq!(decode_token(&stored), Some(token));
    assert_eq!(decode_token("///not-valid///"), None);
    // the canonical encoding of one byte, not the input handed back
    assert_eq!(encode_token(&b"f".to_vec()), "Zg==");
}

#[test]
fn url_authentication_injects_and_replaces_userinfo() {
    let url = b"https://example.test/vault.git".to_vec();
    let token = b"sesame".to_vec();
    let auth = authenticate_url(&url, Some(&token));
    assert_eq!(auth, b"https://sesame@example.test/vault.git".to_vec());
    assert_eq!(url_credential(&auth), Some(b"sesame".to_vec()));

    // an existing userinfo is replaced, not doubled
    let with_user = b"https://old@example.test/vault.git".to_vec();
    let auth = authenticate_url(&with_user, Some(&token));
    assert_eq!(auth, b"https://sesame@example.test/vault.git".to_vec());

    // no token, or a non-https location: unchanged
    assert_eq!(authenticate_url(&url, None), url);
    let ssh = b"git@example.test:vault.git".to_vec();
    assert_eq!(authenticate_url(&ssh, Some(&token)), ssh);
    assert_eq!(url_credential(&url), None);
}

#[test]
fn decimal_and_sibling_names() {
    assert_eq!(dec_digits(0), b"0".to_vec());
    assert_eq!(dec_digits(7), b"7".to_vec());
    assert_eq!(dec_digits(1234), b"1234".to_vec());
    assert_eq!(dec_digits(1000000), b"1000000".to_vec());

    assert_eq!(sibling_name(&b"doc.md".to_vec(), 99), b"doc_99.md".to_vec());
    assert_eq!(sibling_name(&b"notes".to_vec(), 5), b"notes_5".to_vec());
    assert_eq!(
        sibling_name(&b"a.b.md".to_vec(), 3),
        b"a.b_3.md".to_vec()
    );
    // a leading dot is a hidden name, not an extension
    assert_eq!(sibling_name(&b".env".to_vec(), 4), b".env_4".to_vec());
}

#[test]
fn binary_classification_goes_by_extension() {
    assert!(!is_binary_path(&b"doc.md".to_vec()));
    assert!(!is_binary_path(&b"data.json".to_vec()));
    assert!(!is_binary_path(&b"a/b/c.txt".to_vec()));
    assert!(!is_binary_path(&b"style.css".to_vec()));
    assert!(is_binary_path(&b"image.png".to_vec()));
    assert!(is_binary_path(&b"archive.tar.gz".to_vec()));
    assert!(is_binary_path(&b"noextension".to_vec()));
    assert!(is_binary_path(&b".hidden".to_vec()));
}

#[test]
fn encrypted_path_naming_is_idempotent() {
    assert_eq!(enc_path(&b"note".to_vec()), b"note.enc".to_vec());
    assert_eq!(enc_path(&b"note.enc".to_vec()), b"note.enc".to_vec());
    assert_eq!(enc_path(&b"a.md".to_vec()), b"a.md.enc".to_vec());
}

#[test]
fn export_names_disambiguate_by_counter() {
    assert_eq!(
        export_file_name(&b"report".to_vec(), &b"pdf".to_vec(), 0),
        b"report.pdf".to_vec()
    );
    assert_eq!(
        export_file_name(&b"report".to_vec(), &b"pdf".to_vec(), 1),
        b"report(1).pdf".to_vec()
    );
    assert_eq!(
        export_file_name(&b"report".to_vec(), &b"docx".to_vec(), 12),
        b"report(12).docx".to_vec()
    );
}

#[test]
fn path_containment_guards_moves() {
    assert!(is_path_prefix(&b"a/b".to_vec(), &b"a/b".to_vec()));
    assert!(is_path_prefix(&b"a/b".to_vec(), &b"a/b/c".to_vec()));
    assert!(!is_path_prefix(&b"a/b".to_vec(), &b"a/bc".to_vec()));
    assert!(!is_path_prefix(&b"a/b".to_vec(), &b"a".to_vec()));
}

fn entry(name: &[u8], is_dir: bool) -> FileInfo {
    FileInfo {
        name: name.to_vec(),
        path: name.to_vec(),
        is_directory: is_dir,
        is_file: !is_dir,
    }
}

#[test]
fn listings_hide_dotfiles_and_sort_directories_first() {
    let input = vec![
        entry(b"zeta.md", false),
        entry(b".git", true),
        entry(b"notes", true),
        entry(b".hidden", false),
        entry(b"alpha.md", false),
        entry(b"attic", true),
    ];
    let visible = filter_visible(input);
    assert_eq!(visible.len(), 4);

    let sorted = sort_entries(visible);
    let names: Vec<Vec<u8>> = sorted.iter().map(|f| f.name.clone()).collect();
    assert_eq!(
        names,
        vec![
            b"attic".to_vec(),
            b"notes".to_vec(),
            b"alpha.md".to_vec(),
            b"zeta.md".to_vec(),
        ]
    );
    assert!(sorted[0].is_directory && sorted[1].is_directory);
    assert!(!sorted[2].is_directory && !sorted[3].is_directory);
}

#[test]
fn configuration_defaults() {
    assert_eq!(default_atmosphere_config().theme, "arcane");
    let initial = initial_workspace_config();
    assert_eq!(initial.commit_scope, "workspace");
    assert_eq!(initial.auto_commit_interval, 15);
    let fallback = fallback_workspace_config();
    assert_eq!(fallback.commit_scope, "workspace");
    assert_eq!(fallback.auto_commit_interval, 10);

    assert!(platform_supported(&"windows".to_string()));
    assert!(platform_supported(&"linux".to_string()));
    assert!(platform_supported(&"android".to_string()));
    assert!(!platform_supported(&"haiku".to_string()));

    let mode = AuthMode::Pat;
    assert_ne!(mode, AuthMode::Anonymous);
    assert_ne!(mode, AuthMode::Ssh);
}
