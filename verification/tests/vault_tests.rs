use pii_vault::vault::{Vault, VaultEntry};

#[test]
fn test_tokenize_deterministic() {
    let mut vault = Vault::new();
    let t1 = vault.tokenize("email_address", "test@example.com");
    let t2 = vault.tokenize("email_address", "test@example.com");
    assert_eq!(t1, t2);
    assert_eq!(vault.entry_count(), 1);
    assert_eq!(vault.entries[0].use_count, 2);
}

#[test]
fn test_tokenize_different_originals() {
    let mut vault = Vault::new();
    let t1 = vault.tokenize("email_address", "alice@example.com");
    let t2 = vault.tokenize("email_address", "bob@example.com");
    assert_ne!(t1, t2);
    assert_eq!(vault.entry_count(), 2);
}

#[test]
fn test_tokenize_with_context() {
    let mut vault = Vault::new();
    let t1 = vault.tokenize_ctx("person", "Zhang San", "customer");
    let t2 = vault.tokenize_ctx("person", "Zhang San", "colleague");
    assert_ne!(t1, t2);
}

#[test]
fn test_detokenize() {
    let mut vault = Vault::new();
    let token = vault.tokenize("email_address", "test@example.com");
    let text = format!("Contact {}", token);
    let restored = vault.detokenize(&text);
    assert_eq!(restored, "Contact test@example.com");
}

#[test]
fn test_token_format_8hex() {
    let mut vault = Vault::new();
    let token = vault.tokenize("email_address", "test@example.com");
    assert!(token.starts_with("[EMAIL_ADDRESS:"));
    assert!(token.ends_with(']'));
    let hex_part = &token["[EMAIL_ADDRESS:".len()..token.len() - 1];
    assert_eq!(hex_part.len(), 8, "token should have 8 hex chars");
    assert!(hex_part.chars().all(|c| c.is_ascii_hexdigit()));
}

#[test]
fn test_lookup_token() {
    let mut vault = Vault::new();
    let token = vault.tokenize("email_address", "test@example.com");
    let entry = vault.lookup_token(&token).unwrap();
    assert_eq!(entry.original, "test@example.com");
}

#[test]
fn test_different_vaults_different_tokens() {
    let mut v1 = Vault::new();
    let mut v2 = Vault::new();
    let t1 = v1.tokenize("person", "Zhang Wei");
    let t2 = v2.tokenize("person", "Zhang Wei");
    assert_ne!(t1, t2, "different vaults should produce different tokens (salt isolation)");
}

fn entry(token: &str, original: &str, category: &str) -> VaultEntry {
    VaultEntry {
        token: token.to_string(),
        original: original.to_string(),
        category: category.to_string(),
        context: String::new(),
        created_at: "2026-04-01T00:00:00Z".to_string(),
        last_used: "2026-04-01T00:00:00Z".to_string(),
        use_count: 1,
    }
}

#[test]
fn test_v1_vault_backward_compat() {
    let vault = Vault::from_stored(1, String::new(), vec![entry("[PERSON:e702]", "Zhang Wei", "person")]);
    assert_eq!(vault.version, 2);
    assert_eq!(vault.salt.len(), 32);
    assert_eq!(vault.entry_count(), 1);
    let entry = vault.lookup_token("[PERSON:e702]").unwrap();
    assert_eq!(entry.original, "Zhang Wei");
    let restored = vault.detokenize("Hello [PERSON:e702]");
    assert_eq!(restored, "Hello Zhang Wei");
}

#[test]
fn test_json_roundtrip_preserves_salt() {
    let mut vault = Vault::new();
    let token = vault.tokenize("person", "Alice");
    let salt = vault.salt.clone();
    let entries: Vec<VaultEntry> = vault.entries.iter().map(|e| entry(&e.token, &e.original, &e.category)).collect();
    let mut loaded = Vault::from_stored(2, salt.clone(), entries);
    assert_eq!(loaded.salt, salt);
    let token2 = loaded.tokenize("person", "Alice");
    assert_eq!(token, token2);
    assert_eq!(loaded.entry_count(), 1);
}

#[test]
fn test_to_json_version_2() {
    let vault = Vault::new();
    assert_eq!(vault.version, 2);
    assert_eq!(vault.salt.len(), 32);
    assert!(vault.salt.chars().all(|c| c.is_ascii_hexdigit() && !c.is_ascii_uppercase()));
    assert_eq!(vault.entry_count(), 0);
}

#[test]
fn detokenize_longest_token_first() {
    let vault = Vault::from_stored(
        2,
        "00".to_string(),
        vec![entry("[A]", "short", "a"), entry("[A][A]", "long", "a")],
    );
    assert_eq!(vault.detokenize("x [A][A] y [A]"), "x long y short");
}

#[test]
fn detokenize_empty_token_inserts_everywhere() {
    let vault = Vault::from_stored(2, "00".to_string(), vec![entry("", "-", "a")]);
    assert_eq!(vault.detokenize("ab"), "-a-b-");
}

#[test]
fn token_hash_matches_fnv1a() {
    // FNV-1a over "00:email_address:test@example.com"
    let mut h: u32 = 0x811c9dc5;
    for b in "00:email_address:test@example.com".bytes() {
        h = (h ^ b as u32).wrapping_mul(0x01000193);
    }
    let mut vault = Vault::from_stored(2, "00".to_string(), Vec::new());
    let token = vault.tokenize("email_address", "test@example.com");
    assert_eq!(token, format!("[EMAIL_ADDRESS:{:08x}]", h));
    assert_eq!(vault.entries[0].created_at, vault.entries[0].last_used);
    assert_eq!(vault.entries[0].created_at.len(), 20);
    assert!(vault.entries[0].created_at.ends_with('Z'));
}

#[test]
fn try_tokenize_refuses_exhausted_use_count() {
    let mut e = entry("[P:1]", "x", "p");
    e.use_count = u32::MAX;
    let mut vault = Vault::from_stored(2, "00".to_string(), vec![e]);
    assert_eq!(vault.try_tokenize_ctx("p", "x", ""), None);
    assert_eq!(vault.entries[0].use_count, u32::MAX);
    assert_eq!(vault.try_tokenize_ctx("p", "y", "").is_some(), true);
}

#[test]
fn test_roundtrip_json() {
    let mut vault = Vault::new();
    vault.tokenize("email_address", "test@example.com");
    vault.tokenize("phone_number", "555-1234");
    let entries: Vec<VaultEntry> =
        vault.entries.iter().map(|e| entry(&e.token, &e.original, &e.category)).collect();
    let loaded = Vault::from_stored(vault.version, vault.salt.clone(), entries);
    assert_eq!(loaded.entry_count(), 2);
    assert_eq!(loaded.entries[0].original, "test@example.com");
}

#[test]
fn tokenize_keeps_timestamps_of_untouched_entries() {
    let mut vault = Vault::from_stored(2, "00".to_string(), vec![entry("[P:1]", "x", "p")]);
    vault.tokenize("email_address", "a@b.c");
    assert_eq!(vault.entries[0].last_used, "2026-04-01T00:00:00Z");
    assert_eq!(vault.entries[0].created_at, "2026-04-01T00:00:00Z");
}

#[test]
fn colon_in_parts_does_not_merge_triples() {
    let mut vault = Vault::new();
    let t1 = vault.tokenize("a:b", "c");
    let t2 = vault.tokenize("a", "b:c");
    assert_ne!(t1, t2);
    assert_eq!(vault.entry_count(), 2);
    assert_eq!(vault.lookup_token(&t2).unwrap().original, "b:c");
    assert_eq!(vault.detokenize(&format!("{} {}", t1, t2)), "c b:c");
}

#[test]
fn tokenize_again_after_other_calls_returns_first_token() {
    let mut vault = Vault::new();
    let t1 = vault.tokenize("person", "Alice");
    vault.tokenize("person", "Bob");
    vault.tokenize_ctx("person", "Alice", "colleague");
    let t2 = vault.tokenize("person", "Alice");
    assert_eq!(t1, t2);
    assert_eq!(vault.entry_count(), 3);
    assert_eq!(vault.entries[0].use_count, 2);
}
