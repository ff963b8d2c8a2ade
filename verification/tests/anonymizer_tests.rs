use pii_vault::anonymizer::{hash_text, mask_text, Anonymizer, HashType, Operator, OperatorMap};
use pii_vault::entity::{EntityType, RecognizerResult};
use pii_vault::vault::Vault;

fn make_entity(entity_type: &str, start: usize, end: usize) -> RecognizerResult {
    RecognizerResult {
        entity_type: EntityType::new(entity_type),
        start,
        end,
        score: 900,
        recognizer_name: None,
    }
}

#[test]
fn test_anonymize_replace_default() {
    let text = "Email me at test@example.com";
    let entities = vec![make_entity("EMAIL_ADDRESS", 12, 28)];
    let result = Anonymizer::anonymize(text, &entities, &OperatorMap::new(), &Operator::default(), None);
    assert_eq!(result.text, "Email me at <EMAIL_ADDRESS>");
    assert_eq!(result.items.len(), 1);
}

#[test]
fn test_anonymize_replace_custom() {
    let text = "SSN: 123-45-6789";
    let entities = vec![make_entity("US_SSN", 5, 16)];
    let mut ops = OperatorMap::new();
    ops.insert("US_SSN".to_string(), Operator::Replace { new_value: "[REDACTED]".to_string() });
    let result = Anonymizer::anonymize(text, &entities, &ops, &Operator::default(), None);
    assert_eq!(result.text, "SSN: [REDACTED]");
}

#[test]
fn test_anonymize_mask() {
    let text = "Card: 4111111111111111";
    let entities = vec![make_entity("CREDIT_CARD", 6, 22)];
    let mut ops = OperatorMap::new();
    ops.insert("CREDIT_CARD".to_string(), Operator::Mask {
        masking_char: '*',
        chars_to_mask: 12,
        from_end: false,
    });
    let result = Anonymizer::anonymize(text, &entities, &ops, &Operator::default(), None);
    assert_eq!(result.text, "Card: ************1111");
}

#[test]
fn test_anonymize_hash() {
    let text = "Email: test@example.com";
    let entities = vec![make_entity("EMAIL_ADDRESS", 7, 23)];
    let mut ops = OperatorMap::new();
    ops.insert("EMAIL_ADDRESS".to_string(), Operator::Hash { hash_type: HashType::Fnv });
    let result = Anonymizer::anonymize(text, &entities, &ops, &Operator::default(), None);
    assert!(result.text.starts_with("Email: "));
    assert_ne!(result.text, text);
}

#[test]
fn test_anonymize_redact() {
    let text = "My phone is 555-123-4567";
    let entities = vec![make_entity("PHONE_NUMBER", 12, 24)];
    let mut ops = OperatorMap::new();
    ops.insert("PHONE_NUMBER".to_string(), Operator::Redact);
    let result = Anonymizer::anonymize(text, &entities, &ops, &Operator::default(), None);
    assert_eq!(result.text, "My phone is ");
}

#[test]
fn test_anonymize_vault() {
    let text = "Email: test@example.com";
    let entities = vec![make_entity("EMAIL_ADDRESS", 7, 23)];
    let mut ops = OperatorMap::new();
    ops.insert("EMAIL_ADDRESS".to_string(), Operator::Vault);
    let mut vault = Vault::new();
    let result = Anonymizer::anonymize(text, &entities, &ops, &Operator::default(), Some(&mut vault));
    assert!(result.text.contains("[EMAIL_ADDRESS:"));
    assert_eq!(vault.entry_count(), 1);

    let restored = vault.detokenize(&result.text);
    assert_eq!(restored, text);
}

#[test]
fn test_anonymize_multiple_entities() {
    let text = "alice@test.com called 555-123-4567";
    let entities = vec![
        make_entity("EMAIL_ADDRESS", 0, 14),
        make_entity("PHONE_NUMBER", 22, 34),
    ];
    let result = Anonymizer::anonymize(text, &entities, &OperatorMap::new(), &Operator::default(), None);
    assert_eq!(result.text, "<EMAIL_ADDRESS> called <PHONE_NUMBER>");
}

#[test]
fn anonymize_items_in_position_order() {
    let text = "alice@test.com called 555-123-4567";
    let entities = vec![
        make_entity("PHONE_NUMBER", 22, 34),
        make_entity("EMAIL_ADDRESS", 0, 14),
    ];
    let result = Anonymizer::anonymize(text, &entities, &OperatorMap::new(), &Operator::default(), None);
    assert_eq!(result.items.len(), 2);
    assert_eq!(result.items[0].entity_type, "EMAIL_ADDRESS");
    assert_eq!(result.items[0].original, "alice@test.com");
    assert_eq!(result.items[0].replacement, "<EMAIL_ADDRESS>");
    assert_eq!(result.items[1].start, 22);
    assert_eq!(result.items[1].end, 34);
    assert_eq!(result.items[1].original, "555-123-4567");
}

#[test]
fn anonymize_vault_without_vault_uses_placeholder() {
    let text = "Email: test@example.com";
    let entities = vec![make_entity("EMAIL_ADDRESS", 7, 23)];
    let mut ops = OperatorMap::new();
    ops.insert("EMAIL_ADDRESS".to_string(), Operator::Vault);
    let result = Anonymizer::anonymize(text, &entities, &ops, &Operator::default(), None);
    assert_eq!(result.text, "Email: <EMAIL_ADDRESS>");
}

#[test]
fn anonymize_non_ascii_text() {
    let text = "邮箱 a@b.cn 好";
    let start = "邮箱 ".len();
    let end = start + "a@b.cn".len();
    let entities = vec![make_entity("EMAIL_ADDRESS", start, end)];
    let mut ops = OperatorMap::new();
    ops.insert("EMAIL_ADDRESS".to_string(), Operator::Mask { masking_char: '#', chars_to_mask: 100, from_end: true });
    let result = Anonymizer::anonymize(text, &entities, &ops, &Operator::default(), None);
    assert_eq!(result.text, "邮箱 ###### 好");
}

#[test]
fn try_anonymize_refuses_range_inside_a_character() {
    let text = "邮箱";
    let entities = vec![make_entity("X", 1, 2)];
    let mut vault = Vault::new();
    let r = Anonymizer::try_anonymize(text, &entities, &OperatorMap::new(), &Operator::Vault, Some(&mut vault));
    assert!(r.is_none());
    assert_eq!(vault.entry_count(), 0);
    let r = Anonymizer::try_anonymize("abc", &[make_entity("X", 1, 2)], &OperatorMap::new(), &Operator::Vault, Some(&mut vault));
    assert_eq!(r.unwrap().text.starts_with("a[X:"), true);
    assert_eq!(vault.entry_count(), 1);
}

#[test]
fn operator_map_insert_replaces() {
    let mut ops = OperatorMap::new();
    ops.insert("A".to_string(), Operator::Redact);
    ops.insert("A".to_string(), Operator::Vault);
    assert!(matches!(ops.get("A"), Some(Operator::Vault)));
    assert!(ops.get("B").is_none());
}

#[test]
fn mask_from_end_and_hash_value() {
    assert_eq!(mask_text("4111111111111111", '*', 4, true), "411111111111****");
    assert_eq!(mask_text("ab", 'x', 5, false), "xx");
    assert_eq!(hash_text("", &HashType::Fnv), "811c9dc5");
    assert_eq!(hash_text("a", &HashType::Fnv), "e40c292c");
}

#[test]
fn vault_round_trip_restores_text() {
    let text = "Email alice@company.com, SSN 123-45-6789";
    let entities = vec![make_entity("EMAIL_ADDRESS", 6, 23), make_entity("US_SSN", 29, 40)];
    let mut ops = OperatorMap::new();
    ops.insert("EMAIL_ADDRESS".to_string(), Operator::Vault);
    ops.insert("US_SSN".to_string(), Operator::Vault);
    let mut vault = Vault::new();
    let anon = Anonymizer::anonymize(text, &entities, &ops, &Operator::default(), Some(&mut vault));
    assert!(!anon.text.contains("alice@company.com"));
    assert!(!anon.text.contains("123-45-6789"));
    assert!(anon.text.starts_with("Email [EMAIL_ADDRESS:"));
    assert_eq!(vault.entry_count(), 2);
    assert_eq!(vault.detokenize(&anon.text), text);
}

#[test]
fn vault_round_trip_with_multibyte_text() {
    let text = "张三的邮箱是 zhangsan@example.com，手机号 13800138000";
    let start = text.find("zhangsan").unwrap();
    let end = start + "zhangsan@example.com".len();
    let pstart = text.find("138").unwrap();
    let entities = vec![
        make_entity("EMAIL_ADDRESS", start, end),
        make_entity("PHONE_NUMBER", pstart, pstart + 11),
    ];
    let mut ops = OperatorMap::new();
    ops.insert("EMAIL_ADDRESS".to_string(), Operator::Vault);
    ops.insert("PHONE_NUMBER".to_string(), Operator::Vault);
    let mut vault = Vault::new();
    let anon = Anonymizer::anonymize(text, &entities, &ops, &Operator::default(), Some(&mut vault));
    assert!(!anon.text.contains("13800138000"));
    assert_eq!(vault.detokenize(&anon.text), text);
}

#[test]
fn vault_round_trip_with_closing_brackets_in_text() {
    let text = "note] bob@x.io and] 555-0101";
    let entities = vec![make_entity("EMAIL_ADDRESS", 6, 14), make_entity("PHONE_NUMBER", 20, 28)];
    let mut ops = OperatorMap::new();
    ops.insert("EMAIL_ADDRESS".to_string(), Operator::Vault);
    ops.insert("PHONE_NUMBER".to_string(), Operator::Vault);
    let mut vault = Vault::new();
    let anon = Anonymizer::anonymize(text, &entities, &ops, &Operator::default(), Some(&mut vault));
    assert!(!anon.text.contains("bob@x.io"));
    assert_eq!(vault.detokenize(&anon.text), text);
}

#[test]
fn try_tokenize_matches_tokenize() {
    let mut a = Vault::new();
    let mut b = Vault::from_stored(2, a.salt.clone(), Vec::new());
    let t1 = a.try_tokenize_ctx("person", "Ann", "").unwrap();
    let t2 = b.tokenize_ctx("person", "Ann", "");
    assert_eq!(t1, t2);
    assert_eq!(a.try_tokenize_ctx("person", "Ann", "").unwrap(), t1);
    assert_eq!(a.entries[0].use_count, 2);
}
