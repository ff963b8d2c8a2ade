use pii_vault::checksum::{
    au_abn_check, au_acn_check, au_medicare_check, au_tfn_check, cn_id_check, de_tax_id_check,
    iban_check, luhn_check,
};

#[test]
fn test_luhn_valid() {
    assert!(luhn_check("4532015112830366"));
    assert!(luhn_check("4111111111111111"));
}

#[test]
fn test_luhn_invalid() {
    assert!(!luhn_check("1234567890123456"));
}

#[test]
fn test_cn_id_valid() {
    assert!(cn_id_check("11010519491231002X"));
}

#[test]
fn test_cn_id_invalid() {
    assert!(!cn_id_check("110105194912310020"));
}

#[test]
fn luhn_ignores_separators_and_needs_two_digits() {
    assert!(luhn_check("4111 1111-1111 1111"));
    assert!(!luhn_check("0"));
    assert!(luhn_check("00"));
    assert!(!luhn_check(""));
}

#[test]
fn cn_id_lowercase_check_character_and_wrong_length() {
    assert!(cn_id_check("11010519491231002x"));
    assert!(!cn_id_check("11010519491231002"));
    assert!(!cn_id_check("1101051949123100A2X"));
    assert!(!cn_id_check("11010519491231002Ä"));
}

#[test]
fn iban_valid_and_invalid() {
    assert!(iban_check("DE89370400440532013000"));
    assert!(iban_check("DE89 3704 0044 0532 0130 00"));
    assert!(iban_check("GB82-WEST-1234-5698-7654-32"));
    assert!(!iban_check("DE00370400440532013000"));
    assert!(!iban_check("DE89"));
}

#[test]
fn de_tax_id_cases() {
    assert!(de_tax_id_check("86095742719"));
    assert!(!de_tax_id_check("86095742710"));
    assert!(!de_tax_id_check("06095742719"));
    assert!(!de_tax_id_check("11111111111"));
    assert!(!de_tax_id_check("8609574271"));
}

#[test]
fn au_abn_cases() {
    assert!(au_abn_check("51 824 753 556"));
    assert!(!au_abn_check("51 824 753 557"));
    assert!(!au_abn_check("00 000 000 000"));
}

#[test]
fn au_tfn_cases() {
    assert!(au_tfn_check("123 456 782"));
    assert!(!au_tfn_check("123 456 781"));
}

#[test]
fn au_acn_cases() {
    assert!(au_acn_check("004 085 616"));
    assert!(!au_acn_check("004 085 617"));
}

#[test]
fn au_medicare_cases() {
    assert!(au_medicare_check("2123 45670 1"));
    assert!(!au_medicare_check("2123 45671 1"));
    assert!(!au_medicare_check("1123 45670 1"));
}
