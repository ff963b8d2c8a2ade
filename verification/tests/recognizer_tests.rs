use pii_vault::analyzer::{Analyzer, Recognizer};
use pii_vault::entity::{EntityType, RecognizerResult};
use pii_vault::recognizer::{PatternDef, RecognizerDef, RegexRecognizer};

const EMAIL_REGEX: &str = "[A-Za-z0-9._%+\\-]+@[A-Za-z0-9.\\-]+\\.[A-Za-z]{2,}";
const PHONE_REGEX: &str = "\\(?\\d{3}\\)?[\\-\\s.]?\\d{3}[\\-\\s.]?\\d{4}";
const IPV4_REGEX: &str =
    "\\b(?:(?:25[0-5]|2[0-4]\\d|[01]?\\d\\d?)\\.){3}(?:25[0-5]|2[0-4]\\d|[01]?\\d\\d?)\\b";

/// The order key of a score in `0.0..=1.0`: the bits of a non-negative
/// `f64` order as the number does.
fn key(score: f64) -> u64 {
    score.to_bits()
}

fn strings(items: &[&str]) -> Vec<String> {
    items.iter().map(|s| s.to_string()).collect()
}

fn def(
    name: &str,
    entity: &str,
    pattern: (&str, &str, f64),
    boost: f64,
    context: &[&str],
    deny: &[&str],
    validators: &[&str],
) -> RecognizerDef {
    let (pname, regex, score) = pattern;
    RecognizerDef {
        name: name.to_string(),
        entity_type: entity.to_string(),
        version: "1.0.0".to_string(),
        patterns: vec![PatternDef {
            name: pname.to_string(),
            regex: regex.to_string(),
            score: key(score),
            boosted_score: key((score + boost).min(1.0)),
        }],
        context_words: strings(context),
        deny_list: strings(deny),
        validators: strings(validators),
        supported_languages: None,
    }
}

fn email_def() -> RecognizerDef {
    def("email_recognizer", "EMAIL_ADDRESS", ("email", EMAIL_REGEX, 0.5), 0.4, &["email"], &[], &[])
}

fn phone_def() -> RecognizerDef {
    def(
        "phone_recognizer",
        "PHONE_NUMBER",
        ("phone", PHONE_REGEX, 0.4),
        0.4,
        &["phone", "call"],
        &[],
        &[],
    )
}

/// A recognizer of the analyzer built on a regex recognizer.
struct Boxed(RegexRecognizer);

impl Recognizer for Boxed {
    fn name(&self) -> &str {
        self.0.name()
    }

    fn supported_entities(&self) -> &[EntityType] {
        self.0.supported_entities()
    }

    fn analyze(&self, text: &str, entities: &[EntityType]) -> Vec<RecognizerResult> {
        self.0.analyze(text, entities).expect("recognizer could not complete")
    }
}

fn boxed(d: RecognizerDef) -> Box<dyn Recognizer> {
    Box::new(Boxed(RegexRecognizer::from_def(d).unwrap()))
}

#[test]
fn test_regex_recognizer_email() {
    let rec = RegexRecognizer::from_def(email_def()).unwrap();
    let text = "Contact me at test@example.com please";
    let results = rec.analyze(text, &[]).unwrap();
    assert_eq!(results.len(), 1);
    assert_eq!(results[0].entity_type.as_str(), "EMAIL_ADDRESS");
    assert_eq!(&text[results[0].start..results[0].end], "test@example.com");
}

#[test]
fn test_context_boost() {
    let rec = RegexRecognizer::from_def(email_def()).unwrap();
    let with_ctx = rec.analyze("My email is test@example.com", &[]).unwrap();
    let without_ctx = rec.analyze("test@example.com", &[]).unwrap();
    assert!(with_ctx[0].score > without_ctx[0].score);
}

#[test]
fn test_deny_list() {
    let d = def(
        "ip_recognizer",
        "IP_ADDRESS",
        ("ipv4", IPV4_REGEX, 0.5),
        0.0,
        &[],
        &["0.0.0.0", "127.0.0.1"],
        &[],
    );
    let rec = RegexRecognizer::from_def(d).unwrap();
    let text = "Server at 127.0.0.1 and 192.168.1.1";
    let results = rec.analyze(text, &[]).unwrap();
    assert_eq!(results.len(), 1);
    assert_eq!(&text[results[0].start..results[0].end], "192.168.1.1");
}

#[test]
fn test_analyzer_multi_entity() {
    let analyzer = Analyzer::new(vec![boxed(email_def()), boxed(phone_def())]);
    let result = analyzer.analyze("Email me at alice@example.com or call 555-123-4567", &[], key(0.0));
    assert_eq!(result.entities.len(), 2);
    assert_eq!(result.entities[0].entity_type.as_str(), "EMAIL_ADDRESS");
    assert_eq!(result.entities[1].entity_type.as_str(), "PHONE_NUMBER");
}

#[test]
fn test_analyzer_filter_by_entity() {
    let analyzer = Analyzer::new(vec![boxed(email_def()), boxed(phone_def())]);
    let result = analyzer.analyze(
        "Email me at alice@example.com or call 555-123-4567",
        &[EntityType::new("EMAIL_ADDRESS")],
        key(0.0),
    );
    assert_eq!(result.entities.len(), 1);
    assert_eq!(result.entities[0].entity_type.as_str(), "EMAIL_ADDRESS");
}

#[test]
fn test_score_threshold() {
    let analyzer = Analyzer::new(vec![boxed(email_def())]);
    let result = analyzer.analyze("test@example.com", &[], key(0.9));
    assert_eq!(result.entities.len(), 0);
}

#[test]
fn recognizer_scores_follow_context() {
    let rec = RegexRecognizer::from_def(email_def()).unwrap();
    let with_ctx = rec.analyze("My email is test@example.com", &[]).unwrap();
    let without_ctx = rec.analyze("test@example.com", &[]).unwrap();
    assert_eq!(with_ctx[0].score, key(0.9));
    assert_eq!(without_ctx[0].score, key(0.5));
    assert_eq!(with_ctx[0].recognizer_name.as_deref(), Some("email"));
}

#[test]
fn recognizer_context_is_case_insensitive() {
    let rec = RegexRecognizer::from_def(email_def()).unwrap();
    let res = rec.analyze("EMAIL: test@example.com", &[]).unwrap();
    assert_eq!(res[0].score, key(0.9));
}

#[test]
fn recognizer_context_window_is_bounded() {
    let rec = RegexRecognizer::from_def(email_def()).unwrap();
    let far = format!("email{}test@example.com", " ".repeat(120));
    let res = rec.analyze(&far, &[]).unwrap();
    assert_eq!(res[0].score, key(0.5));
}

#[test]
fn recognizer_window_off_char_boundary_cannot_complete() {
    // The window starts 100 bytes before the match, inside a 3-byte char.
    let rec = RegexRecognizer::from_def(email_def()).unwrap();
    let text = format!("{}{}test@example.com", "é", "张".repeat(33));
    let start = text.find("test").unwrap();
    assert!(!text.is_char_boundary(start - 100));
    assert!(rec.analyze(&text, &[]).is_none());
}

#[test]
fn recognizer_filters_by_entity_type() {
    let rec = RegexRecognizer::from_def(email_def()).unwrap();
    let none = rec.analyze("a@b.com", &[EntityType::new("PHONE_NUMBER")]).unwrap();
    assert!(none.is_empty());
    let some = rec.analyze("a@b.com", &[EntityType::new("email_address")]).unwrap();
    assert_eq!(some.len(), 1);
}

#[test]
fn recognizer_luhn_validator_drops_invalid_cards() {
    let d = def("cc", "credit_card", ("cc", "\\b\\d{16}\\b", 0.3), 0.0, &[], &[], &["luhn"]);
    let rec = RegexRecognizer::from_def(d).unwrap();
    assert_eq!(rec.supported_entities()[0].as_str(), "CREDIT_CARD");
    assert_eq!(rec.name(), "cc");
    let res = rec.analyze("4111111111111111 1234567890123456", &[]).unwrap();
    assert_eq!(res.len(), 1);
    assert_eq!(res[0].start, 0);
    assert_eq!(res[0].end, 16);
}

#[test]
fn recognizer_unknown_validator_passes() {
    let d = def("x", "X", ("x", "\\d+", 0.3), 0.0, &[], &[], &["no_such_check"]);
    let rec = RegexRecognizer::from_def(d).unwrap();
    assert_eq!(rec.analyze("42", &[]).unwrap().len(), 1);
}

#[test]
fn recognizer_bad_regex_is_an_error() {
    let d = def("bad", "X", ("bad", "(unclosed", 0.3), 0.0, &[], &[], &[]);
    assert!(RegexRecognizer::from_def(d).is_err());
}

#[test]
fn recognizer_iban_validator() {
    let d = def("iban", "IBAN_CODE", ("iban", "[A-Z]{2}\\d{20}", 0.3), 0.0, &[], &[], &["iban"]);
    let rec = RegexRecognizer::from_def(d).unwrap();
    assert_eq!(rec.analyze("IBAN: DE89370400440532013000", &[]).unwrap().len(), 1);
    assert_eq!(rec.analyze("IBAN: DE00370400440532013000", &[]).unwrap().len(), 0);
}

#[test]
fn recognizer_cn_id_validator() {
    let d = def("cn", "CN_ID_CARD", ("cn", "\\d{17}[\\dXx]", 0.3), 0.0, &[], &[], &["cn_id_checksum"]);
    let rec = RegexRecognizer::from_def(d).unwrap();
    assert_eq!(rec.analyze("身份证号: 11010519491231002X", &[]).unwrap().len(), 1);
    assert_eq!(rec.analyze("身份证号: 110105194912310020", &[]).unwrap().len(), 0);
}
