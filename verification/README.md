# pii_vault

Detection, anonymization and reversible tokenization of personal data, as a
library verified with Verus.

- `src/` is the verified library:
  - `checksum` holds the checksum validators (Luhn, Chinese ID, IBAN, German tax ID, Australian ABN/TFN/ACN/Medicare).
  - `recognizer` and `analyzer` hold the regex recognizers and the reconciliation of their results.
  - `anonymizer` holds the replacement operators.
  - `vault` holds salted, collision-free tokenization and restoring.
  - `clock` holds UTC timestamps.
  - `order`, `text` and `restore` hold the supporting models and lemmas.
  - `laws` holds the properties that span several operations, among them that anonymizing with the vault and then detokenizing gives back the text.
- `app/` is the edge around it: JSON forms of the types, recognizer files,
  floating-point scores (held in the library as order-preserving `u64` keys)
  and the WebAssembly-facing wrappers.
- `tests/` exercises both.
