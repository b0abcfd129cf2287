use doksnet::check::{test_partition, test_partition_validity, CheckFailure};
use doksnet::fingerprint::{hash_content, verify_hash};
use doksnet::partition::{Partition, SourceText};

#[test]
fn test_hash_content() {
    let content = "Hello, world!";
    let hash = hash_content(content);
    assert!(!hash.is_empty());
    assert_eq!(hash.len(), 64);
}

#[test]
fn test_verify_hash() {
    let content = "Hello, world!";
    let hash = hash_content(content);
    assert!(verify_hash(content, &hash));
    assert!(!verify_hash("Different content", &hash));
}

#[test]
fn test_consistent_hashing() {
    let content = "Consistent content";
    let hash1 = hash_content(content);
    let hash2 = hash_content(content);
    assert_eq!(hash1, hash2);
}

#[test]
fn test_empty_content() {
    let content = "";
    let hash = hash_content(content);
    assert!(!hash.is_empty());
    assert_eq!(hash.len(), 64);
}

#[test]
fn test_whitespace_sensitivity() {
    let content1 = "Hello world";
    let content2 = "Hello  world";
    let content3 = "Hello world\n";

    let hash1 = hash_content(content1);
    let hash2 = hash_content(content2);
    let hash3 = hash_content(content3);

    assert_ne!(hash1, hash2);
    assert_ne!(hash1, hash3);
    assert_ne!(hash2, hash3);
}

#[test]
fn test_unicode_content() {
    let content = "Hello \u{4e16}\u{754c} \u{1f980}";
    let hash = hash_content(content);
    assert!(!hash.is_empty());
    assert!(verify_hash(content, &hash));
}

#[test]
fn test_large_content() {
    let content = "A".repeat(10000);
    let hash = hash_content(&content);
    assert!(!hash.is_empty());
    assert!(verify_hash(&content, &hash));
}

#[test]
fn test_hash_computation() {
    let content1 = "Hello, world!";
    let content2 = "Hello, world!";
    let content3 = "Hello, world?";

    let hash1 = blake3::hash(content1.as_bytes()).to_hex().to_string();
    let hash2 = blake3::hash(content2.as_bytes()).to_hex().to_string();
    let hash3 = blake3::hash(content3.as_bytes()).to_hex().to_string();

    assert_eq!(hash1, hash2);
    assert_ne!(hash1, hash3);
    assert_eq!(hash1.len(), 64);
    assert_eq!(hash_content(content1), hash1);
    assert_eq!(hash_content(content3), hash3);
}

#[test]
fn fingerprint_known_value() {
    assert_eq!(
        hash_content(""),
        "af1349b9f5f9a1a6a0404dea36dcc9499bcb25c9adc112b7cc9a93cae41f3262"
    );
    assert!(hash_content("abc").chars().all(|c| c.is_ascii_digit() || ('a'..='f').contains(&c)));
}

#[test]
fn verify_rejects_other_forms() {
    let hash = hash_content("x");
    assert!(!verify_hash("x", &hash.to_uppercase()));
    assert!(!verify_hash("x", &hash[..63]));
    assert!(!verify_hash("x", ""));
    assert!(!verify_hash("x\r\n", &hash_content("x\n")));
}

#[test]
fn scenario_drift_detection() {
    let partition = Partition::parse("notes.md:2").unwrap();
    let before = SourceText::Text("title\nfirst text\nend".to_string());
    let c1 = partition.extract_content(&before).unwrap();
    let recorded = hash_content(&c1);
    assert!(verify_hash(&c1, &recorded));

    let after = SourceText::Text("title\nsecond text\nend".to_string());
    let c2 = partition.extract_content(&after).unwrap();
    assert_ne!(c1, c2);
    assert!(!verify_hash(&c2, &recorded));
}

#[test]
fn check_outcomes() {
    let source = SourceText::Text("# Test\nOriginal content\nLine 3".to_string());
    let recorded = hash_content("Original content");
    assert_eq!(test_partition("README.md:2", &recorded, &source), Ok(()));
    assert!(test_partition_validity("README.md:2", &recorded, &source));

    let changed = SourceText::Text("# Test\nModified content\nLine 3".to_string());
    assert_eq!(
        test_partition("README.md:2", &recorded, &changed),
        Err(CheckFailure::Changed { actual: hash_content("Modified content") })
    );
    assert!(!test_partition_validity("README.md:2", &recorded, &changed));

    assert!(matches!(
        test_partition("README.md:x", &recorded, &source),
        Err(CheckFailure::Parse(_))
    ));
    assert!(matches!(
        test_partition("README.md:9", &recorded, &source),
        Err(CheckFailure::Extract(_))
    ));
    assert!(!test_partition_validity("README.md:2", &recorded, &SourceText::Missing));
}

#[test]
fn test_realistic_scenario() {
    let readme_content = r#"# My Project

## Installation

To install this project:

```bash
cargo install my-project
```

## Usage

The main function starts the application:

```rust
fn main() {
    println!("Starting application...");
    let config = load_config();
    run_app(config);
}
```

## Configuration

Configure using the `config.toml` file.
"#;
    let main_content = r#"use std::fs;

fn main() {
    println!("Starting application...");
    let config = load_config();
    run_app(config);
}

fn load_config() -> Config {
    // Load configuration
    Config::default()
}
"#;
    let readme = SourceText::Text(readme_content.to_string());
    let main = SourceText::Text(main_content.to_string());

    let main_section =
        Partition::parse("README.md:16-20").unwrap().extract_content(&readme).unwrap();
    let main_function =
        Partition::parse("src/main.rs:3-6").unwrap().extract_content(&main).unwrap();

    assert!(main_section.contains("fn main()"));
    assert!(main_section.contains("println!(\"Starting application...\")"));
    assert!(main_function.contains("fn main()"));
    assert!(main_function.contains("println!(\"Starting application...\")"));

    let doc_hash = hash_content(&main_section);
    let code_hash = hash_content(&main_function);
    assert_ne!(doc_hash, code_hash);

    let whole_function =
        Partition::parse("src/main.rs:3-7").unwrap().extract_content(&main).unwrap();
    assert_eq!(whole_function, main_section);
    assert!(test_partition_validity("src/main.rs:3-7", &doc_hash, &main));
    assert!(!test_partition_validity("src/main.rs:3-6", &doc_hash, &main));
}
