use logcore::problems::fingerprint::{
    fingerprint_from_digest, FingerprintBuilder, FingerprintTokenKind, ProblemFingerprint, ProcessFingerprintKey,
};
use logcore::problems::model::{IdentityQuality, ProblemKind, SignatureQuality};

fn java_fingerprint(signature: SignatureQuality) -> ProblemFingerprint {
    let process = ProcessFingerprintKey::new(Some(" com.example.app "));
    let mut builder =
        FingerprintBuilder::new(ProblemKind::JavaCrash, 1, signature, IdentityQuality::KnownProcess, &process);
    builder
        .token(FingerprintTokenKind::ExceptionType, b"java.lang.IllegalStateException")
        .token(FingerprintTokenKind::Frame, b"com.example.MainActivity#onCreate");
    builder.finish()
}

fn bare(kind: ProblemKind, version: u16, process: &ProcessFingerprintKey) -> ProblemFingerprint {
    FingerprintBuilder::new(kind, version, SignatureQuality::Minimal, process.identity_quality(), process).finish()
}

#[test]
fn process_fingerprint_key_normalizes_only_the_process_name() {
    assert_eq!(
        ProcessFingerprintKey::new(Some("  com.example.app:worker  ")).as_bytes(),
        Some(b"com.example.app:worker".as_slice())
    );
    assert!(ProcessFingerprintKey::new(Some("  ")).is_unknown());
    assert!(ProcessFingerprintKey::new(None).is_unknown());
}

#[test]
fn fingerprint_has_a_frozen_blake3_128_golden_value() {
    assert_eq!(java_fingerprint(SignatureQuality::FullStack).to_hex(), "a17d382edecc4fb11c0d94b2c0791c3c");
}

#[test]
fn signature_and_identity_quality_are_orthogonal_domains() {
    let full = java_fingerprint(SignatureQuality::FullStack);
    let type_only = java_fingerprint(SignatureQuality::TypeOnly);
    assert_ne!(full, type_only);

    let process = ProcessFingerprintKey::new(Some("com.example.app"));
    let known = FingerprintBuilder::new(
        ProblemKind::JavaCrash,
        1,
        SignatureQuality::FullStack,
        IdentityQuality::KnownProcess,
        &process,
    )
    .finish();
    let unknown_identity = FingerprintBuilder::new(
        ProblemKind::JavaCrash,
        1,
        SignatureQuality::FullStack,
        IdentityQuality::UnknownProcess,
        &process,
    )
    .finish();
    assert_ne!(known, unknown_identity);
}

#[test]
fn kind_version_and_process_name_each_split_groups() {
    let app = ProcessFingerprintKey::new(Some("com.example.app"));
    let worker = ProcessFingerprintKey::new(Some("com.example.app:worker"));
    let baseline = bare(ProblemKind::JavaCrash, 1, &app);
    assert_ne!(baseline, bare(ProblemKind::Anr, 1, &app));
    assert_ne!(baseline, bare(ProblemKind::JavaCrash, 2, &app));
    assert_ne!(baseline, bare(ProblemKind::JavaCrash, 1, &worker));
}

#[test]
fn length_prefixes_make_token_boundaries_unambiguous() {
    let process = ProcessFingerprintKey::unknown();
    let mut left = FingerprintBuilder::new(
        ProblemKind::Anr,
        1,
        SignatureQuality::StructuredFields,
        IdentityQuality::UnknownProcess,
        &process,
    );
    left.token(FingerprintTokenKind::StructuredField, b"ab").token(FingerprintTokenKind::StructuredField, b"c");

    let mut right = FingerprintBuilder::new(
        ProblemKind::Anr,
        1,
        SignatureQuality::StructuredFields,
        IdentityQuality::UnknownProcess,
        &process,
    );
    right.token(FingerprintTokenKind::StructuredField, b"a").token(FingerprintTokenKind::StructuredField, b"bc");

    assert_ne!(left.finish(), right.finish());
}

#[test]
fn overlong_process_names_lose_their_identity() {
    let long = "a".repeat(257);
    assert!(ProcessFingerprintKey::new(Some(&long)).is_unknown());
    let exact = "a".repeat(256);
    assert_eq!(ProcessFingerprintKey::new(Some(&exact)).as_bytes(), Some(exact.as_bytes()));
    assert_eq!(ProcessFingerprintKey::new(Some("\u{3000}app\t")).as_bytes(), Some(b"app".as_slice()));
}

#[test]
fn digest_prefix_and_hex_rendering() {
    let mut digest = [0u8; 32];
    for (i, b) in digest.iter_mut().enumerate() {
        *b = (i as u8) * 17;
    }
    let fp = fingerprint_from_digest(digest);
    assert_eq!(fp.as_bytes().as_slice(), &digest[..16]);
    assert_eq!(fp.to_hex(), "00112233445566778899aabbccddeeff");
    assert_eq!(FingerprintTokenKind::Relation.code(), 6);
}
