//! Attestation records: content-derived proof identifiers and the proof
//! cache.

use dagshield::{generate_proof_id, ProofCache, ThreatProof};

fn record(bytes: &[u8], node: &str, ts: u64) -> ThreatProof {
    ThreatProof {
        proof: bytes.to_vec(),
        public_inputs: vec!["1".to_string(), "2".to_string()],
        verification_key_hash: "vk".to_string(),
        timestamp: ts,
        node_id: node.to_string(),
    }
}

#[test]
fn proof_id_is_sixty_four_hex_characters() {
    let p = record(&[1, 2, 3, 4, 5], "test_node", 7);
    let id = generate_proof_id(&p);
    assert_eq!(id.len(), 64);
    assert!(id.chars().all(|c| c.is_ascii_hexdigit() && !c.is_ascii_uppercase()));
}

#[test]
fn proof_id_depends_only_on_content() {
    let a = generate_proof_id(&record(&[1, 2, 3], "n", 1));
    let b = generate_proof_id(&record(&[1, 2, 3], "n", 1));
    let c = generate_proof_id(&record(&[1, 2, 4], "n", 1));
    let d = generate_proof_id(&record(&[1, 2, 3], "n", 2));
    assert_eq!(a, b);
    assert_ne!(a, c);
    assert_ne!(a, d);
}

#[test]
fn cache_keys_proofs_by_identifier() {
    let mut cache = ProofCache::new();
    assert_eq!(cache.len(), 0);
    let id1 = cache.insert(record(&[9, 9], "n1", 5));
    assert_eq!(cache.len(), 1);
    assert!(cache.contains(&id1));
    // The same record lands on the same identifier: a replacement, not
    // a second entry.
    let id1b = cache.insert(record(&[9, 9], "n1", 5));
    assert_eq!(id1, id1b);
    assert_eq!(cache.len(), 1);
    let id2 = cache.insert(record(&[8], "n1", 5));
    assert_ne!(id1, id2);
    assert_eq!(cache.len(), 2);
    let stats = cache.stats(true, false);
    assert_eq!(stats.total_proofs, 2);
    assert!(stats.enabled);
    assert!(!stats.has_parameters);
    cache.clear();
    assert_eq!(cache.len(), 0);
    assert!(!cache.contains(&id1));
}
