//! Attestation records: the proof objects produced by the external
//! zero-knowledge attestation collaborator, their content-derived cache
//! identifiers, and the proof cache with its statistics.
//!
//! Producing and checking the cryptographic proof itself is the external
//! collaborator's work; this module only carries the finished record,
//! derives its identifier from its bytes, and keeps the cache honest.

use vstd::prelude::*;
use vstd::bytes::{spec_u64_to_le_bytes, u64_to_le_bytes};
use vstd::utf8::encode_utf8;

use crate::ext::{hex_encode, hex_of, keccak256, keccak256_of};
use crate::txn::{clone_bytes, clone_ids, views_of_ids};

verus! {

/// A finished attestation: opaque proof bytes plus the public inputs and
/// bookkeeping the verifier side needs.
#[derive(Clone, Debug)]
pub struct ThreatProof {
    pub proof: Vec<u8>,
    pub public_inputs: Vec<String>,
    pub verification_key_hash: String,
    pub timestamp: u64,
    pub node_id: String,
}

/// Mathematical model of an attestation record.
pub struct ThreatProofView {
    pub proof: Seq<u8>,
    pub public_inputs: Seq<Seq<char>>,
    pub verification_key_hash: Seq<char>,
    pub timestamp: u64,
    pub node_id: Seq<char>,
}

impl View for ThreatProof {
    type V = ThreatProofView;

    open spec fn view(&self) -> ThreatProofView {
        ThreatProofView {
            proof: self.proof@,
            public_inputs: views_of_ids(self.public_inputs@),
            verification_key_hash: self.verification_key_hash@,
            timestamp: self.timestamp,
            node_id: self.node_id@,
        }
    }
}

impl ThreatProof {
    /// An explicit copy whose relation to the original is part of the
    /// contract.
    pub fn duplicate(&self) -> (p: ThreatProof)
        ensures
            p@ == self@,
    {
        ThreatProof {
            proof: clone_bytes(&self.proof),
            public_inputs: clone_ids(&self.public_inputs),
            verification_key_hash: self.verification_key_hash.clone(),
            timestamp: self.timestamp,
            node_id: self.node_id.clone(),
        }
    }
}

/// Cache statistics of the attestation side.
#[derive(Clone, Copy, Debug, PartialEq, Eq, Structural)]
pub struct ProofStats {
    pub total_proofs: usize,
    pub enabled: bool,
    pub has_parameters: bool,
}

/// The bytes whose digest identifies a proof: the proof bytes, then the
/// producing node's identifier, then the timestamp in little-endian.
pub open spec fn proof_id_input(p: ThreatProofView) -> Seq<u8> {
    p.proof + encode_utf8(p.node_id) + spec_u64_to_le_bytes(p.timestamp)
}

/// A proof's cache identifier: the lowercase hex form of the Keccak-256
/// digest of its identifying bytes.
pub open spec fn proof_id_spec(p: ThreatProofView) -> Seq<char> {
    hex_of(keccak256_of(proof_id_input(p)))
}

/// Append a byte slice to a buffer.
fn append_bytes(dst: &mut Vec<u8>, src: &[u8])
    ensures
        final(dst)@ == old(dst)@ + src@,
{
    let ghost base = dst@;
    let mut i: usize = 0;
    while i < src.len()
        invariant
            i <= src@.len(),
            dst@ == base + src@.subrange(0, i as int),
        decreases src@.len() - i,
    {
        dst.push(src[i]);
        proof {
            assert(dst@ =~= base + src@.subrange(0, i as int + 1));
        }
        i = i + 1;
    }
    proof {
        assert(dst@ =~= base + src@);
    }
}

/// Derive a proof's cache identifier from its content: 64 lowercase hex
/// characters of the Keccak-256 digest over proof bytes, node identifier,
/// and timestamp. Content-derived: equal records get equal identifiers.
pub fn generate_proof_id(p: &ThreatProof) -> (r: String)
    ensures
        r@ == proof_id_spec(p@),
        r@.len() == 64,
{
    let mut data = clone_bytes(&p.proof);
    append_bytes(&mut data, p.node_id.as_str().as_bytes());
    let ts = u64_to_le_bytes(p.timestamp);
    append_bytes(&mut data, ts.as_slice());
    proof {
        assert(data@ == proof_id_input(p@));
    }
    let digest = keccak256(&data);
    let r = hex_encode(&digest);
    proof {
        crate::ext::lemma_hex_of_len(digest@);
    }
    r
}

/// The map a list of identified proofs stands for, later entries
/// shadowing earlier ones with the same identifier.
pub open spec fn entries_map(s: Seq<(Seq<char>, ThreatProofView)>) -> Map<
    Seq<char>,
    ThreatProofView,
>
    decreases s.len(),
{
    if s.len() == 0 {
        Map::empty()
    } else {
        entries_map(s.drop_last()).insert(s.last().0, s.last().1)
    }
}

/// The identifiers of a list of identified proofs.
pub open spec fn entry_ids(s: Seq<(Seq<char>, ThreatProofView)>) -> Seq<Seq<char>> {
    Seq::new(s.len(), |i: int| s[i].0)
}

/// The cache of finished attestations, keyed by content-derived
/// identifier. Entries stay until `clear` (the retention policy here is
/// to keep them; the cache never evicts on its own).
pub struct ProofCache {
    entries: Vec<(String, ThreatProof)>,
}

impl View for ProofCache {
    type V = Seq<(Seq<char>, ThreatProofView)>;

    closed spec fn view(&self) -> Seq<(Seq<char>, ThreatProofView)> {
        Seq::new(self.entries@.len(), |i: int| (self.entries@[i].0@, self.entries@[i].1@))
    }
}

proof fn lemma_entries_map_replace(s: Seq<(Seq<char>, ThreatProofView)>, k: int, v: ThreatProofView)
    requires
        entry_ids(s).no_duplicates(),
        0 <= k < s.len(),
    ensures
        entries_map(s.update(k, (s[k].0, v))) == entries_map(s).insert(s[k].0, v),
    decreases s.len(),
{
    let id = s[k].0;
    let s2 = s.update(k, (id, v));
    if k == s.len() - 1 {
        assert(s2.drop_last() =~= s.drop_last());
        assert(entries_map(s2) =~= entries_map(s).insert(id, v));
    } else {
        assert(s2.drop_last() =~= s.drop_last().update(k, (id, v)));
        let d = s.drop_last();
        assert(entry_ids(d).no_duplicates()) by {
            assert forall|i: int, j: int|
                0 <= i < entry_ids(d).len() && 0 <= j < entry_ids(d).len() && i != j implies
                entry_ids(d)[i] != entry_ids(d)[j] by {
                assert(entry_ids(d)[i] == entry_ids(s)[i]);
                assert(entry_ids(d)[j] == entry_ids(s)[j]);
            }
        }
        assert(s.drop_last()[k] == s[k]);
        lemma_entries_map_replace(s.drop_last(), k, v);
        assert(s.last().0 != id) by {
            assert(entry_ids(s)[k] == id);
            assert(entry_ids(s)[s.len() - 1] == s.last().0);
        }
        assert(s2.last() == s.last());
        assert(entries_map(s2) =~= entries_map(s).insert(id, v));
    }
}

impl ProofCache {
    /// Identifiers in the cache are unique.
    pub open spec fn wf(&self) -> bool {
        entry_ids(self@).no_duplicates()
    }

    /// An empty cache.
    pub fn new() -> (c: ProofCache)
        ensures
            c@ =~= Seq::<(Seq<char>, ThreatProofView)>::empty(),
            c.wf(),
    {
        let c = ProofCache { entries: Vec::new() };
        proof {
            assert(c@ =~= Seq::<(Seq<char>, ThreatProofView)>::empty());
            assert(entry_ids(c@) =~= Seq::<Seq<char>>::empty());
        }
        c
    }

    /// How many proofs the cache holds.
    pub fn len(&self) -> (n: usize)
        ensures
            n == self@.len(),
    {
        self.entries.len()
    }

    /// Whether the cache holds a proof under `id`.
    pub fn contains(&self, id: &String) -> (r: bool)
        ensures
            r == entries_map(self@).dom().contains(id@),
    {
        let mut i: usize = 0;
        proof {
            lemma_entries_map_dom(self@);
        }
        while i < self.entries.len()
            invariant
                i <= self.entries@.len(),
                forall|j: int| 0 <= j < i ==> #[trigger] self.entries@[j].0@ != id@,
                entries_map(self@).dom() =~= entry_ids(self@).to_set(),
            decreases self.entries@.len() - i,
        {
            if self.entries[i].0 == *id {
                proof {
                    assert(entry_ids(self@)[i as int] == id@);
                    assert(entry_ids(self@).to_set().contains(id@));
                }
                return true;
            }
            i = i + 1;
        }
        proof {
            if entry_ids(self@).to_set().contains(id@) {
                let j = choose|j: int| 0 <= j < entry_ids(self@).len() && entry_ids(self@)[j] == id@;
                assert(self.entries@[j].0@ == id@);
            }
        }
        false
    }

    /// Store a proof under its content-derived identifier, replacing any
    /// previous record with the same identifier, and hand the identifier
    /// back.
    pub fn insert(&mut self, p: ThreatProof) -> (id: String)
        requires
            old(self).wf(),
        ensures
            final(self).wf(),
            id@ == proof_id_spec(p@),
            entries_map(final(self)@) == entries_map(old(self)@).insert(id@, p@),
    {
        let id = generate_proof_id(&p);
        let ghost s0 = self@;
        let mut i: usize = 0;
        while i < self.entries.len()
            invariant
                i <= self.entries@.len(),
                s0 == self@,
                s0 == old(self)@,
                entry_ids(s0).no_duplicates(),
                id@ == proof_id_spec(p@),
                forall|j: int| 0 <= j < i ==> #[trigger] self.entries@[j].0@ != id@,
            decreases self.entries@.len() - i,
        {
            if self.entries[i].0 == id {
                proof {
                    assert(s0[i as int].0 == id@);
                }
                self.entries.set(i, (id.clone(), p));
                proof {
                    assert(self@ =~= s0.update(i as int, (id@, p@)));
                    assert((id@, p@) == (s0[i as int].0, p@));
                    lemma_entries_map_replace(s0, i as int, p@);
                    assert(entry_ids(self@) =~= entry_ids(s0));
                }
                return id;
            }
            i = i + 1;
        }
        self.entries.push((id.clone(), p));
        proof {
            assert(self@ =~= s0.push((id@, p@)));
            assert(self@.drop_last() =~= s0);
            assert(entries_map(self@) == entries_map(s0).insert(id@, p@));
            assert(entry_ids(self@).no_duplicates()) by {
                assert(forall|j: int| 0 <= j < s0.len() ==> entry_ids(self@)[j] == entry_ids(s0)[j]);
                assert(entry_ids(self@)[s0.len() as int] == id@);
                assert(forall|j: int| 0 <= j < s0.len() ==> entry_ids(s0)[j] == #[trigger] s0[j].0);
            }
        }
        id
    }

    /// Forget every cached proof.
    pub fn clear(&mut self)
        ensures
            final(self)@ =~= Seq::<(Seq<char>, ThreatProofView)>::empty(),
            final(self).wf(),
    {
        self.entries = Vec::new();
        proof {
            assert(self@ =~= Seq::<(Seq<char>, ThreatProofView)>::empty());
            assert(entry_ids(self@) =~= Seq::<Seq<char>>::empty());
        }
    }

    /// The cache statistics, together with the prover state flags the
    /// caller supplies.
    pub fn stats(&self, enabled: bool, has_parameters: bool) -> (s: ProofStats)
        ensures
            s.total_proofs == self@.len(),
            s.enabled == enabled,
            s.has_parameters == has_parameters,
    {
        ProofStats { total_proofs: self.entries.len(), enabled, has_parameters }
    }
}

/// The domain of the represented map is exactly the identifier set.
proof fn lemma_entries_map_dom(s: Seq<(Seq<char>, ThreatProofView)>)
    ensures
        entries_map(s).dom() =~= entry_ids(s).to_set(),
    decreases s.len(),
{
    if s.len() == 0 {
        assert(entry_ids(s) =~= Seq::<Seq<char>>::empty());
        assert(entry_ids(s).to_set() =~= Set::<Seq<char>>::empty());
    } else {
        let d = s.drop_last();
        lemma_entries_map_dom(d);
        assert forall|x: Seq<char>| entry_ids(s).to_set().contains(x) implies entries_map(
            s,
        ).dom().contains(x) by {
            assert(entry_ids(s).contains(x));
            let i = choose|i: int| 0 <= i < entry_ids(s).len() && entry_ids(s)[i] == x;
            if i < s.len() - 1 {
                assert(entry_ids(d)[i] == x);
                assert(entry_ids(d).contains(x));
                assert(entry_ids(d).to_set().contains(x));
            } else {
                assert(x == s.last().0);
            }
        }
        assert forall|x: Seq<char>| entries_map(s).dom().contains(x) implies entry_ids(
            s,
        ).to_set().contains(x) by {
            if x == s.last().0 {
                assert(entry_ids(s)[s.len() - 1] == x);
                assert(entry_ids(s).contains(x));
            } else {
                assert(entry_ids(d).to_set().contains(x));
                assert(entry_ids(d).contains(x));
                let i = choose|i: int| 0 <= i < entry_ids(d).len() && entry_ids(d)[i] == x;
                assert(entry_ids(s)[i] == x);
                assert(entry_ids(s).contains(x));
            }
        }
        assert(entries_map(s).dom() =~= entry_ids(s).to_set());
    }
}

} // verus!
