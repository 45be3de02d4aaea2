//! Configuration: parameters, per-validator identifiers, private configuration,
//! and the built-in four-validator test committee.

use vstd::prelude::*;

use crate::committee::{Authority, Committee};
use crate::crypto::PublicKey;
use crate::types::{AuthorityIndex, EpochNumber};

verus! {

#[verifier::external_type_specification]
#[verifier::external_body]
pub struct ExPathBuf(std::path::PathBuf);

/// Network and metrics addresses of one validator.
#[derive(Clone, Debug)]
pub struct Identifier {
    pub public_key: PublicKey,
    pub network_address: String,
    pub metrics_address: String,
}

/// Consensus and system parameters.
#[derive(Clone, Debug)]
pub struct Parameters {
    pub identifiers: Vec<Identifier>,
    pub wave_length: u64,
    pub leader_timeout_ms: u64,
    pub rounds_in_epoch: u64,
    pub shutdown_grace_period_ms: u64,
    pub number_of_leaders: u32,
    pub enable_pipelining: bool,
    pub store_retain_rounds: u64,
    pub enable_cleanup: bool,
}

/// The default values of every parameter but the identifiers.
pub open spec fn has_default_settings(p: Parameters) -> bool {
    &&& p.wave_length == 3
    &&& p.leader_timeout_ms == 5_000
    &&& p.rounds_in_epoch == 100
    &&& p.shutdown_grace_period_ms == 30_000
    &&& p.number_of_leaders == 1
    &&& !p.enable_pipelining
    &&& p.store_retain_rounds == 1000
    &&& p.enable_cleanup
}

impl Default for Parameters {
    fn default() -> (r: Self)
        ensures
            r.identifiers@.len() == 0,
            has_default_settings(r),
    {
        Parameters {
            identifiers: Vec::new(),
            wave_length: 3,
            leader_timeout_ms: 5_000,
            rounds_in_epoch: 100,
            shutdown_grace_period_ms: 30_000,
            number_of_leaders: 1,
            enable_pipelining: false,
            store_retain_rounds: 1000,
            enable_cleanup: true,
        }
    }
}

/// Private configuration of this node (not shared).
#[derive(Debug)]
pub struct PrivateConfig {
    pub authority_index: AuthorityIndex,
    pub storage_dir: std::path::PathBuf,
}

/// The 32-byte key whose bytes are all `i`.
pub open spec fn repeated_key(i: u8) -> Seq<u8> {
    Seq::new(32, |_k: int| i)
}

/// Hostname, network address and metrics address of test validator `i`.
fn test_names(i: u8) -> (r: (String, String, String))
    requires
        i < 4,
    ensures
        i == 0 ==> r.0@ == "validator-0"@ && r.1@ == "127.0.0.1:9000"@ && r.2@ == "127.0.0.1:9100"@,
        i == 1 ==> r.0@ == "validator-1"@ && r.1@ == "127.0.0.1:9001"@ && r.2@ == "127.0.0.1:9101"@,
        i == 2 ==> r.0@ == "validator-2"@ && r.1@ == "127.0.0.1:9002"@ && r.2@ == "127.0.0.1:9102"@,
        i == 3 ==> r.0@ == "validator-3"@ && r.1@ == "127.0.0.1:9003"@ && r.2@ == "127.0.0.1:9103"@,
{
    if i == 0 {
        ("validator-0".to_owned(), "127.0.0.1:9000".to_owned(), "127.0.0.1:9100".to_owned())
    } else if i == 1 {
        ("validator-1".to_owned(), "127.0.0.1:9001".to_owned(), "127.0.0.1:9101".to_owned())
    } else if i == 2 {
        ("validator-2".to_owned(), "127.0.0.1:9002".to_owned(), "127.0.0.1:9102".to_owned())
    } else {
        ("validator-3".to_owned(), "127.0.0.1:9003".to_owned(), "127.0.0.1:9103".to_owned())
    }
}

/// The built-in test committee: four validators of stake 1 whose public keys are
/// 32 copies of their index, validity threshold 2 and quorum threshold 3, with
/// default parameters listing the validators' identifiers.
pub fn make_test_committee() -> (r: (Committee, Parameters))
    ensures
        r.0.authorities@.len() == 4,
        forall|i: int| 0 <= i < 4 ==> {
            &&& (#[trigger] r.0.authorities@[i]).stake == 1
            &&& r.0.authorities@[i].public_key.0@ == repeated_key(i as u8)
        },
        r.0.authorities@[0].hostname@ == "validator-0"@,
        r.0.authorities@[1].hostname@ == "validator-1"@,
        r.0.authorities@[2].hostname@ == "validator-2"@,
        r.0.authorities@[3].hostname@ == "validator-3"@,
        r.0.epoch == EpochNumber(0),
        r.0.validity_threshold == 2,
        r.0.quorum_threshold == 3,
        has_default_settings(r.1),
        r.1.identifiers@.len() == 4,
        forall|i: int| 0 <= i < 4 ==> (#[trigger] r.1.identifiers@[i]).public_key.0@ == repeated_key(i as u8),
        r.1.identifiers@[0].network_address@ == "127.0.0.1:9000"@ && r.1.identifiers@[0].metrics_address@ == "127.0.0.1:9100"@,
        r.1.identifiers@[1].network_address@ == "127.0.0.1:9001"@ && r.1.identifiers@[1].metrics_address@ == "127.0.0.1:9101"@,
        r.1.identifiers@[2].network_address@ == "127.0.0.1:9002"@ && r.1.identifiers@[2].metrics_address@ == "127.0.0.1:9102"@,
        r.1.identifiers@[3].network_address@ == "127.0.0.1:9003"@ && r.1.identifiers@[3].metrics_address@ == "127.0.0.1:9103"@,
{
    let mut authorities: Vec<Authority> = Vec::new();
    let mut identifiers: Vec<Identifier> = Vec::new();
    let mut i: u8 = 0;
    while i < 4
        invariant
            i <= 4,
            authorities@.len() == i,
            identifiers@.len() == i,
            forall|k: int| 0 <= k < i ==> {
                &&& (#[trigger] authorities@[k]).stake == 1
                &&& authorities@[k].public_key.0@ == repeated_key(k as u8)
                &&& identifiers@[k].public_key.0@ == repeated_key(k as u8)
            },
            i > 0 ==> authorities@[0].hostname@ == "validator-0"@ && identifiers@[0].network_address@ == "127.0.0.1:9000"@ && identifiers@[0].metrics_address@ == "127.0.0.1:9100"@,
            i > 1 ==> authorities@[1].hostname@ == "validator-1"@ && identifiers@[1].network_address@ == "127.0.0.1:9001"@ && identifiers@[1].metrics_address@ == "127.0.0.1:9101"@,
            i > 2 ==> authorities@[2].hostname@ == "validator-2"@ && identifiers@[2].network_address@ == "127.0.0.1:9002"@ && identifiers@[2].metrics_address@ == "127.0.0.1:9102"@,
            i > 3 ==> authorities@[3].hostname@ == "validator-3"@ && identifiers@[3].network_address@ == "127.0.0.1:9003"@ && identifiers@[3].metrics_address@ == "127.0.0.1:9103"@,
        decreases 4 - i,
    {
        let pk = PublicKey([i; 32]);
        assert(pk.0@ =~= repeated_key(i));
        let (hostname, network_address, metrics_address) = test_names(i);
        authorities.push(Authority { stake: 1, public_key: pk, hostname });
        identifiers.push(Identifier { public_key: pk, network_address, metrics_address });
        i = i + 1;
    }
    let committee = Committee {
        authorities,
        epoch: EpochNumber(0),
        validity_threshold: 2,
        quorum_threshold: 3,
    };
    let mut params = Parameters::default();
    params.identifiers = identifiers;
    (committee, params)
}

} // verus!
