//! DNSSEC: keys, signatures, trust anchors and the validation of replies.

pub mod base64;
pub mod canonical;
pub mod crypto;
pub mod denial;
pub mod denial_laws;
pub mod digests;
pub mod prelude;
pub mod rrsets;
pub mod rrsets_laws;
pub mod trust_anchor;
pub mod types;
pub mod types_laws;
pub mod validator;
pub mod validator_laws;

pub use crypto::{algo_digest_name, ds_digest_name, nsec3_digest_name, verify};
pub use trust_anchor::{is_check_date, setup_timestamp, TimestampValidator, TrustAnchorStore};
pub use types::{
    DigestType, DnsKey, DnssecAlgorithm, DsRecord, Nsec3Record, NsecRecord, RRSig,
    ValidationStatus,
};
pub use validator::{dnssec_validate_by_ds, dnssec_validate_ds, dnssec_validate_reply};
