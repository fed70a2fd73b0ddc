//! What most users of DNSSEC need.

pub use crate::dnssec::crypto::{
    algo_digest_name, ds_digest_name, nsec3_digest_name, verify,
};
pub use crate::dnssec::trust_anchor::{
    is_check_date, setup_timestamp, TimestampValidator, TrustAnchorStore,
};
pub use crate::dnssec::types::{
    DigestType, DnsKey, DnssecAlgorithm, DsRecord, Nsec3Record, NsecRecord, RRSig,
    ValidationStatus,
};
pub use crate::dnssec::validator::{
    dnssec_validate_by_ds, dnssec_validate_ds, dnssec_validate_reply,
};
