//! Kagi: a token authority's decisions, verified.
#![allow(unused_imports)]

pub mod assurance;
pub mod authcode;
pub mod base32;
pub mod base64;
pub mod bytes;
pub mod certificate_endpoint;
pub mod claims;
pub mod control_admission;
pub mod crypto;
pub mod device_auth;
pub mod device_record;
pub mod e2ee_credential_endpoint;
pub mod e2ee_router;
pub mod e2ee_state_endpoint;
pub mod enrollment_ceremony;
pub mod enrollment_endpoint;
pub mod http;
pub mod jose;
pub mod jwk;
pub mod keypackage_endpoint;
pub mod keys;
pub mod ledger;
pub mod mint_admission;
pub mod replay;
pub mod resource_gate;
pub mod secret_record;
pub mod secret_store;
pub mod security_state;
pub mod suite_bench;
pub mod token_endpoint;
pub mod token_mint;
pub mod token_verify;
pub mod totp;
pub mod wire;
