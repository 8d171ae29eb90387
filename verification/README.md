# kagi

An identity authority as a verified library: device enrolment, access tokens
bound to device keys, authorization codes, device certificates, messaging
credentials, a security-state ledger and a sealed secret store. Every function
under `src/` carries a contract that Verus proves, but for the seven wrappers of
`crypto`: their contracts say what the call into an outside crate returns, and
are trusted.

## Layout

- `src/` is the library.
  - Encodings: `bytes`, `wire`, `base64`, `base32`, `claims`, `jose`, `jwk`, `http`.
  - Primitives: `crypto` (the one module with trusted items, each around a call
    into a RustCrypto or dalek crate), `totp`, `replay`, `secret_record`.
  - Shared types: `keys`, `ledger`, `assurance`, `device_record`, `device_auth`.
  - Services: `enrollment_ceremony`, `enrollment_endpoint`, `certificate_endpoint`,
    `mint_admission`, `token_endpoint`, `token_mint`, `token_verify`, `authcode`,
    `resource_gate`, `control_admission`, `security_state`, `secret_store`,
    `e2ee_router`, `e2ee_credential_endpoint`, `e2ee_state_endpoint`,
    `keypackage_endpoint`, `suite_bench`.
- `tests/` runs the library on concrete values, with the real crates linked.
- `app/` is the ordinary Rust around it: for each service a step that reads its
  ports, asks the library what to do, does it and reports how it went.

## How a service is written

A service never does I/O. A function of it takes the bytes that arrived and
answers with a step: a reply, a question for the ledger, bytes to be signed by
the vault, a mail to send. Whoever performs the step hands the outcome back to
the next function. What the clock, the random source, the vault, the ledger and
the grading of evidence said is therefore always an argument, and the contracts
hold for every value of it.

The promises that span functions are public proof functions beside the code they
speak of: that a code is redeemed once, that a state only advances, that a
sealed secret opens again after a restart, that an admitted presenter holds the
key its certificate is bound to.
