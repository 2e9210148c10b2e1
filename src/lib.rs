//! Secret provisioning: a checksummed word encoding for 32-byte keys, an
//! authenticated encryption envelope with a text armor, and the decisions of
//! the batch provisioning protocol that materialises decrypted secrets.
pub mod bits;
pub mod engine;
pub mod envelope;
pub mod keyfile;
pub mod mnemonic;
pub mod provision;
pub mod record;
