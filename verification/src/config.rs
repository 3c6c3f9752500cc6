//! Node configuration.
//!
//! A node is configured with the directory of its block store and the path
//! of its wallet's secret-key file. Loading the values from the
//! environment happens outside the library; the library only holds them.

use vstd::prelude::*;

verus! {

/// The node's configuration: where the block store lives and where the
/// wallet's secret key is read from.
#[derive(Debug)]
pub struct Config {
    pub database_directory: String,
    pub wallet_secret_key: String,
}

impl Config {
    /// Make a configuration from its two paths.
    pub fn new(database_directory: &str, wallet_secret_key: &str) -> (r: Self)
        ensures
            r.database_directory@ == database_directory@,
            r.wallet_secret_key@ == wallet_secret_key@,
    {
        Config {
            database_directory: database_directory.to_owned(),
            wallet_secret_key: wallet_secret_key.to_owned(),
        }
    }

    /// The directory of the block store.
    pub fn database_dir(&self) -> (r: &str)
        ensures
            r@ == self.database_directory@,
    {
        self.database_directory.as_str()
    }

    /// The path of the wallet's secret-key file.
    pub fn wallet_secret_key(&self) -> (r: &str)
        ensures
            r@ == self.wallet_secret_key@,
    {
        self.wallet_secret_key.as_str()
    }
}

} // verus!
