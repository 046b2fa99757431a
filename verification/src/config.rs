use vstd::prelude::*;

verus! {

/// Where the accounting book lives and how it is stored.
pub struct GnuCash {
    pub path_to_book: String,
    pub file_format: String,
    pub update_prices: bool,
}

/// The operator, identified only by a birthday written as YYYY-MM-DD.
pub struct User {
    pub birthday: String,
}

/// Operator settings: the user and the accounting book to read. Reading a
/// settings file is the surrounding program's concern; this module only
/// fixes the defaults used with the sample data.
pub struct Config {
    pub user: User,
    pub gnucash: GnuCash,
}

impl Config {
    /// Default settings for use with the sample data. Price updates are off
    /// so that the sample can run without the accounting program installed.
    pub fn default() -> (c: Config)
        ensures
            c.user.birthday@ == "1985-01-01"@,
            c.gnucash.path_to_book@ == "example/sqlite3.gnucash"@,
            c.gnucash.file_format@ == "sqlite3"@,
            !c.gnucash.update_prices,
    {
        Config {
            user: User { birthday: "1985-01-01".to_owned() },
            gnucash: GnuCash {
                path_to_book: "example/sqlite3.gnucash".to_owned(),
                file_format: "sqlite3".to_owned(),
                update_prices: false,
            },
        }
    }
}

} // verus!
