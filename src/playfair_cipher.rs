//! A cipher that holds its key and table only.
use vstd::prelude::*;
use crate::table::{build_table, is_complete, key_order, laid_out};
use crate::text::{to_upper, uppercase_of};

verus! {

/// A key together with the 5×5 table laid out from it.
pub struct PlayfairCipther {
    key: String,
    table: [[char; 5]; 5],
}

impl PlayfairCipther {
    /// The key the cipher was made with, as given.
    pub closed spec fn key_text(self) -> Seq<char> {
        self.key@
    }

    /// The table of the cipher.
    pub closed spec fn grid(self) -> [[char; 5]; 5] {
        self.table
    }

    /// A cipher for `key`.
    pub fn new(key: String) -> (p: Self)
        ensures
            p.key_text() == key@,
            laid_out(p.grid(), key_order(uppercase_of(key@))),
            is_complete(p.grid()),
    {
        let table = Self::create_table(key.clone());
        PlayfairCipther { key, table }
    }

    /// The table that `key` lays out: the distinct letters of the key in order
    /// of first appearance, then the rest of the alphabet, row by row.
    pub fn create_table(key: String) -> (t: [[char; 5]; 5])
        ensures
            laid_out(t, key_order(uppercase_of(key@))),
            is_complete(t),
    {
        let upper = to_upper(key.as_str());
        build_table(upper.as_str())
    }
}

} // verus!
