//! How the store is addressed.

use vstd::prelude::*;
use vstd::string::*;

verus! {

/// The text that names a database to connect to:
/// `host=.. user=.. password=.. dbname=..`.
pub open spec fn spec_connection_string(
    username: Seq<char>,
    password: Seq<char>,
    host: Seq<char>,
    dbname: Seq<char>,
) -> Seq<char> {
    "host="@ + host + " user="@ + username + " password="@ + password + " dbname="@ + dbname
}

/// The text that names the database `dbname` on `host` for `username` with
/// `password`. The values are put in as they are: one that holds a blank
/// reads as the start of the next setting.
pub fn connection_string(username: &str, password: &str, host: &str, dbname: &str) -> (text: String)
    ensures
        text@ == spec_connection_string(username@, password@, host@, dbname@),
{
    let mut text = String::from_str("host=");
    text.append(host);
    text.append(" user=");
    text.append(username);
    text.append(" password=");
    text.append(password);
    text.append(" dbname=");
    text.append(dbname);
    text
}

} // verus!
