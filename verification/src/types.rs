//! Plain data shapes the surrounding resource handlers exchange with the
//! store and the boundary: a storage-level boolean, a public profile, and
//! the query parameters of the article listings.

use vstd::prelude::*;

verus! {

/// A boolean as the storage engine reports it: decoded from an integer
/// column where exactly 1 means true.
#[derive(PartialEq, Eq, Structural, Debug, Clone, Copy)]
pub struct DbBool(bool);

impl DbBool {
    pub closed spec fn spec_bool(&self) -> bool {
        self.0
    }

    /// Decodes the integer a storage row holds: 1 is true, all else false.
    pub fn from_db_int(value: i64) -> (r: DbBool)
        ensures
            r.spec_bool() == (value == 1),
    {
        DbBool(value == 1)
    }

    pub fn as_bool(&self) -> (r: bool)
        ensures
            r == self.spec_bool(),
    {
        self.0
    }
}

impl From<bool> for DbBool {
    fn from(b: bool) -> (r: DbBool) {
        DbBool(b)
    }
}

impl vstd::std_specs::convert::FromSpecImpl<bool> for DbBool {
    open spec fn obeys_from_spec() -> bool {
        true
    }

    closed spec fn from_spec(b: bool) -> DbBool {
        DbBool(b)
    }
}

/// A public profile as the profile handlers shape it.
#[derive(Debug, Clone)]
pub struct Profile {
    pub username: String,
    pub bio: String,
    pub image: Option<String>,
    pub following: DbBool,
}

/// Query parameters of the article listing.
#[derive(Debug, Clone)]
pub struct ListArticleQuery {
    pub tag: Option<String>,
    pub author: Option<String>,
    pub favorited: Option<String>,
    pub limit: Option<i64>,
    pub offset: Option<i64>,
}

/// Query parameters of the article feed.
#[derive(Debug, Clone, PartialEq, Eq, Structural, Copy)]
pub struct FeedArticlesQuery {
    pub limit: Option<i64>,
    pub offset: Option<i64>,
}

} // verus!
