//! Addresses of the trade search and fetch endpoints for a league.
use vstd::prelude::*;
use vstd::string::*;
use crate::trade_api::{comma_joined, join_ids, views_of};

verus! {

/// An item as the search endpoint lists it.
#[derive(Debug, Clone)]
pub struct ItemData {
    pub id: String,
    pub item_type: String,
    pub name: String,
    pub rarity: String,
    pub explicit_mods: Option<Vec<String>>,
}

pub struct ItemFetcher {
    league: String,
}

pub open spec fn search_url_of(league: Seq<char>, query: Seq<char>) -> Seq<char> {
    "https://www.pathofexile.com/api/trade2/search/"@ + league + "?query="@ + query
}

pub open spec fn fetch_url_of(ids: Seq<Seq<char>>) -> Seq<char> {
    "https://www.pathofexile.com/api/trade2/fetch/"@ + comma_joined(ids)
}

impl ItemFetcher {
    pub closed spec fn spec_league(&self) -> Seq<char> {
        self.league@
    }

    pub fn new(league: &str) -> (r: Self)
        ensures
            r.spec_league() == league@,
    {
        ItemFetcher { league: String::from_str(league) }
    }

    pub fn league(&self) -> (r: &str)
        ensures
            r@ == self.spec_league(),
    {
        self.league.as_str()
    }

    /// Where a search for `query` in this league is sent.
    pub fn search_url(&self, query: &str) -> (r: String)
        ensures
            r@ == search_url_of(self.spec_league(), query@),
    {
        let mut r = String::from_str("https://www.pathofexile.com/api/trade2/search/");
        r.append(self.league.as_str());
        r.append("?query=");
        r.append(query);
        r
    }

    /// Where the details of the items `ids` are fetched.
    pub fn fetch_url(ids: &[String]) -> (r: String)
        ensures
            r@ == fetch_url_of(views_of(ids@)),
    {
        let mut r = String::from_str("https://www.pathofexile.com/api/trade2/fetch/");
        let joined = join_ids(ids, 0, ids.len());
        assert(ids@.subrange(0, ids@.len() as int) =~= ids@);
        r.append(joined.as_str());
        r
    }
}

} // verus!
