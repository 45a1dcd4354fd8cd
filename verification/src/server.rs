//! Reading the search query out of the URL of a request.
use vstd::prelude::*;

use url::{ParseError, Url};

verus! {

/// `url::ParseError`, carried through opaquely.
#[verifier::external_type_specification]
#[verifier::external_body]
pub struct ExUrlParseError(ParseError);

/// The decoded name-value pairs of the query of `url`, in order, as `url::Url::parse` and
/// `Url::query_pairs` give them; `None` when `url::Url::parse` refuses the URL.
pub uninterp spec fn url_query_pairs(url: Seq<char>) -> Option<Seq<(Seq<char>, Seq<char>)>>;

/// The views of name-value pairs.
pub open spec fn pair_views(v: Seq<(String, String)>) -> Seq<(Seq<char>, Seq<char>)> {
    v.map_values(|p: (String, String)| (p.0@, p.1@))
}

/// `url::Url::parse` followed by `Url::query_pairs`, each pair made owned. The result is named
/// `url_query_pairs`.
#[verifier::external_body]
fn parse_query_pairs(url: &str) -> (r: Result<Vec<(String, String)>, ParseError>)
    ensures
        match r {
            Ok(v) => url_query_pairs(url@) == Some(pair_views(v@)),
            Err(_) => url_query_pairs(url@) is None,
        },
{
    Url::parse(url).map(|u| u.query_pairs().map(|(k, v)| (k.into_owned(), v.into_owned())).collect())
}

/// The value of the first pair named `query`, if there is one.
pub open spec fn first_query(pairs: Seq<(Seq<char>, Seq<char>)>) -> Option<Seq<char>>
    decreases pairs.len(),
{
    if pairs.len() == 0 {
        None
    } else if pairs[0].0 == "query"@ {
        Some(pairs[0].1)
    } else {
        first_query(pairs.drop_first())
    }
}

/// Why a request's URL gave no query.
#[derive(Debug)]
pub enum QueryError {
    /// `url::Url::parse` refused the URL.
    InvalidUrl(ParseError),
}

/// The value of the first `query` pair among `pairs`.
pub fn find_query(pairs: &Vec<(String, String)>) -> (r: Option<String>)
    ensures
        match r {
            Some(s) => first_query(pair_views(pairs@)) == Some(s@),
            None => first_query(pair_views(pairs@)) is None,
        },
{
    let key = "query".to_owned();
    let mut i: usize = 0;
    assert(pair_views(pairs@).skip(0) =~= pair_views(pairs@));
    while i < pairs.len()
        invariant
            i <= pairs@.len(),
            key@ == "query"@,
            first_query(pair_views(pairs@)) == first_query(pair_views(pairs@).skip(i as int)),
        decreases pairs@.len() - i,
    {
        let ghost rest = pair_views(pairs@).skip(i as int);
        assert(rest[0] == (pairs@[i as int].0@, pairs@[i as int].1@));
        if pairs[i].0 == key {
            return Some(pairs[i].1.clone());
        }
        assert(rest.drop_first() =~= pair_views(pairs@).skip(i + 1));
        i += 1;
    }
    None
}

/// The search query that the URL of a request carries: the value of its first `query`
/// parameter, if any; an error when the URL cannot be parsed.
pub fn request_query(url: &str) -> (r: Result<Option<String>, QueryError>)
    ensures
        match r {
            Ok(q) => url_query_pairs(url@) is Some && match q {
                Some(s) => first_query(url_query_pairs(url@)->0) == Some(s@),
                None => first_query(url_query_pairs(url@)->0) is None,
            },
            Err(_) => url_query_pairs(url@) is None,
        },
{
    match parse_query_pairs(url) {
        Ok(pairs) => Ok(find_query(&pairs)),
        Err(e) => Err(QueryError::InvalidUrl(e)),
    }
}

/// What the server does with a request.
#[derive(Debug)]
pub enum RequestAction {
    /// The URL cannot be parsed: the server stops with this error.
    Stop(ParseError),
    /// The URL carries a query: the server answers it with the scores of the documents.
    Answer(String),
    /// The URL carries no query: the request is left unanswered.
    Ignore,
}

/// The server's decision for a request to `url`: stop when the URL cannot be parsed, answer
/// the value of its first `query` parameter, and leave it unanswered when it has none.
pub fn request_action(url: &str) -> (r: RequestAction)
    ensures
        r is Stop <==> url_query_pairs(url@) is None,
        r matches RequestAction::Answer(s) ==> url_query_pairs(url@) is Some && first_query(
            url_query_pairs(url@)->0,
        ) == Some(s@),
        r is Ignore <==> (url_query_pairs(url@) is Some && first_query(url_query_pairs(url@)->0) is None),
{
    match request_query(url) {
        Err(QueryError::InvalidUrl(e)) => RequestAction::Stop(e),
        Ok(Some(q)) => RequestAction::Answer(q),
        Ok(None) => RequestAction::Ignore,
    }
}

} // verus!
