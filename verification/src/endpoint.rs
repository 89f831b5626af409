use vstd::prelude::*;

verus! {

/// The serialization of the URL that `url::Url::parse` makes of `input`, or
/// `None` where it refuses `input`. Parsing depends on the input alone.
pub uninterp spec fn url_serialization(input: Seq<char>) -> Option<Seq<char>>;

/// Calls `url::Url::parse` and, on success, takes the parsed URL's
/// serialization with `String::from`; a parse error becomes `None`. Claims that
/// the result is the named serialization of `input`.
#[verifier::external_body]
pub(crate) fn parse_url(input: &str) -> (r: Option<String>)
    ensures
        match r {
            Some(s) => url_serialization(input@) == Some(s@),
            None => url_serialization(input@) is None,
        },
{
    url::Url::parse(input).ok().map(String::from)
}

/// Identifies an upstream by the URL of its JSON-RPC endpoint, held in the
/// serialized form that URL parsing gives it. Two ids are the same upstream
/// exactly when their serializations are equal.
#[derive(Debug, Clone, PartialEq, Eq, Hash)]
pub struct UpstreamId {
    pub endpoint: String,
}

impl View for UpstreamId {
    type V = Seq<char>;

    open spec fn view(&self) -> Seq<char> {
        self.endpoint@
    }
}

impl UpstreamId {
    /// Parses `input` as an absolute URL and identifies the upstream by it.
    pub fn parse(input: &str) -> (r: Option<UpstreamId>)
        ensures
            match r {
                Some(id) => url_serialization(input@) == Some(id@),
                None => url_serialization(input@) is None,
            },
    {
        match parse_url(input) {
            Some(endpoint) => Some(UpstreamId { endpoint }),
            None => None,
        }
    }

    /// Whether both ids name the same endpoint.
    pub fn same_endpoint(&self, other: &UpstreamId) -> (r: bool)
        ensures
            r == (self@ == other@),
    {
        self.endpoint == other.endpoint
    }

    /// A copy of this id.
    pub fn duplicate(&self) -> (r: UpstreamId)
        ensures
            r == *self,
    {
        UpstreamId { endpoint: self.endpoint.clone() }
    }
}

} // verus!
