//! Upstream specifications as given on the command line: either a raw URL, or
//! `dns:` followed by a host name, an optional port and an optional path.

use vstd::prelude::*;

use crate::endpoint::{parse_url, url_serialization};

verus! {

/// Where to find upstreams.
#[derive(Debug, Clone)]
pub enum UpstreamSpec {
    /// A single upstream at this URL, held in its serialized form.
    Raw(String),
    /// Upstreams at every address that a DNS name resolves to.
    Dns(DnsSpec),
}

/// A DNS name to resolve into upstream addresses, with the port to use when
/// the name is a bare host, and the URL path to apply to every address.
#[derive(Debug, Clone)]
pub struct DnsSpec {
    pub host_port: String,
    pub path: String,
}

/// Parses upstream specifications.
#[derive(Debug, Clone, Copy)]
pub struct UpstreamSpecParser;

/// Why a specification was refused.
#[derive(Debug, Clone, Copy, PartialEq, Eq, Structural)]
pub enum SpecParseError {
    /// Not a `dns:` specification, and not an absolute URL either.
    InvalidUrl,
}

impl SpecParseError {
    /// The message shown for this error.
    pub fn message(&self) -> (r: &'static str)
        ensures
            r@ == "invalid url"@,
    {
        match self {
            SpecParseError::InvalidUrl => "invalid url",
        }
    }
}

/// The prefix that marks a DNS specification.
pub open spec fn dns_prefix() -> Seq<char> {
    seq!['d', 'n', 's', ':']
}

/// Whether `raw` is a DNS specification.
pub open spec fn is_dns_spec(raw: Seq<char>) -> bool {
    raw.len() >= 4 && raw.take(4) == dns_prefix()
}

/// Whether `i` is the index of the first `/` in `s`.
pub open spec fn is_first_slash(s: Seq<char>, i: int) -> bool {
    &&& 0 <= i < s.len()
    &&& s[i] == '/'
    &&& forall|j: int| 0 <= j < i ==> s[j] != '/'
}

/// The host (and port) part of a DNS name: everything before its first `/`.
pub open spec fn dns_host(name: Seq<char>) -> Seq<char> {
    if exists|i: int| is_first_slash(name, i) {
        name.take(choose|i: int| is_first_slash(name, i))
    } else {
        name
    }
}

/// The path part of a DNS name: from its first `/` on, or `/` when it has none.
pub open spec fn dns_path(name: Seq<char>) -> Seq<char> {
    if exists|i: int| is_first_slash(name, i) {
        name.skip(choose|i: int| is_first_slash(name, i))
    } else {
        seq!['/']
    }
}

/// The port that Starknet nodes serve JSON-RPC on by default, with its colon.
pub open spec fn default_port_suffix() -> Seq<char> {
    seq![':', '9', '5', '4', '5']
}

/// The host and port to resolve: the host part as given when it names a port,
/// otherwise the host part with the default port.
pub open spec fn dns_host_port(name: Seq<char>) -> Seq<char> {
    if dns_host(name).contains(':') {
        dns_host(name)
    } else {
        dns_host(name) + default_port_suffix()
    }
}

/// Whether `r` is what parsing `raw` gives: a DNS specification split into its
/// host-and-port and path parts, or else the raw URL's serialization, or
/// `InvalidUrl` where `raw` is no absolute URL.
pub open spec fn parsed_as(raw: Seq<char>, r: Result<UpstreamSpec, SpecParseError>) -> bool {
    if is_dns_spec(raw) {
        &&& r matches Ok(UpstreamSpec::Dns(d))
        &&& d.host_port@ == dns_host_port(raw.skip(4))
        &&& d.path@ == dns_path(raw.skip(4))
    } else {
        match url_serialization(raw) {
            Some(url) => r matches Ok(UpstreamSpec::Raw(u)) && u@ == url,
            None => r == Err::<UpstreamSpec, SpecParseError>(SpecParseError::InvalidUrl),
        }
    }
}

/// The index of the first `/` in `s`, or its length when it has none.
fn first_slash(s: &str) -> (r: usize)
    ensures
        r <= s@.len(),
        r < s@.len() ==> is_first_slash(s@, r as int),
        r == s@.len() ==> forall|j: int| 0 <= j < s@.len() ==> s@[j] != '/',
{
    let n = s.unicode_len();
    let mut i: usize = 0;
    while i < n && s.get_char(i) != '/'
        invariant
            n == s@.len(),
            i <= n,
            forall|j: int| 0 <= j < i ==> s@[j] != '/',
        decreases n - i,
    {
        i = i + 1;
    }
    i
}

/// Whether `s` holds a `:`.
fn has_colon(s: &str) -> (r: bool)
    ensures
        r == s@.contains(':'),
{
    let n = s.unicode_len();
    let mut i: usize = 0;
    while i < n
        invariant
            n == s@.len(),
            i <= n,
            forall|j: int| 0 <= j < i ==> s@[j] != ':',
        decreases n - i,
    {
        if s.get_char(i) == ':' {
            return true;
        }
        i = i + 1;
    }
    false
}

/// Whether `s` starts with `dns:`.
fn starts_with_dns(s: &str) -> (r: bool)
    ensures
        r == is_dns_spec(s@),
{
    let n = s.unicode_len();
    if n < 4 {
        return false;
    }
    let r = s.get_char(0) == 'd' && s.get_char(1) == 'n' && s.get_char(2) == 's' && s.get_char(3) == ':';
    assert(r ==> s@.take(4) =~= dns_prefix());
    assert(s@.take(4) == dns_prefix() ==> s@[0] == 'd' && s@[1] == 'n' && s@[2] == 's' && s@[3] == ':') by {
        if s@.take(4) == dns_prefix() {
            assert(s@.take(4)[0] == s@[0]);
            assert(s@.take(4)[1] == s@[1]);
            assert(s@.take(4)[2] == s@[2]);
            assert(s@.take(4)[3] == s@[3]);
        }
    }
    r
}

impl UpstreamSpecParser {
    /// Parses one upstream specification.
    pub fn parse_ref(&self, value: &str) -> (r: Result<UpstreamSpec, SpecParseError>)
        ensures
            parsed_as(value@, r),
    {
        if starts_with_dns(value) {
            let n = value.unicode_len();
            let dns = value.substring_char(4, n);
            let m = dns.unicode_len();
            let slash = first_slash(dns);
            let ghost name = dns@;
            assert(name == value@.skip(4));
            let (host_port, path) = if slash < m {
                proof {
                    assert forall|i: int| is_first_slash(name, i) implies i == slash by {
                        if i < slash {
                            assert(name[i] != '/');
                        } else if i > slash {
                            assert(name[slash as int] != '/');
                        }
                    }
                }
                (dns.substring_char(0, slash), dns.substring_char(slash, m))
            } else {
                proof {
                    reveal_strlit("/");
                }
                (dns, "/")
            };
            assert(host_port@ == dns_host(name));
            assert(path@ == dns_path(name));
            let host_port = if has_colon(host_port) {
                host_port.to_owned()
            } else {
                let mut with_port = host_port.to_owned();
                proof {
                    reveal_strlit(":9545");
                }
                with_port.append(":9545");
                assert(":9545"@ =~= default_port_suffix());
                with_port
            };
            assert(host_port@ == dns_host_port(name));
            let path = path.to_owned();
            Ok(UpstreamSpec::Dns(DnsSpec { host_port, path }))
        } else {
            match parse_url(value) {
                Some(url) => Ok(UpstreamSpec::Raw(url)),
                None => Err(SpecParseError::InvalidUrl),
            }
        }
    }
}

} // verus!
