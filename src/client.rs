use vstd::prelude::*;
use vstd::string::{StrSliceExecFns, StringExecFns};

use crate::dns::Resolver;
use crate::text::{find_char, find_text, first_index, first_match};

verus! {

/// An HTTP client that resolves host names itself.
#[derive(Debug, Clone, Copy)]
pub struct Client {
    pub dns_client: Resolver,
}

/// A client with the default resolver.
pub fn new() -> (r: Client)
    ensures
        r.dns_client.server@ == seq![8u8, 8u8, 8u8, 8u8],
        r.dns_client.port == 53,
{
    Client { dns_client: Resolver::new() }
}

impl Client {
    /// A client with the default resolver.
    pub fn new() -> (r: Client)
        ensures
            r.dns_client.server@ == seq![8u8, 8u8, 8u8, 8u8],
            r.dns_client.port == 53,
    {
        new()
    }
}

/// The scheme of a URL and what follows `://`; without `://` the scheme is `http`.
pub open spec fn scheme_split(u: Seq<char>) -> (Seq<char>, Seq<char>) {
    match first_match(u, "://"@) {
        Some(i) => (u.take(i), u.skip(i + 3)),
        None => ("http"@, u),
    }
}

/// The scheme, host name and path of a URL. The path is what follows the first `/` after the
/// host, with a `/` appended, or `/` alone when there is none.
pub open spec fn url_parts(u: Seq<char>) -> (Seq<char>, Seq<char>, Seq<char>) {
    let (scheme, rest) = scheme_split(u);
    match first_index(rest, '/') {
        Some(j) => (scheme, rest.take(j), rest.skip(j + 1) + "/"@),
        None => (scheme, rest, "/"@),
    }
}

/// Splits `url` into scheme, host name and path.
pub fn split_url(url: &str) -> (r: (String, String, String))
    ensures
        (r.0@, r.1@, r.2@) == url_parts(url@),
{
    proof {
        reveal_strlit("://");
    }
    let n = url.unicode_len();
    let (scheme, rest) = match find_text(url, "://") {
        Some(i) => (url.substring_char(0, i).to_owned(), url.substring_char(i + 3, n)),
        None => ("http".to_owned(), url),
    };
    assert(url@.subrange(0, n as int) =~= url@);
    proof {
        if let Some(i) = first_match(url@, "://"@) {
            assert(url@.subrange(0, i) =~= url@.take(i));
            assert(url@.subrange(i + 3, n as int) =~= url@.skip(i + 3));
        }
    }
    let m = rest.unicode_len();
    match find_char(rest, '/') {
        Some(j) => {
            let host = rest.substring_char(0, j).to_owned();
            let mut path = rest.substring_char(j + 1, m).to_owned();
            path.append("/");
            assert(rest@.subrange(0, j as int) =~= rest@.take(j as int));
            assert(rest@.subrange(j + 1, m as int) =~= rest@.skip(j + 1));
            (scheme, host, path)
        },
        None => (scheme, rest.to_owned(), "/".to_owned()),
    }
}

/// The scheme and what follows `://`; fails with `"invalid URL passed: <url>"` when `url` holds no
/// `://`.
pub fn split_scheme(url: &str) -> (r: Result<(String, String), String>)
    ensures
        match first_match(url@, "://"@) {
            Some(i) => r matches Ok((a, b)) && a@ == url@.take(i) && b@ == url@.skip(i + 3),
            None => r matches Err(e) && e@ == "invalid URL passed: "@ + url@,
        },
{
    proof {
        reveal_strlit("://");
    }
    let n = url.unicode_len();
    match find_text(url, "://") {
        Some(i) => {
            let a = url.substring_char(0, i).to_owned();
            let b = url.substring_char(i + 3, n).to_owned();
            assert(url@.subrange(0, i as int) =~= url@.take(i as int));
            assert(url@.subrange(i + 3, n as int) =~= url@.skip(i + 3));
            Ok((a, b))
        },
        None => {
            let mut e = "invalid URL passed: ".to_owned();
            e.append(url);
            Err(e)
        },
    }
}

} // verus!
