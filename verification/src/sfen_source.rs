use vstd::prelude::*;
use vstd::string::{StrSliceExecFns, StringExecFns};

use url::Url;

verus! {

/// A URL as read: its path, and the name-value pairs of its query with
/// percent-encoding and `+` decoded.
#[derive(Clone, Debug)]
pub struct UrlParts {
    pub path: String,
    pub query: Vec<(String, String)>,
}

/// The values of query pairs.
pub open spec fn pairs_view(v: Seq<(String, String)>) -> Seq<(Seq<char>, Seq<char>)> {
    Seq::new(v.len(), |i: int| (v[i].0@, v[i].1@))
}

/// The path and the decoded query pairs of the URL the text `s` is, as the
/// `url` crate reads it; nothing when it reads no URL.
pub uninterp spec fn url_parts(s: Seq<char>) -> Option<(Seq<char>, Seq<(Seq<char>, Seq<char>)>)>;

/// Reads `s` with `url::Url::parse`, then takes `Url::path` and
/// `Url::query_pairs`. Trusted: the result is the named `url_parts` of the
/// text, an error exactly when the crate refuses it. The error's message is
/// the crate's own and is not stated.
#[verifier::external_body]
pub(crate) fn parse_url(s: &str) -> (r: Result<UrlParts, String>)
    ensures
        r is Err <==> url_parts(s@) is None,
        r matches Ok(u) ==> url_parts(s@) == Some((u.path@, pairs_view(u.query@))),
{
    match Url::parse(s) {
        Ok(u) => Ok(
            UrlParts {
                path: u.path().to_string(),
                query: u.query_pairs().map(|(k, v)| (k.into_owned(), v.into_owned())).collect(),
            },
        ),
        Err(e) => Err(e.to_string()),
    }
}

/// The path prefix of a viewer URL that carries a position.
pub open spec fn viewer_prefix() -> Seq<char> {
    seq!['/', 'f', 'm', 'r', 's', '/']
}

/// The text with every `_` read as a space.
pub open spec fn spaced(t: Seq<char>) -> Seq<char> {
    Seq::new(t.len(), |i: int| if t[i] == '_' { ' ' } else { t[i] })
}

/// The value of the first query pair, from the `i`-th on, named `sfen`.
pub open spec fn sfen_pair(q: Seq<(Seq<char>, Seq<char>)>, i: int) -> Option<Seq<char>>
    decreases q.len() - i,
{
    if i < 0 || i >= q.len() {
        None
    } else if q[i].0 == seq!['s', 'f', 'e', 'n'] {
        Some(q[i].1)
    } else {
        sfen_pair(q, i + 1)
    }
}

/// The position a viewer URL carries: the path after `/fmrs/`, `_` read as
/// a space, when the path goes on past it; otherwise the first `sfen`
/// query value.
pub open spec fn url_sfen(path: Seq<char>, q: Seq<(Seq<char>, Seq<char>)>) -> Option<Seq<char>> {
    if path.len() > 6 && path.subrange(0, 6) == viewer_prefix() {
        Some(spaced(path.subrange(6, path.len() as int)))
    } else {
        sfen_pair(q, 0)
    }
}

/// The position carried by a URL.
pub fn sfen_from_url(u: &UrlParts) -> (r: Option<String>)
    ensures
        r is None <==> url_sfen(u.path@, pairs_view(u.query@)) is None,
        r matches Some(t) ==> url_sfen(u.path@, pairs_view(u.query@)) == Some(t@),
{
    let p = u.path.as_str();
    let n = p.unicode_len();
    let viewer = n > 6 && p.get_char(0) == '/' && p.get_char(1) == 'f' && p.get_char(2) == 'm' && p.get_char(3) == 'r'
        && p.get_char(4) == 's' && p.get_char(5) == '/';
    if viewer {
        proof {
            assert(p@.subrange(0, 6) =~= viewer_prefix());
        }
        let mut out = String::new();
        let mut i: usize = 6;
        while i < n
            invariant
                6 <= i <= n,
                n == p@.len(),
                out@ == spaced(p@.subrange(6, i as int)),
            decreases n - i,
        {
            let c = p.get_char(i);
            let ghost before = out@;
            if c == '_' {
                proof {
                    reveal_strlit(" ");
                }
                out.append(" ");
                assert(out@ =~= before.push(' '));
            } else {
                let one = p.substring_char(i, i + 1);
                out.append(one);
                assert(out@ =~= before.push(c));
            }
            proof {
                assert(spaced(p@.subrange(6, i + 1)) =~= spaced(p@.subrange(6, i as int)).push(
                    if c == '_' { ' ' } else { c },
                ));
            }
            i = i + 1;
        }
        return Some(out);
    }
    proof {
        if n > 6 {
            if p@.subrange(0, 6) == viewer_prefix() {
                assert(p@[0] == p@.subrange(0, 6)[0]);
                assert(p@[1] == p@.subrange(0, 6)[1]);
                assert(p@[2] == p@.subrange(0, 6)[2]);
                assert(p@[3] == p@.subrange(0, 6)[3]);
                assert(p@[4] == p@.subrange(0, 6)[4]);
                assert(p@[5] == p@.subrange(0, 6)[5]);
            }
        }
    }
    let ghost q = pairs_view(u.query@);
    assert(url_sfen(u.path@, q) == sfen_pair(q, 0));
    let mut i: usize = 0;
    while i < u.query.len()
        invariant
            i <= u.query@.len(),
            q == pairs_view(u.query@),
            sfen_pair(q, 0) == sfen_pair(q, i as int),
            url_sfen(u.path@, q) == sfen_pair(q, 0),
        decreases u.query@.len() - i,
    {
        let k = u.query[i].0.as_str();
        let named = k.unicode_len() == 4 && k.get_char(0) == 's' && k.get_char(1) == 'f' && k.get_char(2) == 'e'
            && k.get_char(3) == 'n';
        proof {
            assert(q[i as int].0 == k@);
            if named {
                assert(k@ =~= seq!['s', 'f', 'e', 'n']);
            } else if k@ == seq!['s', 'f', 'e', 'n'] {
                assert(k@[0] == 's' && k@[1] == 'f' && k@[2] == 'e' && k@[3] == 'n');
            }
        }
        if named {
            let v = String::from_str(u.query[i].1.as_str());
            assert(sfen_pair(q, i as int) == Some(v@));
            return Some(v);
        }
        i = i + 1;
    }
    None
}

/// Why a text gives no position.
#[derive(Clone, Debug, PartialEq, Eq)]
pub enum SfenSourceError {
    /// The text starts as a URL but is none; the message is the URL
    /// reader's.
    BadUrl(String),
    /// The URL carries no position.
    NoSfen,
}

/// The message of a source error.
pub open spec fn source_error_text(e: SfenSourceError) -> Seq<char> {
    match e {
        SfenSourceError::BadUrl(m) => m@,
        SfenSourceError::NoSfen => "no sfen query parameter or path"@,
    }
}

impl SfenSourceError {
    /// The message of this error.
    pub fn to_string(&self) -> (r: String)
        ensures
            r@ == source_error_text(*self),
    {
        match self {
            SfenSourceError::BadUrl(m) => m.clone(),
            SfenSourceError::NoSfen => String::from_str("no sfen query parameter or path"),
        }
    }
}

/// The text starts with `http`.
pub open spec fn looks_like_url(s: Seq<char>) -> bool {
    s.len() >= 4 && s.subrange(0, 4) == seq!['h', 't', 't', 'p']
}

/// The position a text gives: for a text starting with `http`, the one
/// its URL carries; any other text as it is.
pub fn sfen_text(s: &str) -> (r: Result<String, SfenSourceError>)
    ensures
        looks_like_url(s@) ==> match url_parts(s@) {
            None => r is Err && r->Err_0 is BadUrl,
            Some((path, q)) => match url_sfen(path, q) {
                Some(t) => (r matches Ok(v) && v@ == t),
                None => r == Err::<String, SfenSourceError>(SfenSourceError::NoSfen),
            },
        },
        !looks_like_url(s@) ==> (r matches Ok(v) && v@ == s@),
{
    let url = s.unicode_len() >= 4 && s.get_char(0) == 'h' && s.get_char(1) == 't' && s.get_char(2) == 't'
        && s.get_char(3) == 'p';
    proof {
        if url {
            assert(s@.subrange(0, 4) =~= seq!['h', 't', 't', 'p']);
        } else if looks_like_url(s@) {
            assert(s@[0] == s@.subrange(0, 4)[0] && s@[1] == s@.subrange(0, 4)[1] && s@[2] == s@.subrange(0, 4)[2]
                && s@[3] == s@.subrange(0, 4)[3]);
        }
    }
    if !url {
        return Ok(String::from_str(s));
    }
    match parse_url(s) {
        Err(m) => Err(SfenSourceError::BadUrl(m)),
        Ok(parts) => match sfen_from_url(&parts) {
            Some(t) => Ok(t),
            None => Err(SfenSourceError::NoSfen),
        },
    }
}

} // verus!
