//! The rate-limited API client's decision logic: response classification,
//! the error taxonomy, request-target shaping, and the shapes of the values
//! the remote API returns. The transport itself (HTTP, JSON decoding) lives
//! outside the library and hands plain values in.
use crate::numeric::dec_str;
use crate::numeric::usize_to_string;
use crate::strutil;
use crate::Repo;
use vstd::prelude::*;

verus! {

/// An error body as the remote API reports it.
pub struct GitHubError {
    pub message: String,
    pub type_: Option<String>,
}

/// One entry of a repository's file tree: a repository-relative path.
pub struct Node {
    pub path: String,
}

/// A repository's full recursive file tree.
pub struct GithubTree {
    pub tree: Vec<Node>,
}

/// A repository as the paginated listing endpoint returns it.
pub struct RestRepository {
    pub id: usize,
    pub full_name: String,
    pub node_id: String,
    pub fork: bool,
}

pub struct GraphLanguage {
    pub name: String,
}

/// The ordered language histogram of one repository.
pub struct GraphLanguages {
    pub nodes: Vec<Option<GraphLanguage>>,
}

pub struct GraphRef {
    pub name: String,
}

/// A repository as the batched detail query returns it.
pub struct GraphRepository {
    pub id: String,
    pub name_with_owner: String,
    pub languages: GraphLanguages,
}

impl GraphRepository {
    pub fn to_repo(self) -> (r: Repo)
        ensures
            r.id == self.id,
            r.name == self.name_with_owner,
    {
        Repo { id: self.id, name: self.name_with_owner }
    }
}

/// The client's error taxonomy. A transport failure is transient and is not
/// retried; a rate-limit signal is retried indefinitely through credential
/// rotation; any other HTTP error is fatal to the unit of work that saw it;
/// a response without the requested data is its own failure.
#[derive(Debug)]
pub enum Error {
    Transient,
    RateLimited(u16),
    Fatal(u16),
    EmptyData,
}

/// Whether an error body carries the remote API's abuse / rate-limit
/// wording, which counts as a rate-limit signal whatever the status was.
pub open spec fn is_rate_limit_message(body: Option<&GitHubError>) -> bool {
    match body {
        Some(e) => strutil::contains_seq(e.message@, "abuse"@) || strutil::contains_seq(
            e.message@,
            "rate limit"@,
        ),
        None => false,
    }
}

/// Classifies one response: 2xx succeeds; HTTP 429 or 422, or an error body
/// naming abuse or rate limiting, is a rate-limit signal; any other
/// non-success status is fatal.
pub fn handle_status(status: u16, error_body: Option<&GitHubError>) -> (r: Result<(), Error>)
    ensures
        match r {
            Ok(u) => 200 <= status < 300,
            Err(e) => !(200 <= status < 300) && e == (if status == 429 || status == 422
                || is_rate_limit_message(error_body) {
                Error::RateLimited(status)
            } else {
                Error::Fatal(status)
            }),
        },
{
    if 200 <= status && status < 300 {
        return Ok(());
    }
    if status == 429 || status == 422 {
        return Err(Error::RateLimited(status));
    }
    match error_body {
        Some(e) => {
            if strutil::str_contains(e.message.as_str(), "abuse") || strutil::str_contains(
                e.message.as_str(),
                "rate limit",
            ) {
                Err(Error::RateLimited(status))
            } else {
                Err(Error::Fatal(status))
            }
        },
        None => Err(Error::Fatal(status)),
    }
}

/// What the retry loop does with a failed attempt: only a rate-limit
/// signal rotates the credential and tries again; every other error is
/// returned to the caller at once.
pub enum RetryDecision {
    Return,
    Rotate,
}

pub fn retry_decision(e: &Error) -> (d: RetryDecision)
    ensures
        (d is Rotate) <==> (e is RateLimited),
{
    match e {
        Error::RateLimited(u) => RetryDecision::Rotate,
        Error::Transient => RetryDecision::Return,
        Error::Fatal(u) => RetryDecision::Return,
        Error::EmptyData => RetryDecision::Return,
    }
}

/// Where a request goes: a full URL, or a path under the API's base URL.
pub enum RequestTarget {
    Absolute(String),
    RelativePath(String),
}

pub open spec fn api_base() -> Seq<char> {
    "https://api.github.com/"@
}

/// The URL the transport must actually request for a target.
pub open spec fn target_url(t: RequestTarget) -> Seq<char> {
    match t {
        RequestTarget::Absolute(u) => u@,
        RequestTarget::RelativePath(p) => api_base() + p@,
    }
}

impl RequestTarget {
    /// Classifies a raw request string: anything already carrying the
    /// scheme is absolute, everything else is relative to the API base.
    pub fn of_str(url: &str) -> (t: RequestTarget)
        ensures
            match t {
                RequestTarget::Absolute(u) => strutil::starts_with(url@, "https://"@) && u@
                    == url@,
                RequestTarget::RelativePath(p) => !strutil::starts_with(url@, "https://"@) && p@
                    == url@,
            },
            target_url(t) == (if strutil::starts_with(url@, "https://"@) {
                url@
            } else {
                api_base() + url@
            }),
    {
        let owned = url.to_owned();
        if strutil::str_starts_with(url, "https://") {
            RequestTarget::Absolute(owned)
        } else {
            RequestTarget::RelativePath(owned)
        }
    }

    pub fn url(self) -> (r: String)
        ensures
            r@ == target_url(self),
    {
        match self {
            RequestTarget::Absolute(u) => u,
            RequestTarget::RelativePath(p) => {
                let mut out: String = "https://api.github.com/".to_owned();
                out.append(p.as_str());
                out
            },
        }
    }
}

/// The path of the paginated listing request for a given cursor.
pub fn repositories_path(since: usize) -> (r: String)
    ensures
        r@ == "repositories?since="@ + dec_str(since as nat),
{
    let mut out: String = "repositories?since=".to_owned();
    let digits = usize_to_string(since);
    out.append(digits.as_str());
    out
}

/// The path of a repository's recursive file-tree request.
pub fn tree_path(repo: &Repo) -> (r: String)
    ensures
        r@ == "repos/"@ + repo.name@ + "/git/trees/HEAD?recursive=1"@,
{
    let mut out: String = "repos/".to_owned();
    out.append(repo.name.as_str());
    out.append("/git/trees/HEAD?recursive=1");
    out
}

/// The raw-content URL of one file of a repository.
pub fn raw_file_url(repo: &Repo, path: &str) -> (r: String)
    ensures
        r@ == "https://raw.githubusercontent.com/"@ + repo.name@ + "/HEAD/"@ + path@,
{
    let mut out: String = "https://raw.githubusercontent.com/".to_owned();
    out.append(repo.name.as_str());
    out.append("/HEAD/");
    out.append(path);
    out
}

/// The path of a repository's releases listing.
pub fn releases_path(repo: &Repo) -> (r: String)
    ensures
        r@ == "repos/"@ + repo.name@ + "/releases"@,
{
    let mut out: String = "repos/".to_owned();
    out.append(repo.name.as_str());
    out.append("/releases");
    out
}

/// A repository qualifies when its language histogram holds the target
/// language.
pub open spec fn spec_has_language(langs: GraphLanguages, target: Seq<char>) -> bool {
    exists|i: int|
        0 <= i < langs.nodes@.len() && match #[trigger] langs.nodes@[i] {
            Some(l) => l.name@ == target,
            None => false,
        }
}

pub fn has_language(langs: &GraphLanguages, target: &str) -> (r: bool)
    ensures
        r == spec_has_language(*langs, target@),
{
    let target_owned: String = target.to_owned();
    let n = langs.nodes.len();
    let mut i: usize = 0;
    while i < n
        invariant
            n == langs.nodes@.len(),
            i <= n,
            target_owned@ == target@,
            forall|k: int|
                0 <= k < i ==> match #[trigger] langs.nodes@[k] {
                    Some(l) => l.name@ != target@,
                    None => true,
                },
        decreases n - i,
    {
        let entry = &langs.nodes[i];
        proof {
            assert(*entry == langs.nodes@[i as int]);
        }
        match entry {
            Some(l) => {
                if l.name.eq(&target_owned) {
                    proof {
                        assert(langs.nodes@[i as int] == Some(*l));
                    }
                    return true;
                }
                proof {
                    assert(langs.nodes@[i as int] == Some(*l));
                }
            },
            None => {
                proof {
                    assert(langs.nodes@[i as int] is None);
                }
            },
        }
        i += 1;
    }
    false
}

/// The detail results that actually came back: deleted repositories return
/// no data and are dropped, in order.
pub open spec fn present_nodes(s: Seq<Option<GraphRepository>>) -> Seq<GraphRepository>
    decreases s.len(),
{
    if s.len() == 0 {
        Seq::empty()
    } else {
        (match s[0] {
            Some(r) => seq![r],
            None => Seq::empty(),
        }) + present_nodes(s.drop_first())
    }
}

pub fn flatten_nodes(nodes: Vec<Option<GraphRepository>>) -> (r: Vec<GraphRepository>)
    ensures
        r@ == present_nodes(nodes@),
{
    let ghost orig = nodes@;
    let mut nodes = nodes;
    let mut out: Vec<GraphRepository> = Vec::new();
    proof {
        assert(out@ + present_nodes(nodes@) =~= present_nodes(orig));
    }
    while nodes.len() > 0
        invariant
            out@ + present_nodes(nodes@) == present_nodes(orig),
        decreases nodes@.len(),
    {
        let ghost before = nodes@;
        let ghost out_before = out@;
        let head = nodes.remove(0);
        proof {
            assert(nodes@ =~= before.drop_first());
        }
        match head {
            Some(r) => {
                out.push(r);
                proof {
                    assert(out@ =~= out_before.push(r));
                    assert(out_before + (seq![r] + present_nodes(before.drop_first()))
                        =~= out_before.push(r) + present_nodes(before.drop_first()));
                }
            },
            None => {
                proof {
                    assert(out_before + (Seq::<GraphRepository>::empty() + present_nodes(
                        before.drop_first(),
                    )) =~= out_before + present_nodes(before.drop_first()));
                }
            },
        }
    }
    proof {
        assert(present_nodes(nodes@) =~= Seq::<GraphRepository>::empty());
        assert(out@ + Seq::<GraphRepository>::empty() =~= out@);
    }
    out
}

/// The batched detail query's declared cost must stay within one expensive
/// unit; a costlier response violates the query-budget invariant.
pub fn validate_detail_cost(cost: u16) -> (ok: bool)
    ensures
        ok == (cost <= 1),
{
    cost <= 1
}

/// The data a response envelope carried, or the empty-data failure.
pub fn require_data<T>(data: Option<T>) -> (r: Result<T, Error>)
    ensures
        match r {
            Ok(v) => data == Some(v),
            Err(e) => data is None && e == Error::EmptyData,
        },
{
    match data {
        Some(v) => Ok(v),
        None => Err(Error::EmptyData),
    }
}

} // verus!
