//! Content identifiers and their path arithmetic.

use vstd::prelude::*;
use vstd::string::*;

verus! {

/// An opaque content identifier. Two identifiers are the same when their
/// characters are.
#[derive(Debug, Default, PartialEq, Eq, Hash)]
pub struct Cid(pub String);

impl View for Cid {
    type V = Seq<char>;

    open spec fn view(&self) -> Seq<char> {
        self.0@
    }
}

/// `cid` ends in a slash.
pub open spec fn ends_in_slash(cid: Seq<char>) -> bool {
    cid.len() > 0 && cid.last() == '/'
}

/// `sub` begins with a slash.
pub open spec fn begins_with_slash(sub: Seq<char>) -> bool {
    sub.len() > 0 && sub[0] == '/'
}

/// The path `sub` below `cid`, with exactly one slash contributed by the
/// seam: a slash on both sides collapses, a missing one is supplied.
pub open spec fn joined(cid: Seq<char>, sub: Seq<char>) -> Seq<char> {
    if ends_in_slash(cid) && begins_with_slash(sub) {
        cid + sub.subrange(1, sub.len() as int)
    } else if ends_in_slash(cid) || begins_with_slash(sub) {
        cid + sub
    } else {
        cid + seq!['/'] + sub
    }
}

/// How many characters of `path` stand before its first slash; all of
/// them when it has none.
pub open spec fn segment_end(path: Seq<char>) -> nat
    decreases path.len(),
{
    if path.len() == 0 || path[0] == '/' {
        0
    } else {
        1 + segment_end(path.skip(1))
    }
}

/// The characters of `path` before its first slash.
pub open spec fn head_segment(path: Seq<char>) -> Seq<char> {
    path.take(segment_end(path) as int)
}

/// `needle` occurs somewhere in `haystack`.
pub open spec fn occurs_in(needle: Seq<char>, haystack: Seq<char>) -> bool {
    exists|i: int|
        0 <= i && i + needle.len() <= haystack.len() && #[trigger] haystack.subrange(
            i,
            i + needle.len(),
        ) == needle
}

/// `str::contains` with a string as the pattern: whether `needle` occurs
/// somewhere in `haystack`.
#[verifier::external_body]
fn str_contains(haystack: &str, needle: &str) -> (res: bool)
    ensures
        res == occurs_in(needle@, haystack@),
{
    haystack.contains(needle)
}

/// The endpoint of a local node.
pub const DEFAULT_ENDPOINT: &'static str = "http://127.0.0.1:5001/api/v0/";

/// The methods of the endpoint, each a path below it.
pub const DAG_GET: &'static str = "dag/get";

pub const CAT: &'static str = "cat";

pub const PIN_ADD: &'static str = "pin/add";

pub const PIN_LS: &'static str = "pin/ls";

/// What the endpoint says of content that it does not retain.
pub const NOT_PINNED: &'static str = "is not pinned";

pub const INVALID_PATH: &'static str = "invalid path";

/// What went wrong when the endpoint was asked.
#[derive(Debug, PartialEq, Eq)]
pub enum Error {
    /// The endpoint answered with a failure and, where it gave one, this message.
    Http { message: Option<String> },
}

impl Error {
    /// The message that came with the failure, if one came.
    pub open spec fn message(&self) -> Option<Seq<char>> {
        match self {
            Error::Http { message: Some(m) } => Some(m@),
            Error::Http { message: None } => None,
        }
    }
}

/// What an answer to the question for a pin means. Success means the
/// content is pinned. A failure whose message says that it is not
/// pinned, or that its path is invalid, means it is not. Any other
/// failure is an error with that message.
pub fn is_pinned(success: bool, message: &str) -> (res: Result<bool, Error>)
    ensures
        success ==> res == Ok::<bool, Error>(true),
        !success && (occurs_in(NOT_PINNED@, message@) || occurs_in(INVALID_PATH@, message@))
            ==> res == Ok::<bool, Error>(false),
        !success && !occurs_in(NOT_PINNED@, message@) && !occurs_in(INVALID_PATH@, message@)
            ==> res is Err && res->Err_0.message() == Some(message@),
{
    if success {
        return Ok(true);
    }
    if str_contains(message, NOT_PINNED) || str_contains(message, INVALID_PATH) {
        Ok(false)
    } else {
        Err(Error::Http { message: Some(String::from_str(message)) })
    }
}

/// A client of a content-addressed endpoint.
#[derive(Debug)]
pub struct Client {
    endpoint: String,
}

impl Client {
    /// The base URL of the endpoint.
    pub closed spec fn endpoint(&self) -> Seq<char> {
        self.endpoint@
    }

    /// A client of the endpoint at `endpoint`.
    pub fn new(endpoint: String) -> (res: Self)
        ensures
            res.endpoint() == endpoint@,
    {
        Client { endpoint: endpoint }
    }

    /// A client of the endpoint of a local node.
    pub fn default() -> (res: Self)
        ensures
            res.endpoint() == DEFAULT_ENDPOINT@,
    {
        Client { endpoint: String::from_str(DEFAULT_ENDPOINT) }
    }

    /// The base URL of the endpoint.
    pub fn base_url(&self) -> (res: &str)
        ensures
            res@ == self.endpoint(),
    {
        self.endpoint.as_str()
    }
}

impl Clone for Cid {
    fn clone(&self) -> (res: Self)
        ensures
            res@ == self@,
    {
        Cid(self.0.clone())
    }
}

impl Cid {
    /// Wraps the characters of `cid`.
    pub fn from(cid: &str) -> (res: Self)
        ensures
            res@ == cid@,
    {
        Cid(String::from_str(cid))
    }

    /// The identifier as an owned string.
    pub fn to_string(&self) -> (res: String)
        ensures
            res@ == self@,
    {
        self.0.clone()
    }

    /// The identifier as a string slice.
    pub fn as_str(&self) -> (res: &str)
        ensures
            res@ == self@,
    {
        self.0.as_str()
    }

    /// Whether the identifier has no characters.
    pub fn is_empty(&self) -> (res: bool)
        ensures
            res == (self@.len() == 0),
    {
        self.0.as_str().is_empty()
    }

    /// Whether both identifiers hold the same characters.
    pub fn same(&self, other: &Cid) -> (res: bool)
        ensures
            res == (self@ == other@),
    {
        self.0 == other.0
    }

    /// The identifier without any path below it: what stands before the
    /// first slash.
    pub fn multihash(&self) -> (res: Cid)
        ensures
            res@ == head_segment(self@),
    {
        let s = self.0.as_str();
        let n: usize = s.unicode_len();
        let mut i: usize = 0;
        assert(s@.skip(0) =~= s@);
        while i < n && s.get_char(i) != '/'
            invariant
                i <= n,
                n == s@.len(),
                segment_end(s@) == i + segment_end(s@.skip(i as int)),
            decreases n - i,
        {
            assert(s@.skip(i as int)[0] == s@[i as int]);
            assert(s@.skip(i as int).skip(1) =~= s@.skip(i as int + 1));
            i += 1;
        }
        proof {
            if i < n {
                assert(s@.skip(i as int)[0] == s@[i as int]);
            }
        }
        let head = s.substring_char(0, i);
        assert(head@ =~= s@.take(i as int));
        Cid::from(head)
    }

    /// Appends the relative path `sub`, normalising the slash at the seam.
    pub fn join(self, sub: &str) -> (res: Self)
        ensures
            res@ == joined(self@, sub@),
    {
        let cid = self.0;
        let cid_len: usize = cid.as_str().unicode_len();
        let sub_len: usize = sub.unicode_len();
        let cid_slash = cid_len > 0 && cid.as_str().get_char(cid_len - 1) == '/';
        let sub_slash = sub_len > 0 && sub.get_char(0) == '/';
        if cid_slash && sub_slash {
            Cid(cid.concat(sub.substring_char(1, sub_len)))
        } else if cid_slash || sub_slash {
            Cid(cid.concat(sub))
        } else {
            proof {
                reveal_strlit("/");
                assert("/"@ =~= seq!['/']);
            }
            Cid(cid.concat("/").concat(sub))
        }
    }
}

/// Joining supplies or keeps exactly one slash at the seam: whatever slash
/// either side brings there, the result is `cid` without a trailing slash,
/// one slash, and `sub` without a leading one.
pub proof fn lemma_join_one_slash(cid: Seq<char>, sub: Seq<char>)
    ensures
        joined(cid, sub) =~= (if ends_in_slash(cid) {
            cid.drop_last()
        } else {
            cid
        }) + seq!['/'] + (if begins_with_slash(sub) {
            sub.subrange(1, sub.len() as int)
        } else {
            sub
        }),
{
}

} // verus!
