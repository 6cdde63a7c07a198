//! Classification of one input string: either a hosting-platform account
//! reference, whose repositories must be listed through the platform's API,
//! or a direct repository URL, taken as it stands.
//!
//! An account reference is an `http` or `https` URL on host `github.com`
//! (optionally `www.`-prefixed) whose path is either a single segment — the
//! account name, optionally followed by a query or fragment — or `orgs/`
//! followed by the organization name and anything after it. A path with a
//! further segment after the account name (`.../name/repo`) is not an account
//! reference: it denotes a repository itself.

use crate::errors::{debug_quote, debug_quoted, Error};
use crate::pagination::{kept_clone_urls, kept_urls, pages_view, strings_view, RepoListing};
use vstd::prelude::*;
use vstd::string::StringExecFns;

verus! {

/// A character that may appear inside an account name: anything but the
/// path, query and fragment delimiters.
pub open spec fn is_name_char(c: char) -> bool {
    c != '/' && c != '?' && c != '#'
}

/// Index of the first path/query/fragment delimiter in `s`, or `s.len()`
/// when there is none.
pub open spec fn delim_idx(s: Seq<char>) -> int
    decreases s.len(),
{
    if s.len() == 0 {
        0
    } else if !is_name_char(s[0]) {
        0
    } else {
        1 + delim_idx(s.skip(1))
    }
}

pub proof fn lemma_delim_idx(s: Seq<char>)
    ensures
        0 <= delim_idx(s) <= s.len(),
        forall|i: int| 0 <= i < delim_idx(s) ==> is_name_char(#[trigger] s[i]),
        delim_idx(s) < s.len() ==> !is_name_char(s[delim_idx(s)]),
    decreases s.len(),
{
    if s.len() == 0 {
    } else if !is_name_char(s[0]) {
    } else {
        lemma_delim_idx(s.skip(1));
        assert forall|i: int| 0 <= i < delim_idx(s) implies is_name_char(#[trigger] s[i]) by {
            if i >= 1 {
                assert(s.skip(1)[i - 1] == s[i]);
            }
        }
        if delim_idx(s) < s.len() {
            assert(s.skip(1)[delim_idx(s) - 1] == s[delim_idx(s)]);
        }
    }
}

/// `delim_idx` is the only index that splits `s` into a run of name
/// characters followed by a delimiter or the end.
pub proof fn lemma_delim_idx_unique(s: Seq<char>, d: int)
    requires
        0 <= d <= s.len(),
        forall|i: int| 0 <= i < d ==> is_name_char(#[trigger] s[i]),
        d < s.len() ==> !is_name_char(s[d]),
    ensures
        delim_idx(s) == d,
    decreases s.len(),
{
    if s.len() == 0 {
    } else if !is_name_char(s[0]) {
        assert(d == 0);
    } else {
        assert(d >= 1);
        assert forall|i: int| 0 <= i < d - 1 implies is_name_char(#[trigger] s.skip(1)[i]) by {
            assert(s.skip(1)[i] == s[i + 1]);
        }
        if d - 1 < s.skip(1).len() {
            assert(s.skip(1)[d - 1] == s[d]);
        }
        lemma_delim_idx_unique(s.skip(1), d - 1);
    }
}

/// No line break anywhere in `s`.
pub open spec fn no_newline(s: Seq<char>) -> bool {
    forall|i: int| 0 <= i < s.len() ==> #[trigger] s[i] != '\n'
}

/// `p` is a prefix of `s`.
pub open spec fn is_prefix(p: Seq<char>, s: Seq<char>) -> bool {
    p.len() <= s.len() && s.take(p.len() as int) == p
}

/// Length of the scheme-and-host prefix that an account reference must
/// carry, when `url` carries one of its four shapes.
pub open spec fn host_prefix_len(url: Seq<char>) -> Option<int> {
    if is_prefix("http://github.com/"@, url) {
        Some(18)
    } else if is_prefix("https://github.com/"@, url) {
        Some(19)
    } else if is_prefix("http://www.github.com/"@, url) {
        Some(22)
    } else if is_prefix("https://www.github.com/"@, url) {
        Some(23)
    } else {
        None
    }
}

/// The bare account form of the part after the host: a nonempty run of name
/// characters, optionally followed by `?` or `#` and arbitrary text that is
/// free of line breaks.
pub open spec fn bare_account_match(tail: Seq<char>) -> bool {
    let d = delim_idx(tail);
    &&& d >= 1
    &&& (d == tail.len() || ((tail[d] == '?' || tail[d] == '#') && no_newline(tail.skip(d + 1))))
}

/// The organization form of the part after the host: `orgs/`, a nonempty
/// account name, then arbitrary text free of line breaks.
pub open spec fn org_account_match(tail: Seq<char>) -> bool {
    &&& tail.len() >= 5
    &&& tail.take(5) == "orgs/"@
    &&& delim_idx(tail.skip(5)) >= 1
    &&& no_newline(tail.skip(5).skip(delim_idx(tail.skip(5))))
}

/// The account name captured from `url`, when `url` is an account
/// reference; `None` when it is not, in which case it names a repository
/// directly.
pub open spec fn spec_account_name(url: Seq<char>) -> Option<Seq<char>> {
    match host_prefix_len(url) {
        Some(n) => {
            let tail = url.skip(n);
            if bare_account_match(tail) {
                Some(tail.take(delim_idx(tail)))
            } else if org_account_match(tail) {
                Some(tail.skip(5).take(delim_idx(tail.skip(5))))
            } else {
                None
            }
        },
        None => None,
    }
}

/// What one input string stands for: a platform user account, a platform
/// organization account, or a single repository named directly.
pub enum RepoSource {
    GithubUser(String),
    GithubOrg(String),
    GitRepo(String),
}

/// The words that describe a source to the user: a direct repository's URL
/// as it stands, an account's name quoted and escaped the way `Debug`
/// renders it.
pub open spec fn describe_view(s: &RepoSource) -> Seq<char> {
    match s {
        RepoSource::GitRepo(url) => "Git Repository at "@ + url@,
        RepoSource::GithubUser(user) => "GitHub User "@ + debug_quoted(user@),
        RepoSource::GithubOrg(org) => "GitHub Organization "@ + debug_quoted(org@),
    }
}

impl RepoSource {
    /// Classifies `url`, given in `account_type` the answer of the
    /// platform's account-type lookup for the name the account pattern
    /// captures. When the pattern does not match, `url` is a direct
    /// repository and `account_type` is not consulted; when it matches, any
    /// answer other than a user or an organization is a hard failure.
    pub fn from_url(url: &str, account_type: &str) -> (r: Result<RepoSource, Error>)
        ensures
            match spec_account_name(url@) {
                None => (r matches Ok(RepoSource::GitRepo(u)) && u@ == url@),
                Some(name) => {
                    &&& account_type@ == "User"@ ==> (r matches Ok(RepoSource::GithubUser(n))
                        && n@ == name)
                    &&& account_type@ == "Organization"@ ==> (r matches Ok(
                        RepoSource::GithubOrg(n),
                    ) && n@ == name)
                    &&& (account_type@ != "User"@ && account_type@ != "Organization"@) ==> (
                    r matches Err(Error::UnknownAccountType(t)) && t@ == account_type@)
                },
            },
    {
        proof {
            reveal_strlit("User");
            reveal_strlit("Organization");
            assert("User"@.len() == 4);
            assert("Organization"@.len() == 12);
        }
        match account_name(url) {
            None => Ok(RepoSource::GitRepo(url.to_owned())),
            Some(name) => {
                if str_eq(account_type, "User") {
                    Ok(RepoSource::GithubUser(name))
                } else if str_eq(account_type, "Organization") {
                    Ok(RepoSource::GithubOrg(name))
                } else {
                    Err(Error::UnknownAccountType(account_type.to_owned()))
                }
            },
        }
    }

    /// Expands this source into clone URLs. A direct repository is its own
    /// one-element list; for an account, `pages` holds the platform's
    /// paginated listing of the account's repositories, and every entry of
    /// every page that is not a fork contributes its clone URL, in listing
    /// order, each exactly once.
    pub fn list_repos(&self, pages: &Vec<Vec<RepoListing>>) -> (r: Vec<String>)
        ensures
            match self {
                RepoSource::GitRepo(url) => r@.len() == 1 && r@[0]@ == url@,
                RepoSource::GithubUser(_) | RepoSource::GithubOrg(_) => strings_view(r@)
                    == kept_urls(pages_view(pages@).flatten()),
            },
    {
        match self {
            RepoSource::GitRepo(url) => {
                let mut out: Vec<String> = Vec::new();
                out.push(url.clone());
                out
            },
            RepoSource::GithubUser(_) | RepoSource::GithubOrg(_) => kept_clone_urls(pages),
        }
    }

    /// The words that describe this source to the user.
    pub fn describe(&self) -> (r: String)
        ensures
            r@ == describe_view(self),
    {
        let mut out = String::new();
        match self {
            RepoSource::GitRepo(url) => {
                out.append("Git Repository at ");
                out.append(url.as_str());
            },
            RepoSource::GithubUser(user) => {
                out.append("GitHub User ");
                out.append(debug_quote(user.as_str()).as_str());
            },
            RepoSource::GithubOrg(org) => {
                out.append("GitHub Organization ");
                out.append(debug_quote(org.as_str()).as_str());
            },
        }
        out
    }
}

/// The captured name does not depend on what follows it: a URL made of a
/// recognized scheme-and-host prefix, a name, and nothing, a query or a
/// fragment captures exactly that name, whatever the query or fragment
/// holds.
pub proof fn lemma_bare_account_capture(url: Seq<char>, n: int, name: Seq<char>, suffix: Seq<char>)
    requires
        host_prefix_len(url) == Some(n),
        url.skip(n) == name + suffix,
        name.len() >= 1,
        forall|i: int| 0 <= i < name.len() ==> is_name_char(#[trigger] name[i]),
        suffix.len() == 0 || ((suffix[0] == '?' || suffix[0] == '#') && no_newline(suffix.skip(1))),
    ensures
        spec_account_name(url) == Some(name),
{
    let tail = url.skip(n);
    assert forall|i: int| 0 <= i < name.len() implies is_name_char(#[trigger] tail[i]) by {
        assert(tail[i] == name[i]);
    }
    if suffix.len() > 0 {
        assert(tail[name.len() as int] == suffix[0]);
        assert(!is_name_char(tail[name.len() as int]));
    }
    lemma_delim_idx_unique(tail, name.len() as int);
    if suffix.len() > 0 {
        assert(no_newline(tail.skip(name.len() as int + 1))) by {
            assert(tail.skip(name.len() as int + 1) =~= suffix.skip(1));
        }
    }
    assert(bare_account_match(tail));
    assert(tail.take(delim_idx(tail)) =~= name);
}

/// A path with a further segment after the name is no account reference:
/// it names a repository, not an account. (The one path segment that the
/// pattern treats specially, `orgs`, is excepted: an `orgs/` path names the
/// organization that follows it.)
pub proof fn lemma_extra_segment_no_match(url: Seq<char>, n: int, name: Seq<char>, extra: Seq<char>)
    requires
        host_prefix_len(url) == Some(n),
        url.skip(n) == name + seq!['/'] + extra,
        name.len() >= 1,
        forall|i: int| 0 <= i < name.len() ==> is_name_char(#[trigger] name[i]),
        name != "orgs"@,
    ensures
        spec_account_name(url) is None,
{
    reveal_strlit("orgs/");
    reveal_strlit("orgs");
    let tail = url.skip(n);
    assert forall|i: int| 0 <= i < name.len() implies is_name_char(#[trigger] tail[i]) by {
        assert(tail[i] == name[i]);
    }
    assert(tail[name.len() as int] == '/');
    lemma_delim_idx_unique(tail, name.len() as int);
    assert(!bare_account_match(tail));
    if org_account_match(tail) {
        let p = tail.take(5);
        assert(p == "orgs/"@);
        assert("orgs/"@.len() == 5 && "orgs/"@[4] == '/');
        assert(forall|i: int| 0 <= i < 4 ==> #[trigger] "orgs/"@[i] != '/');
        if name.len() >= 5 {
            assert(p[4] == tail[4] == name[4]);
            assert(is_name_char(name[4]) && name[4] == '/');
            assert(false);
        } else if name.len() == 4 {
            assert("orgs"@.len() == 4);
            assert(forall|i: int| 0 <= i < 4 ==> "orgs"@[i] == #[trigger] "orgs/"@[i]);
            assert forall|i: int| 0 <= i < 4 implies #[trigger] name[i] == "orgs"@[i] by {
                assert(tail[i] == name[i]);
                assert(p[i] == tail[i]);
                assert(p[i] == "orgs/"@[i]);
            }
            assert(name =~= "orgs"@);
            assert(false);
        } else {
            assert(p[name.len() as int] == tail[name.len() as int] == '/');
            assert(false);
        }
    }
}

/// True iff `p`'s characters stand at the start of `s`.
fn starts_with(s: &str, p: &str) -> (b: bool)
    ensures
        b == is_prefix(p@, s@),
{
    let pl = p.unicode_len();
    let sl = s.unicode_len();
    if pl > sl {
        return false;
    }
    let mut i: usize = 0;
    while i < pl
        invariant
            0 <= i <= pl,
            pl == p@.len(),
            pl <= sl == s@.len(),
            forall|j: int| 0 <= j < i ==> s@[j] == p@[j],
        decreases pl - i,
    {
        if s.get_char(i) != p.get_char(i) {
            assert(s@.take(pl as int)[i as int] != p@[i as int]);
            return false;
        }
        i = i + 1;
    }
    assert(s@.take(pl as int) =~= p@);
    true
}

/// True iff the two strings hold the same characters.
fn str_eq(a: &str, b: &str) -> (r: bool)
    ensures
        r == (a@ == b@),
{
    let al = a.unicode_len();
    let bl = b.unicode_len();
    if al != bl {
        return false;
    }
    let mut i: usize = 0;
    while i < al
        invariant
            0 <= i <= al,
            al == a@.len() == b@.len(),
            forall|j: int| 0 <= j < i ==> a@[j] == b@[j],
        decreases al - i,
    {
        if a.get_char(i) != b.get_char(i) {
            return false;
        }
        i = i + 1;
    }
    assert(a@ =~= b@);
    true
}

/// Index of the first delimiter character in `s`, or its length.
fn find_delim(s: &str) -> (d: usize)
    ensures
        d == delim_idx(s@),
{
    let n = s.unicode_len();
    let mut i: usize = 0;
    while i < n
        invariant
            0 <= i <= n,
            n == s@.len(),
            forall|j: int| 0 <= j < i ==> is_name_char(#[trigger] s@[j]),
        decreases n - i,
    {
        let c = s.get_char(i);
        if c == '/' || c == '?' || c == '#' {
            proof {
                lemma_delim_idx_unique(s@, i as int);
            }
            return i;
        }
        i = i + 1;
    }
    proof {
        lemma_delim_idx_unique(s@, n as int);
    }
    n
}

/// True iff no line break occurs in `s` at or after position `from`.
fn newline_free_from(s: &str, from: usize) -> (b: bool)
    requires
        from <= s@.len(),
    ensures
        b == no_newline(s@.skip(from as int)),
{
    let n = s.unicode_len();
    let mut i: usize = from;
    while i < n
        invariant
            from <= i <= n,
            n == s@.len(),
            forall|j: int| from <= j < i ==> #[trigger] s@[j] != '\n',
        decreases n - i,
    {
        if s.get_char(i) == '\n' {
            assert(s@.skip(from as int)[i - from] == '\n');
            return false;
        }
        i = i + 1;
    }
    assert forall|k: int| 0 <= k < s@.skip(from as int).len() implies #[trigger] s@.skip(
        from as int,
    )[k] != '\n' by {
        assert(s@.skip(from as int)[k] == s@[k + from]);
    }
    true
}

/// The account name captured from `url`, when `url` is an account
/// reference; `None` when `url` names a repository directly.
pub fn account_name(url: &str) -> (r: Option<String>)
    ensures
        match r {
            Some(name) => spec_account_name(url@) == Some(name@),
            None => spec_account_name(url@) is None,
        },
{
    let ulen = url.unicode_len();
    let plen: usize = if starts_with(url, "http://github.com/") {
        proof {
            reveal_strlit("http://github.com/");
        }
        18
    } else if starts_with(url, "https://github.com/") {
        proof {
            reveal_strlit("https://github.com/");
        }
        19
    } else if starts_with(url, "http://www.github.com/") {
        proof {
            reveal_strlit("http://www.github.com/");
        }
        22
    } else if starts_with(url, "https://www.github.com/") {
        proof {
            reveal_strlit("https://www.github.com/");
        }
        23
    } else {
        return None;
    };
    assert(host_prefix_len(url@) == Some(plen as int));
    let tail = url.substring_char(plen, ulen);
    let ghost tail_view = url@.skip(plen as int);
    assert(tail@ =~= tail_view);
    let tlen = tail.unicode_len();
    let d = find_delim(tail);
    proof {
        lemma_delim_idx(tail@);
    }
    if d >= 1 {
        if d == tlen {
            let name = tail.substring_char(0, d).to_owned();
            assert(name@ =~= tail_view.take(delim_idx(tail_view)));
            return Some(name);
        }
        let c = tail.get_char(d);
        if (c == '?' || c == '#') && newline_free_from(tail, d + 1) {
            let name = tail.substring_char(0, d).to_owned();
            assert(name@ =~= tail_view.take(delim_idx(tail_view)));
            return Some(name);
        }
    }
    assert(!bare_account_match(tail_view));
    if starts_with(tail, "orgs/") {
        proof {
            reveal_strlit("orgs/");
        }
        let rest = tail.substring_char(5, tlen);
        let ghost rest_view = tail_view.skip(5);
        assert(rest@ =~= rest_view);
        let d2 = find_delim(rest);
        proof {
            lemma_delim_idx(rest@);
        }
        if d2 >= 1 && newline_free_from(rest, d2) {
            let name = rest.substring_char(0, d2).to_owned();
            assert(name@ =~= rest_view.take(delim_idx(rest_view)));
            assert(tail_view.take(5) =~= "orgs/"@);
            assert(org_account_match(tail_view));
            return Some(name);
        }
    }
    None
}

} // verus!
