//! Naming conventions shared by every subsystem: branch-name encoding,
//! workspace identifiers, container and session names, workspace
//! directories, and the per-repo runtime hints record.

use vstd::prelude::*;

use crate::strutil::{push_str_chars, str_to_chars, string_of};
use vstd::string::*;

verus! {

/// Branch-name encoding: every `/` becomes `__`, all else is kept.
pub open spec fn encode_seq(s: Seq<char>) -> Seq<char>
    decreases s.len(),
{
    if s.len() == 0 {
        Seq::empty()
    } else if s[0] == '/' {
        seq!['_', '_'] + encode_seq(s.skip(1))
    } else {
        seq![s[0]] + encode_seq(s.skip(1))
    }
}

/// Branch-name decoding: each leftmost `__` pair becomes `/`.
pub open spec fn decode_seq(s: Seq<char>) -> Seq<char>
    decreases s.len(),
{
    if s.len() >= 2 && s[0] == '_' && s[1] == '_' {
        seq!['/'] + decode_seq(s.skip(2))
    } else if s.len() >= 1 {
        seq![s[0]] + decode_seq(s.skip(1))
    } else {
        Seq::empty()
    }
}

/// Encoding distributes over concatenation.
proof fn lemma_encode_app(a: Seq<char>, b: Seq<char>)
    ensures
        encode_seq(a + b) == encode_seq(a) + encode_seq(b),
    decreases a.len(),
{
    if a.len() == 0 {
        assert(a + b =~= b);
        assert(encode_seq(a) + encode_seq(b) =~= encode_seq(b));
    } else {
        assert((a + b).skip(1) =~= a.skip(1) + b);
        lemma_encode_app(a.skip(1), b);
        if a[0] == '/' {
            assert(encode_seq(a + b) =~= encode_seq(a) + encode_seq(b));
        } else {
            assert(encode_seq(a + b) =~= encode_seq(a) + encode_seq(b));
        }
    }
}

proof fn lemma_encode_snoc(s: Seq<char>, i: int)
    requires
        0 <= i < s.len(),
    ensures
        encode_seq(s.take(i + 1)) == encode_seq(s.take(i)) + (if s[i] == '/' {
            seq!['_', '_']
        } else {
            seq![s[i]]
        }),
{
    assert(s.take(i + 1) =~= s.take(i) + seq![s[i]]);
    lemma_encode_app(s.take(i), seq![s[i]]);
    let single = seq![s[i]];
    assert(single.skip(1) =~= Seq::<char>::empty());
    assert(encode_seq(Seq::<char>::empty()) == Seq::<char>::empty());
    if s[i] == '/' {
        assert(encode_seq(single) =~= seq!['_', '_'] + encode_seq(single.skip(1)));
        assert(encode_seq(single) =~= seq!['_', '_']);
    } else {
        assert(encode_seq(single) =~= seq![s[i]] + encode_seq(single.skip(1)));
        assert(encode_seq(single) =~= seq![s[i]]);
    }
}

/// Encode a branch name for filesystem use: `feat/auth` becomes `feat__auth`.
pub fn encode_branch(branch: &str) -> (r: String)
    ensures
        r@ == encode_seq(branch@),
{
    let cs = str_to_chars(branch);
    let mut out: Vec<char> = Vec::new();
    let mut i: usize = 0;
    while i < cs.len()
        invariant
            i <= cs.len(),
            cs@ == branch@,
            out@ == encode_seq(branch@.take(i as int)),
        decreases cs.len() - i,
    {
        proof {
            lemma_encode_snoc(branch@, i as int);
        }
        if cs[i] == '/' {
            out.push('_');
            out.push('_');
        } else {
            out.push(cs[i]);
        }
        i = i + 1;
        proof {
            assert(out@ =~= encode_seq(branch@.take(i as int)));
        }
    }
    proof {
        assert(branch@.take(branch@.len() as int) =~= branch@);
    }
    string_of(&out)
}

/// Decode an encoded branch name: `feat__auth` becomes `feat/auth`.
pub fn decode_branch(encoded: &str) -> (r: String)
    ensures
        r@ == decode_seq(encoded@),
{
    let cs = str_to_chars(encoded);
    let n = cs.len();
    let mut out: Vec<char> = Vec::new();
    let mut i: usize = 0;
    proof {
        assert(encoded@.skip(0) =~= encoded@);
    }
    while i < n
        invariant
            i <= n,
            n == cs.len(),
            cs@ == encoded@,
            decode_seq(encoded@) == out@ + decode_seq(encoded@.skip(i as int)),
        decreases n - i,
    {
        let ghost rest = encoded@.skip(i as int);
        if i + 1 < n && cs[i] == '_' && cs[i + 1] == '_' {
            proof {
                assert(rest.len() >= 2 && rest[0] == '_' && rest[1] == '_');
                assert(rest.skip(2) =~= encoded@.skip(i + 2));
                assert(out@ + decode_seq(rest) =~= (out@ + seq!['/']) + decode_seq(
                    encoded@.skip(i + 2),
                ));
            }
            out.push('/');
            i = i + 2;
        } else {
            proof {
                assert(rest.len() >= 1 && rest[0] == encoded@[i as int]);
                assert(!(rest.len() >= 2 && rest[0] == '_' && rest[1] == '_'));
                assert(rest.skip(1) =~= encoded@.skip(i + 1));
                assert(out@ + decode_seq(rest) =~= (out@ + seq![encoded@[i as int]])
                    + decode_seq(encoded@.skip(i + 1)));
            }
            out.push(cs[i]);
            i = i + 1;
        }
    }
    proof {
        assert(encoded@.skip(n as int) =~= Seq::<char>::empty());
        assert(out@ + decode_seq(encoded@.skip(n as int)) =~= out@);
    }
    string_of(&out)
}

/// No two adjacent characters of `s` are both underscores.
pub open spec fn no_double_underscore(s: Seq<char>) -> bool {
    forall|i: int| 0 <= i < s.len() - 1 ==> !((#[trigger] s[i]) == '_' && s[i + 1] == '_')
}

/// No underscore of `s` is directly followed by a slash.
pub open spec fn no_underscore_before_slash(s: Seq<char>) -> bool {
    forall|i: int| 0 <= i < s.len() - 1 ==> !((#[trigger] s[i]) == '_' && s[i + 1] == '/')
}

/// Decoding inverts encoding for branch names that contain neither `__`
/// nor an underscore directly before a slash. (An underscore directly
/// before a slash defeats the round trip: the encoder turns the slash
/// into two more underscores and the decoder pairs them differently.)
pub proof fn lemma_decode_encode(s: Seq<char>)
    requires
        no_double_underscore(s),
        no_underscore_before_slash(s),
    ensures
        decode_seq(encode_seq(s)) == s,
    decreases s.len(),
{
    if s.len() == 0 {
        assert(decode_seq(encode_seq(s)) =~= s);
    } else {
        let rest = s.skip(1);
        assert(no_double_underscore(rest)) by {
            assert(forall|i: int|
                0 <= i < rest.len() - 1 ==> (#[trigger] rest[i]) == s[i + 1] && rest[i + 1] == s[i + 2]);
        }
        assert(no_underscore_before_slash(rest)) by {
            assert(forall|i: int|
                0 <= i < rest.len() - 1 ==> (#[trigger] rest[i]) == s[i + 1] && rest[i + 1] == s[i + 2]);
        }
        lemma_decode_encode(rest);
        let e = encode_seq(s);
        if s[0] == '/' {
            assert(e =~= seq!['_', '_'] + encode_seq(rest));
            assert(e.len() >= 2 && e[0] == '_' && e[1] == '_');
            assert(e.skip(2) =~= encode_seq(rest));
            assert(decode_seq(e) =~= seq!['/'] + rest);
            assert(seq!['/'] + rest =~= s);
        } else {
            assert(e =~= seq![s[0]] + encode_seq(rest));
            assert(e[0] == s[0]);
            if s[0] == '_' {
                // The next output character, if any, is the first character
                // of the rest, which is neither `_` nor `/`.
                if rest.len() == 0 {
                    assert(encode_seq(rest) =~= Seq::<char>::empty());
                    assert(e.len() == 1);
                    assert(decode_seq(e) =~= seq![s[0]] + decode_seq(e.skip(1)));
                    assert(e.skip(1) =~= Seq::<char>::empty());
                    assert(decode_seq(e) =~= s);
                } else {
                    assert(rest[0] == s[1]);
                    assert(!(s[0] == '_' && s[1] == '_'));
                    assert(!(s[0] == '_' && s[1] == '/'));
                    assert(rest[0] != '/' && rest[0] != '_');
                    assert(encode_seq(rest) =~= seq![rest[0]] + encode_seq(rest.skip(1)));
                    assert(e[1] == rest[0]);
                    assert(e[1] != '_');
                    assert(!(e.len() >= 2 && e[0] == '_' && e[1] == '_'));
                    assert(e.skip(1) =~= encode_seq(rest));
                    assert(decode_seq(e) =~= seq![s[0]] + rest);
                    assert(seq![s[0]] + rest =~= s);
                }
            } else {
                assert(e[0] != '_');
                assert(e.skip(1) =~= encode_seq(rest));
                assert(decode_seq(e) =~= seq![s[0]] + rest);
                assert(seq![s[0]] + rest =~= s);
            }
        }
    }
}

/// The identifier of a workspace: `{repo}-{encoded branch}`.
pub open spec fn id_seq(repo: Seq<char>, branch: Seq<char>) -> Seq<char> {
    repo + seq!['-'] + encode_seq(branch)
}

/// Compute the workspace identifier from repo + branch,
/// e.g. ("lightfast", "feat/auth") gives "lightfast-feat__auth".
pub fn workspace_id(repo: &str, branch: &str) -> (r: String)
    ensures
        r@ == id_seq(repo@, branch@),
{
    let mut out: Vec<char> = Vec::new();
    push_str_chars(&mut out, repo);
    out.push('-');
    let enc = encode_branch(branch);
    push_str_chars(&mut out, enc.as_str());
    proof {
        assert(out@ =~= id_seq(repo@, branch@));
    }
    string_of(&out)
}

/// The container name of a workspace: `dual-{repo}-{encoded branch}`.
pub open spec fn container_name_seq(repo: Seq<char>, branch: Seq<char>) -> Seq<char> {
    "dual-"@ + id_seq(repo, branch)
}

/// Compute the container name for a repo + branch combination.
pub fn container_name(repo: &str, branch: &str) -> (r: String)
    ensures
        r@ == container_name_seq(repo@, branch@),
{
    let mut out: Vec<char> = Vec::new();
    push_str_chars(&mut out, "dual-");
    let id = workspace_id(repo, branch);
    push_str_chars(&mut out, id.as_str());
    proof {
        assert(out@ =~= container_name_seq(repo@, branch@));
    }
    string_of(&out)
}

/// Compute the tmux session name for a repo + branch combination.
/// Uses the same naming convention as container names for consistency.
pub fn session_name(repo: &str, branch: &str) -> (r: String)
    ensures
        r@ == container_name_seq(repo@, branch@),
{
    container_name(repo, branch)
}

/// The directory of a lazily materialized workspace:
/// `{workspace_root}/{repo}/{encoded branch}`.
pub open spec fn workspace_dir_seq(root: Seq<char>, repo: Seq<char>, branch: Seq<char>) -> Seq<
    char,
> {
    root + seq!['/'] + repo + seq!['/'] + encode_seq(branch)
}

/// Get the workspace directory for a repo + branch combination.
pub fn workspace_dir(workspace_root: &str, repo: &str, branch: &str) -> (r: String)
    ensures
        r@ == workspace_dir_seq(workspace_root@, repo@, branch@),
{
    let mut out: Vec<char> = Vec::new();
    push_str_chars(&mut out, workspace_root);
    out.push('/');
    push_str_chars(&mut out, repo);
    out.push('/');
    let enc = encode_branch(branch);
    push_str_chars(&mut out, enc.as_str());
    proof {
        assert(out@ =~= workspace_dir_seq(workspace_root@, repo@, branch@));
    }
    string_of(&out)
}


/// Shared configuration file propagation settings.
#[derive(Debug)]
pub struct SharedConfig {
    /// Files and directories to share across workspaces,
    /// e.g. [".vercel", ".env.local", ".env"]
    pub files: Vec<String>,
}

/// Per-repo runtime hints, read from the hints file in a workspace directory.
#[derive(Debug)]
pub struct RepoHints {
    /// Container image to use (default: "node:20")
    pub image: String,
    /// Ports that services bind to inside the container
    pub ports: Vec<u16>,
    /// Setup command to run after container creation (e.g. "pnpm install")
    pub setup: Option<String>,
    /// Environment variables for the container, in declaration order
    pub env: Vec<(String, String)>,
    /// Additional commands to route to the container
    pub extra_commands: Vec<String>,
    /// Directories to isolate with anonymous volumes
    pub anonymous_volumes: Vec<String>,
    /// Shared files to propagate across workspaces
    pub shared: Option<SharedConfig>,
}

/// The default container image.
pub fn default_image() -> (r: String)
    ensures
        r@ == "node:20"@,
{
    String::from_str("node:20")
}

/// The default set of anonymously mounted directories.
pub fn default_anonymous_volumes() -> (r: Vec<String>)
    ensures
        r@.map_values(|s: String| s@) == seq!["node_modules"@],
{
    let mut v: Vec<String> = Vec::new();
    v.push(String::from_str("node_modules"));
    proof {
        assert(v@.map_values(|s: String| s@) =~= seq!["node_modules"@]);
    }
    v
}

impl Default for RepoHints {
    /// All defaults: the stock image, no ports, no setup command, no
    /// environment, no extra commands, only `node_modules` isolated, and no
    /// shared files.
    fn default() -> (r: Self)
        ensures
            r.image@ == "node:20"@,
            r.ports@ == Seq::<u16>::empty(),
            r.setup is None,
            r.env@ == Seq::<(String, String)>::empty(),
            r.extra_commands@ == Seq::<String>::empty(),
            r.anonymous_volumes@.map_values(|s: String| s@) == seq!["node_modules"@],
            r.shared is None,
    {
        let r = RepoHints {
            image: default_image(),
            ports: Vec::new(),
            setup: None,
            env: Vec::new(),
            extra_commands: Vec::new(),
            anonymous_volumes: default_anonymous_volumes(),
            shared: None,
        };
        proof {
            assert(r.ports@ =~= Seq::<u16>::empty());
            assert(r.env@ =~= Seq::<(String, String)>::empty());
            assert(r.extra_commands@ =~= Seq::<String>::empty());
        }
        r
    }
}


/// A path with its trailing slashes removed.
pub open spec fn strip_trailing_slashes(p: Seq<char>) -> Seq<char>
    decreases p.len(),
{
    if p.len() > 0 && p[p.len() - 1] == '/' {
        strip_trailing_slashes(p.drop_last())
    } else {
        p
    }
}

/// The characters after the last slash.
pub open spec fn after_last_slash(p: Seq<char>) -> Seq<char>
    decreases p.len(),
{
    if p.len() == 0 {
        Seq::empty()
    } else if p[p.len() - 1] == '/' {
        Seq::empty()
    } else {
        after_last_slash(p.drop_last()).push(p[p.len() - 1])
    }
}

/// The short repo name a directory path denotes: its last component, or
/// "repo" when the path has none.
pub open spec fn repo_name_seq(p: Seq<char>) -> Seq<char> {
    let c = after_last_slash(strip_trailing_slashes(p));
    if c.len() == 0 {
        "repo"@
    } else {
        c
    }
}

proof fn lemma_after_last_slash(q: Seq<char>, s: int)
    requires
        0 <= s <= q.len(),
        forall|j: int| s <= j < q.len() ==> q[j] != '/',
        s == 0 || q[s - 1] == '/',
    ensures
        after_last_slash(q) == q.subrange(s, q.len() as int),
    decreases q.len(),
{
    if s == q.len() {
        if q.len() == 0 {
            assert(after_last_slash(q) =~= q.subrange(s, q.len() as int));
        } else {
            assert(q[q.len() - 1] == '/');
            assert(after_last_slash(q) =~= q.subrange(s, q.len() as int));
        }
    } else {
        assert(q[q.len() - 1] != '/');
        let d = q.drop_last();
        assert(forall|j: int| 0 <= j < d.len() ==> #[trigger] d[j] == q[j]);
        lemma_after_last_slash(d, s);
        assert(d.subrange(s, d.len() as int) =~= q.subrange(s, q.len() - 1));
        assert(after_last_slash(q) =~= q.subrange(s, q.len() - 1).push(q[q.len() - 1]));
        assert(q.subrange(s, q.len() - 1).push(q[q.len() - 1]) =~= q.subrange(
            s,
            q.len() as int,
        ));
    }
}

/// Derive a short repo name from a directory path:
/// "/Users/dev/code/lightfast" gives "lightfast".
pub fn derive_repo_name(path: &str) -> (r: String)
    ensures
        r@ == repo_name_seq(path@),
{
    let cs = str_to_chars(path);
    let mut end = cs.len();
    proof {
        assert(path@.take(cs.len() as int) =~= path@);
    }
    while end > 0 && cs[end - 1] == '/'
        invariant
            end <= cs.len(),
            cs@ == path@,
            strip_trailing_slashes(path@) == strip_trailing_slashes(path@.take(end as int)),
        decreases end,
    {
        proof {
            let t = path@.take(end as int);
            assert(t[t.len() - 1] == '/');
            assert(t.drop_last() =~= path@.take(end - 1));
        }
        end = end - 1;
    }
    let ghost q = path@.take(end as int);
    proof {
        if end > 0 {
            assert(q[q.len() - 1] == path@[end - 1]);
        }
        assert(strip_trailing_slashes(q) == q);
        assert(strip_trailing_slashes(path@) == q);
    }
    let mut start = end;
    while start > 0 && cs[start - 1] != '/'
        invariant
            start <= end,
            end <= cs.len(),
            cs@ == path@,
            forall|j: int| start <= j < end ==> path@[j] != '/',
        decreases start,
    {
        start = start - 1;
    }
    proof {
        assert(forall|j: int| start <= j < q.len() ==> q[j] == path@[j]);
        lemma_after_last_slash(q, start as int);
    }
    if start == end {
        proof {
            assert(q.subrange(start as int, q.len() as int).len() == 0);
        }
        return String::from_str("repo");
    }
    let mut out: Vec<char> = Vec::new();
    let mut i: usize = start;
    while i < end
        invariant
            start <= i <= end,
            end <= cs.len(),
            cs@ == path@,
            out@ == path@.subrange(start as int, i as int),
        decreases end - i,
    {
        out.push(cs[i]);
        i = i + 1;
        proof {
            assert(out@ =~= path@.subrange(start as int, i as int));
        }
    }
    proof {
        assert(q.subrange(start as int, q.len() as int) =~= path@.subrange(
            start as int,
            end as int,
        ));
        assert(out@ == repo_name_seq(path@));
    }
    string_of(&out)
}

} // verus!
