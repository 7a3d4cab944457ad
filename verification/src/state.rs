//! The workspace registry: an ordered collection of (repo, branch) entries
//! with a uniqueness invariant. Durable persistence lives in `persist` (the
//! document format) and `durable` (the atomic-write model); reading and
//! writing the actual file is left to unverified callers.

use vstd::prelude::*;

use crate::config;
use crate::strutil::{dec_digits, push_decimal, push_str_chars, str_eq, str_to_chars, string_of};

verus! {

/// The mathematical value of one workspace entry.
pub ghost struct EntryModel {
    pub repo: Seq<char>,
    pub url: Seq<char>,
    pub branch: Seq<char>,
    pub path: Option<Seq<char>>,
}

/// The mathematical value of the whole registry.
pub ghost struct StateModel {
    pub root: Option<Seq<char>>,
    pub entries: Seq<EntryModel>,
}

/// One registered workspace: a (repo, branch) pair with its source URL and,
/// for a user-managed clone, an explicit directory.
#[derive(Debug)]
pub struct WorkspaceEntry {
    /// Short repo name (e.g. "lightfast")
    pub repo: String,
    /// Git URL or local path
    pub url: String,
    /// Branch name (e.g. "main", "feat/auth")
    pub branch: String,
    /// Explicit path to the workspace directory (a user's existing clone).
    /// If None, the workspace lives at {workspace_root}/{repo}/{encoded branch}/
    /// and is cloned on first launch.
    pub path: Option<String>,
}

impl View for WorkspaceEntry {
    type V = EntryModel;

    open spec fn view(&self) -> EntryModel {
        EntryModel {
            repo: self.repo@,
            url: self.url@,
            branch: self.branch@,
            path: match self.path {
                Some(p) => Some(p@),
                None => None,
            },
        }
    }
}

impl WorkspaceEntry {
    /// A field-by-field copy of the entry.
    pub fn duplicate(&self) -> (r: WorkspaceEntry)
        ensures
            r@ == self@,
    {
        WorkspaceEntry {
            repo: self.repo.clone(),
            url: self.url.clone(),
            branch: self.branch.clone(),
            path: match &self.path {
                Some(p) => Some(p.clone()),
                None => None,
            },
        }
    }
}

/// Equality of two optional strings, by their character sequences.
pub fn opt_string_eq(a: &Option<String>, b: &Option<String>) -> (r: bool)
    ensures
        r == (match (a, b) {
            (Some(x), Some(y)) => x@ == y@,
            (None, None) => true,
            _ => false,
        }),
{
    match (a, b) {
        (Some(x), Some(y)) => str_eq(x.as_str(), y.as_str()),
        (None, None) => true,
        _ => false,
    }
}

impl PartialEq for WorkspaceEntry {
    fn eq(&self, other: &WorkspaceEntry) -> (r: bool) {
        let fields = str_eq(self.repo.as_str(), other.repo.as_str()) && str_eq(
            self.url.as_str(),
            other.url.as_str(),
        ) && str_eq(self.branch.as_str(), other.branch.as_str()) && opt_string_eq(
            &self.path,
            &other.path,
        );
        proof {
            if fields {
                assert(self@ == other@);
            } else {
                assert(self@ != other@);
            }
        }
        fields
    }
}

impl vstd::std_specs::cmp::PartialEqSpecImpl for WorkspaceEntry {
    open spec fn obeys_eq_spec() -> bool {
        true
    }

    open spec fn eq_spec(&self, other: &WorkspaceEntry) -> bool {
        self@ == other@
    }
}

/// The registry: the configured workspace root plus the ordered entries.
#[derive(Debug)]
pub struct WorkspaceState {
    /// Root directory for all workspace clones (default: ~/.dual/workspaces)
    pub workspace_root: Option<String>,
    /// Active workspace entries
    pub workspaces: Vec<WorkspaceEntry>,
}

impl View for WorkspaceState {
    type V = StateModel;

    open spec fn view(&self) -> StateModel {
        StateModel {
            root: match self.workspace_root {
                Some(r) => Some(r@),
                None => None,
            },
            entries: self.workspaces@.map_values(|e: WorkspaceEntry| e@),
        }
    }
}

impl PartialEq for WorkspaceState {
    fn eq(&self, other: &WorkspaceState) -> (r: bool) {
        let root_eq = opt_string_eq(&self.workspace_root, &other.workspace_root);
        if !root_eq {
            proof {
                assert(self@.root != other@.root);
            }
            return false;
        }
        if self.workspaces.len() != other.workspaces.len() {
            proof {
                assert(self@.entries.len() != other@.entries.len());
            }
            return false;
        }
        let n = self.workspaces.len();
        let mut i: usize = 0;
        while i < n
            invariant
                i <= n,
                n == self.workspaces.len(),
                n == other.workspaces.len(),
                forall|j: int| 0 <= j < i ==> self@.entries[j] == other@.entries[j],
        decreases n - i,
        {
            let a = &self.workspaces[i];
            let b = &other.workspaces[i];
            proof {
                assert(self@.entries[i as int] == a@);
                assert(other@.entries[i as int] == b@);
            }
            if !(*a == *b) {
                proof {
                    assert(self@.entries[i as int] != other@.entries[i as int]);
                }
                return false;
            }
            i = i + 1;
        }
        proof {
            assert(self@.entries =~= other@.entries);
            assert(self@ == other@);
        }
        true
    }
}

impl vstd::std_specs::cmp::PartialEqSpecImpl for WorkspaceState {
    open spec fn obeys_eq_spec() -> bool {
        true
    }

    open spec fn eq_spec(&self, other: &WorkspaceState) -> bool {
        self@ == other@
    }
}

/// Does the entry sequence contain an entry with this (repo, branch) key?
pub open spec fn has_key(s: Seq<EntryModel>, repo: Seq<char>, branch: Seq<char>) -> bool {
    exists|i: int| 0 <= i < s.len() && (#[trigger] s[i]).repo == repo && s[i].branch == branch
}

/// The entry sequence with every entry of this (repo, branch) key removed.
pub open spec fn remove_key(s: Seq<EntryModel>, repo: Seq<char>, branch: Seq<char>) -> Seq<
    EntryModel,
>
    decreases s.len(),
{
    if s.len() == 0 {
        Seq::empty()
    } else if s[0].repo == repo && s[0].branch == branch {
        remove_key(s.skip(1), repo, branch)
    } else {
        seq![s[0]] + remove_key(s.skip(1), repo, branch)
    }
}

/// The first entry whose workspace identifier matches, if any.
pub open spec fn resolve_model(s: Seq<EntryModel>, id: Seq<char>) -> Option<EntryModel>
    decreases s.len(),
{
    if s.len() == 0 {
        None
    } else if config::id_seq(s[0].repo, s[0].branch) == id {
        Some(s[0])
    } else {
        resolve_model(s.skip(1), id)
    }
}

/// The entries of one repo, in registry order.
pub open spec fn entries_for_repo(s: Seq<EntryModel>, repo: Seq<char>) -> Seq<EntryModel>
    decreases s.len(),
{
    if s.len() == 0 {
        Seq::empty()
    } else if s[0].repo == repo {
        seq![s[0]] + entries_for_repo(s.skip(1), repo)
    } else {
        entries_for_repo(s.skip(1), repo)
    }
}

/// No two entries of the sequence share a (repo, branch) key.
pub open spec fn no_dup_keys(s: Seq<EntryModel>) -> bool {
    forall|i: int, j: int|
        0 <= i < j < s.len() ==> !((#[trigger] s[i]).repo == (#[trigger] s[j]).repo && s[i].branch
            == s[j].branch)
}

/// Errors of registry operations and of reading the durable document.
#[derive(Debug)]
pub enum StateError {
    /// The durable document is malformed; carries the offending line number
    /// (counting from one).
    ParseError(usize),
    /// An entry of the durable document has an empty required field.
    Validation(String),
    /// The (repo, branch) pair is already registered.
    DuplicateWorkspace(String, String),
}

impl WorkspaceState {
    /// The uniqueness invariant: all (repo, branch) keys are distinct.
    pub open spec fn wf(&self) -> bool {
        no_dup_keys(self@.entries)
    }

    /// Create a new empty registry.
    pub fn new() -> (r: Self)
        ensures
            r@.root is None,
            r@.entries == Seq::<EntryModel>::empty(),
            r.wf(),
    {
        let r = WorkspaceState { workspace_root: None, workspaces: Vec::new() };
        proof {
            assert(r@.entries =~= Seq::<EntryModel>::empty());
        }
        r
    }

    /// Check if a workspace entry exists for repo + branch.
    pub fn has_workspace(&self, repo: &str, branch: &str) -> (r: bool)
        ensures
            r == has_key(self@.entries, repo@, branch@),
    {
        let n = self.workspaces.len();
        let mut i: usize = 0;
        while i < n
            invariant
                i <= n,
                n == self.workspaces.len(),
                forall|j: int|
                    0 <= j < i ==> !((#[trigger] self@.entries[j]).repo == repo@
                        && self@.entries[j].branch == branch@),
            decreases n - i,
        {
            let e = &self.workspaces[i];
            proof {
                assert(self@.entries[i as int] == e@);
            }
            if str_eq(e.repo.as_str(), repo) && str_eq(e.branch.as_str(), branch) {
                proof {
                    assert((self@.entries[i as int]).repo == repo@ && self@.entries[
                        i as int
                    ].branch == branch@);
                }
                return true;
            }
            i = i + 1;
        }
        false
    }

    /// Add a workspace entry. Fails with DuplicateWorkspace, leaving the
    /// registry unchanged, if the (repo, branch) pair is already present;
    /// otherwise appends, preserving insertion order.
    pub fn add_workspace(&mut self, entry: WorkspaceEntry) -> (r: Result<(), StateError>)
        ensures
            has_key(old(self)@.entries, entry@.repo, entry@.branch) ==> {
                &&& final(self)@ == old(self)@
                &&& match r {
                    Err(StateError::DuplicateWorkspace(re, br)) => re@ == entry@.repo && br@
                        == entry@.branch,
                    _ => false,
                }
            },
            !has_key(old(self)@.entries, entry@.repo, entry@.branch) ==> {
                &&& r is Ok
                &&& final(self)@.root == old(self)@.root
                &&& final(self)@.entries == old(self)@.entries.push(entry@)
            },
            old(self).wf() ==> final(self).wf(),
    {
        if self.has_workspace(entry.repo.as_str(), entry.branch.as_str()) {
            return Err(StateError::DuplicateWorkspace(entry.repo.clone(), entry.branch.clone()));
        }
        let ghost prior = self@.entries;
        self.workspaces.push(entry);
        proof {
            assert(self@.entries =~= prior.push(entry@));
        }
        Ok(())
    }

    /// Remove every workspace entry with this repo + branch key.
    /// Returns true if one was found.
    pub fn remove_workspace(&mut self, repo: &str, branch: &str) -> (r: bool)
        ensures
            r == has_key(old(self)@.entries, repo@, branch@),
            final(self)@.root == old(self)@.root,
            final(self)@.entries == remove_key(old(self)@.entries, repo@, branch@),
            old(self).wf() ==> final(self).wf(),
    {
        let ghost whole = self@.entries;
        let n = self.workspaces.len();
        let mut kept: Vec<WorkspaceEntry> = Vec::new();
        let mut found = false;
        let mut i: usize = 0;
        proof {
            assert(whole.skip(0) =~= whole);
        }
        while i < n
            invariant
                i <= n,
                n == self.workspaces.len(),
                whole == self@.entries,
                remove_key(whole, repo@, branch@) == kept@.map_values(|e: WorkspaceEntry| e@)
                    + remove_key(whole.skip(i as int), repo@, branch@),
                found == has_key(whole.take(i as int), repo@, branch@),
            decreases n - i,
        {
            let ghost rest = whole.skip(i as int);
            let ghost t1 = whole.take(i as int);
            let ghost t2 = whole.take(i + 1);
            let e = &self.workspaces[i];
            proof {
                assert(self@.entries[i as int] == e@);
                assert(rest[0] == whole[i as int]);
                assert(rest.skip(1) =~= whole.skip(i + 1));
                assert(forall|j: int| 0 <= j < t1.len() ==> #[trigger] t2[j] == t1[j]);
                assert(t2[i as int] == whole[i as int]);
            }
            if str_eq(e.repo.as_str(), repo) && str_eq(e.branch.as_str(), branch) {
                found = true;
                proof {
                    assert(has_key(t2, repo@, branch@)) by {
                        assert((t2[i as int]).repo == repo@ && t2[i as int].branch == branch@);
                    }
                }
            } else {
                let ghost kept_before = kept@.map_values(|e: WorkspaceEntry| e@);
                kept.push(e.duplicate());
                proof {
                    assert(kept@.map_values(|e: WorkspaceEntry| e@) =~= kept_before.push(
                        whole[i as int],
                    ));
                    assert(remove_key(rest, repo@, branch@) =~= seq![whole[i as int]] + remove_key(
                        whole.skip(i + 1),
                        repo@,
                        branch@,
                    ));
                    assert(kept_before + remove_key(rest, repo@, branch@) =~= kept_before.push(
                        whole[i as int],
                    ) + remove_key(whole.skip(i + 1), repo@, branch@));
                    assert(has_key(t2, repo@, branch@) == has_key(t1, repo@, branch@)) by {
                        if has_key(t1, repo@, branch@) {
                            let j = choose|j: int|
                                0 <= j < t1.len() && (#[trigger] t1[j]).repo == repo@
                                    && t1[j].branch == branch@;
                            assert((t2[j]).repo == repo@ && t2[j].branch == branch@);
                        }
                        if has_key(t2, repo@, branch@) {
                            let j = choose|j: int|
                                0 <= j < t2.len() && (#[trigger] t2[j]).repo == repo@
                                    && t2[j].branch == branch@;
                            if j < i {
                                assert((t1[j]).repo == repo@ && t1[j].branch == branch@);
                            } else {
                                assert(t2[j] == whole[i as int]);
                            }
                        }
                    }
                }
            }
            i = i + 1;
        }
        proof {
            assert(whole.take(n as int) =~= whole);
            assert(whole.skip(n as int) =~= Seq::<EntryModel>::empty());
            assert(remove_key(whole.skip(n as int), repo@, branch@) =~= Seq::<EntryModel>::empty());
            assert(kept@.map_values(|e: WorkspaceEntry| e@) + remove_key(
                whole.skip(n as int),
                repo@,
                branch@,
            ) =~= kept@.map_values(|e: WorkspaceEntry| e@));
        }
        self.workspaces = kept;
        proof {
            lemma_remove_key_wf(whole, repo@, branch@);
        }
        found
    }

    /// Find a workspace entry by identifier (e.g. "lightfast-main").
    pub fn resolve_workspace(&self, identifier: &str) -> (r: Option<&WorkspaceEntry>)
        ensures
            match r {
                Some(e) => resolve_model(self@.entries, identifier@) == Some(e@),
                None => resolve_model(self@.entries, identifier@) is None,
            },
    {
        let ghost whole = self@.entries;
        let n = self.workspaces.len();
        let mut i: usize = 0;
        proof {
            assert(whole.skip(0) =~= whole);
        }
        while i < n
            invariant
                i <= n,
                n == self.workspaces.len(),
                whole == self@.entries,
                resolve_model(whole, identifier@) == resolve_model(
                    whole.skip(i as int),
                    identifier@,
                ),
            decreases n - i,
        {
            let ghost rest = whole.skip(i as int);
            let e = &self.workspaces[i];
            let id = config::workspace_id(e.repo.as_str(), e.branch.as_str());
            proof {
                assert(rest[0] == whole[i as int]);
                assert(rest.skip(1) =~= whole.skip(i + 1));
            }
            if str_eq(id.as_str(), identifier) {
                return Some(e);
            }
            i = i + 1;
        }
        proof {
            assert(whole.skip(n as int) =~= Seq::<EntryModel>::empty());
        }
        None
    }

    /// Get all workspace entries.
    pub fn all_workspaces(&self) -> (r: &Vec<WorkspaceEntry>)
        ensures
            r@.map_values(|e: WorkspaceEntry| e@) == self@.entries,
    {
        &self.workspaces
    }

    /// Find all workspaces for a given repo name, preserving order.
    pub fn workspaces_for_repo(&self, repo: &str) -> (r: Vec<WorkspaceEntry>)
        ensures
            r@.map_values(|e: WorkspaceEntry| e@) == entries_for_repo(self@.entries, repo@),
    {
        let ghost whole = self@.entries;
        let n = self.workspaces.len();
        let mut out: Vec<WorkspaceEntry> = Vec::new();
        let mut i: usize = 0;
        proof {
            assert(whole.skip(0) =~= whole);
            assert(out@.map_values(|e: WorkspaceEntry| e@) =~= Seq::<EntryModel>::empty());
        }
        while i < n
            invariant
                i <= n,
                n == self.workspaces.len(),
                whole == self@.entries,
                entries_for_repo(whole, repo@) == out@.map_values(|e: WorkspaceEntry| e@)
                    + entries_for_repo(whole.skip(i as int), repo@),
            decreases n - i,
        {
            let ghost rest = whole.skip(i as int);
            let ghost out_before = out@.map_values(|e: WorkspaceEntry| e@);
            let e = &self.workspaces[i];
            proof {
                assert(rest[0] == whole[i as int]);
                assert(rest.skip(1) =~= whole.skip(i + 1));
            }
            if str_eq(e.repo.as_str(), repo) {
                out.push(e.duplicate());
                proof {
                    assert(out@.map_values(|e: WorkspaceEntry| e@) =~= out_before.push(
                        whole[i as int],
                    ));
                    assert(entries_for_repo(rest, repo@) =~= seq![whole[i as int]]
                        + entries_for_repo(whole.skip(i + 1), repo@));
                    assert(out_before + entries_for_repo(rest, repo@) =~= out_before.push(
                        whole[i as int],
                    ) + entries_for_repo(whole.skip(i + 1), repo@));
                }
            }
            i = i + 1;
        }
        proof {
            assert(whole.skip(n as int) =~= Seq::<EntryModel>::empty());
            assert(out@.map_values(|e: WorkspaceEntry| e@) + entries_for_repo(
                whole.skip(n as int),
                repo@,
            ) =~= out@.map_values(|e: WorkspaceEntry| e@));
        }
        out
    }
}

impl Default for WorkspaceState {
    fn default() -> (r: Self)
        ensures
            r@.root is None,
            r@.entries == Seq::<EntryModel>::empty(),
            r.wf(),
    {
        WorkspaceState::new()
    }
}

/// Removing a key keeps only entries of the input sequence, in order,
/// so it keeps the uniqueness of keys.
proof fn lemma_remove_key_wf(s: Seq<EntryModel>, repo: Seq<char>, branch: Seq<char>)
    ensures
        forall|x: EntryModel| remove_key(s, repo, branch).contains(x) ==> s.contains(x),
        no_dup_keys(s) ==> no_dup_keys(remove_key(s, repo, branch)),
    decreases s.len(),
{
    if s.len() == 0 {
    } else {
        let tail = s.skip(1);
        lemma_remove_key_wf(tail, repo, branch);
        assert(forall|k: int| 0 <= k < tail.len() ==> #[trigger] tail[k] == s[k + 1]);
        let r = remove_key(s, repo, branch);
        let rr = remove_key(tail, repo, branch);
        assert(forall|x: EntryModel| tail.contains(x) ==> s.contains(x)) by {
            assert(forall|x: EntryModel| #[trigger] tail.contains(x) ==> exists|k: int|
                0 <= k < tail.len() && tail[k] == x);
            assert(forall|k: int| 0 <= k < tail.len() ==> s[k + 1] == tail[k]);
        }
        if s[0].repo == repo && s[0].branch == branch {
            assert(r == rr);
        } else {
            assert(r =~= seq![s[0]] + rr);
            assert(r[0] == s[0]);
            assert(forall|k: int| 0 <= k < rr.len() ==> #[trigger] r[k + 1] == rr[k]);
            assert(forall|x: EntryModel| r.contains(x) ==> s.contains(x)) by {
                assert(forall|x: EntryModel| #[trigger] r.contains(x) ==> x == s[0]
                    || rr.contains(x));
                assert(s.contains(s[0]));
            }
            if no_dup_keys(s) {
                assert(no_dup_keys(tail)) by {
                    assert(forall|i: int, j: int|
                        0 <= i < j < tail.len() ==> tail[i] == s[i + 1] && tail[j] == s[j + 1]);
                }
                assert(no_dup_keys(r)) by {
                    assert(forall|j: int|
                        1 <= j < r.len() ==> rr.contains(#[trigger] r[j])) by {
                        assert(forall|j: int| 1 <= j < r.len() ==> r[j] == rr[j - 1]);
                    }
                    assert(forall|x: EntryModel|
                        #[trigger] rr.contains(x) ==> !(x.repo == s[0].repo && x.branch
                            == s[0].branch)) by {
                        assert(forall|x: EntryModel| #[trigger] rr.contains(x) ==> tail.contains(
                            x,
                        ));
                        assert(forall|k: int|
                            0 <= k < tail.len() ==> !((#[trigger] s[k + 1]).repo == s[0].repo && s[
                                k + 1
                            ].branch == s[0].branch));
                        assert(forall|k: int|
                            0 <= k < tail.len() ==> !((#[trigger] tail[k]).repo == s[0].repo
                                && tail[k].branch == s[0].branch));
                        assert(forall|x: EntryModel|
                            #[trigger] tail.contains(x) ==> !(x.repo == s[0].repo && x.branch
                                == s[0].branch));
                    }
                }
            }
        }
    }
}


/// The view of an optional string slice.
pub open spec fn opt_str_view(o: Option<&str>) -> Option<Seq<char>> {
    match o {
        Some(s) => Some(s@),
        None => None,
    }
}

/// Minimal `~` expansion: a leading `~/` becomes the home directory,
/// when one is known.
pub open spec fn expand_seq(p: Seq<char>, home: Option<Seq<char>>) -> Seq<char> {
    if p.len() >= 2 && p[0] == '~' && p[1] == '/' && home is Some {
        home.unwrap() + seq!['/'] + p.skip(2)
    } else {
        p
    }
}

/// Minimal ~ expansion for workspace_root paths.
pub fn shellexpand(path: &str, home: Option<&str>) -> (r: String)
    ensures
        r@ == expand_seq(path@, opt_str_view(home)),
{
    let cs = str_to_chars(path);
    match home {
        Some(h) => {
            if cs.len() >= 2 && cs[0] == '~' && cs[1] == '/' {
                let mut out: Vec<char> = Vec::new();
                push_str_chars(&mut out, h);
                out.push('/');
                let n = cs.len();
                let mut i: usize = 2;
                while i < n
                    invariant
                        2 <= i <= n,
                        n == cs.len(),
                        cs@ == path@,
                        out@ == h@ + seq!['/'] + path@.subrange(2, i as int),
                    decreases n - i,
                {
                    out.push(cs[i]);
                    i = i + 1;
                    proof {
                        assert(out@ =~= h@ + seq!['/'] + path@.subrange(2, i as int));
                    }
                }
                proof {
                    assert(path@.subrange(2, n as int) =~= path@.skip(2));
                }
                string_of(&out)
            } else {
                path.to_owned()
            }
        },
        None => path.to_owned(),
    }
}

/// The resolved workspace root: the configured value, `~`-expanded, or the
/// default `{home}/.dual/workspaces`.
pub open spec fn root_seq(m: StateModel, home: Option<Seq<char>>) -> Seq<char> {
    match m.root {
        Some(r) => expand_seq(r, home),
        None => (match home {
            Some(h) => h,
            None => "."@,
        }) + seq!['/'] + ".dual/workspaces"@,
    }
}

/// The directory of one workspace: its explicit path, `~`-expanded, or the
/// computed spot under the workspace root.
pub open spec fn entry_dir_seq(m: StateModel, e: EntryModel, home: Option<Seq<char>>) -> Seq<
    char,
> {
    match e.path {
        Some(p) => expand_seq(p, home),
        None => config::workspace_dir_seq(root_seq(m, home), e.repo, e.branch),
    }
}

impl WorkspaceState {
    /// Resolve the workspace root directory.
    /// Uses the configured value or defaults to {home}/.dual/workspaces.
    pub fn workspace_root(&self, home: Option<&str>) -> (r: String)
        ensures
            r@ == root_seq(self@, opt_str_view(home)),
    {
        match &self.workspace_root {
            Some(root) => shellexpand(root.as_str(), home),
            None => {
                let mut out: Vec<char> = Vec::new();
                match home {
                    Some(h) => push_str_chars(&mut out, h),
                    None => push_str_chars(&mut out, "."),
                }
                out.push('/');
                push_str_chars(&mut out, ".dual/workspaces");
                proof {
                    assert(out@ =~= root_seq(self@, opt_str_view(home)));
                }
                string_of(&out)
            },
        }
    }

    /// Get the workspace directory for an entry.
    /// Uses the explicit path if set, otherwise computes it from the root.
    pub fn workspace_dir(&self, entry: &WorkspaceEntry, home: Option<&str>) -> (r: String)
        ensures
            r@ == entry_dir_seq(self@, entry@, opt_str_view(home)),
    {
        match &entry.path {
            Some(p) => shellexpand(p.as_str(), home),
            None => {
                let root = self.workspace_root(home);
                config::workspace_dir(root.as_str(), entry.repo.as_str(), entry.branch.as_str())
            },
        }
    }
}


/// An entry is valid when its required fields are non-empty.
pub open spec fn valid_entry(e: EntryModel) -> bool {
    e.repo.len() > 0 && e.url.len() > 0 && e.branch.len() > 0
}

/// The position of the first entry with an empty required field, if any.
pub open spec fn first_invalid(s: Seq<EntryModel>) -> Option<int>
    decreases s.len(),
{
    if s.len() == 0 {
        None
    } else if !valid_entry(s[0]) {
        Some(0)
    } else {
        match first_invalid(s.skip(1)) {
            None => None,
            Some(k) => Some(k + 1),
        }
    }
}

/// The message reported for an invalid entry.
pub open spec fn validation_msg(s: Seq<EntryModel>, i: int) -> Seq<char> {
    if s[i].repo.len() == 0 {
        "workspaces["@ + dec_digits(i as nat) + "]: 'repo' cannot be empty"@
    } else if s[i].url.len() == 0 {
        "workspaces["@ + dec_digits(i as nat) + "] ("@ + s[i].repo + "): 'url' cannot be empty"@
    } else {
        "workspaces["@ + dec_digits(i as nat) + "] ("@ + s[i].repo
            + "): 'branch' cannot be empty"@
    }
}

proof fn lemma_first_invalid_at(s: Seq<EntryModel>, i: int)
    requires
        0 <= i < s.len(),
        forall|j: int| 0 <= j < i ==> valid_entry(#[trigger] s[j]),
        !valid_entry(s[i]),
    ensures
        first_invalid(s) == Some(i),
    decreases i,
{
    if i == 0 {
    } else {
        let tail = s.skip(1);
        assert(forall|j: int| 0 <= j < tail.len() ==> #[trigger] tail[j] == s[j + 1]);
        lemma_first_invalid_at(tail, i - 1);
    }
}

proof fn lemma_first_invalid_none(s: Seq<EntryModel>)
    requires
        forall|j: int| 0 <= j < s.len() ==> valid_entry(#[trigger] s[j]),
    ensures
        first_invalid(s) is None,
    decreases s.len(),
{
    if s.len() > 0 {
        let tail = s.skip(1);
        assert(forall|j: int| 0 <= j < tail.len() ==> #[trigger] tail[j] == s[j + 1]);
        lemma_first_invalid_none(tail);
    }
}

/// Check that every entry has non-empty repo, url and branch; report the
/// first offender.
pub fn validate(state: &WorkspaceState) -> (r: Result<(), StateError>)
    ensures
        match r {
            Ok(()) => first_invalid(state@.entries) is None,
            Err(StateError::Validation(m)) => match first_invalid(state@.entries) {
                Some(i) => m@ == validation_msg(state@.entries, i),
                None => false,
            },
            Err(_) => false,
        },
{
    let ghost entries = state@.entries;
    let n = state.workspaces.len();
    let mut i: usize = 0;
    while i < n
        invariant
            i <= n,
            n == state.workspaces.len(),
            entries == state@.entries,
            forall|j: int| 0 <= j < i ==> valid_entry(#[trigger] entries[j]),
        decreases n - i,
    {
        let e = &state.workspaces[i];
        proof {
            assert(entries[i as int] == e@);
        }
        let repo_empty = e.repo.as_str().unicode_len() == 0;
        let url_empty = e.url.as_str().unicode_len() == 0;
        let branch_empty = e.branch.as_str().unicode_len() == 0;
        if repo_empty || url_empty || branch_empty {
            proof {
                lemma_first_invalid_at(entries, i as int);
            }
            let mut msg: Vec<char> = Vec::new();
            push_str_chars(&mut msg, "workspaces[");
            push_decimal(&mut msg, i as u64);
            if repo_empty {
                push_str_chars(&mut msg, "]: 'repo' cannot be empty");
            } else {
                push_str_chars(&mut msg, "] (");
                push_str_chars(&mut msg, e.repo.as_str());
                if url_empty {
                    push_str_chars(&mut msg, "): 'url' cannot be empty");
                } else {
                    push_str_chars(&mut msg, "): 'branch' cannot be empty");
                }
            }
            proof {
                assert(msg@ =~= validation_msg(entries, i as int));
            }
            return Err(StateError::Validation(string_of(&msg)));
        }
        i = i + 1;
    }
    proof {
        lemma_first_invalid_none(entries);
    }
    Ok(())
}

} // verus!
