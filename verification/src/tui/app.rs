//! The workspace browser's model: the registry grouped by repo, a cursor,
//! and the flattened display list. Terminal rendering and key handling are
//! left to the unverified front end, which drives this model.

use vstd::prelude::*;
use vstd::string::*;

use crate::config;
use crate::container::ContainerStatus;
use crate::state::{EntryModel, WorkspaceState};
use crate::strutil::{push_str_chars, str_eq, string_of};

verus! {

/// What the live system reports about one workspace: whether its terminal
/// session is alive, what the container backend says, and whether a clone
/// exists on disk.
#[derive(Debug, Clone, Copy)]
pub struct WorkspaceProbe {
    pub tmux_alive: bool,
    pub container: ContainerStatus,
    pub clone_exists: bool,
}

/// The browser's verdict for one workspace.
#[derive(Debug, Clone, Copy, PartialEq, Eq, Structural)]
pub enum WorkspaceStatus {
    /// The terminal session is alive.
    Running,
    /// The container is stopped, or a clone exists.
    Stopped,
    /// Not cloned yet.
    Lazy,
}

/// The status shown for one probe: running if the session is alive, stopped
/// if the container is stopped or a clone exists, lazy otherwise.
pub open spec fn status_of(p: WorkspaceProbe) -> WorkspaceStatus {
    if p.tmux_alive {
        WorkspaceStatus::Running
    } else if p.container == ContainerStatus::Stopped || p.clone_exists {
        WorkspaceStatus::Stopped
    } else {
        WorkspaceStatus::Lazy
    }
}

/// One branch row of a repo group.
#[derive(Debug)]
pub struct WorkspaceItem {
    pub branch: String,
    pub workspace_id: String,
    pub status: WorkspaceStatus,
}

/// One repo with its branch workspaces.
#[derive(Debug)]
pub struct RepoGroup {
    pub name: String,
    pub workspaces: Vec<WorkspaceItem>,
    pub expanded: bool,
}

/// A single row of the flattened display list.
#[derive(Debug)]
pub struct DisplayItem {
    /// Text to show
    pub display: String,
    /// Workspace status (None = repo header)
    pub status: Option<WorkspaceStatus>,
    /// Workspace id if this is a branch row
    pub workspace_id: Option<String>,
}

/// The workspace browser.
#[derive(Debug)]
pub struct App {
    pub repos: Vec<RepoGroup>,
    pub selected: usize,
    pub item_count: usize,
}

// ---------------------------------------------------------------------------
// The grouping model
// ---------------------------------------------------------------------------
/// The repo names in order of first appearance, given the names already
/// seen.
pub open spec fn names_rec(s: Seq<EntryModel>, seen: Seq<Seq<char>>) -> Seq<Seq<char>>
    decreases s.len(),
{
    if s.len() == 0 {
        Seq::empty()
    } else if seen.contains(s[0].repo) {
        names_rec(s.skip(1), seen)
    } else {
        seq![s[0].repo] + names_rec(s.skip(1), seen.push(s[0].repo))
    }
}

/// The distinct repo names, in order of first appearance.
pub open spec fn unique_names(s: Seq<EntryModel>) -> Seq<Seq<char>> {
    names_rec(s, Seq::empty())
}

/// The rows of one repo: branch, workspace id, and status, in registry
/// order, with the probes aligned to the registry entries.
pub open spec fn items_for_repo(
    ws: Seq<EntryModel>,
    probes: Seq<WorkspaceProbe>,
    repo: Seq<char>,
) -> Seq<(Seq<char>, Seq<char>, WorkspaceStatus)>
    decreases ws.len(),
{
    if ws.len() == 0 || probes.len() == 0 {
        Seq::empty()
    } else if ws[0].repo == repo {
        seq![(ws[0].branch, config::id_seq(ws[0].repo, ws[0].branch), status_of(probes[0]))]
            + items_for_repo(ws.skip(1), probes.skip(1), repo)
    } else {
        items_for_repo(ws.skip(1), probes.skip(1), repo)
    }
}

/// The number of rows a group list shows: one header per group plus the
/// rows of each expanded group.
pub open spec fn count_spec(gs: Seq<RepoGroup>) -> int
    decreases gs.len(),
{
    if gs.len() == 0 {
        0int
    } else {
        1 + (if gs[0].expanded {
            gs[0].workspaces@.len() as int
        } else {
            0int
        }) + count_spec(gs.skip(1))
    }
}

/// The number of rows when every group is expanded; an upper bound that
/// toggling cannot pass.
pub open spec fn count_all(gs: Seq<RepoGroup>) -> int
    decreases gs.len(),
{
    if gs.len() == 0 {
        0int
    } else {
        1 + gs[0].workspaces@.len() as int + count_all(gs.skip(1))
    }
}

proof fn lemma_count_snoc(gs: Seq<RepoGroup>, g: RepoGroup)
    ensures
        count_spec(gs.push(g)) == count_spec(gs) + 1 + (if g.expanded {
            g.workspaces@.len() as int
        } else {
            0int
        }),
        count_all(gs.push(g)) == count_all(gs) + 1 + g.workspaces@.len(),
    decreases gs.len(),
{
    if gs.len() == 0 {
        assert(gs.push(g)[0] == g);
        assert(gs.push(g).skip(1) =~= Seq::<RepoGroup>::empty());
        assert(count_spec(Seq::<RepoGroup>::empty()) == 0);
        assert(count_all(Seq::<RepoGroup>::empty()) == 0);
    } else {
        assert(gs.push(g)[0] == gs[0]);
        assert(gs.push(g).skip(1) =~= gs.skip(1).push(g));
        lemma_count_snoc(gs.skip(1), g);
    }
}

proof fn lemma_count_fits(count: int, items_len: int, g: int, n: int)
    requires
        count <= g * (n + 1),
        0 <= items_len <= n,
        0 <= g,
        g + 1 <= n + 1,
        n < 0x8000,
    ensures
        count + 1 + items_len <= (g + 1) * (n + 1),
        (g + 1) * (n + 1) <= 0x4000_0000,
{
    assert(count + 1 + items_len <= (g + 1) * (n + 1)) by (nonlinear_arith)
        requires
            count <= g * (n + 1),
            0 <= items_len <= n,
            0 <= g,
    ;
    assert((g + 1) * (n + 1) <= 0x4000_0000) by (nonlinear_arith)
        requires
            0 <= g,
            g + 1 <= n + 1,
            n < 0x8000,
    ;
}

proof fn lemma_count_bounds(gs: Seq<RepoGroup>)
    ensures
        0 <= count_spec(gs) <= count_all(gs),
    decreases gs.len(),
{
    if gs.len() > 0 {
        lemma_count_bounds(gs.skip(1));
    }
}

impl App {
    /// The browser is consistent: the row count matches the groups, the
    /// fully expanded count fits the machine, and the cursor is in range.
    pub open spec fn wf(&self) -> bool {
        &&& self.item_count == count_spec(self.repos@)
        &&& count_all(self.repos@) <= usize::MAX as int
        &&& (self.selected < self.item_count || self.selected == 0)
    }
}

/// Does the vector contain this string?
fn vec_contains_str(v: &Vec<String>, s: &str) -> (r: bool)
    ensures
        r == v@.map_values(|x: String| x@).contains(s@),
{
    let n = v.len();
    let mut i: usize = 0;
    while i < n
        invariant
            i <= n,
            n == v.len(),
            forall|j: int| 0 <= j < i ==> (#[trigger] v@[j])@ != s@,
        decreases n - i,
    {
        if str_eq(v[i].as_str(), s) {
            proof {
                assert(v@.map_values(|x: String| x@)[i as int] == s@);
            }
            return true;
        }
        i = i + 1;
    }
    proof {
        let mapped = v@.map_values(|x: String| x@);
        assert forall|j: int| 0 <= j < mapped.len() implies mapped[j] != s@ by {
            assert(mapped[j] == v@[j]@);
        }
    }
    false
}

impl App {
    /// Build the browser from the registry and one live probe per entry,
    /// grouping workspaces by repo in order of first appearance, everything
    /// expanded, cursor at the top.
    pub fn new(state: &WorkspaceState, probes: &Vec<WorkspaceProbe>) -> (r: App)
        requires
            probes@.len() == state@.entries.len(),
            // a machine limit: the fully expanded row count must fit
            state@.entries.len() < 0x8000,
        ensures
            r.wf(),
            r.selected == 0,
            r.repos@.map_values(|g: RepoGroup| g.name@) == unique_names(state@.entries),
            forall|k: int| 0 <= k < r.repos@.len() ==> (#[trigger] r.repos@[k]).expanded,
            forall|k: int|
                0 <= k < r.repos@.len() ==> (#[trigger] r.repos@[k]).workspaces@.map_values(
                    |w: WorkspaceItem| (w.branch@, w.workspace_id@, w.status),
                ) == items_for_repo(state@.entries, probes@, r.repos@[k].name@),
            r.item_count == count_spec(r.repos@),
    {
        let ghost ws = state@.entries;
        let n = state.workspaces.len();
        // Collect unique repo names in order of first appearance.
        let mut names: Vec<String> = Vec::new();
        let mut i: usize = 0;
        proof {
            assert(ws.skip(0) =~= ws);
            assert(names@.map_values(|x: String| x@) =~= Seq::<Seq<char>>::empty());
        }
        while i < n
            invariant
                i <= n,
                n == state.workspaces.len(),
                ws == state@.entries,
                names@.len() <= i,
                unique_names(ws) == names@.map_values(|x: String| x@) + names_rec(
                    ws.skip(i as int),
                    names@.map_values(|x: String| x@),
                ),
            decreases n - i,
        {
            let ghost rest = ws.skip(i as int);
            let ghost seen = names@.map_values(|x: String| x@);
            let e = &state.workspaces[i];
            proof {
                assert(ws[i as int] == e@);
                assert(rest[0] == ws[i as int]);
                assert(rest.skip(1) =~= ws.skip(i + 1));
            }
            if !vec_contains_str(&names, e.repo.as_str()) {
                names.push(e.repo.clone());
                proof {
                    assert(names@.map_values(|x: String| x@) =~= seen.push(e@.repo));
                    assert(names_rec(rest, seen) =~= seq![e@.repo] + names_rec(
                        ws.skip(i + 1),
                        seen.push(e@.repo),
                    ));
                    assert(seen + names_rec(rest, seen) =~= seen.push(e@.repo) + names_rec(
                        ws.skip(i + 1),
                        seen.push(e@.repo),
                    ));
                }
            }
            i = i + 1;
        }
        proof {
            assert(ws.skip(n as int) =~= Seq::<EntryModel>::empty());
            assert(names_rec(ws.skip(n as int), names@.map_values(|x: String| x@))
                =~= Seq::<Seq<char>>::empty());
            assert(names@.map_values(|x: String| x@) + names_rec(
                ws.skip(n as int),
                names@.map_values(|x: String| x@),
            ) =~= names@.map_values(|x: String| x@));
        }
        // Build one group per name.
        let m = names.len();
        let mut repos: Vec<RepoGroup> = Vec::new();
        let mut count: usize = 0;
        let mut g: usize = 0;
        proof {
            assert(repos@.map_values(|x: RepoGroup| x.name@) =~= names@.map_values(
                |x: String| x@,
            ).take(0));
        }
        while g < m
            invariant
                g <= m,
                m == names.len(),
                m <= n,
                n < 0x8000,
                n == state.workspaces.len(),
                ws == state@.entries,
                probes@.len() == ws.len(),
                repos@.len() == g,
                repos@.map_values(|x: RepoGroup| x.name@) == names@.map_values(
                    |x: String| x@,
                ).take(g as int),
                forall|k: int| 0 <= k < g ==> (#[trigger] repos@[k]).expanded,
                forall|k: int|
                    0 <= k < g ==> (#[trigger] repos@[k]).workspaces@.map_values(
                        |w: WorkspaceItem| (w.branch@, w.workspace_id@, w.status),
                    ) == items_for_repo(ws, probes@, repos@[k].name@),
                count as int == count_spec(repos@),
                count_spec(repos@) == count_all(repos@),
                count as int <= g * (n + 1),
            decreases m - g,
        {
            let name = &names[g];
            let mut items: Vec<WorkspaceItem> = Vec::new();
            let mut i2: usize = 0;
            proof {
                assert(ws.skip(0) =~= ws);
                assert(probes@.skip(0) =~= probes@);
                assert(items@.map_values(|w: WorkspaceItem| (w.branch@, w.workspace_id@, w.status))
                    =~= Seq::<(Seq<char>, Seq<char>, WorkspaceStatus)>::empty());
            }
            while i2 < n
                invariant
                    i2 <= n,
                    n == state.workspaces.len(),
                    ws == state@.entries,
                    probes@.len() == ws.len(),
                    items@.len() <= i2,
                    items_for_repo(ws, probes@, name@) == items@.map_values(
                        |w: WorkspaceItem| (w.branch@, w.workspace_id@, w.status),
                    ) + items_for_repo(ws.skip(i2 as int), probes@.skip(i2 as int), name@),
                decreases n - i2,
            {
                let ghost rest = ws.skip(i2 as int);
                let ghost prest = probes@.skip(i2 as int);
                let ghost done = items@.map_values(
                    |w: WorkspaceItem| (w.branch@, w.workspace_id@, w.status),
                );
                let e = &state.workspaces[i2];
                let p = &probes[i2];
                proof {
                    assert(ws[i2 as int] == e@);
                    assert(probes@[i2 as int] == p);
                    assert(rest[0] == ws[i2 as int]);
                    assert(prest[0] == probes@[i2 as int]);
                    assert(rest.skip(1) =~= ws.skip(i2 + 1));
                    assert(prest.skip(1) =~= probes@.skip(i2 + 1));
                }
                if str_eq(e.repo.as_str(), name.as_str()) {
                    let status = if p.tmux_alive {
                        WorkspaceStatus::Running
                    } else {
                        let stopped = match p.container {
                            ContainerStatus::Stopped => true,
                            _ => false,
                        };
                        if stopped || p.clone_exists {
                            WorkspaceStatus::Stopped
                        } else {
                            WorkspaceStatus::Lazy
                        }
                    };
                    proof {
                        assert(status == status_of(probes@[i2 as int]));
                    }
                    let id = config::workspace_id(e.repo.as_str(), e.branch.as_str());
                    items.push(WorkspaceItem { branch: e.branch.clone(), workspace_id: id, status });
                    proof {
                        assert(items@.map_values(
                            |w: WorkspaceItem| (w.branch@, w.workspace_id@, w.status),
                        ) =~= done.push(
                            (e@.branch, config::id_seq(e@.repo, e@.branch), status),
                        ));
                        assert(items_for_repo(rest, prest, name@) =~= seq![
                            (e@.branch, config::id_seq(e@.repo, e@.branch), status),
                        ] + items_for_repo(ws.skip(i2 + 1), probes@.skip(i2 + 1), name@));
                        assert(done + items_for_repo(rest, prest, name@) =~= done.push(
                            (e@.branch, config::id_seq(e@.repo, e@.branch), status),
                        ) + items_for_repo(ws.skip(i2 + 1), probes@.skip(i2 + 1), name@));
                    }
                } else {
                    proof {
                        assert(items_for_repo(rest, prest, name@) == items_for_repo(
                            ws.skip(i2 + 1),
                            probes@.skip(i2 + 1),
                            name@,
                        ));
                    }
                }
                i2 = i2 + 1;
            }
            proof {
                assert(ws.skip(n as int) =~= Seq::<EntryModel>::empty());
                assert(items_for_repo(ws.skip(n as int), probes@.skip(n as int), name@)
                    =~= Seq::<(Seq<char>, Seq<char>, WorkspaceStatus)>::empty());
                assert(items@.map_values(
                    |w: WorkspaceItem| (w.branch@, w.workspace_id@, w.status),
                ) + items_for_repo(ws.skip(n as int), probes@.skip(n as int), name@)
                    =~= items@.map_values(
                    |w: WorkspaceItem| (w.branch@, w.workspace_id@, w.status),
                ));
            }
            let ghost repos_before = repos@;
            let items_len = items.len();
            let group = RepoGroup { name: name.clone(), workspaces: items, expanded: true };
            proof {
                lemma_count_snoc(repos@, group);
            }
            proof {
                lemma_count_fits(count as int, items_len as int, g as int, n as int);
            }
            repos.push(group);
            count = count + 1 + items_len;
            g = g + 1;
            proof {
                assert(repos@ =~= repos_before.push(
                    RepoGroup { name: repos@[g - 1].name, workspaces: repos@[g - 1].workspaces, expanded: true },
                ));
                assert(repos@.map_values(|x: RepoGroup| x.name@) =~= names@.map_values(
                    |x: String| x@,
                ).take(g as int));
            }
        }
        proof {
            let nm = names@.map_values(|x: String| x@);
            assert(nm.take(m as int) =~= nm);
            lemma_count_bounds(repos@);
        }
        App { repos, selected: 0, item_count: count }
    }

    /// The cursor's row.
    pub fn selected(&self) -> (r: usize)
        ensures
            r == self.selected,
    {
        self.selected
    }

    /// Move the cursor one row down, staying in range.
    pub fn move_down(&mut self)
        requires
            old(self).wf(),
        ensures
            final(self).repos == old(self).repos,
            final(self).item_count == old(self).item_count,
            final(self).selected as int == (if old(self).selected + 1 < old(self).item_count {
                old(self).selected + 1
            } else {
                old(self).selected as int
            }),
            final(self).wf(),
    {
        if self.selected + 1 < self.item_count {
            self.selected = self.selected + 1;
        }
    }

    /// Move the cursor one row up, staying in range.
    pub fn move_up(&mut self)
        requires
            old(self).wf(),
        ensures
            final(self).repos == old(self).repos,
            final(self).item_count == old(self).item_count,
            final(self).selected as int == (if old(self).selected > 0 {
                old(self).selected - 1
            } else {
                0int
            }),
            final(self).wf(),
    {
        if self.selected > 0 {
            self.selected = self.selected - 1;
        }
    }
}


// ---------------------------------------------------------------------------
// The flattened display list
// ---------------------------------------------------------------------------
/// `n` spaces.
pub open spec fn spaces(n: nat) -> Seq<char>
    decreases n,
{
    if n == 0 {
        Seq::empty()
    } else {
        spaces((n - 1) as nat).push(' ')
    }
}

/// A string padded with spaces to at least 24 characters.
pub open spec fn pad24(s: Seq<char>) -> Seq<char> {
    if s.len() >= 24 {
        s
    } else {
        s + spaces((24 - s.len()) as nat)
    }
}

/// The status icon: a filled, open, or dotted circle.
pub open spec fn icon_char(st: WorkspaceStatus) -> char {
    match st {
        WorkspaceStatus::Running => '\u{25cf}',
        WorkspaceStatus::Stopped => '\u{25cb}',
        WorkspaceStatus::Lazy => '\u{25cc}',
    }
}

/// The status label.
pub open spec fn label_seq(st: WorkspaceStatus) -> Seq<char> {
    match st {
        WorkspaceStatus::Running => "running"@,
        WorkspaceStatus::Stopped => "stopped"@,
        WorkspaceStatus::Lazy => "lazy"@,
    }
}

/// How a branch name is displayed: decoded from its encoded form, so an
/// encoded directory name and a plain branch name read the same.
pub open spec fn branch_display(b: Seq<char>) -> Seq<char> {
    config::decode_seq(config::encode_seq(b))
}

/// The display row of one workspace:
/// two spaces, the padded branch, the icon, and the label.
pub open spec fn item_row(w: WorkspaceItem) -> Seq<char> {
    "  "@ + pad24(branch_display(w.branch@)) + seq![' '] + seq![icon_char(w.status)] + seq![' ']
        + label_seq(w.status)
}

/// The display row of a repo header: a chevron and the name.
pub open spec fn header_row(g: RepoGroup) -> Seq<char> {
    seq![
        if g.expanded {
            '\u{25bc}'
        } else {
            '\u{25b6}'
        },
    ] + seq![' '] + g.name@
}

/// The rows of one group: its header, then its workspaces if expanded.
pub open spec fn group_rows(g: RepoGroup) -> Seq<
    (Seq<char>, Option<WorkspaceStatus>, Option<Seq<char>>),
> {
    seq![(header_row(g), None::<WorkspaceStatus>, None::<Seq<char>>)] + (if g.expanded {
        g.workspaces@.map_values(
            |w: WorkspaceItem| (item_row(w), Some(w.status), Some(w.workspace_id@)),
        )
    } else {
        Seq::empty()
    })
}

/// The whole flattened display list.
pub open spec fn flatten_model(gs: Seq<RepoGroup>) -> Seq<
    (Seq<char>, Option<WorkspaceStatus>, Option<Seq<char>>),
>
    decreases gs.len(),
{
    if gs.len() == 0 {
        Seq::empty()
    } else {
        group_rows(gs[0]) + flatten_model(gs.skip(1))
    }
}

/// The view of one display item.
pub open spec fn item_view(d: DisplayItem) -> (Seq<char>, Option<WorkspaceStatus>, Option<
    Seq<char>,
>) {
    (
        d.display@,
        d.status,
        match d.workspace_id {
            Some(s) => Some(s@),
            None => None,
        },
    )
}

/// Append the displayed branch name, padded to 24 characters.
fn push_padded_branch(line: &mut Vec<char>, branch: &str)
    ensures
        final(line)@ == old(line)@ + pad24(branch_display(branch@)),
{
    let enc = config::encode_branch(branch);
    let dec = config::decode_branch(enc.as_str());
    let dlen = dec.as_str().unicode_len();
    push_str_chars(line, dec.as_str());
    let mut padlen = dlen;
    proof {
        assert(spaces(0) =~= Seq::<char>::empty());
        assert(line@ =~= old(line)@ + dec@ + spaces((padlen - dlen) as nat));
    }
    while padlen < 24
        invariant
            dlen <= padlen,
            padlen <= 24 || padlen == dlen,
            dec@ == branch_display(branch@),
            dlen == dec@.len(),
            line@ == old(line)@ + dec@ + spaces((padlen - dlen) as nat),
        decreases 24 - padlen,
    {
        line.push(' ');
        padlen = padlen + 1;
        proof {
            assert(line@ =~= old(line)@ + dec@ + spaces((padlen - dlen) as nat));
        }
    }
    proof {
        if dlen >= 24 {
            assert(padlen == dlen);
            assert(spaces(0) =~= Seq::<char>::empty());
            assert(pad24(dec@) == dec@);
            assert(line@ =~= old(line)@ + pad24(branch_display(branch@)));
        } else {
            assert(padlen == 24);
            assert(line@ =~= old(line)@ + pad24(branch_display(branch@)));
        }
    }
}

impl App {
    /// Flatten repos into display items for rendering.
    pub fn flatten_items(&self) -> (r: Vec<DisplayItem>)
        ensures
            r@.map_values(|d: DisplayItem| item_view(d)) == flatten_model(self.repos@),
    {
        let ghost whole = self.repos@;
        let n = self.repos.len();
        let mut out: Vec<DisplayItem> = Vec::new();
        let mut i: usize = 0;
        proof {
            assert(whole.skip(0) =~= whole);
            assert(out@.map_values(|d: DisplayItem| item_view(d)) =~= Seq::<
                (Seq<char>, Option<WorkspaceStatus>, Option<Seq<char>>),
            >::empty());
        }
        while i < n
            invariant
                i <= n,
                n == self.repos.len(),
                whole == self.repos@,
                flatten_model(whole) == out@.map_values(|d: DisplayItem| item_view(d))
                    + flatten_model(whole.skip(i as int)),
            decreases n - i,
        {
            let ghost rest = whole.skip(i as int);
            let ghost done = out@.map_values(|d: DisplayItem| item_view(d));
            let g = &self.repos[i];
            proof {
                assert(rest[0] == whole[i as int]);
                assert(rest.skip(1) =~= whole.skip(i + 1));
            }
            // header row
            let mut line: Vec<char> = Vec::new();
            if g.expanded {
                line.push('\u{25bc}');
            } else {
                line.push('\u{25b6}');
            }
            line.push(' ');
            push_str_chars(&mut line, g.name.as_str());
            proof {
                assert(line@ =~= header_row(whole[i as int]));
            }
            out.push(DisplayItem { display: string_of(&line), status: None, workspace_id: None });
            let ghost after_header = out@.map_values(|d: DisplayItem| item_view(d));
            proof {
                assert(after_header =~= done.push(
                    (header_row(whole[i as int]), None::<WorkspaceStatus>, None::<Seq<char>>),
                ));
            }
            if g.expanded {
                let ghost items_model = whole[i as int].workspaces@.map_values(
                    |w: WorkspaceItem| (item_row(w), Some(w.status), Some(w.workspace_id@)),
                );
                let m = g.workspaces.len();
                let mut k: usize = 0;
                proof {
                    assert(out@.map_values(|d: DisplayItem| item_view(d)) =~= after_header
                        + items_model.take(0));
                }
                while k < m
                    invariant
                        k <= m,
                        i < n,
                        n == self.repos.len(),
                        whole == self.repos@,
                        whole[i as int].expanded,
                        m == whole[i as int].workspaces@.len(),
                        items_model == whole[i as int].workspaces@.map_values(
                            |w: WorkspaceItem| (item_row(w), Some(w.status), Some(w.workspace_id@)),
                        ),
                        out@.map_values(|d: DisplayItem| item_view(d)) == after_header
                            + items_model.take(k as int),
                    decreases m - k,
                {
                    let w = &self.repos[i].workspaces[k];
                    let ghost before = out@.map_values(|d: DisplayItem| item_view(d));
                    let mut row: Vec<char> = Vec::new();
                    push_str_chars(&mut row, "  ");
                    push_padded_branch(&mut row, w.branch.as_str());
                    row.push(' ');
                    match w.status {
                        WorkspaceStatus::Running => {
                            row.push('\u{25cf}');
                            row.push(' ');
                            push_str_chars(&mut row, "running");
                        },
                        WorkspaceStatus::Stopped => {
                            row.push('\u{25cb}');
                            row.push(' ');
                            push_str_chars(&mut row, "stopped");
                        },
                        WorkspaceStatus::Lazy => {
                            row.push('\u{25cc}');
                            row.push(' ');
                            push_str_chars(&mut row, "lazy");
                        },
                    }
                    proof {
                        assert(whole[i as int].workspaces@[k as int] == w);
                        assert(row@ =~= item_row(*w));
                        assert(items_model[k as int] == (
                            item_row(*w),
                            Some(w.status),
                            Some(w.workspace_id@),
                        ));
                    }
                    out.push(
                        DisplayItem {
                            display: string_of(&row),
                            status: Some(w.status),
                            workspace_id: Some(w.workspace_id.clone()),
                        },
                    );
                    proof {
                        assert(out@.map_values(|d: DisplayItem| item_view(d)) =~= before.push(
                            items_model[k as int],
                        ));
                        assert(items_model.take(k + 1) =~= items_model.take(k as int).push(
                            items_model[k as int],
                        ));
                    }
                    k = k + 1;
                }
                proof {
                    assert(items_model.take(m as int) =~= items_model);
                    assert(group_rows(whole[i as int]) =~= seq![
                        (header_row(whole[i as int]), None::<WorkspaceStatus>, None::<Seq<char>>),
                    ] + items_model);
                    assert(out@.map_values(|d: DisplayItem| item_view(d)) =~= done + group_rows(
                        whole[i as int],
                    ));
                }
            } else {
                proof {
                    assert(group_rows(whole[i as int]) =~= seq![
                        (header_row(whole[i as int]), None::<WorkspaceStatus>, None::<Seq<char>>),
                    ]);
                    assert(out@.map_values(|d: DisplayItem| item_view(d)) =~= done + group_rows(
                        whole[i as int],
                    ));
                }
            }
            i = i + 1;
            proof {
                assert(flatten_model(rest) =~= group_rows(whole[i - 1]) + flatten_model(
                    whole.skip(i as int),
                ));
                assert(done + flatten_model(rest) =~= (done + group_rows(whole[i - 1]))
                    + flatten_model(whole.skip(i as int)));
            }
        }
        proof {
            assert(whole.skip(n as int) =~= Seq::<RepoGroup>::empty());
            assert(flatten_model(whole.skip(n as int)) =~= Seq::<
                (Seq<char>, Option<WorkspaceStatus>, Option<Seq<char>>),
            >::empty());
            assert(out@.map_values(|d: DisplayItem| item_view(d)) + flatten_model(
                whole.skip(n as int),
            ) =~= out@.map_values(|d: DisplayItem| item_view(d)));
        }
        out
    }

    /// The workspace id of the selected row, or None on a repo header.
    pub fn selected_workspace_id(&self) -> (r: Option<String>)
        ensures
            match r {
                Some(id) => self.selected < flatten_model(self.repos@).len() && flatten_model(
                    self.repos@,
                )[self.selected as int].2 == Some(id@),
                None => self.selected >= flatten_model(self.repos@).len() || flatten_model(
                    self.repos@,
                )[self.selected as int].2 is None,
            },
    {
        let items = self.flatten_items();
        if self.selected < items.len() {
            let ghost mapped = items@.map_values(|d: DisplayItem| item_view(d));
            proof {
                assert(mapped[self.selected as int] == item_view(items@[self.selected as int]));
            }
            match &items[self.selected].workspace_id {
                Some(id) => Some(id.clone()),
                None => None,
            }
        } else {
            None
        }
    }
}

// ---------------------------------------------------------------------------
// Toggling a repo group
// ---------------------------------------------------------------------------
/// The group whose header row sits at display index `sel`, if any.
pub open spec fn header_group(gs: Seq<RepoGroup>, sel: int) -> Option<int>
    decreases gs.len(),
{
    if gs.len() == 0 {
        None
    } else if sel == 0 {
        Some(0)
    } else {
        let sz = 1 + (if gs[0].expanded {
            gs[0].workspaces@.len() as int
        } else {
            0int
        });
        if sel < sz {
            None
        } else {
            match header_group(gs.skip(1), sel - sz) {
                None => None,
                Some(h) => Some(h + 1),
            }
        }
    }
}

proof fn lemma_count_all_split(gs: Seq<RepoGroup>, g: int)
    requires
        0 <= g <= gs.len(),
    ensures
        count_all(gs) == count_all(gs.take(g)) + count_all(gs.skip(g)),
    decreases g,
{
    if g == 0 {
        assert(gs.take(0) =~= Seq::<RepoGroup>::empty());
        assert(gs.skip(0) =~= gs);
    } else {
        lemma_count_all_split(gs, g - 1);
        assert(gs.take(g) =~= gs.take(g - 1).push(gs[g - 1]));
        lemma_count_snoc_all(gs.take(g - 1), gs[g - 1]);
        let s1 = gs.skip(g - 1);
        assert(s1[0] == gs[g - 1]);
        assert(s1.skip(1) =~= gs.skip(g));
        lemma_count_bounds(gs.skip(g));
    }
}

proof fn lemma_count_snoc_all(gs: Seq<RepoGroup>, g: RepoGroup)
    ensures
        count_all(gs.push(g)) == count_all(gs) + 1 + g.workspaces@.len(),
{
    lemma_count_snoc(gs, g);
}

/// Find the group whose header row sits at display index `sel`.
fn find_header(repos: &Vec<RepoGroup>, sel: usize) -> (r: Option<usize>)
    requires
        count_all(repos@) <= usize::MAX as int,
    ensures
        match r {
            Some(g) => g < repos@.len() && header_group(repos@, sel as int) == Some(g as int),
            None => header_group(repos@, sel as int) is None,
        },
{
    let ghost whole = repos@;
    let n = repos.len();
    let mut g: usize = 0;
    let mut idx: usize = 0;
    proof {
        assert(whole.skip(0) =~= whole);
        assert(whole.take(0) =~= Seq::<RepoGroup>::empty());
    }
    while g < n
        invariant
            g <= n,
            n == repos@.len(),
            whole == repos@,
            count_all(whole) <= usize::MAX as int,
            idx <= sel,
            idx as int == count_spec(whole.take(g as int)),
            header_group(whole, sel as int) == (match header_group(
                whole.skip(g as int),
                sel - idx,
            ) {
                None => None::<int>,
                Some(h) => Some(h + g),
            }),
        decreases n - g,
    {
        let ghost rest = whole.skip(g as int);
        proof {
            assert(rest[0] == whole[g as int]);
            assert(rest.skip(1) =~= whole.skip(g + 1));
            lemma_count_all_split(whole, g as int);
            lemma_count_bounds(whole.take(g as int));
            lemma_count_bounds(whole.skip(g + 1));
            assert(count_all(rest) == 1 + whole[g as int].workspaces@.len() + count_all(
                whole.skip(g + 1),
            ));
        }
        if idx == sel {
            proof {
                assert(header_group(rest, 0) == Some(0int));
            }
            return Some(g);
        }
        let glen = if repos[g].expanded {
            repos[g].workspaces.len()
        } else {
            0
        };
        let sz = 1 + glen;
        proof {
            assert(whole.take(g + 1) =~= whole.take(g as int).push(whole[g as int]));
            lemma_count_snoc(whole.take(g as int), whole[g as int]);
            lemma_count_take_le(whole, g + 1);
        }
        if sel < idx + sz {
            proof {
                assert(sel - idx > 0 && (sel - idx) < 1 + (if whole[g as int].expanded {
                    whole[g as int].workspaces@.len() as int
                } else {
                    0int
                }));
                assert(header_group(rest, sel - idx) is None);
            }
            return None;
        }
        idx = idx + sz;
        g = g + 1;
        proof {
            assert(header_group(whole.skip(g - 1), sel - (idx - sz)) == (match header_group(
                whole.skip(g as int),
                sel - idx,
            ) {
                None => None::<int>,
                Some(h) => Some(h + 1),
            }));
        }
    }
    proof {
        assert(whole.skip(n as int) =~= Seq::<RepoGroup>::empty());
    }
    None
}

impl App {
    /// Toggle expand/collapse of the repo group whose header is selected;
    /// on any other row, do nothing. The row count is recomputed and the
    /// cursor clamped into range.
    pub fn toggle_expand(&mut self)
        requires
            old(self).wf(),
        ensures
            final(self).wf(),
            match header_group(old(self).repos@, old(self).selected as int) {
                None => final(self).repos@ == old(self).repos@ && final(self).selected == old(
                    self,
                ).selected && final(self).item_count == old(self).item_count,
                Some(gi) => {
                    &&& final(self).repos@.len() == old(self).repos@.len()
                    &&& final(self).repos@[gi].name == old(self).repos@[gi].name
                    &&& final(self).repos@[gi].workspaces == old(self).repos@[gi].workspaces
                    &&& final(self).repos@[gi].expanded == !old(self).repos@[gi].expanded
                    &&& forall|k: int|
                        0 <= k < old(self).repos@.len() && k != gi ==> final(self).repos@[k]
                            == old(self).repos@[k]
                    &&& final(self).item_count == count_spec(final(self).repos@)
                    &&& final(self).selected as int == (if (old(self).selected as int)
                        < count_spec(final(self).repos@) {
                        old(self).selected as int
                    } else if count_spec(final(self).repos@) > 0 {
                        count_spec(final(self).repos@) - 1
                    } else {
                        0int
                    })
                },
            },
    {
        proof {
            lemma_count_bounds(self.repos@);
        }
        match find_header(&self.repos, self.selected) {
            None => {},
            Some(gi) => {
                let ghost before = self.repos@;
                let mut grp = self.repos.remove(gi);
                grp.expanded = !grp.expanded;
                self.repos.insert(gi, grp);
                proof {
                    assert(self.repos@.len() == before.len());
                    assert(forall|k: int|
                        0 <= k < before.len() && k != gi ==> self.repos@[k] == before[k]);
                }
                // recompute the row count
                let n = self.repos.len();
                let mut c: usize = 0;
                let mut k: usize = 0;
                proof {
                    assert(self.repos@.take(0) =~= Seq::<RepoGroup>::empty());
                    lemma_count_all_same(before, self.repos@);
                    lemma_count_bounds(self.repos@);
                }
                while k < n
                    invariant
                        k <= n,
                        n == self.repos@.len(),
                        count_all(self.repos@) <= usize::MAX as int,
                        c as int == count_spec(self.repos@.take(k as int)),
                        self.selected == old(self).selected,
                    decreases n - k,
                {
                    proof {
                        assert(self.repos@.take(k + 1) =~= self.repos@.take(k as int).push(
                            self.repos@[k as int],
                        ));
                        lemma_count_snoc(self.repos@.take(k as int), self.repos@[k as int]);
                        lemma_count_all_split(self.repos@, k + 1);
                        lemma_count_bounds(self.repos@.take(k + 1));
                        lemma_count_bounds(self.repos@.skip(k + 1));
                        lemma_count_take_le(self.repos@, k + 1);
                    }
                    let add = if self.repos[k].expanded {
                        self.repos[k].workspaces.len()
                    } else {
                        0
                    };
                    c = c + 1 + add;
                    k = k + 1;
                }
                proof {
                    assert(self.repos@.take(n as int) =~= self.repos@);
                }
                self.item_count = c;
                if self.selected >= self.item_count {
                    if self.item_count > 0 {
                        self.selected = self.item_count - 1;
                    } else {
                        self.selected = 0;
                    }
                }
            },
        }
    }
}

proof fn lemma_count_take_le(gs: Seq<RepoGroup>, k: int)
    requires
        0 <= k <= gs.len(),
    ensures
        count_spec(gs.take(k)) <= count_all(gs),
{
    lemma_count_all_split(gs, k);
    lemma_count_bounds(gs.take(k));
    lemma_count_bounds(gs.skip(k));
}

/// Two group lists that differ only in expansion flags show the same
/// fully expanded row count.
proof fn lemma_count_all_same(a: Seq<RepoGroup>, b: Seq<RepoGroup>)
    requires
        a.len() == b.len(),
        forall|k: int|
            0 <= k < a.len() ==> (#[trigger] b[k]).workspaces@.len()
                == a[k].workspaces@.len(),
    ensures
        count_all(b) == count_all(a),
    decreases a.len(),
{
    if a.len() > 0 {
        let ta = a.skip(1);
        let tb = b.skip(1);
        assert(forall|k: int| 0 <= k < ta.len() ==> #[trigger] ta[k] == a[k + 1]);
        assert(forall|k: int| 0 <= k < tb.len() ==> #[trigger] tb[k] == b[k + 1]);
        lemma_count_all_same(ta, tb);
    }
}


// ---------------------------------------------------------------------------
// The status row of the listing command
// ---------------------------------------------------------------------------
/// The icon of a listed workspace: filled while the container runs, open
/// when it is stopped or only cloned, dotted before the first launch.
pub open spec fn list_icon(c: ContainerStatus, clone_exists: bool) -> char {
    match c {
        ContainerStatus::Running => '\u{25cf}',
        ContainerStatus::Stopped => '\u{25cb}',
        ContainerStatus::Missing => if clone_exists {
            '\u{25cb}'
        } else {
            '\u{25cc}'
        },
    }
}

/// The text of a listed workspace.
pub open spec fn list_text(c: ContainerStatus, tmux_alive: bool, clone_exists: bool) -> Seq<
    char,
> {
    match c {
        ContainerStatus::Running => if tmux_alive {
            "running  (container: up, tmux: attached)"@
        } else {
            "running  (container: up, tmux: none)"@
        },
        ContainerStatus::Stopped => if tmux_alive {
            "stopped  (container: stopped, tmux: background)"@
        } else {
            "stopped  (container: stopped, tmux: none)"@
        },
        ContainerStatus::Missing => if clone_exists {
            "stopped  (not launched)"@
        } else {
            "lazy     (not cloned yet)"@
        },
    }
}

/// One row of the listing: the padded branch, the icon, and the text.
pub open spec fn status_row_seq(
    branch: Seq<char>,
    c: ContainerStatus,
    tmux_alive: bool,
    clone_exists: bool,
) -> Seq<char> {
    "  "@ + pad24(branch_display(branch)) + seq![' '] + seq![list_icon(c, clone_exists)] + seq![
        ' ',
    ] + list_text(c, tmux_alive, clone_exists)
}

/// Build one row of the listing command's output.
pub fn status_row(branch: &str, c: &ContainerStatus, tmux_alive: bool, clone_exists: bool) -> (r:
    String)
    ensures
        r@ == status_row_seq(branch@, *c, tmux_alive, clone_exists),
{
    let mut row: Vec<char> = Vec::new();
    push_str_chars(&mut row, "  ");
    push_padded_branch(&mut row, branch);
    row.push(' ');
    match c {
        ContainerStatus::Running => {
            row.push('\u{25cf}');
            row.push(' ');
            if tmux_alive {
                push_str_chars(&mut row, "running  (container: up, tmux: attached)");
            } else {
                push_str_chars(&mut row, "running  (container: up, tmux: none)");
            }
        },
        ContainerStatus::Stopped => {
            row.push('\u{25cb}');
            row.push(' ');
            if tmux_alive {
                push_str_chars(&mut row, "stopped  (container: stopped, tmux: background)");
            } else {
                push_str_chars(&mut row, "stopped  (container: stopped, tmux: none)");
            }
        },
        ContainerStatus::Missing => {
            if clone_exists {
                row.push('\u{25cb}');
                row.push(' ');
                push_str_chars(&mut row, "stopped  (not launched)");
            } else {
                row.push('\u{25cc}');
                row.push(' ');
                push_str_chars(&mut row, "lazy     (not cloned yet)");
            }
        },
    }
    proof {
        assert(row@ =~= status_row_seq(branch@, *c, tmux_alive, clone_exists));
    }
    string_of(&row)
}

} // verus!
