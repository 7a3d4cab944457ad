//! The durable registry document: a line-based text format with an optional
//! top-level `workspace_root` key and one `[[workspaces]]` block per entry.
//! `render` and `parse` are exact inverses (`lemma_render_parse`); reading
//! and writing the file itself is left to unverified callers.

use vstd::prelude::*;
use vstd::string::*;

use crate::state::{EntryModel, StateModel, StateError, WorkspaceEntry, WorkspaceState};
use crate::state::{first_invalid, validate, validation_msg};
use crate::strutil::{chars_eq, chars_match_at, push_str_chars, str_to_chars, string_of};

verus! {

// ---------------------------------------------------------------------------
// Escaping
// ---------------------------------------------------------------------------
/// How one character is written inside a quoted value.
pub open spec fn esc_char(c: char) -> Seq<char> {
    if c == '\\' {
        seq!['\\', '\\']
    } else if c == '"' {
        seq!['\\', '"']
    } else if c == '\n' {
        seq!['\\', 'n']
    } else if c == '\t' {
        seq!['\\', 't']
    } else if c == '\r' {
        seq!['\\', 'r']
    } else {
        seq![c]
    }
}

/// A value with every special character escaped.
pub open spec fn escape_seq(s: Seq<char>) -> Seq<char>
    decreases s.len(),
{
    if s.len() == 0 {
        Seq::empty()
    } else {
        esc_char(s[0]) + escape_seq(s.skip(1))
    }
}

proof fn lemma_escape_app(a: Seq<char>, b: Seq<char>)
    ensures
        escape_seq(a + b) == escape_seq(a) + escape_seq(b),
    decreases a.len(),
{
    if a.len() == 0 {
        assert(a + b =~= b);
        assert(escape_seq(a) + escape_seq(b) =~= escape_seq(b));
    } else {
        assert((a + b).skip(1) =~= a.skip(1) + b);
        lemma_escape_app(a.skip(1), b);
        assert(escape_seq(a + b) =~= escape_seq(a) + escape_seq(b));
    }
}

// ---------------------------------------------------------------------------
// The document's lines
// ---------------------------------------------------------------------------
/// A quoted, escaped value.
pub open spec fn quoted(v: Seq<char>) -> Seq<char> {
    seq!['"'] + escape_seq(v) + seq!['"']
}

/// One key-value line. The key comes with its trailing space.
pub open spec fn kv_line(keyws: Seq<char>, v: Seq<char>) -> Seq<char> {
    keyws + "= "@ + quoted(v)
}

/// The lines of one entry: a `[[workspaces]]` header, the three required
/// fields, the optional path, and a closing blank line.
pub open spec fn entry_lines(e: EntryModel) -> Seq<Seq<char>> {
    seq![
        "[[workspaces]]"@,
        kv_line("repo "@, e.repo),
        kv_line("url "@, e.url),
        kv_line("branch "@, e.branch),
    ] + (match e.path {
        Some(p) => seq![kv_line("path "@, p)],
        None => Seq::<Seq<char>>::empty(),
    }) + seq![Seq::<char>::empty()]
}

/// The lines of all entries, in order.
pub open spec fn entries_lines(es: Seq<EntryModel>) -> Seq<Seq<char>>
    decreases es.len(),
{
    if es.len() == 0 {
        Seq::empty()
    } else {
        entry_lines(es[0]) + entries_lines(es.skip(1))
    }
}

proof fn lemma_entries_lines_app(a: Seq<EntryModel>, b: Seq<EntryModel>)
    ensures
        entries_lines(a + b) == entries_lines(a) + entries_lines(b),
    decreases a.len(),
{
    if a.len() == 0 {
        assert(a + b =~= b);
        assert(entries_lines(a) + entries_lines(b) =~= entries_lines(b));
    } else {
        assert((a + b).skip(1) =~= a.skip(1) + b);
        lemma_entries_lines_app(a.skip(1), b);
        assert((a + b)[0] == a[0]);
        assert(entries_lines(a + b) =~= entries_lines(a) + entries_lines(b));
    }
}

/// The lines of a whole document.
pub open spec fn doc_lines(m: StateModel) -> Seq<Seq<char>> {
    (match m.root {
        Some(r) => seq![kv_line("workspace_root "@, r)],
        None => Seq::<Seq<char>>::empty(),
    }) + entries_lines(m.entries)
}

/// Lines joined by newlines.
pub open spec fn join_lines(ls: Seq<Seq<char>>) -> Seq<char>
    decreases ls.len(),
{
    if ls.len() == 0 {
        Seq::empty()
    } else if ls.len() == 1 {
        ls[0]
    } else {
        ls[0] + seq!['\n'] + join_lines(ls.skip(1))
    }
}

proof fn lemma_join_snoc(ls: Seq<Seq<char>>, x: Seq<char>)
    ensures
        join_lines(ls.push(x)) == (if ls.len() == 0 {
            x
        } else {
            join_lines(ls) + seq!['\n'] + x
        }),
    decreases ls.len(),
{
    if ls.len() == 0 {
        assert(ls.push(x)[0] == x);
        assert(join_lines(ls.push(x)) == x);
    } else if ls.len() == 1 {
        assert(ls.push(x)[0] == ls[0]);
        assert(ls.push(x).skip(1) =~= seq![x]);
        assert(join_lines(seq![x]) == x);
        assert(join_lines(ls.push(x)) =~= join_lines(ls) + seq!['\n'] + x);
    } else {
        assert(ls.push(x)[0] == ls[0]);
        assert(ls.push(x).skip(1) =~= ls.skip(1).push(x));
        lemma_join_snoc(ls.skip(1), x);
        assert(join_lines(ls.push(x)) =~= join_lines(ls) + seq!['\n'] + x);
    }
}

/// The rendered document.
pub open spec fn render_seq(m: StateModel) -> Seq<char> {
    join_lines(doc_lines(m))
}

// ---------------------------------------------------------------------------
// The renderer
// ---------------------------------------------------------------------------
/// Append a quoted, escaped value.
#[verifier::rlimit(60)]
fn push_quoted(out: &mut Vec<char>, v: &str)
    ensures
        final(out)@ == old(out)@ + quoted(v@),
{
    let ghost base = old(out)@;
    out.push('"');
    let cs = str_to_chars(v);
    let n = cs.len();
    let mut i: usize = 0;
    proof {
        assert(escape_seq(v@.take(0)) =~= Seq::<char>::empty());
        assert(out@ =~= base + seq!['"'] + escape_seq(v@.take(0)));
    }
    while i < n
        invariant
            i <= n,
            n == cs.len(),
            cs@ == v@,
            out@ == base + seq!['"'] + escape_seq(v@.take(i as int)),
        decreases n - i,
    {
        let c = cs[i];
        proof {
            assert(v@.take(i + 1) =~= v@.take(i as int) + seq![v@[i as int]]);
            lemma_escape_app(v@.take(i as int), seq![v@[i as int]]);
            let single = seq![v@[i as int]];
            assert(single.skip(1) =~= Seq::<char>::empty());
            assert(escape_seq(single) =~= esc_char(v@[i as int]) + escape_seq(single.skip(1)));
            assert(escape_seq(single) =~= esc_char(v@[i as int]));
        }
        if c == '\\' {
            out.push('\\');
            out.push('\\');
        } else if c == '"' {
            out.push('\\');
            out.push('"');
        } else if c == '\n' {
            out.push('\\');
            out.push('n');
        } else if c == '\t' {
            out.push('\\');
            out.push('t');
        } else if c == '\r' {
            out.push('\\');
            out.push('r');
        } else {
            out.push(c);
        }
        i = i + 1;
        proof {
            assert(out@ =~= base + seq!['"'] + escape_seq(v@.take(i as int)));
        }
    }
    out.push('"');
    proof {
        assert(v@.take(n as int) =~= v@);
        assert(out@ =~= base + quoted(v@));
    }
}

/// Append one key-value line.
fn push_kv_line(out: &mut Vec<char>, keyws: &str, v: &str)
    ensures
        final(out)@ == old(out)@ + kv_line(keyws@, v@),
{
    push_str_chars(out, keyws);
    push_str_chars(out, "= ");
    push_quoted(out, v);
    proof {
        assert(out@ =~= old(out)@ + kv_line(keyws@, v@));
    }
}

/// Serialize the registry as its durable document.
#[verifier::rlimit(100)]
#[verifier::spinoff_prover]
pub fn render(state: &WorkspaceState) -> (r: String)
    ensures
        r@ == render_seq(state@),
{
    let ghost m = state@;
    let mut out: Vec<char> = Vec::new();
    let ghost mut lines: Seq<Seq<char>> = Seq::empty();
    let mut started = false;
    match &state.workspace_root {
        Some(root) => {
            push_kv_line(&mut out, "workspace_root ", root.as_str());
            started = true;
            proof {
                lines = lines.push(kv_line("workspace_root "@, root@));
                assert(out@ =~= join_lines(lines));
            }
        },
        None => {
            proof {
                assert(out@ =~= join_lines(lines));
            }
        },
    }
    let ghost root_lines = lines;
    proof {
        assert(root_lines =~= (match m.root {
            Some(r) => seq![kv_line("workspace_root "@, r)],
            None => Seq::<Seq<char>>::empty(),
        }));
        assert(entries_lines(m.entries.take(0)) =~= Seq::<Seq<char>>::empty());
        assert(lines =~= root_lines + entries_lines(m.entries.take(0)));
    }
    let n = state.workspaces.len();
    let mut i: usize = 0;
    while i < n
        invariant
            i <= n,
            n == state.workspaces.len(),
            m == state@,
            root_lines == (match m.root {
                Some(r) => seq![kv_line("workspace_root "@, r)],
                None => Seq::<Seq<char>>::empty(),
            }),
            lines == root_lines + entries_lines(m.entries.take(i as int)),
            out@ == join_lines(lines),
            started == (lines.len() > 0),
        decreases n - i,
    {
        let e = &state.workspaces[i];
        proof {
            assert(m.entries[i as int] == e@);
        }
        // header
        if started {
            out.push('\n');
        }
        push_str_chars(&mut out, "[[workspaces]]");
        proof {
            lemma_join_snoc(lines, "[[workspaces]]"@);
            lines = lines.push("[[workspaces]]"@);
            assert(out@ =~= join_lines(lines));
        }
        started = true;
        // fields
        out.push('\n');
        push_kv_line(&mut out, "repo ", e.repo.as_str());
        proof {
            lemma_join_snoc(lines, kv_line("repo "@, e@.repo));
            lines = lines.push(kv_line("repo "@, e@.repo));
            assert(out@ =~= join_lines(lines));
        }
        out.push('\n');
        push_kv_line(&mut out, "url ", e.url.as_str());
        proof {
            lemma_join_snoc(lines, kv_line("url "@, e@.url));
            lines = lines.push(kv_line("url "@, e@.url));
            assert(out@ =~= join_lines(lines));
        }
        out.push('\n');
        push_kv_line(&mut out, "branch ", e.branch.as_str());
        proof {
            lemma_join_snoc(lines, kv_line("branch "@, e@.branch));
            lines = lines.push(kv_line("branch "@, e@.branch));
            assert(out@ =~= join_lines(lines));
        }
        match &e.path {
            Some(p) => {
                out.push('\n');
                push_kv_line(&mut out, "path ", p.as_str());
                proof {
                    lemma_join_snoc(lines, kv_line("path "@, p@));
                    lines = lines.push(kv_line("path "@, p@));
                    assert(out@ =~= join_lines(lines));
                }
            },
            None => {},
        }
        // closing blank line
        out.push('\n');
        proof {
            lemma_join_snoc(lines, Seq::<char>::empty());
            lines = lines.push(Seq::<char>::empty());
            assert(out@ =~= join_lines(lines));
        }
        i = i + 1;
        proof {
            let ghost cur = m.entries[i - 1];
            assert(m.entries.take(i as int) =~= m.entries.take(i - 1) + seq![cur]);
            lemma_entries_lines_app(m.entries.take(i - 1), seq![cur]);
            assert(entries_lines(seq![cur]) =~= entry_lines(cur)) by {
                assert(seq![cur].skip(1) =~= Seq::<EntryModel>::empty());
                assert(entries_lines(seq![cur].skip(1)) =~= Seq::<Seq<char>>::empty());
            }
            if cur.path is Some {
                assert(entry_lines(cur) =~= seq![
                    "[[workspaces]]"@,
                    kv_line("repo "@, cur.repo),
                    kv_line("url "@, cur.url),
                    kv_line("branch "@, cur.branch),
                    kv_line("path "@, cur.path.unwrap()),
                    Seq::<char>::empty(),
                ]);
            } else {
                assert(entry_lines(cur) =~= seq![
                    "[[workspaces]]"@,
                    kv_line("repo "@, cur.repo),
                    kv_line("url "@, cur.url),
                    kv_line("branch "@, cur.branch),
                    Seq::<char>::empty(),
                ]);
            }
            assert(lines =~= (root_lines + entries_lines(m.entries.take(i - 1))) + entry_lines(
                cur,
            ));
            assert(entries_lines(m.entries.take(i as int)) =~= entries_lines(m.entries.take(i - 1))
                + entry_lines(cur));
            assert(lines =~= root_lines + entries_lines(m.entries.take(i as int)));
        }
    }
    proof {
        assert(m.entries.take(n as int) =~= m.entries);
        assert(lines =~= doc_lines(m));
    }
    string_of(&out)
}


// ---------------------------------------------------------------------------
// The parser's specification
// ---------------------------------------------------------------------------
/// A partially read entry: the fields seen so far in the current block.
pub ghost struct Partial {
    pub repo: Option<Seq<char>>,
    pub url: Option<Seq<char>>,
    pub branch: Option<Seq<char>>,
    pub path: Option<Seq<char>>,
}

/// The parser's state: the root read so far, the finished entries, and the
/// block being read, if any.
pub ghost struct PState {
    pub root: Option<Seq<char>>,
    pub entries: Seq<EntryModel>,
    pub cur: Option<Partial>,
}

pub open spec fn empty_partial() -> Partial {
    Partial { repo: None, url: None, branch: None, path: None }
}

pub open spec fn init_pstate() -> PState {
    PState { root: None, entries: Seq::empty(), cur: None }
}

pub open spec fn partial_complete(p: Partial) -> bool {
    p.repo is Some && p.url is Some && p.branch is Some
}

pub open spec fn entry_of_partial(p: Partial) -> EntryModel {
    EntryModel { repo: p.repo.unwrap(), url: p.url.unwrap(), branch: p.branch.unwrap(), path: p.path }
}

/// Close the open block, if any: its required fields must all be present.
pub open spec fn close_cur(st: PState) -> Option<PState> {
    match st.cur {
        None => Some(PState { root: st.root, entries: st.entries, cur: Some(empty_partial()) }),
        Some(p) => if partial_complete(p) {
            Some(
                PState {
                    root: st.root,
                    entries: st.entries.push(entry_of_partial(p)),
                    cur: Some(empty_partial()),
                },
            )
        } else {
            None
        },
    }
}

/// What the document denotes once every line is consumed.
pub open spec fn finalize_pstate(st: PState) -> Option<StateModel> {
    match st.cur {
        None => Some(StateModel { root: st.root, entries: st.entries }),
        Some(p) => if partial_complete(p) {
            Some(StateModel { root: st.root, entries: st.entries.push(entry_of_partial(p)) })
        } else {
            None
        },
    }
}

/// Leading spaces and tabs removed.
pub open spec fn lt_ws(s: Seq<char>) -> Seq<char>
    decreases s.len(),
{
    if s.len() > 0 && (s[0] == ' ' || s[0] == '\t') {
        lt_ws(s.skip(1))
    } else {
        s
    }
}

/// Read a quoted value: the characters up to the closing quote, unescaped,
/// and what follows the closing quote.
pub open spec fn scan_str(s: Seq<char>) -> Option<(Seq<char>, Seq<char>)>
    decreases s.len(),
{
    if s.len() == 0 {
        None
    } else if s[0] == '"' {
        Some((Seq::empty(), s.skip(1)))
    } else if s[0] == '\\' {
        if s.len() < 2 {
            None
        } else if s[1] == 'n' || s[1] == 't' || s[1] == 'r' || s[1] == '"' || s[1] == '\\' {
            scan_prepend(seq![unesc_char(s[1])], scan_str(s.skip(2)))
        } else {
            None
        }
    } else {
        scan_prepend(seq![s[0]], scan_str(s.skip(1)))
    }
}

pub open spec fn unesc_char(c: char) -> char {
    if c == 'n' {
        '\n'
    } else if c == 't' {
        '\t'
    } else if c == 'r' {
        '\r'
    } else {
        c
    }
}

pub open spec fn scan_prepend(pre: Seq<char>, o: Option<(Seq<char>, Seq<char>)>) -> Option<
    (Seq<char>, Seq<char>),
> {
    match o {
        None => None,
        Some((v, r)) => Some((pre + v, r)),
    }
}

/// Parse the value part of a key-value line: optional leading whitespace,
/// then a quoted value that ends the line.
pub open spec fn parse_string(v: Seq<char>) -> Option<Seq<char>> {
    let t = lt_ws(v);
    if t.len() > 0 && t[0] == '"' {
        match scan_str(t.skip(1)) {
            None => None,
            Some((c, rest)) => if rest.len() == 0 {
                Some(c)
            } else {
                None
            },
        }
    } else {
        None
    }
}

/// Split a line at its first `=`: the raw key and the raw value.
pub open spec fn split_kv(l: Seq<char>) -> Option<(Seq<char>, Seq<char>)>
    decreases l.len(),
{
    if l.len() == 0 {
        None
    } else if l[0] == '=' {
        Some((Seq::empty(), l.skip(1)))
    } else {
        match split_kv(l.skip(1)) {
            None => None,
            Some((k, v)) => Some((seq![l[0]] + k, v)),
        }
    }
}

/// Consume one line: blank lines and comments are skipped, a header opens a
/// block (closing the previous one), a known key sets its field, an unknown
/// key is ignored, and anything else is malformed.
pub open spec fn step_line(l: Seq<char>, st: PState) -> Option<PState> {
    if l.len() == 0 {
        Some(st)
    } else if l[0] == '#' {
        Some(st)
    } else if l == "[[workspaces]]"@ {
        close_cur(st)
    } else {
        match split_kv(l) {
            None => None,
            Some((k, v)) => match st.cur {
                None => if k == "workspace_root "@ {
                    match parse_string(v) {
                        None => None,
                        Some(val) => Some(
                            PState { root: Some(val), entries: st.entries, cur: None },
                        ),
                    }
                } else {
                    Some(st)
                },
                Some(p) => if k == "repo "@ {
                    match parse_string(v) {
                        None => None,
                        Some(val) => Some(
                            PState {
                                root: st.root,
                                entries: st.entries,
                                cur: Some(Partial { repo: Some(val), ..p }),
                            },
                        ),
                    }
                } else if k == "url "@ {
                    match parse_string(v) {
                        None => None,
                        Some(val) => Some(
                            PState {
                                root: st.root,
                                entries: st.entries,
                                cur: Some(Partial { url: Some(val), ..p }),
                            },
                        ),
                    }
                } else if k == "branch "@ {
                    match parse_string(v) {
                        None => None,
                        Some(val) => Some(
                            PState {
                                root: st.root,
                                entries: st.entries,
                                cur: Some(Partial { branch: Some(val), ..p }),
                            },
                        ),
                    }
                } else if k == "path "@ {
                    match parse_string(v) {
                        None => None,
                        Some(val) => Some(
                            PState {
                                root: st.root,
                                entries: st.entries,
                                cur: Some(Partial { path: Some(val), ..p }),
                            },
                        ),
                    }
                } else {
                    Some(st)
                },
            },
        }
    }
}

/// Consume lines in order.
pub open spec fn run_lines(ls: Seq<Seq<char>>, st: PState) -> Option<PState>
    decreases ls.len(),
{
    if ls.len() == 0 {
        Some(st)
    } else {
        match step_line(ls[0], st) {
            None => None,
            Some(st2) => run_lines(ls.skip(1), st2),
        }
    }
}

/// A document cut at every newline; there is always at least one line.
pub open spec fn split_lines(s: Seq<char>) -> Seq<Seq<char>>
    decreases s.len(),
{
    if s.len() == 0 {
        seq![Seq::<char>::empty()]
    } else if s[0] == '\n' {
        seq![Seq::<char>::empty()] + split_lines(s.skip(1))
    } else {
        let rest = split_lines(s.skip(1));
        seq![seq![s[0]] + rest[0]] + rest.skip(1)
    }
}

proof fn lemma_split_nonempty(s: Seq<char>)
    ensures
        split_lines(s).len() >= 1,
    decreases s.len(),
{
    if s.len() == 0 {
    } else if s[0] == '\n' {
    } else {
        lemma_split_nonempty(s.skip(1));
    }
}

/// What a whole document denotes, if it is well formed.
pub open spec fn parse_doc(s: Seq<char>) -> Option<StateModel> {
    match run_lines(split_lines(s), init_pstate()) {
        None => None,
        Some(st) => finalize_pstate(st),
    }
}


// ---------------------------------------------------------------------------
// The parser
// ---------------------------------------------------------------------------
/// A prefix prepended to the first of a non-empty list of lines.
pub open spec fn cons_first(pre: Seq<char>, ls: Seq<Seq<char>>) -> Seq<Seq<char>>
    recommends
        ls.len() >= 1,
{
    seq![pre + ls[0]] + ls.skip(1)
}

/// Cut a document at every newline.
pub(crate) fn split_into_lines(cs: &Vec<char>) -> (r: Vec<Vec<char>>)
    ensures
        r@.map_values(|l: Vec<char>| l@) == split_lines(cs@),
{
    let n = cs.len();
    let mut done: Vec<Vec<char>> = Vec::new();
    let mut cur: Vec<char> = Vec::new();
    let mut i: usize = 0;
    proof {
        lemma_split_nonempty(cs@);
        assert(cs@.skip(0) =~= cs@);
        assert(done@.map_values(|l: Vec<char>| l@) =~= Seq::<Seq<char>>::empty());
        assert(cons_first(cur@, split_lines(cs@)) =~= split_lines(cs@));
        assert(split_lines(cs@) =~= done@.map_values(|l: Vec<char>| l@) + cons_first(
            cur@,
            split_lines(cs@.skip(0)),
        ));
    }
    while i < n
        invariant
            i <= n,
            n == cs.len(),
            split_lines(cs@) == done@.map_values(|l: Vec<char>| l@) + cons_first(
                cur@,
                split_lines(cs@.skip(i as int)),
            ),
        decreases n - i,
    {
        let ghost rest = cs@.skip(i as int);
        let ghost done_m = done@.map_values(|l: Vec<char>| l@);
        proof {
            assert(rest[0] == cs@[i as int]);
            assert(rest.skip(1) =~= cs@.skip(i + 1));
            lemma_split_nonempty(cs@.skip(i + 1));
        }
        let c = cs[i];
        if c == '\n' {
            proof {
                assert(split_lines(rest) =~= seq![Seq::<char>::empty()] + split_lines(
                    cs@.skip(i + 1),
                ));
                assert(cons_first(cur@, split_lines(rest)) =~= seq![cur@] + split_lines(
                    cs@.skip(i + 1),
                ));
            }
            let ghost cur_m = cur@;
            done.push(cur);
            cur = Vec::new();
            proof {
                assert(done@.map_values(|l: Vec<char>| l@) =~= done_m.push(cur_m));
                assert(cons_first(cur@, split_lines(cs@.skip(i + 1))) =~= split_lines(
                    cs@.skip(i + 1),
                ));
                assert(split_lines(cs@) =~= done@.map_values(|l: Vec<char>| l@) + cons_first(
                    cur@,
                    split_lines(cs@.skip(i + 1)),
                ));
            }
        } else {
            proof {
                let sub = split_lines(cs@.skip(i + 1));
                assert(split_lines(rest) =~= seq![seq![rest[0]] + sub[0]] + sub.skip(1));
                assert(cons_first(cur@, split_lines(rest)) =~~= seq![
                    cur@ + seq![rest[0]] + sub[0],
                ] + sub.skip(1));
                assert(cons_first(cur@.push(rest[0]), sub) =~~= seq![
                    cur@ + seq![rest[0]] + sub[0],
                ] + sub.skip(1));
                assert(cons_first(cur@, split_lines(rest)) == cons_first(cur@.push(rest[0]), sub));
            }
            cur.push(c);
            proof {
                assert(split_lines(cs@) =~= done@.map_values(|l: Vec<char>| l@) + cons_first(
                    cur@,
                    split_lines(cs@.skip(i + 1)),
                ));
            }
        }
        i = i + 1;
    }
    proof {
        assert(cs@.skip(n as int) =~= Seq::<char>::empty());
        assert(split_lines(cs@.skip(n as int)) =~= seq![Seq::<char>::empty()]);
        assert(cons_first(cur@, split_lines(cs@.skip(n as int))) =~= seq![cur@]);
    }
    let ghost done_m = done@.map_values(|l: Vec<char>| l@);
    done.push(cur);
    proof {
        assert(done@.map_values(|l: Vec<char>| l@) =~= split_lines(cs@));
    }
    done
}

pub(crate) proof fn lemma_split_kv_at(l: Seq<char>, k: int)
    requires
        0 <= k < l.len(),
        forall|j: int| 0 <= j < k ==> l[j] != '=',
        l[k] == '=',
    ensures
        split_kv(l) == Some((l.take(k), l.skip(k + 1))),
    decreases k,
{
    if k == 0 {
        assert(l.take(0) =~= Seq::<char>::empty());
    } else {
        let tail = l.skip(1);
        assert(forall|j: int| 0 <= j < tail.len() ==> #[trigger] tail[j] == l[j + 1]);
        lemma_split_kv_at(tail, k - 1);
        assert(seq![l[0]] + tail.take(k - 1) =~= l.take(k));
        assert(tail.skip(k) =~= l.skip(k + 1));
    }
}

pub(crate) proof fn lemma_split_kv_none(l: Seq<char>)
    requires
        forall|j: int| 0 <= j < l.len() ==> l[j] != '=',
    ensures
        split_kv(l) is None,
    decreases l.len(),
{
    if l.len() > 0 {
        let tail = l.skip(1);
        assert(forall|j: int| 0 <= j < tail.len() ==> #[trigger] tail[j] == l[j + 1]);
        lemma_split_kv_none(tail);
    }
}

/// Is the raw key (the line up to the first `=`) this known key?
pub(crate) fn key_is(line: &Vec<char>, k: usize, needle: &Vec<char>) -> (r: bool)
    requires
        k <= line@.len(),
    ensures
        r == (line@.take(k as int) == needle@),
{
    if k != needle.len() {
        proof {
            assert(line@.take(k as int).len() != needle@.len());
        }
        return false;
    }
    let r = chars_match_at(line, needle, 0);
    proof {
        assert(line@.subrange(0, needle@.len() as int) =~= line@.take(k as int));
    }
    r
}

/// Parse the value part of a line, starting after its `=`.
pub(crate) fn parse_string_exec(l: &Vec<char>, pos: usize) -> (r: Option<String>)
    requires
        pos <= l@.len(),
    ensures
        match r {
            Some(s) => parse_string(l@.skip(pos as int)) == Some(s@),
            None => parse_string(l@.skip(pos as int)) is None,
        },
{
    let n = l.len();
    let mut i: usize = pos;
    proof {
        assert(lt_ws(l@.skip(pos as int)) == lt_ws(l@.skip(pos as int)));
    }
    while i < n && (l[i] == ' ' || l[i] == '\t')
        invariant
            pos <= i <= n,
            n == l@.len(),
            lt_ws(l@.skip(pos as int)) == lt_ws(l@.skip(i as int)),
        decreases n - i,
    {
        proof {
            let rest = l@.skip(i as int);
            assert(rest[0] == l@[i as int]);
            assert(rest.skip(1) =~= l@.skip(i + 1));
        }
        i = i + 1;
    }
    let ghost t = lt_ws(l@.skip(pos as int));
    proof {
        let rest = l@.skip(i as int);
        if i < n {
            assert(rest[0] == l@[i as int]);
        }
        assert(lt_ws(rest) == rest);
        assert(t == l@.skip(i as int));
    }
    if i >= n {
        proof {
            assert(t.len() == 0);
        }
        return None;
    }
    if l[i] != '"' {
        proof {
            assert(t[0] == l@[i as int]);
        }
        return None;
    }
    proof {
        assert(t[0] == '"');
        assert(t.skip(1) =~= l@.skip(i + 1));
    }
    let mut out: Vec<char> = Vec::new();
    let mut j: usize = i + 1;
    proof {
        assert(scan_str(t.skip(1)) == scan_prepend(out@, scan_str(l@.skip(j as int))));
    }
    while j < n
        invariant
            j <= n,
            n == l@.len(),
            t == lt_ws(l@.skip(pos as int)),
            t.len() > 0 && t[0] == '"',
            scan_str(t.skip(1)) == scan_prepend(out@, scan_str(l@.skip(j as int))),
        decreases n - j,
    {
        let ghost rest = l@.skip(j as int);
        proof {
            assert(rest[0] == l@[j as int]);
            assert(rest.skip(1) =~= l@.skip(j + 1));
        }
        let c = l[j];
        if c == '"' {
            proof {
                assert(scan_str(rest) == Some((Seq::<char>::empty(), l@.skip(j + 1))));
                assert(out@ + Seq::<char>::empty() =~= out@);
                assert(scan_str(t.skip(1)) == Some((out@, l@.skip(j + 1))));
            }
            if j + 1 == n {
                proof {
                    assert(l@.skip(j + 1).len() == 0);
                }
                return Some(string_of(&out));
            } else {
                proof {
                    assert(l@.skip(j + 1).len() > 0);
                }
                return None;
            }
        } else if c == '\\' {
            if j + 1 >= n {
                proof {
                    assert(rest.len() < 2);
                    assert(scan_str(rest) is None);
                }
                return None;
            }
            let d = l[j + 1];
            proof {
                assert(rest[1] == l@[j + 1]);
                assert(rest.skip(2) =~= l@.skip(j + 2));
            }
            let ghost out_before = out@;
            if d == 'n' {
                out.push('\n');
            } else if d == 't' {
                out.push('\t');
            } else if d == 'r' {
                out.push('\r');
            } else if d == '"' {
                out.push('"');
            } else if d == '\\' {
                out.push('\\');
            } else {
                proof {
                    assert(scan_str(rest) is None);
                }
                return None;
            }
            proof {
                assert(out@ =~= out_before.push(unesc_char(l@[j + 1])));
                assert(scan_str(rest) == scan_prepend(
                    seq![unesc_char(rest[1])],
                    scan_str(l@.skip(j + 2)),
                ));
                assert(scan_prepend(out_before, scan_str(rest)) == scan_prepend(
                    out@,
                    scan_str(l@.skip(j + 2)),
                )) by {
                    match scan_str(l@.skip(j + 2)) {
                        None => {},
                        Some((v, r2)) => {
                            assert(out_before + (seq![unesc_char(rest[1])] + v) =~= out@ + v);
                        },
                    }
                }
            }
            j = j + 2;
        } else {
            let ghost out_before = out@;
            out.push(c);
            proof {
                assert(scan_str(rest) == scan_prepend(seq![rest[0]], scan_str(l@.skip(j + 1))));
                assert(scan_prepend(out_before, scan_str(rest)) == scan_prepend(
                    out@,
                    scan_str(l@.skip(j + 1)),
                )) by {
                    match scan_str(l@.skip(j + 1)) {
                        None => {},
                        Some((v, r2)) => {
                            assert(out_before + (seq![rest[0]] + v) =~= out@ + v);
                        },
                    }
                }
            }
            j = j + 1;
        }
    }
    proof {
        assert(l@.skip(n as int) =~= Seq::<char>::empty());
        assert(scan_str(l@.skip(n as int)) is None);
    }
    None
}


/// The view of an optional owned string.
pub open spec fn ov_string(o: Option<String>) -> Option<Seq<char>> {
    match o {
        Some(s) => Some(s@),
        None => None,
    }
}

/// The parser state made of the parser's working values.
pub open spec fn model_st(
    root: Option<String>,
    entries: Seq<WorkspaceEntry>,
    in_entry: bool,
    repo: Option<String>,
    url: Option<String>,
    branch: Option<String>,
    path: Option<String>,
) -> PState {
    PState {
        root: ov_string(root),
        entries: entries.map_values(|e: WorkspaceEntry| e@),
        cur: if in_entry {
            Some(
                Partial {
                    repo: ov_string(repo),
                    url: ov_string(url),
                    branch: ov_string(branch),
                    path: ov_string(path),
                },
            )
        } else {
            None
        },
    }
}

/// Parse a registry document. A malformed document is a ParseError carrying
/// its line number; an entry with an empty required field is a
/// ValidationError naming the entry.
#[verifier::rlimit(100)]
#[verifier::spinoff_prover]
pub fn parse(toml_str: &str) -> (r: Result<WorkspaceState, StateError>)
    ensures
        match r {
            Ok(st) => parse_doc(toml_str@) == Some(st@) && first_invalid(st@.entries) is None,
            Err(StateError::ParseError(_)) => parse_doc(toml_str@) is None,
            Err(StateError::Validation(m)) => match parse_doc(toml_str@) {
                Some(model) => match first_invalid(model.entries) {
                    Some(i) => m@ == validation_msg(model.entries, i),
                    None => false,
                },
                None => false,
            },
            Err(_) => false,
        },
{
    let cs = str_to_chars(toml_str);
    let lines = split_into_lines(&cs);
    let ghost linesq = split_lines(toml_str@);
    proof {
        assert(lines@.map_values(|l: Vec<char>| l@) == linesq);
    }
    let hdr = str_to_chars("[[workspaces]]");
    let kroot = str_to_chars("workspace_root ");
    let krepo = str_to_chars("repo ");
    let kurl = str_to_chars("url ");
    let kbranch = str_to_chars("branch ");
    let kpath = str_to_chars("path ");

    let mut root: Option<String> = None;
    let mut entries: Vec<WorkspaceEntry> = Vec::new();
    let mut in_entry = false;
    let mut repo: Option<String> = None;
    let mut url: Option<String> = None;
    let mut branch: Option<String> = None;
    let mut path: Option<String> = None;

    let n = lines.len();
    let mut li: usize = 0;
    proof {
        assert(linesq.skip(0) =~= linesq);
        assert(entries@.map_values(|e: WorkspaceEntry| e@) =~= Seq::<EntryModel>::empty());
        assert(model_st(root, entries@, in_entry, repo, url, branch, path) == init_pstate());
    }
    while li < n
        invariant
            li <= n,
            n == lines.len(),
            lines@.map_values(|l: Vec<char>| l@) == linesq,
            linesq == split_lines(toml_str@),
            hdr@ == "[[workspaces]]"@,
            kroot@ == "workspace_root "@,
            krepo@ == "repo "@,
            kurl@ == "url "@,
            kbranch@ == "branch "@,
            kpath@ == "path "@,
            !in_entry ==> repo is None && url is None && branch is None && path is None,
            run_lines(linesq, init_pstate()) == run_lines(
                linesq.skip(li as int),
                model_st(root, entries@, in_entry, repo, url, branch, path),
            ),
        decreases n - li,
    {
        let ghost st0 = model_st(root, entries@, in_entry, repo, url, branch, path);
        let ghost rest = linesq.skip(li as int);
        let line = &lines[li];
        proof {
            assert(line@ == linesq[li as int]);
            assert(rest[0] == linesq[li as int]);
            assert(rest.skip(1) =~= linesq.skip(li + 1));
        }
        if line.len() == 0 {
            proof {
                assert(step_line(line@, st0) == Some(st0));
            }
        } else if line[0] == '#' {
            proof {
                assert(line@[0] == '#');
                assert(step_line(line@, st0) == Some(st0));
            }
        } else if chars_eq(line, &hdr) {
            if in_entry {
                let ghost p0 = Partial {
                    repo: ov_string(repo),
                    url: ov_string(url),
                    branch: ov_string(branch),
                    path: ov_string(path),
                };
                match (repo, url, branch) {
                    (Some(r0), Some(u0), Some(b0)) => {
                        let ghost em = entries@.map_values(|e: WorkspaceEntry| e@);
                        let entry = WorkspaceEntry { repo: r0, url: u0, branch: b0, path };
                        proof {
                            assert(partial_complete(p0));
                            assert(entry@ == entry_of_partial(p0));
                        }
                        entries.push(entry);
                        repo = None;
                        url = None;
                        branch = None;
                        path = None;
                        proof {
                            assert(entries@.map_values(|e: WorkspaceEntry| e@) =~= em.push(
                                entry_of_partial(p0),
                            ));
                            assert(step_line(line@, st0) == Some(
                                model_st(root, entries@, in_entry, repo, url, branch, path),
                            ));
                        }
                    },
                    _ => {
                        proof {
                            assert(!partial_complete(p0));
                            assert(step_line(line@, st0) is None);
                            assert(run_lines(rest, st0) is None);
                            assert(parse_doc(toml_str@) is None);
                        }
                        return Err(StateError::ParseError(li + 1));
                    },
                }
            } else {
                in_entry = true;
                proof {
                    assert(step_line(line@, st0) == Some(
                        model_st(root, entries@, in_entry, repo, url, branch, path),
                    ));
                }
            }
        } else {
            // a key-value line: find the first `=`
            let ll = line.len();
            let mut k: usize = 0;
            while k < ll && line[k] != '='
                invariant
                    k <= ll,
                    ll == line@.len(),
                    forall|j: int| 0 <= j < k ==> line@[j] != '=',
                decreases ll - k,
            {
                k = k + 1;
            }
            if k == ll {
                proof {
                    lemma_split_kv_none(line@);
                    assert(step_line(line@, st0) is None);
                    assert(run_lines(rest, st0) is None);
                    assert(parse_doc(toml_str@) is None);
                }
                return Err(StateError::ParseError(li + 1));
            }
            proof {
                lemma_split_kv_at(line@, k as int);
            }
            let ghost rawkey = line@.take(k as int);
            let ghost rawval = line@.skip(k + 1);
            if !in_entry {
                if key_is(line, k, &kroot) {
                    match parse_string_exec(line, k + 1) {
                        Some(val) => {
                            root = Some(val);
                            proof {
                                assert(step_line(line@, st0) == Some(
                                    model_st(root, entries@, in_entry, repo, url, branch, path),
                                ));
                            }
                        },
                        None => {
                            proof {
                                assert(step_line(line@, st0) is None);
                                assert(run_lines(rest, st0) is None);
                                assert(parse_doc(toml_str@) is None);
                            }
                            return Err(StateError::ParseError(li + 1));
                        },
                    }
                } else {
                    proof {
                        assert(step_line(line@, st0) == Some(st0));
                    }
                }
            } else {
                if key_is(line, k, &krepo) {
                    match parse_string_exec(line, k + 1) {
                        Some(val) => {
                            repo = Some(val);
                            proof {
                                assert(step_line(line@, st0) == Some(
                                    model_st(root, entries@, in_entry, repo, url, branch, path),
                                ));
                            }
                        },
                        None => {
                            proof {
                                assert(step_line(line@, st0) is None);
                                assert(run_lines(rest, st0) is None);
                                assert(parse_doc(toml_str@) is None);
                            }
                            return Err(StateError::ParseError(li + 1));
                        },
                    }
                } else if key_is(line, k, &kurl) {
                    match parse_string_exec(line, k + 1) {
                        Some(val) => {
                            url = Some(val);
                            proof {
                                assert(step_line(line@, st0) == Some(
                                    model_st(root, entries@, in_entry, repo, url, branch, path),
                                ));
                            }
                        },
                        None => {
                            proof {
                                assert(step_line(line@, st0) is None);
                                assert(run_lines(rest, st0) is None);
                                assert(parse_doc(toml_str@) is None);
                            }
                            return Err(StateError::ParseError(li + 1));
                        },
                    }
                } else if key_is(line, k, &kbranch) {
                    match parse_string_exec(line, k + 1) {
                        Some(val) => {
                            branch = Some(val);
                            proof {
                                assert(step_line(line@, st0) == Some(
                                    model_st(root, entries@, in_entry, repo, url, branch, path),
                                ));
                            }
                        },
                        None => {
                            proof {
                                assert(step_line(line@, st0) is None);
                                assert(run_lines(rest, st0) is None);
                                assert(parse_doc(toml_str@) is None);
                            }
                            return Err(StateError::ParseError(li + 1));
                        },
                    }
                } else if key_is(line, k, &kpath) {
                    match parse_string_exec(line, k + 1) {
                        Some(val) => {
                            path = Some(val);
                            proof {
                                assert(step_line(line@, st0) == Some(
                                    model_st(root, entries@, in_entry, repo, url, branch, path),
                                ));
                            }
                        },
                        None => {
                            proof {
                                assert(step_line(line@, st0) is None);
                                assert(run_lines(rest, st0) is None);
                                assert(parse_doc(toml_str@) is None);
                            }
                            return Err(StateError::ParseError(li + 1));
                        },
                    }
                } else {
                    proof {
                        assert(step_line(line@, st0) == Some(st0));
                    }
                }
            }
        }
        li = li + 1;
        proof {
            assert(run_lines(linesq, init_pstate()) == run_lines(
                linesq.skip(li as int),
                model_st(root, entries@, in_entry, repo, url, branch, path),
            ));
        }
    }
    proof {
        assert(linesq.skip(n as int) =~= Seq::<Seq<char>>::empty());
    }
    let ghost stf = model_st(root, entries@, in_entry, repo, url, branch, path);
    proof {
        assert(run_lines(linesq, init_pstate()) == Some(stf));
    }
    if in_entry {
        let ghost p0 = Partial {
            repo: ov_string(repo),
            url: ov_string(url),
            branch: ov_string(branch),
            path: ov_string(path),
        };
        match (repo, url, branch) {
            (Some(r0), Some(u0), Some(b0)) => {
                let ghost em = entries@.map_values(|e: WorkspaceEntry| e@);
                let entry = WorkspaceEntry { repo: r0, url: u0, branch: b0, path };
                proof {
                    assert(partial_complete(p0));
                    assert(entry@ == entry_of_partial(p0));
                }
                entries.push(entry);
                proof {
                    assert(entries@.map_values(|e: WorkspaceEntry| e@) =~= em.push(
                        entry_of_partial(p0),
                    ));
                }
                let st = WorkspaceState { workspace_root: root, workspaces: entries };
                proof {
                    assert(finalize_pstate(stf) == Some(st@));
                    assert(parse_doc(toml_str@) == Some(st@));
                }
                match validate(&st) {
                    Ok(()) => Ok(st),
                    Err(e) => Err(e),
                }
            },
            _ => {
                proof {
                    assert(!partial_complete(p0));
                    assert(finalize_pstate(stf) is None);
                    assert(parse_doc(toml_str@) is None);
                }
                Err(StateError::ParseError(n))
            },
        }
    } else {
        let st = WorkspaceState { workspace_root: root, workspaces: entries };
        proof {
            assert(finalize_pstate(stf) == Some(st@));
            assert(parse_doc(toml_str@) == Some(st@));
        }
        match validate(&st) {
            Ok(()) => Ok(st),
            Err(e) => Err(e),
        }
    }
}


// ---------------------------------------------------------------------------
// Round trip: parsing inverts rendering
// ---------------------------------------------------------------------------
/// No newline anywhere in the line.
pub open spec fn no_nl(l: Seq<char>) -> bool {
    forall|j: int| 0 <= j < l.len() ==> l[j] != '\n'
}

proof fn lemma_literal_facts()
    ensures
        "workspace_root "@.len() == 15,
        "repo "@.len() == 5,
        "url "@.len() == 4,
        "branch "@.len() == 7,
        "path "@.len() == 5,
        "= "@.len() == 2,
        "[[workspaces]]"@.len() == 14,
        "= "@[0] == '=',
        "= "@[1] == ' ',
        "workspace_root "@[0] == 'w',
        "repo "@[0] == 'r',
        "url "@[0] == 'u',
        "branch "@[0] == 'b',
        "path "@[0] == 'p',
        "[[workspaces]]"@[0] == '[',
        forall|j: int|
            0 <= j < 15 ==> "workspace_root "@[j] != '=' && "workspace_root "@[j] != '\n',
        forall|j: int| 0 <= j < 5 ==> "repo "@[j] != '=' && "repo "@[j] != '\n',
        forall|j: int| 0 <= j < 4 ==> "url "@[j] != '=' && "url "@[j] != '\n',
        forall|j: int| 0 <= j < 7 ==> "branch "@[j] != '=' && "branch "@[j] != '\n',
        forall|j: int| 0 <= j < 5 ==> "path "@[j] != '=' && "path "@[j] != '\n',
        forall|j: int| 0 <= j < 14 ==> "[[workspaces]]"@[j] != '\n',
        forall|j: int| 0 <= j < 2 ==> "= "@[j] != '\n',
        "repo "@ != "url "@,
        "repo "@ != "branch "@,
        "repo "@ != "path "@,
        "url "@ != "branch "@,
        "url "@ != "path "@,
        "branch "@ != "path "@,
{
    reveal_strlit("workspace_root ");
    reveal_strlit("repo ");
    reveal_strlit("url ");
    reveal_strlit("branch ");
    reveal_strlit("path ");
    reveal_strlit("= ");
    reveal_strlit("[[workspaces]]");
    assert("repo "@ != "url "@) by {
        assert("repo "@.len() != "url "@.len());
    }
    assert("repo "@ != "branch "@) by {
        assert("repo "@.len() != "branch "@.len());
    }
    assert("repo "@ != "path "@) by {
        assert("repo "@[0] != "path "@[0]);
    }
    assert("url "@ != "branch "@) by {
        assert("url "@.len() != "branch "@.len());
    }
    assert("url "@ != "path "@) by {
        assert("url "@.len() != "path "@.len());
    }
    assert("branch "@ != "path "@) by {
        assert("branch "@.len() != "path "@.len());
    }
}

proof fn lemma_escape_no_nl(v: Seq<char>)
    ensures
        no_nl(escape_seq(v)),
    decreases v.len(),
{
    if v.len() == 0 {
    } else {
        lemma_escape_no_nl(v.skip(1));
        let e = escape_seq(v);
        let h = esc_char(v[0]);
        assert(forall|j: int| 0 <= j < h.len() ==> h[j] != '\n');
        assert(forall|j: int|
            h.len() <= j < e.len() ==> e[j] == escape_seq(v.skip(1))[j - h.len()]);
    }
}

proof fn lemma_kv_no_nl(keyws: Seq<char>, v: Seq<char>)
    requires
        no_nl(keyws),
    ensures
        no_nl(kv_line(keyws, v)),
{
    lemma_literal_facts();
    lemma_escape_no_nl(v);
    let l = kv_line(keyws, v);
    assert forall|j: int| 0 <= j < l.len() implies l[j] != '\n' by {
        if j < keyws.len() {
            assert(l[j] == keyws[j]);
        } else if j < keyws.len() + 2 {
            assert(l[j] == "= "@[j - keyws.len()]);
        } else {
            let q = quoted(v);
            let qj = j - keyws.len() - 2;
            assert(l[j] == q[qj]);
            if qj == 0 {
            } else if qj < 1 + escape_seq(v).len() {
                assert(q[qj] == escape_seq(v)[qj - 1]);
            } else {
                assert(q[qj] == '"');
            }
        }
    }
}

proof fn lemma_entry_lines_no_nl(e: EntryModel)
    ensures
        forall|k: int|
            0 <= k < entry_lines(e).len() ==> no_nl(#[trigger] entry_lines(e)[k]),
{
    lemma_literal_facts();
    lemma_kv_no_nl("repo "@, e.repo);
    lemma_kv_no_nl("url "@, e.url);
    lemma_kv_no_nl("branch "@, e.branch);
    if e.path is Some {
        lemma_kv_no_nl("path "@, e.path.unwrap());
    }
    assert(no_nl("[[workspaces]]"@));
    assert(no_nl(Seq::<char>::empty()));
    assert forall|k: int| 0 <= k < entry_lines(e).len() implies no_nl(
        #[trigger] entry_lines(e)[k],
    ) by {
        if e.path is Some {
            assert(entry_lines(e) =~= seq![
                "[[workspaces]]"@,
                kv_line("repo "@, e.repo),
                kv_line("url "@, e.url),
                kv_line("branch "@, e.branch),
                kv_line("path "@, e.path.unwrap()),
                Seq::<char>::empty(),
            ]);
        } else {
            assert(entry_lines(e) =~= seq![
                "[[workspaces]]"@,
                kv_line("repo "@, e.repo),
                kv_line("url "@, e.url),
                kv_line("branch "@, e.branch),
                Seq::<char>::empty(),
            ]);
        }
    }
}

proof fn lemma_doc_lines_no_nl(m: StateModel)
    ensures
        forall|k: int| 0 <= k < doc_lines(m).len() ==> no_nl(#[trigger] doc_lines(m)[k]),
{
    lemma_literal_facts();
    lemma_entries_lines_no_nl(m.entries);
    if m.root is Some {
        lemma_kv_no_nl("workspace_root "@, m.root.unwrap());
    }
    let rl = (match m.root {
        Some(r) => seq![kv_line("workspace_root "@, r)],
        None => Seq::<Seq<char>>::empty(),
    });
    assert forall|k: int| 0 <= k < doc_lines(m).len() implies no_nl(
        #[trigger] doc_lines(m)[k],
    ) by {
        if k < rl.len() {
            assert(doc_lines(m)[k] == rl[k]);
        } else {
            assert(doc_lines(m)[k] == entries_lines(m.entries)[k - rl.len()]);
        }
    }
}

proof fn lemma_entries_lines_no_nl(es: Seq<EntryModel>)
    ensures
        forall|k: int|
            0 <= k < entries_lines(es).len() ==> no_nl(#[trigger] entries_lines(es)[k]),
    decreases es.len(),
{
    if es.len() == 0 {
    } else {
        lemma_entry_lines_no_nl(es[0]);
        lemma_entries_lines_no_nl(es.skip(1));
        let h = entry_lines(es[0]);
        assert forall|k: int| 0 <= k < entries_lines(es).len() implies no_nl(
            #[trigger] entries_lines(es)[k],
        ) by {
            if k < h.len() {
                assert(entries_lines(es)[k] == h[k]);
            } else {
                assert(entries_lines(es)[k] == entries_lines(es.skip(1))[k - h.len()]);
            }
        }
    }
}

/// A line without newlines splits into itself.
proof fn lemma_split_single(l: Seq<char>)
    requires
        no_nl(l),
    ensures
        split_lines(l) == seq![l],
    decreases l.len(),
{
    if l.len() == 0 {
        assert(l =~= Seq::<char>::empty());
        assert(split_lines(l) =~= seq![l]);
    } else {
        assert(l[0] != '\n');
        let tail = l.skip(1);
        assert(forall|j: int| 0 <= j < tail.len() ==> #[trigger] tail[j] == l[j + 1]);
        lemma_split_single(tail);
        assert(seq![l[0]] + tail =~= l);
        assert(split_lines(tail).skip(1) =~= Seq::<Seq<char>>::empty());
        assert(split_lines(l) =~= seq![seq![l[0]] + tail] + split_lines(tail).skip(1));
        assert(split_lines(l).len() == 1);
        assert(split_lines(l)[0] == seq![l[0]] + tail);
        assert(split_lines(l)[0] == l);
        assert(split_lines(l) =~= seq![l]);
    }
}

/// Splitting after a newline-free first line peels it off.
proof fn lemma_split_peel(l: Seq<char>, t: Seq<char>)
    requires
        no_nl(l),
    ensures
        split_lines(l + seq!['\n'] + t) == seq![l] + split_lines(t),
    decreases l.len(),
{
    let s = l + seq!['\n'] + t;
    if l.len() == 0 {
        assert(l =~= Seq::<char>::empty());
        assert(s[0] == '\n');
        assert(s.skip(1) =~= t);
        assert(split_lines(s) =~= seq![Seq::<char>::empty()] + split_lines(t));
        assert(seq![l] + split_lines(t) =~= seq![Seq::<char>::empty()] + split_lines(t));
    } else {
        assert(s[0] == l[0]);
        assert(l[0] != '\n');
        let ltail = l.skip(1);
        assert(forall|j: int| 0 <= j < ltail.len() ==> #[trigger] ltail[j] == l[j + 1]);
        lemma_split_peel(ltail, t);
        assert(s.skip(1) =~= ltail + seq!['\n'] + t);
        let sub = split_lines(s.skip(1));
        assert(sub == seq![ltail] + split_lines(t));
        lemma_split_nonempty(t);
        assert(sub[0] == ltail);
        assert(sub.skip(1) =~= split_lines(t));
        assert(split_lines(s) =~= seq![seq![s[0]] + ltail] + split_lines(t));
        assert(seq![s[0]] + ltail =~= l);
        assert(split_lines(s) =~= seq![l] + split_lines(t));
    }
}

/// Splitting inverts joining for newline-free lines.
proof fn lemma_split_join(ls: Seq<Seq<char>>)
    requires
        ls.len() >= 1,
        forall|k: int| 0 <= k < ls.len() ==> no_nl(#[trigger] ls[k]),
    ensures
        split_lines(join_lines(ls)) == ls,
    decreases ls.len(),
{
    if ls.len() == 1 {
        lemma_split_single(ls[0]);
        assert(split_lines(join_lines(ls)) =~= ls);
    } else {
        let tail = ls.skip(1);
        assert(forall|k: int| 0 <= k < tail.len() ==> #[trigger] tail[k] == ls[k + 1]);
        lemma_split_join(tail);
        lemma_split_peel(ls[0], join_lines(tail));
        assert(split_lines(join_lines(ls)) =~= seq![ls[0]] + tail);
        assert(seq![ls[0]] + tail =~= ls);
    }
}

/// Scanning inverts escaping.
proof fn lemma_scan_escape(v: Seq<char>, rest: Seq<char>)
    ensures
        scan_str(escape_seq(v) + seq!['"'] + rest) == Some((v, rest)),
    decreases v.len(),
{
    let s = escape_seq(v) + seq!['"'] + rest;
    if v.len() == 0 {
        assert(s[0] == '"');
        assert(s.skip(1) =~= rest);
        assert(scan_str(s) == Some((Seq::<char>::empty(), rest)));
        assert(Seq::<char>::empty() =~= v);
    } else {
        let tail = v.skip(1);
        lemma_scan_escape(tail, rest);
        let h = esc_char(v[0]);
        assert(escape_seq(v) == h + escape_seq(tail));
        if v[0] == '\\' || v[0] == '"' || v[0] == '\n' || v[0] == '\t' || v[0] == '\r' {
            assert(h.len() == 2);
            assert(s[0] == h[0] && s[1] == h[1]);
            assert(s[0] == '\\');
            assert(s.skip(2) =~= escape_seq(tail) + seq!['"'] + rest);
            assert(s[1] == 'n' || s[1] == 't' || s[1] == 'r' || s[1] == '"' || s[1] == '\\');
            assert(unesc_char(s[1]) == v[0]);
            assert(scan_str(s) == scan_prepend(seq![v[0]], Some((tail, rest))));
            assert(seq![v[0]] + tail =~= v);
        } else {
            assert(h.len() == 1 && h[0] == v[0]);
            assert(s[0] == v[0]);
            assert(s[0] != '"' && s[0] != '\\');
            assert(s.skip(1) =~= escape_seq(tail) + seq!['"'] + rest);
            assert(scan_str(s) == scan_prepend(seq![v[0]], Some((tail, rest))));
            assert(seq![v[0]] + tail =~= v);
        }
    }
}

/// Parsing a rendered value yields the value.
proof fn lemma_parse_string_quoted(v: Seq<char>)
    ensures
        parse_string(seq![' '] + quoted(v)) == Some(v),
{
    let w = seq![' '] + quoted(v);
    assert(w[0] == ' ');
    assert(w.skip(1) =~= quoted(v));
    assert(quoted(v)[0] == '"');
    assert(lt_ws(quoted(v)) == quoted(v));
    assert(lt_ws(w) == quoted(v));
    assert(quoted(v).skip(1) =~= escape_seq(v) + seq!['"'] + Seq::<char>::empty());
    lemma_scan_escape(v, Seq::<char>::empty());
    assert(scan_str(quoted(v).skip(1)) == Some((v, Seq::<char>::empty())));
}

/// A rendered key-value line splits into its key and value.
proof fn lemma_split_kv_rendered(keyws: Seq<char>, v: Seq<char>)
    requires
        forall|j: int| 0 <= j < keyws.len() ==> keyws[j] != '=',
    ensures
        split_kv(kv_line(keyws, v)) == Some((keyws, seq![' '] + quoted(v))),
{
    lemma_literal_facts();
    let l = kv_line(keyws, v);
    assert(l[keyws.len() as int] == "= "@[0]);
    assert(forall|j: int| 0 <= j < keyws.len() ==> l[j] == keyws[j]);
    lemma_split_kv_at(l, keyws.len() as int);
    assert(l.take(keyws.len() as int) =~= keyws);
    assert(l.skip(keyws.len() as int + 1) =~= seq![' '] + quoted(v));
}

/// A header line performs the block switch.
proof fn lemma_step_header(st: PState)
    ensures
        step_line("[[workspaces]]"@, st) == close_cur(st),
{
    lemma_literal_facts();
}

/// How a rendered field line steps: the stated field is set.
proof fn lemma_step_root_line(v: Seq<char>, st: PState)
    requires
        st.cur is None,
    ensures
        step_line(kv_line("workspace_root "@, v), st) == Some(
            PState { root: Some(v), entries: st.entries, cur: None },
        ),
{
    lemma_literal_facts();
    let l = kv_line("workspace_root "@, v);
    assert(l[0] == "workspace_root "@[0]);
    assert(l.len() > 0 && l[0] != '#');
    assert(l != "[[workspaces]]"@) by {
        if l == "[[workspaces]]"@ {
            assert(l[0] == '[');
        }
    }
    lemma_split_kv_rendered("workspace_root "@, v);
    lemma_parse_string_quoted(v);
}

proof fn lemma_step_field_line(keyws: Seq<char>, v: Seq<char>, st: PState, p: Partial)
    requires
        st.cur == Some(p),
        keyws == "repo "@ || keyws == "url "@ || keyws == "branch "@ || keyws == "path "@,
    ensures
        step_line(kv_line(keyws, v), st) == Some(
            PState {
                root: st.root,
                entries: st.entries,
                cur: Some(
                    if keyws == "repo "@ {
                        Partial { repo: Some(v), ..p }
                    } else if keyws == "url "@ {
                        Partial { url: Some(v), ..p }
                    } else if keyws == "branch "@ {
                        Partial { branch: Some(v), ..p }
                    } else {
                        Partial { path: Some(v), ..p }
                    },
                ),
            },
        ),
{
    lemma_literal_facts();
    let l = kv_line(keyws, v);
    assert(l[0] == keyws[0]);
    assert(l.len() > 0 && l[0] != '#');
    assert(l != "[[workspaces]]"@) by {
        if l == "[[workspaces]]"@ {
            assert(l[0] == '[');
        }
    }
    lemma_split_kv_rendered(keyws, v);
    lemma_parse_string_quoted(v);
    // The four keys are pairwise distinct.
    assert("repo "@ != "url "@) by {
        assert("repo "@.len() != "url "@.len());
    }
    assert("repo "@ != "branch "@) by {
        assert("repo "@.len() != "branch "@.len());
    }
    assert("repo "@ != "path "@) by {
        assert("repo "@[0] != "path "@[0]);
    }
    assert("url "@ != "branch "@) by {
        assert("url "@.len() != "branch "@.len());
    }
    assert("url "@ != "path "@) by {
        assert("url "@.len() != "path "@.len());
    }
    assert("branch "@ != "path "@) by {
        assert("branch "@.len() != "path "@.len());
    }
}

/// Running lines in sequence splits over concatenation.
proof fn lemma_run_append(a: Seq<Seq<char>>, b: Seq<Seq<char>>, st: PState)
    ensures
        run_lines(a + b, st) == (match run_lines(a, st) {
            None => None::<PState>,
            Some(st2) => run_lines(b, st2),
        }),
    decreases a.len(),
{
    if a.len() == 0 {
        assert(a + b =~= b);
    } else {
        assert((a + b)[0] == a[0]);
        assert((a + b).skip(1) =~= a.skip(1) + b);
        match step_line(a[0], st) {
            None => {},
            Some(st2) => {
                lemma_run_append(a.skip(1), b, st2);
            },
        }
    }
}

/// The fields of a finished entry, all present.
pub open spec fn partial_of(e: EntryModel) -> Partial {
    Partial { repo: Some(e.repo), url: Some(e.url), branch: Some(e.branch), path: e.path }
}

/// The entries a block-in-progress contributes when it is closed.
pub open spec fn closed_of(c: Option<Partial>) -> Seq<EntryModel> {
    match c {
        None => Seq::empty(),
        Some(p) => seq![entry_of_partial(p)],
    }
}

/// A state between blocks: nothing read, or a finished block.
pub open spec fn cur_ok(c: Option<Partial>) -> bool {
    match c {
        None => true,
        Some(p) => partial_complete(p),
    }
}

/// Running the lines of one entry closes the open block and leaves the
/// entry's own block open and finished.
proof fn lemma_run_one_entry(e: EntryModel, st: PState)
    requires
        cur_ok(st.cur),
    ensures
        run_lines(entry_lines(e), st) == Some(
            PState {
                root: st.root,
                entries: st.entries + closed_of(st.cur),
                cur: Some(partial_of(e)),
            },
        ),
{
    lemma_literal_facts();
    let st1 = PState {
        root: st.root,
        entries: st.entries + closed_of(st.cur),
        cur: Some(empty_partial()),
    };
    lemma_step_header(st);
    assert(close_cur(st) == Some(st1)) by {
        match st.cur {
            None => {
                assert(st.entries + closed_of(st.cur) =~= st.entries);
            },
            Some(p) => {
                assert(st.entries + closed_of(st.cur) =~= st.entries.push(entry_of_partial(p)));
            },
        }
    }
    let p1 = empty_partial();
    let p2 = Partial { repo: Some(e.repo), ..p1 };
    let p3 = Partial { url: Some(e.url), ..p2 };
    let p4 = Partial { branch: Some(e.branch), ..p3 };
    let st2 = PState { root: st1.root, entries: st1.entries, cur: Some(p2) };
    let st3 = PState { root: st1.root, entries: st1.entries, cur: Some(p3) };
    let st4 = PState { root: st1.root, entries: st1.entries, cur: Some(p4) };
    lemma_step_field_line("repo "@, e.repo, st1, p1);
    lemma_step_field_line("url "@, e.url, st2, p2);
    lemma_step_field_line("branch "@, e.branch, st3, p3);
    let ls = entry_lines(e);
    if e.path is Some {
        let p5 = Partial { path: Some(e.path.unwrap()), ..p4 };
        let st5 = PState { root: st1.root, entries: st1.entries, cur: Some(p5) };
        lemma_step_field_line("path "@, e.path.unwrap(), st4, p4);
        assert(p5 == partial_of(e));
        assert(ls =~= seq![
            "[[workspaces]]"@,
            kv_line("repo "@, e.repo),
            kv_line("url "@, e.url),
            kv_line("branch "@, e.branch),
            kv_line("path "@, e.path.unwrap()),
            Seq::<char>::empty(),
        ]);
        assert(ls.skip(1) =~= seq![
            kv_line("repo "@, e.repo),
            kv_line("url "@, e.url),
            kv_line("branch "@, e.branch),
            kv_line("path "@, e.path.unwrap()),
            Seq::<char>::empty(),
        ]);
        assert(ls.skip(2) =~= seq![
            kv_line("url "@, e.url),
            kv_line("branch "@, e.branch),
            kv_line("path "@, e.path.unwrap()),
            Seq::<char>::empty(),
        ]);
        assert(ls.skip(3) =~= seq![
            kv_line("branch "@, e.branch),
            kv_line("path "@, e.path.unwrap()),
            Seq::<char>::empty(),
        ]);
        assert(ls.skip(4) =~= seq![kv_line("path "@, e.path.unwrap()), Seq::<char>::empty()]);
        assert(ls.skip(5) =~= seq![Seq::<char>::empty()]);
        assert(ls.skip(6) =~= Seq::<Seq<char>>::empty());
        assert(ls.skip(1) == ls.skip(1).skip(0));
        assert(run_lines(ls, st) == run_lines(ls.skip(1), st1));
        assert(run_lines(ls.skip(1), st1) == run_lines(ls.skip(2), st2)) by {
            assert(ls.skip(1)[0] == kv_line("repo "@, e.repo));
            assert(ls.skip(1).skip(1) =~= ls.skip(2));
        }
        assert(run_lines(ls.skip(2), st2) == run_lines(ls.skip(3), st3)) by {
            assert(ls.skip(2)[0] == kv_line("url "@, e.url));
            assert(ls.skip(2).skip(1) =~= ls.skip(3));
        }
        assert(run_lines(ls.skip(3), st3) == run_lines(ls.skip(4), st4)) by {
            assert(ls.skip(3)[0] == kv_line("branch "@, e.branch));
            assert(ls.skip(3).skip(1) =~= ls.skip(4));
        }
        assert(run_lines(ls.skip(4), st4) == run_lines(ls.skip(5), st5)) by {
            assert(ls.skip(4)[0] == kv_line("path "@, e.path.unwrap()));
            assert(ls.skip(4).skip(1) =~= ls.skip(5));
        }
        assert(run_lines(ls.skip(5), st5) == run_lines(ls.skip(6), st5)) by {
            assert(ls.skip(5)[0] == Seq::<char>::empty());
            assert(step_line(Seq::<char>::empty(), st5) == Some(st5));
            assert(ls.skip(5).skip(1) =~= ls.skip(6));
        }
        assert(run_lines(ls.skip(6), st5) == Some(st5));
    } else {
        assert(p4 == partial_of(e));
        assert(ls =~= seq![
            "[[workspaces]]"@,
            kv_line("repo "@, e.repo),
            kv_line("url "@, e.url),
            kv_line("branch "@, e.branch),
            Seq::<char>::empty(),
        ]);
        assert(ls.skip(1) =~= seq![
            kv_line("repo "@, e.repo),
            kv_line("url "@, e.url),
            kv_line("branch "@, e.branch),
            Seq::<char>::empty(),
        ]);
        assert(ls.skip(2) =~= seq![
            kv_line("url "@, e.url),
            kv_line("branch "@, e.branch),
            Seq::<char>::empty(),
        ]);
        assert(ls.skip(3) =~= seq![kv_line("branch "@, e.branch), Seq::<char>::empty()]);
        assert(ls.skip(4) =~= seq![Seq::<char>::empty()]);
        assert(ls.skip(5) =~= Seq::<Seq<char>>::empty());
        assert(run_lines(ls, st) == run_lines(ls.skip(1), st1));
        assert(run_lines(ls.skip(1), st1) == run_lines(ls.skip(2), st2)) by {
            assert(ls.skip(1)[0] == kv_line("repo "@, e.repo));
            assert(ls.skip(1).skip(1) =~= ls.skip(2));
        }
        assert(run_lines(ls.skip(2), st2) == run_lines(ls.skip(3), st3)) by {
            assert(ls.skip(2)[0] == kv_line("url "@, e.url));
            assert(ls.skip(2).skip(1) =~= ls.skip(3));
        }
        assert(run_lines(ls.skip(3), st3) == run_lines(ls.skip(4), st4)) by {
            assert(ls.skip(3)[0] == kv_line("branch "@, e.branch));
            assert(ls.skip(3).skip(1) =~= ls.skip(4));
        }
        assert(run_lines(ls.skip(4), st4) == run_lines(ls.skip(5), st4)) by {
            assert(ls.skip(4)[0] == Seq::<char>::empty());
            assert(step_line(Seq::<char>::empty(), st4) == Some(st4));
            assert(ls.skip(4).skip(1) =~= ls.skip(5));
        }
        assert(run_lines(ls.skip(5), st4) == Some(st4));
    }
}

/// Running the lines of a list of entries closes them all but the last,
/// which remains as the open, finished block.
proof fn lemma_run_entries(es: Seq<EntryModel>, st: PState)
    requires
        cur_ok(st.cur),
    ensures
        run_lines(entries_lines(es), st) == (if es.len() == 0 {
            Some(st)
        } else {
            Some(
                PState {
                    root: st.root,
                    entries: st.entries + closed_of(st.cur) + es.drop_last(),
                    cur: Some(partial_of(es.last())),
                },
            )
        }),
    decreases es.len(),
{
    if es.len() == 0 {
    } else {
        let tail = es.skip(1);
        lemma_entries_lines_app(seq![es[0]], tail);
        assert(seq![es[0]] + tail =~= es);
        assert(entries_lines(es) == entries_lines(seq![es[0]]) + entries_lines(tail));
        assert(entries_lines(seq![es[0]]) =~= entry_lines(es[0])) by {
            assert(seq![es[0]].skip(1) =~= Seq::<EntryModel>::empty());
            assert(entries_lines(seq![es[0]].skip(1)) =~= Seq::<Seq<char>>::empty());
            assert(entries_lines(seq![es[0]]) =~= entry_lines(es[0]) + Seq::<Seq<char>>::empty());
        }
        lemma_run_append(entry_lines(es[0]), entries_lines(tail), st);
        lemma_run_one_entry(es[0], st);
        let st1 = PState {
            root: st.root,
            entries: st.entries + closed_of(st.cur),
            cur: Some(partial_of(es[0])),
        };
        assert(partial_complete(partial_of(es[0])));
        lemma_run_entries(tail, st1);
        if tail.len() == 0 {
            assert(es.drop_last() =~= Seq::<EntryModel>::empty());
            assert(es.last() == es[0]);
            assert(st1.entries =~= st.entries + closed_of(st.cur) + es.drop_last());
        } else {
            assert(entry_of_partial(partial_of(es[0])) == es[0]);
            assert(closed_of(st1.cur) =~= seq![es[0]]);
            assert(st1.entries + closed_of(st1.cur) + tail.drop_last() =~= st.entries + closed_of(
                st.cur,
            ) + es.drop_last()) by {
                assert(es.drop_last() =~= seq![es[0]] + tail.drop_last());
            }
            assert(tail.last() == es.last());
        }
    }
}

/// The save/load round trip: rendering any registry and parsing the result
/// yields the same registry, field for field.
pub proof fn lemma_render_parse(m: StateModel)
    ensures
        parse_doc(render_seq(m)) == Some(m),
{
    let ls = doc_lines(m);
    if m.root is None && m.entries.len() == 0 {
        assert(entries_lines(m.entries) =~= Seq::<Seq<char>>::empty());
        assert(ls =~= Seq::<Seq<char>>::empty());
        assert(render_seq(m) =~= Seq::<char>::empty());
        let sp = split_lines(render_seq(m));
        assert(sp =~= seq![Seq::<char>::empty()]);
        assert(step_line(Seq::<char>::empty(), init_pstate()) == Some(init_pstate()));
        assert(sp.skip(1) =~= Seq::<Seq<char>>::empty());
        assert(run_lines(sp, init_pstate()) == Some(init_pstate()));
        assert(finalize_pstate(init_pstate()) == Some(StateModel { root: None, entries: Seq::empty() }));
        assert(m.entries =~= Seq::<EntryModel>::empty());
        assert(m == StateModel { root: None, entries: Seq::<EntryModel>::empty() });
    } else {
        lemma_doc_lines_no_nl(m);
        assert(ls.len() >= 1) by {
            if m.root is Some {
            } else {
                assert(m.entries.len() > 0);
                lemma_entries_lines_app(seq![m.entries[0]], m.entries.skip(1));
                assert(seq![m.entries[0]] + m.entries.skip(1) =~= m.entries);
                assert(entry_lines(m.entries[0]).len() > 0);
            }
        }
        lemma_split_join(ls);
        let rl = (match m.root {
            Some(r) => seq![kv_line("workspace_root "@, r)],
            None => Seq::<Seq<char>>::empty(),
        });
        let st_root = PState { root: m.root, entries: Seq::empty(), cur: None };
        lemma_run_append(rl, entries_lines(m.entries), init_pstate());
        assert(run_lines(rl, init_pstate()) == Some(st_root)) by {
            match m.root {
                Some(r) => {
                    lemma_step_root_line(r, init_pstate());
                    assert(rl[0] == kv_line("workspace_root "@, r));
                    assert(step_line(rl[0], init_pstate()) == Some(st_root));
                    assert(rl.skip(1) =~= Seq::<Seq<char>>::empty());
                    assert(run_lines(rl, init_pstate()) == run_lines(rl.skip(1), st_root));
                    assert(run_lines(rl.skip(1), st_root) == Some(st_root));
                },
                None => {
                    assert(rl.len() == 0);
                    assert(rl =~= Seq::<Seq<char>>::empty());
                },
            }
        }
        lemma_run_entries(m.entries, st_root);
        if m.entries.len() == 0 {
            assert(run_lines(ls, init_pstate()) == Some(st_root));
            assert(finalize_pstate(st_root) == Some(StateModel { root: m.root, entries: Seq::empty() }));
            assert(m.entries =~= Seq::<EntryModel>::empty());
            assert(m == StateModel { root: m.root, entries: m.entries });
        } else {
            let stf = PState {
                root: m.root,
                entries: Seq::empty() + closed_of(None) + m.entries.drop_last(),
                cur: Some(partial_of(m.entries.last())),
            };
            assert(run_lines(ls, init_pstate()) == Some(stf));
            assert(partial_complete(partial_of(m.entries.last())));
            assert(entry_of_partial(partial_of(m.entries.last())) == m.entries.last());
            assert(stf.entries.push(m.entries.last()) =~= m.entries) by {
                assert(stf.entries =~= m.entries.drop_last());
            }
            assert(finalize_pstate(stf) == Some(StateModel { root: m.root, entries: stf.entries.push(m.entries.last()) }));
            assert(m == StateModel { root: m.root, entries: m.entries });
        }
    }
}

} // verus!
