//! The per-workspace hints document: a line-based text format with the
//! runtime knobs of one repo (image, ports, setup command, environment,
//! extra routed commands, anonymously mounted directories, shared files).
//! Per-field defaults apply when a key is absent; unknown keys are ignored.
//! Reading the file itself is left to unverified callers.

use vstd::prelude::*;
use vstd::string::*;

use crate::config::{RepoHints, SharedConfig};
use crate::persist::{
    key_is, lemma_split_kv_at, lemma_split_kv_none, parse_string, parse_string_exec, split_into_lines,
    split_kv, split_lines,
};
use crate::strutil::{chars_eq, str_to_chars, string_of};

verus! {

/// Errors of reading the hints document.
#[derive(Debug)]
pub enum HintsError {
    /// The document is malformed; carries the offending line number
    /// (counting from one).
    ParseError(usize),
}

/// The mathematical value of a hints record.
pub ghost struct HintsModel {
    pub image: Seq<char>,
    pub ports: Seq<u16>,
    pub setup: Option<Seq<char>>,
    pub env: Seq<(Seq<char>, Seq<char>)>,
    pub extra_commands: Seq<Seq<char>>,
    pub anonymous_volumes: Seq<Seq<char>>,
    pub shared: Option<Seq<Seq<char>>>,
}

/// The value of a hints record held in memory.
pub open spec fn hints_view(h: RepoHints) -> HintsModel {
    HintsModel {
        image: h.image@,
        ports: h.ports@,
        setup: match h.setup {
            Some(s) => Some(s@),
            None => None,
        },
        env: h.env@.map_values(|p: (String, String)| (p.0@, p.1@)),
        extra_commands: h.extra_commands@.map_values(|s: String| s@),
        anonymous_volumes: h.anonymous_volumes@.map_values(|s: String| s@),
        shared: match h.shared {
            Some(s) => Some(s.files@.map_values(|f: String| f@)),
            None => None,
        },
    }
}

// ---------------------------------------------------------------------------
// Array values
// ---------------------------------------------------------------------------
/// Where an integer-array scan stands.
pub ghost enum NumMode {
    /// Before the opening bracket.
    Lead,
    /// Expecting a number or the closing bracket.
    Expect,
    /// Inside a number, with its value so far.
    Num(int),
    /// After a number, expecting a comma or the closing bracket.
    After,
    /// After the closing bracket.
    Done,
}

pub ghost struct NumSt {
    pub mode: NumMode,
    pub list: Seq<u16>,
}

/// The value of a decimal digit character.
pub open spec fn digit_val(c: char) -> Option<int> {
    if c == '0' {
        Some(0int)
    } else if c == '1' {
        Some(1int)
    } else if c == '2' {
        Some(2int)
    } else if c == '3' {
        Some(3int)
    } else if c == '4' {
        Some(4int)
    } else if c == '5' {
        Some(5int)
    } else if c == '6' {
        Some(6int)
    } else if c == '7' {
        Some(7int)
    } else if c == '8' {
        Some(8int)
    } else if c == '9' {
        Some(9int)
    } else {
        None
    }
}

pub open spec fn is_ws_char(c: char) -> bool {
    c == ' ' || c == '\t'
}

/// One character of an integer array such as `[3000, 3001]`.
pub open spec fn num_step(c: char, st: NumSt) -> Option<NumSt> {
    match st.mode {
        NumMode::Lead => if is_ws_char(c) {
            Some(st)
        } else if c == '[' {
            Some(NumSt { mode: NumMode::Expect, ..st })
        } else {
            None
        },
        NumMode::Expect => if is_ws_char(c) {
            Some(st)
        } else if c == ']' {
            Some(NumSt { mode: NumMode::Done, ..st })
        } else {
            match digit_val(c) {
                Some(d) => Some(NumSt { mode: NumMode::Num(d), ..st }),
                None => None,
            }
        },
        NumMode::Num(acc) => match digit_val(c) {
            Some(d) => if acc * 10 + d > 65535 {
                None
            } else {
                Some(NumSt { mode: NumMode::Num(acc * 10 + d), ..st })
            },
            None => if c == ',' {
                Some(NumSt { mode: NumMode::Expect, list: st.list.push(acc as u16) })
            } else if c == ']' {
                Some(NumSt { mode: NumMode::Done, list: st.list.push(acc as u16) })
            } else if is_ws_char(c) {
                Some(NumSt { mode: NumMode::After, list: st.list.push(acc as u16) })
            } else {
                None
            },
        },
        NumMode::After => if is_ws_char(c) {
            Some(st)
        } else if c == ',' {
            Some(NumSt { mode: NumMode::Expect, ..st })
        } else if c == ']' {
            Some(NumSt { mode: NumMode::Done, ..st })
        } else {
            None
        },
        NumMode::Done => if is_ws_char(c) {
            Some(st)
        } else {
            None
        },
    }
}

/// Run the integer-array scan over the rest of a line; the bracketed list
/// must close and only whitespace may follow.
pub open spec fn num_run(s: Seq<char>, st: NumSt) -> Option<Seq<u16>>
    decreases s.len(),
{
    if s.len() == 0 {
        if st.mode is Done {
            Some(st.list)
        } else {
            None
        }
    } else {
        match num_step(s[0], st) {
            None => None,
            Some(st2) => num_run(s.skip(1), st2),
        }
    }
}

/// The integer array a value denotes.
pub open spec fn parse_u16_array(v: Seq<char>) -> Option<Seq<u16>> {
    num_run(v, NumSt { mode: NumMode::Lead, list: Seq::empty() })
}

/// Parse an integer array from the value part of a line.
fn parse_u16_array_exec(l: &Vec<char>, pos: usize) -> (r: Option<Vec<u16>>)
    requires
        pos <= l@.len(),
    ensures
        match r {
            Some(ports) => parse_u16_array(l@.skip(pos as int)) == Some(ports@),
            None => parse_u16_array(l@.skip(pos as int)) is None,
        },
{
    let ghost whole = l@.skip(pos as int);
    let n = l.len();
    let mut list: Vec<u16> = Vec::new();
    // modes: 0 lead, 1 expect, 2 number, 3 after, 4 done
    let mut mode: u8 = 0;
    let mut acc: u32 = 0;
    let mut i: usize = pos;
    proof {
        assert(whole.skip(0) =~= whole);
    }
    while i < n
        invariant
            pos <= i <= n,
            n == l@.len(),
            whole == l@.skip(pos as int),
            mode <= 4,
            mode == 2 ==> acc <= 65535,
            parse_u16_array(whole) == num_run(
                l@.skip(i as int),
                NumSt {
                    mode: (if mode == 0 {
                        NumMode::Lead
                    } else if mode == 1 {
                        NumMode::Expect
                    } else if mode == 2 {
                        NumMode::Num(acc as int)
                    } else if mode == 3 {
                        NumMode::After
                    } else {
                        NumMode::Done
                    }),
                    list: list@,
                },
            ),
        decreases n - i,
    {
        let ghost rest = l@.skip(i as int);
        let ghost st0 = NumSt {
            mode: (if mode == 0 {
                NumMode::Lead
            } else if mode == 1 {
                NumMode::Expect
            } else if mode == 2 {
                NumMode::Num(acc as int)
            } else if mode == 3 {
                NumMode::After
            } else {
                NumMode::Done
            }),
            list: list@,
        };
        proof {
            assert(rest[0] == l@[i as int]);
            assert(rest.skip(1) =~= l@.skip(i + 1));
        }
        let c = l[i];
        let is_ws = c == ' ' || c == '\t';
        let digit: Option<u32> = if c == '0' {
            Some(0)
        } else if c == '1' {
            Some(1)
        } else if c == '2' {
            Some(2)
        } else if c == '3' {
            Some(3)
        } else if c == '4' {
            Some(4)
        } else if c == '5' {
            Some(5)
        } else if c == '6' {
            Some(6)
        } else if c == '7' {
            Some(7)
        } else if c == '8' {
            Some(8)
        } else if c == '9' {
            Some(9)
        } else {
            None
        };
        if mode == 0 {
            if is_ws {
            } else if c == '[' {
                mode = 1;
            } else {
                proof {
                    assert(num_step(rest[0], st0) is None);
                }
                return None;
            }
        } else if mode == 1 {
            if is_ws {
            } else if c == ']' {
                mode = 4;
            } else {
                match digit {
                    Some(d) => {
                        acc = d;
                        mode = 2;
                    },
                    None => {
                        proof {
                            assert(num_step(rest[0], st0) is None);
                        }
                        return None;
                    },
                }
            }
        } else if mode == 2 {
            match digit {
                Some(d) => {
                    if acc * 10 + d > 65535 {
                        proof {
                            assert(num_step(rest[0], st0) is None);
                        }
                        return None;
                    }
                    acc = acc * 10 + d;
                },
                None => {
                    if c == ',' {
                        list.push(acc as u16);
                        mode = 1;
                    } else if c == ']' {
                        list.push(acc as u16);
                        mode = 4;
                    } else if is_ws {
                        list.push(acc as u16);
                        mode = 3;
                    } else {
                        proof {
                            assert(num_step(rest[0], st0) is None);
                        }
                        return None;
                    }
                },
            }
        } else if mode == 3 {
            if is_ws {
            } else if c == ',' {
                mode = 1;
            } else if c == ']' {
                mode = 4;
            } else {
                proof {
                    assert(num_step(rest[0], st0) is None);
                }
                return None;
            }
        } else {
            if is_ws {
            } else {
                proof {
                    assert(num_step(rest[0], st0) is None);
                }
                return None;
            }
        }
        i = i + 1;
    }
    proof {
        assert(l@.skip(n as int) =~= Seq::<char>::empty());
    }
    if mode == 4 {
        Some(list)
    } else {
        None
    }
}

/// Where a string-array scan stands.
pub ghost enum StrMode {
    /// Before the opening bracket.
    Lead,
    /// Expecting a string or the closing bracket.
    Expect,
    /// Inside a quoted string.
    Inside,
    /// Inside a quoted string, after a backslash.
    Escaped,
    /// After a string, expecting a comma or the closing bracket.
    After,
    /// After the closing bracket.
    Done,
}

pub ghost struct StrSt {
    pub mode: StrMode,
    pub list: Seq<Seq<char>>,
    pub cur: Seq<char>,
}

/// One character of a string array such as `[".env", ".vercel"]`.
pub open spec fn str_step(c: char, st: StrSt) -> Option<StrSt> {
    match st.mode {
        StrMode::Lead => if is_ws_char(c) {
            Some(st)
        } else if c == '[' {
            Some(StrSt { mode: StrMode::Expect, ..st })
        } else {
            None
        },
        StrMode::Expect => if is_ws_char(c) {
            Some(st)
        } else if c == ']' {
            Some(StrSt { mode: StrMode::Done, ..st })
        } else if c == '"' {
            Some(StrSt { mode: StrMode::Inside, cur: Seq::empty(), ..st })
        } else {
            None
        },
        StrMode::Inside => if c == '"' {
            Some(StrSt { mode: StrMode::After, list: st.list.push(st.cur), cur: Seq::empty() })
        } else if c == '\\' {
            Some(StrSt { mode: StrMode::Escaped, ..st })
        } else {
            Some(StrSt { cur: st.cur.push(c), ..st })
        },
        StrMode::Escaped => if c == 'n' || c == 't' || c == 'r' || c == '"' || c == '\\' {
            Some(
                StrSt { mode: StrMode::Inside, cur: st.cur.push(crate::persist::unesc_char(c)), ..st },
            )
        } else {
            None
        },
        StrMode::After => if is_ws_char(c) {
            Some(st)
        } else if c == ',' {
            Some(StrSt { mode: StrMode::Expect, ..st })
        } else if c == ']' {
            Some(StrSt { mode: StrMode::Done, ..st })
        } else {
            None
        },
        StrMode::Done => if is_ws_char(c) {
            Some(st)
        } else {
            None
        },
    }
}

/// Run the string-array scan over the rest of a line.
pub open spec fn str_run(s: Seq<char>, st: StrSt) -> Option<Seq<Seq<char>>>
    decreases s.len(),
{
    if s.len() == 0 {
        if st.mode is Done {
            Some(st.list)
        } else {
            None
        }
    } else {
        match str_step(s[0], st) {
            None => None,
            Some(st2) => str_run(s.skip(1), st2),
        }
    }
}

/// The string array a value denotes.
pub open spec fn parse_str_array(v: Seq<char>) -> Option<Seq<Seq<char>>> {
    str_run(v, StrSt { mode: StrMode::Lead, list: Seq::empty(), cur: Seq::empty() })
}

/// Parse a string array from the value part of a line.
fn parse_str_array_exec(l: &Vec<char>, pos: usize) -> (r: Option<Vec<String>>)
    requires
        pos <= l@.len(),
    ensures
        match r {
            Some(items) => parse_str_array(l@.skip(pos as int)) == Some(
                items@.map_values(|s: String| s@),
            ),
            None => parse_str_array(l@.skip(pos as int)) is None,
        },
{
    let ghost whole = l@.skip(pos as int);
    let n = l.len();
    let mut list: Vec<String> = Vec::new();
    let mut cur: Vec<char> = Vec::new();
    // modes: 0 lead, 1 expect, 2 inside, 3 escaped, 4 after, 5 done
    let mut mode: u8 = 0;
    let mut i: usize = pos;
    proof {
        assert(whole.skip(0) =~= whole);
        assert(list@.map_values(|s: String| s@) =~= Seq::<Seq<char>>::empty());
    }
    while i < n
        invariant
            pos <= i <= n,
            n == l@.len(),
            whole == l@.skip(pos as int),
            mode <= 5,
            parse_str_array(whole) == str_run(
                l@.skip(i as int),
                StrSt {
                    mode: (if mode == 0 {
                        StrMode::Lead
                    } else if mode == 1 {
                        StrMode::Expect
                    } else if mode == 2 {
                        StrMode::Inside
                    } else if mode == 3 {
                        StrMode::Escaped
                    } else if mode == 4 {
                        StrMode::After
                    } else {
                        StrMode::Done
                    }),
                    list: list@.map_values(|s: String| s@),
                    cur: cur@,
                },
            ),
        decreases n - i,
    {
        let ghost rest = l@.skip(i as int);
        let ghost st0 = StrSt {
            mode: (if mode == 0 {
                StrMode::Lead
            } else if mode == 1 {
                StrMode::Expect
            } else if mode == 2 {
                StrMode::Inside
            } else if mode == 3 {
                StrMode::Escaped
            } else if mode == 4 {
                StrMode::After
            } else {
                StrMode::Done
            }),
            list: list@.map_values(|s: String| s@),
            cur: cur@,
        };
        proof {
            assert(rest[0] == l@[i as int]);
            assert(rest.skip(1) =~= l@.skip(i + 1));
        }
        let c = l[i];
        let is_ws = c == ' ' || c == '\t';
        if mode == 0 {
            if is_ws {
            } else if c == '[' {
                mode = 1;
            } else {
                proof {
                    assert(str_step(rest[0], st0) is None);
                }
                return None;
            }
        } else if mode == 1 {
            if is_ws {
            } else if c == ']' {
                mode = 5;
            } else if c == '"' {
                cur = Vec::new();
                mode = 2;
            } else {
                proof {
                    assert(str_step(rest[0], st0) is None);
                }
                return None;
            }
        } else if mode == 2 {
            if c == '"' {
                let ghost before = list@.map_values(|s: String| s@);
                list.push(string_of(&cur));
                cur = Vec::new();
                mode = 4;
                proof {
                    assert(list@.map_values(|s: String| s@) =~= before.push(st0.cur));
                }
            } else if c == '\\' {
                mode = 3;
            } else {
                cur.push(c);
            }
        } else if mode == 3 {
            if c == 'n' {
                cur.push('\n');
                mode = 2;
            } else if c == 't' {
                cur.push('\t');
                mode = 2;
            } else if c == 'r' {
                cur.push('\r');
                mode = 2;
            } else if c == '"' {
                cur.push('"');
                mode = 2;
            } else if c == '\\' {
                cur.push('\\');
                mode = 2;
            } else {
                proof {
                    assert(str_step(rest[0], st0) is None);
                }
                return None;
            }
        } else if mode == 4 {
            if is_ws {
            } else if c == ',' {
                mode = 1;
            } else if c == ']' {
                mode = 5;
            } else {
                proof {
                    assert(str_step(rest[0], st0) is None);
                }
                return None;
            }
        } else {
            if is_ws {
            } else {
                proof {
                    assert(str_step(rest[0], st0) is None);
                }
                return None;
            }
        }
        i = i + 1;
    }
    proof {
        assert(l@.skip(n as int) =~= Seq::<char>::empty());
    }
    if mode == 5 {
        Some(list)
    } else {
        None
    }
}


// ---------------------------------------------------------------------------
// The document's lines
// ---------------------------------------------------------------------------
/// Which table the parser is reading.
pub ghost enum HSection {
    Top,
    Env,
    Shared,
}

/// The parser's state: each field seen so far, and the open table.
pub ghost struct HState {
    pub image: Option<Seq<char>>,
    pub ports: Option<Seq<u16>>,
    pub setup: Option<Seq<char>>,
    pub env: Seq<(Seq<char>, Seq<char>)>,
    pub extra: Option<Seq<Seq<char>>>,
    pub vols: Option<Seq<Seq<char>>>,
    pub shared_seen: bool,
    pub files: Option<Seq<Seq<char>>>,
    pub section: HSection,
}

pub open spec fn init_hstate() -> HState {
    HState {
        image: None,
        ports: None,
        setup: None,
        env: Seq::empty(),
        extra: None,
        vols: None,
        shared_seen: false,
        files: None,
        section: HSection::Top,
    }
}

/// Trailing spaces and tabs removed.
pub open spec fn rt_ws(s: Seq<char>) -> Seq<char>
    decreases s.len(),
{
    if s.len() > 0 && is_ws_char(s[s.len() - 1]) {
        rt_ws(s.drop_last())
    } else {
        s
    }
}

/// Surrounding spaces and tabs removed.
pub open spec fn trim_ws(s: Seq<char>) -> Seq<char> {
    crate::persist::lt_ws(rt_ws(s))
}

/// Consume one line: blank lines and comments are skipped, `[env]` and
/// `[shared]` open their tables, a known key sets its field, an environment
/// entry records its pair, an unknown key is ignored, and anything else is
/// malformed.
pub open spec fn step_hints_line(l: Seq<char>, st: HState) -> Option<HState> {
    if l.len() == 0 {
        Some(st)
    } else if l[0] == '#' {
        Some(st)
    } else if l == "[env]"@ {
        Some(HState { section: HSection::Env, ..st })
    } else if l == "[shared]"@ {
        Some(HState { section: HSection::Shared, shared_seen: true, ..st })
    } else {
        match split_kv(l) {
            None => None,
            Some((k, v)) => match st.section {
                HSection::Top => if k == "image "@ {
                    match parse_string(v) {
                        None => None,
                        Some(val) => Some(HState { image: Some(val), ..st }),
                    }
                } else if k == "ports "@ {
                    match parse_u16_array(v) {
                        None => None,
                        Some(val) => Some(HState { ports: Some(val), ..st }),
                    }
                } else if k == "setup "@ {
                    match parse_string(v) {
                        None => None,
                        Some(val) => Some(HState { setup: Some(val), ..st }),
                    }
                } else if k == "extra_commands "@ {
                    match parse_str_array(v) {
                        None => None,
                        Some(val) => Some(HState { extra: Some(val), ..st }),
                    }
                } else if k == "anonymous_volumes "@ {
                    match parse_str_array(v) {
                        None => None,
                        Some(val) => Some(HState { vols: Some(val), ..st }),
                    }
                } else {
                    Some(st)
                },
                HSection::Env => {
                    let key = trim_ws(k);
                    if key.len() == 0 {
                        None
                    } else {
                        match parse_string(v) {
                            None => None,
                            Some(val) => Some(HState { env: st.env.push((key, val)), ..st }),
                        }
                    }
                },
                HSection::Shared => if k == "files "@ {
                    match parse_str_array(v) {
                        None => None,
                        Some(val) => Some(HState { files: Some(val), ..st }),
                    }
                } else {
                    Some(st)
                },
            },
        }
    }
}

/// Consume lines in order.
pub open spec fn run_hints_lines(ls: Seq<Seq<char>>, st: HState) -> Option<HState>
    decreases ls.len(),
{
    if ls.len() == 0 {
        Some(st)
    } else {
        match step_hints_line(ls[0], st) {
            None => None,
            Some(st2) => run_hints_lines(ls.skip(1), st2),
        }
    }
}

/// Apply the per-field defaults to the fields seen.
pub open spec fn finalize_hints(st: HState) -> HintsModel {
    HintsModel {
        image: match st.image {
            Some(i) => i,
            None => "node:20"@,
        },
        ports: match st.ports {
            Some(p) => p,
            None => Seq::empty(),
        },
        setup: st.setup,
        env: st.env,
        extra_commands: match st.extra {
            Some(x) => x,
            None => Seq::empty(),
        },
        anonymous_volumes: match st.vols {
            Some(v) => v,
            None => seq!["node_modules"@],
        },
        shared: if st.shared_seen {
            Some(
                match st.files {
                    Some(f) => f,
                    None => Seq::empty(),
                },
            )
        } else {
            None
        },
    }
}

/// What a whole hints document denotes, if it is well formed.
pub open spec fn hints_doc(s: Seq<char>) -> Option<HintsModel> {
    match run_hints_lines(split_lines(s), init_hstate()) {
        None => None,
        Some(st) => Some(finalize_hints(st)),
    }
}

proof fn lemma_rt_ws_at(s: Seq<char>, b: int)
    requires
        0 <= b <= s.len(),
        forall|j: int| b <= j < s.len() ==> is_ws_char(#[trigger] s[j]),
        b == 0 || !is_ws_char(s[b - 1]),
    ensures
        rt_ws(s) == s.take(b),
    decreases s.len(),
{
    if s.len() == b {
        assert(s.take(b) =~= s);
    } else {
        assert(is_ws_char(s[s.len() - 1]));
        let d = s.drop_last();
        assert(forall|j: int| 0 <= j < d.len() ==> #[trigger] d[j] == s[j]);
        lemma_rt_ws_at(d, b);
        assert(d.take(b) =~= s.take(b));
    }
}

proof fn lemma_lt_ws_at(s: Seq<char>, a: int)
    requires
        0 <= a <= s.len(),
        forall|j: int| 0 <= j < a ==> is_ws_char(#[trigger] s[j]),
        a == s.len() || !is_ws_char(s[a]),
    ensures
        crate::persist::lt_ws(s) == s.skip(a),
    decreases a,
{
    if a == 0 {
        assert(s.skip(0) =~= s);
        if s.len() > 0 {
            assert(!is_ws_char(s[0]));
        }
    } else {
        assert(is_ws_char(s[0]));
        let t = s.skip(1);
        assert(forall|j: int| 0 <= j < t.len() ==> #[trigger] t[j] == s[j + 1]);
        lemma_lt_ws_at(t, a - 1);
        assert(t.skip(a - 1) =~= s.skip(a));
    }
}


/// The parser state made of the parser's working values.
pub open spec fn model_hs(
    image: Option<String>,
    ports: Option<Vec<u16>>,
    setup: Option<String>,
    env: Seq<(String, String)>,
    extra: Option<Vec<String>>,
    vols: Option<Vec<String>>,
    shared_seen: bool,
    files: Option<Vec<String>>,
    section: u8,
) -> HState {
    HState {
        image: match image {
            Some(s) => Some(s@),
            None => None,
        },
        ports: match ports {
            Some(p) => Some(p@),
            None => None,
        },
        setup: match setup {
            Some(s) => Some(s@),
            None => None,
        },
        env: env.map_values(|p: (String, String)| (p.0@, p.1@)),
        extra: match extra {
            Some(x) => Some(x@.map_values(|s: String| s@)),
            None => None,
        },
        vols: match vols {
            Some(v) => Some(v@.map_values(|s: String| s@)),
            None => None,
        },
        shared_seen,
        files: match files {
            Some(f) => Some(f@.map_values(|s: String| s@)),
            None => None,
        },
        section: if section == 0 {
            HSection::Top
        } else if section == 1 {
            HSection::Env
        } else {
            HSection::Shared
        },
    }
}

/// Parse a hints document. A malformed document is a ParseError carrying its
/// line number.
#[verifier::rlimit(100)]
#[verifier::spinoff_prover]
pub fn parse_hints(toml_str: &str) -> (r: Result<RepoHints, HintsError>)
    ensures
        match r {
            Ok(h) => hints_doc(toml_str@) == Some(hints_view(h)),
            Err(HintsError::ParseError(_)) => hints_doc(toml_str@) is None,
        },
{
    let cs = str_to_chars(toml_str);
    let lines = split_into_lines(&cs);
    let ghost linesq = split_lines(toml_str@);
    proof {
        assert(lines@.map_values(|l: Vec<char>| l@) == linesq);
    }
    let h_env = str_to_chars("[env]");
    let h_shared = str_to_chars("[shared]");
    let k_image = str_to_chars("image ");
    let k_ports = str_to_chars("ports ");
    let k_setup = str_to_chars("setup ");
    let k_extra = str_to_chars("extra_commands ");
    let k_vols = str_to_chars("anonymous_volumes ");
    let k_files = str_to_chars("files ");

    let mut image: Option<String> = None;
    let mut ports: Option<Vec<u16>> = None;
    let mut setup: Option<String> = None;
    let mut env: Vec<(String, String)> = Vec::new();
    let mut extra: Option<Vec<String>> = None;
    let mut vols: Option<Vec<String>> = None;
    let mut shared_seen = false;
    let mut files: Option<Vec<String>> = None;
    let mut section: u8 = 0;

    let n = lines.len();
    let mut li: usize = 0;
    proof {
        assert(linesq.skip(0) =~= linesq);
        assert(env@.map_values(|p: (String, String)| (p.0@, p.1@)) =~= Seq::<
            (Seq<char>, Seq<char>),
        >::empty());
        assert(model_hs(image, ports, setup, env@, extra, vols, shared_seen, files, section)
            == init_hstate());
    }
    while li < n
        invariant
            li <= n,
            n == lines.len(),
            lines@.map_values(|l: Vec<char>| l@) == linesq,
            linesq == split_lines(toml_str@),
            h_env@ == "[env]"@,
            h_shared@ == "[shared]"@,
            k_image@ == "image "@,
            k_ports@ == "ports "@,
            k_setup@ == "setup "@,
            k_extra@ == "extra_commands "@,
            k_vols@ == "anonymous_volumes "@,
            k_files@ == "files "@,
            section <= 2,
            run_hints_lines(linesq, init_hstate()) == run_hints_lines(
                linesq.skip(li as int),
                model_hs(image, ports, setup, env@, extra, vols, shared_seen, files, section),
            ),
        decreases n - li,
    {
        let ghost st0 = model_hs(
            image,
            ports,
            setup,
            env@,
            extra,
            vols,
            shared_seen,
            files,
            section,
        );
        let ghost rest = linesq.skip(li as int);
        let line = &lines[li];
        proof {
            assert(line@ == linesq[li as int]);
            assert(rest[0] == linesq[li as int]);
            assert(rest.skip(1) =~= linesq.skip(li + 1));
        }
        if line.len() == 0 {
            proof {
                assert(step_hints_line(line@, st0) == Some(st0));
            }
        } else if line[0] == '#' {
            proof {
                assert(line@[0] == '#');
                assert(step_hints_line(line@, st0) == Some(st0));
            }
        } else if chars_eq(line, &h_env) {
            section = 1;
            proof {
                assert(step_hints_line(line@, st0) == Some(
                    model_hs(
                        image,
                        ports,
                        setup,
                        env@,
                        extra,
                        vols,
                        shared_seen,
                        files,
                        section,
                    ),
                ));
            }
        } else if chars_eq(line, &h_shared) {
            section = 2;
            shared_seen = true;
            proof {
                assert(step_hints_line(line@, st0) == Some(
                    model_hs(
                        image,
                        ports,
                        setup,
                        env@,
                        extra,
                        vols,
                        shared_seen,
                        files,
                        section,
                    ),
                ));
            }
        } else {
            // a key-value line: find the first `=`
            let ll = line.len();
            let mut k: usize = 0;
            while k < ll && line[k] != '='
                invariant
                    k <= ll,
                    ll == line@.len(),
                    forall|j: int| 0 <= j < k ==> line@[j] != '=',
                decreases ll - k,
            {
                k = k + 1;
            }
            if k == ll {
                proof {
                    lemma_split_kv_none(line@);
                    assert(step_hints_line(line@, st0) is None);
                    assert(run_hints_lines(rest, st0) is None);
                    assert(hints_doc(toml_str@) is None);
                }
                return Err(HintsError::ParseError(li + 1));
            }
            proof {
                lemma_split_kv_at(line@, k as int);
            }
            if section == 0 {
                if key_is(line, k, &k_image) {
                    match parse_string_exec(line, k + 1) {
                        Some(val) => {
                            image = Some(val);
                        },
                        None => {
                            proof {
                                assert(step_hints_line(line@, st0) is None);
                                assert(run_hints_lines(rest, st0) is None);
                                assert(hints_doc(toml_str@) is None);
                            }
                            return Err(HintsError::ParseError(li + 1));
                        },
                    }
                } else if key_is(line, k, &k_ports) {
                    match parse_u16_array_exec(line, k + 1) {
                        Some(val) => {
                            ports = Some(val);
                        },
                        None => {
                            proof {
                                assert(step_hints_line(line@, st0) is None);
                                assert(run_hints_lines(rest, st0) is None);
                                assert(hints_doc(toml_str@) is None);
                            }
                            return Err(HintsError::ParseError(li + 1));
                        },
                    }
                } else if key_is(line, k, &k_setup) {
                    match parse_string_exec(line, k + 1) {
                        Some(val) => {
                            setup = Some(val);
                        },
                        None => {
                            proof {
                                assert(step_hints_line(line@, st0) is None);
                                assert(run_hints_lines(rest, st0) is None);
                                assert(hints_doc(toml_str@) is None);
                            }
                            return Err(HintsError::ParseError(li + 1));
                        },
                    }
                } else if key_is(line, k, &k_extra) {
                    match parse_str_array_exec(line, k + 1) {
                        Some(val) => {
                            extra = Some(val);
                        },
                        None => {
                            proof {
                                assert(step_hints_line(line@, st0) is None);
                                assert(run_hints_lines(rest, st0) is None);
                                assert(hints_doc(toml_str@) is None);
                            }
                            return Err(HintsError::ParseError(li + 1));
                        },
                    }
                } else if key_is(line, k, &k_vols) {
                    match parse_str_array_exec(line, k + 1) {
                        Some(val) => {
                            vols = Some(val);
                        },
                        None => {
                            proof {
                                assert(step_hints_line(line@, st0) is None);
                                assert(run_hints_lines(rest, st0) is None);
                                assert(hints_doc(toml_str@) is None);
                            }
                            return Err(HintsError::ParseError(li + 1));
                        },
                    }
                } else {
                    proof {
                        assert(step_hints_line(line@, st0) == Some(st0));
                    }
                }
            } else if section == 1 {
                // an environment entry: the trimmed key names the variable
                let mut a: usize = 0;
                while a < k && (line[a] == ' ' || line[a] == '\t')
                    invariant
                        a <= k,
                        k <= line@.len(),
                        forall|j: int| 0 <= j < a ==> is_ws_char(#[trigger] line@[j]),
                    decreases k - a,
                {
                    a = a + 1;
                }
                let mut b: usize = k;
                while b > a && (line[b - 1] == ' ' || line[b - 1] == '\t')
                    invariant
                        a <= b <= k,
                        k <= line@.len(),
                        forall|j: int| b <= j < k ==> is_ws_char(#[trigger] line@[j]),
                    decreases b,
                {
                    b = b - 1;
                }
                let ghost raw = line@.take(k as int);
                proof {
                    assert(forall|j: int| 0 <= j < k ==> #[trigger] raw[j] == line@[j]);
                }
                if a == b {
                    proof {
                        assert(forall|j: int| 0 <= j < k ==> is_ws_char(#[trigger] raw[j]));
                        lemma_rt_ws_at(raw, 0);
                        assert(raw.take(0) =~= Seq::<char>::empty());
                        assert(trim_ws(raw).len() == 0);
                        assert(step_hints_line(line@, st0) is None);
                        assert(run_hints_lines(rest, st0) is None);
                        assert(hints_doc(toml_str@) is None);
                    }
                    return Err(HintsError::ParseError(li + 1));
                }
                proof {
                    lemma_rt_ws_at(raw, b as int);
                    assert(raw.take(b as int) =~= line@.take(b as int));
                    lemma_lt_ws_at(line@.take(b as int), a as int);
                    assert(trim_ws(raw) =~= line@.take(b as int).skip(a as int));
                    assert(line@.take(b as int).skip(a as int) =~= line@.subrange(
                        a as int,
                        b as int,
                    ));
                }
                let mut keyc: Vec<char> = Vec::new();
                let mut j: usize = a;
                while j < b
                    invariant
                        a <= j <= b,
                        b <= line@.len(),
                        keyc@ == line@.subrange(a as int, j as int),
                    decreases b - j,
                {
                    keyc.push(line[j]);
                    j = j + 1;
                    proof {
                        assert(keyc@ =~= line@.subrange(a as int, j as int));
                    }
                }
                match parse_string_exec(line, k + 1) {
                    Some(val) => {
                        let ghost env_before = env@.map_values(
                            |p: (String, String)| (p.0@, p.1@),
                        );
                        env.push((string_of(&keyc), val));
                        proof {
                            assert(env@.map_values(|p: (String, String)| (p.0@, p.1@))
                                =~= env_before.push((trim_ws(raw), val@)));
                        }
                    },
                    None => {
                        proof {
                            assert(step_hints_line(line@, st0) is None);
                            assert(run_hints_lines(rest, st0) is None);
                            assert(hints_doc(toml_str@) is None);
                        }
                        return Err(HintsError::ParseError(li + 1));
                    },
                }
            } else {
                if key_is(line, k, &k_files) {
                    match parse_str_array_exec(line, k + 1) {
                        Some(val) => {
                            files = Some(val);
                        },
                        None => {
                            proof {
                                assert(step_hints_line(line@, st0) is None);
                                assert(run_hints_lines(rest, st0) is None);
                                assert(hints_doc(toml_str@) is None);
                            }
                            return Err(HintsError::ParseError(li + 1));
                        },
                    }
                } else {
                    proof {
                        assert(step_hints_line(line@, st0) == Some(st0));
                    }
                }
            }
        }
        li = li + 1;
        proof {
            assert(run_hints_lines(linesq, init_hstate()) == run_hints_lines(
                linesq.skip(li as int),
                model_hs(image, ports, setup, env@, extra, vols, shared_seen, files, section),
            ));
        }
    }
    proof {
        assert(linesq.skip(n as int) =~= Seq::<Seq<char>>::empty());
    }
    let ghost stf = model_hs(image, ports, setup, env@, extra, vols, shared_seen, files, section);
    proof {
        assert(run_hints_lines(linesq, init_hstate()) == Some(stf));
    }
    let h = RepoHints {
        image: match image {
            Some(s) => s,
            None => crate::config::default_image(),
        },
        ports: match ports {
            Some(p) => p,
            None => Vec::new(),
        },
        setup,
        env,
        extra_commands: match extra {
            Some(x) => x,
            None => Vec::new(),
        },
        anonymous_volumes: match vols {
            Some(v) => v,
            None => crate::config::default_anonymous_volumes(),
        },
        shared: if shared_seen {
            Some(
                SharedConfig {
                    files: match files {
                        Some(f) => f,
                        None => Vec::new(),
                    },
                },
            )
        } else {
            None
        },
    };
    proof {
        assert(hints_view(h).ports =~= finalize_hints(stf).ports);
        assert(hints_view(h).extra_commands =~= finalize_hints(stf).extra_commands);
        assert(hints_view(h).anonymous_volumes =~= finalize_hints(stf).anonymous_volumes);
        assert(match (hints_view(h).shared, finalize_hints(stf).shared) {
            (Some(a), Some(b)) => a =~= b,
            (None, None) => true,
            _ => false,
        });
        assert(hints_view(h) == finalize_hints(stf));
        assert(hints_doc(toml_str@) == Some(hints_view(h)));
    }
    Ok(h)
}

} // verus!
