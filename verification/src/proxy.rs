//! The reverse-proxy core: building one routing snapshot from the registry
//! and live backend state, resolving a virtual-host label to a backend
//! address, and phrasing every per-request failure. Listening, forwarding
//! and response relaying are left to unverified callers, which consult
//! `route_decision` for every inbound request.

use vstd::prelude::*;
use vstd::string::*;

use crate::config;
use crate::container::ContainerStatus;
use crate::state::{EntryModel, WorkspaceState};
use crate::strutil::{
    chars_has_suffix, dec_digits, has_suffix, push_decimal, push_str_chars, str_to_chars,
    string_of,
};

verus! {

/// One route: a virtual-host label and the backend address it resolves to.
#[derive(Debug)]
pub struct RouteEntry {
    pub label: String,
    pub ip: String,
}

/// The routes of one listening port.
#[derive(Debug)]
pub struct PortRoutes {
    pub port: u16,
    pub entries: Vec<RouteEntry>,
}

/// Full routing state: port, then virtual-host label, to backend address.
/// Built once per proxy run; immutable thereafter.
#[derive(Debug)]
pub struct ProxyState {
    pub routes: Vec<PortRoutes>,
}

/// What the backend status oracle reports for one workspace: container
/// liveness, the container address if one is known, and the ports the
/// workspace declares.
#[derive(Debug)]
pub struct BackendInfo {
    pub status: ContainerStatus,
    pub ip: Option<String>,
    pub ports: Vec<u16>,
}

/// The address stored for a label within one port's routes.
pub open spec fn lookup_label(entries: Seq<RouteEntry>, label: Seq<char>) -> Option<Seq<char>>
    decreases entries.len(),
{
    if entries.len() == 0 {
        None
    } else if entries[0].label@ == label {
        Some(entries[0].ip@)
    } else {
        lookup_label(entries.skip(1), label)
    }
}

/// The address the routing table gives for a port and label.
pub open spec fn spec_resolve(rs: Seq<PortRoutes>, port: u16, label: Seq<char>) -> Option<
    Seq<char>,
>
    decreases rs.len(),
{
    if rs.len() == 0 {
        None
    } else if rs[0].port == port {
        lookup_label(rs[0].entries@, label)
    } else {
        spec_resolve(rs.skip(1), port, label)
    }
}

/// The labels known for a port, in table order; empty when the port is
/// not in the table.
pub open spec fn port_labels(rs: Seq<PortRoutes>, port: u16) -> Seq<Seq<char>>
    decreases rs.len(),
{
    if rs.len() == 0 {
        Seq::empty()
    } else if rs[0].port == port {
        rs[0].entries@.map_values(|e: RouteEntry| e.label@)
    } else {
        port_labels(rs.skip(1), port)
    }
}

/// Whether this entry, under this live report, serves this port and label:
/// its container runs, an address is known, the port is declared, and the
/// workspace identifier equals the label.
pub open spec fn routable(e: EntryModel, inf: BackendInfo, port: u16, label: Seq<char>) -> bool {
    &&& inf.status == ContainerStatus::Running
    &&& inf.ip is Some
    &&& inf.ports@.contains(port)
    &&& config::id_seq(e.repo, e.branch) == label
}

/// The address that routing-table construction from the first `k` workspaces
/// assigns to (port, label): the address of the last matching workspace.
pub open spec fn route_lookup(
    ws: Seq<EntryModel>,
    infos: Seq<BackendInfo>,
    k: int,
    port: u16,
    label: Seq<char>,
) -> Option<Seq<char>>
    decreases k,
{
    if k <= 0 {
        None
    } else if routable(ws[k - 1], infos[k - 1], port, label) {
        Some(infos[k - 1].ip.unwrap()@)
    } else {
        route_lookup(ws, infos, k - 1, port, label)
    }
}

impl ProxyState {
    /// Ports are unique, and labels are unique within each port.
    pub open spec fn wf(&self) -> bool {
        &&& forall|i: int, j: int|
            0 <= i < j < self.routes@.len() ==> (#[trigger] self.routes@[i]).port != (
            #[trigger] self.routes@[j]).port
        &&& forall|i: int, a: int, b: int|
            0 <= i < self.routes@.len() && 0 <= a < b < self.routes@[i].entries@.len() ==> (
            #[trigger] self.routes@[i].entries@[a]).label@ != (
            #[trigger] self.routes@[i].entries@[b]).label@
    }

    /// Record one route, overwriting the address of an existing
    /// (port, label) pair and leaving every other pair alone.
    fn insert_route(&mut self, port: u16, label: &String, ip: &String)
        requires
            old(self).wf(),
        ensures
            final(self).wf(),
            forall|p: u16, l: Seq<char>|
                #![trigger spec_resolve(final(self).routes@, p, l)]
                spec_resolve(final(self).routes@, p, l) == (if p == port && l == label@ {
                    Some(ip@)
                } else {
                    spec_resolve(old(self).routes@, p, l)
                }),
    {
        let n = self.routes.len();
        let mut i: usize = 0;
        while i < n
            invariant
                i <= n,
                n == self.routes.len(),
                self.wf(),
                self == old(self),
                forall|j: int| 0 <= j < i ==> (#[trigger] self.routes@[j]).port != port,
            decreases n - i,
        {
            if self.routes[i].port == port {
                let ghost before = self.routes@;
                let m = self.routes[i].entries.len();
                let mut k: usize = 0;
                while k < m
                    invariant
                        k <= m,
                        i < self.routes@.len(),
                        self.routes@[i as int].port == port,
                        m == self.routes@[i as int].entries@.len(),
                        self == old(self),
                        self.wf(),
                        forall|j: int| 0 <= j < i ==> (#[trigger] self.routes@[j]).port != port,
                        forall|a: int|
                            0 <= a < k ==> (#[trigger] self.routes@[i as int].entries@[a]).label@
                                != label@,
                    decreases m - k,
                {
                    if crate::strutil::str_eq(
                        self.routes[i].entries[k].label.as_str(),
                        label.as_str(),
                    ) {
                        // Overwrite in place.
                        let ghost old_entries = self.routes@[i as int].entries@;
                        let new_entry = RouteEntry { label: label.clone(), ip: ip.clone() };
                        self.routes[i].entries.set(k, new_entry);
                        proof {
                            lemma_insert_overwrite(
                                old(self).routes@,
                                self.routes@,
                                i as int,
                                k as int,
                                port,
                                label@,
                                ip@,
                            );
                        }
                        return ;
                    }
                    k = k + 1;
                }
                // The label is new for this port: append it.
                let new_entry = RouteEntry { label: label.clone(), ip: ip.clone() };
                self.routes[i].entries.push(new_entry);
                proof {
                    lemma_insert_append(
                        old(self).routes@,
                        self.routes@,
                        i as int,
                        port,
                        label@,
                        ip@,
                    );
                }
                return ;
            }
            i = i + 1;
        }
        // The port is new: append a group holding the one route.
        let ghost before = self.routes@;
        let mut entries: Vec<RouteEntry> = Vec::new();
        entries.push(RouteEntry { label: label.clone(), ip: ip.clone() });
        self.routes.push(PortRoutes { port, entries });
        proof {
            lemma_insert_new_port(before, self.routes@, port, label@, ip@);
        }
    }

    /// Build the routing table from the registry and the live backend
    /// reports, one report per registry entry: every declared port of every
    /// running, addressable workspace routes its workspace identifier to the
    /// reported address; for a (port, label) pair reported more than once,
    /// the last report wins.
    pub fn from_config(state: &WorkspaceState, infos: &Vec<BackendInfo>) -> (r: ProxyState)
        requires
            infos@.len() == state@.entries.len(),
        ensures
            r.wf(),
            forall|p: u16, l: Seq<char>|
                #![trigger spec_resolve(r.routes@, p, l)]
                spec_resolve(r.routes@, p, l) == route_lookup(
                    state@.entries,
                    infos@,
                    state@.entries.len() as int,
                    p,
                    l,
                ),
    {
        let ghost ws = state@.entries;
        let n = state.workspaces.len();
        let mut r = ProxyState { routes: Vec::new() };
        proof {
            assert(r.routes@.len() == 0);
            assert(forall|p: u16, l: Seq<char>|
                #![trigger spec_resolve(r.routes@, p, l)]
                spec_resolve(r.routes@, p, l) == route_lookup(ws, infos@, 0, p, l));
        }
        let mut i: usize = 0;
        while i < n
            invariant
                i <= n,
                n == state.workspaces.len(),
                ws == state@.entries,
                infos@.len() == ws.len(),
                r.wf(),
                forall|p: u16, l: Seq<char>|
                    #![trigger spec_resolve(r.routes@, p, l)]
                    spec_resolve(r.routes@, p, l) == route_lookup(ws, infos@, i as int, p, l),
            decreases n - i,
        {
            let entry = &state.workspaces[i];
            let info = &infos[i];
            proof {
                assert(ws[i as int] == entry@);
                assert(infos@[i as int] == info);
            }
            let running = match info.status {
                ContainerStatus::Running => true,
                _ => false,
            };
            if running {
                match &info.ip {
                    Some(ip) => {
                        let id = config::workspace_id(entry.repo.as_str(), entry.branch.as_str());
                        let m = info.ports.len();
                        let mut k: usize = 0;
                        while k < m
                            invariant
                                k <= m,
                                m == info.ports@.len(),
                                i < n,
                                n == state.workspaces.len(),
                                ws == state@.entries,
                                infos@.len() == ws.len(),
                                infos@[i as int] == info,
                                ws[i as int] == state.workspaces@[i as int]@,
                                info.status == ContainerStatus::Running,
                                info.ip == Some(*ip),
                                id@ == config::id_seq(ws[i as int].repo, ws[i as int].branch),
                                r.wf(),
                                forall|p: u16, l: Seq<char>|
                                    #![trigger spec_resolve(r.routes@, p, l)]
                                    spec_resolve(r.routes@, p, l) == (if l == id@ && (exists|a: int|
                                        0 <= a < k && info.ports@[a] == p) {
                                        Some(ip@)
                                    } else {
                                        route_lookup(ws, infos@, i as int, p, l)
                                    }),
                            decreases m - k,
                        {
                            let port = info.ports[k];
                            r.insert_route(port, &id, ip);
                            k = k + 1;
                            proof {
                                assert(forall|p: u16, l: Seq<char>|
                                    #![trigger spec_resolve(r.routes@, p, l)]
                                    spec_resolve(r.routes@, p, l) == (if l == id@ && (exists|a: int|
                                        0 <= a < k && info.ports@[a] == p) {
                                        Some(ip@)
                                    } else {
                                        route_lookup(ws, infos@, i as int, p, l)
                                    })) by {
                                    assert(forall|p: u16|
                                        #![trigger spec_resolve(r.routes@, p, id@)]
                                        (exists|a: int| 0 <= a < k && info.ports@[a] == p) <==> ((
                                        exists|a: int|
                                            0 <= a < k - 1 && info.ports@[a] == p) || info.ports@[k
                                            - 1] == p));
                                }
                            }
                        }
                        proof {
                            assert(forall|p: u16|
                                (exists|a: int| 0 <= a < m && info.ports@[a] == p)
                                    == info.ports@.contains(p));
                            assert(forall|p: u16, l: Seq<char>|
                                #![trigger route_lookup(ws, infos@, i + 1, p, l)]
                                route_lookup(ws, infos@, i + 1, p, l) == (if routable(
                                    ws[i as int],
                                    infos@[i as int],
                                    p,
                                    l,
                                ) {
                                    Some(infos@[i as int].ip.unwrap()@)
                                } else {
                                    route_lookup(ws, infos@, i as int, p, l)
                                }));
                        }
                    },
                    None => {
                        proof {
                            assert(forall|p: u16, l: Seq<char>|
                                !routable(ws[i as int], infos@[i as int], p, l));
                        }
                    },
                }
            } else {
                proof {
                    assert(forall|p: u16, l: Seq<char>|
                        !routable(ws[i as int], infos@[i as int], p, l));
                }
            }
            i = i + 1;
        }
        r
    }

    /// Get the container address for a given port and virtual-host label.
    pub fn resolve(&self, port: u16, subdomain: &str) -> (r: Option<String>)
        ensures
            match r {
                Some(ip) => spec_resolve(self.routes@, port, subdomain@) == Some(ip@),
                None => spec_resolve(self.routes@, port, subdomain@) is None,
            },
    {
        let ghost whole = self.routes@;
        let n = self.routes.len();
        let mut i: usize = 0;
        proof {
            assert(whole.skip(0) =~= whole);
        }
        while i < n
            invariant
                i <= n,
                n == self.routes.len(),
                whole == self.routes@,
                spec_resolve(whole, port, subdomain@) == spec_resolve(
                    whole.skip(i as int),
                    port,
                    subdomain@,
                ),
            decreases n - i,
        {
            let ghost rest = whole.skip(i as int);
            proof {
                assert(rest[0] == whole[i as int]);
                assert(rest.skip(1) =~= whole.skip(i + 1));
            }
            let group = &self.routes[i];
            if group.port == port {
                // Scan this port's labels.
                let ghost ents = group.entries@;
                let m = group.entries.len();
                let mut k: usize = 0;
                proof {
                    assert(ents.skip(0) =~= ents);
                }
                while k < m
                    invariant
                        k <= m,
                        i < n,
                        n == self.routes.len(),
                        whole == self.routes@,
                        ents == whole[i as int].entries@,
                        whole[i as int].port == port,
                        spec_resolve(whole, port, subdomain@) == spec_resolve(
                            whole.skip(i as int),
                            port,
                            subdomain@,
                        ),
                        m == ents.len(),
                        lookup_label(ents, subdomain@) == lookup_label(
                            ents.skip(k as int),
                            subdomain@,
                        ),
                    decreases m - k,
                {
                    let ghost erest = ents.skip(k as int);
                    proof {
                        assert(erest[0] == ents[k as int]);
                        assert(erest.skip(1) =~= ents.skip(k + 1));
                    }
                    let e = &self.routes[i].entries[k];
                    proof {
                        assert(ents[k as int] == e);
                    }
                    if crate::strutil::str_eq(e.label.as_str(), subdomain) {
                        proof {
                            assert(lookup_label(erest, subdomain@) == Some(e.ip@));
                            assert(whole.skip(i as int)[0] == whole[i as int]);
                            assert(spec_resolve(whole.skip(i as int), port, subdomain@)
                                == lookup_label(ents, subdomain@));
                        }
                        return Some(e.ip.clone());
                    }
                    k = k + 1;
                }
                proof {
                    assert(ents.skip(m as int) =~= Seq::<RouteEntry>::empty());
                    assert(whole.skip(i as int)[0] == whole[i as int]);
                    assert(spec_resolve(whole.skip(i as int), port, subdomain@) == lookup_label(
                        ents,
                        subdomain@,
                    ));
                }
                return None;
            }
            i = i + 1;
        }
        proof {
            assert(whole.skip(n as int) =~= Seq::<PortRoutes>::empty());
        }
        None
    }

    /// Get all ports that need listeners, in table order.
    pub fn ports(&self) -> (r: Vec<u16>)
        ensures
            r@ == self.routes@.map_values(|pr: PortRoutes| pr.port),
    {
        let n = self.routes.len();
        let mut out: Vec<u16> = Vec::new();
        let mut i: usize = 0;
        while i < n
            invariant
                i <= n,
                n == self.routes.len(),
                out@ == self.routes@.map_values(|pr: PortRoutes| pr.port).take(i as int),
            decreases n - i,
        {
            out.push(self.routes[i].port);
            i = i + 1;
            proof {
                assert(out@ =~= self.routes@.map_values(|pr: PortRoutes| pr.port).take(i as int));
            }
        }
        proof {
            let mapped = self.routes@.map_values(|pr: PortRoutes| pr.port);
            assert(mapped.take(n as int) =~= mapped);
        }
        out
    }
}

/// Groups that miss the port are skipped by resolution.
proof fn lemma_resolve_prefix_miss(rs: Seq<PortRoutes>, i: int, p: u16, l: Seq<char>)
    requires
        0 <= i <= rs.len(),
        forall|j: int| 0 <= j < i ==> (#[trigger] rs[j]).port != p,
    ensures
        spec_resolve(rs, p, l) == spec_resolve(rs.skip(i), p, l),
    decreases i,
{
    if i == 0 {
        assert(rs.skip(0) =~= rs);
    } else {
        let tail = rs.skip(1);
        assert(forall|j: int| 0 <= j < tail.len() ==> #[trigger] tail[j] == rs[j + 1]);
        lemma_resolve_prefix_miss(tail, i - 1, p, l);
        assert(tail.skip(i - 1) =~= rs.skip(i));
    }
}

/// Replacing one group, with an unchanged port, changes nothing for other
/// ports.
proof fn lemma_resolve_other_port(
    before: Seq<PortRoutes>,
    after: Seq<PortRoutes>,
    i: int,
    port: u16,
    p: u16,
    l: Seq<char>,
)
    requires
        0 <= i < before.len(),
        after.len() == before.len(),
        forall|j: int| 0 <= j < before.len() && j != i ==> after[j] == before[j],
        before[i].port == port,
        after[i].port == port,
        p != port,
    ensures
        spec_resolve(after, p, l) == spec_resolve(before, p, l),
    decreases before.len(),
{
    if i == 0 {
        assert(after.skip(1) =~= before.skip(1));
    } else {
        assert(after[0] == before[0]);
        if before[0].port == p {
        } else {
            let tb = before.skip(1);
            let ta = after.skip(1);
            assert(forall|j: int| 0 <= j < tb.len() ==> #[trigger] tb[j] == before[j + 1]);
            assert(forall|j: int| 0 <= j < ta.len() ==> #[trigger] ta[j] == after[j + 1]);
            lemma_resolve_other_port(tb, ta, i - 1, port, p, l);
        }
    }
}

/// Appending a group whose port differs from `p` changes nothing for `p`.
proof fn lemma_resolve_append_group(
    before: Seq<PortRoutes>,
    after: Seq<PortRoutes>,
    p: u16,
    l: Seq<char>,
)
    requires
        after.len() == before.len() + 1,
        forall|j: int| 0 <= j < before.len() ==> after[j] == before[j],
        after[before.len() as int].port != p,
    ensures
        spec_resolve(after, p, l) == spec_resolve(before, p, l),
    decreases before.len(),
{
    if before.len() == 0 {
        assert(after.skip(1) =~= Seq::<PortRoutes>::empty());
        assert(spec_resolve(Seq::<PortRoutes>::empty(), p, l) is None);
        assert(spec_resolve(after, p, l) == spec_resolve(after.skip(1), p, l));
    } else {
        assert(after[0] == before[0]);
        if before[0].port == p {
        } else {
            let tb = before.skip(1);
            let ta = after.skip(1);
            assert(forall|j: int| 0 <= j < tb.len() ==> #[trigger] tb[j] == before[j + 1]);
            assert(forall|j: int| 0 <= j < ta.len() ==> #[trigger] ta[j] == after[j + 1]);
            assert(ta[tb.len() as int] == after[before.len() as int]);
            lemma_resolve_append_group(tb, ta, p, l);
        }
    }
}

/// Updating the address at the matching position changes only that label.
proof fn lemma_lookup_label_update(
    before: Seq<RouteEntry>,
    after: Seq<RouteEntry>,
    k: int,
    l: Seq<char>,
    label: Seq<char>,
    ip: Seq<char>,
)
    requires
        0 <= k < before.len(),
        after.len() == before.len(),
        forall|a: int| 0 <= a < before.len() && a != k ==> after[a] == before[a],
        forall|a: int| 0 <= a < k ==> (#[trigger] before[a]).label@ != label,
        before[k].label@ == label,
        after[k].label@ == label,
        after[k].ip@ == ip,
    ensures
        lookup_label(after, l) == (if l == label {
            Some(ip)
        } else {
            lookup_label(before, l)
        }),
    decreases k,
{
    if k == 0 {
        if l == label {
        } else {
            assert(after.skip(1) =~= before.skip(1));
        }
    } else {
        assert(after[0] == before[0]);
        if before[0].label@ == l {
        } else {
            let tb = before.skip(1);
            let ta = after.skip(1);
            assert(forall|j: int| 0 <= j < tb.len() ==> #[trigger] tb[j] == before[j + 1]);
            assert(forall|j: int| 0 <= j < ta.len() ==> #[trigger] ta[j] == after[j + 1]);
            lemma_lookup_label_update(tb, ta, k - 1, l, label, ip);
        }
    }
}

/// Appending a fresh label changes only that label's lookup.
proof fn lemma_lookup_label_append(
    before: Seq<RouteEntry>,
    after: Seq<RouteEntry>,
    l: Seq<char>,
    label: Seq<char>,
    ip: Seq<char>,
)
    requires
        after.len() == before.len() + 1,
        forall|a: int| 0 <= a < before.len() ==> after[a] == before[a],
        forall|a: int| 0 <= a < before.len() ==> (#[trigger] before[a]).label@ != label,
        after[before.len() as int].label@ == label,
        after[before.len() as int].ip@ == ip,
    ensures
        lookup_label(after, l) == (if l == label {
            Some(ip)
        } else {
            lookup_label(before, l)
        }),
    decreases before.len(),
{
    if before.len() == 0 {
        assert(after.len() == 1);
        if l == label {
        } else {
            assert(after.skip(1) =~= Seq::<RouteEntry>::empty());
        }
    } else {
        assert(after[0] == before[0]);
        if before[0].label@ == l {
        } else {
            let tb = before.skip(1);
            let ta = after.skip(1);
            assert(forall|j: int| 0 <= j < tb.len() ==> #[trigger] tb[j] == before[j + 1]);
            assert(forall|j: int| 0 <= j < ta.len() ==> #[trigger] ta[j] == after[j + 1]);
            assert(ta[tb.len() as int] == after[before.len() as int]);
            lemma_lookup_label_append(tb, ta, l, label, ip);
        }
    }
}

/// After overwriting the address of entry `k` of group `i`, the table
/// resolves (port, label) to the new address and everything else as before.
proof fn lemma_insert_overwrite(
    before: Seq<PortRoutes>,
    after: Seq<PortRoutes>,
    i: int,
    k: int,
    port: u16,
    label: Seq<char>,
    ip: Seq<char>,
)
    requires
        0 <= i < before.len(),
        after.len() == before.len(),
        forall|j: int| 0 <= j < before.len() && j != i ==> after[j] == before[j],
        forall|j: int| 0 <= j < i ==> (#[trigger] before[j]).port != port,
        before[i].port == port,
        after[i].port == port,
        0 <= k < before[i].entries@.len(),
        after[i].entries@.len() == before[i].entries@.len(),
        forall|a: int|
            0 <= a < before[i].entries@.len() && a != k ==> after[i].entries@[a] == before[
                i
            ].entries@[a],
        forall|a: int| 0 <= a < k ==> (#[trigger] before[i].entries@[a]).label@ != label,
        before[i].entries@[k].label@ == label,
        after[i].entries@[k].label@ == label,
        after[i].entries@[k].ip@ == ip,
    ensures
        forall|p: u16, l: Seq<char>|
            #![trigger spec_resolve(after, p, l)]
            spec_resolve(after, p, l) == (if p == port && l == label {
                Some(ip)
            } else {
                spec_resolve(before, p, l)
            }),
{
    assert forall|p: u16, l: Seq<char>| #![trigger spec_resolve(after, p, l)]
        spec_resolve(after, p, l) == (if p == port && l == label {
            Some(ip)
        } else {
            spec_resolve(before, p, l)
        }) by {
        if p == port {
            assert(forall|j: int| 0 <= j < i ==> (#[trigger] after[j]).port != port);
            lemma_resolve_prefix_miss(before, i, p, l);
            lemma_resolve_prefix_miss(after, i, p, l);
            assert(before.skip(i)[0] == before[i]);
            assert(after.skip(i)[0] == after[i]);
            assert(spec_resolve(before, p, l) == lookup_label(before[i].entries@, l));
            assert(spec_resolve(after, p, l) == lookup_label(after[i].entries@, l));
            lemma_lookup_label_update(before[i].entries@, after[i].entries@, k, l, label, ip);
        } else {
            lemma_resolve_other_port(before, after, i, port, p, l);
        }
    }
}

/// After appending a fresh label to group `i`, the table resolves
/// (port, label) to the new address and everything else as before.
proof fn lemma_insert_append(
    before: Seq<PortRoutes>,
    after: Seq<PortRoutes>,
    i: int,
    port: u16,
    label: Seq<char>,
    ip: Seq<char>,
)
    requires
        0 <= i < before.len(),
        after.len() == before.len(),
        forall|j: int| 0 <= j < before.len() && j != i ==> after[j] == before[j],
        forall|j: int| 0 <= j < i ==> (#[trigger] before[j]).port != port,
        before[i].port == port,
        after[i].port == port,
        after[i].entries@.len() == before[i].entries@.len() + 1,
        forall|a: int|
            0 <= a < before[i].entries@.len() ==> after[i].entries@[a] == before[i].entries@[a],
        forall|a: int| 0 <= a < before[i].entries@.len() ==> (#[trigger] before[
            i
        ].entries@[a]).label@ != label,
        after[i].entries@[before[i].entries@.len() as int].label@ == label,
        after[i].entries@[before[i].entries@.len() as int].ip@ == ip,
    ensures
        forall|p: u16, l: Seq<char>|
            #![trigger spec_resolve(after, p, l)]
            spec_resolve(after, p, l) == (if p == port && l == label {
                Some(ip)
            } else {
                spec_resolve(before, p, l)
            }),
{
    assert forall|p: u16, l: Seq<char>| #![trigger spec_resolve(after, p, l)]
        spec_resolve(after, p, l) == (if p == port && l == label {
            Some(ip)
        } else {
            spec_resolve(before, p, l)
        }) by {
        if p == port {
            assert(forall|j: int| 0 <= j < i ==> (#[trigger] after[j]).port != port);
            lemma_resolve_prefix_miss(before, i, p, l);
            lemma_resolve_prefix_miss(after, i, p, l);
            assert(before.skip(i)[0] == before[i]);
            assert(after.skip(i)[0] == after[i]);
            assert(spec_resolve(before, p, l) == lookup_label(before[i].entries@, l));
            assert(spec_resolve(after, p, l) == lookup_label(after[i].entries@, l));
            lemma_lookup_label_append(before[i].entries@, after[i].entries@, l, label, ip);
        } else {
            lemma_resolve_other_port(before, after, i, port, p, l);
        }
    }
}

/// After appending a whole new group for a fresh port, the table resolves
/// (port, label) to the new address and everything else as before.
proof fn lemma_insert_new_port(
    before: Seq<PortRoutes>,
    after: Seq<PortRoutes>,
    port: u16,
    label: Seq<char>,
    ip: Seq<char>,
)
    requires
        after.len() == before.len() + 1,
        forall|j: int| 0 <= j < before.len() ==> after[j] == before[j],
        forall|j: int| 0 <= j < before.len() ==> (#[trigger] before[j]).port != port,
        after[before.len() as int].port == port,
        after[before.len() as int].entries@.len() == 1,
        after[before.len() as int].entries@[0].label@ == label,
        after[before.len() as int].entries@[0].ip@ == ip,
    ensures
        forall|p: u16, l: Seq<char>|
            #![trigger spec_resolve(after, p, l)]
            spec_resolve(after, p, l) == (if p == port && l == label {
                Some(ip)
            } else {
                spec_resolve(before, p, l)
            }),
{
    assert forall|p: u16, l: Seq<char>| #![trigger spec_resolve(after, p, l)]
        spec_resolve(after, p, l) == (if p == port && l == label {
            Some(ip)
        } else {
            spec_resolve(before, p, l)
        }) by {
        if p == port {
            assert(forall|j: int| 0 <= j < before.len() ==> (#[trigger] after[j]).port != port);
            lemma_resolve_prefix_miss(before, before.len() as int, p, l);
            assert(before.skip(before.len() as int) =~= Seq::<PortRoutes>::empty());
            lemma_resolve_prefix_miss(after, before.len() as int, p, l);
            let g = after.skip(before.len() as int);
            assert(g[0] == after[before.len() as int]);
            assert(spec_resolve(after, p, l) == lookup_label(g[0].entries@, l));
            let ents = g[0].entries@;
            if l == label {
                assert(lookup_label(ents, l) == Some(ip));
            } else {
                assert(ents.skip(1) =~= Seq::<RouteEntry>::empty());
                assert(lookup_label(Seq::<RouteEntry>::empty(), l) is None);
                assert(spec_resolve(Seq::<PortRoutes>::empty(), p, l) is None);
            }
        } else {
            lemma_resolve_append_group(before, after, p, l);
        }
    }
}


/// The host header up to (excluding) the first colon.
pub open spec fn host_part(h: Seq<char>) -> Seq<char>
    decreases h.len(),
{
    if h.len() == 0 {
        Seq::empty()
    } else if h[0] == ':' {
        Seq::empty()
    } else {
        seq![h[0]] + host_part(h.skip(1))
    }
}

/// The virtual-host label of a Host header value: the part before any
/// colon must end in `.localhost` with a non-empty prefix; anything else
/// (bare `localhost`, empty, wrong suffix) has no label.
pub open spec fn extract_label_spec(h: Seq<char>) -> Option<Seq<char>> {
    let hp = host_part(h);
    if has_suffix(hp, ".localhost"@) && hp.len() > ".localhost"@.len() {
        Some(hp.take(hp.len() - ".localhost"@.len()))
    } else {
        None
    }
}

/// The host part is the prefix up to the first colon.
proof fn lemma_host_part(h: Seq<char>, k: int)
    requires
        0 <= k <= h.len(),
        forall|j: int| 0 <= j < k ==> h[j] != ':',
        k == h.len() || h[k] == ':',
    ensures
        host_part(h) == h.take(k),
    decreases k,
{
    if k == 0 {
        assert(h.take(0) =~= Seq::<char>::empty());
    } else {
        let tail = h.skip(1);
        assert(forall|j: int| 0 <= j < tail.len() ==> #[trigger] tail[j] == h[j + 1]);
        lemma_host_part(tail, k - 1);
        assert(seq![h[0]] + tail.take(k - 1) =~= h.take(k));
    }
}

/// Extract the virtual-host label from a Host header value.
/// "lightfast-main.localhost:3000" gives Some("lightfast-main");
/// "localhost:3000" gives None;
/// "lightfast-main.localhost" gives Some("lightfast-main").
pub fn extract_subdomain(host: &str) -> (r: Option<String>)
    ensures
        match r {
            Some(s) => extract_label_spec(host@) == Some(s@),
            None => extract_label_spec(host@) is None,
        },
{
    let cs = str_to_chars(host);
    let n = cs.len();
    let mut end: usize = 0;
    while end < n && cs[end] != ':'
        invariant
            end <= n,
            n == cs.len(),
            cs@ == host@,
            forall|j: int| 0 <= j < end ==> host@[j] != ':',
        decreases n - end,
    {
        end = end + 1;
    }
    proof {
        lemma_host_part(host@, end as int);
    }
    let mut hp: Vec<char> = Vec::new();
    let mut i: usize = 0;
    while i < end
        invariant
            i <= end,
            end <= n,
            n == cs.len(),
            cs@ == host@,
            hp@ == host@.take(end as int).take(i as int),
        decreases end - i,
    {
        hp.push(cs[i]);
        i = i + 1;
        proof {
            assert(hp@ =~= host@.take(end as int).take(i as int));
        }
    }
    proof {
        assert(host@.take(end as int).take(end as int) =~= host@.take(end as int));
        assert(hp@ == host_part(host@));
    }
    let needle = str_to_chars(".localhost");
    if chars_has_suffix(&hp, &needle) && hp.len() > needle.len() {
        let cut = hp.len() - needle.len();
        let mut label: Vec<char> = Vec::new();
        let mut j: usize = 0;
        while j < cut
            invariant
                j <= cut,
                cut <= hp@.len(),
                label@ == hp@.take(cut as int).take(j as int),
            decreases cut - j,
        {
            label.push(hp[j]);
            j = j + 1;
            proof {
                assert(label@ =~= hp@.take(cut as int).take(j as int));
            }
        }
        proof {
            assert(hp@.take(cut as int).take(cut as int) =~= hp@.take(cut as int));
        }
        Some(string_of(&label))
    } else {
        None
    }
}

/// One diagnostic line of the 502 body: `  {label}.localhost:{port}`.
pub open spec fn line_for(label: Seq<char>, port: u16) -> Seq<char> {
    "  "@ + label + ".localhost:"@ + dec_digits(port as nat)
}

/// The diagnostic lines of a 502 body, joined by newlines.
pub open spec fn route_lines(labels: Seq<Seq<char>>, port: u16) -> Seq<char>
    decreases labels.len(),
{
    if labels.len() == 0 {
        Seq::empty()
    } else {
        line_for(labels[0], port) + rest_lines(labels.skip(1), port)
    }
}

/// All diagnostic lines after the first, each preceded by a newline.
pub open spec fn rest_lines(labels: Seq<Seq<char>>, port: u16) -> Seq<char>
    decreases labels.len(),
{
    if labels.len() == 0 {
        Seq::empty()
    } else {
        seq!['\n'] + line_for(labels[0], port) + rest_lines(labels.skip(1), port)
    }
}

proof fn lemma_rest_lines_snoc(labels: Seq<Seq<char>>, x: Seq<char>, port: u16)
    ensures
        rest_lines(labels.push(x), port) == rest_lines(labels, port) + seq!['\n'] + line_for(
            x,
            port,
        ),
    decreases labels.len(),
{
    if labels.len() == 0 {
        assert(labels.push(x)[0] == x);
        assert(labels.push(x).skip(1) =~= Seq::<Seq<char>>::empty());
        assert(rest_lines(Seq::<Seq<char>>::empty(), port) == Seq::<char>::empty());
        assert(rest_lines(labels.push(x), port) =~= rest_lines(labels, port) + seq!['\n']
            + line_for(x, port));
    } else {
        assert(labels.push(x)[0] == labels[0]);
        assert(labels.push(x).skip(1) =~= labels.skip(1).push(x));
        lemma_rest_lines_snoc(labels.skip(1), x, port);
        assert(rest_lines(labels.push(x), port) =~= rest_lines(labels, port) + seq!['\n']
            + line_for(x, port));
    }
}

proof fn lemma_route_lines_snoc(labels: Seq<Seq<char>>, x: Seq<char>, port: u16)
    ensures
        route_lines(labels.push(x), port) == (if labels.len() == 0 {
            line_for(x, port)
        } else {
            route_lines(labels, port) + seq!['\n'] + line_for(x, port)
        }),
{
    if labels.len() == 0 {
        assert(labels.push(x)[0] == x);
        assert(labels.push(x).skip(1) =~= Seq::<Seq<char>>::empty());
        assert(rest_lines(Seq::<Seq<char>>::empty(), port) == Seq::<char>::empty());
        assert(route_lines(labels.push(x), port) =~= line_for(x, port));
    } else {
        assert(labels.push(x)[0] == labels[0]);
        assert(labels.push(x).skip(1) =~= labels.skip(1).push(x));
        lemma_rest_lines_snoc(labels.skip(1), x, port);
        assert(route_lines(labels.push(x), port) =~= route_lines(labels, port) + seq!['\n']
            + line_for(x, port));
    }
}

/// The full 502 body for an unresolved request: the offending host, then
/// every label known for the port.
pub open spec fn reject_body_spec(rs: Seq<PortRoutes>, port: u16, host: Seq<char>) -> Seq<char> {
    "No route for host: "@ + host + "\n\nAvailable routes on port "@ + dec_digits(port as nat)
        + ":\n"@ + route_lines(port_labels(rs, port), port)
}

/// What the engine does with one inbound request.
#[derive(Debug)]
pub enum RouteDecision {
    /// Forward to this backend address.
    Forward(String),
    /// Respond 502 with this diagnostic body.
    Reject(String),
}

impl ProxyState {
    /// The 502 diagnostic body for an unresolved request on this port.
    pub fn reject_body(&self, port: u16, host: &str) -> (r: String)
        ensures
            r@ == reject_body_spec(self.routes@, port, host@),
    {
        let ghost whole = self.routes@;
        let mut out: Vec<char> = Vec::new();
        push_str_chars(&mut out, "No route for host: ");
        push_str_chars(&mut out, host);
        push_str_chars(&mut out, "\n\nAvailable routes on port ");
        push_decimal(&mut out, port as u64);
        push_str_chars(&mut out, ":\n");
        let ghost head = out@;
        proof {
            assert(head =~= "No route for host: "@ + host@ + "\n\nAvailable routes on port "@
                + dec_digits(port as nat) + ":\n"@);
            assert(whole.skip(0) =~= whole);
        }
        let n = self.routes.len();
        let mut i: usize = 0;
        while i < n
            invariant
                i <= n,
                n == self.routes.len(),
                whole == self.routes@,
                out@ == head,
                head == "No route for host: "@ + host@ + "\n\nAvailable routes on port "@
                    + dec_digits(port as nat) + ":\n"@,
                port_labels(whole, port) == port_labels(whole.skip(i as int), port),
            decreases n - i,
        {
            let ghost rest = whole.skip(i as int);
            proof {
                assert(rest[0] == whole[i as int]);
                assert(rest.skip(1) =~= whole.skip(i + 1));
            }
            if self.routes[i].port == port {
                let ghost labels = whole[i as int].entries@.map_values(|e: RouteEntry| e.label@);
                proof {
                    assert(port_labels(whole, port) == labels);
                    assert(labels.take(0) =~= Seq::<Seq<char>>::empty());
                    assert(route_lines(Seq::<Seq<char>>::empty(), port) == Seq::<char>::empty());
                    assert(out@ =~= head + route_lines(labels.take(0), port));
                }
                let m = self.routes[i].entries.len();
                let mut j: usize = 0;
                while j < m
                    invariant
                        j <= m,
                        i < n,
                        n == self.routes.len(),
                        whole == self.routes@,
                        labels == whole[i as int].entries@.map_values(|e: RouteEntry| e.label@),
                        labels == port_labels(whole, port),
                        head == "No route for host: "@ + host@
                            + "\n\nAvailable routes on port "@ + dec_digits(port as nat)
                            + ":\n"@,
                        m == labels.len(),
                        out@ == head + route_lines(labels.take(j as int), port),
                    decreases m - j,
                {
                    if j > 0 {
                        out.push('\n');
                    }
                    push_str_chars(&mut out, "  ");
                    push_str_chars(&mut out, self.routes[i].entries[j].label.as_str());
                    push_str_chars(&mut out, ".localhost:");
                    push_decimal(&mut out, port as u64);
                    proof {
                        assert(labels[j as int] == whole[i as int].entries@[j as int].label@);
                        assert(labels.take(j + 1) =~= labels.take(j as int).push(
                            labels[j as int],
                        ));
                        lemma_route_lines_snoc(labels.take(j as int), labels[j as int], port);
                        assert(out@ =~= head + route_lines(labels.take(j + 1), port));
                    }
                    j = j + 1;
                }
                proof {
                    assert(labels.take(m as int) =~= labels);
                    assert(out@ =~= reject_body_spec(whole, port, host@));
                }
                return string_of(&out);
            }
            i = i + 1;
        }
        proof {
            assert(whole.skip(n as int) =~= Seq::<PortRoutes>::empty());
            assert(port_labels(whole, port) =~= Seq::<Seq<char>>::empty());
            assert(route_lines(port_labels(whole, port), port) =~= Seq::<char>::empty());
            assert(out@ =~= reject_body_spec(whole, port, host@));
        }
        string_of(&out)
    }

    /// Decide one inbound request on the listener for `port`: forward to
    /// the resolved backend, or reject with the full diagnostic body.
    pub fn route_decision(&self, port: u16, host: &str) -> (r: RouteDecision)
        ensures
            match r {
                RouteDecision::Forward(ip) => match extract_label_spec(host@) {
                    Some(l) => spec_resolve(self.routes@, port, l) == Some(ip@),
                    None => false,
                },
                RouteDecision::Reject(body) => {
                    &&& match extract_label_spec(host@) {
                        Some(l) => spec_resolve(self.routes@, port, l) is None,
                        None => true,
                    }
                    &&& body@ == reject_body_spec(self.routes@, port, host@)
                },
            },
    {
        match extract_subdomain(host) {
            Some(label) => match self.resolve(port, label.as_str()) {
                Some(ip) => RouteDecision::Forward(ip),
                None => RouteDecision::Reject(self.reject_body(port, host)),
            },
            None => RouteDecision::Reject(self.reject_body(port, host)),
        }
    }
}

/// The 502 body for a failed outbound connection:
/// `Cannot connect to {ip}:{port}: {err}`.
pub fn connect_error_body(ip: &str, port: u16, err: &str) -> (r: String)
    ensures
        r@ == "Cannot connect to "@ + ip@ + seq![':'] + dec_digits(port as nat) + ": "@ + err@,
{
    let mut out: Vec<char> = Vec::new();
    push_str_chars(&mut out, "Cannot connect to ");
    push_str_chars(&mut out, ip);
    out.push(':');
    push_decimal(&mut out, port as u64);
    push_str_chars(&mut out, ": ");
    push_str_chars(&mut out, err);
    string_of(&out)
}

/// The 502 body for a failed HTTP handshake with the backend:
/// `Handshake failed with {ip}:{port}: {err}`.
pub fn handshake_error_body(ip: &str, port: u16, err: &str) -> (r: String)
    ensures
        r@ == "Handshake failed with "@ + ip@ + seq![':'] + dec_digits(port as nat) + ": "@
            + err@,
{
    let mut out: Vec<char> = Vec::new();
    push_str_chars(&mut out, "Handshake failed with ");
    push_str_chars(&mut out, ip);
    out.push(':');
    push_decimal(&mut out, port as u64);
    push_str_chars(&mut out, ": ");
    push_str_chars(&mut out, err);
    string_of(&out)
}

/// The 502 body for a transport failure while reading the backend's
/// response: `Error reading response: {err}`.
pub fn response_error_body(err: &str) -> (r: String)
    ensures
        r@ == "Error reading response: "@ + err@,
{
    let mut out: Vec<char> = Vec::new();
    push_str_chars(&mut out, "Error reading response: ");
    push_str_chars(&mut out, err);
    string_of(&out)
}

/// The 502 body for a failure while forwarding the request itself:
/// `Proxy error: {err}`.
pub fn forward_error_body(err: &str) -> (r: String)
    ensures
        r@ == "Proxy error: "@ + err@,
{
    let mut out: Vec<char> = Vec::new();
    push_str_chars(&mut out, "Proxy error: ");
    push_str_chars(&mut out, err);
    string_of(&out)
}


/// One status-decorated URL line: `  {icon} {id}.localhost:{port}`, with a
/// filled circle for a running workspace and an open one otherwise.
pub open spec fn url_line(running: bool, id: Seq<char>, port: u16) -> Seq<char> {
    "  "@ + seq![
        if running {
            '\u{25cf}'
        } else {
            '\u{25cb}'
        },
    ] + seq![' '] + id + ".localhost:"@ + dec_digits(port as nat)
}

/// The URL lines of one workspace, one per declared port.
pub open spec fn url_lines(running: bool, id: Seq<char>, ports: Seq<u16>) -> Seq<Seq<char>> {
    ports.map_values(|p: u16| url_line(running, id, p))
}

/// The URL listing: one (workspace id, lines) group per workspace with at
/// least one declared port, in registry order.
pub open spec fn urls_model(ws: Seq<EntryModel>, infos: Seq<BackendInfo>) -> Seq<
    (Seq<char>, Seq<Seq<char>>),
>
    decreases ws.len(),
{
    if ws.len() == 0 || infos.len() == 0 {
        Seq::empty()
    } else {
        let rest = urls_model(ws.skip(1), infos.skip(1));
        if infos[0].ports@.len() == 0 {
            rest
        } else {
            seq![
                (
                    config::id_seq(ws[0].repo, ws[0].branch),
                    url_lines(
                        infos[0].status == ContainerStatus::Running,
                        config::id_seq(ws[0].repo, ws[0].branch),
                        infos[0].ports@,
                    ),
                ),
            ] + rest
        }
    }
}

/// Get all configured URLs for workspaces, given one live report per
/// registry entry: per workspace with declared ports, its identifier and
/// one status-decorated line per port.
pub fn workspace_urls(state: &WorkspaceState, infos: &Vec<BackendInfo>) -> (r: Vec<
    (String, Vec<String>),
>)
    requires
        infos@.len() == state@.entries.len(),
    ensures
        r@.map_values(
            |g: (String, Vec<String>)| (g.0@, g.1@.map_values(|s: String| s@)),
        ) == urls_model(state@.entries, infos@),
{
    let ghost ws = state@.entries;
    let ghost vinfos = infos@;
    let n = state.workspaces.len();
    let mut out: Vec<(String, Vec<String>)> = Vec::new();
    let mut i: usize = 0;
    proof {
        assert(ws.skip(0) =~= ws);
        assert(vinfos.skip(0) =~= vinfos);
        assert(out@.map_values(
            |g: (String, Vec<String>)| (g.0@, g.1@.map_values(|s: String| s@)),
        ) =~= Seq::<(Seq<char>, Seq<Seq<char>>)>::empty());
    }
    while i < n
        invariant
            i <= n,
            n == state.workspaces.len(),
            ws == state@.entries,
            vinfos == infos@,
            vinfos.len() == ws.len(),
            urls_model(ws, vinfos) == out@.map_values(
                |g: (String, Vec<String>)| (g.0@, g.1@.map_values(|s: String| s@)),
            ) + urls_model(ws.skip(i as int), vinfos.skip(i as int)),
        decreases n - i,
    {
        let ghost wrest = ws.skip(i as int);
        let ghost irest = vinfos.skip(i as int);
        let ghost done = out@.map_values(
            |g: (String, Vec<String>)| (g.0@, g.1@.map_values(|s: String| s@)),
        );
        let entry = &state.workspaces[i];
        let info = &infos[i];
        proof {
            assert(wrest[0] == ws[i as int] && ws[i as int] == entry@);
            assert(irest[0] == vinfos[i as int] && vinfos[i as int] == info);
            assert(wrest.skip(1) =~= ws.skip(i + 1));
            assert(irest.skip(1) =~= vinfos.skip(i + 1));
        }
        if info.ports.len() > 0 {
            let id = config::workspace_id(entry.repo.as_str(), entry.branch.as_str());
            let is_running = match info.status {
                ContainerStatus::Running => true,
                _ => false,
            };
            let ghost lines_model = url_lines(is_running, id@, info.ports@);
            let mut lines: Vec<String> = Vec::new();
            let m = info.ports.len();
            let mut k: usize = 0;
            proof {
                assert(lines@.map_values(|s: String| s@) =~= lines_model.take(0));
            }
            while k < m
                invariant
                    k <= m,
                    m == info.ports@.len(),
                    lines_model == url_lines(is_running, id@, info.ports@),
                    lines@.map_values(|s: String| s@) == lines_model.take(k as int),
                decreases m - k,
            {
                let mut line: Vec<char> = Vec::new();
                push_str_chars(&mut line, "  ");
                if is_running {
                    line.push('\u{25cf}');
                } else {
                    line.push('\u{25cb}');
                }
                line.push(' ');
                push_str_chars(&mut line, id.as_str());
                push_str_chars(&mut line, ".localhost:");
                push_decimal(&mut line, info.ports[k] as u64);
                proof {
                    assert(lines_model[k as int] == url_line(
                        is_running,
                        id@,
                        info.ports@[k as int],
                    ));
                    assert(line@ =~= lines_model[k as int]);
                }
                let ghost before_lines = lines@.map_values(|s: String| s@);
                let rendered = string_of(&line);
                lines.push(rendered);
                proof {
                    assert(lines@.map_values(|s: String| s@) =~= before_lines.push(line@));
                    assert(lines_model.take(k + 1) =~= lines_model.take(k as int).push(
                        lines_model[k as int],
                    ));
                }
                k = k + 1;
            }
            proof {
                assert(lines_model.take(m as int) =~= lines_model);
            }
            out.push((id, lines));
            proof {
                assert(out@.map_values(
                    |g: (String, Vec<String>)| (g.0@, g.1@.map_values(|s: String| s@)),
                ) =~= done.push((id@, lines_model)));
                assert(urls_model(wrest, irest) =~= seq![(id@, lines_model)] + urls_model(
                    ws.skip(i + 1),
                    vinfos.skip(i + 1),
                ));
                assert(done.push((id@, lines_model)) + urls_model(ws.skip(i + 1), vinfos.skip(i + 1))
                    =~= done + urls_model(wrest, irest));
            }
        } else {
            proof {
                assert(urls_model(wrest, irest) == urls_model(ws.skip(i + 1), vinfos.skip(i + 1)));
            }
        }
        i = i + 1;
    }
    proof {
        assert(ws.skip(n as int) =~= Seq::<EntryModel>::empty());
        assert(urls_model(ws.skip(n as int), vinfos.skip(n as int))
            =~= Seq::<(Seq<char>, Seq<Seq<char>>)>::empty());
        assert(out@.map_values(
            |g: (String, Vec<String>)| (g.0@, g.1@.map_values(|s: String| s@)),
        ) + urls_model(ws.skip(n as int), vinfos.skip(n as int)) =~= out@.map_values(
            |g: (String, Vec<String>)| (g.0@, g.1@.map_values(|s: String| s@)),
        ));
    }
    out
}

} // verus!
