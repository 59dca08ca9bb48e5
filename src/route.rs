//! The distance-vector route table: feasibility, selection and retraction.
use vstd::prelude::*;
use crate::codec::{bytes_eq, subnet_contains, Subnet, SubnetView, Update, UpdateView, subnet_wf, update_wf, copy_bytes};
use crate::seqno::{INFINITE_METRIC, seqno_newer, metric_finite, is_newer};

verus! {

/// What identifies a route: its subnet and the router that originated it,
/// along with the neighbour it was learned from.
pub struct RouteKey {
    pub subnet: Subnet,
    pub router_id: Vec<u8>,
    pub neighbour: u64,
}

/// The mutable part of a route.
#[derive(Debug, Clone, Copy, PartialEq, Eq, Structural)]
pub struct RouteState {
    pub metric: u16,
    pub seqno: u16,
    pub feasible: bool,
    pub selected: bool,
}

/// A route as the contracts see it.
pub struct RouteView {
    pub subnet: SubnetView,
    pub router_id: Seq<u8>,
    pub neighbour: u64,
    pub metric: u16,
    pub seqno: u16,
    pub feasible: bool,
    pub selected: bool,
}

/// The view of a stored route.
pub open spec fn route_view(k: RouteKey, s: RouteState) -> RouteView {
    RouteView {
        subnet: k.subnet@,
        router_id: k.router_id@,
        neighbour: k.neighbour,
        metric: s.metric,
        seqno: s.seqno,
        feasible: s.feasible,
        selected: s.selected,
    }
}

/// A route handed out in a snapshot of the table.
pub struct RouteEntry {
    pub subnet: Subnet,
    pub router_id: Vec<u8>,
    pub neighbour: u64,
    pub metric: u16,
    pub seqno: u16,
    pub feasible: bool,
    pub selected: bool,
}

impl View for RouteEntry {
    type V = RouteView;

    open spec fn view(&self) -> RouteView {
        RouteView {
            subnet: self.subnet@,
            router_id: self.router_id@,
            neighbour: self.neighbour,
            metric: self.metric,
            seqno: self.seqno,
            feasible: self.feasible,
            selected: self.selected,
        }
    }
}

/// The route table. Routes are kept one per (subnet, originating router).
pub struct RouteTable {
    keys: Vec<RouteKey>,
    states: Vec<RouteState>,
}

impl View for RouteTable {
    type V = Seq<RouteView>;

    closed spec fn view(&self) -> Seq<RouteView> {
        Seq::new(self.keys@.len(), |i: int| route_view(self.keys@[i], self.states@[i]))
    }
}

/// The relations between route `i` and the other routes of its subnet: a
/// selected route is feasible, alone in being selected, of minimum metric
/// among the feasible ones, and no feasible route is older than it; a
/// feasible route implies a selected one.
pub open spec fn entry_ok(t: Seq<RouteView>, i: int) -> bool {
    &&& t[i].selected ==> t[i].feasible
    &&& t[i].selected ==> forall|j: int|
        0 <= j < t.len() && j != i && t[j].subnet == t[i].subnet ==> !t[j].selected
    &&& t[i].selected ==> forall|j: int|
        0 <= j < t.len() && t[j].subnet == t[i].subnet && t[j].feasible ==> t[i].metric <= t[j].metric
            && !seqno_newer(t[i].seqno, t[j].seqno)
    &&& t[i].feasible ==> exists|j: int| 0 <= j < t.len() && t[j].subnet == t[i].subnet && t[j].selected
}

/// Properties of each route on its own, and keys (subnet, router id) that
/// are unique.
pub open spec fn routes_basic(t: Seq<RouteView>) -> bool {
    &&& forall|i: int|
        0 <= i < t.len() ==> subnet_wf(t[i].subnet) && t[i].router_id.len() == 32 && (t[i].feasible
            ==> metric_finite(t[i].metric))
    &&& forall|i: int, j: int|
        0 <= i < t.len() && 0 <= j < t.len() && i != j && t[i].subnet == t[j].subnet ==> t[i].router_id
            != t[j].router_id
}

/// The table invariant: at most one selected route per subnet; where a
/// feasible route exists, one is selected, it has the minimum metric among
/// the feasible routes of its subnet, and none of them is older than it.
pub open spec fn table_wf(t: Seq<RouteView>) -> bool {
    &&& routes_basic(t)
    &&& forall|i: int| 0 <= i < t.len() ==> entry_ok(t, i)
}

/// The invariant, on every subnet but `s`.
pub open spec fn table_wf_except(t: Seq<RouteView>, s: SubnetView) -> bool {
    &&& routes_basic(t)
    &&& forall|i: int| 0 <= i < t.len() && t[i].subnet != s ==> entry_ok(t, i)
}

/// Route `a` is route `b` with at most its selected flag changed and its
/// feasibility possibly lost.
pub open spec fn kept(a: RouteView, b: RouteView) -> bool {
    &&& a.subnet == b.subnet
    &&& a.router_id == b.router_id
    &&& a.neighbour == b.neighbour
    &&& a.metric == b.metric
    &&& a.seqno == b.seqno
    &&& a.feasible ==> b.feasible
}

/// Whether an update may be selected: its metric is finite, and it is newer
/// than the route selected for its subnet, or as new with a lower metric. With
/// no selected route (so no feasible one) every finite update is feasible.
pub open spec fn update_feasible(t: Seq<RouteView>, u: UpdateView) -> bool {
    &&& metric_finite(u.metric)
    &&& forall|i: int|
        0 <= i < t.len() && t[i].subnet == u.subnet && t[i].selected ==> seqno_newer(u.seqno, t[i].seqno)
            || (u.seqno == t[i].seqno && u.metric < t[i].metric)
}

/// Route `k` of `t` is the one of subnet `s` originated by router `id`.
pub open spec fn has_route(t: Seq<RouteView>, s: SubnetView, id: Seq<u8>, k: int) -> bool {
    0 <= k < t.len() && t[k].subnet == s && t[k].router_id == id
}

/// `t` has no route of subnet `s` originated by router `id`.
pub open spec fn no_route(t: Seq<RouteView>, s: SubnetView, id: Seq<u8>) -> bool {
    forall|k: int| 0 <= k < t.len() ==> !(t[k].subnet == s && t[k].router_id == id)
}

/// Route `x` of `t` is feasible in subnet `s`, has the least metric there,
/// and is newer than every other feasible route of that metric, none of
/// which is selected.
pub open spec fn dominant(t: Seq<RouteView>, s: SubnetView, x: int) -> bool {
    &&& 0 <= x < t.len()
    &&& t[x].subnet == s
    &&& t[x].feasible
    &&& forall|k: int|
        0 <= k < t.len() && t[k].subnet == s && t[k].feasible ==> t[x].metric <= t[k].metric && (k != x
            && t[k].metric == t[x].metric ==> seqno_newer(t[x].seqno, t[k].seqno) && !t[k].selected)
}

/// Selection on subnet `s` of table `tm` gave `t1`: the routes of `s` keep
/// their data; the least-metric feasible route that is newer than every other
/// of its metric is selected; on a tie the route already selected stays; a
/// route loses feasibility only to a newer selected route of `s`.
pub open spec fn subnet_reselected(tm: Seq<RouteView>, t1: Seq<RouteView>, s: SubnetView) -> bool {
    &&& t1.len() == tm.len()
    &&& forall|i: int| 0 <= i < tm.len() ==> ((#[trigger] t1[i]).subnet == s <==> tm[i].subnet == s)
    &&& forall|i: int| 0 <= i < tm.len() && tm[i].subnet == s ==> kept(#[trigger] t1[i], tm[i])
    &&& forall|i: int, j: int|
        0 <= i < tm.len() && 0 <= j < tm.len() && tm[i].subnet == s && tm[i].selected && tm[i].feasible
            && #[trigger] t1[j].selected && t1[j].subnet == s && t1[j].metric == #[trigger] tm[i].metric
            ==> tm[j].selected
    &&& forall|i: int|
        0 <= i < tm.len() && tm[i].subnet == s && tm[i].feasible && !(#[trigger] t1[i]).feasible ==> exists|j: int|
            0 <= j < tm.len() && t1[j].selected && t1[j].subnet == s && seqno_newer(t1[j].seqno, tm[i].seqno)
    &&& forall|x: int| dominant(tm, s, x) ==> (#[trigger] t1[x]).selected
}

/// The route that update `u` from neighbour `n` announces.
pub open spec fn update_route(u: UpdateView, n: u64, feasible: bool, selected: bool) -> RouteView {
    RouteView {
        subnet: u.subnet,
        router_id: u.router_id,
        neighbour: n,
        metric: u.metric,
        seqno: u.seqno,
        feasible,
        selected,
    }
}

/// The route of `t` for the key of update `u` is the selected one.
pub open spec fn hits_selected(t: Seq<RouteView>, u: UpdateView) -> bool {
    exists|k: int| has_route(t, u.subnet, u.router_id, k) && t[k].selected
}

/// Table `t` with update `u` from neighbour `n` recorded as the route of its
/// key, feasible as `update_feasible` says, before selection runs again.
pub open spec fn recorded(t: Seq<RouteView>, u: UpdateView, n: u64) -> Seq<RouteView> {
    if exists|k: int| has_route(t, u.subnet, u.router_id, k) {
        let k = choose|k: int| has_route(t, u.subnet, u.router_id, k);
        t.update(k, update_route(u, n, update_feasible(t, u), t[k].selected))
    } else {
        t.push(update_route(u, n, update_feasible(t, u), false))
    }
}

/// What receiving update `u` from neighbour `n` does to table `t0`, giving
/// `t1`. The update is recorded as the route of its key. When it is feasible,
/// or replaces the selected route (a worse announcement or a retraction by
/// its router), selection runs again on its subnet; otherwise nothing else
/// changes, so the selected routes stay as they were.
pub open spec fn update_outcome(t0: Seq<RouteView>, t1: Seq<RouteView>, u: UpdateView, n: u64) -> bool {
    let tm = recorded(t0, u, n);
    &&& update_feasible(t0, u) || hits_selected(t0, u) ==> subnet_reselected(tm, t1, u.subnet) && forall|i: int|
        0 <= i < tm.len() && tm[i].subnet != u.subnet ==> #[trigger] t1[i] == tm[i]
    &&& !(update_feasible(t0, u) || hits_selected(t0, u)) ==> t1 == tm && t1.filter(route_pred(false))
        == t0.filter(route_pred(false))
}

impl RouteTable {
    /// The table's internal vectors line up.
    pub closed spec fn lens_ok(&self) -> bool {
        self.keys@.len() == self.states@.len()
    }

    /// An empty table.
    pub fn new() -> (r: RouteTable)
        ensures
            r.lens_ok(),
            r@ == Seq::<RouteView>::empty(),
            table_wf(r@),
    {
        let r = RouteTable { keys: Vec::new(), states: Vec::new() };
        assert(r@ =~= Seq::<RouteView>::empty());
        r
    }

    /// Number of routes, retracted ones included.
    pub fn len(&self) -> (r: usize)
        requires
            self.lens_ok(),
        ensures
            r == self@.len(),
    {
        self.keys.len()
    }

    fn set_state(&mut self, i: usize, st: RouteState)
        requires
            old(self).lens_ok(),
            i < old(self)@.len(),
        ensures
            final(self).lens_ok(),
            final(self).keys == old(self).keys,
            final(self)@ == old(self)@.update(i as int, route_view(old(self).keys@[i as int], st)),
    {
        self.states.set(i, st);
        assert(self@ =~= old(self)@.update(i as int, route_view(old(self).keys@[i as int], st)));
    }

    /// Index of the route of `subnet` originated by router `id`.
    fn find(&self, subnet: &Subnet, id: &Vec<u8>) -> (r: Option<usize>)
        requires
            self.lens_ok(),
        ensures
            match r {
                Some(k) => has_route(self@, subnet@, id@, k as int),
                None => no_route(self@, subnet@, id@),
            },
    {
        let mut i: usize = 0;
        while i < self.keys.len()
            invariant
                self.lens_ok(),
                i <= self@.len(),
                forall|k: int| 0 <= k < i ==> !(self@[k].subnet == subnet@ && self@[k].router_id == id@),
            decreases self@.len() - i,
        {
            if bytes_eq(self.keys[i].router_id.as_slice(), id.as_slice()) && self.keys[i].subnet.same_as(subnet) {
                return Some(i);
            }
            i = i + 1;
        }
        None
    }

    /// Index of the route selected for `subnet`.
    fn find_selected(&self, subnet: &Subnet) -> (r: Option<usize>)
        requires
            self.lens_ok(),
        ensures
            match r {
                Some(k) => 0 <= k < self@.len() && self@[k as int].subnet == subnet@
                    && self@[k as int].selected,
                None => forall|k: int|
                    0 <= k < self@.len() ==> !(self@[k].subnet == subnet@ && self@[k].selected),
            },
    {
        let mut i: usize = 0;
        while i < self.keys.len()
            invariant
                self.lens_ok(),
                i <= self@.len(),
                forall|k: int| 0 <= k < i ==> !(self@[k].subnet == subnet@ && self@[k].selected),
            decreases self@.len() - i,
        {
            if self.states[i].selected && self.keys[i].subnet.same_as(subnet) {
                return Some(i);
            }
            i = i + 1;
        }
        None
    }

    /// Re-runs selection on `subnet`: among its feasible routes the one of
    /// minimum metric becomes the only selected one. On ties the route already
    /// selected stays, else a route newer than all the others of that metric
    /// wins. Feasible routes older than the selected one stop being feasible.
    /// Nothing else changes.
    pub fn select_route(&mut self, subnet: &Subnet)
        requires
            old(self).lens_ok(),
            table_wf_except(old(self)@, subnet@),
        ensures
            final(self).lens_ok(),
            table_wf(final(self)@),
            subnet_reselected(old(self)@, final(self)@, subnet@),
            forall|i: int|
                0 <= i < old(self)@.len() && old(self)@[i].subnet != subnet@ ==> #[trigger] final(self)@[i]
                    == old(self)@[i],
    {
        let ghost t0 = self@;
        let ghost s = subnet@;
        let mut best: Option<usize> = None;
        let mut i: usize = 0;
        while i < self.keys.len()
            invariant
                self@ == t0,
                self.lens_ok(),
                i <= t0.len(),
                s == subnet@,
                match best {
                    Some(b) => {
                        &&& b < i
                        &&& t0[b as int].subnet == s
                        &&& t0[b as int].feasible
                        &&& forall|k: int|
                            0 <= k < i && t0[k].subnet == s && t0[k].feasible ==> t0[b as int].metric
                                <= t0[k].metric
                        &&& forall|k: int|
                            0 <= k < i && t0[k].subnet == s && t0[k].feasible && t0[k].selected
                                && t0[k].metric == t0[b as int].metric ==> t0[b as int].selected
                    },
                    None => forall|k: int| 0 <= k < i ==> !(t0[k].subnet == s && t0[k].feasible),
                },
                forall|x: int| 0 <= x < i && dominant(t0, s, x) ==> best == Some(x as usize),
            decreases t0.len() - i,
        {
            let st = self.states[i];
            let ghost best0 = best;
            if st.feasible && self.keys[i].subnet.same_as(subnet) {
                match best {
                    None => {
                        best = Some(i);
                    },
                    Some(b) => {
                        let bs = self.states[b];
                        if st.metric < bs.metric || (st.metric == bs.metric && !bs.selected && (
                        st.selected || is_newer(st.seqno, bs.seqno))) {
                            best = Some(i);
                        }
                    },
                }
            }
            proof {
                assert forall|x: int| 0 <= x < i + 1 && dominant(t0, s, x) implies best == Some(x as usize) by {
                    if x < i {
                        if t0[i as int].subnet == s && t0[i as int].feasible && t0[i as int].metric == t0[x].metric {
                            lemma_newer_asymmetric(t0[x].seqno, t0[i as int].seqno);
                        }
                    } else {
                        match best0 {
                            Some(b) => {
                                if t0[b as int].metric == t0[x].metric {
                                    assert(b as int != x);
                                }
                            },
                            None => {},
                        }
                    }
                }
            }
            i = i + 1;
        }
        let bseq: u16 = match best {
            Some(b) => self.states[b].seqno,
            None => 0,
        };
        let mut i: usize = 0;
        while i < self.keys.len()
            invariant
                self.lens_ok(),
                self@.len() == t0.len(),
                i <= t0.len(),
                s == subnet@,
                best is Some ==> bseq == t0[best->Some_0 as int].seqno && best->Some_0 < t0.len(),
                forall|k: int| i <= k < t0.len() ==> #[trigger] self@[k] == t0[k],
                forall|k: int|
                    0 <= k < i ==> if t0[k].subnet == s {
                        &&& (#[trigger] self@[k]).subnet == t0[k].subnet
                        &&& self@[k].router_id == t0[k].router_id
                        &&& self@[k].neighbour == t0[k].neighbour
                        &&& self@[k].metric == t0[k].metric
                        &&& self@[k].seqno == t0[k].seqno
                        &&& self@[k].selected == (best == Some(k as usize))
                        &&& self@[k].feasible == (t0[k].feasible && !(best is Some && seqno_newer(
                            bseq,
                            t0[k].seqno,
                        )))
                    } else {
                        self@[k] == t0[k]
                    },
            decreases t0.len() - i,
        {
            if self.keys[i].subnet.same_as(subnet) {
                let st = self.states[i];
                let sel = match best {
                    Some(b) => b == i,
                    None => false,
                };
                let older = match best {
                    Some(_) => is_newer(bseq, st.seqno),
                    None => false,
                };
                let ghost prev = self@;
                assert(prev[i as int] == route_view(self.keys@[i as int], st));
                self.set_state(
                    i,
                    RouteState { metric: st.metric, seqno: st.seqno, feasible: st.feasible && !older, selected: sel },
                );
                assert(self@[i as int].selected == sel);
            }
            i = i + 1;
        }
        let ghost t1 = self@;
        assert forall|k: int| 0 <= k < t1.len() implies entry_ok(t1, k) by {
            if t1[k].subnet == s {
                if t1[k].feasible {
                    let b = best->Some_0 as int;
                    assert(t1[b].selected);
                }
                if t1[k].selected {
                    assert(!seqno_newer(bseq, bseq));
                }
            } else {
                assert(entry_ok(t0, k));
                if t1[k].feasible {
                    let j = choose|j: int| 0 <= j < t0.len() && t0[j].subnet == t0[k].subnet && t0[j].selected;
                    assert(t1[j].selected);
                }
            }
        }
        assert forall|i: int| 0 <= i < t0.len() implies kept(#[trigger] t1[i], t0[i]) by {}
        assert forall|i: int|
            0 <= i < t0.len() && t0[i].feasible && !(#[trigger] t1[i]).feasible implies exists|j: int|
                0 <= j < t0.len() && t1[j].selected && t1[j].subnet == t0[i].subnet && seqno_newer(
                    t1[j].seqno,
                    t0[i].seqno,
                ) by {
            let b = best->Some_0 as int;
            assert(t1[b].selected);
        }
    }

    /// Records an Update learned from `neighbour` as the route of its subnet
    /// originated by its router. When the update is feasible, or replaces the
    /// selected route, selection runs again on the subnet: a route withdrawn
    /// by its router stops being selected and the best fallback is promoted.
    /// Any other infeasible update changes no selection.
    pub fn receive_update(&mut self, update: Update, neighbour: u64)
        requires
            old(self).lens_ok(),
            table_wf(old(self)@),
            update_wf(update@),
        ensures
            final(self).lens_ok(),
            table_wf(final(self)@),
            update_outcome(old(self)@, final(self)@, update@, neighbour),
    {
        let ghost t0 = self@;
        let ghost u = update@;
        let metric = update.metric;
        let seqno = update.seqno;
        let subnet = update.subnet.duplicate();
        let feasible = metric != INFINITE_METRIC && match self.find_selected(&update.subnet) {
            None => true,
            Some(k) => {
                let st = self.states[k];
                proof {
                    assert(entry_ok(t0, k as int));
                }
                is_newer(seqno, st.seqno) || (seqno == st.seqno && metric < st.metric)
            },
        };
        assert(feasible == update_feasible(t0, u));
        let found = self.find(&update.subnet, &update.router_id);
        let mut was = false;
        match found {
            Some(k) => {
                was = self.states[k].selected;
                proof {
                    assert(has_route(t0, u.subnet, u.router_id, k as int));
                    let c = choose|c: int| has_route(t0, u.subnet, u.router_id, c);
                    assert(c == k);
                }
            },
            None => {},
        }
        assert(was == hits_selected(t0, u)) by {
            if hits_selected(t0, u) {
                let c = choose|c: int| has_route(t0, u.subnet, u.router_id, c) && t0[c].selected;
                assert(found->Some_0 as int == c);
            }
        }
        let key = RouteKey { subnet: update.subnet, router_id: update.router_id, neighbour };
        let st = RouteState { metric, seqno, feasible, selected: was };
        match found {
            Some(k) => {
                self.keys.set(k, key);
                self.states.set(k, st);
                assert(self@ =~= t0.update(k as int, route_view(key, st)));
            },
            None => {
                self.keys.push(key);
                self.states.push(st);
                assert(self@ =~= t0.push(route_view(key, st)));
            },
        }
        let ghost t1 = self@;
        assert(t1 == recorded(t0, u, neighbour));
        assert(table_wf_except(t1, u.subnet)) by {
            assert forall|i: int| 0 <= i < t1.len() && t1[i].subnet != u.subnet implies entry_ok(t1, i) by {
                assert(entry_ok(t0, i));
                if t1[i].feasible {
                    let j = choose|j: int| 0 <= j < t0.len() && t0[j].subnet == t0[i].subnet && t0[j].selected;
                    assert(t1[j] == t0[j]);
                }
            }
        }
        if feasible || was {
            self.select_route(&subnet);
        } else {
            proof {
                assert forall|i: int| 0 <= i < t1.len() implies entry_ok(t1, i) by {
                    assert(!t1[i].selected || i < t0.len());
                    if i < t0.len() {
                        assert(entry_ok(t0, i));
                    }
                    if t1[i].feasible {
                        let j = choose|j: int| 0 <= j < t0.len() && t0[j].subnet == t0[i].subnet && t0[j].selected;
                        assert(t1[j] == t0[j]);
                    }
                }
                lemma_filter_selected_eq(t0, t1);
            }
        }
    }

    /// Whether a route before index `i` is of `subnet` and learned from
    /// `neighbour`.
    fn has_earlier(&self, i: usize, subnet: &Subnet, neighbour: u64) -> (r: bool)
        requires
            self.lens_ok(),
            i <= self@.len(),
        ensures
            r == processed(self@, neighbour, subnet@, i as int),
    {
        let mut j: usize = 0;
        while j < i
            invariant
                self.lens_ok(),
                j <= i <= self@.len(),
                forall|k: int| 0 <= k < j ==> !(self@[k].subnet == subnet@ && self@[k].neighbour == neighbour),
            decreases i - j,
        {
            if self.keys[j].neighbour == neighbour && self.keys[j].subnet.same_as(subnet) {
                assert(self@[j as int].subnet == subnet@ && self@[j as int].neighbour == neighbour);
                return true;
            }
            j = j + 1;
        }
        false
    }

    /// Retracts the routes of `subnet` learned from `neighbour`: their metric
    /// becomes infinite and they stop being feasible. Then selection runs
    /// again on the subnet, so the best remaining feasible route is promoted;
    /// with none left the subnet is unreachable.
    pub fn retract(&mut self, subnet: &Subnet, neighbour: u64)
        requires
            old(self).lens_ok(),
            table_wf(old(self)@),
        ensures
            final(self).lens_ok(),
            table_wf(final(self)@),
            retract_outcome(old(self)@, final(self)@, subnet@, neighbour),
    {
        let ghost t0 = self@;
        let ghost tm = marked_in(t0, subnet@, neighbour);
        let mut i: usize = 0;
        while i < self.keys.len()
            invariant
                self.lens_ok(),
                self@.len() == t0.len(),
                i <= t0.len(),
                tm == marked_in(t0, subnet@, neighbour),
                forall|k: int| 0 <= k < t0.len() ==> #[trigger] self@[k] == if k < i { tm[k] } else { t0[k] },
            decreases t0.len() - i,
        {
            if self.keys[i].neighbour == neighbour && self.keys[i].subnet.same_as(subnet) {
                let st = self.states[i];
                let ghost prev = self@;
                assert(prev[i as int] == route_view(self.keys@[i as int], st));
                self.set_state(i, RouteState { metric: INFINITE_METRIC, seqno: st.seqno, feasible: false, selected: st.selected });
                assert(self@[i as int] == tm[i as int]);
            }
            i = i + 1;
        }
        assert(self@ =~= tm);
        assert(table_wf_except(tm, subnet@)) by {
            assert forall|i: int| 0 <= i < tm.len() && tm[i].subnet != subnet@ implies entry_ok(tm, i) by {
                assert(entry_ok(t0, i));
                if tm[i].feasible {
                    let j = choose|j: int| 0 <= j < t0.len() && t0[j].subnet == t0[i].subnet && t0[j].selected;
                    assert(tm[j] == t0[j]);
                }
            }
        }
        self.select_route(subnet);
        let ghost t2 = self@;
        assert forall|i: int| 0 <= i < t0.len() && t0[i].subnet == subnet@ && t0[i].neighbour == neighbour implies is_retraction_of(
            #[trigger] t2[i],
            t0[i],
        ) by {
            assert(kept(t2[i], tm[i]));
            assert(entry_ok(t2, i));
        }
    }

    /// Retracts every route learned from `neighbour`; selection runs again,
    /// once, on each subnet that had one.
    pub fn retract_all(&mut self, neighbour: u64)
        requires
            old(self).lens_ok(),
            table_wf(old(self)@),
        ensures
            final(self).lens_ok(),
            table_wf(final(self)@),
            retract_all_outcome(old(self)@, final(self)@, neighbour),
    {
        let ghost t0 = self@;
        let ghost tm = marked_all(t0, neighbour);
        let mut i: usize = 0;
        while i < self.keys.len()
            invariant
                self.lens_ok(),
                table_wf(self@),
                self@.len() == t0.len(),
                i <= t0.len(),
                tm == marked_all(t0, neighbour),
                forall|k: int|
                    0 <= k < t0.len() ==> (#[trigger] self@[k]).subnet == t0[k].subnet && self@[k].neighbour
                        == t0[k].neighbour,
                forall|s: SubnetView| #[trigger] processed(t0, neighbour, s, i as int) ==> subnet_reselected(tm, self@, s),
                forall|k: int|
                    0 <= k < t0.len() && !processed(t0, neighbour, t0[k].subnet, i as int) ==> #[trigger] self@[k]
                        == t0[k],
            decreases t0.len() - i,
        {
            let ghost cur = self@;
            assert(cur[i as int] == route_view(self.keys@[i as int], self.states@[i as int]));
            if self.keys[i].neighbour == neighbour {
                let subnet = self.keys[i].subnet.duplicate();
                let ghost s = subnet@;
                assert(cur[i as int] == route_view(self.keys@[i as int], self.states@[i as int]));
                assert(s == t0[i as int].subnet);
                assert(t0[i as int].neighbour == neighbour);
                assert(processed(t0, neighbour, s, i + 1));
                let earlier = self.has_earlier(i, &subnet, neighbour);
                assert(earlier == processed(t0, neighbour, s, i as int)) by {
                    if processed(cur, neighbour, s, i as int) {
                        let k = choose|k: int| 0 <= k < i && cur[k].subnet == s && cur[k].neighbour == neighbour;
                        assert(t0[k].subnet == s);
                    }
                    if processed(t0, neighbour, s, i as int) {
                        let k = choose|k: int| 0 <= k < i && t0[k].subnet == s && t0[k].neighbour == neighbour;
                        assert(cur[k].subnet == s);
                    }
                }
                if !earlier {
                    self.retract(&subnet, neighbour);
                    proof {
                        let new = self@;
                        let a = marked_in(cur, s, neighbour);
                        assert forall|j: int| 0 <= j < a.len() && (a[j].subnet == s || tm[j].subnet == s) implies tm[j]
                            == a[j] by {
                            assert(cur[j].subnet == t0[j].subnet);
                            if t0[j].subnet == s {
                                assert(!processed(t0, neighbour, t0[j].subnet, i as int));
                                assert(cur[j] == t0[j]);
                            }
                        }
                        lemma_reselected_transfer(a, new, tm, new, s);
                        assert forall|s2: SubnetView| #[trigger] processed(t0, neighbour, s2, i + 1) implies subnet_reselected(
                            tm,
                            new,
                            s2,
                        ) by {
                            if s2 != s {
                                let k = choose|k: int| 0 <= k < i + 1 && t0[k].subnet == s2 && t0[k].neighbour == neighbour;
                                assert(processed(t0, neighbour, s2, i as int));
                                assert forall|j: int| 0 <= j < cur.len() && (cur[j].subnet == s2 || new[j].subnet == s2) implies new[j]
                                    == cur[j] by {
                                    assert(cur[j].subnet == t0[j].subnet);
                                }
                                lemma_reselected_transfer(tm, cur, tm, new, s2);
                            }
                        }
                        assert forall|k: int|
                            0 <= k < t0.len() && !processed(t0, neighbour, t0[k].subnet, i + 1) implies #[trigger] new[k]
                                == t0[k] by {
                            assert(!processed(t0, neighbour, t0[k].subnet, i as int));
                            assert(t0[k].subnet != s);
                        }
                        assert forall|k: int| 0 <= k < t0.len() implies (#[trigger] new[k]).subnet == t0[k].subnet
                            && new[k].neighbour == t0[k].neighbour by {
                            if cur[k].subnet == s {
                                assert(kept(new[k], a[k]));
                            }
                        }
                    }
                } else {
                    proof {
                        assert forall|s2: SubnetView| #[trigger] processed(t0, neighbour, s2, i + 1) implies processed(
                            t0,
                            neighbour,
                            s2,
                            i as int,
                        ) by {
                            let k = choose|k: int| 0 <= k < i + 1 && t0[k].subnet == s2 && t0[k].neighbour == neighbour;
                            if k == i {
                                assert(s2 == s);
                            }
                        }
                        assert forall|k: int|
                            0 <= k < t0.len() && !processed(t0, neighbour, t0[k].subnet, i + 1) implies !processed(
                                t0,
                                neighbour,
                                t0[k].subnet,
                                i as int,
                            ) by {
                            if processed(t0, neighbour, t0[k].subnet, i as int) {
                                let w = choose|w: int| 0 <= w < i && t0[w].subnet == t0[k].subnet && t0[w].neighbour
                                    == neighbour;
                                assert(processed(t0, neighbour, t0[k].subnet, i + 1));
                            }
                        }
                    }
                }
            } else {
                proof {
                    assert forall|s2: SubnetView| #[trigger] processed(t0, neighbour, s2, i + 1) implies processed(
                        t0,
                        neighbour,
                        s2,
                        i as int,
                    ) by {
                        let k = choose|k: int| 0 <= k < i + 1 && t0[k].subnet == s2 && t0[k].neighbour == neighbour;
                        assert(k != i);
                    }
                    assert forall|k: int|
                        0 <= k < t0.len() && !processed(t0, neighbour, t0[k].subnet, i + 1) implies !processed(
                            t0,
                            neighbour,
                            t0[k].subnet,
                            i as int,
                        ) by {
                        if processed(t0, neighbour, t0[k].subnet, i as int) {
                            let w = choose|w: int| 0 <= w < i && t0[w].subnet == t0[k].subnet && t0[w].neighbour == neighbour;
                            assert(processed(t0, neighbour, t0[k].subnet, i + 1));
                        }
                    }
                }
            }
            i = i + 1;
        }
        let ghost t2 = self@;
        assert forall|k: int| 0 <= k < t0.len() && t0[k].neighbour == neighbour implies is_retraction_of(
            #[trigger] t2[k],
            t0[k],
        ) by {
            assert(processed(t0, neighbour, t0[k].subnet, t0.len() as int));
            assert(subnet_reselected(tm, t2, t0[k].subnet));
            assert(kept(t2[k], tm[k]));
            assert(entry_ok(t2, k));
        }
    }
}

/// Route `r` withdrawn: an infinite metric, and no longer feasible.
pub open spec fn withdrawn(r: RouteView) -> RouteView {
    RouteView { metric: INFINITE_METRIC, feasible: false, ..r }
}

/// Table `t` with the routes of subnet `s` learned from neighbour `n` withdrawn.
pub open spec fn marked_in(t: Seq<RouteView>, s: SubnetView, n: u64) -> Seq<RouteView> {
    Seq::new(t.len(), |i: int| if t[i].subnet == s && t[i].neighbour == n { withdrawn(t[i]) } else { t[i] })
}

/// Table `t` with every route learned from neighbour `n` withdrawn.
pub open spec fn marked_all(t: Seq<RouteView>, n: u64) -> Seq<RouteView> {
    Seq::new(t.len(), |i: int| if t[i].neighbour == n { withdrawn(t[i]) } else { t[i] })
}

/// One of the first `i` routes of `t` is of subnet `s` and learned from
/// neighbour `n`.
pub open spec fn processed(t: Seq<RouteView>, n: u64, s: SubnetView, i: int) -> bool {
    exists|k: int| 0 <= k < i && t[k].subnet == s && t[k].neighbour == n
}

/// What retracting the routes of subnet `s` learned from neighbour `n` does
/// to table `t0`, giving `t1`: they are withdrawn, then selection runs again
/// on `s`; other subnets are untouched.
pub open spec fn retract_outcome(t0: Seq<RouteView>, t1: Seq<RouteView>, s: SubnetView, n: u64) -> bool {
    &&& subnet_reselected(marked_in(t0, s, n), t1, s)
    &&& forall|i: int| 0 <= i < t0.len() && t0[i].subnet != s ==> #[trigger] t1[i] == t0[i]
    &&& forall|i: int|
        0 <= i < t0.len() && t0[i].subnet == s && t0[i].neighbour == n ==> is_retraction_of(#[trigger] t1[i], t0[i])
}

/// What retracting every route learned from neighbour `n` does to table
/// `t0`, giving `t1`: they are withdrawn, then selection runs again on each
/// subnet that had one; other subnets are untouched.
pub open spec fn retract_all_outcome(t0: Seq<RouteView>, t1: Seq<RouteView>, n: u64) -> bool {
    &&& t1.len() == t0.len()
    &&& forall|s: SubnetView|
        #[trigger] processed(t0, n, s, t0.len() as int) ==> subnet_reselected(marked_all(t0, n), t1, s)
    &&& forall|i: int|
        0 <= i < t0.len() && !processed(t0, n, t0[i].subnet, t0.len() as int) ==> #[trigger] t1[i] == t0[i]
    &&& forall|i: int| 0 <= i < t0.len() && t0[i].neighbour == n ==> is_retraction_of(#[trigger] t1[i], t0[i])
}

/// Selection results depend only on the routes of the subnet they are about.
pub proof fn lemma_reselected_transfer(a: Seq<RouteView>, b: Seq<RouteView>, a2: Seq<RouteView>, b2: Seq<RouteView>, s: SubnetView)
    requires
        subnet_reselected(a, b, s),
        a2.len() == a.len(),
        b2.len() == b.len(),
        forall|j: int| 0 <= j < a.len() && (a[j].subnet == s || a2[j].subnet == s) ==> a2[j] == a[j],
        forall|j: int| 0 <= j < b.len() && (b[j].subnet == s || b2[j].subnet == s) ==> b2[j] == b[j],
    ensures
        subnet_reselected(a2, b2, s),
{
    assert forall|x: int| dominant(a2, s, x) implies (#[trigger] b2[x]).selected by {
        assert(dominant(a, s, x));
    }
    assert forall|i: int| 0 <= i < a2.len() implies ((#[trigger] b2[i]).subnet == s <==> a2[i].subnet == s) by {
        if b2[i].subnet == s || a2[i].subnet == s {
            assert(b2[i] == b[i] || a2[i] == a[i]);
        }
    }
    assert forall|i: int| 0 <= i < a2.len() && a2[i].subnet == s implies kept(#[trigger] b2[i], a2[i]) by {
        assert(kept(b[i], a[i]));
    }
    assert forall|i: int, j: int|
        0 <= i < a2.len() && 0 <= j < a2.len() && a2[i].subnet == s && a2[i].selected && a2[i].feasible
            && #[trigger] b2[j].selected && b2[j].subnet == s && b2[j].metric == #[trigger] a2[i].metric
            implies a2[j].selected by {
        assert(b[j] == b2[j]);
        assert(a[i] == a2[i]);
        assert(a[j].subnet == s);
    }
    assert forall|i: int|
        0 <= i < a2.len() && a2[i].subnet == s && a2[i].feasible && !(#[trigger] b2[i]).feasible implies exists|j: int|
            0 <= j < a2.len() && b2[j].selected && b2[j].subnet == s && seqno_newer(b2[j].seqno, a2[i].seqno) by {
        let j = choose|j: int| 0 <= j < a.len() && b[j].selected && b[j].subnet == s && seqno_newer(b[j].seqno, a[i].seqno);
        assert(b2[j] == b[j]);
    }
}

/// Two tables whose selected routes are the same, in the same places, give
/// the same list of selected routes.
pub proof fn lemma_filter_selected_eq(a: Seq<RouteView>, b: Seq<RouteView>)
    requires
        a.len() <= b.len(),
        forall|i: int| 0 <= i < a.len() ==> (#[trigger] b[i]).selected == a[i].selected && (a[i].selected ==> b[i] == a[i]),
        forall|i: int| a.len() <= i < b.len() ==> !(#[trigger] b[i]).selected,
    ensures
        b.filter(route_pred(false)) == a.filter(route_pred(false)),
    decreases b.len(),
{
    reveal(Seq::filter);
    if b.len() == 0 {
    } else if a.len() < b.len() {
        lemma_filter_selected_eq(a, b.drop_last());
    } else {
        lemma_filter_selected_eq(a.drop_last(), b.drop_last());
    }
}

/// Route `r` is route `o` retracted: infinite metric, neither feasible nor selected.
pub open spec fn is_retraction_of(r: RouteView, o: RouteView) -> bool {
    &&& r.subnet == o.subnet
    &&& r.router_id == o.router_id
    &&& r.neighbour == o.neighbour
    &&& r.seqno == o.seqno
    &&& r.metric == INFINITE_METRIC
    &&& !r.feasible
    &&& !r.selected
}

/// The routes that a snapshot keeps: the selected ones, or the fallback ones
/// (feasible and not selected).
pub open spec fn route_pred(fallback: bool) -> spec_fn(RouteView) -> bool {
    |r: RouteView| if fallback { r.feasible && !r.selected } else { r.selected }
}

/// The views of the routes of a snapshot.
pub open spec fn entries_view(v: Seq<RouteEntry>) -> Seq<RouteView> {
    v.map_values(|e: RouteEntry| e@)
}

/// Route `i` is selected, its subnet holds `dst`, and no other selected route
/// holding `dst` has a longer prefix.
pub open spec fn best_match(t: Seq<RouteView>, dst: Seq<u8>, i: int) -> bool {
    &&& 0 <= i < t.len()
    &&& t[i].selected
    &&& subnet_contains(t[i].subnet, dst)
    &&& forall|j: int|
        0 <= j < t.len() && t[j].selected && subnet_contains(t[j].subnet, dst) ==> t[j].subnet.prefix_len
            <= t[i].subnet.prefix_len
}

impl RouteTable {
    fn entry_at(&self, i: usize) -> (r: RouteEntry)
        requires
            self.lens_ok(),
            i < self@.len(),
        ensures
            r@ == self@[i as int],
    {
        let k = &self.keys[i];
        let st = self.states[i];
        RouteEntry {
            subnet: k.subnet.duplicate(),
            router_id: copy_bytes(&k.router_id),
            neighbour: k.neighbour,
            metric: st.metric,
            seqno: st.seqno,
            feasible: st.feasible,
            selected: st.selected,
        }
    }

    fn collect(&self, fallback: bool) -> (r: Vec<RouteEntry>)
        requires
            self.lens_ok(),
        ensures
            entries_view(r@) == self@.filter(route_pred(fallback)),
    {
        let mut out: Vec<RouteEntry> = Vec::new();
        let mut i: usize = 0;
        while i < self.keys.len()
            invariant
                self.lens_ok(),
                i <= self@.len(),
                entries_view(out@) == self@.subrange(0, i as int).filter(route_pred(fallback)),
            decreases self@.len() - i,
        {
            let st = self.states[i];
            let keep = if fallback { st.feasible && !st.selected } else { st.selected };
            let ghost before = out@;
            if keep {
                let e = self.entry_at(i);
                out.push(e);
                assert(entries_view(out@) =~= entries_view(before).push(e@));
            }
            proof {
                reveal(Seq::filter);
                assert(self@.subrange(0, i + 1).drop_last() =~= self@.subrange(0, i as int));
                assert(self@.subrange(0, i + 1).last() == self@[i as int]);
            }
            i = i + 1;
        }
        assert(self@.subrange(0, self@.len() as int) =~= self@);
        out
    }

    /// A snapshot of the selected routes, in table order.
    pub fn selected_routes(&self) -> (r: Vec<RouteEntry>)
        requires
            self.lens_ok(),
        ensures
            entries_view(r@) == self@.filter(route_pred(false)),
    {
        self.collect(false)
    }

    /// A snapshot of the fallback routes: feasible but not selected.
    pub fn fallback_routes(&self) -> (r: Vec<RouteEntry>)
        requires
            self.lens_ok(),
        ensures
            entries_view(r@) == self@.filter(route_pred(true)),
    {
        self.collect(true)
    }

    /// Index of the selected route with the longest prefix holding `dst`.
    fn best_route(&self, dst: &[u8]) -> (r: Option<usize>)
        requires
            self.lens_ok(),
            routes_basic(self@),
            dst@.len() == 16,
        ensures
            r is None <==> forall|i: int|
                0 <= i < self@.len() ==> !(self@[i].selected && subnet_contains(self@[i].subnet, dst@)),
            r is Some ==> best_match(self@, dst@, r->Some_0 as int),
    {
        let ghost t = self@;
        let mut best: Option<usize> = None;
        let mut i: usize = 0;
        while i < self.keys.len()
            invariant
                self.lens_ok(),
                routes_basic(t),
                t == self@,
                i <= t.len(),
                dst@.len() == 16,
                match best {
                    Some(b) => b < i && t[b as int].selected && subnet_contains(t[b as int].subnet, dst@)
                        && forall|j: int|
                        0 <= j < i && t[j].selected && subnet_contains(t[j].subnet, dst@)
                            ==> t[j].subnet.prefix_len <= t[b as int].subnet.prefix_len,
                    None => forall|j: int|
                        0 <= j < i ==> !(t[j].selected && subnet_contains(t[j].subnet, dst@)),
                },
            decreases t.len() - i,
        {
            assert(self.keys@[i as int].subnet@ == t[i as int].subnet);
            if self.states[i].selected && self.keys[i].subnet.contains(dst) {
                match best {
                    None => {
                        best = Some(i);
                    },
                    Some(b) => {
                        if self.keys[i].subnet.prefix_len > self.keys[b].subnet.prefix_len {
                            best = Some(i);
                        }
                    },
                }
            }
            i = i + 1;
        }
        best
    }

    /// The neighbour to forward a packet for `dst` to: that of the selected
    /// route with the longest prefix holding `dst`, or none when no selected
    /// route holds it.
    pub fn next_hop(&self, dst: &[u8]) -> (r: Option<u64>)
        requires
            self.lens_ok(),
            routes_basic(self@),
            dst@.len() == 16,
        ensures
            r is None <==> forall|i: int|
                0 <= i < self@.len() ==> !(self@[i].selected && subnet_contains(self@[i].subnet, dst@)),
            r is Some ==> exists|i: int| best_match(self@, dst@, i) && self@[i].neighbour == r->Some_0,
    {
        match self.best_route(dst) {
            None => None,
            Some(b) => Some(self.keys[b].neighbour),
        }
    }

    /// The public key of the node that owns `ip`: the router id of the
    /// selected route with the longest prefix holding `ip`, if any.
    pub fn router_id_for(&self, ip: &[u8]) -> (r: Option<Vec<u8>>)
        requires
            self.lens_ok(),
            routes_basic(self@),
            ip@.len() == 16,
        ensures
            r is None <==> forall|i: int|
                0 <= i < self@.len() ==> !(self@[i].selected && subnet_contains(self@[i].subnet, ip@)),
            r is Some ==> exists|i: int| best_match(self@, ip@, i) && self@[i].router_id == r->Some_0@,
    {
        match self.best_route(ip) {
            None => None,
            Some(b) => Some(copy_bytes(&self.keys[b].router_id)),
        }
    }
}

/// Of two distinct sequence numbers, at most one is newer than the other.
pub proof fn lemma_newer_asymmetric(a: u16, b: u16)
    requires
        seqno_newer(a, b),
    ensures
        !seqno_newer(b, a),
        a != b,
{
}

/// An update whose sequence number is older than that of the route selected
/// for its subnet is infeasible, so the route that records it is not selected.
pub proof fn lemma_older_update_infeasible(t: Seq<RouteView>, u: UpdateView, k: int)
    requires
        0 <= k < t.len(),
        t[k].subnet == u.subnet,
        t[k].selected,
        seqno_newer(t[k].seqno, u.seqno),
    ensures
        !update_feasible(t, u),
{
    lemma_newer_asymmetric(t[k].seqno, u.seqno);
}

/// In a well-formed table no feasible route of a subnet is older than the
/// route selected for it, nor of lower metric: a route older than the
/// selected one is selected again only once it has been replaced by a newer
/// update, or every route not older than it has lost feasibility.
pub proof fn lemma_selected_not_older(t: Seq<RouteView>, i: int, j: int)
    requires
        table_wf(t),
        0 <= i < t.len(),
        0 <= j < t.len(),
        t[i].selected,
        t[j].subnet == t[i].subnet,
        t[j].feasible,
    ensures
        !seqno_newer(t[i].seqno, t[j].seqno),
        t[i].metric <= t[j].metric,
{
    assert(entry_ok(t, i));
}

/// No two selected routes share a subnet.
pub open spec fn single_selection(t: Seq<RouteView>) -> bool {
    forall|i: int, j: int|
        0 <= i < t.len() && 0 <= j < t.len() && i != j && t[i].subnet == t[j].subnet && t[i].selected
            ==> !t[j].selected
}

proof fn lemma_snapshot_distinct(t: Seq<RouteView>)
    requires
        single_selection(t),
    ensures
        forall|a: int|
            0 <= a < t.filter(route_pred(false)).len() ==> exists|k: int|
                0 <= k < t.len() && t[k] == #[trigger] t.filter(route_pred(false))[a] && t[k].selected,
        forall|a: int, b: int|
            0 <= a < b < t.filter(route_pred(false)).len() ==> t.filter(route_pred(false))[a].subnet
                != t.filter(route_pred(false))[b].subnet,
    decreases t.len(),
{
    reveal(Seq::filter);
    if t.len() > 0 {
        let d = t.drop_last();
        assert(single_selection(d)) by {
            assert forall|i: int, j: int|
                0 <= i < d.len() && 0 <= j < d.len() && i != j && d[i].subnet == d[j].subnet && d[i].selected
                    implies !d[j].selected by {
                assert(d[i] == t[i] && d[j] == t[j]);
            }
        }
        lemma_snapshot_distinct(d);
        let df = d.filter(route_pred(false));
        let f = t.filter(route_pred(false));
        if t.last().selected {
            assert(f == df.push(t.last()));
        } else {
            assert(f == df);
        }
        assert forall|a: int| 0 <= a < f.len() implies exists|k: int|
            0 <= k < t.len() && t[k] == #[trigger] f[a] && t[k].selected by {
            if a == df.len() {
                assert(t[t.len() - 1] == f[a]);
            } else {
            let k = choose|k: int| 0 <= k < d.len() && d[k] == df[a] && d[k].selected;
            assert(t[k] == d[k]);
            assert(f[a] == df[a]);
            }
        }
        if t.last().selected {
            assert(f == df.push(t.last()));
            assert forall|a: int, b: int| 0 <= a < b < f.len() implies f[a].subnet != f[b].subnet by {
                if b == f.len() - 1 {
                    let k = choose|k: int| 0 <= k < d.len() && d[k] == df[a] && d[k].selected;
                    assert(t[k] == d[k]);
                    assert(k != t.len() - 1);
                }
            }
        } else {
            assert(f == df);
        }
    }
}

/// The list of selected routes of a well-formed table names each subnet at
/// most once.
pub proof fn lemma_selected_routes_distinct(t: Seq<RouteView>)
    requires
        table_wf(t),
    ensures
        forall|a: int, b: int|
            0 <= a < b < t.filter(route_pred(false)).len() ==> t.filter(route_pred(false))[a].subnet
                != t.filter(route_pred(false))[b].subnet,
{
    assert forall|i: int, j: int|
        0 <= i < t.len() && 0 <= j < t.len() && i != j && t[i].subnet == t[j].subnet && t[i].selected
            implies !t[j].selected by {
        assert(entry_ok(t, i));
    }
    lemma_snapshot_distinct(t);
}

proof fn lemma_filter_from(t: Seq<RouteView>, p: spec_fn(RouteView) -> bool)
    ensures
        forall|a: int|
            0 <= a < t.filter(p).len() ==> exists|k: int| 0 <= k < t.len() && t[k] == #[trigger] t.filter(p)[a] && p(t[k]),
    decreases t.len(),
{
    reveal(Seq::filter);
    if t.len() > 0 {
        let d = t.drop_last();
        lemma_filter_from(d, p);
        let df = d.filter(p);
        let f = t.filter(p);
        if p(t.last()) {
            assert(f == df.push(t.last()));
        } else {
            assert(f == df);
        }
        assert forall|a: int| 0 <= a < f.len() implies exists|k: int| 0 <= k < t.len() && t[k] == #[trigger] f[a] && p(t[k]) by {
            if a == df.len() {
                assert(t[t.len() - 1] == f[a]);
            } else {
                let k = choose|k: int| 0 <= k < d.len() && d[k] == df[a] && p(d[k]);
                assert(t[k] == d[k]);
                assert(f[a] == df[a]);
            }
        }
    }
}

/// List `s` holds a route of the subnet of `x` with no greater metric.
pub open spec fn has_better(s: Seq<RouteView>, x: RouteView) -> bool {
    exists|b: int| 0 <= b < s.len() && s[b].subnet == x.subnet && s[b].metric <= x.metric
}

/// Every route in the list of fallback routes of a well-formed table has a
/// route of its subnet in the list of selected routes, of no greater metric.
pub proof fn lemma_fallbacks_have_better_selected(t: Seq<RouteView>)
    requires
        table_wf(t),
    ensures
        forall|a: int|
            0 <= a < t.filter(route_pred(true)).len() ==> has_better(
                t.filter(route_pred(false)),
                #[trigger] t.filter(route_pred(true))[a],
            ),
{
    let f = t.filter(route_pred(true));
    let s = t.filter(route_pred(false));
    lemma_filter_from(t, route_pred(true));
    t.filter_lemma(route_pred(false));
    assert forall|a: int| 0 <= a < f.len() implies has_better(s, #[trigger] f[a]) by {
        let k = choose|k: int| 0 <= k < t.len() && t[k] == f[a] && route_pred(true)(t[k]);
        assert(entry_ok(t, k));
        let j = choose|j: int| 0 <= j < t.len() && t[j].subnet == t[k].subnet && t[j].selected;
        assert(entry_ok(t, j));
        assert(route_pred(false)(t[j]));
        assert(s.contains(t[j]));
        let b = choose|b: int| 0 <= b < s.len() && s[b] == t[j];
        assert(s[b].subnet == f[a].subnet);
    }
}

/// A route that is the only feasible one of its subnet is the selected one:
/// retracting the selected route promotes the sole remaining fallback.
pub proof fn lemma_sole_feasible_selected(t: Seq<RouteView>, k: int)
    requires
        table_wf(t),
        0 <= k < t.len(),
        t[k].feasible,
        forall|j: int| 0 <= j < t.len() && j != k && t[j].subnet == t[k].subnet ==> !t[j].feasible,
    ensures
        t[k].selected,
{
    assert(entry_ok(t, k));
    let j = choose|j: int| 0 <= j < t.len() && t[j].subnet == t[k].subnet && t[j].selected;
    assert(entry_ok(t, j));
}

/// Retracting the routes of a subnet learned from one neighbour promotes a
/// route of another neighbour that is the only other feasible route there.
pub proof fn lemma_retraction_promotes_fallback(t0: Seq<RouteView>, t1: Seq<RouteView>, s: SubnetView, n: u64, b: int)
    requires
        table_wf(t0),
        retract_outcome(t0, t1, s, n),
        0 <= b < t0.len(),
        t0[b].subnet == s,
        t0[b].neighbour != n,
        t0[b].feasible,
        forall|j: int| 0 <= j < t0.len() && j != b && t0[j].subnet == s && t0[j].feasible ==> t0[j].neighbour == n,
    ensures
        t1[b].selected,
{
    let tm = marked_in(t0, s, n);
    assert(tm[b] == t0[b]);
    assert(dominant(tm, s, b));
}

/// Removing every route learned from a neighbour, one of which is of subnet
/// `s`, promotes a route of another neighbour that is the only other feasible
/// route of `s`.
pub proof fn lemma_retract_all_promotes_fallback(t0: Seq<RouteView>, t1: Seq<RouteView>, n: u64, a: int, b: int)
    requires
        table_wf(t0),
        retract_all_outcome(t0, t1, n),
        0 <= a < t0.len(),
        t0[a].neighbour == n,
        0 <= b < t0.len(),
        t0[b].subnet == t0[a].subnet,
        t0[b].neighbour != n,
        t0[b].feasible,
        forall|j: int|
            0 <= j < t0.len() && j != b && t0[j].subnet == t0[a].subnet && t0[j].feasible ==> t0[j].neighbour == n,
    ensures
        t1[b].selected,
{
    let tm = marked_all(t0, n);
    let s = t0[a].subnet;
    assert(processed(t0, n, s, t0.len() as int));
    assert(tm[b] == t0[b]);
    assert(dominant(tm, s, b));
}

} // verus!
