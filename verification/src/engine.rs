//! The connectivity engine: a table of node records, a table of groups, and
//! the operations that wire nodes together and unwire them again.
//!
//! Every node record designates exactly one live group, and holds its own
//! position inside that group's member list. A group owns the member list and
//! the list of active links among its members. Connecting two nodes of
//! different groups folds one group into the other; unwiring a link splits
//! the group along the connected components that remain. A destroyed node
//! leaves a tombstone in its group's member list until the next merge or
//! split reclaims it.

use vstd::prelude::*;

use crate::connectivity::Link;
use crate::connectivity::connected;
use crate::connectivity::connected_components;
use crate::connectivity::drop_link;
use crate::connectivity::link_index;
use crate::connectivity::links;
use crate::connectivity::one_component;

verus! {

broadcast use vstd::std_specs::vec::group_vec_axioms;

/// The mutable backing data of one node: whether the node still lives, the
/// group it designates, and its position in that group's member list.
#[derive(Clone, Copy)]
pub struct Record {
    pub alive: bool,
    pub group: usize,
    pub index: usize,
}

/// One group: its member list (node ids, possibly tombstones of destroyed
/// nodes) and the active links among those members. A dissolved group keeps
/// its slot, emptied and marked dead, so that group ids stay stable.
pub struct GroupState {
    pub alive: bool,
    pub members: Vec<usize>,
    pub edges: Vec<Link>,
}

/// How an operation can fail: unwiring a pair that no direct link joins is a
/// precondition violation, reported rather than acted on.
#[derive(Clone, Copy, PartialEq, Eq, Structural, Debug)]
pub enum BusError {
    NoDirectLink,
}

/// The whole engine state. Node ids and group ids are indices into the two
/// tables and are never reused.
pub struct Engine {
    pub nodes: Vec<Record>,
    pub groups: Vec<GroupState>,
}

impl Engine {
    /// How many node ids have been handed out.
    pub open spec fn node_count(self) -> int {
        self.nodes@.len() as int
    }

    /// How many group ids have been handed out.
    pub open spec fn group_count(self) -> int {
        self.groups@.len() as int
    }

    /// Node `n` has been created and not yet destroyed.
    pub open spec fn is_live(self, n: usize) -> bool {
        n < self.nodes@.len() && self.nodes@[n as int].alive
    }

    /// The group that node `n` currently designates.
    pub open spec fn group_of(self, n: usize) -> usize {
        self.nodes@[n as int].group
    }

    /// Group `g` exists and has not been dissolved.
    pub open spec fn group_live(self, g: usize) -> bool {
        g < self.groups@.len() && self.groups@[g as int].alive
    }

    /// The member list of group `g`: node ids in insertion order, tombstones
    /// included.
    pub open spec fn member_ids(self, g: usize) -> Seq<usize> {
        self.groups@[g as int].members@
    }

    /// The active links of group `g`.
    pub open spec fn link_list(self, g: usize) -> Seq<Link> {
        self.groups@[g as int].edges@
    }

    /// Two nodes designate the same group.
    pub open spec fn same_group(self, a: usize, b: usize) -> bool {
        self.group_of(a) == self.group_of(b)
    }

    /// A direct link joins `a` and `b` inside `a`'s group.
    pub open spec fn has_link(self, a: usize, b: usize) -> bool {
        links(self.link_list(self.group_of(a)), a, b)
    }

    /// Every live record points at a live group and back at its own slot in
    /// that group's member list.
    pub open spec fn records_ok(self) -> bool {
        forall|n: int|
            0 <= n < self.nodes@.len() && (#[trigger] self.nodes@[n]).alive ==> {
                let r = self.nodes@[n];
                &&& (r.group as int) < self.groups@.len()
                &&& self.groups@[r.group as int].alive
                &&& (r.index as int) < self.groups@[r.group as int].members@.len()
                &&& self.groups@[r.group as int].members@[r.index as int] == n
            }
    }

    /// Every listed member is a known node id, and a live member's record
    /// points back exactly at its list position.
    pub open spec fn members_ok(self) -> bool {
        forall|g: int, k: int|
            #![trigger self.groups@[g].members@[k]]
            0 <= g < self.groups@.len() && 0 <= k < self.groups@[g].members@.len() ==> {
                let m = self.groups@[g].members@[k];
                &&& (m as int) < self.nodes@.len()
                &&& (self.nodes@[m as int].alive ==> self.nodes@[m as int].group == g
                    && self.nodes@[m as int].index == k)
            }
    }

    /// No node id, live or tombstone, stands in two member slots.
    pub open spec fn members_unique(self) -> bool {
        forall|g1: int, k1: int, g2: int, k2: int|
            #![trigger self.groups@[g1].members@[k1], self.groups@[g2].members@[k2]]
            0 <= g1 < self.groups@.len() && 0 <= k1 < self.groups@[g1].members@.len() && 0 <= g2
                < self.groups@.len() && 0 <= k2 < self.groups@[g2].members@.len()
                && self.groups@[g1].members@[k1] == self.groups@[g2].members@[k2] ==> g1 == g2 && k1
                == k2
    }

    /// A dissolved group keeps nothing: no members, no links.
    pub open spec fn dead_groups_empty(self) -> bool {
        forall|g: int|
            0 <= g < self.groups@.len() && !(#[trigger] self.groups@[g]).alive
                ==> self.groups@[g].members@.len() == 0 && self.groups@[g].edges@.len() == 0
    }

    /// Every link joins two distinct listed members of its own group, so no
    /// link ever crosses two groups.
    pub open spec fn links_ok(self) -> bool {
        forall|g: int, i: int|
            #![trigger self.groups@[g].edges@[i]]
            0 <= g < self.groups@.len() && 0 <= i < self.groups@[g].edges@.len() ==> {
                let e = self.groups@[g].edges@[i];
                &&& self.groups@[g].members@.contains(e.0)
                &&& self.groups@[g].members@.contains(e.1)
                &&& e.0 != e.1
            }
    }

    /// No pair of nodes is joined by two links, in either orientation.
    pub open spec fn links_unique(self) -> bool {
        forall|g: int, i: int, j: int|
            #![trigger self.groups@[g].edges@[i], self.groups@[g].edges@[j]]
            0 <= g < self.groups@.len() && 0 <= i < self.groups@[g].edges@.len() && 0 <= j
                < self.groups@[g].edges@.len() && i != j ==> {
                let e1 = self.groups@[g].edges@[i];
                let e2 = self.groups@[g].edges@[j];
                e1 != e2 && e1 != (e2.1, e2.0)
            }
    }

    /// Well-formedness: all the structural invariants at once.
    pub open spec fn wf(self) -> bool {
        &&& self.records_ok()
        &&& self.members_ok()
        &&& self.members_unique()
        &&& self.dead_groups_empty()
        &&& self.links_ok()
        &&& self.links_unique()
    }

    /// Holds of a node id when its record is still alive.
    pub open spec fn live_pred(self) -> spec_fn(usize) -> bool {
        |m: usize| self.nodes@[m as int].alive
    }

    /// Holds of a link when both of its endpoints are still alive.
    pub open spec fn live_link_pred(self) -> spec_fn(Link) -> bool {
        |e: Link| self.nodes@[e.0 as int].alive && self.nodes@[e.1 as int].alive
    }

    /// An engine with no nodes and no groups.
    pub fn new() -> (e: Engine)
        ensures
            e.wf(),
            e.node_count() == 0,
            e.group_count() == 0,
    {
        Engine { nodes: Vec::new(), groups: Vec::new() }
    }

    /// Creates a node together with its own fresh singleton group: one
    /// member, no links. Nothing that already existed changes.
    pub fn new_node(&mut self) -> (n: usize)
        requires
            old(self).wf(),
        ensures
            final(self).wf(),
            n == old(self).node_count(),
            final(self).node_count() == old(self).node_count() + 1,
            final(self).group_count() == old(self).group_count() + 1,
            final(self).is_live(n),
            final(self).group_of(n) == old(self).group_count(),
            final(self).member_ids(final(self).group_of(n)) == seq![n],
            final(self).link_list(final(self).group_of(n)) == Seq::<Link>::empty(),
            forall|m: int| 0 <= m < old(self).node_count() ==> final(self).nodes@[m] == old(
                self,
            ).nodes@[m],
            forall|g: int| 0 <= g < old(self).group_count() ==> final(self).groups@[g] == old(
                self,
            ).groups@[g],
    {
        let n = self.nodes.len();
        let g = self.groups.len();
        let mut members: Vec<usize> = Vec::new();
        members.push(n);
        self.groups.push(GroupState { alive: true, members, edges: Vec::new() });
        self.nodes.push(Record { alive: true, group: g, index: 0 });
        proof {
            assert(final(self).member_ids(g as usize) =~= seq![n]);
            assert(final(self).link_list(g as usize) =~= Seq::<Link>::empty());
        }
        n
    }

    /// The group a node designates; the payload every member of that group
    /// shares is keyed by this identity.
    pub fn get_data(&self, n: usize) -> (g: usize)
        requires
            self.wf(),
            self.is_live(n),
        ensures
            g == self.group_of(n),
    {
        self.nodes[n].group
    }

    /// The number of member slots of the group a node designates, tombstones
    /// included.
    pub fn group_size(&self, n: usize) -> (s: usize)
        requires
            self.wf(),
            self.is_live(n),
        ensures
            s == self.member_ids(self.group_of(n)).len(),
    {
        self.groups[self.nodes[n].group].members.len()
    }

    /// The number of active links of the group a node designates.
    pub fn link_count(&self, n: usize) -> (s: usize)
        requires
            self.wf(),
            self.is_live(n),
        ensures
            s == self.link_list(self.group_of(n)).len(),
    {
        self.groups[self.nodes[n].group].edges.len()
    }

    /// Whether a direct link joins `a` and `b`.
    pub fn linked(&self, a: usize, b: usize) -> (r: bool)
        requires
            self.wf(),
            self.is_live(a),
            self.is_live(b),
        ensures
            r == (self.same_group(a, b) && self.has_link(a, b)),
    {
        if self.nodes[a].group != self.nodes[b].group {
            return false;
        }
        match find_link(&self.groups[self.nodes[a].group].edges, a, b) {
            Option::Some(_) => true,
            Option::None => false,
        }
    }

    /// Destroys a node's backing record. The group's member list is not
    /// touched: the slot becomes a tombstone, reclaimed by the next merge or
    /// split that reorganises the group.
    pub fn destroy_node(&mut self, n: usize)
        requires
            old(self).wf(),
            old(self).is_live(n),
        ensures
            final(self).wf(),
            !final(self).is_live(n),
            final(self).node_count() == old(self).node_count(),
            final(self).groups@ == old(self).groups@,
            forall|m: int|
                0 <= m < old(self).node_count() && m != n ==> final(self).nodes@[m] == old(
                    self,
                ).nodes@[m],
    {
        let r = self.nodes[n];
        self.nodes.set(n, Record { alive: false, group: r.group, index: r.index });
    }

    /// Wires `a` and `b` together. When the two already share a group the
    /// call does nothing at all. Otherwise `b`'s group is folded into `a`'s:
    /// the absorbed group's live members migrate, in order, to the end of the
    /// surviving member list, links between two live migrants move with them,
    /// tombstones and their links are dropped, the absorbed group is cleared,
    /// and the new link between `a` and `b` is recorded last. The initiating
    /// side keeps its group identity, and with it the shared payload.
    #[verifier::loop_isolation(false)]
    pub fn connect(&mut self, a: usize, b: usize)
        requires
            old(self).wf(),
            old(self).is_live(a),
            old(self).is_live(b),
            a != b,
        ensures
            final(self).wf(),
            final(self).node_count() == old(self).node_count(),
            final(self).group_count() == old(self).group_count(),
            final(self).is_live(a) && final(self).is_live(b),
            final(self).group_of(a) == old(self).group_of(a),
            final(self).same_group(a, b),
            old(self).same_group(a, b) ==> *final(self) == *old(self),
            !old(self).same_group(a, b) ==> {
                let ga = old(self).group_of(a);
                let gb = old(self).group_of(b);
                &&& final(self).has_link(a, b)
                &&& final(self).group_live(ga)
                &&& !final(self).group_live(gb)
                &&& final(self).member_ids(ga) == old(self).member_ids(ga)
                    + old(self).member_ids(gb).filter(old(self).live_pred())
                &&& final(self).link_list(ga) == old(self).link_list(ga)
                    + old(self).link_list(gb).filter(old(self).live_link_pred()) + seq![(a, b)]
                &&& forall|g: int|
                    0 <= g < old(self).group_count() && g != ga as int && g != gb as int
                        ==> final(self).groups@[g] == old(self).groups@[g]
                &&& forall|n: int|
                    0 <= n < old(self).node_count()
                        ==> if old(self).nodes@[n].alive && old(self).nodes@[n].group == gb {
                        final(self).nodes@[n].alive && final(self).nodes@[n].group == ga
                    } else {
                        final(self).nodes@[n] == old(self).nodes@[n]
                    }
            },
    {
        let ga = self.nodes[a].group;
        let gb = self.nodes[b].group;
        if ga == gb {
            return ;
        }
        let ghost ga_mem0 = self.member_ids(ga);
        let ghost gb_mem0 = self.member_ids(gb);
        let ghost ga_lnk0 = self.link_list(ga);
        let ghost gb_lnk0 = self.link_list(gb);
        let ghost live_m = old(self).live_pred();
        let ghost live_e = old(self).live_link_pred();
        proof {
            assert(gb_mem0.no_duplicates());
            crate::connectivity::lemma_filter_no_dup(gb_mem0, live_m);
            crate::connectivity::lemma_filter_is_subset(gb_mem0, live_m);
            crate::connectivity::lemma_filter_is_subset(gb_lnk0, live_e);
        }
        let ga_len0 = self.groups[ga].members.len();

        // the surviving member list: ga's members, then gb's live members
        let mut merged_members = copy_ids(&self.groups[ga].members);
        let gb_mlen = self.groups[gb].members.len();
        let mut k: usize = 0;
        while k < gb_mlen
            invariant
                k <= gb_mlen,
                merged_members@ == ga_mem0 + gb_mem0.take(k as int).filter(live_m),
            decreases gb_mlen - k,
        {
            let m = self.groups[gb].members[k];
            if self.nodes[m].alive {
                merged_members.push(m);
            }
            proof {
                crate::connectivity::lemma_filter_take_step(gb_mem0, live_m, k as int);
            }
            k += 1;
        }
        proof {
            assert(gb_mem0.take(gb_mem0.len() as int) =~= gb_mem0);
        }

        // the surviving link list: ga's links, gb's links between two live
        // migrants, and last the new link itself
        let mut merged_edges = copy_links(&self.groups[ga].edges);
        let gb_elen = self.groups[gb].edges.len();
        let mut i: usize = 0;
        while i < gb_elen
            invariant
                i <= gb_elen,
                merged_edges@ == ga_lnk0 + gb_lnk0.take(i as int).filter(live_e),
            decreases gb_elen - i,
        {
            let e = self.groups[gb].edges[i];
            if self.nodes[e.0].alive && self.nodes[e.1].alive {
                merged_edges.push(e);
            }
            proof {
                crate::connectivity::lemma_filter_take_step(gb_lnk0, live_e, i as int);
            }
            i += 1;
        }
        proof {
            assert(gb_lnk0.take(gb_lnk0.len() as int) =~= gb_lnk0);
        }
        merged_edges.push((a, b));
        proof {
            assert(merged_edges@ =~= ga_lnk0 + gb_lnk0.filter(live_e) + seq![(a, b)]);
        }

        let ghost mem1 = merged_members@;
        let ghost lnk1 = merged_edges@;
        let ghost tail = gb_mem0.filter(live_m);

        // install the merged group, clear the absorbed one
        self.groups.set(gb, GroupState { alive: false, members: Vec::new(), edges: Vec::new() });
        self.groups.set(ga, GroupState { alive: true, members: merged_members, edges: merged_edges });

        // point each migrated record at its new home
        let total = self.groups[ga].members.len();
        let mut p = ga_len0;
        proof {
            assert(mem1.len() == ga_mem0.len() + tail.len());
        }
        while p < total
            invariant
                ga_len0 <= p <= total,
                total == mem1.len(),
                self.nodes@.len() == old(self).nodes@.len(),
                self.groups@.len() == old(self).groups@.len(),
                self.groups@[ga as int].alive,
                self.groups@[ga as int].members@ == mem1,
                self.groups@[ga as int].edges@ == lnk1,
                !self.groups@[gb as int].alive,
                self.groups@[gb as int].members@.len() == 0,
                self.groups@[gb as int].edges@.len() == 0,
                forall|g: int|
                    0 <= g < self.groups@.len() && g != ga as int && g != gb as int
                        ==> self.groups@[g] == old(self).groups@[g],
                forall|q: int|
                    ga_len0 <= q < p ==> self.nodes@[mem1[q] as int] == (Record {
                        alive: true,
                        group: ga,
                        index: q as usize,
                    }),
                forall|n: int|
                    0 <= n < self.nodes@.len() && (forall|q: int|
                        ga_len0 <= q < p ==> mem1[q] as int != n) ==> self.nodes@[n] == old(
                        self,
                    ).nodes@[n],
            decreases total - p,
        {
            let m = self.groups[ga].members[p];
            proof {
                assert(mem1[p as int] == tail[p - ga_len0 as int]);
                assert(gb_mem0.contains(tail[p - ga_len0 as int]));
            }
            self.nodes.set(m, Record { alive: true, group: ga, index: p });
            p += 1;
        }
        proof {
            self.lemma_connect_restores_wf(*old(self), a, b, ga, gb);
        }
    }

    /// Points the records of the listed nodes at group `gid`, each at its
    /// list position. Nothing else changes.
    #[verifier::loop_isolation(false)]
    fn point_records(&mut self, mems: &Vec<usize>, gid: usize)
        requires
            forall|k: int| 0 <= k < mems@.len() ==> (mems@[k] as int) < old(self).nodes@.len(),
            mems@.no_duplicates(),
        ensures
            final(self).nodes@.len() == old(self).nodes@.len(),
            final(self).groups@ == old(self).groups@,
            forall|k: int|
                0 <= k < mems@.len() ==> final(self).nodes@[mems@[k] as int] == (Record {
                    alive: true,
                    group: gid,
                    index: k as usize,
                }),
            forall|n: int|
                0 <= n < old(self).nodes@.len() && (forall|k: int|
                    0 <= k < mems@.len() ==> mems@[k] as int != n) ==> final(self).nodes@[n] == old(
                    self,
                ).nodes@[n],
    {
        let mut k: usize = 0;
        while k < mems.len()
            invariant
                k <= mems@.len(),
                self.nodes@.len() == old(self).nodes@.len(),
                self.groups@ == old(self).groups@,
                forall|q: int|
                    0 <= q < k ==> self.nodes@[mems@[q] as int] == (Record {
                        alive: true,
                        group: gid,
                        index: q as usize,
                    }),
                forall|n: int|
                    0 <= n < self.nodes@.len() && (forall|q: int|
                        0 <= q < k ==> mems@[q] as int != n) ==> self.nodes@[n] == old(
                        self,
                    ).nodes@[n],
            decreases mems@.len() - k,
        {
            let m = mems[k];
            self.nodes.set(m, Record { alive: true, group: gid, index: k });
            k += 1;
        }
    }

    /// Unwires the direct link between `a` and `b`. When the two designate
    /// different groups nothing holds them together and the call does
    /// nothing. When they share a group but no direct link joins them, the
    /// call reports the precondition violation and changes nothing. When the
    /// link exists it is removed; if the group's graph then still hangs
    /// together in one piece the group survives untouched otherwise, and if
    /// it falls apart the group dissolves into one fresh group per connected
    /// component, each with a fresh identity — and so a fresh payload — each
    /// holding exactly the live nodes of its component and the residual
    /// links between them. Tombstones are dropped in passing.
    #[verifier::loop_isolation(false)]
    #[verifier::rlimit(100)]
    pub fn disconnect(&mut self, a: usize, b: usize) -> (r: Result<(), BusError>)
        requires
            old(self).wf(),
            old(self).is_live(a),
            old(self).is_live(b),
            a != b,
        ensures
            final(self).wf(),
            final(self).is_live(a) && final(self).is_live(b),
            final(self).node_count() == old(self).node_count(),
            !old(self).same_group(a, b) ==> r == Result::<(), BusError>::Ok(()) && *final(self)
                == *old(self),
            old(self).same_group(a, b) && !old(self).has_link(a, b) ==> r == Result::<
                (),
                BusError,
            >::Err(BusError::NoDirectLink) && *final(self) == *old(self),
            old(self).same_group(a, b) && old(self).has_link(a, b) ==> ({
                let g = old(self).group_of(a);
                let resid = drop_link(old(self).link_list(g), a, b);
                &&& r == Result::<(), BusError>::Ok(())
                &&& final(self).group_count() >= old(self).group_count()
                &&& forall|gg: int|
                    0 <= gg < old(self).group_count() && gg != g as int ==> final(self).groups@[gg]
                        == old(self).groups@[gg]
                &&& forall|n: int|
                    0 <= n < old(self).node_count() && !(old(self).nodes@[n].alive && old(
                        self,
                    ).nodes@[n].group == g) ==> final(self).nodes@[n] == old(self).nodes@[n]
                &&& forall|n: int|
                    0 <= n < old(self).node_count() && old(self).nodes@[n].alive && old(
                        self,
                    ).nodes@[n].group == g ==> (#[trigger] final(self).nodes@[n]).alive
                &&& forall|x: usize, y: usize|
                    #![trigger connected(resid, x, y)]
                    old(self).is_live(x) && old(self).is_live(y) && old(self).group_of(x) == g
                        && old(self).group_of(y) == g ==> (final(self).same_group(x, y)
                        <==> connected(resid, x, y))
                &&& forall|x: usize, y: usize|
                    #![trigger links(resid, x, y)]
                    old(self).is_live(x) && old(self).is_live(y) && old(self).group_of(x) == g
                        && old(self).group_of(y) == g ==> (final(self).has_link(x, y) <==> links(
                        resid,
                        x,
                        y,
                    ))
                &&& one_component(old(self).member_ids(g), resid) ==> final(self).group_count()
                    == old(self).group_count() && final(self).group_live(g)
                    && final(self).member_ids(g) == old(self).member_ids(g)
                    && final(self).link_list(g) == resid && final(self).nodes@ == old(self).nodes@
                &&& !one_component(old(self).member_ids(g), resid) ==> !final(self).group_live(g)
                    && (forall|n: int|
                    0 <= n < old(self).node_count() && old(self).nodes@[n].alive && old(
                        self,
                    ).nodes@[n].group == g ==> ((#[trigger] final(self).nodes@[n]).group as int)
                        >= old(self).group_count()) && (forall|gg: int, k: int|
                    #![trigger final(self).groups@[gg].members@[k]]
                    old(self).group_count() <= gg < final(self).group_count() && 0 <= k
                        < final(self).groups@[gg].members@.len()
                        ==> final(self).nodes@[final(self).groups@[gg].members@[k] as int].alive)
            }),
    {
        let g = self.nodes[a].group;
        let gother = self.nodes[b].group;
        if g != gother {
            return Result::Ok(());
        }
        let pos = match find_link(&self.groups[g].edges, a, b) {
            Option::None => {
                return Result::Err(BusError::NoDirectLink);
            },
            Option::Some(p) => p,
        };
        let ghost es0 = self.link_list(g);
        let ghost mem0 = self.member_ids(g);
        let ghost live_m = old(self).live_pred();
        proof {
            assert(links(es0, a, b));
            let i0 = link_index(es0, a, b);
            assert(0 <= i0 < es0.len() && (es0[i0] == (a, b) || es0[i0] == (b, a)));
            if i0 != pos as int {
                assert(self.groups@[g as int].edges@[i0] == es0[i0]);
                assert(self.groups@[g as int].edges@[pos as int] == es0[pos as int]);
                assert(false);
            }
        }

        // the residual link list: everything but the dropped link
        let elen = self.groups[g].edges.len();
        let mut resid_v: Vec<Link> = Vec::new();
        let mut t: usize = 0;
        while t < elen
            invariant
                t <= elen,
                resid_v@.len() == if t <= pos {
                    t as int
                } else {
                    t - 1
                },
                forall|i: int|
                    0 <= i < resid_v@.len() ==> resid_v@[i] == (if i < pos {
                        es0[i]
                    } else {
                        es0[i + 1]
                    }),
            decreases elen - t,
        {
            if t != pos {
                resid_v.push(self.groups[g].edges[t]);
            }
            t += 1;
        }
        let ghost resid = es0.remove(pos as int);
        proof {
            assert(resid_v@ =~= resid);
            assert(drop_link(es0, a, b) == resid);
            // the residual links still join distinct listed members
            assert forall|i: int|
                0 <= i < resid.len() implies mem0.contains(#[trigger] resid[i].0) && mem0.contains(
                resid[i].1,
            ) && resid[i].0 != resid[i].1 by {
                let j: int = if i < pos {
                    i
                } else {
                    i + 1
                };
                assert(self.groups@[g as int].edges@[j] == es0[j]);
                assert(resid[i] == es0[j]);
            }
        }

        // compute the connected components of what is left
        let verts = copy_ids(&self.groups[g].members);
        proof {
            assert forall|i: int, j: int| 0 <= i < j < verts@.len() implies verts@[i]
                != verts@[j] by {
                assert(self.groups@[g as int].members@[i] == verts@[i]);
                assert(self.groups@[g as int].members@[j] == verts@[j]);
            }
        }
        let comps = connected_components(&verts, &resid_v);
        let ghost cs = comps@;

        if comps.len() <= 1 {
            // still one piece: the group survives, only the link is gone
            self.groups.set(g, GroupState { alive: true, members: verts, edges: resid_v });
            proof {
                assert(one_component(mem0, resid)) by {
                    assert forall|k1: int, k2: int|
                        0 <= k1 < mem0.len() && 0 <= k2 < mem0.len() implies connected(
                        resid,
                        mem0[k1],
                        mem0[k2],
                    ) by {
                        let x = mem0[k1];
                        let y = mem0[k2];
                        assert(mem0.contains(x) && mem0.contains(y));
                        let (c1, q1): (int, int) = choose|c: int, q: int|
                            0 <= c < cs.len() && 0 <= q < cs[c]@.len() && cs[c]@[q] == x;
                        let (c2, q2): (int, int) = choose|c: int, q: int|
                            0 <= c < cs.len() && 0 <= q < cs[c]@.len() && cs[c]@[q] == y;
                        assert(c1 == 0 && c2 == 0);
                        assert(connected(resid, cs[c1]@[q1], cs[c2]@[q2]));
                    }
                }
                self.lemma_unsplit_ok(*old(self), a, b, g, pos as int);
            }
            return Result::Ok(());
        }

        // the group falls apart: one fresh group per component
        proof {
            assert(!one_component(mem0, resid)) by {
                let x = cs[0]@[0];
                let y = cs[1]@[0];
                assert(!connected(resid, x, y));
                assert(mem0.contains(x) && mem0.contains(y));
                let k1 = choose|k: int| 0 <= k < mem0.len() && mem0[k] == x;
                let k2 = choose|k: int| 0 <= k < mem0.len() && mem0[k] == y;
                if one_component(mem0, resid) {
                    assert(connected(resid, mem0[k1], mem0[k2]));
                    assert(false);
                }
            }
        }
        let ghost g0count = self.groups@.len() as int;
        self.groups.set(g, GroupState { alive: false, members: Vec::new(), edges: Vec::new() });
        let ncomps = comps.len();
        let mut c: usize = 0;
        while c < ncomps
            invariant
                c <= ncomps,
                ncomps == cs.len(),
                self.nodes@.len() == old(self).nodes@.len(),
                self.groups@.len() == g0count + c,
                !self.groups@[g as int].alive,
                self.groups@[g as int].members@.len() == 0,
                self.groups@[g as int].edges@.len() == 0,
                forall|gg: int|
                    0 <= gg < g0count && gg != g as int ==> self.groups@[gg] == old(
                        self,
                    ).groups@[gg],
                forall|d: int|
                    #![trigger self.groups@[g0count + d]]
                    0 <= d < c ==> {
                        let live_d = cs[d]@.filter(live_m);
                        &&& self.groups@[g0count + d].alive
                        &&& self.groups@[g0count + d].members@ == live_d
                        &&& self.groups@[g0count + d].edges@ == resid.filter(
                            |e: Link| live_d.contains(e.0) && live_d.contains(e.1),
                        )
                    },
                forall|d: int, k: int|
                    #![trigger cs[d]@.filter(live_m)[k]]
                    0 <= d < c && 0 <= k < cs[d]@.filter(live_m).len() ==> self.nodes@[cs[d]@.filter(
                        live_m,
                    )[k] as int] == (Record {
                        alive: true,
                        group: (g0count + d) as usize,
                        index: k as usize,
                    }),
                forall|n: int|
                    0 <= n < self.nodes@.len() && (forall|d: int, k: int|
                        0 <= d < c && 0 <= k < cs[d]@.filter(live_m).len() ==> cs[d]@.filter(
                            live_m,
                        )[k] as int != n) ==> self.nodes@[n] == old(self).nodes@[n],
            decreases ncomps - c,
        {
            let gid = self.groups.len();
            let ghost live_d = cs[c as int]@.filter(live_m);
            proof {
                // this component's ids are distinct and untouched so far
                assert forall|i: int, j: int|
                    0 <= i < j < cs[c as int]@.len() implies cs[c as int]@[i]
                    != cs[c as int]@[j] by {}
                assert(cs[c as int]@.no_duplicates());
                crate::connectivity::lemma_filter_no_dup(cs[c as int]@, live_m);
                crate::connectivity::lemma_filter_is_subset(cs[c as int]@, live_m);
            }

            // gather the live members of the component
            let clen = comps[c].len();
            let mut mems: Vec<usize> = Vec::new();
            let mut t1: usize = 0;
            while t1 < clen
                invariant
                    t1 <= clen,
                    clen == cs[c as int]@.len(),
                    mems@ == cs[c as int]@.take(t1 as int).filter(live_m),
                decreases clen - t1,
            {
                let m = comps[c][t1];
                proof {
                    assert(cs[c as int]@[t1 as int] == m);
                    assert(mem0.contains(m));
                    let q = choose|q: int| 0 <= q < mem0.len() && mem0[q] == m;
                    assert(old(self).groups@[g as int].members@[q] == m);
                    // m was not rewritten by an earlier component
                    assert forall|d: int, k: int|
                        0 <= d < c && 0 <= k < cs[d]@.filter(live_m).len() implies cs[d]@.filter(
                        live_m,
                    )[k] as int != m as int by {
                        if cs[d]@.filter(live_m)[k] == m {
                            crate::connectivity::lemma_filter_is_subset(cs[d]@, live_m);
                            assert(cs[d]@.contains(m));
                            let kk = choose|kk: int| 0 <= kk < cs[d]@.len() && cs[d]@[kk] == m;
                            assert(cs[d]@[kk] == cs[c as int]@[t1 as int]);
                            assert(false);
                        }
                    }
                    assert(self.nodes@[m as int] == old(self).nodes@[m as int]);
                }
                if self.nodes[m].alive {
                    mems.push(m);
                }
                proof {
                    crate::connectivity::lemma_filter_take_step(cs[c as int]@, live_m, t1 as int);
                }
                t1 += 1;
            }
            proof {
                assert(cs[c as int]@.take(clen as int) =~= cs[c as int]@);
                assert(mems@ == live_d);
            }

            // keep the residual links that stay inside this component
            let ghost in_d = |e: Link| live_d.contains(e.0) && live_d.contains(e.1);
            let rlen = resid_v.len();
            let mut ces: Vec<Link> = Vec::new();
            let mut t2: usize = 0;
            while t2 < rlen
                invariant
                    t2 <= rlen,
                    rlen == resid.len(),
                    mems@ == live_d,
                    ces@ == resid.take(t2 as int).filter(in_d),
                decreases rlen - t2,
            {
                let e = resid_v[t2];
                if contains_id(&mems, e.0) && contains_id(&mems, e.1) {
                    ces.push(e);
                }
                proof {
                    crate::connectivity::lemma_filter_take_step(resid, in_d, t2 as int);
                }
                t2 += 1;
            }
            proof {
                assert(resid.take(rlen as int) =~= resid);
                assert(ces@ == resid.filter(in_d));
                // members of the component are known nodes
                assert forall|k: int| 0 <= k < mems@.len() implies (mems@[k] as int) < self.nodes@.len() by {
                    assert(cs[c as int]@.contains(mems@[k]));
                    let kk = choose|kk: int| 0 <= kk < cs[c as int]@.len() && cs[c as int]@[kk] == mems@[k];
                    assert(mem0.contains(mems@[k]));
                    let q = choose|q: int| 0 <= q < mem0.len() && mem0[q] == mems@[k];
                    assert(old(self).groups@[g as int].members@[q] == mems@[k]);
                }
            }
            let ghost snap = *self;
            self.point_records(&mems, gid);
            self.groups.push(GroupState { alive: true, members: mems, edges: ces });
            proof {
                assert(self.groups@ == snap.groups@.push(
                    GroupState { alive: true, members: mems, edges: ces },
                ));
                assert forall|d: int, k: int|
                    #![trigger cs[d]@.filter(live_m)[k]]
                    0 <= d < c + 1 && 0 <= k < cs[d]@.filter(live_m).len() implies self.nodes@[cs[
                    d]@.filter(live_m)[k] as int] == (Record {
                    alive: true,
                    group: (g0count + d) as usize,
                    index: k as usize,
                }) by {
                    let m = cs[d]@.filter(live_m)[k];
                    if d < c {
                        // nodes of earlier components are not in this one
                        assert forall|kk: int|
                            0 <= kk < mems@.len() implies mems@[kk] as int != m as int by {
                            if live_d[kk] == m {
                                crate::connectivity::lemma_filter_is_subset(cs[d]@, live_m);
                                crate::connectivity::lemma_filter_is_subset(cs[c as int]@, live_m);
                                assert(cs[d]@.contains(m));
                                assert(cs[c as int]@.contains(m));
                                let q1 = choose|q: int| 0 <= q < cs[d]@.len() && cs[d]@[q] == m;
                                let q2 = choose|q: int|
                                    0 <= q < cs[c as int]@.len() && cs[c as int]@[q] == m;
                                assert(cs[d]@[q1] == cs[c as int]@[q2]);
                                assert(false);
                            }
                        }
                        crate::connectivity::lemma_filter_is_subset(cs[d]@, live_m);
                        assert(cs[d]@.contains(m));
                        let qq = choose|q: int| 0 <= q < cs[d]@.len() && cs[d]@[q] == m;
                        assert(mem0.contains(cs[d]@[qq]));
                        let q2 = choose|q: int| 0 <= q < mem0.len() && mem0[q] == m;
                        assert(old(self).groups@[g as int].members@[q2] == m);
                        assert((m as int) < snap.nodes@.len());
                        assert(self.nodes@[m as int] == snap.nodes@[m as int]);
                        assert(snap.nodes@[m as int] == (Record {
                            alive: true,
                            group: (g0count + d) as usize,
                            index: k as usize,
                        }));
                    } else {
                        assert(mems@[k] == m);
                        assert(self.nodes@[m as int] == (Record {
                            alive: true,
                            group: gid,
                            index: k as usize,
                        }));
                    }
                }
                assert forall|n: int|
                    0 <= n < self.nodes@.len() && (forall|d: int, k: int|
                        0 <= d < c + 1 && 0 <= k < cs[d]@.filter(live_m).len() ==> cs[d]@.filter(
                            live_m,
                        )[k] as int != n) implies self.nodes@[n] == old(self).nodes@[n] by {
                    assert forall|kk: int|
                        0 <= kk < mems@.len() implies mems@[kk] as int != n by {
                        assert(cs[c as int]@.filter(live_m)[kk] as int != n);
                    }
                    assert(self.nodes@[n] == snap.nodes@[n]);
                }
            }
            c += 1;
        }
        proof {
            self.lemma_split_restores_wf(*old(self), a, b, g, cs, resid);
            self.lemma_split_membership(*old(self), a, b, g, cs, resid);
        }
        Result::Ok(())
    }

    /// No node id stands in the member lists of two distinct groups.
    proof fn lemma_member_in_one_group(self, g1: usize, g2: usize, x: usize)
        requires
            self.wf(),
            (g1 as int) < self.group_count(),
            (g2 as int) < self.group_count(),
            g1 != g2,
            self.member_ids(g1).contains(x),
        ensures
            !self.member_ids(g2).contains(x),
    {
        if self.member_ids(g2).contains(x) {
            let k1 = choose|k: int| 0 <= k < self.member_ids(g1).len() && self.member_ids(g1)[k] == x;
            let k2 = choose|k: int| 0 <= k < self.member_ids(g2).len() && self.member_ids(g2)[k] == x;
            assert(self.groups@[g1 as int].members@[k1] == self.groups@[g2 as int].members@[k2]);
            assert(false);
        }
    }

    /// After a link removal that left the group's graph in one piece, the
    /// engine is well formed and the group survives with the residual links.
    proof fn lemma_unsplit_ok(self, pre: Engine, a: usize, b: usize, g: usize, pos: int)
        requires
            pre.wf(),
            pre.is_live(a),
            pre.is_live(b),
            a != b,
            g == pre.group_of(a),
            g == pre.group_of(b),
            0 <= pos < pre.link_list(g).len(),
            pre.link_list(g)[pos] == (a, b) || pre.link_list(g)[pos] == (b, a),
            self.nodes@ == pre.nodes@,
            self.groups@.len() == pre.groups@.len(),
            self.groups@[g as int].alive,
            self.groups@[g as int].members@ == pre.member_ids(g),
            self.groups@[g as int].edges@ == pre.link_list(g).remove(pos),
            forall|gg: int|
                0 <= gg < pre.groups@.len() && gg != g as int ==> self.groups@[gg]
                    == pre.groups@[gg],
        ensures
            self.wf(),
            forall|x: usize, y: usize|
                #![trigger links(pre.link_list(g).remove(pos), x, y)]
                pre.is_live(x) && pre.is_live(y) && pre.group_of(x) == g && pre.group_of(y) == g
                    ==> (self.has_link(x, y) <==> links(pre.link_list(g).remove(pos), x, y)),
            forall|x: usize, y: usize|
                pre.is_live(x) && pre.is_live(y) ==> self.same_group(x, y) == pre.same_group(x, y),
    {
        let es0 = pre.link_list(g);
        let resid = es0.remove(pos);
        assert forall|i: int|
            0 <= i < resid.len() implies resid[i] == es0[if i < pos {
            i
        } else {
            i + 1
        }] by {}
        // links_ok for the surviving group
        assert forall|gg: int, i: int|
            #![trigger self.groups@[gg].edges@[i]]
            0 <= gg < self.groups@.len() && 0 <= i < self.groups@[gg].edges@.len() implies {
            let e = self.groups@[gg].edges@[i];
            &&& self.groups@[gg].members@.contains(e.0)
            &&& self.groups@[gg].members@.contains(e.1)
            &&& e.0 != e.1
        } by {
            let e = self.groups@[gg].edges@[i];
            if gg == g as int {
                let j: int = if i < pos {
                    i
                } else {
                    i + 1
                };
                assert(pre.groups@[g as int].edges@[j] == e);
            } else {
                assert(self.groups@[gg] == pre.groups@[gg]);
                assert(pre.groups@[gg].edges@[i] == e);
            }
        }
        // links_unique for the surviving group
        assert forall|gg: int, i: int, j: int|
            #![trigger self.groups@[gg].edges@[i], self.groups@[gg].edges@[j]]
            0 <= gg < self.groups@.len() && 0 <= i < self.groups@[gg].edges@.len() && 0 <= j
                < self.groups@[gg].edges@.len() && i != j implies {
            let e1 = self.groups@[gg].edges@[i];
            let e2 = self.groups@[gg].edges@[j];
            e1 != e2 && e1 != (e2.1, e2.0)
        } by {
            if gg == g as int {
                let i2: int = if i < pos {
                    i
                } else {
                    i + 1
                };
                let j2: int = if j < pos {
                    j
                } else {
                    j + 1
                };
                assert(pre.groups@[g as int].edges@[i2] == resid[i]);
                assert(pre.groups@[g as int].edges@[j2] == resid[j]);
            } else {
                assert(self.groups@[gg] == pre.groups@[gg]);
                assert(pre.groups@[gg].edges@[i] == self.groups@[gg].edges@[i]);
                assert(pre.groups@[gg].edges@[j] == self.groups@[gg].edges@[j]);
            }
        }
        // the remaining conjuncts only look at members and records, which
        // did not change
        assert(self.records_ok()) by {
            assert forall|n: int|
                0 <= n < self.nodes@.len() && (#[trigger] self.nodes@[n]).alive implies {
                let r = self.nodes@[n];
                &&& (r.group as int) < self.groups@.len()
                &&& self.groups@[r.group as int].alive
                &&& (r.index as int) < self.groups@[r.group as int].members@.len()
                &&& self.groups@[r.group as int].members@[r.index as int] == n
            } by {
                let r = pre.nodes@[n];
                assert(pre.groups@[r.group as int].members@[r.index as int] == n);
                if r.group != g {
                    assert(self.groups@[r.group as int] == pre.groups@[r.group as int]);
                }
            }
        }
        assert(self.members_ok()) by {
            assert forall|gg: int, k: int|
                #![trigger self.groups@[gg].members@[k]]
                0 <= gg < self.groups@.len() && 0 <= k < self.groups@[gg].members@.len() implies {
                let m = self.groups@[gg].members@[k];
                &&& (m as int) < self.nodes@.len()
                &&& (self.nodes@[m as int].alive ==> self.nodes@[m as int].group == gg
                    && self.nodes@[m as int].index == k)
            } by {
                if gg != g as int {
                    assert(self.groups@[gg] == pre.groups@[gg]);
                }
                assert(pre.groups@[gg].members@[k] == self.groups@[gg].members@[k]);
            }
        }
        assert(self.members_unique()) by {
            assert forall|g1: int, k1: int, g2: int, k2: int|
                #![trigger self.groups@[g1].members@[k1], self.groups@[g2].members@[k2]]
                0 <= g1 < self.groups@.len() && 0 <= k1 < self.groups@[g1].members@.len() && 0 <= g2
                    < self.groups@.len() && 0 <= k2 < self.groups@[g2].members@.len()
                    && self.groups@[g1].members@[k1] == self.groups@[g2].members@[k2] implies g1
                == g2 && k1 == k2 by {
                if g1 != g as int {
                    assert(self.groups@[g1] == pre.groups@[g1]);
                }
                if g2 != g as int {
                    assert(self.groups@[g2] == pre.groups@[g2]);
                }
                assert(pre.groups@[g1].members@[k1] == self.groups@[g1].members@[k1]);
                assert(pre.groups@[g2].members@[k2] == self.groups@[g2].members@[k2]);
            }
        }
        assert(self.dead_groups_empty()) by {
            assert forall|gg: int|
                0 <= gg < self.groups@.len() && !(#[trigger] self.groups@[gg]).alive implies self.groups@[
                gg].members@.len() == 0 && self.groups@[gg].edges@.len() == 0 by {
                assert(self.groups@[gg] == pre.groups@[gg]);
            }
        }
        // a node of the group still links to another exactly as the residual
        // list says
        assert forall|x: usize, y: usize|
            pre.is_live(x) && pre.is_live(y) && pre.group_of(x) == g && pre.group_of(y)
                == g implies (self.has_link(x, y) <==> links(resid, x, y)) by {
            assert(self.group_of(x) == g);
        }
    }

    /// After the merge loops of `connect` have run, the engine is well
    /// formed again and relates to the state before the call as the merge
    /// contract says.
    proof fn lemma_connect_restores_wf(self, pre: Engine, a: usize, b: usize, ga: usize, gb: usize)
        requires
            pre.wf(),
            pre.is_live(a),
            pre.is_live(b),
            a != b,
            ga == pre.group_of(a),
            gb == pre.group_of(b),
            ga != gb,
            self.nodes@.len() == pre.nodes@.len(),
            self.groups@.len() == pre.groups@.len(),
            self.groups@[ga as int].alive,
            self.groups@[ga as int].members@ == pre.member_ids(ga) + pre.member_ids(gb).filter(
                pre.live_pred(),
            ),
            self.groups@[ga as int].edges@ == pre.link_list(ga) + pre.link_list(gb).filter(
                pre.live_link_pred(),
            ) + seq![(a, b)],
            !self.groups@[gb as int].alive,
            self.groups@[gb as int].members@.len() == 0,
            self.groups@[gb as int].edges@.len() == 0,
            self.groups@[ga as int].members@.len() <= usize::MAX,
            forall|g: int|
                0 <= g < self.groups@.len() && g != ga as int && g != gb as int ==> self.groups@[g]
                    == pre.groups@[g],
            forall|q: int|
                pre.member_ids(ga).len() <= q < self.groups@[ga as int].members@.len()
                    ==> self.nodes@[self.groups@[ga as int].members@[q] as int] == (Record {
                    alive: true,
                    group: ga,
                    index: q as usize,
                }),
            forall|n: int|
                0 <= n < self.nodes@.len() && (forall|q: int|
                    pre.member_ids(ga).len() <= q < self.groups@[ga as int].members@.len()
                        ==> self.groups@[ga as int].members@[q] as int != n) ==> self.nodes@[n]
                    == pre.nodes@[n],
        ensures
            self.wf(),
            self.is_live(a),
            self.is_live(b),
            self.group_of(a) == ga,
            self.group_of(b) == ga,
            self.has_link(a, b),
            forall|n: int|
                0 <= n < pre.nodes@.len() ==> if pre.nodes@[n].alive && pre.nodes@[n].group == gb {
                    self.nodes@[n].alive && self.nodes@[n].group == ga
                } else {
                    self.nodes@[n] == pre.nodes@[n]
                },
    {
        let live_m = pre.live_pred();
        let live_e = pre.live_link_pred();
        let pre_ga = pre.member_ids(ga);
        let pre_gb = pre.member_ids(gb);
        let tail = pre_gb.filter(live_m);
        let mem1 = self.groups@[ga as int].members@;
        let lnk1 = self.groups@[ga as int].edges@;
        let pre_lga = pre.link_list(ga);
        let pre_lgb = pre.link_list(gb);
        let mid = pre_lgb.filter(live_e);
        let n0 = pre_ga.len() as int;
        crate::connectivity::lemma_filter_no_dup(pre_gb, live_m);
        crate::connectivity::lemma_filter_is_subset(pre_gb, live_m);
        crate::connectivity::lemma_filter_is_subset(pre_lgb, live_e);
        assert(pre_lgb.no_duplicates());
        crate::connectivity::lemma_filter_no_dup(pre_lgb, live_e);

        // what the filters kept: live members of gb, links between two live
        // members of gb
        assert forall|t: int| 0 <= t < tail.len() implies pre_gb.contains(#[trigger] tail[t])
            && pre.nodes@[tail[t] as int].alive && (tail[t] as int) < pre.nodes@.len()
            && pre.nodes@[tail[t] as int].group == gb by {
            pre_gb.lemma_filter_pred(live_m, t);
            let j = choose|j: int| 0 <= j < pre_gb.len() && pre_gb[j] == tail[t];
            assert(pre.groups@[gb as int].members@[j] == tail[t]);
        }
        assert forall|t: int| 0 <= t < mid.len() implies pre_lgb.contains(#[trigger] mid[t])
            && pre_gb.contains(mid[t].0) && pre_gb.contains(mid[t].1)
            && pre.nodes@[mid[t].0 as int].alive && pre.nodes@[mid[t].1 as int].alive
            && mid[t].0 != mid[t].1 by {
            pre_lgb.lemma_filter_pred(live_e, t);
            let j = choose|j: int| 0 <= j < pre_lgb.len() && pre_lgb[j] == mid[t];
            assert(pre.groups@[gb as int].edges@[j] == mid[t]);
        }

        // every pre-live member of gb reached the tail
        assert forall|n: int|
            0 <= n < pre.nodes@.len() && pre.nodes@[n].alive && pre.nodes@[n].group == gb implies
            tail.contains(n as usize) && mem1.contains(n as usize) by {
            let r = pre.nodes@[n];
            assert(pre.groups@[gb as int].members@[r.index as int] == n);
            pre_gb.lemma_filter_contains(live_m, r.index as int);
            let t = choose|t: int| 0 <= t < tail.len() && tail[t] == n as usize;
            assert(mem1[n0 + t] == n as usize);
        }

        // a and b stand in the merged list
        assert(pre.groups@[ga as int].members@[pre.nodes@[a as int].index as int] == a);
        assert(mem1[pre.nodes@[a as int].index as int] == a);
        assert(mem1.contains(a));
        assert(tail.contains(b) && mem1.contains(b));

        // which records were rewritten: exactly the tail positions
        assert forall|n: int|
            0 <= n < self.nodes@.len() && !(pre.nodes@[n].alive && pre.nodes@[n].group == gb)
            implies self.nodes@[n] == pre.nodes@[n] by {
            if exists|q: int| n0 <= q < mem1.len() && mem1[q] as int == n {
                let q = choose|q: int| n0 <= q < mem1.len() && mem1[q] as int == n;
                assert(tail[q - n0] == n as usize);
                assert(false);
            }
        }
        assert forall|n: int|
            0 <= n < self.nodes@.len() && pre.nodes@[n].alive && pre.nodes@[n].group == gb implies
            self.nodes@[n].alive && self.nodes@[n].group == ga && (
            self.nodes@[n].index as int) < mem1.len() && mem1[self.nodes@[n].index as int] == n by {
            let r = pre.nodes@[n];
            assert(pre.groups@[gb as int].members@[r.index as int] == n);
            pre_gb.lemma_filter_contains(live_m, r.index as int);
            let t = choose|t: int| 0 <= t < tail.len() && tail[t] == n as usize;
            assert(mem1[n0 + t] == n as usize);
            assert(self.nodes@[mem1[n0 + t] as int] == (Record {
                alive: true,
                group: ga,
                index: (n0 + t) as usize,
            }));
        }

        // member lists of distinct pre groups are disjoint
        assert forall|x: usize| pre_ga.contains(x) implies !pre_gb.contains(x) by {
            pre.lemma_member_in_one_group(ga, gb, x);
        }

        // records_ok
        assert forall|n: int|
            0 <= n < self.nodes@.len() && (#[trigger] self.nodes@[n]).alive implies {
            let r = self.nodes@[n];
            &&& (r.group as int) < self.groups@.len()
            &&& self.groups@[r.group as int].alive
            &&& (r.index as int) < self.groups@[r.group as int].members@.len()
            &&& self.groups@[r.group as int].members@[r.index as int] == n
        } by {
            if pre.nodes@[n].alive && pre.nodes@[n].group == gb {
            } else {
                assert(self.nodes@[n] == pre.nodes@[n]);
                let r = pre.nodes@[n];
                assert(r.alive);
                assert(pre.groups@[r.group as int].members@[r.index as int] == n);
                if r.group == ga {
                    assert(mem1[r.index as int] == pre_ga[r.index as int]);
                } else {
                    assert(r.group != gb);
                    assert(self.groups@[r.group as int] == pre.groups@[r.group as int]);
                }
            }
        }

        // members_ok
        assert forall|g: int, k: int|
            #![trigger self.groups@[g].members@[k]]
            0 <= g < self.groups@.len() && 0 <= k < self.groups@[g].members@.len() implies {
            let m = self.groups@[g].members@[k];
            &&& (m as int) < self.nodes@.len()
            &&& (self.nodes@[m as int].alive ==> self.nodes@[m as int].group == g
                && self.nodes@[m as int].index == k)
        } by {
            let m = self.groups@[g].members@[k];
            if g == ga as int {
                if k < n0 {
                    assert(m == pre_ga[k]);
                    assert(pre.groups@[ga as int].members@[k] == m);
                    if self.nodes@[m as int].alive {
                        assert(!pre_gb.contains(m));
                        assert(self.nodes@[m as int] == pre.nodes@[m as int]);
                    }
                } else {
                    assert(m == tail[k - n0]);
                    assert(self.nodes@[m as int] == (Record {
                        alive: true,
                        group: ga,
                        index: k as usize,
                    }));
                }
            } else if g == gb as int {
            } else {
                assert(self.groups@[g] == pre.groups@[g]);
                assert(pre.groups@[g].members@[k] == m);
                if self.nodes@[m as int].alive {
                    if pre.nodes@[m as int].alive && pre.nodes@[m as int].group == gb {
                        assert(pre_gb.contains(m));
                        pre.lemma_member_in_one_group(gb, g as usize, m);
                        assert(false);
                    }
                    assert(self.nodes@[m as int] == pre.nodes@[m as int]);
                }
            }
        }

        // members_unique: each occurrence in the new state maps to one in
        // the old state, and those were unique
        assert forall|g1: int, k1: int, g2: int, k2: int|
            #![trigger self.groups@[g1].members@[k1], self.groups@[g2].members@[k2]]
            0 <= g1 < self.groups@.len() && 0 <= k1 < self.groups@[g1].members@.len() && 0 <= g2
                < self.groups@.len() && 0 <= k2 < self.groups@[g2].members@.len()
                && self.groups@[g1].members@[k1] == self.groups@[g2].members@[k2] implies g1 == g2
            && k1 == k2 by {
            let x = self.groups@[g1].members@[k1];
            let h1: (int, int) = if g1 == ga as int {
                if k1 < n0 {
                    (ga as int, k1)
                } else {
                    (gb as int, choose|j: int| 0 <= j < pre_gb.len() && pre_gb[j] == tail[k1 - n0])
                }
            } else {
                (g1, k1)
            };
            let h2: (int, int) = if g2 == ga as int {
                if k2 < n0 {
                    (ga as int, k2)
                } else {
                    (gb as int, choose|j: int| 0 <= j < pre_gb.len() && pre_gb[j] == tail[k2 - n0])
                }
            } else {
                (g2, k2)
            };
            if g1 == ga as int && k1 >= n0 {
                assert(x == tail[k1 - n0]);
                assert(pre_gb.contains(tail[k1 - n0]));
            }
            if g2 == ga as int && k2 >= n0 {
                assert(self.groups@[g2].members@[k2] == tail[k2 - n0]);
                assert(pre_gb.contains(tail[k2 - n0]));
            }
            assert(pre.groups@[h1.0].members@[h1.1] == x);
            assert(pre.groups@[h2.0].members@[h2.1] == x);
            assert(h1.0 == h2.0 && h1.1 == h2.1);
            if g1 == ga as int && k1 >= n0 && g2 == ga as int && k2 >= n0 {
                assert(tail[k1 - n0] == pre_gb[h1.1] && tail[k2 - n0] == pre_gb[h2.1]);
                assert(tail[k1 - n0] == tail[k2 - n0]);
                assert(k1 == k2);
            }
        }

        // dead groups stay empty
        assert forall|g: int|
            0 <= g < self.groups@.len() && !(#[trigger] self.groups@[g]).alive implies self.groups@[
            g].members@.len() == 0 && self.groups@[g].edges@.len() == 0 by {
            if g != ga as int && g != gb as int {
                assert(self.groups@[g] == pre.groups@[g]);
            }
        }

        // a and b are in no member list but ga's and gb's
        assert(!pre_gb.contains(a)) by {
            if pre_gb.contains(a) {
                let k = choose|k: int| 0 <= k < pre_gb.len() && pre_gb[k] == a;
                assert(pre.groups@[gb as int].members@[k] == a);
                assert(false);
            }
        }
        assert(!pre_ga.contains(b)) by {
            if pre_ga.contains(b) {
                let k = choose|k: int| 0 <= k < pre_ga.len() && pre_ga[k] == b;
                assert(pre.groups@[ga as int].members@[k] == b);
                assert(false);
            }
        }

        // links_ok: every link of the merged list joins two listed members
        let la = pre_lga.len() as int;
        assert forall|g: int, i: int|
            #![trigger self.groups@[g].edges@[i]]
            0 <= g < self.groups@.len() && 0 <= i < self.groups@[g].edges@.len() implies {
            let e = self.groups@[g].edges@[i];
            &&& self.groups@[g].members@.contains(e.0)
            &&& self.groups@[g].members@.contains(e.1)
            &&& e.0 != e.1
        } by {
            let e = self.groups@[g].edges@[i];
            if g == ga as int {
                if i < la {
                    assert(e == pre_lga[i]);
                    assert(pre.groups@[ga as int].edges@[i] == e);
                    let j0 = choose|j: int| 0 <= j < pre_ga.len() && pre_ga[j] == e.0;
                    assert(mem1[j0] == e.0);
                    let j1 = choose|j: int| 0 <= j < pre_ga.len() && pre_ga[j] == e.1;
                    assert(mem1[j1] == e.1);
                } else if i < la + mid.len() {
                    assert(e == mid[i - la]);
                    let j0 = choose|j: int| 0 <= j < pre_gb.len() && pre_gb[j] == e.0;
                    pre_gb.lemma_filter_contains(live_m, j0);
                    let t0 = choose|t: int| 0 <= t < tail.len() && tail[t] == e.0;
                    assert(mem1[n0 + t0] == e.0);
                    let j1 = choose|j: int| 0 <= j < pre_gb.len() && pre_gb[j] == e.1;
                    pre_gb.lemma_filter_contains(live_m, j1);
                    let t1 = choose|t: int| 0 <= t < tail.len() && tail[t] == e.1;
                    assert(mem1[n0 + t1] == e.1);
                } else {
                    assert(e == (a, b));
                    assert(mem1.contains(a) && mem1.contains(b));
                }
            } else if g == gb as int {
            } else {
                assert(self.groups@[g] == pre.groups@[g]);
                assert(pre.groups@[g].edges@[i] == e);
            }
        }

        // links_unique: the three stretches of the merged link list do not
        // repeat a pair, in either orientation
        assert forall|g: int, i: int, j: int|
            #![trigger self.groups@[g].edges@[i], self.groups@[g].edges@[j]]
            0 <= g < self.groups@.len() && 0 <= i < self.groups@[g].edges@.len() && 0 <= j
                < self.groups@[g].edges@.len() && i != j implies {
            let e1 = self.groups@[g].edges@[i];
            let e2 = self.groups@[g].edges@[j];
            e1 != e2 && e1 != (e2.1, e2.0)
        } by {
            let e1 = self.groups@[g].edges@[i];
            let e2 = self.groups@[g].edges@[j];
            if g == ga as int {
                Self::lemma_merged_link_stretches(
                    pre, a, b, ga, gb, lnk1, mem1, e1, e2, i, j, la, mid.len() as int,
                );
            } else if g == gb as int {
            } else {
                assert(self.groups@[g] == pre.groups@[g]);
                assert(pre.groups@[g].edges@[i] == e1);
                assert(pre.groups@[g].edges@[j] == e2);
            }
        }

        assert(self.wf());
        assert(lnk1[lnk1.len() - 1] == (a, b));
        assert(links(lnk1, a, b));
    }

    /// After a link removal split the group into several components, each
    /// rebuilt as a fresh group, the engine is well formed and membership
    /// follows connectivity under the residual links.
    #[verifier::rlimit(100)]
    proof fn lemma_split_restores_wf(
        self,
        pre: Engine,
        a: usize,
        b: usize,
        g: usize,
        cs: Seq<Vec<usize>>,
        resid: Seq<Link>,
    )
        requires
            pre.wf(),
            pre.is_live(a),
            pre.is_live(b),
            a != b,
            g == pre.group_of(a),
            g == pre.group_of(b),
            cs.len() >= 2,
            exists|pos: int|
                0 <= pos < pre.link_list(g).len() && (#[trigger] pre.link_list(g)[pos] == (a, b)
                    || pre.link_list(g)[pos] == (b, a)) && resid == pre.link_list(g).remove(pos),
            forall|c: int, k: int|
                0 <= c < cs.len() && 0 <= k < cs[c]@.len() ==> pre.member_ids(g).contains(
                    #[trigger] cs[c]@[k],
                ),
            forall|v: usize|
                pre.member_ids(g).contains(v) ==> exists|c: int, k: int|
                    0 <= c < cs.len() && 0 <= k < cs[c]@.len() && cs[c]@[k] == v,
            forall|c1: int, k1: int, c2: int, k2: int|
                0 <= c1 < cs.len() && 0 <= k1 < cs[c1]@.len() && 0 <= c2 < cs.len() && 0 <= k2
                    < cs[c2]@.len() && #[trigger] cs[c1]@[k1] == #[trigger] cs[c2]@[k2] ==> c1 == c2
                    && k1 == k2,
            forall|c: int, k1: int, k2: int|
                0 <= c < cs.len() && 0 <= k1 < cs[c]@.len() && 0 <= k2 < cs[c]@.len() ==> connected(
                    resid,
                    #[trigger] cs[c]@[k1],
                    #[trigger] cs[c]@[k2],
                ),
            forall|c1: int, k1: int, c2: int, k2: int|
                0 <= c1 < cs.len() && 0 <= k1 < cs[c1]@.len() && 0 <= c2 < cs.len() && 0 <= k2
                    < cs[c2]@.len() && c1 != c2 ==> !connected(
                    resid,
                    #[trigger] cs[c1]@[k1],
                    #[trigger] cs[c2]@[k2],
                ),
            self.nodes@.len() == pre.nodes@.len(),
            self.groups@.len() == pre.groups@.len() + cs.len(),
            !self.groups@[g as int].alive,
            self.groups@[g as int].members@.len() == 0,
            self.groups@[g as int].edges@.len() == 0,
            forall|gg: int|
                0 <= gg < pre.groups@.len() && gg != g as int ==> self.groups@[gg]
                    == pre.groups@[gg],
            forall|d: int|
                #![trigger self.groups@[pre.groups@.len() + d]]
                0 <= d < cs.len() ==> {
                    let live_d = cs[d]@.filter(pre.live_pred());
                    &&& self.groups@[pre.groups@.len() + d].alive
                    &&& self.groups@[pre.groups@.len() + d].members@ == live_d
                    &&& self.groups@[pre.groups@.len() + d].edges@ == resid.filter(
                        |e: Link| live_d.contains(e.0) && live_d.contains(e.1),
                    )
                },
            forall|d: int, k: int|
                #![trigger cs[d]@.filter(pre.live_pred())[k]]
                0 <= d < cs.len() && 0 <= k < cs[d]@.filter(pre.live_pred()).len()
                    ==> self.nodes@[cs[d]@.filter(pre.live_pred())[k] as int] == (Record {
                    alive: true,
                    group: (pre.groups@.len() + d) as usize,
                    index: k as usize,
                }),
            forall|n: int|
                0 <= n < self.nodes@.len() && (forall|d: int, k: int|
                    0 <= d < cs.len() && 0 <= k < cs[d]@.filter(pre.live_pred()).len() ==> cs[
                    d]@.filter(pre.live_pred())[k] as int != n) ==> self.nodes@[n] == pre.nodes@[n],
        ensures
            self.wf(),
            self.is_live(a),
            self.is_live(b),
            forall|n: int|
                0 <= n < pre.nodes@.len() && !(pre.nodes@[n].alive && pre.nodes@[n].group == g)
                    ==> self.nodes@[n] == pre.nodes@[n],
            forall|n: int|
                0 <= n < pre.nodes@.len() && pre.nodes@[n].alive && pre.nodes@[n].group == g ==> (
                #[trigger] self.nodes@[n]).alive && (self.nodes@[n].group as int)
                    >= pre.groups@.len(),
    {
        let es0 = pre.link_list(g);
        let mem0 = pre.member_ids(g);
        let live_m = pre.live_pred();
        let g0 = pre.groups@.len() as int;
        let cn = cs.len() as int;
        assert(self.groups@.len() <= usize::MAX) by {
            assert(vstd::std_specs::vec::spec_vec_len(&self.groups) == self.groups@.len());
        }
        assert(self.nodes@.len() <= usize::MAX) by {
            assert(vstd::std_specs::vec::spec_vec_len(&self.nodes) == self.nodes@.len());
        }
        assert forall|d: int| 0 <= d < cn implies #[trigger] cs[d]@.len() <= usize::MAX by {
            assert(vstd::std_specs::vec::spec_vec_len(&cs[d]) == cs[d]@.len());
        }
        let pos = choose|pos: int|
            0 <= pos < es0.len() && (#[trigger] es0[pos] == (a, b) || es0[pos] == (b, a)) && resid
                == es0.remove(pos);

        // the residual links all come from the old list: they join distinct
        // listed members, and no pair repeats in either orientation
        assert forall|i: int|
            0 <= i < resid.len() implies mem0.contains(#[trigger] resid[i].0) && mem0.contains(
            resid[i].1,
        ) && resid[i].0 != resid[i].1 by {
            let j: int = if i < pos {
                i
            } else {
                i + 1
            };
            assert(pre.groups@[g as int].edges@[j] == es0[j]);
            assert(resid[i] == es0[j]);
        }
        assert forall|i1: int, i2: int|
            0 <= i1 < resid.len() && 0 <= i2 < resid.len() && i1 != i2 implies resid[i1]
            != resid[i2] && resid[i1] != (resid[i2].1, resid[i2].0) by {
            let j1: int = if i1 < pos {
                i1
            } else {
                i1 + 1
            };
            let j2: int = if i2 < pos {
                i2
            } else {
                i2 + 1
            };
            assert(pre.groups@[g as int].edges@[j1] == es0[j1]);
            assert(pre.groups@[g as int].edges@[j2] == es0[j2]);
        }

        // component ids are distinct members; their live parts keep both
        assert forall|d: int| 0 <= d < cn implies (#[trigger] cs[d]@.filter(live_m)).no_duplicates()
            && (forall|k: int|
            0 <= k < cs[d]@.filter(live_m).len() ==> cs[d]@.contains(
                #[trigger] cs[d]@.filter(live_m)[k],
            ) && live_m(cs[d]@.filter(live_m)[k])) by {
            assert forall|i: int, j: int| 0 <= i < j < cs[d]@.len() implies cs[d]@[i]
                != cs[d]@[j] by {}
            assert(cs[d]@.no_duplicates());
            crate::connectivity::lemma_filter_no_dup(cs[d]@, live_m);
            crate::connectivity::lemma_filter_is_subset(cs[d]@, live_m);
            assert forall|k: int| 0 <= k < cs[d]@.filter(live_m).len() implies cs[d]@.contains(
                #[trigger] cs[d]@.filter(live_m)[k],
            ) && live_m(cs[d]@.filter(live_m)[k]) by {
                cs[d]@.lemma_filter_pred(live_m, k);
            }
        }

        // every node that was live in the split group now stands in exactly
        // the component that holds it
        assert forall|n: int|
            0 <= n < pre.nodes@.len() && pre.nodes@[n].alive && pre.nodes@[n].group == g implies {
            let r = self.nodes@[n];
            &&& r.alive
            &&& g0 <= r.group < self.groups@.len()
            &&& (r.index as int) < self.groups@[r.group as int].members@.len()
            &&& self.groups@[r.group as int].members@[r.index as int] == n
            &&& cs[r.group - g0]@.contains(n as usize)
        } by {
            let rp = pre.nodes@[n];
            assert(pre.groups@[g as int].members@[rp.index as int] == n);
            assert(mem0.contains(n as usize));
            let (d, k) = choose|d: int, k: int|
                0 <= d < cs.len() && 0 <= k < cs[d]@.len() && cs[d]@[k] == n as usize;
            cs[d]@.lemma_filter_contains(live_m, k);
            let t = choose|t: int|
                0 <= t < cs[d]@.filter(live_m).len() && cs[d]@.filter(live_m)[t] == n as usize;
            assert(self.nodes@[cs[d]@.filter(live_m)[t] as int] == (Record {
                alive: true,
                group: (g0 + d) as usize,
                index: t as usize,
            }));
            assert(self.groups@[g0 + d].members@[t] == n as usize);
            assert(self.nodes@[n].group == (g0 + d) as usize);
            assert(self.nodes@[n].group - g0 == d);
            assert(cs[d]@[k] == n as usize);
            assert(cs[d]@.contains(n as usize));
        }

        // nodes that were not live members of the split group kept their
        // records
        assert forall|n: int|
            0 <= n < pre.nodes@.len() && !(pre.nodes@[n].alive && pre.nodes@[n].group
                == g) implies self.nodes@[n] == pre.nodes@[n] by {
            assert forall|d: int, k: int|
                0 <= d < cs.len() && 0 <= k < cs[d]@.filter(live_m).len() implies cs[d]@.filter(
                live_m,
            )[k] as int != n by {
                let m = cs[d]@.filter(live_m)[k];
                if m as int == n {
                    assert(cs[d]@.contains(m));
                    let kk = choose|kk: int| 0 <= kk < cs[d]@.len() && cs[d]@[kk] == m;
                    assert(mem0.contains(m));
                    let q = choose|q: int| 0 <= q < mem0.len() && mem0[q] == m;
                    assert(pre.groups@[g as int].members@[q] == m);
                    assert(pre.nodes@[m as int].alive && pre.nodes@[m as int].group == g);
                    assert(false);
                }
            }
        }

        // records_ok
        assert forall|n: int|
            0 <= n < self.nodes@.len() && (#[trigger] self.nodes@[n]).alive implies {
            let r = self.nodes@[n];
            &&& (r.group as int) < self.groups@.len()
            &&& self.groups@[r.group as int].alive
            &&& (r.index as int) < self.groups@[r.group as int].members@.len()
            &&& self.groups@[r.group as int].members@[r.index as int] == n
        } by {
            if pre.nodes@[n].alive && pre.nodes@[n].group == g {
                assert(self.groups@[self.nodes@[n].group as int].alive);
            } else {
                assert(self.nodes@[n] == pre.nodes@[n]);
                let r = pre.nodes@[n];
                assert(pre.groups@[r.group as int].members@[r.index as int] == n);
                assert(r.group != g);
                assert(self.groups@[r.group as int] == pre.groups@[r.group as int]);
            }
        }

        // members_ok
        assert forall|gg: int, k: int|
            #![trigger self.groups@[gg].members@[k]]
            0 <= gg < self.groups@.len() && 0 <= k < self.groups@[gg].members@.len() implies {
            let m = self.groups@[gg].members@[k];
            &&& (m as int) < self.nodes@.len()
            &&& (self.nodes@[m as int].alive ==> self.nodes@[m as int].group == gg
                && self.nodes@[m as int].index == k)
        } by {
            let m = self.groups@[gg].members@[k];
            if gg >= g0 {
                let d = gg - g0;
                assert(m == cs[d]@.filter(live_m)[k]);
                assert(cs[d]@.contains(m));
                let kk = choose|kk: int| 0 <= kk < cs[d]@.len() && cs[d]@[kk] == m;
                assert(mem0.contains(m));
                let q = choose|q: int| 0 <= q < mem0.len() && mem0[q] == m;
                assert(pre.groups@[g as int].members@[q] == m);
                assert(self.nodes@[m as int] == (Record {
                    alive: true,
                    group: (g0 + d) as usize,
                    index: k as usize,
                }));
            } else {
                assert(gg != g as int);
                assert(self.groups@[gg] == pre.groups@[gg]);
                assert(pre.groups@[gg].members@[k] == m);
                if self.nodes@[m as int].alive {
                    if pre.nodes@[m as int].alive && pre.nodes@[m as int].group == g {
                        assert(mem0.contains(m));
                        pre.lemma_member_in_one_group(g, gg as usize, m);
                        assert(false);
                    }
                    assert(self.nodes@[m as int] == pre.nodes@[m as int]);
                }
            }
        }

        // members_unique
        assert forall|g1: int, k1: int, g2: int, k2: int|
            #![trigger self.groups@[g1].members@[k1], self.groups@[g2].members@[k2]]
            0 <= g1 < self.groups@.len() && 0 <= k1 < self.groups@[g1].members@.len() && 0 <= g2
                < self.groups@.len() && 0 <= k2 < self.groups@[g2].members@.len()
                && self.groups@[g1].members@[k1] == self.groups@[g2].members@[k2] implies g1 == g2
            && k1 == k2 by {
            let x = self.groups@[g1].members@[k1];
            if g1 < g0 && g2 < g0 {
                assert(g1 != g as int && g2 != g as int);
                assert(self.groups@[g1] == pre.groups@[g1]);
                assert(self.groups@[g2] == pre.groups@[g2]);
                assert(pre.groups@[g1].members@[k1] == x);
                assert(pre.groups@[g2].members@[k2] == x);
            } else if g1 >= g0 && g2 >= g0 {
                let d1 = g1 - g0;
                let d2 = g2 - g0;
                assert(x == cs[d1]@.filter(live_m)[k1]);
                assert(x == cs[d2]@.filter(live_m)[k2]);
                assert(cs[d1]@.contains(x) && cs[d2]@.contains(x));
                let q1 = choose|q: int| 0 <= q < cs[d1]@.len() && cs[d1]@[q] == x;
                let q2 = choose|q: int| 0 <= q < cs[d2]@.len() && cs[d2]@[q] == x;
                assert(cs[d1]@[q1] == cs[d2]@[q2]);
                assert(d1 == d2);
            } else {
                let ds = if g1 >= g0 {
                    g1 - g0
                } else {
                    g2 - g0
                };
                let ks = if g1 >= g0 {
                    k1
                } else {
                    k2
                };
                let go = if g1 >= g0 {
                    g2
                } else {
                    g1
                };
                let ko = if g1 >= g0 {
                    k2
                } else {
                    k1
                };
                assert(self.groups@[g0 + ds].members@ == cs[ds]@.filter(live_m));
                assert(x == cs[ds]@.filter(live_m)[ks]);
                crate::connectivity::lemma_filter_is_subset(cs[ds]@, live_m);
                assert(cs[ds]@.contains(x));
                let kk = choose|kk: int| 0 <= kk < cs[ds]@.len() && cs[ds]@[kk] == x;
                assert(mem0.contains(cs[ds]@[kk]));
                assert(go != g as int);
                assert(self.groups@[go] == pre.groups@[go]);
                assert(pre.groups@[go].members@[ko] == x);
                pre.lemma_member_in_one_group(g, go as usize, x);
                assert(false);
            }
        }

        // dead groups are empty
        assert forall|gg: int|
            0 <= gg < self.groups@.len() && !(#[trigger] self.groups@[gg]).alive implies self.groups@[
            gg].members@.len() == 0 && self.groups@[gg].edges@.len() == 0 by {
            if gg < g0 && gg != g as int {
                assert(self.groups@[gg] == pre.groups@[gg]);
            }
            if gg >= g0 {
                let d = gg - g0;
                assert(self.groups@[g0 + d].alive);
            }
        }

        // links_ok and links_unique
        assert forall|gg: int, i: int|
            #![trigger self.groups@[gg].edges@[i]]
            0 <= gg < self.groups@.len() && 0 <= i < self.groups@[gg].edges@.len() implies {
            let e = self.groups@[gg].edges@[i];
            &&& self.groups@[gg].members@.contains(e.0)
            &&& self.groups@[gg].members@.contains(e.1)
            &&& e.0 != e.1
        } by {
            let e = self.groups@[gg].edges@[i];
            if gg >= g0 {
                let d = gg - g0;
                let live_d = cs[d]@.filter(live_m);
                let in_d = |e: Link| live_d.contains(e.0) && live_d.contains(e.1);
                assert(self.groups@[g0 + d].edges@ == resid.filter(in_d));
                assert(e == resid.filter(in_d)[i]);
                crate::connectivity::lemma_filter_is_subset(resid, in_d);
                resid.lemma_filter_pred(in_d, i);
                assert(resid.contains(e));
                let j = choose|j: int| 0 <= j < resid.len() && resid[j] == e;
                assert(e.0 != e.1);
                assert(in_d(e));
            } else {
                assert(gg != g as int);
                assert(self.groups@[gg] == pre.groups@[gg]);
                assert(pre.groups@[gg].edges@[i] == e);
            }
        }
        assert forall|gg: int, i: int, j: int|
            #![trigger self.groups@[gg].edges@[i], self.groups@[gg].edges@[j]]
            0 <= gg < self.groups@.len() && 0 <= i < self.groups@[gg].edges@.len() && 0 <= j
                < self.groups@[gg].edges@.len() && i != j implies {
            let e1 = self.groups@[gg].edges@[i];
            let e2 = self.groups@[gg].edges@[j];
            e1 != e2 && e1 != (e2.1, e2.0)
        } by {
            let e1 = self.groups@[gg].edges@[i];
            let e2 = self.groups@[gg].edges@[j];
            if gg >= g0 {
                let d = gg - g0;
                let live_d = cs[d]@.filter(live_m);
                let in_d = |e: Link| live_d.contains(e.0) && live_d.contains(e.1);
                assert(self.groups@[g0 + d].edges@ == resid.filter(in_d));
                assert(e1 == resid.filter(in_d)[i] && e2 == resid.filter(in_d)[j]);
                assert forall|p: int, q: int|
                    0 <= p < resid.len() && 0 <= q < resid.len() && p != q implies resid[p]
                    != resid[q] by {}
                assert(resid.no_duplicates());
                crate::connectivity::lemma_filter_no_dup(resid, in_d);
                crate::connectivity::lemma_filter_is_subset(resid, in_d);
                assert(e1 != e2);
                assert(resid.contains(e1) && resid.contains(e2));
                let p = choose|p: int| 0 <= p < resid.len() && resid[p] == e1;
                let q = choose|q: int| 0 <= q < resid.len() && resid[q] == e2;
                assert(p != q);
            } else {
                assert(gg != g as int);
                assert(self.groups@[gg] == pre.groups@[gg]);
                assert(pre.groups@[gg].edges@[i] == e1);
                assert(pre.groups@[gg].edges@[j] == e2);
            }
        }

        assert(self.wf());
    }

    /// After a split, membership and direct links among the nodes that were
    /// live in the dissolved group follow connectivity under the residual
    /// links, and every member slot of a fresh group holds a live node.
    #[verifier::rlimit(100)]
    proof fn lemma_split_membership(
        self,
        pre: Engine,
        a: usize,
        b: usize,
        g: usize,
        cs: Seq<Vec<usize>>,
        resid: Seq<Link>,
    )
        requires
            self.wf(),
            pre.wf(),
            pre.is_live(a),
            pre.is_live(b),
            a != b,
            g == pre.group_of(a),
            g == pre.group_of(b),
            forall|c: int, k: int|
                0 <= c < cs.len() && 0 <= k < cs[c]@.len() ==> pre.member_ids(g).contains(
                    #[trigger] cs[c]@[k],
                ),
            forall|v: usize|
                pre.member_ids(g).contains(v) ==> exists|c: int, k: int|
                    0 <= c < cs.len() && 0 <= k < cs[c]@.len() && cs[c]@[k] == v,
            forall|c1: int, k1: int, c2: int, k2: int|
                0 <= c1 < cs.len() && 0 <= k1 < cs[c1]@.len() && 0 <= c2 < cs.len() && 0 <= k2
                    < cs[c2]@.len() && #[trigger] cs[c1]@[k1] == #[trigger] cs[c2]@[k2] ==> c1 == c2
                    && k1 == k2,
            forall|c: int, k1: int, k2: int|
                0 <= c < cs.len() && 0 <= k1 < cs[c]@.len() && 0 <= k2 < cs[c]@.len() ==> connected(
                    resid,
                    #[trigger] cs[c]@[k1],
                    #[trigger] cs[c]@[k2],
                ),
            forall|c1: int, k1: int, c2: int, k2: int|
                0 <= c1 < cs.len() && 0 <= k1 < cs[c1]@.len() && 0 <= c2 < cs.len() && 0 <= k2
                    < cs[c2]@.len() && c1 != c2 ==> !connected(
                    resid,
                    #[trigger] cs[c1]@[k1],
                    #[trigger] cs[c2]@[k2],
                ),
            self.nodes@.len() == pre.nodes@.len(),
            self.groups@.len() == pre.groups@.len() + cs.len(),
            forall|d: int|
                #![trigger self.groups@[pre.groups@.len() + d]]
                0 <= d < cs.len() ==> {
                    let live_d = cs[d]@.filter(pre.live_pred());
                    &&& self.groups@[pre.groups@.len() + d].alive
                    &&& self.groups@[pre.groups@.len() + d].members@ == live_d
                    &&& self.groups@[pre.groups@.len() + d].edges@ == resid.filter(
                        |e: Link| live_d.contains(e.0) && live_d.contains(e.1),
                    )
                },
            forall|d: int, k: int|
                #![trigger cs[d]@.filter(pre.live_pred())[k]]
                0 <= d < cs.len() && 0 <= k < cs[d]@.filter(pre.live_pred()).len()
                    ==> self.nodes@[cs[d]@.filter(pre.live_pred())[k] as int] == (Record {
                    alive: true,
                    group: (pre.groups@.len() + d) as usize,
                    index: k as usize,
                }),
        ensures
            forall|x: usize, y: usize|
                #![trigger connected(resid, x, y)]
                pre.is_live(x) && pre.is_live(y) && pre.group_of(x) == g && pre.group_of(y) == g
                    ==> (self.same_group(x, y) <==> connected(resid, x, y)),
            forall|x: usize, y: usize|
                #![trigger links(resid, x, y)]
                pre.is_live(x) && pre.is_live(y) && pre.group_of(x) == g && pre.group_of(y) == g
                    ==> (self.has_link(x, y) <==> links(resid, x, y)),
            forall|gg: int, k: int|
                #![trigger self.groups@[gg].members@[k]]
                pre.groups@.len() <= gg < self.groups@.len() && 0 <= k
                    < self.groups@[gg].members@.len() ==> self.nodes@[self.groups@[gg].members@[
                    k] as int].alive,
    {
        let live_m = pre.live_pred();
        let g0 = pre.groups@.len() as int;
        let cn = cs.len() as int;
        assert(self.groups@.len() <= usize::MAX) by {
            assert(vstd::std_specs::vec::spec_vec_len(&self.groups) == self.groups@.len());
        }
        assert(self.nodes@.len() <= usize::MAX) by {
            assert(vstd::std_specs::vec::spec_vec_len(&self.nodes) == self.nodes@.len());
        }
        assert forall|d: int| 0 <= d < cn implies #[trigger] cs[d]@.len() <= usize::MAX by {
            assert(vstd::std_specs::vec::spec_vec_len(&cs[d]) == cs[d]@.len());
        }

        // where each node that was live in the dissolved group now stands
        assert forall|n: int|
            0 <= n < pre.nodes@.len() && pre.nodes@[n].alive && pre.nodes@[n].group == g implies {
            let r = self.nodes@[n];
            &&& r.alive
            &&& g0 <= r.group < self.groups@.len()
            &&& cs[r.group - g0]@.contains(n as usize)
        } by {
            let rp = pre.nodes@[n];
            assert(pre.groups@[g as int].members@[rp.index as int] == n);
            assert(pre.member_ids(g).contains(n as usize));
            let (d, k) = choose|d: int, k: int|
                0 <= d < cs.len() && 0 <= k < cs[d]@.len() && cs[d]@[k] == n as usize;
            cs[d]@.lemma_filter_contains(live_m, k);
            let t = choose|t: int|
                0 <= t < cs[d]@.filter(live_m).len() && cs[d]@.filter(live_m)[t] == n as usize;
            assert(self.nodes@[cs[d]@.filter(live_m)[t] as int] == (Record {
                alive: true,
                group: (g0 + d) as usize,
                index: t as usize,
            }));
            assert(self.nodes@[n].group == (g0 + d) as usize);
            assert(cs[d]@[k] == n as usize);
            assert(cs[d]@.contains(n as usize));
        }

        // every member slot of a fresh group holds a live node
        assert forall|gg: int, k: int|
            g0 <= gg < self.groups@.len() && 0 <= k
                < self.groups@[gg].members@.len() implies self.nodes@[(#[trigger] self.groups@[
            gg].members@[k]) as int].alive by {
            let d = gg - g0;
            assert(self.groups@[g0 + d].members@ == cs[d]@.filter(live_m));
            assert(self.groups@[gg].members@[k] == cs[d]@.filter(live_m)[k]);
            assert(self.nodes@[cs[d]@.filter(live_m)[k] as int] == (Record {
                alive: true,
                group: (g0 + d) as usize,
                index: k as usize,
            }));
        }

        // membership now follows connectivity under the residual links
        assert forall|x: usize, y: usize|
            pre.is_live(x) && pre.is_live(y) && pre.group_of(x) == g && pre.group_of(y)
                == g implies (self.same_group(x, y) <==> connected(resid, x, y)) by {
            let dx = self.nodes@[x as int].group - g0;
            let dy = self.nodes@[y as int].group - g0;
            assert(cs[dx]@.contains(x) && cs[dy]@.contains(y));
            let qx = choose|q: int| 0 <= q < cs[dx]@.len() && cs[dx]@[q] == x;
            let qy = choose|q: int| 0 <= q < cs[dy]@.len() && cs[dy]@[q] == y;
            if dx == dy {
                assert(connected(resid, cs[dx]@[qx], cs[dy]@[qy]));
            } else {
                assert(!connected(resid, cs[dx]@[qx], cs[dy]@[qy]));
            }
        }

        // and a direct link survives exactly where the residual list keeps
        // it between two live nodes of one component
        assert forall|x: usize, y: usize|
            pre.is_live(x) && pre.is_live(y) && pre.group_of(x) == g && pre.group_of(y)
                == g implies (self.has_link(x, y) <==> links(resid, x, y)) by {
            let dx = self.nodes@[x as int].group - g0;
            let live_d = cs[dx]@.filter(live_m);
            let in_d = |e: Link| live_d.contains(e.0) && live_d.contains(e.1);
            let ces = self.groups@[g0 + dx].edges@;
            assert(ces == resid.filter(in_d));
            crate::connectivity::lemma_filter_is_subset(resid, in_d);
            if self.has_link(x, y) {
                let i = choose|i: int|
                    0 <= i < ces.len() && (ces[i] == (x, y) || ces[i] == (y, x));
                assert(resid.contains(ces[i]));
                let j = choose|j: int| 0 <= j < resid.len() && resid[j] == ces[i];
                assert(links(resid, x, y));
            }
            if links(resid, x, y) {
                let i = choose|i: int|
                    0 <= i < resid.len() && (resid[i] == (x, y) || resid[i] == (y, x));
                crate::connectivity::lemma_adjacent_connected(resid, x, y);
                let dy = self.nodes@[y as int].group - g0;
                assert(cs[dx]@.contains(x) && cs[dy]@.contains(y));
                let qx = choose|q: int| 0 <= q < cs[dx]@.len() && cs[dx]@[q] == x;
                let qy = choose|q: int| 0 <= q < cs[dy]@.len() && cs[dy]@[q] == y;
                if dx != dy {
                    assert(!connected(resid, cs[dx]@[qx], cs[dy]@[qy]));
                    assert(false);
                }
                // x and y are live members of the component, so the link
                // passed the filter
                cs[dx]@.lemma_filter_contains(live_m, qx);
                cs[dy]@.lemma_filter_contains(live_m, qy);
                assert(live_d.contains(x) && live_d.contains(y));
                assert(in_d(resid[i]));
                resid.lemma_filter_contains(in_d, i);
                let t = choose|t: int| 0 <= t < ces.len() && ces[t] == resid[i];
                assert(links(ces, x, y));
            }
        }
    }

    /// Two distinct positions of the merged link list of a `connect` carry
    /// different pairs, in either orientation.
    proof fn lemma_merged_link_stretches(
        pre: Engine,
        a: usize,
        b: usize,
        ga: usize,
        gb: usize,
        lnk1: Seq<Link>,
        mem1: Seq<usize>,
        e1: Link,
        e2: Link,
        i: int,
        j: int,
        la: int,
        lm: int,
    )
        requires
            pre.wf(),
            pre.is_live(a),
            pre.is_live(b),
            a != b,
            ga == pre.group_of(a),
            gb == pre.group_of(b),
            ga != gb,
            la == pre.link_list(ga).len(),
            lm == pre.link_list(gb).filter(pre.live_link_pred()).len(),
            lnk1 == pre.link_list(ga) + pre.link_list(gb).filter(pre.live_link_pred()) + seq![
                (a, b),
            ],
            0 <= i < lnk1.len(),
            0 <= j < lnk1.len(),
            i != j,
            e1 == lnk1[i],
            e2 == lnk1[j],
        ensures
            e1 != e2,
            e1 != (e2.1, e2.0),
    {
        let live_e = pre.live_link_pred();
        let pre_ga = pre.member_ids(ga);
        let pre_gb = pre.member_ids(gb);
        let pre_lga = pre.link_list(ga);
        let pre_lgb = pre.link_list(gb);
        let mid = pre_lgb.filter(live_e);
        crate::connectivity::lemma_filter_is_subset(pre_lgb, live_e);
        assert(lnk1.len() == la + lm + 1);

        // a pre link of one group has both endpoints among that group's
        // members, and the two member lists are disjoint
        assert forall|x: usize| pre_ga.contains(x) implies !pre_gb.contains(x) by {
            pre.lemma_member_in_one_group(ga, gb, x);
        }
        assert(!pre_gb.contains(a)) by {
            if pre_gb.contains(a) {
                let k = choose|k: int| 0 <= k < pre_gb.len() && pre_gb[k] == a;
                assert(pre.groups@[gb as int].members@[k] == a);
                assert(false);
            }
        }
        assert(!pre_ga.contains(b)) by {
            if pre_ga.contains(b) {
                let k = choose|k: int| 0 <= k < pre_ga.len() && pre_ga[k] == b;
                assert(pre.groups@[ga as int].members@[k] == b);
                assert(false);
            }
        }
        assert(pre_ga.contains(a)) by {
            assert(pre.groups@[ga as int].members@[pre.nodes@[a as int].index as int] == a);
        }
        assert(pre_gb.contains(b)) by {
            assert(pre.groups@[gb as int].members@[pre.nodes@[b as int].index as int] == b);
        }
        assert forall|t: int| 0 <= t < la implies pre_ga.contains(#[trigger] lnk1[t].0)
            && pre_ga.contains(lnk1[t].1) && lnk1[t].0 != lnk1[t].1 by {
            assert(pre.groups@[ga as int].edges@[t] == lnk1[t]);
        }
        assert forall|t: int| la <= t < la + lm implies pre_gb.contains(#[trigger] lnk1[t].0)
            && pre_gb.contains(lnk1[t].1) && lnk1[t].0 != lnk1[t].1 by {
            assert(lnk1[t] == mid[t - la]);
            let p = choose|p: int| 0 <= p < pre_lgb.len() && pre_lgb[p] == mid[t - la];
            assert(pre.groups@[gb as int].edges@[p] == lnk1[t]);
        }
        if i < la && j < la {
            assert(pre.groups@[ga as int].edges@[i] == e1);
            assert(pre.groups@[ga as int].edges@[j] == e2);
        } else if la <= i < la + lm && la <= j < la + lm {
            assert(e1 == mid[i - la] && e2 == mid[j - la]);
            assert(pre_lgb.no_duplicates()) by {
                assert forall|p: int, q: int|
                    0 <= p < pre_lgb.len() && 0 <= q < pre_lgb.len() && p != q implies pre_lgb[p]
                    != pre_lgb[q] by {
                    assert(pre.groups@[gb as int].edges@[p] == pre_lgb[p]);
                    assert(pre.groups@[gb as int].edges@[q] == pre_lgb[q]);
                }
            }
            crate::connectivity::lemma_filter_no_dup(pre_lgb, live_e);
            assert(e1 != e2);
            let p = choose|p: int| 0 <= p < pre_lgb.len() && pre_lgb[p] == e1;
            let q = choose|q: int| 0 <= q < pre_lgb.len() && pre_lgb[q] == e2;
            assert(p != q);
            assert(pre.groups@[gb as int].edges@[p] == e1);
            assert(pre.groups@[gb as int].edges@[q] == e2);
        } else if i == la + lm || j == la + lm {
            // one of the two is the fresh link between a and b
            let other: int = if i == la + lm {
                j
            } else {
                i
            };
            if other < la {
                assert(!pre_gb.contains(lnk1[other].0) && !pre_gb.contains(lnk1[other].1));
            } else {
                assert(!pre_ga.contains(lnk1[other].0) && !pre_ga.contains(lnk1[other].1));
            }
        } else {
            // one link of the surviving group against one migrated link:
            // their endpoint pools are disjoint
            let p: int = if i < la {
                i
            } else {
                j
            };
            let q: int = if i < la {
                j
            } else {
                i
            };
            assert(!pre_gb.contains(lnk1[p].0) && !pre_gb.contains(lnk1[p].1));
            assert(pre_gb.contains(lnk1[q].0) && pre_gb.contains(lnk1[q].1));
        }
    }
}

/// Whether a node id stands in a list.
#[verifier::loop_isolation(false)]
fn contains_id(v: &Vec<usize>, x: usize) -> (r: bool)
    ensures
        r == v@.contains(x),
{
    let mut k: usize = 0;
    while k < v.len()
        invariant
            k <= v.len(),
            forall|t: int| 0 <= t < k ==> v@[t] != x,
        decreases v.len() - k,
    {
        if v[k] == x {
            return true;
        }
        k += 1;
    }
    false
}

/// The position of the link joining `a` and `b`, in either orientation, if
/// one is recorded.
#[verifier::loop_isolation(false)]
fn find_link(es: &Vec<Link>, a: usize, b: usize) -> (r: Option<usize>)
    ensures
        match r {
            Some(i) => (i as int) < es@.len() && (es@[i as int] == (a, b) || es@[i as int] == (
                b,
                a,
            )),
            None => !links(es@, a, b),
        },
{
    let mut k: usize = 0;
    while k < es.len()
        invariant
            k <= es.len(),
            forall|t: int| 0 <= t < k ==> es@[t] != (a, b) && es@[t] != (b, a),
        decreases es.len() - k,
    {
        let e = es[k];
        if (e.0 == a && e.1 == b) || (e.0 == b && e.1 == a) {
            return Some(k);
        }
        k += 1;
    }
    None
}

/// A fresh vector with the same node ids.
#[verifier::loop_isolation(false)]
fn copy_ids(v: &Vec<usize>) -> (r: Vec<usize>)
    ensures
        r@ == v@,
{
    let mut r: Vec<usize> = Vec::new();
    let mut k: usize = 0;
    while k < v.len()
        invariant
            k <= v.len(),
            r@ == v@.take(k as int),
        decreases v.len() - k,
    {
        r.push(v[k]);
        proof {
            assert(v@.take(k + 1 as int) =~= v@.take(k as int).push(v@[k as int]));
        }
        k += 1;
    }
    proof {
        assert(v@.take(v@.len() as int) =~= v@);
    }
    r
}

/// A fresh vector with the same links.
#[verifier::loop_isolation(false)]
fn copy_links(v: &Vec<Link>) -> (r: Vec<Link>)
    ensures
        r@ == v@,
{
    let mut r: Vec<Link> = Vec::new();
    let mut k: usize = 0;
    while k < v.len()
        invariant
            k <= v.len(),
            r@ == v@.take(k as int),
        decreases v.len() - k,
    {
        r.push(v[k]);
        proof {
            assert(v@.take(k + 1 as int) =~= v@.take(k as int).push(v@[k as int]));
        }
        k += 1;
    }
    proof {
        assert(v@.take(v@.len() as int) =~= v@);
    }
    r
}

} // verus!
