//! Breadth-first discovery of an unknown graph of locations.
//!
//! Locations are reached by paths of named moves from a start. A probe along a
//! path reports the identity of the location reached, its exits and its items.
//! `Exploration` holds what has been found (an arena of nodes keyed by
//! identity) and says which path to probe next; the caller probes and records
//! the answer. Nodes are expanded in discovery order, which takes the graph
//! level by level, so each node keeps a shortest path among those tried.

use vstd::prelude::*;
use vstd::set_lib::{lemma_int_range, lemma_len_subset, set_int_range};
use crate::synacor_vm::{SynacorVM, VmState};
use crate::text::{
    chars_of, contains_str, copy_strings, extend, has_sub, lines_of, split_lines, string_of, strs,
    suffix_from,
};

verus! {

/// What a probe reports about the location at the end of a path.
pub struct Location {
    pub id: u16,
    pub exits: Vec<String>,
    pub items: Vec<String>,
}

/// A discovered location: its identity, exits and items, the path that
/// reaches it, and the identity behind each of its exits.
pub struct Node {
    pub id: u16,
    pub exits: Vec<String>,
    pub items: Vec<String>,
    pub path: Vec<String>,
    pub targets: Vec<u16>,
}

/// Distinct 16-bit identities number at most 65536.
pub proof fn lemma_ids_bounded(ids: Seq<u16>)
    requires
        ids.no_duplicates(),
    ensures
        ids.len() <= 65536,
{
    let t = ids.map_values(|x: u16| x as int);
    assert(t.no_duplicates()) by {
        assert forall|i: int, j: int| 0 <= i < t.len() && 0 <= j < t.len() && i != j implies t[i]
            != t[j] by {
            assert(ids[i] != ids[j]);
        }
    }
    t.unique_seq_to_set();
    lemma_int_range(0, 65536);
    assert(t.to_set().subset_of(set_int_range(0, 65536)));
    lemma_len_subset(t.to_set(), set_int_range(0, 65536));
}

/// Exits of the nodes from `k` on, counted.
pub open spec fn exits_from(e: Seq<Seq<Seq<char>>>, k: int) -> int
    decreases e.len() - k,
{
    if k < 0 || k >= e.len() {
        0
    } else {
        e[k].len() + exits_from(e, k + 1)
    }
}

proof fn lemma_exits_from_push(e: Seq<Seq<Seq<char>>>, x: Seq<Seq<char>>, k: int)
    requires
        0 <= k <= e.len(),
    ensures
        exits_from(e.push(x), k) == exits_from(e, k) + x.len(),
    decreases e.len() - k,
{
    let f = e.push(x);
    if k < e.len() {
        lemma_exits_from_push(e, x, k + 1);
        assert(f[k] == e[k]);
    } else {
        assert(exits_from(f, k + 1) == 0);
        assert(f[k] == x);
    }
}

proof fn lemma_exits_from_nonneg(e: Seq<Seq<Seq<char>>>, k: int)
    ensures
        exits_from(e, k) >= 0,
    decreases e.len() - k,
{
    if 0 <= k < e.len() {
        lemma_exits_from_nonneg(e, k + 1);
    }
}

/// The state of a breadth-first exploration.
pub struct Exploration {
    ids: Vec<u16>,
    exits: Vec<Vec<String>>,
    items: Vec<Vec<String>>,
    paths: Vec<Vec<String>>,
    /// Exit targets of the fully explored nodes, those before `current`.
    targets: Vec<Vec<u16>>,
    /// Exit targets found so far for node `current`.
    pending: Vec<u16>,
    current: usize,
}

impl Exploration {
    /// The identities of the nodes, in discovery order.
    pub closed spec fn ids(&self) -> Seq<u16> {
        self.ids@
    }

    pub closed spec fn paths(&self) -> Seq<Seq<Seq<char>>> {
        self.paths@.map_values(|p: Vec<String>| strs(p@))
    }

    pub closed spec fn exits(&self) -> Seq<Seq<Seq<char>>> {
        self.exits@.map_values(|p: Vec<String>| strs(p@))
    }

    pub closed spec fn items(&self) -> Seq<Seq<Seq<char>>> {
        self.items@.map_values(|p: Vec<String>| strs(p@))
    }

    /// The node whose exits are being probed; the node count once done.
    pub closed spec fn cursor(&self) -> int {
        self.current as int
    }

    /// For each node, the identities reached through its exits so far.
    pub closed spec fn link_targets(&self) -> Seq<Seq<u16>> {
        Seq::new(
            self.ids@.len(),
            |u: int|
                if u < self.current {
                    self.targets@[u]@
                } else if u == self.current {
                    self.pending@
                } else {
                    Seq::empty()
                },
        )
    }

    pub closed spec fn rep_ok(&self) -> bool {
        &&& self.exits@.len() == self.ids@.len()
        &&& self.items@.len() == self.ids@.len()
        &&& self.paths@.len() == self.ids@.len()
        &&& self.targets@.len() == self.current
        &&& self.current <= self.ids@.len()
        &&& self.current == self.ids@.len() ==> self.pending@.len() == 0
    }

    pub open spec fn done(&self) -> bool {
        self.cursor() == self.ids().len()
    }

    /// The path that the next probe follows: the current node's path and its
    /// first unexplored exit.
    pub open spec fn pending_path(&self) -> Seq<Seq<char>> {
        self.paths()[self.cursor()].push(
            self.exits()[self.cursor()][self.link_targets()[self.cursor()].len() as int],
        )
    }

    /// Exits that remain to be probed.
    pub open spec fn remaining(&self) -> int {
        exits_from(self.exits(), self.cursor()) - if self.done() {
            0
        } else {
            self.link_targets()[self.cursor()].len() as int
        }
    }

    pub open spec fn wf(&self) -> bool {
        let n = self.ids().len();
        let c = self.cursor();
        &&& self.rep_ok()
        &&& self.paths().len() == n && self.exits().len() == n && self.items().len() == n
        &&& self.link_targets().len() == n
        &&& n >= 1 && self.paths()[0].len() == 0
        &&& self.ids().no_duplicates()
        &&& 0 <= c <= n
        // nodes before the cursor are explored, the cursor has an unexplored
        // exit, and nodes after it are untouched
        &&& forall|u: int| 0 <= u < c ==> #[trigger] self.link_targets()[u].len() == self.exits()[u].len()
        &&& c < n ==> self.link_targets()[c].len() < self.exits()[c].len()
        &&& forall|u: int| c < u < n ==> #[trigger] self.link_targets()[u].len() == 0
        // discovery order is breadth first
        &&& forall|i: int, j: int| 0 <= i <= j < n ==> self.paths()[i].len() <= self.paths()[j].len()
        &&& c < n ==> self.paths()[n - 1].len() <= self.paths()[c].len() + 1
        // every exit probed leads to a known node no further from the start
        // than one move past the node it leaves
        &&& forall|u: int, j: int|
            #![trigger self.link_targets()[u][j]]
            0 <= u < n && 0 <= j < self.link_targets()[u].len() ==> exists|k: int|
                0 <= k < n && self.ids()[k] == self.link_targets()[u][j]
                    && self.paths()[k].len() <= self.paths()[u].len() + 1
    }

    /// Which node holds an identity.
    pub open spec fn index_of(&self, id: u16) -> Option<int> {
        if exists|k: int| 0 <= k < self.ids().len() && self.ids()[k] == id {
            Some(choose|k: int| 0 <= k < self.ids().len() && self.ids()[k] == id)
        } else {
            None
        }
    }

    /// Moves the cursor past nodes with nothing left to probe.
    fn settle(&mut self)
        requires
            old(self).rep_ok(),
            old(self).current < old(self).ids@.len() ==> old(self).pending@.len() <= old(self).exits@[old(self).current as int].len(),
        ensures
            final(self).rep_ok(),
            final(self).ids@ == old(self).ids@,
            final(self).paths@ == old(self).paths@,
            final(self).exits@ == old(self).exits@,
            final(self).items@ == old(self).items@,
            final(self).current >= old(self).current,
            final(self).link_targets() == old(self).link_targets(),
            final(self).current < final(self).ids@.len() ==> final(self).pending@.len() < final(self).exits@[final(self).current as int].len(),
            forall|u: int|
                old(self).current <= u < final(self).current ==> #[trigger] old(self).link_targets()[u].len() == old(self).exits()[u].len(),
            final(self).remaining() == old(self).remaining(),
    {
        while self.current < self.ids.len() && self.pending.len() == self.exits[self.current].len()
            invariant
                self.rep_ok(),
                self.ids@ == old(self).ids@,
                self.paths@ == old(self).paths@,
                self.exits@ == old(self).exits@,
                self.items@ == old(self).items@,
                self.current >= old(self).current,
                self.link_targets() == old(self).link_targets(),
                self.current < self.ids@.len() ==> self.pending@.len() <= self.exits@[self.current as int].len(),
                forall|u: int|
                    old(self).current <= u < self.current ==> #[trigger] old(self).link_targets()[u].len()
                        == old(self).exits()[u].len(),
                self.remaining() == old(self).remaining(),
            decreases self.ids@.len() - self.current,
        {
            let ghost before = *self;
            let done_targets = self.pending.clone();
            assert(done_targets@ =~= self.pending@);
            self.pending = Vec::new();
            self.targets.push(done_targets);
            self.current = self.current + 1;
            proof {
                assert(self.targets@[before.current as int]@ == before.pending@);
                assert(self.link_targets() =~= before.link_targets());
                assert(exits_from(self.exits(), before.current as int) == self.exits()[before.current as int].len()
                    + exits_from(self.exits(), self.current as int));
            }
        }
    }

    /// An exploration that has probed the start, reached by the empty path.
    pub fn new(start: Location) -> (r: Exploration)
        ensures
            r.wf(),
            r.ids() == seq![start.id],
            r.paths() == seq![Seq::<Seq<char>>::empty()],
            r.exits() == seq![strs(start.exits@)],
            r.items() == seq![strs(start.items@)],
            r.link_targets() == seq![Seq::<u16>::empty()],
    {
        let mut ids: Vec<u16> = Vec::new();
        ids.push(start.id);
        let mut exits: Vec<Vec<String>> = Vec::new();
        exits.push(start.exits);
        let mut items: Vec<Vec<String>> = Vec::new();
        items.push(start.items);
        let mut paths: Vec<Vec<String>> = Vec::new();
        paths.push(Vec::new());
        let mut r = Exploration {
            ids,
            exits,
            items,
            paths,
            targets: Vec::new(),
            pending: Vec::new(),
            current: 0,
        };
        proof {
            assert(r.paths@[0]@ =~= Seq::<String>::empty());
            assert(strs(r.paths@[0]@) =~= Seq::<Seq<char>>::empty());
            assert(r.paths() =~= seq![Seq::<Seq<char>>::empty()]);
            assert(r.exits() =~= seq![strs(start.exits@)]);
            assert(r.items() =~= seq![strs(start.items@)]);
            assert(r.link_targets() =~= seq![Seq::<u16>::empty()]);
        }
        r.settle();
        proof {
            assert(r.paths@[0]@ =~= Seq::<String>::empty());
            assert(strs(r.paths@[0]@) =~= Seq::<Seq<char>>::empty());
            assert(r.paths() =~= seq![Seq::<Seq<char>>::empty()]);
            assert(r.exits() =~= seq![strs(start.exits@)]);
            assert(r.items() =~= seq![strs(start.items@)]);
        }
        r
    }

    /// Whether every exit of every node found has been probed.
    pub fn is_done(&self) -> (r: bool)
        requires
            self.wf(),
        ensures
            r == self.done(),
    {
        self.current == self.ids.len()
    }

    /// Records what the probe along `pending_path()` reported. A new
    /// identity becomes a node reached by that path; a known one keeps its
    /// node, whose path would be replaced by a shorter one, but in
    /// breadth-first order no later path is shorter, so it keeps its path.
    /// Either way the exit just probed now leads to that identity.
    pub fn record(&mut self, loc: Location)
        requires
            old(self).wf(),
            !old(self).done(),
        ensures
            final(self).wf(),
            old(self).index_of(loc.id) is None ==> {
                &&& final(self).ids() == old(self).ids().push(loc.id)
                &&& final(self).paths() == old(self).paths().push(old(self).pending_path())
                &&& final(self).exits() == old(self).exits().push(strs(loc.exits@))
                &&& final(self).items() == old(self).items().push(strs(loc.items@))
                &&& final(self).link_targets() == old(self).link_targets().update(
                    old(self).cursor(),
                    old(self).link_targets()[old(self).cursor()].push(loc.id),
                ).push(Seq::empty())
            },
            old(self).index_of(loc.id) matches Some(k) ==> {
                &&& final(self).ids() == old(self).ids()
                &&& final(self).paths() == old(self).paths()
                &&& final(self).exits() == old(self).exits()
                &&& final(self).items() == old(self).items()
                &&& final(self).link_targets() == old(self).link_targets().update(
                    old(self).cursor(),
                    old(self).link_targets()[old(self).cursor()].push(loc.id),
                )
            },
            final(self).cursor() >= old(self).cursor(),
            final(self).ids().len() > old(self).ids().len() || final(self).remaining() < old(self).remaining(),
    {
        let ghost old_self = *self;
        let ghost pp = self.pending_path();
        let c = self.current;
        let j = self.pending.len();
        proof {
            assert(self.link_targets()[c as int] == self.pending@);
        }
        let mut path = copy_strings(&self.paths[c]);
        let name = self.exits[c][j].clone();
        path.push(name);
        proof {
            assert(strs(path@) =~= pp);
            let n = self.ids@.len() as int;
            assert(self.paths()[n - 1].len() <= self.paths()[c as int].len() + 1);
            assert forall|k: int| 0 <= k < n implies #[trigger] self.paths()[k].len() <= pp.len() by {
                assert(self.paths()[k].len() <= self.paths()[n - 1].len());
            }
        }
        let mut k: usize = 0;
        let mut found = false;
        while k < self.ids.len()
            invariant
                *self == old_self,
                k <= self.ids@.len(),
                forall|kk: int| 0 <= kk < k ==> self.ids@[kk] != loc.id,
                found ==> k < self.ids@.len() && self.ids@[k as int] == loc.id,
            ensures
                found ==> k < self.ids@.len() && self.ids@[k as int] == loc.id,
                !found ==> forall|kk: int| 0 <= kk < self.ids@.len() ==> self.ids@[kk] != loc.id,
            decreases self.ids@.len() - k,
        {
            if self.ids[k] == loc.id {
                found = true;
                break;
            }
            k = k + 1;
        }
        let ghost mid = *self;
        if found {
            proof {
                let kc = choose|kk: int| 0 <= kk < self.ids().len() && self.ids()[kk] == loc.id;
                assert(self.ids().no_duplicates());
                assert(kc == k);
            }
            if path.len() < self.paths[k].len() {
                self.paths.set(k, path);
            }
            proof {
                assert(self.paths() =~= old_self.paths());
            }
        } else {
            self.ids.push(loc.id);
            self.exits.push(loc.exits);
            self.items.push(loc.items);
            self.paths.push(path);
            proof {
                assert(self.paths() =~= old_self.paths().push(pp));
                assert(self.exits() =~= old_self.exits().push(strs(loc.exits@)));
                assert(self.items() =~= old_self.items().push(strs(loc.items@)));
                assert(self.ids().no_duplicates());
                lemma_exits_from_push(old_self.exits(), strs(loc.exits@), c as int);
            }
        }
        let ghost before_push = *self;
        self.pending.push(loc.id);
        let ghost before_settle = *self;
        proof {
            if found {
                assert(self.link_targets() =~= old_self.link_targets().update(
                    c as int,
                    old_self.link_targets()[c as int].push(loc.id),
                ));
            } else {
                assert(self.link_targets() =~= old_self.link_targets().update(
                    c as int,
                    old_self.link_targets()[c as int].push(loc.id),
                ).push(Seq::empty()));
            }
        }
        self.settle();
        proof {
            let n = self.ids().len();
            let lt = self.link_targets();
            let olt = old_self.link_targets();
            let nk: int = if found { k as int } else { old_self.ids().len() as int };
            assert(self.ids()[nk] == loc.id);
            assert(self.paths()[nk].len() <= self.paths()[c as int].len() + 1);
            assert forall|u: int, jj: int|
                #![trigger lt[u][jj]]
                0 <= u < n && 0 <= jj < lt[u].len() implies exists|kk: int|
                0 <= kk < n && self.ids()[kk] == lt[u][jj] && self.paths()[kk].len()
                    <= self.paths()[u].len() + 1 by {
                if u == c && jj == olt[c as int].len() {
                    assert(lt[u][jj] == loc.id);
                } else {
                    assert(lt[u][jj] == olt[u][jj]);
                    let kk = choose|kk: int|
                        0 <= kk < old_self.ids().len() && old_self.ids()[kk] == olt[u][jj]
                            && old_self.paths()[kk].len() <= old_self.paths()[u].len() + 1;
                    assert(self.ids()[kk] == lt[u][jj]);
                }
            }
            assert forall|i: int, jj: int|
                0 <= i <= jj < n implies self.paths()[i].len() <= self.paths()[jj].len() by {
                if !found && jj == n - 1 {
                    assert(self.paths()[i].len() <= pp.len());
                }
            }
            if self.cursor() < n {
                assert(self.paths()[self.cursor()].len() >= self.paths()[c as int].len());
            }
            assert forall|u: int| 0 <= u < self.cursor() implies #[trigger] lt[u].len() == self.exits()[u].len() by {
                if u >= c {
                    assert(before_settle.link_targets()[u].len() == before_settle.exits()[u].len());
                }
            }
        }
    }

    /// How many distinct locations have been found.
    pub fn len(&self) -> (r: usize)
        ensures
            r == self.ids().len(),
    {
        self.ids.len()
    }

    /// Node `k`, in discovery order.
    pub fn node(&self, k: usize) -> (r: Node)
        requires
            self.wf(),
            k < self.ids().len(),
        ensures
            r.id == self.ids()[k as int],
            strs(r.exits@) == self.exits()[k as int],
            strs(r.items@) == self.items()[k as int],
            strs(r.path@) == self.paths()[k as int],
            r.targets@ == self.link_targets()[k as int],
    {
        let targets: Vec<u16> = if k < self.current {
            self.targets[k].clone()
        } else if k == self.current {
            self.pending.clone()
        } else {
            Vec::new()
        };
        proof {
            assert(targets@ =~= self.link_targets()[k as int]);
        }
        Node {
            id: self.ids[k],
            exits: copy_strings(&self.exits[k]),
            items: copy_strings(&self.items[k]),
            path: copy_strings(&self.paths[k]),
            targets,
        }
    }

    /// The first node found that holds at least one item.
    pub fn first_with_items(&self) -> (r: Option<usize>)
        requires
            self.wf(),
        ensures
            r matches Some(k) ==> k < self.ids().len() && self.items()[k as int].len() > 0
                && forall|kk: int| 0 <= kk < k ==> #[trigger] self.items()[kk].len() == 0,
            r is None ==> forall|kk: int| 0 <= kk < self.ids().len() ==> #[trigger] self.items()[kk].len() == 0,
    {
        let mut k: usize = 0;
        while k < self.items.len()
            invariant
                self.wf(),
                k <= self.items@.len(),
                forall|kk: int| 0 <= kk < k ==> #[trigger] self.items()[kk].len() == 0,
            decreases self.items@.len() - k,
        {
            if self.items[k].len() > 0 {
                return Some(k);
            }
            k = k + 1;
        }
        None
    }

    /// The path to probe next; `None` once the exploration is done.
    pub fn next_path(&self) -> (r: Option<Vec<String>>)
        requires
            self.wf(),
        ensures
            self.done() ==> r is None,
            !self.done() ==> (r matches Some(p) && strs(p@) == self.pending_path()),
    {
        if self.current == self.ids.len() {
            return None;
        }
        let c = self.current;
        let mut p = copy_strings(&self.paths[c]);
        let name = self.exits[c][self.pending.len()].clone();
        p.push(name);
        proof {
            assert(self.link_targets()[c as int] == self.pending@);
            assert(strs(p@) =~= self.pending_path());
        }
        Some(p)
    }
}

/// Whether exit `j` of node `u` leads to a node found, whose path is at most
/// one move longer than that of node `u`.
pub open spec fn exit_resolved(e: Exploration, u: int, j: int) -> bool {
    exists|k: int|
        0 <= k < e.ids().len() && e.ids()[k] == e.link_targets()[u][j] && e.paths()[k].len()
            <= e.paths()[u].len() + 1
}

/// Once an exploration is done, every location found appears exactly once,
/// every exit of every location has been probed and leads to a location
/// found, and each location keeps a path no longer than one move past any
/// location that leads to it, so along every exit the stored path lengths grow
/// by at most one: the shorter of two paths to a location is the one kept.
pub proof fn lemma_exploration_complete(e: Exploration)
    requires
        e.wf(),
        e.done(),
    ensures
        e.ids().no_duplicates(),
        e.paths()[0].len() == 0,
        forall|u: int|
            0 <= u < e.ids().len() ==> #[trigger] e.link_targets()[u].len() == e.exits()[u].len(),
        forall|u: int, j: int|
            0 <= u < e.ids().len() && 0 <= j < e.exits()[u].len() ==> #[trigger] exit_resolved(e, u, j),
{
    assert forall|u: int, j: int|
        0 <= u < e.ids().len() && 0 <= j < e.exits()[u].len() implies #[trigger] exit_resolved(e, u, j) by {
        assert(u < e.cursor());
        assert(e.link_targets()[u].len() == e.exits()[u].len());
        assert(0 <= j < e.link_targets()[u].len());
        let t = e.link_targets()[u][j];
        assert(exists|k: int|
            0 <= k < e.ids().len() && e.ids()[k] == t && e.paths()[k].len() <= e.paths()[u].len() + 1);
    }
}

/// An exploration's measure: the node count is bounded, and what is left to
/// probe is never negative.
pub proof fn lemma_exploration_measure(e: Exploration)
    requires
        e.wf(),
    ensures
        e.ids().len() <= 65536,
        e.remaining() >= 0,
{
    lemma_ids_bounded(e.ids());
    lemma_exits_from_nonneg(e.exits(), e.cursor());
    if !e.done() {
        let c = e.cursor();
        assert(exits_from(e.exits(), c) == e.exits()[c].len() + exits_from(e.exits(), c + 1));
        lemma_exits_from_nonneg(e.exits(), c + 1);
    }
}

/// The memory address where the program keeps the identity of the current
/// location.
pub const NODE_ID_ADDR: u16 = 2733;

/// Where a scan of a location's description stands.
pub struct LookScan {
    pub at_items: bool,
    pub at_exits: bool,
    pub items: Seq<Seq<char>>,
    pub exits: Seq<Seq<char>>,
}

/// One line of a description: a header opens the list of items or of exits;
/// in a list, each line of two or more characters names an entry after a
/// two-character bullet, and a shorter line closes the list.
pub open spec fn scan_line(st: LookScan, line: Seq<char>) -> LookScan {
    if has_sub(line, "Things of interest here:"@) {
        LookScan { at_items: true, ..st }
    } else if has_sub(line, "exits:"@) {
        LookScan { at_exits: true, ..st }
    } else if st.at_items && line.len() < 2 {
        LookScan { at_items: false, ..st }
    } else {
        let st1 = if st.at_items {
            LookScan { items: st.items.push(line.subrange(2, line.len() as int)), ..st }
        } else {
            st
        };
        if st1.at_exits {
            if line.len() < 2 {
                LookScan { at_exits: false, ..st1 }
            } else {
                LookScan { exits: st1.exits.push(line.subrange(2, line.len() as int)), ..st1 }
            }
        } else {
            st1
        }
    }
}

pub open spec fn scan_lines(lines: Seq<Seq<char>>) -> LookScan
    decreases lines.len(),
{
    if lines.len() == 0 {
        LookScan { at_items: false, at_exits: false, items: Seq::empty(), exits: Seq::empty() }
    } else {
        scan_line(scan_lines(lines.drop_last()), lines.last())
    }
}

/// The items and the exits that a description lists.
pub fn parse_look(text: &Vec<char>) -> (r: (Vec<String>, Vec<String>))
    ensures
        strs(r.0@) == scan_lines(split_lines(text@)).items,
        strs(r.1@) == scan_lines(split_lines(text@)).exits,
{
    let lines = lines_of(text);
    let ghost ls = lines@.map_values(|l: Vec<char>| l@);
    let mut items: Vec<String> = Vec::new();
    let mut exits: Vec<String> = Vec::new();
    let mut at_items = false;
    let mut at_exits = false;
    let mut i: usize = 0;
    while i < lines.len()
        invariant
            ls == lines@.map_values(|l: Vec<char>| l@),
            ls == split_lines(text@),
            i <= lines.len(),
            ({
                let st = scan_lines(ls.subrange(0, i as int));
                &&& st.at_items == at_items
                &&& st.at_exits == at_exits
                &&& st.items == strs(items@)
                &&& st.exits == strs(exits@)
            }),
        decreases lines.len() - i,
    {
        let ghost before_items = items@;
        let ghost before_exits = exits@;
        assert(ls.subrange(0, i + 1).drop_last() =~= ls.subrange(0, i as int));
        let line = &lines[i];
        assert(ls.subrange(0, i + 1).last() == line@);
        if contains_str(line, "Things of interest here:") {
            at_items = true;
        } else if contains_str(line, "exits:") {
            at_exits = true;
        } else if at_items && line.len() < 2 {
            at_items = false;
        } else {
            if at_items {
                items.push(string_of(&suffix_from(line, 2)));
                assert(strs(items@) =~= strs(before_items).push(line@.subrange(2, line@.len() as int)));
            }
            if at_exits {
                if line.len() < 2 {
                    at_exits = false;
                } else {
                    exits.push(string_of(&suffix_from(line, 2)));
                    assert(strs(exits@) =~= strs(before_exits).push(line@.subrange(2, line@.len() as int)));
                }
            }
        }
        i = i + 1;
    }
    assert(ls.subrange(0, ls.len() as int) =~= ls);
    (items, exits)
}

/// The command that takes one move.
pub open spec fn go_line(dir: Seq<char>) -> Seq<char> {
    "go "@ + dir
}

/// A machine after taking the moves of a path, one command each.
pub open spec fn replay(s: VmState, path: Seq<Seq<char>>) -> VmState
    decreases path.len(),
{
    if path.len() == 0 {
        s
    } else {
        replay(s, path.drop_last()).feed(go_line(path.last()))
    }
}

/// A machine after taking the moves of a path, clearing its output, and
/// looking around.
pub open spec fn look_state(s: VmState, path: Seq<Seq<char>>) -> VmState {
    VmState { output: Seq::empty(), ..replay(s, path) }.feed("look"@)
}

/// What a probe along a path reports, from a machine `s`.
pub open spec fn probe_id(s: VmState, path: Seq<Seq<char>>) -> u16 {
    look_state(s, path).word(NODE_ID_ADDR as int)
}

pub open spec fn probe_scan(s: VmState, path: Seq<Seq<char>>) -> LookScan {
    scan_lines(split_lines(look_state(s, path).output))
}

/// Probes a path on a copy of the machine: takes its moves, looks around, and
/// reads the location's identity from memory and its exits and items from
/// the description.
pub fn parse_node(vm: &SynacorVM, path: &Vec<String>) -> (r: Location)
    requires
        vm.wf(),
    ensures
        r.id == probe_id(vm@, strs(path@)),
        strs(r.exits@) == probe_scan(vm@, strs(path@)).exits,
        strs(r.items@) == probe_scan(vm@, strs(path@)).items,
{
    let mut c = vm.clone();
    let mut i: usize = 0;
    while i < path.len()
        invariant
            c.wf(),
            i <= path.len(),
            c@ == replay(vm@, strs(path@).subrange(0, i as int)),
        decreases path.len() - i,
    {
        let mut line = chars_of("go ");
        extend(&mut line, &chars_of(path[i].as_str()));
        c.input_line_string(string_of(&line));
        proof {
            let pre = strs(path@).subrange(0, i + 1);
            assert(pre.drop_last() =~= strs(path@).subrange(0, i as int));
        }
        i = i + 1;
    }
    assert(strs(path@).subrange(0, path.len() as int) =~= strs(path@));
    let _ = c.output_line(true);
    c.input_line("look");
    let look = c.output_line(true);
    let id = match c.get_mem(NODE_ID_ADDR) {
        Ok(v) => v,
        Err(_) => 0,
    };
    let (items, exits) = parse_look(&chars_of(look.as_str()));
    Location { id, exits, items }
}

/// Whether an exploration agrees with the machine: each node is what a probe
/// along its path reports, and each exit probed leads to the identity that a
/// probe through it reports.
pub open spec fn agrees(e: Exploration, s: VmState) -> bool {
    &&& forall|k: int|
        0 <= k < e.ids().len() ==> #[trigger] e.ids()[k] == probe_id(s, e.paths()[k])
            && e.exits()[k] == probe_scan(s, e.paths()[k]).exits && e.items()[k] == probe_scan(
            s,
            e.paths()[k],
        ).items
    &&& forall|u: int, j: int|
        #![trigger e.link_targets()[u][j]]
        0 <= u < e.ids().len() && 0 <= j < e.link_targets()[u].len() ==> e.link_targets()[u][j]
            == probe_id(s, e.paths()[u].push(e.exits()[u][j]))
}

/// Explores the maze that the machine stands in, probing each path on a copy
/// of it, until every exit of every location found has been probed.
pub fn explore_maze(vm: &SynacorVM) -> (r: Exploration)
    requires
        vm.wf(),
    ensures
        r.wf(),
        r.done(),
        agrees(r, vm@),
{
    let empty: Vec<String> = Vec::new();
    assert(strs(empty@) =~= Seq::<Seq<char>>::empty());
    let start = parse_node(vm, &empty);
    let mut ex = Exploration::new(start);
    while !ex.is_done()
        invariant
            vm.wf(),
            ex.wf(),
            agrees(ex, vm@),
        decreases 65536 - ex.ids().len(), ex.remaining(),
    {
        proof {
            lemma_exploration_measure(ex);
        }
        let path = match ex.next_path() {
            Some(p) => p,
            None => return ex,
        };
        let loc = parse_node(vm, &path);
        let ghost old_ex = ex;
        ex.record(loc);
        proof {
            lemma_exploration_measure(ex);
            let s = vm@;
            let c = old_ex.cursor();
            assert forall|k: int| 0 <= k < ex.ids().len() implies #[trigger] ex.ids()[k] == probe_id(
                s,
                ex.paths()[k],
            ) && ex.exits()[k] == probe_scan(s, ex.paths()[k]).exits && ex.items()[k] == probe_scan(
                s,
                ex.paths()[k],
            ).items by {
                if k < old_ex.ids().len() {
                    assert(old_ex.ids()[k] == probe_id(s, old_ex.paths()[k]));
                }
            }
            assert forall|u: int, j: int|
                #![trigger ex.link_targets()[u][j]]
                0 <= u < ex.ids().len() && 0 <= j < ex.link_targets()[u].len() implies ex.link_targets()[u][j]
                == probe_id(s, ex.paths()[u].push(ex.exits()[u][j])) by {
                if u == c && j == old_ex.link_targets()[c].len() {
                } else {
                    assert(old_ex.link_targets()[u][j] == probe_id(
                        s,
                        old_ex.paths()[u].push(old_ex.exits()[u][j]),
                    ));
                }
            }
        }
    }
    ex
}

/// Whether the maze behind a machine is a graph: paths that reach the same
/// identity list the same exits, and the same move from both reaches the same
/// identity.
pub open spec fn maze_is_graph(s: VmState) -> bool {
    &&& forall|p1: Seq<Seq<char>>, p2: Seq<Seq<char>>|
        #![trigger probe_scan(s, p1), probe_scan(s, p2)]
        probe_id(s, p1) == probe_id(s, p2) ==> probe_scan(s, p1).exits == probe_scan(s, p2).exits
    &&& forall|p1: Seq<Seq<char>>, p2: Seq<Seq<char>>, m: Seq<char>|
        #![trigger probe_id(s, p1.push(m)), probe_id(s, p2.push(m))]
        probe_id(s, p1) == probe_id(s, p2) ==> probe_id(s, p1.push(m)) == probe_id(s, p2.push(m))
}

/// Whether each move of a path is one of the exits listed where it is taken.
pub open spec fn follows_exits(s: VmState, p: Seq<Seq<char>>) -> bool {
    forall|i: int| 0 <= i < p.len() ==> #[trigger] probe_scan(s, p.subrange(0, i)).exits.contains(p[i])
}

/// A finished exploration that agrees with a maze which is a graph holds
/// every identity that can be reached from the start along listed exits.
pub proof fn lemma_exploration_reaches_all(e: Exploration, s: VmState, p: Seq<Seq<char>>)
    requires
        e.wf(),
        e.done(),
        agrees(e, s),
        maze_is_graph(s),
        follows_exits(s, p),
    ensures
        exists|k: int| 0 <= k < e.ids().len() && e.ids()[k] == probe_id(s, p),
    decreases p.len(),
{
    if p.len() == 0 {
        assert(e.paths()[0] =~= p);
        assert(e.ids()[0] == probe_id(s, e.paths()[0]));
    } else {
        let q = p.drop_last();
        let m = p.last();
        assert forall|i: int| 0 <= i < q.len() implies #[trigger] probe_scan(s, q.subrange(0, i)).exits.contains(
            q[i],
        ) by {
            assert(q.subrange(0, i) =~= p.subrange(0, i));
            assert(probe_scan(s, p.subrange(0, i)).exits.contains(p[i]));
        }
        lemma_exploration_reaches_all(e, s, q);
        let k = choose|k: int| 0 <= k < e.ids().len() && e.ids()[k] == probe_id(s, q);
        let pk = e.paths()[k];
        assert(e.ids()[k] == probe_id(s, pk) && e.exits()[k] == probe_scan(s, pk).exits);
        assert(probe_scan(s, q).exits == probe_scan(s, pk).exits);
        assert(p.subrange(0, p.len() - 1) =~= q);
        assert(probe_scan(s, p.subrange(0, p.len() - 1)).exits.contains(p[p.len() - 1]));
        let j = choose|j: int| 0 <= j < e.exits()[k].len() && e.exits()[k][j] == m;
        assert(e.link_targets()[k].len() == e.exits()[k].len());
        assert(e.link_targets()[k][j] == probe_id(s, pk.push(e.exits()[k][j])));
        assert(probe_id(s, pk.push(m)) == probe_id(s, q.push(m)));
        assert(q.push(m) =~= p);
        assert(exit_resolved(e, k, j)) by {
            lemma_exploration_complete(e);
        }
    }
}

/// A machine after taking the moves of a path, its output cleared after
/// each move.
pub open spec fn walk_path_spec(s: VmState, path: Seq<Seq<char>>) -> VmState
    decreases path.len(),
{
    if path.len() == 0 {
        s
    } else {
        VmState {
            output: Seq::empty(),
            ..walk_path_spec(s, path.drop_last()).feed(go_line(path.last()))
        }
    }
}

/// Takes the moves of a path on the machine itself, and returns what the
/// game says after each move.
pub fn walk_path(vm: &mut SynacorVM, path: &Vec<String>) -> (r: Vec<String>)
    requires
        old(vm).wf(),
    ensures
        final(vm).wf(),
        final(vm)@ == walk_path_spec(old(vm)@, strs(path@)),
        r.len() == path.len(),
        forall|i: int|
            0 <= i < r.len() ==> #[trigger] r@[i]@ == walk_path_spec(
                old(vm)@,
                strs(path@).subrange(0, i),
            ).feed(go_line(path@[i]@)).output,
{
    let ghost s0 = vm@;
    let mut outs: Vec<String> = Vec::new();
    let mut i: usize = 0;
    while i < path.len()
        invariant
            vm.wf(),
            s0 == old(vm)@,
            i <= path.len(),
            outs.len() == i,
            vm@ == walk_path_spec(s0, strs(path@).subrange(0, i as int)),
            forall|k: int|
                0 <= k < i ==> #[trigger] outs@[k]@ == walk_path_spec(
                    s0,
                    strs(path@).subrange(0, k),
                ).feed(go_line(path@[k]@)).output,
        decreases path.len() - i,
    {
        let mut line = chars_of("go ");
        extend(&mut line, &chars_of(path[i].as_str()));
        vm.input_line_string(string_of(&line));
        let out = vm.output_line(true);
        proof {
            let pre = strs(path@).subrange(0, i + 1);
            assert(pre.drop_last() =~= strs(path@).subrange(0, i as int));
            assert(pre.last() == path@[i as int]@);
        }
        outs.push(out);
        i = i + 1;
    }
    assert(strs(path@).subrange(0, path.len() as int) =~= strs(path@));
    outs
}

} // verus!
