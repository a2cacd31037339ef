//! Dynamic routes: one trie per segment count, its nodes in an arena.
//!
//! Abstractly the tier is the list of registrations, each a sequence of
//! segment keys and an entry. A request with `d` segments walks the patterns
//! of `d` segments: at each step it follows a literal key equal to the
//! segment if some pattern continues that way, else a wildcard if some
//! pattern continues that way. The entries registered
//! under the key sequence it ends on are then tried in order.
use vstd::prelude::*;
use rustc_hash::FxHashMap;
use crate::fxmap::{fx_entries, fx_get, fx_insert, fx_new};
use crate::handler::{find_binding, first_binding, handlers_view, result_view, Handler, HandlerView};
use crate::text::{range_views, slice_chars};

verus! {

broadcast use vstd::string::group_string_axioms;

/// One segment of a dynamic pattern: its literal text, or any value.
pub enum SegmentKey {
    Lit(Seq<char>),
    Wild,
}

/// The key that a stored segment stands for (`*` marks a dynamic one).
pub open spec fn key_of_octet(o: Seq<char>) -> SegmentKey {
    if o == seq!['*'] {
        SegmentKey::Wild
    } else {
        SegmentKey::Lit(o)
    }
}

/// The keys of a pattern from its stored segments.
pub open spec fn keys_of(octets: Seq<String>) -> Seq<SegmentKey> {
    octets.map_values(|o: String| key_of_octet(o@))
}

pub type Registrations = Seq<(Seq<SegmentKey>, HandlerView)>;

/// Some pattern of `d` segments in `regs` starts with `q`.
pub open spec fn has_prefix(regs: Registrations, d: nat, q: Seq<SegmentKey>) -> bool {
    exists|j: int| 0 <= j < regs.len() && (#[trigger] regs[j]).0.len() == d && q.is_prefix_of(regs[j].0)
}

/// The key sequence that a walk ends on, from keys `q` over the remaining
/// request segments `segs`, among the patterns of `d` segments.
pub open spec fn walk_keys(regs: Registrations, d: nat, q: Seq<SegmentKey>, segs: Seq<Seq<char>>) -> Option<Seq<SegmentKey>>
    decreases segs.len(),
{
    if segs.len() == 0 {
        Some(q)
    } else if has_prefix(regs, d, q.push(SegmentKey::Lit(segs[0]))) {
        walk_keys(regs, d, q.push(SegmentKey::Lit(segs[0])), segs.drop_first())
    } else if has_prefix(regs, d, q.push(SegmentKey::Wild)) {
        walk_keys(regs, d, q.push(SegmentKey::Wild), segs.drop_first())
    } else {
        None
    }
}

/// The entries registered under keys `q` with `d` segments, in order.
pub open spec fn handlers_at(regs: Registrations, d: nat, q: Seq<SegmentKey>) -> Seq<HandlerView>
    decreases regs.len(),
{
    if regs.len() == 0 {
        Seq::empty()
    } else {
        let prev = handlers_at(regs.drop_last(), d, q);
        if regs.last().0.len() == d && regs.last().0 == q {
            prev.push(regs.last().1)
        } else {
            prev
        }
    }
}

/// What the dynamic tier answers for `method` on request segments `segs`.
pub open spec fn dynamic_match(regs: Registrations, method: Seq<char>, segs: Seq<Seq<char>>) -> Option<
    (i32, Seq<(Seq<char>, Seq<char>)>),
> {
    match walk_keys(regs, segs.len(), Seq::empty(), segs) {
        Some(q) => first_binding(handlers_at(regs, segs.len(), q), method, segs),
        None => None,
    }
}

pub proof fn lemma_handlers_at_none(regs: Registrations, d: nat, q: Seq<SegmentKey>)
    requires
        forall|j: int| 0 <= j < regs.len() ==> !((#[trigger] regs[j]).0.len() == d && regs[j].0 == q),
    ensures
        handlers_at(regs, d, q) == Seq::<HandlerView>::empty(),
    decreases regs.len(),
{
    if regs.len() > 0 {
        let prev = regs.drop_last();
        assert forall|j: int| 0 <= j < prev.len() implies !((#[trigger] prev[j]).0.len() == d && prev[j].0 == q) by {
            assert(prev[j] == regs[j]);
        }
        lemma_handlers_at_none(prev, d, q);
        assert(regs[regs.len() - 1] == regs.last());
    }
}

struct Node {
    children: FxHashMap<String, usize>,
    wildcard: Option<usize>,
    handlers: Vec<Handler>,
}

/// The dynamic tiers: an arena of trie nodes and the root of each tier.
pub struct RouteTrie {
    nodes: Vec<Node>,
    roots: Vec<usize>,
    /// The segment count and key sequence that each node stands for.
    paths: Ghost<Seq<(nat, Seq<SegmentKey>)>>,
    regs: Ghost<Registrations>,
}

impl View for RouteTrie {
    type V = Registrations;

    closed spec fn view(&self) -> Registrations {
        self.regs@
    }
}

impl RouteTrie {
    spec fn has_edge(&self, i: int, k: SegmentKey) -> bool {
        match k {
            SegmentKey::Lit(l) => fx_entries(self.nodes@[i].children).contains_key(l),
            SegmentKey::Wild => self.nodes@[i].wildcard is Some,
        }
    }

    spec fn edge_to(&self, i: int, c: int, k: SegmentKey) -> bool {
        0 <= c < self.nodes.len() && self.paths@[c] == (self.paths@[i].0, self.paths@[i].1.push(k))
    }

    spec fn edges_ok(&self) -> bool {
        &&& forall|i: int, l: Seq<char>|
            0 <= i < self.nodes.len() && #[trigger] fx_entries(self.nodes@[i].children).contains_key(l)
                ==> self.edge_to(i, fx_entries(self.nodes@[i].children)[l] as int, SegmentKey::Lit(l))
        &&& forall|i: int|
            0 <= i < self.nodes.len() && (#[trigger] self.nodes@[i]).wildcard is Some ==> self.edge_to(
                i,
                self.nodes@[i].wildcard->0 as int,
                SegmentKey::Wild,
            )
    }

    spec fn shape_ok(&self) -> bool {
        &&& self.paths@.len() == self.nodes.len()
        &&& forall|d: int|
            0 <= d < self.roots.len() ==> (#[trigger] self.roots@[d]) < self.nodes.len()
                && self.paths@[self.roots@[d] as int] == (d as nat, Seq::<SegmentKey>::empty())
        &&& forall|i: int|
            0 <= i < self.nodes.len() ==> (#[trigger] self.paths@[i]).1.len() <= self.paths@[i].0
                && self.paths@[i].0 < self.roots.len()
        &&& forall|i1: int, i2: int|
            0 <= i1 < self.nodes.len() && 0 <= i2 < self.nodes.len() && #[trigger] self.paths@[i1]
                == #[trigger] self.paths@[i2] ==> i1 == i2
        &&& self.edges_ok()
    }

    /// Every pattern of a node's segment count that continues its keys has
    /// the edge for its next key there.
    spec fn complete_for(&self, regs: Registrations) -> bool {
        forall|i: int, j: int|
            0 <= i < self.nodes.len() && 0 <= j < regs.len() && (#[trigger] self.paths@[i]).1.len()
                < self.paths@[i].0 && (#[trigger] regs[j]).0.len() == self.paths@[i].0
                && self.paths@[i].1.is_prefix_of(regs[j].0) ==> self.has_edge(
                i,
                regs[j].0[self.paths@[i].1.len() as int],
            )
    }

    spec fn handlers_ok(&self, regs: Registrations) -> bool {
        forall|i: int|
            0 <= i < self.nodes.len() ==> handlers_view((#[trigger] self.nodes@[i]).handlers@)
                == handlers_at(regs, self.paths@[i].0, self.paths@[i].1)
    }

    spec fn depths_ok(&self, regs: Registrations) -> bool {
        forall|j: int| 0 <= j < regs.len() ==> (#[trigger] regs[j]).0.len() < self.roots.len()
    }

    pub closed spec fn wf(&self) -> bool {
        &&& self.shape_ok()
        &&& forall|i: int|
            0 <= i < self.nodes.len() && (#[trigger] self.paths@[i]).1.len() > 0 ==> has_prefix(
                self.regs@,
                self.paths@[i].0,
                self.paths@[i].1,
            )
        &&& self.complete_for(self.regs@)
        &&& self.handlers_ok(self.regs@)
        &&& self.depths_ok(self.regs@)
    }

    /// No tier yet.
    pub(crate) fn new() -> (r: RouteTrie)
        ensures
            r.wf(),
            r@ == Seq::<(Seq<SegmentKey>, HandlerView)>::empty(),
            r.tiers() == 0,
    {
        RouteTrie { nodes: Vec::new(), roots: Vec::new(), paths: Ghost(Seq::empty()), regs: Ghost(Seq::empty()) }
    }

    /// The number of tiers: one per segment count from zero up to the
    /// largest registered.
    pub closed spec fn tiers(&self) -> nat {
        self.roots.len() as nat
    }

    /// Number of tiers; a request with more segments has no tier.
    pub(crate) fn tier_count(&self) -> (r: usize)
        requires
            self.wf(),
        ensures
            r == self.tiers(),
            forall|j: int| 0 <= j < self@.len() ==> (#[trigger] self@[j]).0.len() < r,
    {
        self.roots.len()
    }

    /// One step of a walk from the node for keys `q`: the literal edge for
    /// `seg` if some pattern continues that way, else the wildcard edge if
    /// some pattern continues that way.
    fn walk_step(&self, n: usize, seg: &str, Ghost(d): Ghost<nat>, Ghost(q): Ghost<Seq<SegmentKey>>) -> (r: Option<usize>)
        requires
            self.wf(),
            n < self.nodes.len(),
            self.paths@[n as int] == (d, q),
            q.len() < d,
        ensures
            ({
                let lit = q.push(SegmentKey::Lit(seg@));
                let wild = q.push(SegmentKey::Wild);
                if has_prefix(self.regs@, d, lit) {
                    r is Some && r->0 < self.nodes.len() && self.paths@[r->0 as int] == (d, lit)
                } else if has_prefix(self.regs@, d, wild) {
                    r is Some && r->0 < self.nodes.len() && self.paths@[r->0 as int] == (d, wild)
                } else {
                    r is None
                }
            }),
    {
        let ghost regs = self.regs@;
        match fx_get(&self.nodes[n].children, seg) {
            Some(c) => {
                assert(self.edge_to(n as int, c as int, SegmentKey::Lit(seg@)));
                assert(has_prefix(regs, d, q.push(SegmentKey::Lit(seg@))));
                return Some(c);
            },
            None => {},
        }
        assert(!has_prefix(regs, d, q.push(SegmentKey::Lit(seg@)))) by {
            if has_prefix(regs, d, q.push(SegmentKey::Lit(seg@))) {
                let j = choose|j: int| 0 <= j < regs.len() && (#[trigger] regs[j]).0.len() == d
                    && q.push(SegmentKey::Lit(seg@)).is_prefix_of(regs[j].0);
                let qq = q.push(SegmentKey::Lit(seg@));
                assert(qq[q.len() as int] == SegmentKey::Lit(seg@));
                assert(qq =~= regs[j].0.subrange(0, qq.len() as int));
                assert(q =~= regs[j].0.subrange(0, q.len() as int));
                assert(regs[j].0[q.len() as int] == SegmentKey::Lit(seg@));
                assert(self.complete_for(regs));
                assert(self.has_edge(n as int, regs[j].0[q.len() as int]));
            }
        }
        match self.nodes[n].wildcard {
            Some(w) => {
                assert(self.edge_to(n as int, w as int, SegmentKey::Wild));
                assert(has_prefix(regs, d, q.push(SegmentKey::Wild)));
                Some(w)
            },
            None => {
                assert(!has_prefix(regs, d, q.push(SegmentKey::Wild))) by {
                    if has_prefix(regs, d, q.push(SegmentKey::Wild)) {
                        let j = choose|j: int| 0 <= j < regs.len() && (#[trigger] regs[j]).0.len() == d
                            && q.push(SegmentKey::Wild).is_prefix_of(regs[j].0);
                        let qq = q.push(SegmentKey::Wild);
                        assert(qq[q.len() as int] == SegmentKey::Wild);
                        assert(qq =~= regs[j].0.subrange(0, qq.len() as int));
                        assert(q =~= regs[j].0.subrange(0, q.len() as int));
                        assert(regs[j].0[q.len() as int] == SegmentKey::Wild);
                        assert(self.complete_for(regs));
                        assert(self.has_edge(n as int, regs[j].0[q.len() as int]));
                    }
                }
                None
            },
        }
    }

    /// The node that a request with segments `ranges[1..]` of `p` walks to.
    fn find_leaf(&self, p: &str, ascii: bool, ranges: &Vec<(usize, usize)>) -> (r: Option<usize>)
        requires
            self.wf(),
            ascii == p.is_ascii(),
            ranges.len() >= 2,
            forall|k: int| 0 <= k < ranges.len() ==> (#[trigger] ranges@[k]).0 <= ranges@[k].1 <= p@.len(),
        ensures
            ({
                let segs = range_views(p@, ranges@).drop_first();
                match walk_keys(self@, segs.len(), Seq::empty(), segs) {
                    Some(q) => r is Some && r->0 < self.nodes.len() && self.paths@[r->0 as int] == (
                    segs.len(), q),
                    None => r is None,
                }
            }),
    {
        let ghost segs = range_views(p@, ranges@).drop_first();
        let ghost regs = self.regs@;
        let d = ranges.len() - 1;
        if d >= self.roots.len() {
            assert(walk_keys(regs, d as nat, Seq::empty(), segs) is None) by {
                let q = Seq::<SegmentKey>::empty();
                assert(!has_prefix(regs, d as nat, q.push(SegmentKey::Lit(segs[0])))) by {
                    if has_prefix(regs, d as nat, q.push(SegmentKey::Lit(segs[0]))) {
                        let j = choose|j: int| 0 <= j < regs.len() && (#[trigger] regs[j]).0.len() == d
                            && q.push(SegmentKey::Lit(segs[0])).is_prefix_of(regs[j].0);
                        assert(self.depths_ok(regs));
                    }
                }
                assert(!has_prefix(regs, d as nat, q.push(SegmentKey::Wild))) by {
                    if has_prefix(regs, d as nat, q.push(SegmentKey::Wild)) {
                        let j = choose|j: int| 0 <= j < regs.len() && (#[trigger] regs[j]).0.len() == d
                            && q.push(SegmentKey::Wild).is_prefix_of(regs[j].0);
                        assert(self.depths_ok(regs));
                    }
                }
            }
            return None;
        }
        let mut n = self.roots[d];
        let ghost mut q = Seq::<SegmentKey>::empty();
        let mut s: usize = 0;
        assert(segs.subrange(0, d as int) =~= segs);
        while s < d
            invariant
                self.wf(),
                regs == self.regs@,
                ascii == p.is_ascii(),
                d == ranges.len() - 1,
                segs == range_views(p@, ranges@).drop_first(),
                forall|k: int| 0 <= k < ranges.len() ==> (#[trigger] ranges@[k]).0 <= ranges@[k].1 <= p@.len(),
                s <= d,
                n < self.nodes.len(),
                self.paths@[n as int] == (d as nat, q),
                q.len() == s,
                walk_keys(regs, d as nat, Seq::empty(), segs) == walk_keys(regs, d as nat, q, segs.subrange(s as int, d as int)),
            decreases d - s,
        {
            let range = ranges[s + 1];
            let seg = slice_chars(p, ascii, range.0, range.1);
            let ghost rest = segs.subrange(s as int, d as int);
            assert(rest[0] == seg@);
            assert(rest.drop_first() =~= segs.subrange(s + 1, d as int));
            match self.walk_step(n, seg, Ghost(d as nat), Ghost(q)) {
                Some(c) => {
                    proof {
                        if has_prefix(regs, d as nat, q.push(SegmentKey::Lit(seg@))) {
                            q = q.push(SegmentKey::Lit(seg@));
                        } else {
                            q = q.push(SegmentKey::Wild);
                        }
                    }
                    n = c;
                },
                None => {
                    return None;
                },
            }
            s += 1;
        }
        Some(n)
    }

    /// What the dynamic tier answers for `method` on the segments
    /// `ranges[1..]` of `p`.
    pub(crate) fn lookup<'a>(&'a self, method: &String, p: &'a str, ascii: bool, ranges: &Vec<(usize, usize)>) -> (r: Option<(i32, Vec<(&'a str, &'a str)>)>)
        requires
            self.wf(),
            ascii == p.is_ascii(),
            ranges.len() >= 2,
            forall|k: int| 0 <= k < ranges.len() ==> (#[trigger] ranges@[k]).0 <= ranges@[k].1 <= p@.len(),
        ensures
            result_view(r) == dynamic_match(self@, method@, range_views(p@, ranges@).drop_first()),
    {
        match self.find_leaf(p, ascii, ranges) {
            Some(n) => {
                assert(handlers_view(self.nodes@[n as int].handlers@) == handlers_at(
                    self.regs@,
                    self.paths@[n as int].0,
                    self.paths@[n as int].1,
                ));
                find_binding(&self.nodes[n].handlers, method, p, ascii, ranges)
            },
            None => None,
        }
    }

    /// Adds a tier root for the next segment count.
    fn push_root(&mut self)
        requires
            old(self).wf(),
        ensures
            final(self).wf(),
            final(self).regs@ == old(self).regs@,
            final(self).roots.len() == old(self).roots.len() + 1,
    {
        let ghost regs = self.regs@;
        let ghost depth = self.roots.len() as nat;
        let ghost old_self = *self;
        let r = self.nodes.len();
        proof {
            assert forall|j: int| 0 <= j < regs.len() implies !((#[trigger] regs[j]).0.len() == depth
                && regs[j].0 == Seq::<SegmentKey>::empty()) by {
                assert(self.depths_ok(regs));
            }
            lemma_handlers_at_none(regs, depth, Seq::empty());
        }
        self.nodes.push(Node { children: fx_new(), wildcard: None, handlers: Vec::new() });
        self.paths = Ghost(self.paths@.push((depth, Seq::empty())));
        self.roots.push(r);
        assert(forall|i: int| 0 <= i < r ==> self.nodes@[i] == old_self.nodes@[i] && self.paths@[i] == old_self.paths@[i]);
        assert(self.edges_ok()) by {
            assert forall|i: int, l: Seq<char>|
                0 <= i < self.nodes.len() && #[trigger] fx_entries(self.nodes@[i].children).contains_key(l)
                    implies self.edge_to(i, fx_entries(self.nodes@[i].children)[l] as int, SegmentKey::Lit(l)) by {
                assert(i < r);
                assert(old_self.edge_to(i, fx_entries(old_self.nodes@[i].children)[l] as int, SegmentKey::Lit(l)));
            }
            assert forall|i: int|
                0 <= i < self.nodes.len() && (#[trigger] self.nodes@[i]).wildcard is Some implies self.edge_to(
                    i,
                    self.nodes@[i].wildcard->0 as int,
                    SegmentKey::Wild,
                ) by {
                assert(i < r);
                assert(old_self.nodes@[i] == self.nodes@[i]);
            }
        }
        assert(self.shape_ok()) by {
            assert forall|d: int| 0 <= d < self.roots.len() implies (#[trigger] self.roots@[d]) < self.nodes.len()
                && self.paths@[self.roots@[d] as int] == (d as nat, Seq::<SegmentKey>::empty()) by {
                if d < old_self.roots.len() {
                    assert(self.roots@[d] == old_self.roots@[d]);
                }
            }
            assert forall|i1: int, i2: int|
                0 <= i1 < self.nodes.len() && 0 <= i2 < self.nodes.len() && #[trigger] self.paths@[i1]
                    == #[trigger] self.paths@[i2] implies i1 == i2 by {
                if i1 < r && i2 == r {
                    assert(old_self.paths@[i1].0 < old_self.roots.len());
                }
                if i2 < r && i1 == r {
                    assert(old_self.paths@[i2].0 < old_self.roots.len());
                }
            }
        }
        assert(self.complete_for(regs)) by {
            assert forall|i: int, j: int|
                0 <= i < self.nodes.len() && 0 <= j < regs.len() && (#[trigger] self.paths@[i]).1.len()
                    < self.paths@[i].0 && (#[trigger] regs[j]).0.len() == self.paths@[i].0
                    && self.paths@[i].1.is_prefix_of(regs[j].0) implies self.has_edge(
                    i,
                    regs[j].0[self.paths@[i].1.len() as int],
                ) by {
                if i == r {
                    assert(old_self.depths_ok(regs));
                } else {
                    assert(old_self.complete_for(regs));
                    assert(old_self.has_edge(i, regs[j].0[self.paths@[i].1.len() as int]));
                }
            }
        }
        assert(self.handlers_ok(regs)) by {
            assert forall|i: int| 0 <= i < self.nodes.len() implies handlers_view((#[trigger] self.nodes@[i]).handlers@)
                == handlers_at(regs, self.paths@[i].0, self.paths@[i].1) by {
                if i == r {
                    assert(handlers_view(self.nodes@[i].handlers@) =~= Seq::<HandlerView>::empty());
                } else {
                    assert(old_self.handlers_ok(regs));
                }
            }
        }
        assert(self.depths_ok(regs)) by {
            assert(old_self.depths_ok(regs));
        }
    }

    /// Mid-insertion: the nodes for the first `s` keys of `keys` exist, each
    /// with the edge to the next, and no node stands for any other prefix of
    /// `keys` that no registration continues.
    spec fn building(&self, regs: Registrations, keys: Seq<SegmentKey>, s: nat, n: int) -> bool {
        let d = keys.len();
        &&& self.shape_ok()
        &&& self.complete_for(regs)
        &&& self.handlers_ok(regs)
        &&& self.depths_ok(regs)
        &&& self.regs@ == regs
        &&& d < self.roots.len()
        &&& s <= d
        &&& 0 <= n < self.nodes.len()
        &&& self.paths@[n] == (d, keys.take(s as int))
        &&& forall|i: int|
            0 <= i < self.nodes.len() && (#[trigger] self.paths@[i]).1.len() > 0 ==> has_prefix(
                regs,
                self.paths@[i].0,
                self.paths@[i].1,
            ) || (self.paths@[i].0 == d && self.paths@[i].1.len() <= s && self.paths@[i].1
                == keys.take(self.paths@[i].1.len() as int))
        &&& forall|i: int|
            0 <= i < self.nodes.len() && (#[trigger] self.paths@[i]).0 == d && self.paths@[i].1.len() < s
                && self.paths@[i].1 == keys.take(self.paths@[i].1.len() as int) ==> self.has_edge(
                i,
                keys[self.paths@[i].1.len() as int],
            )
    }

    /// From the node for `keys[..s]`, follows or creates the edge for `keys[s]`.
    fn step_to(&mut self, n: usize, octet: &String, Ghost(keys): Ghost<Seq<SegmentKey>>, Ghost(s): Ghost<nat>) -> (c: usize)
        requires
            old(self).building(old(self).regs@, keys, s, n as int),
            s < keys.len(),
            keys[s as int] == key_of_octet(octet@),
        ensures
            final(self).building(old(self).regs@, keys, s + 1, c as int),
            final(self).roots@ == old(self).roots@,
    {
        let ghost regs = self.regs@;
        let ghost d = keys.len();
        let ghost q = keys.take(s as int);
        let ghost k = keys[s as int];
        let ghost q1 = keys.take(s + 1 as int);
        let ghost old_self = *self;
        assert(q1 =~= q.push(k));
        proof {
            reveal_strlit("*");
        }
        let star = "*".to_owned();
        assert(star@ =~= seq!['*']);
        let wild = *octet == star;
        assert(wild <==> k == SegmentKey::Wild);
        let existing = if wild {
            self.nodes[n].wildcard
        } else {
            fx_get(&self.nodes[n].children, octet.as_str())
        };
        assert(existing is Some <==> self.has_edge(n as int, k));
        match existing {
            Some(c) => {
                assert(self.edge_to(n as int, c as int, k));
                assert forall|i: int|
                    0 <= i < self.nodes.len() && (#[trigger] self.paths@[i]).0 == d && self.paths@[i].1.len() < s + 1
                        && self.paths@[i].1 == keys.take(self.paths@[i].1.len() as int) implies self.has_edge(
                        i,
                        keys[self.paths@[i].1.len() as int],
                    ) by {
                    if self.paths@[i].1.len() == s {
                        assert(self.paths@[i] == self.paths@[n as int]);
                    }
                }
                c
            },
            None => {
                // no registration continues `q` with `k`
                assert(!has_prefix(regs, d, q1)) by {
                    if has_prefix(regs, d, q1) {
                        let j = choose|j: int| 0 <= j < regs.len() && (#[trigger] regs[j]).0.len() == d
                            && q1.is_prefix_of(regs[j].0);
                        assert(q1[s as int] == k);
                        assert(q1 =~= regs[j].0.subrange(0, q1.len() as int));
                        assert(q =~= regs[j].0.subrange(0, q.len() as int));
                        assert(regs[j].0[s as int] == k);
                        assert(self.complete_for(regs));
                        assert(self.has_edge(n as int, regs[j].0[q.len() as int]));
                    }
                }
                assert forall|j: int| 0 <= j < regs.len() implies !((#[trigger] regs[j]).0.len() == d
                    && regs[j].0 == q1) by {
                    if regs[j].0.len() == d && regs[j].0 == q1 {
                        assert(q1.is_prefix_of(regs[j].0));
                    }
                }
                proof {
                    lemma_handlers_at_none(regs, d, q1);
                }
                assert forall|i: int| 0 <= i < self.nodes.len() implies #[trigger] self.paths@[i] != (d, q1) by {
                    if self.paths@[i] == (d, q1) {
                        assert(self.paths@[i].1.len() > 0);
                    }
                }
                let c = self.nodes.len();
                self.nodes.push(Node { children: fx_new(), wildcard: None, handlers: Vec::new() });
                self.paths = Ghost(self.paths@.push((d, q1)));
                let ghost mid = *self;
                if wild {
                    self.nodes[n].wildcard = Some(c);
                } else {
                    fx_insert(&mut self.nodes[n].children, octet.clone(), c);
                }
                assert(forall|i: int| 0 <= i < c && i != n ==> self.nodes@[i] == old_self.nodes@[i]);
                assert(forall|i: int| 0 <= i < c ==> self.paths@[i] == old_self.paths@[i]);
                assert(self.nodes@[n as int].handlers == old_self.nodes@[n as int].handlers);
                assert(self.nodes@[c as int] == mid.nodes@[c as int]);
                assert(fx_entries(self.nodes@[c as int].children) == fx_entries(mid.nodes@[c as int].children));
                assert(self.has_edge(n as int, k));
                // edges only grew
                assert forall|i: int, kk: SegmentKey| 0 <= i < c && old_self.has_edge(i, kk) implies self.has_edge(i, kk) by {
                    if i == n && !wild {
                        match kk {
                            SegmentKey::Lit(l) => {
                                assert(fx_entries(self.nodes@[i].children) == fx_entries(old_self.nodes@[i].children).insert(octet@, c));
                            },
                            SegmentKey::Wild => {},
                        }
                    }
                }
                assert(self.edges_ok()) by {
                    assert forall|i: int, l: Seq<char>|
                        0 <= i < self.nodes.len() && #[trigger] fx_entries(self.nodes@[i].children).contains_key(l)
                            implies self.edge_to(i, fx_entries(self.nodes@[i].children)[l] as int, SegmentKey::Lit(l)) by {
                        if i == c {
                            assert(false);
                        } else if i == n && !wild && l == octet@ {
                            assert(fx_entries(self.nodes@[i].children)[l] == c);
                        } else if i == n && !wild {
                            assert(fx_entries(self.nodes@[i].children)[l] == fx_entries(old_self.nodes@[i].children)[l]);
                            assert(old_self.edge_to(i, fx_entries(old_self.nodes@[i].children)[l] as int, SegmentKey::Lit(l)));
                        } else {
                            assert(old_self.edge_to(i, fx_entries(old_self.nodes@[i].children)[l] as int, SegmentKey::Lit(l)));
                        }
                    }
                    assert forall|i: int|
                        0 <= i < self.nodes.len() && (#[trigger] self.nodes@[i]).wildcard is Some implies self.edge_to(
                            i,
                            self.nodes@[i].wildcard->0 as int,
                            SegmentKey::Wild,
                        ) by {
                        if i == c {
                            assert(false);
                        } else if i == n && wild {
                        } else {
                            assert(old_self.nodes@[i].wildcard == self.nodes@[i].wildcard);
                        }
                    }
                }
                assert(self.shape_ok()) by {
                    assert forall|dd: int| 0 <= dd < self.roots.len() implies (#[trigger] self.roots@[dd]) < self.nodes.len()
                        && self.paths@[self.roots@[dd] as int] == (dd as nat, Seq::<SegmentKey>::empty()) by {
                        assert(old_self.roots@[dd] < c);
                    }
                    assert forall|i1: int, i2: int|
                        0 <= i1 < self.nodes.len() && 0 <= i2 < self.nodes.len() && #[trigger] self.paths@[i1]
                            == #[trigger] self.paths@[i2] implies i1 == i2 by {
                        if i1 < c && i2 < c {
                            assert(old_self.paths@[i1] == old_self.paths@[i2]);
                        }
                    }
                }
                assert(self.complete_for(regs)) by {
                    assert forall|i: int, j: int|
                        0 <= i < self.nodes.len() && 0 <= j < regs.len() && (#[trigger] self.paths@[i]).1.len()
                            < self.paths@[i].0 && (#[trigger] regs[j]).0.len() == self.paths@[i].0
                            && self.paths@[i].1.is_prefix_of(regs[j].0) implies self.has_edge(
                            i,
                            regs[j].0[self.paths@[i].1.len() as int],
                        ) by {
                        if i == c {
                            assert(has_prefix(regs, d, q1));
                        } else {
                            assert(old_self.has_edge(i, regs[j].0[self.paths@[i].1.len() as int]));
                        }
                    }
                }
                assert(self.handlers_ok(regs)) by {
                    assert forall|i: int| 0 <= i < self.nodes.len() implies handlers_view((#[trigger] self.nodes@[i]).handlers@)
                        == handlers_at(regs, self.paths@[i].0, self.paths@[i].1) by {
                        if i == c {
                            assert(handlers_view(self.nodes@[i].handlers@) =~= Seq::<HandlerView>::empty());
                        } else {
                            assert(self.nodes@[i].handlers == old_self.nodes@[i].handlers);
                        }
                    }
                }
                assert forall|i: int|
                    0 <= i < self.nodes.len() && (#[trigger] self.paths@[i]).1.len() > 0 implies has_prefix(
                        regs,
                        self.paths@[i].0,
                        self.paths@[i].1,
                    ) || (self.paths@[i].0 == d && self.paths@[i].1.len() <= s + 1 && self.paths@[i].1
                        == keys.take(self.paths@[i].1.len() as int)) by {
                    if i < c {
                        assert(old_self.paths@[i] == self.paths@[i]);
                    }
                }
                assert forall|i: int|
                    0 <= i < self.nodes.len() && (#[trigger] self.paths@[i]).0 == d && self.paths@[i].1.len() < s + 1
                        && self.paths@[i].1 == keys.take(self.paths@[i].1.len() as int) implies self.has_edge(
                        i,
                        keys[self.paths@[i].1.len() as int],
                    ) by {
                    if i == n {
                    } else if i < c {
                        if self.paths@[i].1.len() == s {
                            assert(old_self.paths@[i] == old_self.paths@[n as int]);
                        }
                        assert(old_self.has_edge(i, keys[self.paths@[i].1.len() as int]));
                    }
                }
                c
            },
        }
    }

    /// Registers entry `h` under the pattern whose stored segments are
    /// `octets`, in the tier of its segment count.
    pub(crate) fn insert(&mut self, octets: &Vec<String>, h: Handler)
        requires
            old(self).wf(),
            octets.len() >= 1,
        ensures
            final(self).wf(),
            final(self)@ == old(self)@.push((keys_of(octets@), h@)),
            final(self).tiers() == if octets.len() + 1 > old(self).tiers() {
                (octets.len() + 1) as nat
            } else {
                old(self).tiers()
            },
    {
        let ghost keys = keys_of(octets@);
        let ghost hv = h@;
        let ghost regs = self.regs@;
        let d = octets.len();
        let ghost old_tiers = self.roots.len();
        while self.roots.len() <= d
            invariant
                self.wf(),
                self.regs@ == regs,
                old_tiers <= self.roots.len(),
                self.roots.len() > old_tiers ==> self.roots.len() <= d + 1,
            decreases d + 1 - self.roots.len(),
        {
            self.push_root();
        }
        let mut n = self.roots[d];
        assert(keys.take(0) =~= Seq::<SegmentKey>::empty());
        assert(self.building(regs, keys, 0, n as int));
        let ghost grown = self.roots.len();
        let mut s: usize = 0;
        while s < d
            invariant
                self.building(regs, keys, s as nat, n as int),
                self.roots.len() == grown,
                keys == keys_of(octets@),
                d == octets.len(),
            decreases d - s,
        {
            n = self.step_to(n, &octets[s], Ghost(keys), Ghost(s as nat));
            s += 1;
        }
        assert(keys.take(d as int) =~= keys);
        let ghost old_self = *self;
        self.nodes[n].handlers.push(h);
        let ghost regs2 = regs.push((keys, hv));
        self.regs = Ghost(regs2);
        assert(regs2.drop_last() =~= regs);
        assert(forall|i: int| 0 <= i < self.nodes.len() && i != n ==> self.nodes@[i] == old_self.nodes@[i]);
        assert(self.nodes@[n as int].children == old_self.nodes@[n as int].children);
        assert(self.nodes@[n as int].wildcard == old_self.nodes@[n as int].wildcard);
        assert forall|i: int, kk: SegmentKey| 0 <= i < self.nodes.len() implies self.has_edge(i, kk) == old_self.has_edge(i, kk) by {}
        assert(self.edges_ok()) by {
            assert forall|i: int, l: Seq<char>|
                0 <= i < self.nodes.len() && #[trigger] fx_entries(self.nodes@[i].children).contains_key(l)
                    implies self.edge_to(i, fx_entries(self.nodes@[i].children)[l] as int, SegmentKey::Lit(l)) by {
                assert(old_self.edge_to(i, fx_entries(old_self.nodes@[i].children)[l] as int, SegmentKey::Lit(l)));
            }
            assert forall|i: int|
                0 <= i < self.nodes.len() && (#[trigger] self.nodes@[i]).wildcard is Some implies self.edge_to(
                    i,
                    self.nodes@[i].wildcard->0 as int,
                    SegmentKey::Wild,
                ) by {
                assert(old_self.nodes@[i].wildcard == self.nodes@[i].wildcard);
            }
        }
        assert(self.shape_ok());
        assert forall|i: int|
            0 <= i < self.nodes.len() && (#[trigger] self.paths@[i]).1.len() > 0 implies has_prefix(
                regs2,
                self.paths@[i].0,
                self.paths@[i].1,
            ) by {
            if has_prefix(regs, self.paths@[i].0, self.paths@[i].1) {
                let j = choose|j: int| 0 <= j < regs.len() && (#[trigger] regs[j]).0.len() == self.paths@[i].0
                    && self.paths@[i].1.is_prefix_of(regs[j].0);
                assert(regs2[j] == regs[j]);
            } else {
                let m = self.paths@[i].1.len() as int;
                assert(self.paths@[i].1 =~= regs2[regs.len() as int].0.subrange(0, m));
            }
        }
        assert(self.complete_for(regs2)) by {
            assert forall|i: int, j: int|
                0 <= i < self.nodes.len() && 0 <= j < regs2.len() && (#[trigger] self.paths@[i]).1.len()
                    < self.paths@[i].0 && (#[trigger] regs2[j]).0.len() == self.paths@[i].0
                    && self.paths@[i].1.is_prefix_of(regs2[j].0) implies self.has_edge(
                    i,
                    regs2[j].0[self.paths@[i].1.len() as int],
                ) by {
                if j < regs.len() {
                    assert(regs2[j] == regs[j]);
                    assert(old_self.complete_for(regs));
                    assert(old_self.has_edge(i, regs[j].0[self.paths@[i].1.len() as int]));
                } else {
                    let m = self.paths@[i].1.len() as int;
                    assert(self.paths@[i].1 =~= keys.take(m));
                }
            }
        }
        assert(self.handlers_ok(regs2)) by {
            assert forall|i: int| 0 <= i < self.nodes.len() implies handlers_view((#[trigger] self.nodes@[i]).handlers@)
                == handlers_at(regs2, self.paths@[i].0, self.paths@[i].1) by {
                assert(regs2.last() == (keys, hv));
                if i == n {
                    assert(handlers_view(self.nodes@[i].handlers@) =~= handlers_view(old_self.nodes@[i].handlers@).push(hv));
                } else {
                    assert(old_self.paths@[i] != old_self.paths@[n as int]);
                    assert(handlers_at(regs2, self.paths@[i].0, self.paths@[i].1) == handlers_at(regs, self.paths@[i].0, self.paths@[i].1));
                }
            }
        }
        assert(self.depths_ok(regs2)) by {
            assert forall|j: int| 0 <= j < regs2.len() implies (#[trigger] regs2[j]).0.len() < self.roots.len() by {
                if j < regs.len() {
                    assert(regs2[j] == regs[j]);
                }
            }
        }
    }
}

} // verus!
