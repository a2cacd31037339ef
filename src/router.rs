//! The router: registration into the static table, the dynamic tiers and the
//! locations, and resolution across them in that order.
use vstd::prelude::*;
use rustc_hash::FxHashMap;
use crate::fxmap::{fx_entries, fx_get, fx_insert, fx_new};
use crate::handler::{
    find_with_method, first_with_method, handler_from, handlers_view,
    pairs_view, result_view, Handler, HandlerView,
};
use crate::order::{
    lemma_lex_total, lemma_lex_transitive,
    lex_greater, lex_greater_exec,
};
use crate::path::{parse_pattern, ErrorKind, PathParser, PatternView, RouteError};
use crate::text::{chars_of, count_char, lemma_count_leading, lemma_pieces_len, pieces, range_views, slice_chars, split_ranges, strip_last};
use crate::trie::{dynamic_match, key_of_octet, keys_of, walk_keys, has_prefix, RouteTrie, SegmentKey};

verus! {

broadcast use vstd::string::group_string_axioms;

/// Relies on `bytecount::count`: the number of `/` bytes in the UTF-8 text of
/// `s`, which is its number of `/` characters, as no multi-byte character
/// holds an ASCII byte.
#[verifier::external_body]
fn count_separators(s: &str) -> (r: usize)
    ensures
        r == count_char(s@, '/'),
{
    bytecount::count(s.as_bytes(), b'/')
}

/// A prefix route: its prefix and the entries registered on it, in order.
struct Location {
    prefix: String,
    prefix_chars: Vec<char>,
    handlers: Vec<Handler>,
}

/// The router in the terms of the contracts.
pub struct RouterView {
    /// Fully literal patterns, by registered text, with their entries in order.
    pub statics: Map<Seq<char>, Seq<HandlerView>>,
    /// Patterns with a dynamic segment: their keys and entry, in the order
    /// they were registered.
    pub dynamics: Seq<(Seq<SegmentKey>, HandlerView)>,
    /// Prefixes with their entries, kept in descending order of prefix.
    pub locations: Seq<(Seq<char>, Seq<HandlerView>)>,
    /// The named validators.
    pub validators: Map<Seq<char>, Seq<char>>,
    pub ignore_trailing_slashes: bool,
}

/// The text a pattern or a path is handled as: one trailing `/` dropped in
/// trailing-slash-insensitive mode.
pub open spec fn route_text(ignore_trailing_slashes: bool, s: Seq<char>) -> Seq<char> {
    if ignore_trailing_slashes {
        strip_last(s, '/')
    } else {
        s
    }
}

/// A pattern with no dynamic segment.
pub open spec fn is_static_pattern(pv: PatternView) -> bool {
    forall|i: int| 0 <= i < pv.octets.len() ==> #[trigger] pv.octets[i] != seq!['*']
}

pub open spec fn pattern_keys(pv: PatternView) -> Seq<SegmentKey> {
    pv.octets.map_values(|o: Seq<char>| key_of_octet(o))
}

/// The entries under `k` in `m`, none if absent.
pub open spec fn bucket(m: Map<Seq<char>, Seq<HandlerView>>, k: Seq<char>) -> Seq<HandlerView> {
    if m.contains_key(k) {
        m[k]
    } else {
        Seq::empty()
    }
}

/// The number of leading locations whose prefix comes after `key`.
pub open spec fn location_slot(locs: Seq<(Seq<char>, Seq<HandlerView>)>, key: Seq<char>) -> int
    decreases locs.len(),
{
    if locs.len() > 0 && lex_greater(locs[0].0, key) {
        1 + location_slot(locs.drop_first(), key)
    } else {
        0
    }
}

/// Locations after adding entry `e` under prefix `key`: appended to that
/// prefix's entries, or a new location at its place in descending order.
pub open spec fn add_to_locations(locs: Seq<(Seq<char>, Seq<HandlerView>)>, key: Seq<char>, e: HandlerView) -> Seq<
    (Seq<char>, Seq<HandlerView>),
> {
    let pos = location_slot(locs, key);
    if pos < locs.len() && locs[pos].0 == key {
        locs.update(pos, (key, locs[pos].1.push(e)))
    } else {
        locs.insert(pos, (key, seq![e]))
    }
}

/// Prefixes in strictly descending order.
pub open spec fn locations_sorted(locs: Seq<(Seq<char>, Seq<HandlerView>)>) -> bool {
    forall|i: int, j: int| 0 <= i < j < locs.len() ==> lex_greater(#[trigger] locs[i].0, #[trigger] locs[j].0)
}

/// What registering `handler` for `method` on `pattern` does: the new state
/// and the result.
pub open spec fn add_route_effect(rv: RouterView, method: Seq<char>, pattern: Seq<char>, handler: i32) -> (
    RouterView,
    Result<(), ErrorKind>,
) {
    let key = route_text(rv.ignore_trailing_slashes, pattern);
    match parse_pattern(rv.validators, key) {
        Err(e) => (rv, Err(e)),
        Ok(pv) => {
            let e = HandlerView { handler, method, params: pv.params };
            if is_static_pattern(pv) {
                (RouterView { statics: rv.statics.insert(key, bucket(rv.statics, key).push(e)), ..rv }, Ok(()))
            } else {
                (RouterView { dynamics: rv.dynamics.push((pattern_keys(pv), e)), ..rv }, Ok(()))
            }
        },
    }
}

/// What registering `handler` for `method` on prefix `prefix` does; a
/// pattern that does not parse is dropped.
pub open spec fn add_location_effect(rv: RouterView, method: Seq<char>, prefix: Seq<char>, handler: i32) -> RouterView {
    let key = route_text(rv.ignore_trailing_slashes, prefix);
    match parse_pattern(rv.validators, key) {
        Err(_) => rv,
        Ok(pv) => RouterView {
            locations: add_to_locations(rv.locations, key, HandlerView { handler, method, params: pv.params }),
            ..rv
        },
    }
}

/// The static tier: the first entry for `method` under exactly `p`.
pub open spec fn static_match(rv: RouterView, method: Seq<char>, p: Seq<char>) -> Option<i32> {
    if rv.statics.contains_key(p) {
        first_with_method(rv.statics[p], method)
    } else {
        None
    }
}

/// The segments of a request path that starts with `/`.
pub open spec fn request_segments(p: Seq<char>) -> Seq<Seq<char>> {
    pieces(p).drop_first()
}

/// The dynamic tier, for paths that start with `/`.
pub open spec fn dynamic_tier(rv: RouterView, method: Seq<char>, p: Seq<char>) -> Option<
    (i32, Seq<(Seq<char>, Seq<char>)>),
> {
    if p.len() > 0 && p[0] == '/' {
        dynamic_match(rv.dynamics, method, request_segments(p))
    } else {
        None
    }
}

/// The location tier: the first location whose prefix starts `p` and that
/// has an entry for `method`.
pub open spec fn location_match(locs: Seq<(Seq<char>, Seq<HandlerView>)>, method: Seq<char>, p: Seq<char>) -> Option<i32>
    decreases locs.len(),
{
    if locs.len() == 0 {
        None
    } else if locs[0].0.is_prefix_of(p) && first_with_method(locs[0].1, method) is Some {
        first_with_method(locs[0].1, method)
    } else {
        location_match(locs.drop_first(), method, p)
    }
}

/// What resolving `method` on `path` gives: static, then dynamic, then
/// location.
pub open spec fn resolve_route(rv: RouterView, method: Seq<char>, path: Seq<char>) -> Option<
    (i32, Seq<(Seq<char>, Seq<char>)>),
> {
    let p = route_text(rv.ignore_trailing_slashes, path);
    match static_match(rv, method, p) {
        Some(h) => Some((h, Seq::empty())),
        None => match dynamic_tier(rv, method, p) {
            Some(x) => Some(x),
            None => match location_match(rv.locations, method, p) {
                Some(h) => Some((h, Seq::empty())),
                None => None,
            },
        },
    }
}

/// The number of dynamic tiers after registering `pattern`: a dynamic pattern
/// of `d` segments needs tiers up to `d`; tiers are never removed.
pub open spec fn tiers_after_route(tiers: nat, rv: RouterView, pattern: Seq<char>) -> nat {
    match parse_pattern(rv.validators, route_text(rv.ignore_trailing_slashes, pattern)) {
        Ok(pv) => if !is_static_pattern(pv) && pv.octets.len() + 1 > tiers {
            (pv.octets.len() + 1) as nat
        } else {
            tiers
        },
        Err(_) => tiers,
    }
}

/// Resolves a method and a request path to a handler id and the path's
/// parameters.
pub struct SquallRouter {
    dynamic_db: RouteTrie,
    static_index: FxHashMap<String, usize>,
    static_db: Vec<(String, Vec<Handler>)>,
    locations_db: Vec<Location>,
    path_parser: PathParser,
    ignore_trailing_slashes: bool,
}

impl View for SquallRouter {
    type V = RouterView;

    closed spec fn view(&self) -> RouterView {
        RouterView {
            statics: Map::new(
                |k: Seq<char>| fx_entries(self.static_index).contains_key(k),
                |k: Seq<char>| handlers_view(self.static_db@[fx_entries(self.static_index)[k] as int].1@),
            ),
            dynamics: self.dynamic_db@,
            locations: self.locations_db@.map_values(
                |l: Location| (l.prefix@, handlers_view(l.handlers@)),
            ),
            validators: self.path_parser@,
            ignore_trailing_slashes: self.ignore_trailing_slashes,
        }
    }
}


/// `s` as the router handles it: see `route_text`.
fn route_text_of(ignore_trailing_slashes: bool, s: String) -> (r: String)
    ensures
        r@ == route_text(ignore_trailing_slashes, s@),
{
    if ignore_trailing_slashes {
        let chars = chars_of(s.as_str());
        if chars.len() > 0 && chars[chars.len() - 1] == '/' {
            let ascii = s.as_str().is_ascii();
            let r = slice_chars(s.as_str(), ascii, 0, chars.len() - 1).to_owned();
            assert(r@ =~= s@.drop_last());
            return r;
        }
    }
    s
}

/// No stored segment is the dynamic marker `*`.
fn all_literal(octets: &Vec<String>) -> (r: bool)
    ensures
        r == forall|i: int| 0 <= i < octets.len() ==> (#[trigger] octets@[i])@ != seq!['*'],
{
    proof {
        reveal_strlit("*");
    }
    let star = "*".to_owned();
    assert(star@ =~= seq!['*']);
    let mut i: usize = 0;
    while i < octets.len()
        invariant
            i <= octets.len(),
            star@ == seq!['*'],
            forall|j: int| 0 <= j < i ==> (#[trigger] octets@[j])@ != seq!['*'],
        decreases octets.len() - i,
    {
        if octets[i] == star {
            return false;
        }
        i += 1;
    }
    true
}

/// `a` is a prefix of `b`.
fn is_prefix_exec(a: &Vec<char>, b: &Vec<char>) -> (r: bool)
    ensures
        r == a@.is_prefix_of(b@),
{
    if a.len() > b.len() {
        return false;
    }
    let mut i: usize = 0;
    while i < a.len()
        invariant
            i <= a.len() <= b.len(),
            forall|j: int| 0 <= j < i ==> a@[j] == b@[j],
        decreases a.len() - i,
    {
        if a[i] != b[i] {
            assert(a@[i as int] != b@.subrange(0, a.len() as int)[i as int]);
            return false;
        }
        i += 1;
    }
    assert(a@ =~= b@.subrange(0, a.len() as int));
    true
}

proof fn lemma_slot(locs: Seq<(Seq<char>, Seq<HandlerView>)>, key: Seq<char>, pos: int)
    requires
        0 <= pos <= locs.len(),
        forall|j: int| 0 <= j < pos ==> lex_greater(#[trigger] locs[j].0, key),
        pos == locs.len() || !lex_greater(locs[pos].0, key),
    ensures
        location_slot(locs, key) == pos,
    decreases pos,
{
    if pos > 0 {
        let rest = locs.drop_first();
        assert forall|j: int| 0 <= j < pos - 1 implies lex_greater(#[trigger] rest[j].0, key) by {
            assert(rest[j] == locs[j + 1]);
        }
        if pos - 1 < rest.len() {
            assert(rest[pos - 1] == locs[pos]);
        }
        lemma_slot(rest, key, pos - 1);
    }
}

impl SquallRouter {
    /// The number of dynamic tiers, one per segment count from zero up to the
    /// largest that a dynamic route has.
    pub closed spec fn tier_count(&self) -> nat {
        self.dynamic_db.tiers()
    }

    /// The router's internal invariant.
    pub closed spec fn wf(&self) -> bool {
        &&& self.dynamic_db.wf()
        &&& forall|k: Seq<char>|
            #[trigger] fx_entries(self.static_index).contains_key(k) ==> fx_entries(self.static_index)[k]
                < self.static_db.len() && self.static_db@[fx_entries(self.static_index)[k] as int].0@ == k
        &&& forall|i: int|
            0 <= i < self.locations_db.len() ==> (#[trigger] self.locations_db@[i]).prefix_chars@
                == self.locations_db@[i].prefix@
        &&& locations_sorted(self@.locations)
    }

    /// A router with no route, no validator, and trailing slashes significant.
    pub fn new() -> (r: Self)
        ensures
            r.wf(),
            r@.statics == Map::<Seq<char>, Seq<HandlerView>>::empty(),
            r@.dynamics == Seq::<(Seq<SegmentKey>, HandlerView)>::empty(),
            r@.locations == Seq::<(Seq<char>, Seq<HandlerView>)>::empty(),
            r@.validators == Map::<Seq<char>, Seq<char>>::empty(),
            !r@.ignore_trailing_slashes,
            locations_sorted(r@.locations),
            r.tier_count() == 0,
    {
        let r = SquallRouter {
            dynamic_db: RouteTrie::new(),
            static_index: fx_new(),
            static_db: Vec::new(),
            locations_db: Vec::new(),
            path_parser: PathParser::new(),
            ignore_trailing_slashes: false,
        };
        assert(r@.statics =~= Map::<Seq<char>, Seq<HandlerView>>::empty());
        assert(r@.locations =~= Seq::<(Seq<char>, Seq<HandlerView>)>::empty());
        r
    }

    /// From now on one trailing `/` is dropped from every pattern registered
    /// and every path resolved.
    pub fn set_ignore_trailing_slashes(&mut self)
        requires
            old(self).wf(),
        ensures
            final(self).wf(),
            final(self)@ == (RouterView { ignore_trailing_slashes: true, ..old(self)@ }),
            locations_sorted(final(self)@.locations),
            final(self).tier_count() == old(self).tier_count(),
    {
        self.ignore_trailing_slashes = true;
    }

    /// Compiles `regex` and registers it as validator `alias`, replacing an
    /// earlier one of that alias.
    pub fn add_validator(&mut self, alias: String, regex: String) -> (r: Result<(), RouteError>)
        requires
            old(self).wf(),
        ensures
            final(self).wf(),
            r is Ok <==> crate::path::regex_compiles(regex@),
            r is Ok ==> final(self)@ == (RouterView { validators: old(self)@.validators.insert(alias@, regex@), ..old(self)@ }),
            r is Err ==> final(self)@ == old(self)@ && r->Err_0@ == ErrorKind::RegexCompileError,
            locations_sorted(final(self)@.locations),
            final(self).tier_count() == old(self).tier_count(),
    {
        self.path_parser.add_validator(alias, regex)
    }

    /// Appends entry `h` to the static bucket of `key`.
    fn static_insert(&mut self, key: String, h: Handler)
        requires
            old(self).wf(),
        ensures
            final(self).wf(),
            final(self)@ == (RouterView {
                statics: old(self)@.statics.insert(key@, bucket(old(self)@.statics, key@).push(h@)),
                ..old(self)@
            }),
            final(self).tier_count() == old(self).tier_count(),
    {
        let ghost old_view = self@;
        let ghost old_self = *self;
        let ghost hv = h@;
        match fx_get(&self.static_index, key.as_str()) {
            Some(idx) => {
                self.static_db[idx].1.push(h);
                assert forall|k: Seq<char>| #[trigger] fx_entries(self.static_index).contains_key(k) implies
                    fx_entries(self.static_index)[k] < self.static_db.len()
                    && self.static_db@[fx_entries(self.static_index)[k] as int].0@ == k by {
                    assert(old_self.static_db@[fx_entries(self.static_index)[k] as int].0@ == k);
                }
                assert(self@.statics =~= old_view.statics.insert(key@, bucket(old_view.statics, key@).push(hv))) by {
                    assert forall|k: Seq<char>| #[trigger] self@.statics.contains_key(k) implies self@.statics[k]
                        == old_view.statics.insert(key@, bucket(old_view.statics, key@).push(hv))[k] by {
                        let i = fx_entries(self.static_index)[k] as int;
                        if k == key@ {
                            assert(handlers_view(self.static_db@[i].1@) =~= handlers_view(old_self.static_db@[i].1@).push(hv));
                        } else {
                            assert(old_self.static_db@[i].0@ == k);
                            assert(i != idx);
                            assert(self.static_db@[i] == old_self.static_db@[i]);
                        }
                    }
                }
            },
            None => {
                let idx = self.static_db.len();
                let mut hs: Vec<Handler> = Vec::new();
                hs.push(h);
                self.static_db.push((key.clone(), hs));
                fx_insert(&mut self.static_index, key, idx);
                assert forall|k: Seq<char>| #[trigger] fx_entries(self.static_index).contains_key(k) implies
                    fx_entries(self.static_index)[k] < self.static_db.len()
                    && self.static_db@[fx_entries(self.static_index)[k] as int].0@ == k by {
                    if k != key@ {
                        assert(fx_entries(old_self.static_index).contains_key(k));
                        assert(old_self.static_db@[fx_entries(self.static_index)[k] as int].0@ == k);
                    }
                }
                assert(self@.statics =~= old_view.statics.insert(key@, bucket(old_view.statics, key@).push(hv))) by {
                    assert forall|k: Seq<char>| #[trigger] self@.statics.contains_key(k) implies self@.statics[k]
                        == old_view.statics.insert(key@, bucket(old_view.statics, key@).push(hv))[k] by {
                        let i = fx_entries(self.static_index)[k] as int;
                        if k == key@ {
                            assert(handlers_view(self.static_db@[i].1@) =~= seq![hv]);
                        } else {
                            assert(fx_entries(old_self.static_index).contains_key(k));
                            assert(self.static_db@[i] == old_self.static_db@[i]);
                        }
                    }
                }
            },
        }
        assert(self@.locations == old_view.locations);
    }

    /// Adds entry `h` under location prefix `key`, keeping the prefixes in
    /// descending order.
    fn location_insert(&mut self, key: String, h: Handler)
        requires
            old(self).wf(),
        ensures
            final(self).wf(),
            final(self)@ == (RouterView { locations: add_to_locations(old(self)@.locations, key@, h@), ..old(self)@ }),
            final(self).tier_count() == old(self).tier_count(),
    {
        let ghost old_view = self@;
        let ghost old_self = *self;
        let ghost locs = old_view.locations;
        let ghost hv = h@;
        let key_chars = chars_of(key.as_str());
        let mut pos: usize = 0;
        while pos < self.locations_db.len() && lex_greater_exec(&self.locations_db[pos].prefix_chars, &key_chars)
            invariant
                *self == old_self,
                locs == self@.locations,
                self.wf(),
                key_chars@ == key@,
                pos <= self.locations_db.len(),
                forall|j: int| 0 <= j < pos ==> lex_greater(#[trigger] locs[j].0, key@),
            decreases self.locations_db.len() - pos,
        {
            pos += 1;
        }
        assert(locs.len() == self.locations_db.len());
        assert(pos < locs.len() ==> locs[pos as int].0 == self.locations_db@[pos as int].prefix@);
        proof {
            lemma_slot(locs, key@, pos as int);
        }
        if pos < self.locations_db.len() && self.locations_db[pos].prefix == key {
            self.locations_db[pos].handlers.push(h);
            assert(self@.locations =~= locs.update(pos as int, (key@, locs[pos as int].1.push(hv)))) by {
                assert(handlers_view(self.locations_db@[pos as int].handlers@) =~= handlers_view(old_self.locations_db@[pos as int].handlers@).push(hv));
            }
            assert(locations_sorted(self@.locations)) by {
                assert forall|i: int, j: int| 0 <= i < j < self@.locations.len() implies lex_greater(
                    #[trigger] self@.locations[i].0,
                    #[trigger] self@.locations[j].0,
                ) by {
                    assert(self@.locations[i].0 == locs[i].0);
                    assert(self@.locations[j].0 == locs[j].0);
                }
            }
        } else {
            // `key` comes after every prefix from `pos` on
            assert forall|j: int| pos <= j < locs.len() implies lex_greater(key@, #[trigger] locs[j].0) by {
                assert(locs[pos as int].0 != key@);
                assert(!lex_greater(locs[pos as int].0, key@));
                lemma_lex_total(locs[pos as int].0, key@);
                if j > pos {
                    lemma_lex_transitive(key@, locs[pos as int].0, locs[j].0);
                }
            }
            let mut hs: Vec<Handler> = Vec::new();
            hs.push(h);
            self.locations_db.insert(pos, Location { prefix: key, prefix_chars: key_chars, handlers: hs });
            let ghost fresh = (key@, seq![hv]);
            assert(self@.locations =~= locs.insert(pos as int, fresh)) by {
                assert(handlers_view(self.locations_db@[pos as int].handlers@) =~= seq![hv]);
            }
            assert forall|i: int| 0 <= i < self.locations_db.len() implies (#[trigger] self.locations_db@[i]).prefix_chars@
                == self.locations_db@[i].prefix@ by {
                if i < pos {
                    assert(self.locations_db@[i] == old_self.locations_db@[i]);
                } else if i > pos {
                    assert(self.locations_db@[i] == old_self.locations_db@[i - 1]);
                }
            }
            assert(locations_sorted(self@.locations)) by {
                let nl = self@.locations;
                assert forall|i: int, j: int| 0 <= i < j < nl.len() implies lex_greater(#[trigger] nl[i].0, #[trigger] nl[j].0) by {
                    if j < pos {
                        assert(nl[i] == locs[i] && nl[j] == locs[j]);
                    } else if j == pos {
                        assert(nl[i] == locs[i]);
                    } else if i == pos {
                        assert(nl[j] == locs[j - 1]);
                    } else if i < pos {
                        assert(nl[i] == locs[i] && nl[j] == locs[j - 1]);
                    } else {
                        assert(nl[i] == locs[i - 1] && nl[j] == locs[j - 1]);
                    }
                }
            }
        }
    }

    /// Registers `handler` for `method` on a route pattern: in the static
    /// table when no segment is dynamic, else in the dynamic tier of its
    /// segment count. A pattern that does not parse is refused with why.
    pub fn add_route(&mut self, method: String, path: String, handler: i32) -> (r: Result<(), RouteError>)
        requires
            old(self).wf(),
        ensures
            final(self).wf(),
            final(self)@ == add_route_effect(old(self)@, method@, path@, handler).0,
            match add_route_effect(old(self)@, method@, path@, handler).1 {
                Ok(_) => r is Ok,
                Err(e) => r is Err && r->Err_0@ == e,
            },
            locations_sorted(final(self)@.locations),
            final(self).tier_count() == tiers_after_route(old(self).tier_count(), old(self)@, path@),
    {
        let ghost old_view = self@;
        let key = route_text_of(self.ignore_trailing_slashes, path);
        let ghost pr = parse_pattern(self.path_parser@, key@);
        let (h, octets) = match self.path_parser.parse(key.as_str()) {
            Err(e) => {
                return Err(e);
            },
            Ok(parsed) => {
                let ghost pv = pr->Ok_0;
                let h = handler_from(&parsed, method, handler, Ghost(pv));
                proof {
                    assert(keys_of(parsed.octets@) =~= pattern_keys(pv)) by {
                        assert(parsed.octets@.map_values(|s: String| s@) == pv.octets);
                        assert forall|i: int| 0 <= i < parsed.octets@.len() implies keys_of(parsed.octets@)[i]
                            == pattern_keys(pv)[i] by {
                            assert(parsed.octets@.map_values(|s: String| s@)[i] == pv.octets[i]);
                        }
                    }
                    assert((forall|i: int| 0 <= i < parsed.octets.len() ==> (#[trigger] parsed.octets@[i])@ != seq!['*'])
                        <==> is_static_pattern(pv)) by {
                        assert forall|i: int| 0 <= i < parsed.octets.len() implies (#[trigger] parsed.octets@[i])@ == pv.octets[i] by {
                            assert(parsed.octets@.map_values(|s: String| s@)[i] == pv.octets[i]);
                        }
                    }
                }
                (h, parsed.octets)
            },
        };
        let ghost pv = pr->Ok_0;
        if all_literal(&octets) {
            self.static_insert(key, h);
        } else {
            self.dynamic_db.insert(&octets, h);
            assert(self@ == (RouterView { dynamics: old_view.dynamics.push((pattern_keys(pv), h@)), ..old_view }));
        }
        Ok(())
    }

    /// Registers `handler` for `method` on a location prefix. A prefix that
    /// does not parse is dropped silently.
    pub fn add_location(&mut self, method: String, path: String, handler: i32)
        requires
            old(self).wf(),
        ensures
            final(self).wf(),
            final(self)@ == add_location_effect(old(self)@, method@, path@, handler),
            locations_sorted(final(self)@.locations),
            final(self).tier_count() == old(self).tier_count(),
    {
        let key = route_text_of(self.ignore_trailing_slashes, path);
        let ghost pr = parse_pattern(self.path_parser@, key@);
        let h = match self.path_parser.parse(key.as_str()) {
            Err(_) => {
                return;
            },
            Ok(parsed) => handler_from(&parsed, method, handler, Ghost(pr->Ok_0)),
        };
        self.location_insert(key, h);
    }

    /// The first location, in the kept order, whose prefix starts `p` and
    /// that has an entry for `method`.
    fn find_location(&self, method: &String, p: &Vec<char>) -> (r: Option<i32>)
        requires
            self.wf(),
        ensures
            r == location_match(self@.locations, method@, p@),
    {
        let ghost locs = self@.locations;
        let mut i: usize = 0;
        assert(locs.subrange(0, locs.len() as int) =~= locs);
        while i < self.locations_db.len()
            invariant
                self.wf(),
                locs == self@.locations,
                i <= self.locations_db.len(),
                location_match(locs, method@, p@) == location_match(locs.subrange(i as int, locs.len() as int), method@, p@),
            decreases self.locations_db.len() - i,
        {
            let loc = &self.locations_db[i];
            assert(locs.subrange(i as int, locs.len() as int).drop_first() =~= locs.subrange(i + 1, locs.len() as int));
            assert(locs.subrange(i as int, locs.len() as int)[0] == (loc.prefix@, handlers_view(loc.handlers@)));
            if is_prefix_exec(&loc.prefix_chars, p) {
                match find_with_method(&loc.handlers, method) {
                    Some(h) => {
                        return Some(h);
                    },
                    None => {},
                }
            }
            i += 1;
        }
        None
    }

    /// Resolves `method` on a request `path`: the static table first, then
    /// the dynamic tier of the path's segment count, then the locations. The
    /// parameters come back as (name, value) pairs, values sliced from `path`.
    pub fn resolve<'a>(&'a self, method: &str, path: &'a str) -> (r: Option<(i32, Vec<(&'a str, &'a str)>)>)
        requires
            self.wf(),
        ensures
            result_view(r) == resolve_route(self@, method@, path@),
    {
        let m = method.to_owned();
        let all = chars_of(path);
        let full_ascii = path.is_ascii();
        let len = if self.ignore_trailing_slashes && all.len() > 0 && all[all.len() - 1] == '/' {
            all.len() - 1
        } else {
            all.len()
        };
        let p = slice_chars(path, full_ascii, 0, len);
        assert(p@ =~= route_text(self@.ignore_trailing_slashes, path@));
        let ghost rv = self@;
        // static tier
        match fx_get(&self.static_index, p) {
            Some(idx) => {
                assert(rv.statics.contains_key(p@));
                match find_with_method(&self.static_db[idx].1, &m) {
                    Some(h) => {
                        let none: Vec<(&'a str, &'a str)> = Vec::new();
                        assert(pairs_view(none@) =~= Seq::<(Seq<char>, Seq<char>)>::empty());
                        return Some((h, none));
                    },
                    None => {},
                }
            },
            None => {},
        }
        assert(static_match(rv, m@, p@) is None);
        // dynamic tier
        let pchars = chars_of(p);
        if len > 0 && pchars[0] == '/' {
            let depth = count_separators(p);
            proof {
                lemma_pieces_len(p@);
                assert(p@[0] == pchars@[0]);
                lemma_count_leading(p@);
            }
            if depth < self.dynamic_db.tier_count() {
                let ascii = p.is_ascii();
                let ranges = split_ranges(&pchars, 0, len, true);
                assert(pchars@.subrange(0, len as int) =~= p@);
                assert(range_views(p@, ranges@) == pieces(p@));
                match self.dynamic_db.lookup(&m, p, ascii, &ranges) {
                    Some(x) => {
                        return Some(x);
                    },
                    None => {},
                }
            } else {
                let ghost segs = request_segments(p@);
                assert(walk_keys(rv.dynamics, segs.len(), Seq::empty(), segs) is None) by {
                    let q = Seq::<SegmentKey>::empty();
                    assert(!has_prefix(rv.dynamics, segs.len(), q.push(SegmentKey::Lit(segs[0])))) by {
                        if has_prefix(rv.dynamics, segs.len(), q.push(SegmentKey::Lit(segs[0]))) {
                            let j = choose|j: int| 0 <= j < rv.dynamics.len() && (#[trigger] rv.dynamics[j]).0.len() == segs.len()
                                && q.push(SegmentKey::Lit(segs[0])).is_prefix_of(rv.dynamics[j].0);
                        }
                    }
                    assert(!has_prefix(rv.dynamics, segs.len(), q.push(SegmentKey::Wild))) by {
                        if has_prefix(rv.dynamics, segs.len(), q.push(SegmentKey::Wild)) {
                            let j = choose|j: int| 0 <= j < rv.dynamics.len() && (#[trigger] rv.dynamics[j]).0.len() == segs.len()
                                && q.push(SegmentKey::Wild).is_prefix_of(rv.dynamics[j].0);
                        }
                    }
                }
            }
        }
        assert(dynamic_tier(rv, m@, p@) is None);
        // location tier
        match self.find_location(&m, &pchars) {
            Some(h) => {
                let none: Vec<(&'a str, &'a str)> = Vec::new();
                assert(pairs_view(none@) =~= Seq::<(Seq<char>, Seq<char>)>::empty());
                Some((h, none))
            },
            None => None,
        }
    }
}

} // verus!
