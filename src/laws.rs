//! Properties of registration and resolution, stated over the router's view.
use vstd::prelude::*;
use crate::handler::{bind_params, first_binding, first_with_method, param_accepts, HandlerView};
use crate::path::{
    collect_params, is_dynamic_segment, is_ident, is_ident_char, is_name_alias_split,
    is_partial_segment, is_valid_pattern, lemma_collect_err_stays, normalize, param_decl, parse_pattern, regex_matches, ErrorKind,
};
use crate::router::{
    add_location_effect, add_route_effect, bucket, is_static_pattern, location_match, resolve_route,
    route_text, static_match, RouterView,
};
use crate::text::{segments, strip_last};
use crate::trie::{handlers_at, has_prefix, lemma_handlers_at_none, walk_keys, SegmentKey};
use crate::path::PatternView;
use crate::router::{pattern_keys, request_segments};

verus! {

proof fn lemma_first_with_method_push(hs: Seq<HandlerView>, e: HandlerView, method: Seq<char>)
    ensures
        first_with_method(hs.push(e), method) == (match first_with_method(hs, method) {
            Some(h) => Some(h),
            None => if e.method == method {
                Some(e.handler)
            } else {
                None
            },
        }),
    decreases hs.len(),
{
    if hs.len() > 0 {
        assert(hs.push(e).drop_first() =~= hs.drop_first().push(e));
        assert(hs.push(e)[0] == hs[0]);
        lemma_first_with_method_push(hs.drop_first(), e, method);
    } else {
        assert(hs.push(e).drop_first() =~= Seq::<HandlerView>::empty());
        assert(hs.push(e)[0] == e);
        assert(first_with_method(hs.push(e).drop_first(), method) is None);
    }
}

/// A route whose segments are all literal is answered by the static tier,
/// with no parameters: the first entry registered for that method on that
/// text, which is the new one when there was none before.
pub proof fn law_static_route_resolves(rv: RouterView, method: Seq<char>, pattern: Seq<char>, handler: i32)
    requires
        parse_pattern(rv.validators, route_text(rv.ignore_trailing_slashes, pattern)) is Ok,
        is_static_pattern(parse_pattern(rv.validators, route_text(rv.ignore_trailing_slashes, pattern))->Ok_0),
    ensures
        ({
            let key = route_text(rv.ignore_trailing_slashes, pattern);
            let rv2 = add_route_effect(rv, method, pattern, handler).0;
            resolve_route(rv2, method, pattern) == Some(
                (
                    match first_with_method(bucket(rv.statics, key), method) {
                        Some(h) => h,
                        None => handler,
                    },
                    Seq::<(Seq<char>, Seq<char>)>::empty(),
                ),
            )
        }),
{
    let key = route_text(rv.ignore_trailing_slashes, pattern);
    let pv = parse_pattern(rv.validators, key)->Ok_0;
    let e = HandlerView { handler, method, params: pv.params };
    lemma_first_with_method_push(bucket(rv.statics, key), e, method);
}

/// An entry whose validator refuses its segment is passed over: the
/// entries after it are tried as if it were not there.
pub proof fn law_rejected_entry_skipped(
    entry: HandlerView,
    rest: Seq<HandlerView>,
    method: Seq<char>,
    segs: Seq<Seq<char>>,
    k: int,
    pattern: Seq<char>,
)
    requires
        0 <= k < entry.params.len(),
        entry.params[k].validator == Some(pattern),
        0 <= entry.params[k].index < segs.len(),
        !regex_matches(pattern, segs[entry.params[k].index]),
    ensures
        first_binding(seq![entry] + rest, method, segs) == first_binding(rest, method, segs),
{
    assert(!param_accepts(entry.params[k], segs));
    assert(bind_params(entry, segs) is None);
    assert((seq![entry] + rest).drop_first() =~= rest);
}

/// The static tier comes first: when it has an entry for the method on the
/// path, that entry is the answer, whatever the dynamic tier would give.
pub proof fn law_static_precedence(rv: RouterView, method: Seq<char>, path: Seq<char>)
    requires
        static_match(rv, method, route_text(rv.ignore_trailing_slashes, path)) is Some,
    ensures
        resolve_route(rv, method, path) == Some(
            (
                static_match(rv, method, route_text(rv.ignore_trailing_slashes, path))->0,
                Seq::<(Seq<char>, Seq<char>)>::empty(),
            ),
        ),
{
}

/// A pattern whose only fault is a `{name:alias}` with an alias that no
/// validator has is refused by `add_route`, which changes nothing, and is
/// dropped by `add_location`, which changes nothing either.
pub proof fn law_unknown_alias_refused(
    rv: RouterView,
    method: Seq<char>,
    pattern: Seq<char>,
    handler: i32,
    i: int,
)
    requires
        ({
            let key = route_text(rv.ignore_trailing_slashes, pattern);
            let segs = segments(normalize(key));
            &&& is_valid_pattern(key)
            &&& forall|j: int| 0 <= j < segs.len() ==> !is_partial_segment(#[trigger] segs[j])
            &&& 0 <= i < segs.len()
            &&& param_decl(segs[i]) matches Some((_, Some(alias))) && !(alias =~= seq!['s', 't', 'r'])
                && !rv.validators.contains_key(alias)
        }),
    ensures
        add_route_effect(rv, method, pattern, handler).0 == rv,
        add_route_effect(rv, method, pattern, handler).1 matches Err(ErrorKind::UnknownValidatorAlias(_)),
        add_location_effect(rv, method, pattern, handler) == rv,
{
    let key = route_text(rv.ignore_trailing_slashes, pattern);
    let segs = segments(normalize(key));
    assert(collect_params(rv.validators, segs, i + 1) is Err);
    lemma_collect_err_stays(rv.validators, segs, i + 1, segs.len() as int);
    assert(!exists|j: int| 0 <= j < segs.len() && is_partial_segment(#[trigger] segs[j]));
}

/// In trailing-slash-insensitive mode a path, or a pattern, with one
/// trailing `/` added is handled as the same text without it.
pub proof fn law_trailing_slash_ignored(rv: RouterView, method: Seq<char>, path: Seq<char>, handler: i32)
    requires
        rv.ignore_trailing_slashes,
        path.len() == 0 || path.last() != '/',
    ensures
        resolve_route(rv, method, path.push('/')) == resolve_route(rv, method, path),
        add_route_effect(rv, method, path.push('/'), handler) == add_route_effect(rv, method, path, handler),
{
    assert(strip_last(path.push('/'), '/') =~= path);
    assert(strip_last(path, '/') == path);
}


proof fn lemma_param_indices(registry: Map<Seq<char>, Seq<char>>, segs: Seq<Seq<char>>, n: int)
    requires
        0 <= n,
        collect_params(registry, segs, n) is Ok,
    ensures
        forall|k: int|
            0 <= k < collect_params(registry, segs, n)->Ok_0.len() ==> 0 <= (
            #[trigger] collect_params(registry, segs, n)->Ok_0[k]).index < n && param_decl(
                segs[collect_params(registry, segs, n)->Ok_0[k].index],
            ) is Some,
    decreases n,
{
    if n > 0 {
        lemma_param_indices(registry, segs, n - 1);
    }
}

proof fn lemma_decl_is_dynamic(seg: Seq<char>)
    requires
        param_decl(seg) is Some,
    ensures
        is_dynamic_segment(seg),
{
    let inner = seg.subrange(1, seg.len() - 1);
    assert forall|j: int| 0 < j < seg.len() - 1 implies #[trigger] seg[j] != '}' by {
        assert(seg[j] == inner[j - 1]);
        if is_ident(inner) {
            if j - 1 > 0 {
                assert(is_ident_char(inner[j - 1]));
            }
        } else {
            let k = choose|k: int| is_name_alias_split(inner, k);
            if j - 1 < k {
                let name = inner.subrange(0, k);
                assert(name[j - 1] == inner[j - 1]);
                if j - 1 > 0 {
                    assert(is_ident_char(name[j - 1]));
                }
            } else if j - 1 > k {
                let alias = inner.subrange(k + 1, inner.len() as int);
                assert(alias[j - 1 - (k + 1)] == inner[j - 1]);
                if j - 1 - (k + 1) > 0 {
                    assert(is_ident_char(alias[j - 1 - (k + 1)]));
                }
            }
        }
    }
}

/// The pattern that `pattern` parses to in `rv`.
pub open spec fn parsed_pattern(rv: RouterView, pattern: Seq<char>) -> PatternView {
    parse_pattern(rv.validators, route_text(rv.ignore_trailing_slashes, pattern))->Ok_0
}

/// The request segments fit the pattern's segments: equal to each literal,
/// non-empty for each dynamic one.
pub open spec fn segments_fit(octets: Seq<Seq<char>>, segs: Seq<Seq<char>>) -> bool {
    &&& segs.len() == octets.len()
    &&& forall|i: int|
        0 <= i < octets.len() ==> if #[trigger] octets[i] == seq!['*'] {
            segs[i].len() > 0
        } else {
            segs[i] == octets[i]
        }
}

proof fn lemma_walk_single(
    regs: Seq<(Seq<SegmentKey>, HandlerView)>,
    keys: Seq<SegmentKey>,
    octets: Seq<Seq<char>>,
    segs: Seq<Seq<char>>,
    i: int,
)
    requires
        keys == octets.map_values(|o: Seq<char>| crate::trie::key_of_octet(o)),
        segments_fit(octets, segs),
        0 <= i <= keys.len(),
        forall|j: int| 0 <= j < regs.len() - 1 ==> (#[trigger] regs[j]).0.len() != keys.len(),
        regs.len() > 0,
        regs.last().0 == keys,
    ensures
        walk_keys(regs, keys.len(), keys.take(i), segs.subrange(i, segs.len() as int)) == Some(keys),
    decreases keys.len() - i,
{
    let d = keys.len();
    let q = keys.take(i);
    let rest = segs.subrange(i, segs.len() as int);
    if i == d {
        assert(q =~= keys);
        assert(rest.len() == 0);
    } else {
        assert(rest[0] == segs[i]);
        assert(rest.drop_first() =~= segs.subrange(i + 1, segs.len() as int));
        assert(q.push(keys[i]) =~= keys.take(i + 1));
        let last = regs.len() - 1;
        assert(regs[last] == regs.last());
        // among patterns of `d` segments only `keys` remains
        assert forall|x: SegmentKey| has_prefix(regs, d, #[trigger] q.push(x)) <==> x == keys[i] by {
            if has_prefix(regs, d, q.push(x)) {
                let j = choose|j: int| 0 <= j < regs.len() && (#[trigger] regs[j]).0.len() == d
                    && q.push(x).is_prefix_of(regs[j].0);
                assert(j == last);
                assert(q.push(x)[i] == x);
                assert(q.push(x) =~= keys.subrange(0, i + 1));
            }
            if x == keys[i] {
                assert(q.push(x).is_prefix_of(regs[last].0)) by {
                    assert(q.push(x) =~= keys.subrange(0, i + 1));
                }
            }
        }
        lemma_walk_single(regs, keys, octets, segs, i + 1);
        if octets[i] == seq!['*'] {
            assert(keys[i] == SegmentKey::Wild);
            assert(!has_prefix(regs, d, q.push(SegmentKey::Lit(segs[i]))));
            assert(has_prefix(regs, d, q.push(SegmentKey::Wild)));
        } else {
            assert(keys[i] == SegmentKey::Lit(segs[i]));
            assert(has_prefix(regs, d, q.push(SegmentKey::Lit(segs[i]))));
        }
    }
}

/// A route with dynamic segments and no validators answers every path whose
/// segments fit it, binding each parameter to its segment, provided no
/// static entry for the method takes the path first and no other dynamic
/// pattern has as many segments.
pub proof fn law_dynamic_route_binds(
    rv: RouterView,
    method: Seq<char>,
    pattern: Seq<char>,
    handler: i32,
    path: Seq<char>,
)
    requires
        parse_pattern(rv.validators, route_text(rv.ignore_trailing_slashes, pattern)) is Ok,
        !is_static_pattern(parsed_pattern(rv, pattern)),
        forall|k: int|
            0 <= k < parsed_pattern(rv, pattern).params.len() ==> (#[trigger] parsed_pattern(
                rv,
                pattern,
            ).params[k]).validator is None,
        forall|j: int|
            0 <= j < rv.dynamics.len() ==> (#[trigger] rv.dynamics[j]).0.len() != parsed_pattern(
                rv,
                pattern,
            ).octets.len(),
        route_text(rv.ignore_trailing_slashes, path).len() > 0,
        route_text(rv.ignore_trailing_slashes, path)[0] == '/',
        static_match(rv, method, route_text(rv.ignore_trailing_slashes, path)) is None,
        segments_fit(
            parsed_pattern(rv, pattern).octets,
            request_segments(route_text(rv.ignore_trailing_slashes, path)),
        ),
    ensures
        ({
            let pv = parsed_pattern(rv, pattern);
            let segs = request_segments(route_text(rv.ignore_trailing_slashes, path));
            resolve_route(add_route_effect(rv, method, pattern, handler).0, method, path) == Some(
                (handler, Seq::new(pv.params.len(), |k: int| (pv.params[k].name, segs[pv.params[k].index]))),
            )
        }),
{
    let pv = parsed_pattern(rv, pattern);
    let key = route_text(rv.ignore_trailing_slashes, pattern);
    let p = route_text(rv.ignore_trailing_slashes, path);
    let segs = request_segments(p);
    let keys = pattern_keys(pv);
    let e = HandlerView { handler, method, params: pv.params };
    let rv2 = add_route_effect(rv, method, pattern, handler).0;
    let regs = rv2.dynamics;
    let d = keys.len();
    assert(regs == rv.dynamics.push((keys, e)));
    assert forall|j: int| 0 <= j < regs.len() - 1 implies (#[trigger] regs[j]).0.len() != keys.len() by {
        assert(regs[j] == rv.dynamics[j]);
    }
    lemma_walk_single(regs, keys, pv.octets, segs, 0);
    assert(keys.take(0) =~= Seq::<SegmentKey>::empty());
    assert(segs.subrange(0, segs.len() as int) =~= segs);
    assert(regs.drop_last() =~= rv.dynamics);
    lemma_handlers_at_none(rv.dynamics, d, keys);
    assert(handlers_at(regs, d, keys) =~= seq![e]);
    // every parameter indexes a segment
    let nsegs = segments(normalize(key));
    lemma_param_indices(rv.validators, nsegs, nsegs.len() as int);
    assert(bind_params(e, segs) is Some) by {
        assert forall|k: int| 0 <= k < e.params.len() implies param_accepts(#[trigger] e.params[k], segs) by {
            assert(pv.params[k].validator is None);
            let idx = pv.params[k].index;
            lemma_decl_is_dynamic(nsegs[idx]);
            assert(pv.octets[idx] == crate::path::octet_of(nsegs[idx]));
        }
    }
    assert(seq![e].drop_first() =~= Seq::<HandlerView>::empty());
    assert(first_binding(seq![e], method, segs) == Some((handler, bind_params(e, segs)->0)));
}


proof fn lemma_first_binding_after_misses(
    before: Seq<HandlerView>,
    rest: Seq<HandlerView>,
    method: Seq<char>,
    segs: Seq<Seq<char>>,
)
    requires
        first_binding(before, method, segs) is None,
    ensures
        first_binding(before + rest, method, segs) == first_binding(rest, method, segs),
    decreases before.len(),
{
    if before.len() > 0 {
        assert((before + rest)[0] == before[0]);
        assert((before + rest).drop_first() =~= before.drop_first() + rest);
        lemma_first_binding_after_misses(before.drop_first(), rest, method, segs);
    } else {
        assert(before + rest =~= rest);
    }
}

/// When a request reaches, in the dynamic tier, an entry whose validator
/// refuses its segment, and no entry before it answers, resolution goes on
/// with the entries after it, and failing those with the locations; it never
/// stops at the refused entry.
pub proof fn law_rejected_route_falls_through(
    rv: RouterView,
    method: Seq<char>,
    path: Seq<char>,
    keys: Seq<SegmentKey>,
    before: Seq<HandlerView>,
    entry: HandlerView,
    after: Seq<HandlerView>,
    k: int,
    pattern: Seq<char>,
)
    requires
        ({
            let p = route_text(rv.ignore_trailing_slashes, path);
            let segs = request_segments(p);
            &&& p.len() > 0 && p[0] == '/'
            &&& static_match(rv, method, p) is None
            &&& walk_keys(rv.dynamics, segs.len(), Seq::empty(), segs) == Some(keys)
            &&& handlers_at(rv.dynamics, segs.len(), keys) == before + seq![entry] + after
            &&& first_binding(before, method, segs) is None
            &&& 0 <= k < entry.params.len()
            &&& entry.params[k].validator == Some(pattern)
            &&& 0 <= entry.params[k].index < segs.len()
            &&& !regex_matches(pattern, segs[entry.params[k].index])
        }),
    ensures
        ({
            let p = route_text(rv.ignore_trailing_slashes, path);
            let segs = request_segments(p);
            resolve_route(rv, method, path) == match first_binding(after, method, segs) {
                Some(x) => Some(x),
                None => match location_match(rv.locations, method, p) {
                    Some(h) => Some((h, Seq::<(Seq<char>, Seq<char>)>::empty())),
                    None => None,
                },
            }
        }),
{
    let p = route_text(rv.ignore_trailing_slashes, path);
    let segs = request_segments(p);
    assert(before + seq![entry] + after =~= before + (seq![entry] + after));
    lemma_first_binding_after_misses(before, seq![entry] + after, method, segs);
    law_rejected_entry_skipped(entry, after, method, segs, k, pattern);
}

} // verus!
