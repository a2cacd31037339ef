//! Handler entries: what a registration stores, and how an entry binds the
//! segments of a request path.
use vstd::prelude::*;
use crate::path::{regex_matches, validator_view, ParamView, Path, PatternView, Validator};
use crate::text::{range_views, slice_chars};

verus! {

broadcast use vstd::string::group_string_axioms;

/// A parameter as a handler entry keeps it.
pub struct RouteParam {
    pub name: String,
    pub index: usize,
    pub validator: Option<Validator>,
}

impl View for RouteParam {
    type V = ParamView;

    open spec fn view(&self) -> ParamView {
        ParamView { name: self.name@, index: self.index as int, validator: validator_view(self.validator) }
    }
}

/// What one registration stores: the caller's handler id, the method it
/// serves, and the pattern's parameters.
pub struct Handler {
    pub handler: i32,
    pub method: String,
    pub params: Vec<RouteParam>,
}

/// A handler entry in the terms of the contracts.
pub struct HandlerView {
    pub handler: i32,
    pub method: Seq<char>,
    pub params: Seq<ParamView>,
}

impl View for Handler {
    type V = HandlerView;

    open spec fn view(&self) -> HandlerView {
        HandlerView {
            handler: self.handler,
            method: self.method@,
            params: self.params@.map_values(|p: RouteParam| p@),
        }
    }
}

pub open spec fn handlers_view(hs: Seq<Handler>) -> Seq<HandlerView> {
    hs.map_values(|h: Handler| h@)
}

/// The name/value pairs, as text.
pub open spec fn pairs_view(v: Seq<(&str, &str)>) -> Seq<(Seq<char>, Seq<char>)> {
    v.map_values(|x: (&str, &str)| (x.0@, x.1@))
}

/// The handler id of the first entry in `hs` that serves `method`.
pub open spec fn first_with_method(hs: Seq<HandlerView>, method: Seq<char>) -> Option<i32>
    decreases hs.len(),
{
    if hs.len() == 0 {
        None
    } else if hs[0].method == method {
        Some(hs[0].handler)
    } else {
        first_with_method(hs.drop_first(), method)
    }
}

/// A parameter accepts the request segments when its segment exists and its
/// validator matches that segment, or, without a validator, when the segment
/// is non-empty.
pub open spec fn param_accepts(p: ParamView, segs: Seq<Seq<char>>) -> bool {
    0 <= p.index < segs.len() && match p.validator {
        Some(v) => regex_matches(v, segs[p.index]),
        None => segs[p.index].len() > 0,
    }
}

/// The (name, value) pairs that `h` binds on request segments `segs`, or
/// `None` when a parameter refuses its segment.
pub open spec fn bind_params(h: HandlerView, segs: Seq<Seq<char>>) -> Option<
    Seq<(Seq<char>, Seq<char>)>,
> {
    if forall|k: int| 0 <= k < h.params.len() ==> param_accepts(#[trigger] h.params[k], segs) {
        Some(Seq::new(h.params.len(), |k: int| (h.params[k].name, segs[h.params[k].index])))
    } else {
        None
    }
}

/// The first entry of `hs` that serves `method` and whose parameters accept
/// `segs`: its handler id and bound parameters.
pub open spec fn first_binding(hs: Seq<HandlerView>, method: Seq<char>, segs: Seq<Seq<char>>) -> Option<
    (i32, Seq<(Seq<char>, Seq<char>)>),
>
    decreases hs.len(),
{
    if hs.len() == 0 {
        None
    } else if hs[0].method == method && bind_params(hs[0], segs) is Some {
        Some((hs[0].handler, bind_params(hs[0], segs)->0))
    } else {
        first_binding(hs.drop_first(), method, segs)
    }
}

/// A resolution result in the terms of the contracts.
pub open spec fn result_view(r: Option<(i32, Vec<(&str, &str)>)>) -> Option<(i32, Seq<(Seq<char>, Seq<char>)>)> {
    match r {
        Some(x) => Some((x.0, pairs_view(x.1@))),
        None => None,
    }
}

/// The entry that registering `handler` for `method` on a pattern stores.
pub(crate) fn handler_from(path: &Path, method: String, handler: i32, Ghost(pv): Ghost<PatternView>) -> (r: Handler)
    requires
        path.models(pv),
    ensures
        r@ == (HandlerView { handler, method: method@, params: pv.params }),
{
    let mut params: Vec<RouteParam> = Vec::new();
    let mut k: usize = 0;
    while k < path.params_names.len()
        invariant
            path.models(pv),
            k <= path.params_names.len(),
            params@.map_values(|p: RouteParam| p@) == pv.params.take(k as int),
        decreases path.params_names.len() - k,
    {
        let validator = match &path.params_values[k].validator {
            Some(v) => Some(v.duplicate()),
            None => None,
        };
        let ghost before = params@;
        params.push(RouteParam { name: path.params_names[k].clone(), index: path.params_values[k].index, validator });
        assert(pv.params.take(k + 1) =~= pv.params.take(k as int).push(pv.params[k as int]));
        assert(params@.map_values(|p: RouteParam| p@) =~= before.map_values(|p: RouteParam| p@).push(pv.params[k as int]));
        k += 1;
    }
    assert(pv.params.take(k as int) =~= pv.params);
    let r = Handler { handler, method, params };
    assert(r@.params =~= pv.params);
    r
}

/// The handler id of the first entry of `hs` that serves `method`.
pub(crate) fn find_with_method(hs: &Vec<Handler>, method: &String) -> (r: Option<i32>)
    ensures
        r == first_with_method(handlers_view(hs@), method@),
{
    let ghost hv = handlers_view(hs@);
    let mut j: usize = 0;
    assert(hv.subrange(0, hv.len() as int) =~= hv);
    while j < hs.len()
        invariant
            j <= hs.len(),
            hv == handlers_view(hs@),
            first_with_method(hv, method@) == first_with_method(hv.subrange(j as int, hv.len() as int), method@),
        decreases hs.len() - j,
    {
        assert(hv.subrange(j as int, hv.len() as int).drop_first() =~= hv.subrange(j + 1, hv.len() as int));
        assert(hv.subrange(j as int, hv.len() as int)[0] == hs@[j as int]@);
        if hs[j].method == *method {
            return Some(hs[j].handler);
        }
        j += 1;
    }
    None
}

/// The pairs that `h` binds on the segments picked out of `p` by
/// `ranges[1..]`, or `None` when a parameter refuses its segment.
pub(crate) fn bind<'a>(h: &'a Handler, p: &'a str, ascii: bool, ranges: &Vec<(usize, usize)>) -> (r: Option<Vec<(&'a str, &'a str)>>)
    requires
        ascii == p.is_ascii(),
        ranges.len() >= 1,
        forall|k: int| 0 <= k < ranges.len() ==> (#[trigger] ranges@[k]).0 <= ranges@[k].1 <= p@.len(),
    ensures
        match r {
            Some(v) => bind_params(h@, range_views(p@, ranges@).drop_first()) == Some(pairs_view(v@)),
            None => bind_params(h@, range_views(p@, ranges@).drop_first()) is None,
        },
{
    let ghost segs = range_views(p@, ranges@).drop_first();
    let ghost hv = h@;
    let mut out: Vec<(&'a str, &'a str)> = Vec::new();
    let mut k: usize = 0;
    while k < h.params.len()
        invariant
            k <= h.params.len(),
            hv == h@,
            ascii == p.is_ascii(),
            ranges.len() >= 1,
            segs == range_views(p@, ranges@).drop_first(),
            forall|i: int| 0 <= i < ranges.len() ==> (#[trigger] ranges@[i]).0 <= ranges@[i].1 <= p@.len(),
            forall|i: int| 0 <= i < k ==> param_accepts(#[trigger] hv.params[i], segs),
            pairs_view(out@) == Seq::new(k as nat, |i: int| (hv.params[i].name, segs[hv.params[i].index])),
        decreases h.params.len() - k,
    {
        let param = &h.params[k];
        assert(hv.params[k as int] == param@);
        if param.index >= ranges.len() - 1 {
            assert(!param_accepts(hv.params[k as int], segs));
            return None;
        }
        let range = ranges[param.index + 1];
        let value = slice_chars(p, ascii, range.0, range.1);
        assert(value@ == segs[param.index as int]);
        match &param.validator {
            Some(v) => {
                if !v.accepts(value) {
                    assert(!param_accepts(hv.params[k as int], segs));
                    return None;
                }
            },
            None => {
                if value.is_empty() {
                    assert(!param_accepts(hv.params[k as int], segs));
                    return None;
                }
            },
        }
        let ghost before = out@;
        out.push((param.name.as_str(), value));
        assert(pairs_view(out@) =~= pairs_view(before).push((hv.params[k as int].name, segs[hv.params[k as int].index])));
        assert(pairs_view(out@) =~= Seq::new((k + 1) as nat, |i: int| (hv.params[i].name, segs[hv.params[i].index])));
        k += 1;
    }
    Some(out)
}

/// The first entry of `hs` that serves `method` and binds the segments
/// picked out of `p` by `ranges[1..]`.
pub(crate) fn find_binding<'a>(hs: &'a Vec<Handler>, method: &String, p: &'a str, ascii: bool, ranges: &Vec<(usize, usize)>) -> (r: Option<(i32, Vec<(&'a str, &'a str)>)>)
    requires
        ascii == p.is_ascii(),
        ranges.len() >= 1,
        forall|k: int| 0 <= k < ranges.len() ==> (#[trigger] ranges@[k]).0 <= ranges@[k].1 <= p@.len(),
    ensures
        result_view(r) == first_binding(handlers_view(hs@), method@, range_views(p@, ranges@).drop_first()),
{
    let ghost segs = range_views(p@, ranges@).drop_first();
    let ghost hv = handlers_view(hs@);
    let mut j: usize = 0;
    assert(hv.subrange(0, hv.len() as int) =~= hv);
    while j < hs.len()
        invariant
            j <= hs.len(),
            hv == handlers_view(hs@),
            ascii == p.is_ascii(),
            ranges.len() >= 1,
            segs == range_views(p@, ranges@).drop_first(),
            forall|k: int| 0 <= k < ranges.len() ==> (#[trigger] ranges@[k]).0 <= ranges@[k].1 <= p@.len(),
            first_binding(hv, method@, segs) == first_binding(hv.subrange(j as int, hv.len() as int), method@, segs),
        decreases hs.len() - j,
    {
        assert(hv.subrange(j as int, hv.len() as int).drop_first() =~= hv.subrange(j + 1, hv.len() as int));
        assert(hv.subrange(j as int, hv.len() as int)[0] == hs@[j as int]@);
        if hs[j].method == *method {
            match bind(&hs[j], p, ascii, ranges) {
                Some(v) => {
                    return Some((hs[j].handler, v));
                },
                None => {},
            }
        }
        j += 1;
    }
    None
}

} // verus!
