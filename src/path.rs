//! Route patterns: the accepted characters, normalisation, segments and
//! parameter declarations, and the registry of named validators.
use vstd::prelude::*;
use crate::text::{chars_of, range_views, segments, slice_chars, split_ranges, strip_first, strip_last};

verus! {

broadcast use vstd::string::group_string_axioms;

/// Whether `regex::Regex::new` accepts `pattern`.
pub uninterp spec fn regex_compiles(pattern: Seq<char>) -> bool;

/// Whether the regex compiled from `pattern` matches somewhere in `text`.
pub uninterp spec fn regex_matches(pattern: Seq<char>, text: Seq<char>) -> bool;

/// `regex::Regex`, held opaque.
#[verifier::external_type_specification]
#[verifier::external_body]
pub struct ExRegex(regex::Regex);

/// `regex::Error`, held opaque; turned into a message by its `Display`.
#[verifier::external_type_specification]
#[verifier::external_body]
pub struct ExRegexError(regex::Error);

/// A compiled validator, kept with the pattern text it was compiled from.
#[derive(Debug)]
pub struct Validator {
    pattern: String,
    regex: regex::Regex,
}

impl View for Validator {
    type V = Seq<char>;

    /// The pattern text the validator was compiled from.
    closed spec fn view(&self) -> Seq<char> {
        self.pattern@
    }
}

/// Relies on regex::Regex::new: it compiles `pattern` or reports why not,
/// depending on the pattern text alone.
#[verifier::external_body]
fn compile_validator(pattern: &str) -> (r: Result<Validator, regex::Error>)
    ensures
        r is Ok <==> regex_compiles(pattern@),
        r is Ok ==> r->Ok_0@ == pattern@,
{
    match regex::Regex::new(pattern) {
        Ok(regex) => Ok(Validator { pattern: pattern.to_string(), regex }),
        Err(e) => Err(e),
    }
}

/// Relies on regex::Regex's Clone: the copy is the same compiled pattern.
#[verifier::external_body]
fn copy_validator(v: &Validator) -> (r: Validator)
    ensures
        r@ == v@,
{
    Validator { pattern: v.pattern.clone(), regex: v.regex.clone() }
}

/// Relies on regex::Regex::is_match: whether the pattern matches anywhere in
/// `text`. A `Validator` is only built by `compile_validator` and
/// `copy_validator`, so its regex is the one compiled from its pattern.
#[verifier::external_body]
fn validator_matches(v: &Validator, text: &str) -> (r: bool)
    ensures
        r == regex_matches(v@, text@),
{
    v.regex.is_match(text)
}

impl Validator {
    /// The pattern text this validator was compiled from.
    pub fn as_str(&self) -> (r: &str)
        ensures
            r@ == self@,
    {
        self.pattern.as_str()
    }

    /// Whether `text` satisfies this validator.
    pub fn accepts(&self, text: &str) -> (r: bool)
        ensures
            r == regex_matches(self@, text@),
    {
        validator_matches(self, text)
    }

    /// A second handle on the same compiled validator.
    pub fn duplicate(&self) -> (r: Validator)
        ensures
            r@ == self@,
    {
        copy_validator(self)
    }
}

/// Why a pattern or a validator was refused.
#[derive(Debug)]
pub enum RouteError {
    /// The pattern holds a character outside the accepted set.
    InvalidCharacter,
    /// A segment is only partly a `{...}` parameter.
    PartialDynamicSegment,
    /// A `{name:alias}` names a validator that was never registered.
    UnknownValidatorAlias(String),
    /// The validator's pattern does not compile; the compiler's message.
    RegexCompileError(String),
}

/// What a `RouteError` says, in the terms of the contracts.
pub enum ErrorKind {
    InvalidCharacter,
    PartialDynamicSegment,
    UnknownValidatorAlias(Seq<char>),
    RegexCompileError,
}

impl View for RouteError {
    type V = ErrorKind;

    open spec fn view(&self) -> ErrorKind {
        match self {
            RouteError::InvalidCharacter => ErrorKind::InvalidCharacter,
            RouteError::PartialDynamicSegment => ErrorKind::PartialDynamicSegment,
            RouteError::UnknownValidatorAlias(a) => ErrorKind::UnknownValidatorAlias(a@),
            RouteError::RegexCompileError(_) => ErrorKind::RegexCompileError,
        }
    }
}

// ---------------------------------------------------------------------------
// The pattern grammar

/// The characters a route pattern may hold.
pub open spec fn is_route_char(c: char) -> bool {
    ('a' <= c && c <= 'z') || ('A' <= c && c <= 'Z') || ('0' <= c && c <= '9') || c == '/'
        || c == '_' || c == ':' || c == '{' || c == '}' || c == '%' || c == '-' || c == '~'
        || c == '!' || c == '&' || c == '\'' || c == '*' || c == '+' || c == ',' || c == ';'
        || c == '=' || c == '@'
}

/// A pattern is accepted when every character of it is accepted.
pub open spec fn is_valid_pattern(s: Seq<char>) -> bool {
    forall|i: int| 0 <= i < s.len() ==> is_route_char(#[trigger] s[i])
}

/// One leading `^` and `/` and one trailing `$` and `/` removed, in that order.
pub open spec fn normalize(s: Seq<char>) -> Seq<char> {
    strip_last(strip_last(strip_first(strip_first(s, '^'), '/'), '$'), '/')
}

/// A segment that stands for any value: `*`, or `{...}` with no `}` inside.
pub open spec fn is_dynamic_segment(s: Seq<char>) -> bool {
    s =~= seq!['*'] || (s.len() >= 2 && s[0] == '{' && s.last() == '}' && forall|j: int|
        0 < j < s.len() - 1 ==> #[trigger] s[j] != '}')
}

/// Some `{` comes before some `}` in `s`.
pub open spec fn has_brace_pair(s: Seq<char>) -> bool {
    exists|i: int, j: int| 0 <= i < j < s.len() && #[trigger] s[i] == '{' && #[trigger] s[j] == '}'
}

/// A segment that holds a `{...}` or `*` without being one.
pub open spec fn is_partial_segment(s: Seq<char>) -> bool {
    !is_dynamic_segment(s) && (s.contains('*') || has_brace_pair(s))
}

/// The segment as stored in a pattern: `*` for a dynamic one, else its text.
pub open spec fn octet_of(s: Seq<char>) -> Seq<char> {
    if is_dynamic_segment(s) {
        seq!['*']
    } else {
        s
    }
}

pub open spec fn is_ident_start(c: char) -> bool {
    ('a' <= c && c <= 'z') || ('A' <= c && c <= 'Z') || c == '_'
}

pub open spec fn is_ident_char(c: char) -> bool {
    is_ident_start(c) || ('0' <= c && c <= '9')
}

/// `[A-Za-z_][A-Za-z0-9_]*`
pub open spec fn is_ident(s: Seq<char>) -> bool {
    s.len() > 0 && is_ident_start(s[0]) && forall|i: int|
        1 <= i < s.len() ==> is_ident_char(#[trigger] s[i])
}

/// `inner` is `name:alias` with the `:` at `k`.
pub open spec fn is_name_alias_split(inner: Seq<char>, k: int) -> bool {
    0 < k < inner.len() && inner[k] == ':' && is_ident(inner.subrange(0, k)) && is_ident(
        inner.subrange(k + 1, inner.len() as int),
    )
}

/// The parameter that a segment declares: `{name}` or `{name:alias}`.
pub open spec fn param_decl(seg: Seq<char>) -> Option<(Seq<char>, Option<Seq<char>>)> {
    if seg.len() >= 3 && seg[0] == '{' && seg.last() == '}' {
        let inner = seg.subrange(1, seg.len() - 1);
        if is_ident(inner) {
            Some((inner, None))
        } else if exists|k: int| is_name_alias_split(inner, k) {
            let k = choose|k: int| is_name_alias_split(inner, k);
            Some((inner.subrange(0, k), Some(inner.subrange(k + 1, inner.len() as int))))
        } else {
            None
        }
    } else {
        None
    }
}

/// A declared parameter: its name, the index of its segment, and the pattern
/// of its validator if it has one.
pub struct ParamView {
    pub name: Seq<char>,
    pub index: int,
    pub validator: Option<Seq<char>>,
}

/// A parsed pattern: its segments (`*` for dynamic ones) and its parameters.
pub struct PatternView {
    pub octets: Seq<Seq<char>>,
    pub params: Seq<ParamView>,
}

/// The parameters that the first `n` segments declare, left to right, or the
/// first alias among them that `registry` does not know.
pub open spec fn collect_params(
    registry: Map<Seq<char>, Seq<char>>,
    segs: Seq<Seq<char>>,
    n: int,
) -> Result<Seq<ParamView>, Seq<char>>
    decreases n,
{
    if n <= 0 {
        Ok(Seq::empty())
    } else {
        match collect_params(registry, segs, n - 1) {
            Err(a) => Err(a),
            Ok(ps) => match param_decl(segs[n - 1]) {
                None => Ok(ps),
                Some(decl) => match decl.1 {
                    None => Ok(ps.push(ParamView { name: decl.0, index: n - 1, validator: None })),
                    Some(a) => if a =~= seq!['s', 't', 'r'] {
                        Ok(ps.push(ParamView { name: decl.0, index: n - 1, validator: None }))
                    } else if registry.contains_key(a) {
                        Ok(
                            ps.push(
                                ParamView { name: decl.0, index: n - 1, validator: Some(registry[a]) },
                            ),
                        )
                    } else {
                        Err(a)
                    },
                },
            },
        }
    }
}

/// What parsing `s` gives against the validators in `registry`.
pub open spec fn parse_pattern(registry: Map<Seq<char>, Seq<char>>, s: Seq<char>) -> Result<
    PatternView,
    ErrorKind,
> {
    if !is_valid_pattern(s) {
        Err(ErrorKind::InvalidCharacter)
    } else {
        let segs = segments(normalize(s));
        if exists|i: int| 0 <= i < segs.len() && is_partial_segment(#[trigger] segs[i]) {
            Err(ErrorKind::PartialDynamicSegment)
        } else {
            match collect_params(registry, segs, segs.len() as int) {
                Err(a) => Err(ErrorKind::UnknownValidatorAlias(a)),
                Ok(ps) => Ok(PatternView { octets: segs.map_values(|s: Seq<char>| octet_of(s)), params: ps }),
            }
        }
    }
}


// ---------------------------------------------------------------------------
// Parsed patterns and the parser

/// A declared parameter: the index of its segment and its validator, if any.
#[derive(Debug)]
pub struct Param {
    pub index: usize,
    pub validator: Option<Validator>,
}

/// The pattern of a validator, if there is one.
pub open spec fn validator_view(v: Option<Validator>) -> Option<Seq<char>> {
    match v {
        Some(v) => Some(v@),
        None => None,
    }
}

/// `names` and `values` hold, index by index, the parameters `ps`.
pub open spec fn params_model(names: Seq<String>, values: Seq<Param>, ps: Seq<ParamView>) -> bool {
    &&& names.len() == ps.len()
    &&& values.len() == ps.len()
    &&& forall|k: int| 0 <= k < ps.len() ==> (#[trigger] names[k])@ == ps[k].name
    &&& forall|k: int| 0 <= k < ps.len() ==> (#[trigger] values[k]).index == ps[k].index
    &&& forall|k: int|
        0 <= k < ps.len() ==> validator_view((#[trigger] values[k]).validator) == ps[k].validator
}

/// A parsed route pattern.
#[derive(Debug)]
pub struct Path<'a> {
    pub origin: &'a str,
    pub octets: Vec<String>,
    pub params_names: Vec<String>,
    pub params_values: Vec<Param>,
    pub params_len: usize,
}

impl<'a> Path<'a> {
    /// This parsed pattern is `pv`.
    pub open spec fn models(&self, pv: PatternView) -> bool {
        &&& self.octets@.map_values(|s: String| s@) == pv.octets
        &&& params_model(self.params_names@, self.params_values@, pv.params)
        &&& self.params_len == pv.params.len()
    }
}

/// The validators named by `entries`; a later entry for an alias wins.
pub open spec fn registry_of(entries: Seq<(String, Validator)>) -> Map<Seq<char>, Seq<char>>
    decreases entries.len(),
{
    if entries.len() == 0 {
        Map::empty()
    } else {
        registry_of(entries.drop_last()).insert(entries.last().0@, entries.last().1@)
    }
}

proof fn lemma_registry_found(entries: Seq<(String, Validator)>, i: int, k: Seq<char>)
    requires
        0 <= i < entries.len(),
        entries[i].0@ == k,
        forall|j: int| i < j < entries.len() ==> (#[trigger] entries[j]).0@ != k,
    ensures
        registry_of(entries).contains_key(k),
        registry_of(entries)[k] == entries[i].1@,
    decreases entries.len(),
{
    if i < entries.len() - 1 {
        let prev = entries.drop_last();
        assert forall|j: int| i < j < prev.len() implies (#[trigger] prev[j]).0@ != k by {
            assert(prev[j] == entries[j]);
        }
        lemma_registry_found(prev, i, k);
        assert(entries[entries.len() - 1].0@ != k);
    }
}

proof fn lemma_registry_absent(entries: Seq<(String, Validator)>, k: Seq<char>)
    requires
        forall|j: int| 0 <= j < entries.len() ==> (#[trigger] entries[j]).0@ != k,
    ensures
        !registry_of(entries).contains_key(k),
    decreases entries.len(),
{
    if entries.len() > 0 {
        let prev = entries.drop_last();
        assert forall|j: int| 0 <= j < prev.len() implies (#[trigger] prev[j]).0@ != k by {
            assert(prev[j] == entries[j]);
        }
        lemma_registry_absent(prev, k);
        assert(entries[entries.len() - 1].0@ != k);
    }
}

pub proof fn lemma_collect_err_stays(
    registry: Map<Seq<char>, Seq<char>>,
    segs: Seq<Seq<char>>,
    n: int,
    m: int,
)
    requires
        0 <= n <= m,
        collect_params(registry, segs, n) is Err,
    ensures
        collect_params(registry, segs, m) == collect_params(registry, segs, n),
    decreases m - n,
{
    if n < m {
        lemma_collect_err_stays(registry, segs, n, m - 1);
    }
}

/// Turns route patterns into segments and parameters, against a registry of
/// named validators.
pub struct PathParser {
    validators: Vec<(String, Validator)>,
}

impl View for PathParser {
    type V = Map<Seq<char>, Seq<char>>;

    /// Each registered alias, with the pattern of its validator.
    closed spec fn view(&self) -> Map<Seq<char>, Seq<char>> {
        registry_of(self.validators@)
    }
}

fn all_route_chars(chars: &Vec<char>) -> (r: bool)
    ensures
        r == is_valid_pattern(chars@),
{
    let mut i: usize = 0;
    while i < chars.len()
        invariant
            i <= chars.len(),
            forall|j: int| 0 <= j < i ==> is_route_char(#[trigger] chars@[j]),
        decreases chars.len() - i,
    {
        let c = chars[i];
        let ok = ('a' <= c && c <= 'z') || ('A' <= c && c <= 'Z') || ('0' <= c && c <= '9')
            || c == '/' || c == '_' || c == ':' || c == '{' || c == '}' || c == '%' || c == '-'
            || c == '~' || c == '!' || c == '&' || c == '\'' || c == '*' || c == '+' || c == ','
            || c == ';' || c == '=' || c == '@';
        if !ok {
            return false;
        }
        i += 1;
    }
    true
}

/// The bounds of `normalize(chars)` within `chars`.
fn normalized_bounds(chars: &Vec<char>) -> (r: (usize, usize))
    ensures
        r.0 <= r.1 <= chars.len(),
        chars@.subrange(r.0 as int, r.1 as int) == normalize(chars@),
{
    let mut from: usize = 0;
    let mut to: usize = chars.len();
    if from < to && chars[from] == '^' {
        from += 1;
    }
    assert(chars@.subrange(from as int, to as int) =~= strip_first(chars@, '^'));
    if from < to && chars[from] == '/' {
        from += 1;
    }
    assert(chars@.subrange(from as int, to as int) =~= strip_first(strip_first(chars@, '^'), '/'));
    if from < to && chars[to - 1] == '$' {
        to -= 1;
    }
    assert(chars@.subrange(from as int, to as int) =~= strip_last(
        strip_first(strip_first(chars@, '^'), '/'),
        '$',
    ));
    if from < to && chars[to - 1] == '/' {
        to -= 1;
    }
    assert(chars@.subrange(from as int, to as int) =~= normalize(chars@));
    (from, to)
}

fn segment_is_dynamic(chars: &Vec<char>, a: usize, b: usize) -> (r: bool)
    requires
        a <= b <= chars.len(),
    ensures
        r == is_dynamic_segment(chars@.subrange(a as int, b as int)),
{
    let ghost s = chars@.subrange(a as int, b as int);
    if b - a == 1 && chars[a] == '*' {
        assert(s =~= seq!['*']);
        return true;
    }
    if b - a == 1 {
        assert(s[0] != '*');
    }
    if b - a < 2 || chars[a] != '{' || chars[b - 1] != '}' {
        assert(!(s =~= seq!['*'])) by {
            if s =~= seq!['*'] {
                assert(s[0] == '*');
            }
        }
        return false;
    }
    assert(!(s =~= seq!['*']));
    let mut j: usize = a + 1;
    while j < b - 1
        invariant
            a + 1 <= j <= b - 1,
            b <= chars.len(),
            s == chars@.subrange(a as int, b as int),
            forall|k: int| 0 < k < j - a ==> #[trigger] s[k] != '}',
        decreases b - 1 - j,
    {
        if chars[j] == '}' {
            assert(s[j - a] == '}');
            return false;
        }
        j += 1;
    }
    true
}

fn segment_is_partial(chars: &Vec<char>, a: usize, b: usize) -> (r: bool)
    requires
        a <= b <= chars.len(),
        !is_dynamic_segment(chars@.subrange(a as int, b as int)),
    ensures
        r == is_partial_segment(chars@.subrange(a as int, b as int)),
{
    let ghost s = chars@.subrange(a as int, b as int);
    let mut seen_open = false;
    let mut j: usize = a;
    while j < b
        invariant
            a <= j <= b <= chars.len(),
            s == chars@.subrange(a as int, b as int),
            !is_dynamic_segment(s),
            seen_open <==> exists|i: int| 0 <= i < j - a && #[trigger] s[i] == '{',
            forall|i: int| 0 <= i < j - a ==> #[trigger] s[i] != '*',
            forall|i: int, k: int| 0 <= i < k < j - a && #[trigger] s[i] == '{' ==> #[trigger] s[k] != '}',
        decreases b - j,
    {
        let c = chars[j];
        assert(s[j - a] == c);
        if c == '*' {
            assert(s.contains('*'));
            return true;
        }
        if c == '}' && seen_open {
            let ghost i = choose|i: int| 0 <= i < j - a && #[trigger] s[i] == '{';
            assert(s[i] == '{' && s[j - a] == '}');
            assert(has_brace_pair(s));
            return true;
        }
        if c == '{' {
            seen_open = true;
        }
        j += 1;
    }
    assert(!s.contains('*'));
    assert(!has_brace_pair(s));
    false
}

fn range_is_ident(chars: &Vec<char>, a: usize, b: usize) -> (r: bool)
    requires
        a <= b <= chars.len(),
    ensures
        r == is_ident(chars@.subrange(a as int, b as int)),
{
    let ghost s = chars@.subrange(a as int, b as int);
    if a == b {
        return false;
    }
    let c = chars[a];
    assert(s[0] == c);
    if !(('a' <= c && c <= 'z') || ('A' <= c && c <= 'Z') || c == '_') {
        return false;
    }
    let mut j: usize = a + 1;
    while j < b
        invariant
            a + 1 <= j <= b <= chars.len(),
            s == chars@.subrange(a as int, b as int),
            is_ident_start(s[0]),
            forall|i: int| 1 <= i < j - a ==> is_ident_char(#[trigger] s[i]),
        decreases b - j,
    {
        let c = chars[j];
        assert(s[j - a] == c);
        if !(('a' <= c && c <= 'z') || ('A' <= c && c <= 'Z') || c == '_' || ('0' <= c && c <= '9')) {
            return false;
        }
        j += 1;
    }
    true
}

proof fn lemma_split_unique(inner: Seq<char>, k1: int, k2: int)
    requires
        is_name_alias_split(inner, k1),
        is_name_alias_split(inner, k2),
    ensures
        k1 == k2,
{
    if k1 < k2 {
        let alias = inner.subrange(k1 + 1, inner.len() as int);
        assert(alias[k2 - k1 - 1] == ':');
    } else if k2 < k1 {
        let alias = inner.subrange(k2 + 1, inner.len() as int);
        assert(alias[k1 - k2 - 1] == ':');
    }
}

/// The name range and, if any, the alias range that segment `chars[a..b]` declares.
fn segment_param(chars: &Vec<char>, a: usize, b: usize) -> (r: Option<((usize, usize), Option<(usize, usize)>)>)
    requires
        a <= b <= chars.len(),
    ensures
        match (r, param_decl(chars@.subrange(a as int, b as int))) {
            (None, None) => true,
            (Some(rr), Some(d)) => {
                &&& a <= rr.0.0 <= rr.0.1 <= b
                &&& chars@.subrange(rr.0.0 as int, rr.0.1 as int) == d.0
                &&& match (rr.1, d.1) {
                    (None, None) => true,
                    (Some(ar), Some(al)) => a <= ar.0 <= ar.1 <= b && chars@.subrange(
                        ar.0 as int,
                        ar.1 as int,
                    ) == al,
                    _ => false,
                }
            },
            _ => false,
        },
{
    let ghost seg = chars@.subrange(a as int, b as int);
    if b - a < 3 || chars[a] != '{' || chars[b - 1] != '}' {
        return None;
    }
    let ghost inner = seg.subrange(1, seg.len() - 1);
    assert(inner =~= chars@.subrange(a + 1, b - 1));
    // the first ':' inside the braces, if any
    let mut k: usize = a + 1;
    while k < b - 1 && chars[k] != ':'
        invariant
            a + 1 <= k <= b - 1,
            b <= chars.len(),
            inner == chars@.subrange(a + 1, b - 1),
            forall|i: int| 0 <= i < k - (a + 1) ==> #[trigger] inner[i] != ':',
        decreases b - 1 - k,
    {
        assert(inner[k - (a + 1)] == chars@[k as int]);
        k += 1;
    }
    if k == b - 1 {
        if range_is_ident(chars, a + 1, b - 1) {
            return Some(((a + 1, b - 1), None));
        }
        assert(!exists|k: int| is_name_alias_split(inner, k)) by {
            if exists|k: int| is_name_alias_split(inner, k) {
                let k = choose|k: int| is_name_alias_split(inner, k);
                assert(inner[k] == ':');
            }
        }
        return None;
    }
    let ghost kk = k - (a + 1);
    assert(inner[kk] == ':');
    assert(!is_ident(inner)) by {
        if is_ident(inner) {
            assert(is_ident_char(inner[kk]) || kk == 0);
        }
    }
    assert(inner.subrange(0, kk) =~= chars@.subrange(a + 1, k as int));
    assert(inner.subrange(kk + 1, inner.len() as int) =~= chars@.subrange(k + 1, b - 1));
    if range_is_ident(chars, a + 1, k) && range_is_ident(chars, k + 1, b - 1) {
        assert(is_name_alias_split(inner, kk));
        let ghost chosen = choose|k: int| is_name_alias_split(inner, k);
        proof {
            lemma_split_unique(inner, kk, chosen);
        }
        return Some(((a + 1, k), Some((k + 1, b - 1))));
    }
    assert(!exists|k: int| is_name_alias_split(inner, k)) by {
        if exists|k2: int| is_name_alias_split(inner, k2) {
            let k2 = choose|k2: int| is_name_alias_split(inner, k2);
            if k2 < kk {
                let name = inner.subrange(0, k2);
                assert(inner[k2] == ':');
            } else if k2 > kk {
                let name = inner.subrange(0, k2);
                assert(name[kk] == ':');
            }
        }
    }
    None
}

impl PathParser {
    /// A parser with no validators.
    pub fn new() -> (r: PathParser)
        ensures
            r@ == Map::<Seq<char>, Seq<char>>::empty(),
    {
        PathParser { validators: Vec::new() }
    }

    /// The index of the latest entry for `alias`, if there is one.
    fn lookup(&self, alias: &String) -> (r: Option<usize>)
        ensures
            r is Some <==> self@.contains_key(alias@),
            r is Some ==> r->0 < self.validators.len() && self.validators@[r->0 as int].1@
                == self@[alias@],
    {
        let mut i: usize = self.validators.len();
        while i > 0
            invariant
                i <= self.validators.len(),
                forall|j: int| i <= j < self.validators.len() ==> (#[trigger] self.validators@[j]).0@ != alias@,
            decreases i,
        {
            i -= 1;
            if self.validators[i].0 == *alias {
                proof {
                    lemma_registry_found(self.validators@, i as int, alias@);
                }
                return Some(i);
            }
        }
        proof {
            lemma_registry_absent(self.validators@, alias@);
        }
        None
    }

    /// Compiles `regex` and registers it under `alias`, replacing any earlier
    /// validator of that alias.
    pub fn add_validator(&mut self, alias: String, regex: String) -> (r: Result<(), RouteError>)
        ensures
            r is Ok <==> regex_compiles(regex@),
            r is Ok ==> final(self)@ == old(self)@.insert(alias@, regex@),
            r is Err ==> final(self)@ == old(self)@ && r->Err_0@ == ErrorKind::RegexCompileError,
    {
        match compile_validator(regex.as_str()) {
            Ok(v) => {
                let ghost before = self.validators@;
                self.validators.push((alias, v));
                assert(self.validators@.drop_last() =~= before);
                Ok(())
            },
            Err(e) => Err(RouteError::RegexCompileError(e.to_string())),
        }
    }


    /// Parses a route pattern: checks its characters, normalises it, cuts it
    /// into segments and reads its parameter declarations.
    pub fn parse<'a>(&'a self, path: &'a str) -> (r: Result<Path<'a>, RouteError>)
        ensures
            match parse_pattern(self@, path@) {
                Ok(pv) => r is Ok && r->Ok_0.origin == path && r->Ok_0.models(pv),
                Err(e) => r is Err && r->Err_0@ == e,
            },
    {
        let chars = chars_of(path);
        if !all_route_chars(&chars) {
            return Err(RouteError::InvalidCharacter);
        }
        let ascii = path.is_ascii();
        assert(ascii) by {
            assert forall|i: int| 0 <= i < path@.len() implies '\0' <= #[trigger] path@[i] <= '\u{7f}' by {
                assert(is_route_char(chars@[i]));
            }
        }
        let (from, to) = normalized_bounds(&chars);
        let segs = split_ranges(&chars, from, to, false);
        let ghost sv = segments(normalize(path@));
        assert(range_views(chars@, segs@) == sv);
        assert forall|k: int| 0 <= k < segs.len() implies chars@.subrange(
            (#[trigger] segs@[k]).0 as int,
            segs@[k].1 as int,
        ) == sv[k] by {
            assert(range_views(chars@, segs@)[k] == sv[k]);
        }

        let mut octets: Vec<String> = Vec::new();
        let mut i: usize = 0;
        while i < segs.len()
            invariant
                i <= segs.len(),
                chars@ == path@,
                is_valid_pattern(path@),
                sv == segments(normalize(path@)),
                ascii == path.is_ascii(),
                sv.len() == segs.len(),
                forall|k: int| 0 <= k < segs.len() ==> (#[trigger] segs@[k]).0 <= segs@[k].1 <= chars.len(),
                forall|k: int| 0 <= k < segs.len() ==> chars@.subrange((#[trigger] segs@[k]).0 as int, segs@[k].1 as int) == sv[k],
                octets@.map_values(|s: String| s@) == sv.take(i as int).map_values(|s: Seq<char>| octet_of(s)),
                forall|k: int| 0 <= k < i ==> !is_partial_segment(#[trigger] sv[k]),
            decreases segs.len() - i,
        {
            let (a, b) = segs[i];
            assert(chars@.subrange(a as int, b as int) == sv[i as int]);
            let ghost before = octets@;
            if segment_is_dynamic(&chars, a, b) {
                proof {
                    reveal_strlit("*");
                }
                let star = "*".to_owned();
                assert(star@ =~= seq!['*']);
                octets.push(star);
            } else if segment_is_partial(&chars, a, b) {
                assert(is_partial_segment(sv[i as int]));
                return Err(RouteError::PartialDynamicSegment);
            } else {
                octets.push(slice_chars(path, ascii, a, b).to_owned());
            }
            assert(sv.take(i + 1) =~= sv.take(i as int).push(sv[i as int]));
            assert(octets@.map_values(|s: String| s@) =~= before.map_values(|s: String| s@).push(octet_of(sv[i as int])));
            i += 1;
        }
        assert(sv.take(sv.len() as int) =~= sv);
        assert(!exists|k: int| 0 <= k < sv.len() && is_partial_segment(#[trigger] sv[k]));

        let mut names: Vec<String> = Vec::new();
        let mut values: Vec<Param> = Vec::new();
        let mut i: usize = 0;
        while i < segs.len()
            invariant
                i <= segs.len(),
                chars@ == path@,
                is_valid_pattern(path@),
                sv == segments(normalize(path@)),
                ascii == path.is_ascii(),
                sv.len() == segs.len(),
                forall|k: int| 0 <= k < segs.len() ==> (#[trigger] segs@[k]).0 <= segs@[k].1 <= chars.len(),
                forall|k: int| 0 <= k < segs.len() ==> chars@.subrange((#[trigger] segs@[k]).0 as int, segs@[k].1 as int) == sv[k],
                forall|k: int| 0 <= k < sv.len() ==> !is_partial_segment(#[trigger] sv[k]),
                collect_params(self@, sv, i as int) is Ok,
                params_model(names@, values@, collect_params(self@, sv, i as int)->Ok_0),
            decreases segs.len() - i,
        {
            let (a, b) = segs[i];
            assert(chars@.subrange(a as int, b as int) == sv[i as int]);
            let ghost ps = collect_params(self@, sv, i as int)->Ok_0;
            match segment_param(&chars, a, b) {
                None => {
                    assert(collect_params(self@, sv, i + 1) == collect_params(self@, sv, i as int));
                },
                Some((nr, alias)) => {
                    let name = slice_chars(path, ascii, nr.0, nr.1).to_owned();
                    let validator = match alias {
                        None => None,
                        Some(ar) => {
                            if ar.1 - ar.0 == 3 && chars[ar.0] == 's' && chars[ar.0 + 1] == 't'
                                && chars[ar.0 + 2] == 'r' {
                                assert(chars@.subrange(ar.0 as int, ar.1 as int) =~= seq!['s', 't', 'r']);
                                None
                            } else {
                                let key = slice_chars(path, ascii, ar.0, ar.1).to_owned();
                                assert(!(key@ =~= seq!['s', 't', 'r'])) by {
                                    if key@ =~= seq!['s', 't', 'r'] {
                                        assert(chars@[ar.0 as int] == key@[0]);
                                        assert(chars@[ar.0 + 1] == key@[1]);
                                        assert(chars@[ar.0 + 2] == key@[2]);
                                    }
                                }
                                match self.lookup(&key) {
                                    Some(idx) => Some(self.validators[idx].1.duplicate()),
                                    None => {
                                        assert(collect_params(self@, sv, i + 1) == Err::<Seq<ParamView>, Seq<char>>(key@));
                                        proof {
                                            lemma_collect_err_stays(self@, sv, i + 1, sv.len() as int);
                                        }
                                        return Err(RouteError::UnknownValidatorAlias(key));
                                    },
                                }
                            }
                        },
                    };
                    let ghost before_names = names@;
                    let ghost before_values = values@;
                    names.push(name);
                    values.push(Param { index: i, validator });
                    assert(collect_params(self@, sv, i + 1) is Ok);
                    let ghost ps2 = collect_params(self@, sv, i + 1)->Ok_0;
                    assert(ps2 == ps.push(ps2.last()));
                    assert(ps2.last().name == name@);
                    assert(ps2.last().index == i);
                    assert(ps2.last().validator == validator_view(validator));
                    assert forall|k: int| 0 <= k < ps2.len() implies (#[trigger] names@[k])@ == ps2[k].name by {
                        if k < ps.len() {
                            assert(names@[k] == before_names[k]);
                        }
                    }
                    assert forall|k: int| 0 <= k < ps2.len() implies (#[trigger] values@[k]).index == ps2[k].index
                        && validator_view(values@[k].validator) == ps2[k].validator by {
                        if k < ps.len() {
                            assert(values@[k] == before_values[k]);
                        }
                    }
                    assert(before_names.len() == ps.len());
                    assert(names@.len() == ps2.len());
                    assert(values@.len() == ps2.len());
                    assert(params_model(names@, values@, ps2));
                },
            }
            i += 1;
        }
        let params_len = names.len();
        Ok(Path { origin: path, octets, params_names: names, params_values: values, params_len })
    }
}

} // verus!
