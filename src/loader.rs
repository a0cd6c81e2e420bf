use vstd::prelude::*;
use crate::media::{media_of, MediaKind};
use crate::source_map::{translate_round_trip, translate_spec, Mapping, SourceMapRegistry};
use crate::specifier::{text_of, ModuleSpecifier};

verus! {

/// Why the source of a module could not be read.
#[derive(Clone, Copy, Debug, PartialEq, Eq, Structural)]
pub enum FetchError {
    NotFound,
    PermissionDenied,
    Io,
}

/// Why a module could not be loaded.
#[derive(Debug)]
pub enum LoadError {
    /// Its source could not be read.
    Fetch(FetchError),
    /// Its file extension names no supported language.
    UnsupportedMediaType,
    /// The transpiler rejected it; the message names the original location.
    Transpile(String),
    /// The transpiler's source map could not be decoded.
    SourceMap,
}

/// A loaded module: its language and the JavaScript text that runs.
pub struct ModuleRecord {
    pub kind: MediaKind,
    pub code: String,
}

/// What a load produces, as plain values.
pub enum LoadOutcome {
    Loaded(MediaKind, Seq<char>),
    FetchFailed(FetchError),
    Unsupported,
    TranspileFailed(Seq<char>),
    BadSourceMap,
}

/// What deno_ast emits for TypeScript `text` of module `specifier` (TSX when
/// `jsx`): JavaScript and its source map, or the error message.
pub uninterp spec fn transpiled(specifier: Seq<char>, text: Seq<char>, jsx: bool) -> Result<
    (Seq<char>, Option<Seq<char>>),
    Seq<char>,
>;

/// The tokens (generated line, generated column, original line, original
/// column) of the source map whose JSON text is `json`.
pub uninterp spec fn decoded_tokens(json: Seq<char>) -> Option<Seq<(u32, u32, u32, u32)>>;

/// The characters of a transpiler result.
pub open spec fn emitted_view(r: Result<(String, Option<String>), String>) -> Result<
    (Seq<char>, Option<Seq<char>>),
    Seq<char>,
> {
    match r {
        Ok((js, Some(map))) => Ok((js@, Some(map@))),
        Ok((js, None)) => Ok((js@, None)),
        Err(e) => Err(e@),
    }
}

/// The decoded tokens, if any.
pub open spec fn tokens_view(r: Option<Vec<(u32, u32, u32, u32)>>) -> Option<
    Seq<(u32, u32, u32, u32)>,
> {
    match r {
        Some(v) => Some(v@),
        None => None,
    }
}

/// Relies on deno_ast's `parse_module` and `ParsedSource::transpile`: the
/// emitted JavaScript and separate source map, or the error's message,
/// depend on the specifier, the text and the media type alone. The parser
/// asserts (in builds with debug assertions) that a leading byte-order mark
/// was removed, so the text may not start with one. The parser recurses
/// over the syntax tree: input nested deeply enough may exhaust the stack,
/// which nothing here bounds.
#[verifier::external_body]
fn transpile_typescript(specifier: &str, text: &str, jsx: bool) -> (r: Result<
    (String, Option<String>),
    String,
>)
    requires
        !(text@.len() > 0 && text@[0] == '\u{feff}'),
    ensures
        emitted_view(r) == transpiled(specifier@, text@, jsx),
{
    let media_type = if jsx { deno_ast::MediaType::Tsx } else { deno_ast::MediaType::TypeScript };
    let url = deno_ast::ModuleSpecifier::parse(specifier).map_err(|e| e.to_string())?;
    let params = deno_ast::ParseParams {
        specifier: url,
        text: text.into(),
        media_type,
        capture_tokens: false,
        scope_analysis: false,
        maybe_syntax: None,
    };
    let parsed = deno_ast::parse_module(params).map_err(|e| e.to_string())?;
    let emit = deno_ast::EmitOptions { source_map: deno_ast::SourceMapOption::Separate, ..Default::default() };
    let out = parsed.transpile(&Default::default(), &Default::default(), &emit).map_err(|e| e.to_string())?;
    let out = out.into_source();
    Ok((out.text, out.source_map))
}

/// Relies on swc_sourcemap's `SourceMap::from_slice` and `tokens`: the
/// decoded tokens, in order, depend on the JSON text alone.
#[verifier::external_body]
fn decode_source_map(json: &str) -> (r: Option<Vec<(u32, u32, u32, u32)>>)
    ensures
        tokens_view(r) == decoded_tokens(json@),
{
    let map = deno_ast::swc::sourcemap::SourceMap::from_slice(json.as_bytes()).ok()?;
    Some(map.tokens().map(|t| (t.get_dst_line(), t.get_dst_col(), t.get_src_line(), t.get_src_col())).collect())
}

/// The token carries an original position: swc_sourcemap marks a token
/// without one by `u32::MAX`.
pub open spec fn is_mapped(x: (u32, u32, u32, u32)) -> bool {
    x.2 != u32::MAX && x.3 != u32::MAX
}

/// The entry that token `x` stands for.
pub open spec fn mapping_of(x: (u32, u32, u32, u32)) -> Mapping {
    Mapping { gen_line: x.0, gen_col: x.1, orig_line: x.2, orig_col: x.3 }
}

/// The entries that the tokens `t` stand for, in order; tokens without an
/// original position are left out.
pub open spec fn mappings_of(t: Seq<(u32, u32, u32, u32)>) -> Seq<Mapping>
    decreases t.len(),
{
    if t.len() == 0 {
        Seq::empty()
    } else {
        let p = mappings_of(t.drop_last());
        if is_mapped(t.last()) {
            p.push(mapping_of(t.last()))
        } else {
            p
        }
    }
}

/// Turns decoded source map tokens into entries, dropping the tokens that
/// have no original position.
pub fn to_mappings(tokens: &Vec<(u32, u32, u32, u32)>) -> (r: Vec<Mapping>)
    ensures
        r@ == mappings_of(tokens@),
{
    let mut out: Vec<Mapping> = Vec::new();
    let mut i: usize = 0;
    assert(tokens@.subrange(0, 0) =~= Seq::<(u32, u32, u32, u32)>::empty());
    while i < tokens.len()
        invariant
            i <= tokens@.len(),
            out@ == mappings_of(tokens@.subrange(0, i as int)),
        decreases tokens@.len() - i,
    {
        let (a, b, c, d) = tokens[i];
        assert(tokens@.subrange(0, i + 1).drop_last() =~= tokens@.subrange(0, i as int));
        if c != u32::MAX && d != u32::MAX {
            out.push(Mapping { gen_line: a, gen_col: b, orig_line: c, orig_col: d });
        }
        i = i + 1;
    }
    assert(tokens@.subrange(0, tokens@.len() as int) =~= tokens@);
    out
}

/// The plain-value outcome of a load result.
pub open spec fn outcome_of(r: Result<ModuleRecord, LoadError>) -> LoadOutcome {
    match r {
        Ok(rec) => LoadOutcome::Loaded(rec.kind, rec.code@),
        Err(LoadError::Fetch(e)) => LoadOutcome::FetchFailed(e),
        Err(LoadError::UnsupportedMediaType) => LoadOutcome::Unsupported,
        Err(LoadError::Transpile(m)) => LoadOutcome::TranspileFailed(m@),
        Err(LoadError::SourceMap) => LoadOutcome::BadSourceMap,
    }
}

/// Records the transpiler's output for module `specifier`: with decoded
/// `tokens` the source map is stored (replacing any earlier one) and `js`
/// becomes the module's code; without, nothing is stored and the load fails.
pub fn finish_transpiled(
    registry: &mut SourceMapRegistry,
    specifier: &str,
    kind: MediaKind,
    js: String,
    tokens: Option<Vec<(u32, u32, u32, u32)>>,
) -> (r: Result<ModuleRecord, LoadError>)
    requires
        old(registry).wf(),
    ensures
        final(registry).wf(),
        match tokens {
            Some(t) => outcome_of(r) == LoadOutcome::Loaded(kind, js@) && final(registry)@ == old(
                registry,
            )@.insert(specifier@, mappings_of(t@)),
            None => outcome_of(r) == LoadOutcome::BadSourceMap && final(registry)@ == old(
                registry,
            )@,
        },
{
    match tokens {
        None => Err(LoadError::SourceMap),
        Some(t) => {
            let ms = to_mappings(&t);
            registry.put(specifier, ms);
            Ok(ModuleRecord { kind, code: js })
        },
    }
}

/// `s` without its leading byte-order marks (U+FEFF).
pub open spec fn strip_bom(s: Seq<char>) -> Seq<char>
    decreases s.len(),
{
    if s.len() > 0 && s[0] == '\u{feff}' {
        strip_bom(s.drop_first())
    } else {
        s
    }
}

/// `s` without its leading byte-order marks.
pub fn strip_bom_str(s: &str) -> (r: &str)
    ensures
        r@ == strip_bom(s@),
        !(r@.len() > 0 && r@[0] == '\u{feff}'),
{
    let n = s.unicode_len();
    let mut a: usize = 0;
    assert(s@.subrange(0, n as int) =~= s@);
    while a < n && s.get_char(a) == '\u{feff}'
        invariant
            n == s@.len(),
            a <= n,
            strip_bom(s@) == strip_bom(s@.subrange(a as int, n as int)),
        decreases n - a,
    {
        assert(s@.subrange(a as int, n as int).drop_first() =~= s@.subrange(a + 1, n as int));
        a = a + 1;
    }
    s.substring_char(a, n)
}

/// The JSON text `src` as a module whose default export is its value.
pub open spec fn json_module(src: Seq<char>) -> Seq<char> {
    "export default "@ + src + ";"@
}

/// What loading module `spec` (file name `name`) with fetched source
/// `fetched` produces.
pub open spec fn load_outcome(
    spec: Seq<char>,
    name: Seq<char>,
    fetched: Result<Seq<char>, FetchError>,
) -> LoadOutcome {
    match fetched {
        Err(e) => LoadOutcome::FetchFailed(e),
        Ok(src) => match media_of(name) {
            None => LoadOutcome::Unsupported,
            Some(MediaKind::JavaScript) => LoadOutcome::Loaded(MediaKind::JavaScript, src),
            Some(MediaKind::Json) => LoadOutcome::Loaded(MediaKind::Json, json_module(src)),
            Some(kind) => match transpiled(spec, strip_bom(src), kind == MediaKind::Tsx) {
                Err(m) => LoadOutcome::TranspileFailed(m),
                Ok((js, None)) => LoadOutcome::BadSourceMap,
                Ok((js, Some(map))) => match decoded_tokens(map) {
                    None => LoadOutcome::BadSourceMap,
                    Some(t) => LoadOutcome::Loaded(kind, js),
                },
            },
        },
    }
}

/// The registry after that load: the decoded source map of a transpiled
/// module is stored under its specifier; otherwise nothing changes.
pub open spec fn load_registry(
    before: Map<Seq<char>, Seq<Mapping>>,
    spec: Seq<char>,
    name: Seq<char>,
    fetched: Result<Seq<char>, FetchError>,
) -> Map<Seq<char>, Seq<Mapping>> {
    match fetched {
        Ok(src) => match media_of(name) {
            Some(kind) => if kind == MediaKind::TypeScript || kind == MediaKind::Tsx {
                match transpiled(spec, strip_bom(src), kind == MediaKind::Tsx) {
                    Ok((js, Some(map))) => match decoded_tokens(map) {
                        Some(t) => before.insert(spec, mappings_of(t)),
                        None => before,
                    },
                    _ => before,
                }
            } else {
                before
            },
            None => before,
        },
        Err(_) => before,
    }
}

/// The characters of a fetched source.
pub open spec fn fetched_view(fetched: Result<String, FetchError>) -> Result<Seq<char>, FetchError> {
    match fetched {
        Ok(s) => Ok(s@),
        Err(e) => Err(e),
    }
}

/// The file name of a specifier: the last segment of its path.
pub open spec fn file_name_of(path: Seq<Seq<char>>) -> Seq<char> {
    if path.len() == 0 {
        Seq::empty()
    } else {
        path.last()
    }
}

/// Loads module `specifier` from its fetched source: classifies it by file
/// extension, transpiles TypeScript (storing the source map in `registry`),
/// wraps JSON, and passes JavaScript through. Each call transpiles anew.
pub fn load(
    registry: &mut SourceMapRegistry,
    specifier: &ModuleSpecifier,
    fetched: Result<String, FetchError>,
) -> (r: Result<ModuleRecord, LoadError>)
    requires
        old(registry).wf(),
    ensures
        final(registry).wf(),
        outcome_of(r) == load_outcome(
            text_of(specifier@),
            file_name_of(specifier@.path),
            fetched_view(fetched),
        ),
        final(registry)@ == load_registry(
            old(registry)@,
            text_of(specifier@),
            file_name_of(specifier@.path),
            fetched_view(fetched),
        ),
{
    let src = match fetched {
        Err(e) => return Err(LoadError::Fetch(e)),
        Ok(s) => s,
    };
    let kind = match MediaKind::classify(specifier.file_name()) {
        None => return Err(LoadError::UnsupportedMediaType),
        Some(k) => k,
    };
    match kind {
        MediaKind::JavaScript => Ok(ModuleRecord { kind, code: src }),
        MediaKind::Json => {
            let mut code = String::from_str("export default ");
            code.append(src.as_str());
            code.append(";");
            Ok(ModuleRecord { kind, code })
        },
        _ => {
            let text = specifier.as_text();
            let jsx = match kind {
                MediaKind::Tsx => true,
                _ => false,
            };
            let body = strip_bom_str(src.as_str());
            match transpile_typescript(text.as_str(), body, jsx) {
                Err(m) => Err(LoadError::Transpile(m)),
                Ok((_js, None)) => Err(LoadError::SourceMap),
                Ok((js, Some(map))) => {
                    let tokens = decode_source_map(map.as_str());
                    finish_transpiled(registry, text.as_str(), kind, js, tokens)
                },
            }
        },
    }
}

/// Loading the same source for the same module twice gives the same
/// outcome both times, and the second load leaves the source map registry
/// exactly as the first left it: transpilation is deterministic.
pub proof fn load_is_deterministic(
    before: Map<Seq<char>, Seq<Mapping>>,
    spec: Seq<char>,
    name: Seq<char>,
    fetched: Result<Seq<char>, FetchError>,
    first: LoadOutcome,
    second: LoadOutcome,
)
    requires
        first == load_outcome(spec, name, fetched),
        second == load_outcome(spec, name, fetched),
    ensures
        first == second,
        load_registry(load_registry(before, spec, name, fetched), spec, name, fetched)
            == load_registry(before, spec, name, fetched),
{
    let once = load_registry(before, spec, name, fetched);
    assert(load_registry(once, spec, name, fetched) =~= once);
}

proof fn lemma_mappings_prefix(t: Seq<(u32, u32, u32, u32)>, n: int, m: int)
    requires
        0 <= n <= m <= t.len(),
    ensures
        mappings_of(t.subrange(0, n)).len() <= mappings_of(t.subrange(0, m)).len(),
        mappings_of(t.subrange(0, m)).subrange(0, mappings_of(t.subrange(0, n)).len() as int)
            == mappings_of(t.subrange(0, n)),
    decreases m - n,
{
    if n < m {
        lemma_mappings_prefix(t, n, m - 1);
        assert(t.subrange(0, m).drop_last() =~= t.subrange(0, m - 1));
        let a = mappings_of(t.subrange(0, n));
        let b = mappings_of(t.subrange(0, m - 1));
        let c = mappings_of(t.subrange(0, m));
        assert(c.subrange(0, a.len() as int) =~= b.subrange(0, a.len() as int));
    } else {
        let a = mappings_of(t.subrange(0, n));
        assert(a.subrange(0, a.len() as int) =~= a);
    }
}

proof fn lemma_mappings_from(t: Seq<(u32, u32, u32, u32)>)
    ensures
        forall|k: int|
            0 <= k < mappings_of(t).len() ==> exists|j: int|
                0 <= j < t.len() && #[trigger] mappings_of(t)[k] == mapping_of(t[j]),
    decreases t.len(),
{
    if t.len() > 0 {
        let d = t.drop_last();
        lemma_mappings_from(d);
        assert forall|k: int| 0 <= k < mappings_of(t).len() implies exists|j: int|
            0 <= j < t.len() && #[trigger] mappings_of(t)[k] == mapping_of(t[j]) by {
            if k < mappings_of(d).len() {
                let j = choose|j: int| 0 <= j < d.len() && mappings_of(d)[k] == mapping_of(d[j]);
                assert(t[j] == d[j]);
            } else {
                assert(mappings_of(t)[k] == mapping_of(t[t.len() - 1]));
            }
        }
    }
}

/// Round trip through a load: after TypeScript module `spec` is loaded, a
/// generated position that a token of the transpiler's source map reports
/// with an original position (and that no earlier token reports)
/// translates, through the registry, to exactly the original position the
/// transpiler gave it.
pub proof fn transpiled_position_round_trip(
    before: Map<Seq<char>, Seq<Mapping>>,
    spec: Seq<char>,
    name: Seq<char>,
    src: Seq<char>,
    js: Seq<char>,
    map: Seq<char>,
    tokens: Seq<(u32, u32, u32, u32)>,
    i: int,
)
    requires
        media_of(name) == Some(MediaKind::TypeScript) || media_of(name) == Some(MediaKind::Tsx),
        transpiled(spec, strip_bom(src), media_of(name) == Some(MediaKind::Tsx)) == Ok::<
            (Seq<char>, Option<Seq<char>>),
            Seq<char>,
        >((js, Some(map))),
        decoded_tokens(map) == Some(tokens),
        0 <= i < tokens.len(),
        is_mapped(tokens[i]),
        forall|j: int|
            0 <= j < i ==> !(tokens[j].0 == tokens[i].0 && tokens[j].1 == tokens[i].1),
    ensures
        load_registry(before, spec, name, Ok(src)).contains_key(spec),
        translate_spec(load_registry(before, spec, name, Ok(src))[spec], tokens[i].0, tokens[i].1)
            == Some((tokens[i].2, tokens[i].3)),
{
    let ms = mappings_of(tokens);
    assert(load_registry(before, spec, name, Ok(src)) == before.insert(spec, ms));
    let pre = tokens.subrange(0, i);
    let upto = tokens.subrange(0, i + 1);
    assert(upto.drop_last() =~= pre);
    let k = mappings_of(pre).len() as int;
    assert(mappings_of(upto) == mappings_of(pre).push(mapping_of(tokens[i])));
    lemma_mappings_prefix(tokens, i + 1, tokens.len() as int);
    assert(tokens.subrange(0, tokens.len() as int) =~= tokens);
    assert(ms.subrange(0, k + 1) == mappings_of(upto));
    assert(ms[k] == mappings_of(upto)[k]);
    lemma_mappings_from(pre);
    assert forall|j: int|
        0 <= j < k implies !(ms[j].gen_line == ms[k].gen_line && ms[j].gen_col == ms[k].gen_col) by {
        assert(ms[j] == ms.subrange(0, k + 1)[j]);
        assert(ms[j] == mappings_of(pre)[j]);
        let q = choose|q: int| 0 <= q < pre.len() && mappings_of(pre)[j] == mapping_of(pre[q]);
        assert(pre[q] == tokens[q]);
    }
    translate_round_trip(ms, k);
}

} // verus!
