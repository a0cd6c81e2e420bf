use vstd::prelude::*;
use crate::text::{has_prefix, str_eq, starts_with};

verus! {

/// Why an import string could not be turned into a module specifier.
#[derive(Clone, Copy, Debug, PartialEq, Eq, Structural)]
pub enum ResolutionError {
    /// Neither relative (`./`, `../`, `/`) nor carrying a scheme.
    Bare,
    /// A scheme other than `file`, `http` or `https`.
    UnknownScheme,
    /// A scheme not followed by `//`.
    Malformed,
    /// `..` segments climb above the root of the path.
    OutsideRoot,
    /// A host outside the accepted form: lower-case ASCII letters, digits,
    /// `-` and `.`, each label starting with a letter, no `--`, no trailing
    /// `.`; empty only under `file`.
    InvalidHost,
}

/// The mathematical value of a module specifier: scheme, host and the
/// segments of its path.
pub struct SpecifierView {
    pub scheme: Seq<char>,
    pub host: Seq<char>,
    pub path: Seq<Seq<char>>,
}

/// A canonical, absolute module specifier `scheme://host/seg/seg/...`.
/// Its path holds no `.` or `..` segment, and no segment holds `/`.
#[derive(Debug)]
pub struct ModuleSpecifier {
    scheme: String,
    host: String,
    path: Vec<String>,
}

/// The characters of each string of `v`.
pub open spec fn views(v: Seq<String>) -> Seq<Seq<char>> {
    v.map_values(|x: String| x@)
}

/// `i` is the first position of `c` in `s`.
pub open spec fn is_first(s: Seq<char>, c: char, i: int) -> bool {
    0 <= i < s.len() && s[i] == c && forall|j: int| 0 <= j < i ==> s[j] != c
}

/// The first position of `c` in `s`, if any.
pub open spec fn index_of(s: Seq<char>, c: char) -> Option<int> {
    if exists|i: int| is_first(s, c, i) {
        Some(choose|i: int| is_first(s, c, i))
    } else {
        None
    }
}

/// The pieces of `s` between the `/` characters (always at least one).
pub open spec fn split_path(s: Seq<char>) -> Seq<Seq<char>>
    decreases s.len(),
{
    if s.len() == 0 {
        seq![Seq::empty()]
    } else {
        let p = split_path(s.drop_last());
        if s.last() == '/' {
            p.push(Seq::empty())
        } else {
            p.update(p.len() - 1, p.last().push(s.last()))
        }
    }
}

/// The segments joined with `/`.
pub open spec fn join_path(segs: Seq<Seq<char>>) -> Seq<char>
    decreases segs.len(),
{
    if segs.len() == 0 {
        Seq::empty()
    } else if segs.len() == 1 {
        segs[0]
    } else {
        join_path(segs.drop_last()) + "/"@ + segs.last()
    }
}

/// One segment applied to a path: `.` stays, `..` climbs (failing at the
/// root), anything else descends.
pub open spec fn step(acc: Seq<Seq<char>>, seg: Seq<char>) -> Option<Seq<Seq<char>>> {
    if seg == "."@ {
        Some(acc)
    } else if seg == ".."@ {
        if acc.len() == 0 {
            None
        } else {
            Some(acc.drop_last())
        }
    } else {
        Some(acc.push(seg))
    }
}

/// The segments of `rel` applied, left to right, to `base`.
pub open spec fn normalize(base: Seq<Seq<char>>, rel: Seq<Seq<char>>) -> Option<Seq<Seq<char>>>
    decreases rel.len(),
{
    if rel.len() == 0 {
        Some(base)
    } else {
        match normalize(base, rel.drop_last()) {
            Some(acc) => step(acc, rel.last()),
            None => None,
        }
    }
}

/// The directory of a path: all segments but the last.
pub open spec fn dir_of(path: Seq<Seq<char>>) -> Seq<Seq<char>> {
    if path.len() == 0 {
        path
    } else {
        path.drop_last()
    }
}

/// The schemes that specifiers may carry.
pub open spec fn known_scheme(scheme: Seq<char>) -> bool {
    scheme == "file"@ || scheme == "http"@ || scheme == "https"@
}

/// The path without its trailing empty segments (trailing slashes).
pub open spec fn drop_trailing_empty(p: Seq<Seq<char>>) -> Seq<Seq<char>>
    decreases p.len(),
{
    if p.len() > 0 && p.last().len() == 0 {
        drop_trailing_empty(p.drop_last())
    } else {
        p
    }
}

/// An empty path stands as the root path `/`: one empty segment.
pub open spec fn fill_root(p: Seq<Seq<char>>) -> Seq<Seq<char>> {
    if p.len() == 0 {
        seq![Seq::empty()]
    } else {
        p
    }
}

/// A lower-case ASCII letter.
pub open spec fn is_letter(c: char) -> bool {
    'a' <= c && c <= 'z'
}

/// A character that a host may hold.
pub open spec fn host_char(c: char) -> bool {
    is_letter(c) || ('0' <= c && c <= '9') || c == '-' || c == '.'
}

/// A host of the accepted form (see `ResolutionError::InvalidHost`).
pub open spec fn valid_host(scheme: Seq<char>, h: Seq<char>) -> bool {
    if h.len() == 0 {
        scheme == "file"@
    } else {
        &&& is_letter(h[0])
        &&& h.last() != '.'
        &&& forall|i: int| 0 <= i < h.len() ==> host_char(#[trigger] h[i])
        &&& forall|i: int|
            0 <= i < h.len() - 1 ==> (#[trigger] h[i] == '.' ==> is_letter(h[i + 1])) && !(h[i]
                == '-' && h[i + 1] == '-')
    }
}

/// The specifier that an absolute text denotes.
pub open spec fn parse_spec(s: Seq<char>) -> Result<SpecifierView, ResolutionError> {
    match index_of(s, ':') {
        None => Err(ResolutionError::Bare),
        Some(k) => {
            let scheme = s.subrange(0, k);
            let rest = s.subrange(k + 1, s.len() as int);
            if !known_scheme(scheme) {
                Err(ResolutionError::UnknownScheme)
            } else if !has_prefix(rest, "//"@) {
                Err(ResolutionError::Malformed)
            } else {
                let after = rest.subrange(2, rest.len() as int);
                match index_of(after, '/') {
                    None => if valid_host(scheme, after) {
                        Ok(SpecifierView { scheme, host: after, path: seq![Seq::empty()] })
                    } else {
                        Err(ResolutionError::InvalidHost)
                    },
                    Some(h) => if !valid_host(scheme, after.subrange(0, h)) {
                        Err(ResolutionError::InvalidHost)
                    } else {
                        match normalize(
                            Seq::empty(),
                            split_path(after.subrange(h + 1, after.len() as int)),
                        ) {
                            Some(p) => Ok(
                                SpecifierView { scheme, host: after.subrange(0, h), path: fill_root(p) },
                            ),
                            None => Err(ResolutionError::OutsideRoot),
                        }
                    },
                }
            }
        },
    }
}

/// The specifier that import text `s` names when imported from `referrer`.
/// The referrer's trailing slashes do not count.
pub open spec fn resolve_spec(s: Seq<char>, referrer: SpecifierView) -> Result<
    SpecifierView,
    ResolutionError,
> {
    if has_prefix(s, "./"@) || has_prefix(s, "../"@) {
        match normalize(dir_of(drop_trailing_empty(referrer.path)), split_path(s)) {
            Some(p) => Ok(
                SpecifierView { scheme: referrer.scheme, host: referrer.host, path: fill_root(p) },
            ),
            None => Err(ResolutionError::OutsideRoot),
        }
    } else if has_prefix(s, "/"@) {
        match normalize(Seq::empty(), split_path(s).drop_first()) {
            Some(p) => Ok(
                SpecifierView { scheme: referrer.scheme, host: referrer.host, path: fill_root(p) },
            ),
            None => Err(ResolutionError::OutsideRoot),
        }
    } else {
        parse_spec(s)
    }
}

/// The text of a specifier.
pub open spec fn text_of(v: SpecifierView) -> Seq<char> {
    v.scheme + "://"@ + v.host + "/"@ + join_path(v.path)
}

/// The view of a result of `resolve`.
pub open spec fn result_view(r: Result<ModuleSpecifier, ResolutionError>) -> Result<
    SpecifierView,
    ResolutionError,
> {
    match r {
        Ok(m) => Ok(m@),
        Err(e) => Err(e),
    }
}

impl View for ModuleSpecifier {
    type V = SpecifierView;

    closed spec fn view(&self) -> SpecifierView {
        SpecifierView { scheme: self.scheme@, host: self.host@, path: views(self.path@) }
    }
}

/// First position of `c` in `s`.
pub fn find_char(s: &str, c: char) -> (r: Option<usize>)
    ensures
        match r {
            Some(i) => index_of(s@, c) == Some(i as int),
            None => index_of(s@, c) is None,
        },
{
    let n = s.unicode_len();
    let mut i: usize = 0;
    while i < n
        invariant
            n == s@.len(),
            i <= n,
            forall|j: int| 0 <= j < i ==> s@[j] != c,
        decreases n - i,
    {
        if s.get_char(i) == c {
            assert(is_first(s@, c, i as int));
            assert forall|k: int| is_first(s@, c, k) implies k == i by {
                if k < i {
                } else if k > i {
                    assert(s@[i as int] != c);
                }
            }
            return Some(i);
        }
        i = i + 1;
    }
    assert(!exists|k: int| is_first(s@, c, k));
    None
}

proof fn lemma_split_nonempty(s: Seq<char>)
    ensures
        split_path(s).len() >= 1,
    decreases s.len(),
{
    if s.len() > 0 {
        lemma_split_nonempty(s.drop_last());
    }
}

proof fn lemma_split_drop_first(s: Seq<char>)
    requires
        s.len() > 0,
        s[0] == '/',
    ensures
        split_path(s).drop_first() == split_path(s.drop_first()),
        split_path(s).len() >= 2,
    decreases s.len(),
{
    if s.len() == 1 {
        assert(s.drop_last() =~= Seq::<char>::empty());
        assert(s.drop_first() =~= Seq::<char>::empty());
        assert(split_path(s).drop_first() =~= split_path(s.drop_first()));
    } else {
        let d = s.drop_last();
        lemma_split_drop_first(d);
        assert(s.drop_first().drop_last() =~= d.drop_first());
        assert(s.drop_first().last() == s.last());
        lemma_split_nonempty(d.drop_first());
        assert(split_path(s).drop_first() =~= split_path(s.drop_first()));
    }
}

/// The pieces of `s` between its `/` characters.
pub fn split(s: &str) -> (r: Vec<String>)
    ensures
        views(r@) == split_path(s@),
{
    let n = s.unicode_len();
    let mut segs: Vec<String> = Vec::new();
    let mut start: usize = 0;
    let mut i: usize = 0;
    assert(s@.subrange(0, 0) =~= Seq::<char>::empty());
    assert(views(segs@).push(s@.subrange(0, 0)) =~= split_path(s@.subrange(0, 0)));
    while i < n
        invariant
            n == s@.len(),
            start <= i <= n,
            views(segs@).push(s@.subrange(start as int, i as int)) == split_path(
                s@.subrange(0, i as int),
            ),
        decreases n - i,
    {
        let c = s.get_char(i);
        let ghost pre = s@.subrange(0, i as int);
        let ghost next = s@.subrange(0, i + 1);
        assert(next.drop_last() =~= pre);
        assert(next.last() == c);
        proof {
            lemma_split_nonempty(pre);
        }
        if c == '/' {
            let piece = String::from_str(s.substring_char(start, i));
            let ghost old_segs = segs@;
            segs.push(piece);
            assert(views(segs@) =~= views(old_segs).push(s@.subrange(start as int, i as int)));
            start = i + 1;
            assert(s@.subrange(start as int, i + 1) =~= Seq::<char>::empty());
            assert(views(segs@).push(s@.subrange(start as int, i + 1)) =~= split_path(next));
        } else {
            assert(s@.subrange(start as int, i + 1) =~= s@.subrange(start as int, i as int).push(c));
            assert(views(segs@).push(s@.subrange(start as int, i + 1)) =~= split_path(next));
        }
        i = i + 1;
    }
    let piece = String::from_str(s.substring_char(start, n));
    let ghost old_segs = segs@;
    segs.push(piece);
    assert(views(segs@) =~= views(old_segs).push(s@.subrange(start as int, n as int)));
    assert(s@.subrange(0, n as int) =~= s@);
    segs
}

proof fn lemma_normalize_fails_on(base: Seq<Seq<char>>, rel: Seq<Seq<char>>, i: int)
    requires
        0 <= i <= rel.len(),
        normalize(base, rel.subrange(0, i)) is None,
    ensures
        normalize(base, rel) is None,
    decreases rel.len() - i,
{
    if i < rel.len() {
        assert(rel.subrange(0, i + 1).drop_last() =~= rel.subrange(0, i));
        lemma_normalize_fails_on(base, rel, i + 1);
    } else {
        assert(rel.subrange(0, i) =~= rel);
    }
}

/// Applies the segments of `rel` to `base`; `None` when a `..` climbs above
/// the root.
pub fn normalize_segments(base: Vec<String>, rel: &Vec<String>) -> (r: Option<Vec<String>>)
    ensures
        match r {
            Some(p) => normalize(views(base@), views(rel@)) == Some(views(p@)),
            None => normalize(views(base@), views(rel@)) is None,
        },
{
    let ghost b = views(base@);
    let mut acc = base;
    let mut i: usize = 0;
    assert(views(rel@).subrange(0, 0) =~= Seq::<Seq<char>>::empty());
    while i < rel.len()
        invariant
            i <= rel@.len(),
            b == views(base@),
            normalize(b, views(rel@).subrange(0, i as int)) == Some(views(acc@)),
        decreases rel@.len() - i,
    {
        let seg = &rel[i];
        let ghost pre = views(rel@).subrange(0, i as int);
        let ghost next = views(rel@).subrange(0, i + 1);
        assert(next.drop_last() =~= pre);
        assert(next.last() == seg@);
        if str_eq(seg.as_str(), ".") {
        } else if str_eq(seg.as_str(), "..") {
            if acc.len() == 0 {
                proof {
                    lemma_normalize_fails_on(b, views(rel@), i + 1);
                }
                return None;
            }
            let ghost old_acc = acc@;
            acc.pop();
            assert(views(acc@) =~= views(old_acc).drop_last());
        } else {
            let ghost old_acc = acc@;
            acc.push(String::from_str(seg.as_str()));
            assert(views(acc@) =~= views(old_acc).push(seg@));
        }
        i = i + 1;
    }
    assert(views(rel@).subrange(0, rel@.len() as int) =~= views(rel@));
    Some(acc)
}

/// The segments of `path` joined with `/`.
pub fn join(path: &Vec<String>) -> (r: String)
    ensures
        r@ == join_path(views(path@)),
{
    let mut out = String::new();
    let mut i: usize = 0;
    assert(views(path@).subrange(0, 0) =~= Seq::<Seq<char>>::empty());
    while i < path.len()
        invariant
            i <= path@.len(),
            out@ == join_path(views(path@).subrange(0, i as int)),
        decreases path@.len() - i,
    {
        let ghost next = views(path@).subrange(0, i + 1);
        assert(next.drop_last() =~= views(path@).subrange(0, i as int));
        assert(next.last() == path@[i as int]@);
        if i > 0 {
            out.append("/");
        } else {
            assert(next =~= seq![path@[0]@]);
        }
        out.append(path[i].as_str());
        i = i + 1;
    }
    assert(views(path@).subrange(0, path@.len() as int) =~= views(path@));
    out
}

/// Whether `h` is a host of the accepted form under `scheme`.
pub fn check_host(scheme: &str, h: &str) -> (r: bool)
    ensures
        r == valid_host(scheme@, h@),
{
    let n = h.unicode_len();
    if n == 0 {
        return str_eq(scheme, "file");
    }
    let first = h.get_char(0);
    if !('a' <= first && first <= 'z') || h.get_char(n - 1) == '.' {
        return false;
    }
    let mut i: usize = 0;
    while i < n
        invariant
            n == h@.len(),
            n > 0,
            i <= n,
            forall|j: int| 0 <= j < i ==> host_char(#[trigger] h@[j]),
            forall|j: int|
                0 <= j < i && j < n - 1 ==> (#[trigger] h@[j] == '.' ==> is_letter(h@[j + 1]))
                    && !(h@[j] == '-' && h@[j + 1] == '-'),
        decreases n - i,
    {
        let c = h.get_char(i);
        if !(('a' <= c && c <= 'z') || ('0' <= c && c <= '9') || c == '-' || c == '.') {
            return false;
        }
        if i + 1 < n {
            let d = h.get_char(i + 1);
            if c == '.' && !('a' <= d && d <= 'z') {
                return false;
            }
            if c == '-' && d == '-' {
                return false;
            }
        }
        i = i + 1;
    }
    true
}

/// The path `p`, or the root path when `p` is empty.
fn fill_root_vec(p: Vec<String>) -> (r: Vec<String>)
    ensures
        views(r@) == fill_root(views(p@)),
{
    if p.len() == 0 {
        let mut v: Vec<String> = Vec::new();
        v.push(String::new());
        assert(views(v@) =~= seq![Seq::<char>::empty()]);
        v
    } else {
        p
    }
}

proof fn lemma_drop_trailing_step(p: Seq<Seq<char>>, m: int)
    requires
        0 < m <= p.len(),
        p[m - 1].len() == 0,
    ensures
        drop_trailing_empty(p.subrange(0, m)) == drop_trailing_empty(p.subrange(0, m - 1)),
{
    assert(p.subrange(0, m).drop_last() =~= p.subrange(0, m - 1));
}

/// The number of segments of `path` left after its trailing empty ones.
fn trailing_kept(path: &Vec<String>) -> (r: usize)
    ensures
        r <= path@.len(),
        drop_trailing_empty(views(path@)) == views(path@).subrange(0, r as int),
{
    let mut m: usize = path.len();
    assert(views(path@).subrange(0, m as int) =~= views(path@));
    while m > 0 && path[m - 1].as_str().unicode_len() == 0
        invariant
            m <= path@.len(),
            drop_trailing_empty(views(path@)) == drop_trailing_empty(views(path@).subrange(0, m as int)),
        decreases m,
    {
        proof {
            lemma_drop_trailing_step(views(path@), m as int);
        }
        m = m - 1;
    }
    let ghost q = views(path@).subrange(0, m as int);
    assert(m > 0 ==> q.last() == path@[m - 1]@);
    m
}

impl ModuleSpecifier {
    /// Every specifier is canonical.
    #[verifier::type_invariant]
    spec fn canonical_form(&self) -> bool {
        is_canonical(self@)
    }

    /// The canonical text `scheme://host/path`.
    pub fn as_text(&self) -> (r: String)
        ensures
            r@ == text_of(self@),
            is_canonical(self@),
    {
        proof {
            use_type_invariant(self);
        }
        let mut out = String::from_str(self.scheme.as_str());
        out.append("://");
        out.append(self.host.as_str());
        out.append("/");
        let p = join(&self.path);
        out.append(p.as_str());
        out
    }

    /// The last segment of the path (the file name), empty for an empty path.
    pub fn file_name(&self) -> (r: &str)
        ensures
            self@.path.len() == 0 ==> r@ == Seq::<char>::empty(),
            self@.path.len() > 0 ==> r@ == self@.path.last(),
    {
        let n = self.path.len();
        if n == 0 {
            proof {
                reveal_strlit("");
            }
            ""
        } else {
            self.path[n - 1].as_str()
        }
    }

    /// Parses an absolute specifier text such as `file:///dir/main.ts`.
    pub fn parse(s: &str) -> (r: Result<ModuleSpecifier, ResolutionError>)
        ensures
            result_view(r) == parse_spec(s@),
            r matches Ok(m) ==> is_canonical(m@),
    {
        proof {
            lemma_parse_canonical(s@);
        }
        let k = match find_char(s, ':') {
            None => return Err(ResolutionError::Bare),
            Some(k) => k,
        };
        let n = s.unicode_len();
        let scheme = s.substring_char(0, k);
        let rest = s.substring_char(k + 1, n);
        if !(str_eq(scheme, "file") || str_eq(scheme, "http") || str_eq(scheme, "https")) {
            return Err(ResolutionError::UnknownScheme);
        }
        if !starts_with(rest, "//") {
            return Err(ResolutionError::Malformed);
        }
        proof {
            reveal_strlit("//");
        }
        let m = rest.unicode_len();
        let after = rest.substring_char(2, m);
        let am = after.unicode_len();
        match find_char(after, '/') {
            None => {
                if !check_host(scheme, after) {
                    return Err(ResolutionError::InvalidHost);
                }
                let mut path: Vec<String> = Vec::new();
                path.push(String::new());
                assert(views(path@) =~= seq![Seq::<char>::empty()]);
                Ok(ModuleSpecifier { scheme: String::from_str(scheme), host: String::from_str(after), path })
            },
            Some(h) => {
                let host = after.substring_char(0, h);
                if !check_host(scheme, host) {
                    return Err(ResolutionError::InvalidHost);
                }
                let segs = split(after.substring_char(h + 1, am));
                let root: Vec<String> = Vec::new();
                assert(views(root@) =~= Seq::<Seq<char>>::empty());
                match normalize_segments(root, &segs) {
                    None => Err(ResolutionError::OutsideRoot),
                    Some(p) => {
                        let path = fill_root_vec(p);
                        Ok(ModuleSpecifier { scheme: String::from_str(scheme), host: String::from_str(host), path })
                    },
                }
            },
        }
    }

    /// Resolves import text `s` against the importing module `referrer`:
    /// `./` and `../` are taken relative to the referrer's directory (its
    /// trailing slashes do not count), `/` relative to its root, and anything
    /// else must be an absolute specifier.
    pub fn resolve(s: &str, referrer: &ModuleSpecifier) -> (r: Result<ModuleSpecifier, ResolutionError>)
        ensures
            result_view(r) == resolve_spec(s@, referrer@),
            is_canonical(referrer@),
            r matches Ok(m) ==> is_canonical(m@),
    {
        proof {
            use_type_invariant(referrer);
            resolve_keeps_canonical(s@, referrer@);
        }
        if starts_with(s, "./") || starts_with(s, "../") {
            let n = trailing_kept(&referrer.path);
            let mut base: Vec<String> = Vec::new();
            let mut i: usize = 0;
            while i + 1 < n
                invariant
                    n <= referrer.path@.len(),
                    i < n || n == 0,
                    i <= n,
                    views(base@) == views(referrer.path@).subrange(0, i as int),
                decreases n - i,
            {
                let ghost old_base = base@;
                let piece = String::from_str(referrer.path[i].as_str());
                base.push(piece);
                assert(views(base@) =~= views(old_base).push(piece@));
                assert(views(base@) =~= views(referrer.path@).subrange(0, i + 1));
                i = i + 1;
            }
            assert(views(base@) =~= dir_of(views(referrer.path@).subrange(0, n as int)));
            let segs = split(s);
            match normalize_segments(base, &segs) {
                None => Err(ResolutionError::OutsideRoot),
                Some(p) => Ok(
                    ModuleSpecifier {
                        scheme: String::from_str(referrer.scheme.as_str()),
                        host: String::from_str(referrer.host.as_str()),
                        path: fill_root_vec(p),
                    },
                ),
            }
        } else if starts_with(s, "/") {
            proof {
                reveal_strlit("/");
                assert(s@[0] == "/"@[0]);
                lemma_split_drop_first(s@);
            }
            let n = s.unicode_len();
            assert(s@.subrange(1, n as int) =~= s@.drop_first());
            let segs = split(s.substring_char(1, n));
            let root: Vec<String> = Vec::new();
            assert(views(root@) =~= Seq::<Seq<char>>::empty());
            match normalize_segments(root, &segs) {
                None => Err(ResolutionError::OutsideRoot),
                Some(p) => Ok(
                    ModuleSpecifier {
                        scheme: String::from_str(referrer.scheme.as_str()),
                        host: String::from_str(referrer.host.as_str()),
                        path: fill_root_vec(p),
                    },
                ),
            }
        } else {
            ModuleSpecifier::parse(s)
        }
    }
}

/// Resolution is a function of its inputs: resolving the same import text
/// against the same referrer twice yields the same specifier, with the same
/// canonical text.
pub proof fn resolve_is_deterministic(
    s: Seq<char>,
    referrer: SpecifierView,
    first: Result<SpecifierView, ResolutionError>,
    second: Result<SpecifierView, ResolutionError>,
)
    requires
        first == resolve_spec(s, referrer),
        second == resolve_spec(s, referrer),
    ensures
        first == second,
        first matches Ok(v) ==> text_of(v) == text_of(second->Ok_0),
{
}

/// A path segment of canonical form: no `/`, and neither `.` nor `..`.
pub open spec fn canonical_segment(seg: Seq<char>) -> bool {
    !seg.contains('/') && seg != "."@ && seg != ".."@
}

/// The segments of `p` are all canonical.
pub open spec fn canonical_path(p: Seq<Seq<char>>) -> bool {
    forall|i: int| 0 <= i < p.len() ==> #[trigger] canonical_segment(p[i])
}

/// The form of every specifier that `parse` and `resolve` build.
pub open spec fn is_canonical(v: SpecifierView) -> bool {
    known_scheme(v.scheme) && valid_host(v.scheme, v.host) && v.path.len() >= 1 && canonical_path(
        v.path,
    )
}

proof fn lemma_valid_host_no_slash(scheme: Seq<char>, h: Seq<char>)
    requires
        valid_host(scheme, h),
    ensures
        !h.contains('/'),
{
    if h.contains('/') {
        let i = choose|i: int| 0 <= i < h.len() && h[i] == '/';
        assert(host_char(h[i]));
    }
}

proof fn lemma_fill_root_canonical(p: Seq<Seq<char>>)
    requires
        canonical_path(p),
    ensures
        canonical_path(fill_root(p)),
        fill_root(p).len() >= 1,
{
    if p.len() == 0 {
        reveal_strlit(".");
        reveal_strlit("..");
        let e = Seq::<char>::empty();
        assert("."@.len() == 1);
        assert(".."@.len() == 2);
        assert(!e.contains('/'));
        assert(canonical_segment(e));
        assert(fill_root(p)[0] == e);
    }
}

proof fn lemma_drop_trailing_canonical(p: Seq<Seq<char>>)
    requires
        canonical_path(p),
    ensures
        canonical_path(drop_trailing_empty(p)),
    decreases p.len(),
{
    if p.len() > 0 && p.last().len() == 0 {
        let q = p.drop_last();
        assert forall|i: int| 0 <= i < q.len() implies #[trigger] canonical_segment(q[i]) by {
            assert(q[i] == p[i]);
        }
        lemma_drop_trailing_canonical(q);
    }
}

proof fn lemma_split_no_slash(s: Seq<char>)
    requires
        !s.contains('/'),
    ensures
        split_path(s) == seq![s],
    decreases s.len(),
{
    if s.len() > 0 {
        assert(!s.drop_last().contains('/')) by {
            if s.drop_last().contains('/') {
                let i = choose|i: int| 0 <= i < s.drop_last().len() && s.drop_last()[i] == '/';
                assert(s[i] == '/');
            }
        }
        lemma_split_no_slash(s.drop_last());
        assert(s.last() != '/') by {
            assert(s[s.len() - 1] == s.last());
        }
        assert(s.drop_last().push(s.last()) =~= s);
        assert(split_path(s) =~= seq![s]);
    } else {
        assert(s =~= Seq::<char>::empty());
    }
}

proof fn lemma_split_concat(a: Seq<char>, b: Seq<char>)
    ensures
        split_path(a + seq!['/'] + b) == split_path(a) + split_path(b),
    decreases b.len(),
{
    let t = a + seq!['/'] + b;
    if b.len() == 0 {
        assert(t.drop_last() =~= a);
        assert(split_path(t) =~= split_path(a) + split_path(b));
    } else {
        lemma_split_concat(a, b.drop_last());
        assert(t.drop_last() =~= a + seq!['/'] + b.drop_last());
        assert(t.last() == b.last());
        lemma_split_nonempty(b.drop_last());
        lemma_split_nonempty(a);
        assert(split_path(t) =~= split_path(a) + split_path(b));
    }
}

proof fn lemma_split_join(p: Seq<Seq<char>>)
    requires
        p.len() >= 1,
        forall|i: int| 0 <= i < p.len() ==> !(#[trigger] p[i]).contains('/'),
    ensures
        split_path(join_path(p)) == p,
    decreases p.len(),
{
    if p.len() == 1 {
        lemma_split_no_slash(p[0]);
        assert(seq![p[0]] =~= p);
    } else {
        let q = p.drop_last();
        assert forall|i: int| 0 <= i < q.len() implies !(#[trigger] q[i]).contains('/') by {
            assert(q[i] == p[i]);
        }
        lemma_split_join(q);
        reveal_strlit("/");
        assert("/"@ =~= seq!['/']);
        lemma_split_concat(join_path(q), p.last());
        assert(!p[p.len() - 1].contains('/'));
        lemma_split_no_slash(p.last());
        assert(q + seq![p.last()] =~= p);
    }
}

proof fn lemma_normalize_canonical_identity(p: Seq<Seq<char>>)
    requires
        canonical_path(p),
    ensures
        normalize(Seq::empty(), p) == Some(p),
    decreases p.len(),
{
    if p.len() > 0 {
        let q = p.drop_last();
        assert forall|i: int| 0 <= i < q.len() implies #[trigger] canonical_segment(q[i]) by {
            assert(q[i] == p[i]);
        }
        lemma_normalize_canonical_identity(q);
        assert(canonical_segment(p[p.len() - 1]));
        assert(q.push(p.last()) =~= p);
    }
}

proof fn lemma_known_scheme_chars(sc: Seq<char>)
    requires
        known_scheme(sc),
    ensures
        !sc.contains(':'),
        !sc.contains('/'),
        sc.len() > 0,
        sc[0] == 'f' || sc[0] == 'h',
{
    reveal_strlit("file");
    reveal_strlit("http");
    reveal_strlit("https");
}

proof fn lemma_first_at(s: Seq<char>, c: char, k: int)
    requires
        0 <= k < s.len(),
        s[k] == c,
        forall|j: int| 0 <= j < k ==> s[j] != c,
    ensures
        index_of(s, c) == Some(k),
{
    assert(is_first(s, c, k));
    assert forall|m: int| is_first(s, c, m) implies m == k by {
        if m < k {
        } else if m > k {
        }
    }
}

/// The canonical text of a canonical specifier with a nonempty path parses
/// back to that specifier.
pub proof fn parse_text_round_trip(v: SpecifierView)
    requires
        is_canonical(v),
    ensures
        parse_spec(text_of(v)) == Ok::<SpecifierView, ResolutionError>(v),
{
    reveal_strlit("://");
    reveal_strlit("//");
    reveal_strlit("/");
    lemma_known_scheme_chars(v.scheme);
    lemma_valid_host_no_slash(v.scheme, v.host);
    let sc = v.scheme;
    let h = v.host;
    let j = join_path(v.path);
    let t = text_of(v);
    assert(t =~= sc + seq![':', '/', '/'] + h + seq!['/'] + j);
    assert forall|i: int| 0 <= i < sc.len() implies t[i] != ':' by {
        assert(t[i] == sc[i]);
    }
    lemma_first_at(t, ':', sc.len() as int);
    let rest = t.subrange(sc.len() as int + 1, t.len() as int);
    assert(rest =~= seq!['/', '/'] + h + seq!['/'] + j);
    assert(t.subrange(0, sc.len() as int) =~= sc);
    assert(rest.subrange(0, 2) =~= "//"@);
    let after = rest.subrange(2, rest.len() as int);
    assert(after =~= h + seq!['/'] + j);
    assert forall|i: int| 0 <= i < h.len() implies after[i] != '/' by {
        assert(after[i] == h[i]);
    }
    lemma_first_at(after, '/', h.len() as int);
    assert(after.subrange(0, h.len() as int) =~= h);
    assert(after.subrange(h.len() as int + 1, after.len() as int) =~= j);
    assert forall|i: int| 0 <= i < v.path.len() implies !(#[trigger] v.path[i]).contains('/') by {
        assert(canonical_segment(v.path[i]));
    }
    lemma_split_join(v.path);
    lemma_normalize_canonical_identity(v.path);
}

proof fn lemma_index_of_found(s: Seq<char>, c: char)
    requires
        s.contains(c),
    ensures
        index_of(s, c) is Some,
    decreases s.len(),
{
    let d = s.drop_last();
    if d.contains(c) {
        lemma_index_of_found(d, c);
        let k = choose|k: int| is_first(d, c, k);
        assert(is_first(d, c, k));
        assert forall|j: int| 0 <= j < k implies s[j] != c by {
            assert(d[j] == s[j]);
        }
        assert(s[k] == d[k]);
        assert(is_first(s, c, k));
    } else {
        let i = choose|i: int| 0 <= i < s.len() && s[i] == c;
        assert forall|j: int| 0 <= j < s.len() - 1 implies s[j] != c by {
            assert(d[j] == s[j]);
        }
        assert(i == s.len() - 1);
        assert(is_first(s, c, s.len() - 1));
    }
}

proof fn lemma_split_segments(s: Seq<char>)
    ensures
        forall|i: int| 0 <= i < split_path(s).len() ==> !(#[trigger] split_path(s)[i]).contains('/'),
    decreases s.len(),
{
    if s.len() > 0 {
        lemma_split_segments(s.drop_last());
        lemma_split_nonempty(s.drop_last());
        let p = split_path(s.drop_last());
        if s.last() != '/' {
            let l = p.last().push(s.last());
            assert(!l.contains('/')) by {
                if l.contains('/') {
                    let i = choose|i: int| 0 <= i < l.len() && l[i] == '/';
                    if i < l.len() - 1 {
                        assert(p[p.len() - 1][i] == '/');
                    }
                }
            }
        }
    }
}

proof fn lemma_normalize_keeps_canonical(base: Seq<Seq<char>>, rel: Seq<Seq<char>>)
    requires
        canonical_path(base),
        forall|i: int| 0 <= i < rel.len() ==> !(#[trigger] rel[i]).contains('/'),
    ensures
        normalize(base, rel) matches Some(p) ==> canonical_path(p),
    decreases rel.len(),
{
    if rel.len() > 0 {
        let q = rel.drop_last();
        assert forall|i: int| 0 <= i < q.len() implies !(#[trigger] q[i]).contains('/') by {
            assert(q[i] == rel[i]);
        }
        lemma_normalize_keeps_canonical(base, q);
        assert(!rel[rel.len() - 1].contains('/'));
        if let Some(acc) = normalize(base, q) {
            if let Some(p) = normalize(base, rel) {
                assert forall|i: int| 0 <= i < p.len() implies #[trigger] canonical_segment(p[i]) by {
                    if i < acc.len() {
                        assert(canonical_segment(acc[i]));
                    }
                }
            }
        }
    }
}

proof fn lemma_dir_canonical(p: Seq<Seq<char>>)
    requires
        canonical_path(p),
    ensures
        canonical_path(dir_of(p)),
{
    assert forall|i: int| 0 <= i < dir_of(p).len() implies #[trigger] canonical_segment(dir_of(p)[i]) by {
        assert(dir_of(p)[i] == p[i]);
    }
}

/// Every specifier that `parse_spec` yields is canonical.
proof fn lemma_parse_canonical(s: Seq<char>)
    ensures
        parse_spec(s) matches Ok(v) ==> is_canonical(v),
{
    if let Some(k) = index_of(s, ':') {
        let rest = s.subrange(k + 1, s.len() as int);
        let after = rest.subrange(2, rest.len() as int);
        match index_of(after, '/') {
            None => {
                lemma_fill_root_canonical(Seq::empty());
                assert(fill_root(Seq::<Seq<char>>::empty()) == seq![Seq::<char>::empty()]);
            },
            Some(h) => {
                let tail = after.subrange(h + 1, after.len() as int);
                lemma_split_segments(tail);
                lemma_normalize_keeps_canonical(Seq::empty(), split_path(tail));
                if let Some(p) = normalize(Seq::empty(), split_path(tail)) {
                    lemma_fill_root_canonical(p);
                }
            },
        }
    }
}

/// Every specifier that `resolve_spec` yields from a canonical referrer is
/// canonical.
pub proof fn resolve_keeps_canonical(s: Seq<char>, referrer: SpecifierView)
    requires
        is_canonical(referrer),
    ensures
        resolve_spec(s, referrer) matches Ok(v) ==> is_canonical(v),
{
    lemma_split_segments(s);
    if has_prefix(s, "./"@) || has_prefix(s, "../"@) {
        let d = drop_trailing_empty(referrer.path);
        lemma_drop_trailing_canonical(referrer.path);
        lemma_dir_canonical(d);
        lemma_normalize_keeps_canonical(dir_of(d), split_path(s));
        if let Some(p) = normalize(dir_of(d), split_path(s)) {
            lemma_fill_root_canonical(p);
        }
    } else if has_prefix(s, "/"@) {
        lemma_split_nonempty(s);
        let q = split_path(s).drop_first();
        assert forall|i: int| 0 <= i < q.len() implies !(#[trigger] q[i]).contains('/') by {
            assert(q[i] == split_path(s)[i + 1]);
        }
        lemma_normalize_keeps_canonical(Seq::empty(), q);
        if let Some(p) = normalize(Seq::empty(), q) {
            lemma_fill_root_canonical(p);
        }
    } else {
        lemma_parse_canonical(s);
    }
}

/// Resolution is idempotent: the canonical text of a specifier resolved
/// from a canonical referrer (every `ModuleSpecifier` is one, as `resolve`
/// and `as_text` state) resolves, against any referrer, to that same
/// specifier.
pub proof fn resolve_is_idempotent(s: Seq<char>, referrer: SpecifierView, other: SpecifierView)
    requires
        is_canonical(referrer),
        resolve_spec(s, referrer) is Ok,
    ensures
        resolve_spec(text_of(resolve_spec(s, referrer)->Ok_0), other) == resolve_spec(s, referrer),
{
    let v = resolve_spec(s, referrer)->Ok_0;
    resolve_keeps_canonical(s, referrer);
    parse_text_round_trip(v);
    lemma_known_scheme_chars(v.scheme);
    reveal_strlit("./");
    reveal_strlit("../");
    reveal_strlit("/");
    reveal_strlit("://");
    let t = text_of(v);
    assert(t[0] == v.scheme[0]);
}

proof fn lemma_drop_trailing_extra(p: Seq<Seq<char>>, n: nat)
    ensures
        drop_trailing_empty(p + Seq::new(n, |i: int| Seq::<char>::empty())) == drop_trailing_empty(p),
    decreases n,
{
    let e = Seq::new(n, |i: int| Seq::<char>::empty());
    if n == 0 {
        assert(p + e =~= p);
    } else {
        let e1 = Seq::new((n - 1) as nat, |i: int| Seq::<char>::empty());
        lemma_drop_trailing_extra(p, (n - 1) as nat);
        assert((p + e).drop_last() =~= p + e1);
        assert((p + e).last() == Seq::<char>::empty());
    }
}

/// Trailing slashes on the referrer do not change resolution: a referrer
/// whose path carries `n` more empty segments (its text `n` more trailing
/// `/`) resolves every import text as the referrer itself does.
pub proof fn resolve_ignores_trailing_slashes(s: Seq<char>, referrer: SpecifierView, n: nat)
    ensures
        resolve_spec(
            s,
            SpecifierView {
                scheme: referrer.scheme,
                host: referrer.host,
                path: referrer.path + Seq::new(n, |i: int| Seq::<char>::empty()),
            },
        ) == resolve_spec(s, referrer),
{
    lemma_drop_trailing_extra(referrer.path, n);
}

} // verus!
