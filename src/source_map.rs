use vstd::prelude::*;
use crate::text::str_eq;

verus! {

/// One source map entry: a position in the generated JavaScript and the
/// position in the original source it came from (zero-based lines and
/// columns).
#[derive(Clone, Copy, Debug, PartialEq, Eq, Structural)]
pub struct Mapping {
    pub gen_line: u32,
    pub gen_col: u32,
    pub orig_line: u32,
    pub orig_col: u32,
}

/// The generated position of `m` is at or before (`line`, `col`).
pub open spec fn gen_at_or_before(m: Mapping, line: u32, col: u32) -> bool {
    m.gen_line < line || (m.gen_line == line && m.gen_col <= col)
}

/// The generated position of `a` is strictly before that of `b`.
pub open spec fn gen_before(a: Mapping, b: Mapping) -> bool {
    a.gen_line < b.gen_line || (a.gen_line == b.gen_line && a.gen_col < b.gen_col)
}

/// The entry whose generated position is the greatest one at or before
/// (`line`, `col`); of several at that position, the first.
pub open spec fn nearest(ms: Seq<Mapping>, line: u32, col: u32) -> Option<Mapping>
    decreases ms.len(),
{
    if ms.len() == 0 {
        None
    } else {
        let prev = nearest(ms.drop_last(), line, col);
        let m = ms.last();
        if gen_at_or_before(m, line, col) && (prev is None || gen_before(prev->0, m)) {
            Some(m)
        } else {
            prev
        }
    }
}

/// The original position for generated (`line`, `col`) in `ms`.
pub open spec fn translate_spec(ms: Seq<Mapping>, line: u32, col: u32) -> Option<(u32, u32)> {
    match nearest(ms, line, col) {
        Some(m) => Some((m.orig_line, m.orig_col)),
        None => None,
    }
}

/// Translates a generated position through `ms` by nearest-preceding lookup.
pub fn translate_in(ms: &Vec<Mapping>, line: u32, col: u32) -> (r: Option<(u32, u32)>)
    ensures
        r == translate_spec(ms@, line, col),
{
    let mut best: Option<Mapping> = None;
    let mut i: usize = 0;
    assert(ms@.subrange(0, 0) =~= Seq::<Mapping>::empty());
    while i < ms.len()
        invariant
            i <= ms@.len(),
            best == nearest(ms@.subrange(0, i as int), line, col),
        decreases ms@.len() - i,
    {
        let m = ms[i];
        assert(ms@.subrange(0, i + 1).drop_last() =~= ms@.subrange(0, i as int));
        let at_or_before = m.gen_line < line || (m.gen_line == line && m.gen_col <= col);
        if at_or_before {
            match best {
                None => {
                    best = Some(m);
                },
                Some(b) => {
                    if b.gen_line < m.gen_line || (b.gen_line == m.gen_line && b.gen_col
                        < m.gen_col) {
                        best = Some(m);
                    }
                },
            }
        }
        i = i + 1;
    }
    assert(ms@.subrange(0, ms@.len() as int) =~= ms@);
    match best {
        Some(m) => Some((m.orig_line, m.orig_col)),
        None => None,
    }
}

proof fn lemma_nearest_member(ms: Seq<Mapping>, line: u32, col: u32)
    ensures
        nearest(ms, line, col) matches Some(m) ==> gen_at_or_before(m, line, col)
            && exists|j: int| 0 <= j < ms.len() && ms[j] == m,
    decreases ms.len(),
{
    if ms.len() > 0 {
        lemma_nearest_member(ms.drop_last(), line, col);
        if let Some(m) = nearest(ms.drop_last(), line, col) {
            let j = choose|j: int| 0 <= j < ms.drop_last().len() && ms.drop_last()[j] == m;
            assert(ms[j] == m);
        }
    }
}

/// Round trip: a generated position that an entry of `ms` reports, and that
/// no earlier entry reports, translates to exactly that entry's original
/// position.
pub proof fn translate_round_trip(ms: Seq<Mapping>, i: int)
    requires
        0 <= i < ms.len(),
        forall|j: int|
            0 <= j < i ==> !(ms[j].gen_line == ms[i].gen_line && ms[j].gen_col == ms[i].gen_col),
    ensures
        translate_spec(ms, ms[i].gen_line, ms[i].gen_col) == Some((ms[i].orig_line, ms[i].orig_col)),
{
    lemma_nearest_round_trip(ms, i, ms.len() as int);
    assert(ms.subrange(0, ms.len() as int) =~= ms);
}

proof fn lemma_nearest_round_trip(ms: Seq<Mapping>, i: int, k: int)
    requires
        0 <= i < k <= ms.len(),
        forall|j: int|
            0 <= j < i ==> !(ms[j].gen_line == ms[i].gen_line && ms[j].gen_col == ms[i].gen_col),
    ensures
        nearest(ms.subrange(0, k), ms[i].gen_line, ms[i].gen_col) == Some(ms[i]),
    decreases k,
{
    let s = ms.subrange(0, k);
    let line = ms[i].gen_line;
    let col = ms[i].gen_col;
    assert(s.drop_last() =~= ms.subrange(0, k - 1));
    if k == i + 1 {
        lemma_nearest_member(ms.subrange(0, i), line, col);
        if let Some(p) = nearest(ms.subrange(0, i), line, col) {
            let j = choose|j: int| 0 <= j < ms.subrange(0, i).len() && ms.subrange(0, i)[j] == p;
            assert(ms[j] == p);
        }
    } else {
        lemma_nearest_round_trip(ms, i, k - 1);
    }
}

/// The source maps of the transformed modules, keyed by specifier text.
pub struct SourceMapRegistry {
    entries: Vec<RegistryEntry>,
    contents: Ghost<Map<Seq<char>, Seq<Mapping>>>,
}

struct RegistryEntry {
    specifier: String,
    mappings: Vec<Mapping>,
}

impl View for SourceMapRegistry {
    type V = Map<Seq<char>, Seq<Mapping>>;

    closed spec fn view(&self) -> Map<Seq<char>, Seq<Mapping>> {
        self.contents@
    }
}

impl SourceMapRegistry {
    /// The stored entries agree with the registry's contents, one per key.
    pub closed spec fn wf(&self) -> bool {
        &&& forall|i: int|
            #![trigger self.entries@[i]]
            0 <= i < self.entries@.len() ==> self.contents@.contains_key(
                self.entries@[i].specifier@,
            ) && self.contents@[self.entries@[i].specifier@] == self.entries@[i].mappings@
        &&& forall|k: Seq<char>|
            #![trigger self.contents@.contains_key(k)]
            self.contents@.contains_key(k) ==> exists|i: int|
                0 <= i < self.entries@.len() && self.entries@[i].specifier@ == k
        &&& forall|i: int, j: int|
            0 <= i < self.entries@.len() && 0 <= j < self.entries@.len() && i != j
                ==> self.entries@[i].specifier@ != self.entries@[j].specifier@
    }

    /// An empty registry.
    pub fn new() -> (r: SourceMapRegistry)
        ensures
            r.wf(),
            r@ == Map::<Seq<char>, Seq<Mapping>>::empty(),
    {
        SourceMapRegistry { entries: Vec::new(), contents: Ghost(Map::empty()) }
    }

    fn position(&self, specifier: &str) -> (r: Option<usize>)
        requires
            self.wf(),
        ensures
            match r {
                Some(i) => i < self.entries@.len() && self.entries@[i as int].specifier@
                    == specifier@,
                None => !self@.contains_key(specifier@),
            },
    {
        let mut i: usize = 0;
        while i < self.entries.len()
            invariant
                self.wf(),
                i <= self.entries@.len(),
                forall|j: int| 0 <= j < i ==> self.entries@[j].specifier@ != specifier@,
            decreases self.entries@.len() - i,
        {
            if str_eq(self.entries[i].specifier.as_str(), specifier) {
                return Some(i);
            }
            i = i + 1;
        }
        proof {
            if self@.contains_key(specifier@) {
                let j = choose|j: int|
                    0 <= j < self.entries@.len() && self.entries@[j].specifier@ == specifier@;
                assert(self.entries@[j].specifier@ == specifier@);
            }
        }
        None
    }

    /// Stores `mappings` as the source map of `specifier`, replacing any
    /// earlier one.
    pub fn put(&mut self, specifier: &str, mappings: Vec<Mapping>)
        requires
            old(self).wf(),
        ensures
            final(self).wf(),
            final(self)@ == old(self)@.insert(specifier@, mappings@),
    {
        let ghost m = mappings@;
        let entry = RegistryEntry { specifier: String::from_str(specifier), mappings };
        let ghost idx: int;
        match self.position(specifier) {
            Some(i) => {
                self.entries.set(i, entry);
                proof {
                    idx = i as int;
                }
            },
            None => {
                self.entries.push(entry);
                proof {
                    idx = old(self).entries@.len() as int;
                }
            },
        }
        self.contents = Ghost(self.contents@.insert(specifier@, m));
        assert(self.entries@[idx].specifier@ == specifier@);
        assert forall|k: Seq<char>|
            #![trigger self.contents@.contains_key(k)]
            self.contents@.contains_key(k) implies exists|i: int|
                0 <= i < self.entries@.len() && self.entries@[i].specifier@ == k by {
            if k != specifier@ {
                assert(old(self).contents@.contains_key(k));
                let j = choose|j: int|
                    0 <= j < old(self).entries@.len() && old(self).entries@[j].specifier@ == k;
                assert(self.entries@[j].specifier@ == k);
            } else {
                assert(self.entries@[idx].specifier@ == k);
            }
        }
    }

    /// The source map stored for `specifier`.
    pub fn get(&self, specifier: &str) -> (r: Option<&Vec<Mapping>>)
        requires
            self.wf(),
        ensures
            match r {
                Some(ms) => self@.contains_key(specifier@) && self@[specifier@] == ms@,
                None => !self@.contains_key(specifier@),
            },
    {
        match self.position(specifier) {
            Some(i) => Some(&self.entries[i].mappings),
            None => None,
        }
    }

    /// Translates generated (`line`, `col`) of module `specifier` back to
    /// its original position; `None` without a stored map or when the
    /// position precedes every entry.
    pub fn translate(&self, specifier: &str, line: u32, col: u32) -> (r: Option<(u32, u32)>)
        requires
            self.wf(),
        ensures
            r == (if self@.contains_key(specifier@) {
                translate_spec(self@[specifier@], line, col)
            } else {
                None
            }),
    {
        match self.get(specifier) {
            Some(ms) => translate_in(ms, line, col),
            None => None,
        }
    }
}

} // verus!
