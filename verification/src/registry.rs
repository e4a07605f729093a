//! The merge/dedup engine. A `SchemeSet` holds the canonical catalog being
//! built: entries keyed by unique name, plus two read-only indexes built
//! from the previously published dataset that resolve a candidate's
//! provenance version by palette or by name.

use vstd::prelude::*;
use vstd::string::*;
use crate::scheme::{
    opt_view, scheme_views, spec_nightly, spec_prepare, views_of, ParseError, ParsedScheme, Scheme,
    SchemeMetaData, SchemeView, SourceDoc, PriorRecord,
};
use crate::text::str_eq;

verus! {

/// The views of an association list of strings.
pub open spec fn pair_views(s: Seq<(String, String)>) -> Seq<(Seq<char>, Seq<char>)> {
    s.map_values(|p: (String, String)| (p.0@, p.1@))
}

/// The value under the first occurrence of `k`, if any.
pub open spec fn spec_lookup(m: Seq<(Seq<char>, Seq<char>)>, k: Seq<char>) -> Option<Seq<char>>
    decreases m.len(),
{
    if m.len() == 0 {
        None
    } else if m[0].0 == k {
        Some(m[0].1)
    } else {
        spec_lookup(m.drop_first(), k)
    }
}

/// The index of the first entry whose palette is `p`, if any.
pub open spec fn spec_find_match(es: Seq<SchemeView>, p: Seq<char>) -> Option<int>
    decreases es.len(),
{
    if es.len() == 0 {
        None
    } else if es[0].palette == p {
        Some(0)
    } else {
        match spec_find_match(es.drop_first(), p) {
            Some(i) => Some(i + 1),
            None => None,
        }
    }
}

/// The index of the first entry named `n`, if any.
pub open spec fn spec_find_name(es: Seq<SchemeView>, n: Seq<char>) -> Option<int>
    decreases es.len(),
{
    if es.len() == 0 {
        None
    } else if es[0].name == n {
        Some(0)
    } else {
        match spec_find_name(es.drop_first(), n) {
            Some(i) => Some(i + 1),
            None => None,
        }
    }
}

/// The first version any of the candidate's aliases resolves to.
pub open spec fn spec_alias_version(
    vbn: Seq<(Seq<char>, Seq<char>)>,
    aliases: Seq<Seq<char>>,
) -> Option<Seq<char>>
    decreases aliases.len(),
{
    if aliases.len() == 0 {
        None
    } else {
        match spec_lookup(vbn, aliases[0]) {
            Some(v) => Some(v),
            None => spec_alias_version(vbn, aliases.drop_first()),
        }
    }
}

/// Version resolution for a candidate: its exact palette first, then its
/// own name, then each declared alias in listed order.
pub open spec fn spec_resolve(
    vbcs: Seq<(Seq<char>, Seq<char>)>,
    vbn: Seq<(Seq<char>, Seq<char>)>,
    c: SchemeView,
) -> Option<Seq<char>> {
    match spec_lookup(vbcs, c.palette) {
        Some(v) => Some(v),
        None => match spec_lookup(vbn, c.name) {
            Some(v) => Some(v),
            None => spec_alias_version(vbn, c.aliases),
        },
    }
}

/// The candidate stamped with its resolved provenance version; untouched
/// when none resolves (an implicitly new scheme).
pub open spec fn spec_stamp(
    vbcs: Seq<(Seq<char>, Seq<char>)>,
    vbn: Seq<(Seq<char>, Seq<char>)>,
    c: SchemeView,
) -> SchemeView {
    match spec_resolve(vbcs, vbn, c) {
        Some(v) => SchemeView { version: Some(v), ..c },
        None => c,
    }
}

/// One reconciliation step. A palette match makes the candidate an alias
/// of the first matching entry; a record-equal entry is matched by the
/// same test, since record equality includes the palette. Otherwise the
/// candidate is stamped with a resolved version; an entry already under
/// its name is superseded, its alias history carried onto the candidate;
/// else the candidate becomes a new entry.
pub open spec fn spec_add_entries(
    es: Seq<SchemeView>,
    vbcs: Seq<(Seq<char>, Seq<char>)>,
    vbn: Seq<(Seq<char>, Seq<char>)>,
    c: SchemeView,
) -> Seq<SchemeView> {
    match spec_find_match(es, c.palette) {
        Some(i) => es.update(i, SchemeView { aliases: es[i].aliases.push(c.name), ..es[i] }),
        None => {
            let c2 = spec_stamp(vbcs, vbn, c);
            match spec_find_name(es, c.name) {
                Some(j) => es.update(j, SchemeView { aliases: es[j].aliases, ..c2 }),
                None => es.push(c2),
            }
        },
    }
}

proof fn lemma_find_match_at(es: Seq<SchemeView>, i: int, p: Seq<char>)
    requires
        0 <= i < es.len(),
        es[i].palette == p,
        forall|j: int| 0 <= j < i ==> es[j].palette != p,
    ensures
        spec_find_match(es, p) == Some(i),
    decreases es.len(),
{
    if i > 0 {
        lemma_find_match_at(es.drop_first(), i - 1, p);
    }
}

proof fn lemma_find_match_none(es: Seq<SchemeView>, p: Seq<char>)
    requires
        forall|j: int| 0 <= j < es.len() ==> es[j].palette != p,
    ensures
        spec_find_match(es, p) is None,
    decreases es.len(),
{
    if es.len() > 0 {
        lemma_find_match_none(es.drop_first(), p);
    }
}

proof fn lemma_find_name_at(es: Seq<SchemeView>, i: int, n: Seq<char>)
    requires
        0 <= i < es.len(),
        es[i].name == n,
        forall|j: int| 0 <= j < i ==> es[j].name != n,
    ensures
        spec_find_name(es, n) == Some(i),
    decreases es.len(),
{
    if i > 0 {
        lemma_find_name_at(es.drop_first(), i - 1, n);
    }
}

proof fn lemma_find_name_none(es: Seq<SchemeView>, n: Seq<char>)
    requires
        forall|j: int| 0 <= j < es.len() ==> es[j].name != n,
    ensures
        spec_find_name(es, n) is None,
    decreases es.len(),
{
    if es.len() > 0 {
        lemma_find_name_none(es.drop_first(), n);
    }
}

proof fn lemma_lookup_at(m: Seq<(Seq<char>, Seq<char>)>, i: int, k: Seq<char>)
    requires
        0 <= i < m.len(),
        m[i].0 == k,
        forall|j: int| 0 <= j < i ==> m[j].0 != k,
    ensures
        spec_lookup(m, k) == Some(m[i].1),
    decreases m.len(),
{
    if i > 0 {
        lemma_lookup_at(m.drop_first(), i - 1, k);
    }
}

proof fn lemma_lookup_none(m: Seq<(Seq<char>, Seq<char>)>, k: Seq<char>)
    requires
        forall|j: int| 0 <= j < m.len() ==> m[j].0 != k,
    ensures
        spec_lookup(m, k) is None,
    decreases m.len(),
{
    if m.len() > 0 {
        lemma_lookup_none(m.drop_first(), k);
    }
}

/// Looks a key up in an association list.
fn assoc_get(m: &Vec<(String, String)>, k: &str) -> (r: Option<String>)
    ensures
        opt_view(r) == spec_lookup(pair_views(m@), k@),
{
    let n = m.len();
    let mut i: usize = 0;
    while i < n
        invariant
            n == m@.len(),
            i <= n,
            forall|j: int| 0 <= j < i ==> pair_views(m@)[j].0 != k@,
        decreases n - i,
    {
        if str_eq(k, m[i].0.as_str()) {
            proof {
                lemma_lookup_at(pair_views(m@), i as int, k@);
            }
            return Some(m[i].1.clone());
        }
        i = i + 1;
    }
    proof {
        lemma_lookup_none(pair_views(m@), k@);
    }
    None
}

/// The canonical catalog being built in one run.
pub struct SchemeSet {
    pub by_name: Vec<Scheme>,
    pub version_by_color_scheme: Vec<(String, String)>,
    pub version_by_name: Vec<(String, String)>,
}

impl SchemeSet {
    /// The entry records as mathematical values.
    pub open spec fn entries(self) -> Seq<SchemeView> {
        scheme_views(self.by_name@)
    }

    /// The palette-to-version index as mathematical values.
    pub open spec fn vbcs(self) -> Seq<(Seq<char>, Seq<char>)> {
        pair_views(self.version_by_color_scheme@)
    }

    /// The name-to-version index as mathematical values.
    pub open spec fn vbn(self) -> Seq<(Seq<char>, Seq<char>)> {
        pair_views(self.version_by_name@)
    }

    /// Entry names are unique, as are the keys of both version indexes.
    pub open spec fn wf(self) -> bool {
        &&& forall|i: int, j: int|
            0 <= i < j < self.entries().len() ==> self.entries()[i].name != self.entries()[j].name
        &&& forall|i: int, j: int|
            0 <= i < j < self.vbcs().len() ==> self.vbcs()[i].0 != self.vbcs()[j].0
        &&& forall|i: int, j: int|
            0 <= i < j < self.vbn().len() ==> self.vbn()[i].0 != self.vbn()[j].0
    }

    /// An empty catalog.
    pub fn new() -> (r: Self)
        ensures
            r.wf(),
            r.entries().len() == 0,
            r.vbcs().len() == 0,
            r.vbn().len() == 0,
    {
        SchemeSet {
            by_name: Vec::new(),
            version_by_color_scheme: Vec::new(),
            version_by_name: Vec::new(),
        }
    }

    /// Resolves the candidate's provenance version from the loaded
    /// indexes.
    fn resolve_version(&self, candidate: &Scheme) -> (r: Option<String>)
        ensures
            opt_view(r) == spec_resolve(self.vbcs(), self.vbn(), candidate@),
    {
        if let Some(v) = assoc_get(&self.version_by_color_scheme, candidate.palette.as_str()) {
            return Some(v);
        }
        if let Some(v) = assoc_get(&self.version_by_name, candidate.name.as_str()) {
            return Some(v);
        }
        let ghost av = views_of(candidate.metadata.aliases@);
        let n = candidate.metadata.aliases.len();
        let mut i: usize = 0;
        proof {
            assert(av.skip(0) =~= av);
        }
        while i < n
            invariant
                n == candidate.metadata.aliases@.len(),
                av == views_of(candidate.metadata.aliases@),
                av == candidate@.aliases,
                i <= n,
                spec_lookup(self.vbcs(), candidate@.palette) is None,
                spec_lookup(self.vbn(), candidate@.name) is None,
                spec_alias_version(self.vbn(), av.skip(i as int)) == spec_alias_version(
                    self.vbn(),
                    av,
                ),
            decreases n - i,
        {
            proof {
                assert(av.skip(i as int)[0] == av[i as int]);
                assert(av.skip(i as int).drop_first() =~= av.skip(i + 1));
            }
            if let Some(v) = assoc_get(&self.version_by_name, candidate.metadata.aliases[i].as_str())
                {
                return Some(v);
            }
            i = i + 1;
        }
        proof {
            assert(av.skip(n as int).len() == 0);
        }
        None
    }

    /// Reconciles one candidate into the catalog.
    pub fn add(&mut self, candidate: Scheme)
        requires
            old(self).wf(),
        ensures
            final(self).wf(),
            final(self).entries() == spec_add_entries(
                old(self).entries(),
                old(self).vbcs(),
                old(self).vbn(),
                candidate@,
            ),
            final(self).vbcs() == old(self).vbcs(),
            final(self).vbn() == old(self).vbn(),
    {
        let ghost es0 = self.entries();
        let ghost c0 = candidate@;
        let pm = find_palette_idx(&self.by_name, candidate.palette.as_str());
        if let Some(i) = pm {
            proof {
                lemma_find_match_at(es0, i as int, c0.palette);
            }
            let ghost oldal = self.by_name@[i as int].metadata.aliases@;
            let mut e = self.by_name.remove(i);
            e.metadata.aliases.push(candidate.name);
            self.by_name.insert(i, e);
            proof {
                assert(e.metadata.aliases@ == oldal.push(candidate.name));
                assert(views_of(e.metadata.aliases@) =~= views_of(oldal).push(c0.name));
                assert(es0[i as int].aliases == views_of(oldal));
                assert(e@ == SchemeView {
                    aliases: es0[i as int].aliases.push(c0.name),
                    ..es0[i as int]
                });
                assert(self.entries() =~= es0.update(i as int, e@));
                assert(spec_add_entries(es0, old(self).vbcs(), old(self).vbn(), c0) == es0.update(
                    i as int,
                    e@,
                ));
                assert forall|a: int, b: int|
                    0 <= a < b < self.entries().len() implies self.entries()[a].name
                    != self.entries()[b].name by {
                    assert(self.entries()[a].name == es0[a].name);
                    assert(self.entries()[b].name == es0[b].name);
                    assert(es0[a].name != es0[b].name);
                }
            }
            return;
        }
        proof {
            lemma_find_match_none(es0, c0.palette);
        }
        let mut candidate = candidate;
        if let Some(v) = self.resolve_version(&candidate) {
            candidate.metadata.wezterm_version = Some(v);
        }
        proof {
            assert(candidate@ == spec_stamp(old(self).vbcs(), old(self).vbn(), c0));
        }
        let ghost c2 = candidate@;
        let nm = find_name_idx(&self.by_name, candidate.name.as_str());
        if let Some(j) = nm {
            proof {
                lemma_find_name_at(es0, j as int, c0.name);
            }
            let old_e = self.by_name.remove(j);
            candidate.metadata.aliases = old_e.metadata.aliases;
            self.by_name.insert(j, candidate);
            proof {
                assert(self.entries() =~= es0.update(
                    j as int,
                    SchemeView { aliases: es0[j as int].aliases, ..c2 },
                ));
                assert(spec_add_entries(es0, old(self).vbcs(), old(self).vbn(), c0) == es0.update(
                    j as int,
                    SchemeView { aliases: es0[j as int].aliases, ..c2 },
                ));
                assert forall|a: int, b: int|
                    0 <= a < b < self.entries().len() implies self.entries()[a].name
                    != self.entries()[b].name by {
                    assert(self.entries()[a].name == es0[a].name);
                    assert(self.entries()[b].name == es0[b].name);
                    assert(es0[a].name != es0[b].name);
                }
            }
            return;
        }
        proof {
            lemma_find_name_none(es0, c0.name);
        }
        self.by_name.push(candidate);
        proof {
            assert(self.entries() =~= es0.push(c2));
            assert(spec_add_entries(es0, old(self).vbcs(), old(self).vbn(), c0) == es0.push(c2));
            assert forall|a: int, b: int|
                0 <= a < b < self.entries().len() implies self.entries()[a].name
                != self.entries()[b].name by {
                if b < es0.len() {
                    assert(self.entries()[a].name == es0[a].name);
                    assert(self.entries()[b].name == es0[b].name);
                    assert(es0[a].name != es0[b].name);
                } else {
                    assert(self.entries()[a].name == es0[a].name);
                    assert(self.entries()[b].name == c2.name);
                    assert(es0[a].name != c0.name);
                }
            }
        }
    }
}

/// The index of the first record whose palette is `p`, if any.
fn find_palette_idx(v: &Vec<Scheme>, p: &str) -> (r: Option<usize>)
    ensures
        match r {
            Some(i) => i < v@.len() && scheme_views(v@)[i as int].palette == p@ && forall|j: int|
                0 <= j < i ==> scheme_views(v@)[j].palette != p@,
            None => forall|j: int| 0 <= j < v@.len() ==> scheme_views(v@)[j].palette != p@,
        },
{
    let n = v.len();
    let mut i: usize = 0;
    while i < n
        invariant
            n == v@.len(),
            i <= n,
            forall|j: int| 0 <= j < i ==> scheme_views(v@)[j].palette != p@,
        decreases n - i,
    {
        proof {
            assert(scheme_views(v@)[i as int] == v@[i as int]@);
        }
        if str_eq(p, v[i].palette.as_str()) {
            return Some(i);
        }
        i = i + 1;
    }
    None
}

/// The index of the first record named `n`, if any.
fn find_name_idx(v: &Vec<Scheme>, name: &str) -> (r: Option<usize>)
    ensures
        match r {
            Some(i) => i < v@.len() && scheme_views(v@)[i as int].name == name@ && forall|j: int|
                0 <= j < i ==> scheme_views(v@)[j].name != name@,
            None => forall|j: int| 0 <= j < v@.len() ==> scheme_views(v@)[j].name != name@,
        },
{
    let n = v.len();
    let mut i: usize = 0;
    while i < n
        invariant
            n == v@.len(),
            i <= n,
            forall|j: int| 0 <= j < i ==> scheme_views(v@)[j].name != name@,
        decreases n - i,
    {
        proof {
            assert(scheme_views(v@)[i as int] == v@[i as int]@);
        }
        if str_eq(name, v[i].name.as_str()) {
            return Some(i);
        }
        i = i + 1;
    }
    None
}

} // verus!

verus! {

/// Reconciling a stream of candidates in encounter order.
pub open spec fn spec_fold_add(
    es: Seq<SchemeView>,
    vbcs: Seq<(Seq<char>, Seq<char>)>,
    vbn: Seq<(Seq<char>, Seq<char>)>,
    cs: Seq<SchemeView>,
) -> Seq<SchemeView>
    decreases cs.len(),
{
    if cs.len() == 0 {
        es
    } else {
        spec_fold_add(spec_add_entries(es, vbcs, vbn, cs[0]), vbcs, vbn, cs.drop_first())
    }
}

impl SchemeSet {
    /// Reconciles a whole source's candidates, in order.
    pub fn accumulate(&mut self, to_add: Vec<Scheme>)
        requires
            old(self).wf(),
        ensures
            final(self).wf(),
            final(self).entries() == spec_fold_add(
                old(self).entries(),
                old(self).vbcs(),
                old(self).vbn(),
                scheme_views(to_add@),
            ),
            final(self).vbcs() == old(self).vbcs(),
            final(self).vbn() == old(self).vbn(),
    {
        let ghost goal = spec_fold_add(
            self.entries(),
            self.vbcs(),
            self.vbn(),
            scheme_views(to_add@),
        );
        let mut rest = to_add;
        while rest.len() > 0
            invariant
                self.wf(),
                self.vbcs() == old(self).vbcs(),
                self.vbn() == old(self).vbn(),
                goal == spec_fold_add(
                    old(self).entries(),
                    old(self).vbcs(),
                    old(self).vbn(),
                    scheme_views(to_add@),
                ),
                spec_fold_add(self.entries(), self.vbcs(), self.vbn(), scheme_views(rest@))
                    == goal,
            decreases rest.len(),
        {
            let ghost pre = scheme_views(rest@);
            let c = rest.remove(0);
            proof {
                assert(pre[0] == c@);
                assert(scheme_views(rest@) =~= pre.drop_first());
            }
            self.add(c);
        }
        proof {
            assert(scheme_views(rest@).len() == 0);
        }
    }
}

/// The candidates a source's documents prepare into, in order: each
/// successfully parsed document becomes one candidate; malformed ones are
/// skipped.
pub open spec fn spec_prepared(
    docs: Seq<SourceDoc>,
    repo: Seq<char>,
    suffix: Seq<char>,
) -> Seq<SchemeView>
    decreases docs.len(),
{
    if docs.len() == 0 {
        Seq::<SchemeView>::empty()
    } else {
        let rest = spec_prepared(docs.drop_first(), repo, suffix);
        match docs[0].parsed {
            Ok(p) => seq![
                spec_prepare(
                    opt_view(p.name),
                    p.palette@,
                    views_of(p.aliases@),
                    opt_view(p.origin_url),
                    docs[0].file_stem@,
                    repo,
                    suffix,
                ),
            ] + rest,
            Err(_) => rest,
        }
    }
}

/// The parse failures among a source's documents, in order.
pub open spec fn spec_parse_failures(docs: Seq<SourceDoc>) -> Seq<Seq<char>>
    decreases docs.len(),
{
    if docs.len() == 0 {
        Seq::<Seq<char>>::empty()
    } else {
        let rest = spec_parse_failures(docs.drop_first());
        match docs[0].parsed {
            Ok(_) => rest,
            Err(e) => seq![e.message@] + rest,
        }
    }
}

/// The messages of a list of parse errors.
pub open spec fn error_views(es: Seq<ParseError>) -> Seq<Seq<char>> {
    es.map_values(|e: ParseError| e.message@)
}

impl SchemeSet {
    /// Merges one source archive's documents: every well-formed document
    /// is prepared and reconciled, in order; each malformed one is
    /// reported in the result and skipped, never aborting the run.
    pub fn merge_parsed(&mut self, repo_url: &str, suffix: &str, docs: Vec<SourceDoc>) -> (failures:
        Vec<ParseError>)
        requires
            old(self).wf(),
        ensures
            final(self).wf(),
            final(self).entries() == spec_fold_add(
                old(self).entries(),
                old(self).vbcs(),
                old(self).vbn(),
                spec_prepared(docs@, repo_url@, suffix@),
            ),
            final(self).vbcs() == old(self).vbcs(),
            final(self).vbn() == old(self).vbn(),
            error_views(failures@) == spec_parse_failures(docs@),
    {
        let ghost goal = spec_fold_add(
            self.entries(),
            self.vbcs(),
            self.vbn(),
            spec_prepared(docs@, repo_url@, suffix@),
        );
        let ghost all_failures = spec_parse_failures(docs@);
        let mut failures: Vec<ParseError> = Vec::new();
        let mut rest = docs;
        while rest.len() > 0
            invariant
                self.wf(),
                self.vbcs() == old(self).vbcs(),
                self.vbn() == old(self).vbn(),
                goal == spec_fold_add(
                    old(self).entries(),
                    old(self).vbcs(),
                    old(self).vbn(),
                    spec_prepared(docs@, repo_url@, suffix@),
                ),
                all_failures == spec_parse_failures(docs@),
                spec_fold_add(
                    self.entries(),
                    self.vbcs(),
                    self.vbn(),
                    spec_prepared(rest@, repo_url@, suffix@),
                ) == goal,
                error_views(failures@) + spec_parse_failures(rest@) == all_failures,
            decreases rest.len(),
        {
            let ghost pre = rest@;
            let d = rest.remove(0);
            let ghost d0 = d;
            proof {
                assert(pre[0] == d0);
                assert(rest@ =~= pre.drop_first());
            }
            match d.parsed {
                Ok(p) => {
                    let ghost p0 = p;
                    let candidate = crate::scheme::prepare_candidate(
                        p,
                        d.file_stem,
                        repo_url,
                        suffix,
                    );
                    proof {
                        assert(spec_prepared(pre, repo_url@, suffix@)[0] == candidate@);
                        assert(spec_prepared(pre, repo_url@, suffix@).drop_first()
                            =~= spec_prepared(pre.drop_first(), repo_url@, suffix@));
                        assert(spec_parse_failures(pre) == spec_parse_failures(pre.drop_first()));
                    }
                    self.add(candidate);
                },
                Err(e) => {
                    proof {
                        assert(spec_prepared(pre, repo_url@, suffix@) == spec_prepared(
                            pre.drop_first(),
                            repo_url@,
                            suffix@,
                        ));
                        assert(spec_parse_failures(pre) =~= seq![e.message@] + spec_parse_failures(
                            pre.drop_first(),
                        ));
                    }
                    let ghost fv0 = error_views(failures@);
                    failures.push(e);
                    proof {
                        assert(error_views(failures@) =~= fv0.push(e.message@));
                        assert(error_views(failures@) + spec_parse_failures(rest@)
                            =~= fv0 + spec_parse_failures(pre));
                    }
                },
            }
        }
        proof {
            assert(spec_prepared(rest@, repo_url@, suffix@).len() == 0);
            assert(spec_parse_failures(rest@).len() == 0);
            assert(error_views(failures@) + spec_parse_failures(rest@) =~= error_views(failures@));
        }
        failures
    }
}

} // verus!

verus! {

/// The index of the first pair keyed `k`, if any.
pub open spec fn spec_map_find(m: Seq<(Seq<char>, Seq<char>)>, k: Seq<char>) -> Option<int>
    decreases m.len(),
{
    if m.len() == 0 {
        None
    } else if m[0].0 == k {
        Some(0)
    } else {
        match spec_map_find(m.drop_first(), k) {
            Some(i) => Some(i + 1),
            None => None,
        }
    }
}

/// Inserting `k -> v`: an existing entry for `k` is overwritten in place,
/// a missing one appended.
pub open spec fn spec_upsert(
    m: Seq<(Seq<char>, Seq<char>)>,
    k: Seq<char>,
    v: Seq<char>,
) -> Seq<(Seq<char>, Seq<char>)> {
    match spec_map_find(m, k) {
        Some(i) => m.update(i, (k, v)),
        None => m.push((k, v)),
    }
}

/// Inserting every key of `keys`, in order, all mapping to `v`.
pub open spec fn spec_upsert_all(
    m: Seq<(Seq<char>, Seq<char>)>,
    keys: Seq<Seq<char>>,
    v: Seq<char>,
) -> Seq<(Seq<char>, Seq<char>)>
    decreases keys.len(),
{
    if keys.len() == 0 {
        m
    } else {
        spec_upsert_all(spec_upsert(m, keys[0], v), keys.drop_first(), v)
    }
}

/// Inserting a record under its name: an entry already so named is
/// replaced in place, else the record is appended.
pub open spec fn spec_entry_upsert(es: Seq<SchemeView>, e: SchemeView) -> Seq<SchemeView> {
    match spec_find_name(es, e.name) {
        Some(j) => es.update(j, e),
        None => es.push(e),
    }
}

/// The record of the previously published dataset as an entry value.
pub open spec fn prior_entry_view(r: PriorRecord) -> SchemeView {
    SchemeView {
        name: r.name@,
        file_name: None,
        palette: r.palette@,
        aliases: views_of(r.aliases@),
        origin_url: opt_view(r.origin_url),
        version: opt_view(r.wezterm_version),
    }
}

/// The palette-to-version index the prior dataset builds: each versioned
/// record indexes its palette.
pub open spec fn spec_load_vbcs_from(
    m: Seq<(Seq<char>, Seq<char>)>,
    rs: Seq<PriorRecord>,
) -> Seq<(Seq<char>, Seq<char>)>
    decreases rs.len(),
{
    if rs.len() == 0 {
        m
    } else {
        let m2 = match rs[0].wezterm_version {
            Some(v) => spec_upsert(m, rs[0].palette@, v@),
            None => m,
        };
        spec_load_vbcs_from(m2, rs.drop_first())
    }
}

/// The name-to-version index the prior dataset builds: each versioned
/// record indexes its name and all its aliases.
pub open spec fn spec_load_vbn_from(
    m: Seq<(Seq<char>, Seq<char>)>,
    rs: Seq<PriorRecord>,
) -> Seq<(Seq<char>, Seq<char>)>
    decreases rs.len(),
{
    if rs.len() == 0 {
        m
    } else {
        let m2 = match rs[0].wezterm_version {
            Some(v) => spec_upsert_all(spec_upsert(m, rs[0].name@, v@), views_of(rs[0].aliases@), v@),
            None => m,
        };
        spec_load_vbn_from(m2, rs.drop_first())
    }
}

/// The entries the prior dataset rebuilds: each record with palette data
/// becomes an entry under its name; placeholders are skipped.
pub open spec fn spec_load_entries_from(
    es: Seq<SchemeView>,
    rs: Seq<PriorRecord>,
) -> Seq<SchemeView>
    decreases rs.len(),
{
    if rs.len() == 0 {
        es
    } else {
        let es2 = if rs[0].has_ansi {
            spec_entry_upsert(es, prior_entry_view(rs[0]))
        } else {
            es
        };
        spec_load_entries_from(es2, rs.drop_first())
    }
}

proof fn lemma_map_find_at(m: Seq<(Seq<char>, Seq<char>)>, i: int, k: Seq<char>)
    requires
        0 <= i < m.len(),
        m[i].0 == k,
        forall|j: int| 0 <= j < i ==> m[j].0 != k,
    ensures
        spec_map_find(m, k) == Some(i),
    decreases m.len(),
{
    if i > 0 {
        lemma_map_find_at(m.drop_first(), i - 1, k);
    }
}

proof fn lemma_map_find_none(m: Seq<(Seq<char>, Seq<char>)>, k: Seq<char>)
    requires
        forall|j: int| 0 <= j < m.len() ==> m[j].0 != k,
    ensures
        spec_map_find(m, k) is None,
    decreases m.len(),
{
    if m.len() > 0 {
        lemma_map_find_none(m.drop_first(), k);
    }
}

/// The index of the first pair keyed `k`, if any.
fn find_pair_idx(m: &Vec<(String, String)>, k: &str) -> (r: Option<usize>)
    ensures
        match r {
            Some(i) => i < m@.len() && pair_views(m@)[i as int].0 == k@ && forall|j: int|
                0 <= j < i ==> pair_views(m@)[j].0 != k@,
            None => forall|j: int| 0 <= j < m@.len() ==> pair_views(m@)[j].0 != k@,
        },
{
    let n = m.len();
    let mut i: usize = 0;
    while i < n
        invariant
            n == m@.len(),
            i <= n,
            forall|j: int| 0 <= j < i ==> pair_views(m@)[j].0 != k@,
        decreases n - i,
    {
        proof {
            assert(pair_views(m@)[i as int].0 == m@[i as int].0@);
        }
        if str_eq(k, m[i].0.as_str()) {
            return Some(i);
        }
        i = i + 1;
    }
    None
}

/// Unique keys in an association list.
pub open spec fn map_keys_unique(m: Seq<(Seq<char>, Seq<char>)>) -> bool {
    forall|i: int, j: int| 0 <= i < j < m.len() ==> m[i].0 != m[j].0
}

/// Inserts or overwrites one key of an association list.
fn map_upsert(m: &mut Vec<(String, String)>, k: String, v: String)
    requires
        map_keys_unique(pair_views(old(m)@)),
    ensures
        pair_views(final(m)@) == spec_upsert(pair_views(old(m)@), k@, v@),
        map_keys_unique(pair_views(final(m)@)),
{
    let ghost m0 = pair_views(m@);
    let pos = find_pair_idx(m, k.as_str());
    if let Some(i) = pos {
        proof {
            lemma_map_find_at(m0, i as int, k@);
        }
        m.remove(i);
        m.insert(i, (k, v));
        proof {
            assert(pair_views(m@) =~= m0.update(i as int, (k@, v@)));
            assert forall|a: int, b: int|
                0 <= a < b < pair_views(m@).len() implies pair_views(m@)[a].0
                != pair_views(m@)[b].0 by {
                assert(pair_views(m@)[a].0 == m0[a].0);
                assert(pair_views(m@)[b].0 == m0[b].0);
                assert(m0[a].0 != m0[b].0);
            }
        }
    } else {
        proof {
            lemma_map_find_none(m0, k@);
        }
        m.push((k, v));
        proof {
            assert(pair_views(m@) =~= m0.push((k@, v@)));
            assert forall|a: int, b: int|
                0 <= a < b < pair_views(m@).len() implies pair_views(m@)[a].0
                != pair_views(m@)[b].0 by {
                if b < m0.len() {
                    assert(pair_views(m@)[a].0 == m0[a].0);
                    assert(pair_views(m@)[b].0 == m0[b].0);
                    assert(m0[a].0 != m0[b].0);
                } else {
                    assert(pair_views(m@)[a].0 == m0[a].0);
                    assert(pair_views(m@)[b].0 == k@);
                    assert(m0[a].0 != k@);
                }
            }
        }
    }
}

/// Unique names in a list of entries.
pub open spec fn entry_names_unique(es: Seq<SchemeView>) -> bool {
    forall|i: int, j: int| 0 <= i < j < es.len() ==> es[i].name != es[j].name
}

/// Inserts or replaces one named record of the entry list.
fn entry_upsert(v: &mut Vec<Scheme>, e: Scheme)
    requires
        entry_names_unique(scheme_views(old(v)@)),
    ensures
        scheme_views(final(v)@) == spec_entry_upsert(scheme_views(old(v)@), e@),
        entry_names_unique(scheme_views(final(v)@)),
{
    let ghost es0 = scheme_views(v@);
    let pos = find_name_idx(v, e.name.as_str());
    if let Some(j) = pos {
        proof {
            lemma_find_name_at(es0, j as int, e@.name);
        }
        v.remove(j);
        v.insert(j, e);
        proof {
            assert(scheme_views(v@) =~= es0.update(j as int, e@));
            assert forall|a: int, b: int|
                0 <= a < b < scheme_views(v@).len() implies scheme_views(v@)[a].name
                != scheme_views(v@)[b].name by {
                assert(scheme_views(v@)[a].name == es0[a].name);
                assert(scheme_views(v@)[b].name == es0[b].name);
                assert(es0[a].name != es0[b].name);
            }
        }
    } else {
        proof {
            lemma_find_name_none(es0, e@.name);
        }
        v.push(e);
        proof {
            assert(scheme_views(v@) =~= es0.push(e@));
            assert forall|a: int, b: int|
                0 <= a < b < scheme_views(v@).len() implies scheme_views(v@)[a].name
                != scheme_views(v@)[b].name by {
                if b < es0.len() {
                    assert(scheme_views(v@)[a].name == es0[a].name);
                    assert(scheme_views(v@)[b].name == es0[b].name);
                    assert(es0[a].name != es0[b].name);
                } else {
                    assert(scheme_views(v@)[a].name == es0[a].name);
                    assert(scheme_views(v@)[b].name == e@.name);
                    assert(es0[a].name != e@.name);
                }
            }
        }
    }
}

impl SchemeSet {
    /// Builds the registry from the previously published canonical
    /// dataset: versioned records feed the two provenance indexes, and
    /// records with palette data are rebuilt as entries.
    pub fn load_existing(records: Vec<PriorRecord>) -> (r: SchemeSet)
        ensures
            r.wf(),
            r.vbcs() == spec_load_vbcs_from(Seq::<(Seq<char>, Seq<char>)>::empty(), records@),
            r.vbn() == spec_load_vbn_from(Seq::<(Seq<char>, Seq<char>)>::empty(), records@),
            r.entries() == spec_load_entries_from(Seq::<SchemeView>::empty(), records@),
    {
        let ghost goal_vbcs = spec_load_vbcs_from(
            Seq::<(Seq<char>, Seq<char>)>::empty(),
            records@,
        );
        let ghost goal_vbn = spec_load_vbn_from(Seq::<(Seq<char>, Seq<char>)>::empty(), records@);
        let ghost goal_es = spec_load_entries_from(Seq::<SchemeView>::empty(), records@);
        let mut s = SchemeSet::new();
        proof {
            assert(s.vbcs() =~= Seq::<(Seq<char>, Seq<char>)>::empty());
            assert(s.vbn() =~= Seq::<(Seq<char>, Seq<char>)>::empty());
            assert(s.entries() =~= Seq::<SchemeView>::empty());
        }
        let mut rest = records;
        while rest.len() > 0
            invariant
                s.wf(),
                spec_load_vbcs_from(s.vbcs(), rest@) == goal_vbcs,
                spec_load_vbn_from(s.vbn(), rest@) == goal_vbn,
                spec_load_entries_from(s.entries(), rest@) == goal_es,
            decreases rest.len(),
        {
            let ghost pre = rest@;
            let rec = rest.remove(0);
            let ghost rec0 = rec;
            proof {
                assert(pre[0] == rec0);
                assert(rest@ =~= pre.drop_first());
            }
            match &rec.wezterm_version {
                Some(v) => {
                    map_upsert(&mut s.version_by_color_scheme, rec.palette.clone(), v.clone());
                    map_upsert(&mut s.version_by_name, rec.name.clone(), v.clone());
                    let ghost av = views_of(rec.aliases@);
                    let ghost vbn_target = spec_upsert_all(s.vbn(), av, v@);
                    let ghost s_mid = s;
                    let na = rec.aliases.len();
                    let mut ai: usize = 0;
                    proof {
                        assert(av.skip(0) =~= av);
                    }
                    while ai < na
                        invariant
                            na == rec.aliases@.len(),
                            av == views_of(rec.aliases@),
                            ai <= na,
                            s_mid.wf(),
                            s.by_name@ == s_mid.by_name@,
                            s.version_by_color_scheme@ == s_mid.version_by_color_scheme@,
                            map_keys_unique(s.vbn()),
                            spec_upsert_all(s.vbn(), av.skip(ai as int), v@) == vbn_target,
                        decreases na - ai,
                    {
                        proof {
                            assert(av.skip(ai as int)[0] == av[ai as int]);
                            assert(av.skip(ai as int).drop_first() =~= av.skip(ai + 1));
                            assert(av[ai as int] == rec.aliases@[ai as int]@);
                        }
                        map_upsert(&mut s.version_by_name, rec.aliases[ai].clone(), v.clone());
                        ai = ai + 1;
                    }
                    proof {
                        assert(av.skip(na as int).len() == 0);
                        assert(s.vbn() == vbn_target);
                        assert(s.wf());
                    }
                },
                None => {},
            }
            if rec.has_ansi {
                let e = Scheme {
                    name: rec.name,
                    file_name: None,
                    palette: rec.palette,
                    metadata: SchemeMetaData {
                        aliases: rec.aliases,
                        origin_url: rec.origin_url,
                        wezterm_version: rec.wezterm_version,
                    },
                };
                proof {
                    assert(e@ == prior_entry_view(rec0));
                }
                entry_upsert(&mut s.by_name, e);
            }
        }
        proof {
            assert(rest@.len() == 0);
        }
        s
    }
}

} // verus!

verus! {

/// Inserting an alias into a sorted, duplicate-free list: a duplicate is
/// dropped, otherwise the alias lands at its ordered position.
pub open spec fn spec_insert_uniq(xs: Seq<Seq<char>>, x: Seq<char>) -> Seq<Seq<char>>
    decreases xs.len(),
{
    if xs.len() == 0 {
        seq![x]
    } else if x == xs[0] {
        xs
    } else if crate::text::spec_str_le(x, xs[0]) {
        seq![x] + xs
    } else {
        seq![xs[0]] + spec_insert_uniq(xs.drop_first(), x)
    }
}

/// Sorting an alias list and dropping duplicates, by repeated ordered
/// insertion.
pub open spec fn spec_sort_uniq_from(acc: Seq<Seq<char>>, al: Seq<Seq<char>>) -> Seq<Seq<char>>
    decreases al.len(),
{
    if al.len() == 0 {
        acc
    } else {
        spec_sort_uniq_from(spec_insert_uniq(acc, al[0]), al.drop_first())
    }
}

/// Every occurrence of `name` removed.
pub open spec fn spec_drop_name(xs: Seq<Seq<char>>, name: Seq<char>) -> Seq<Seq<char>>
    decreases xs.len(),
{
    if xs.len() == 0 {
        xs
    } else if xs[0] == name {
        spec_drop_name(xs.drop_first(), name)
    } else {
        seq![xs[0]] + spec_drop_name(xs.drop_first(), name)
    }
}

/// An entry's alias set as published: sorted, duplicate-free, and without
/// the entry's own name.
pub open spec fn spec_norm_aliases(al: Seq<Seq<char>>, name: Seq<char>) -> Seq<Seq<char>> {
    spec_drop_name(spec_sort_uniq_from(Seq::<Seq<char>>::empty(), al), name)
}

/// An entry with its alias list normalized for publication.
pub open spec fn spec_normalize_entry(e: SchemeView) -> SchemeView {
    SchemeView { aliases: spec_norm_aliases(e.aliases, e.name), ..e }
}

/// The publication order: by the name's first alphanumeric character,
/// case-insensitively, tie-broken by the case-folded full name.
pub open spec fn spec_key_le(a: SchemeView, b: SchemeView) -> bool {
    let pa = crate::text::spec_prefix_char(a.name);
    let pb = crate::text::spec_prefix_char(b.name);
    if (pa as u32) < (pb as u32) {
        true
    } else if (pa as u32) > (pb as u32) {
        false
    } else {
        crate::text::spec_str_le(crate::text::spec_lower(a.name), crate::text::spec_lower(b.name))
    }
}

/// Inserting an entry at its ordered position.
pub open spec fn spec_sort_insert(xs: Seq<SchemeView>, x: SchemeView) -> Seq<SchemeView>
    decreases xs.len(),
{
    if xs.len() == 0 {
        seq![x]
    } else if spec_key_le(x, xs[0]) {
        seq![x] + xs
    } else {
        seq![xs[0]] + spec_sort_insert(xs.drop_first(), x)
    }
}

/// Sorting entries by repeated ordered insertion.
pub open spec fn spec_sort_from(acc: Seq<SchemeView>, es: Seq<SchemeView>) -> Seq<SchemeView>
    decreases es.len(),
{
    if es.len() == 0 {
        acc
    } else {
        spec_sort_from(spec_sort_insert(acc, es[0]), es.drop_first())
    }
}

/// The full publication order of a list of entries.
pub open spec fn spec_sort_entries(es: Seq<SchemeView>) -> Seq<SchemeView> {
    spec_sort_from(Seq::<SchemeView>::empty(), es)
}

/// The names of the unreleased entries, in listed order.
pub open spec fn spec_nightly_names(es: Seq<SchemeView>) -> Seq<Seq<char>>
    decreases es.len(),
{
    if es.len() == 0 {
        Seq::<Seq<char>>::empty()
    } else {
        let rest = spec_nightly_names(es.drop_first());
        if es[0].version == Some(spec_nightly()) {
            seq![es[0].name] + rest
        } else {
            rest
        }
    }
}

/// Inserts an alias into a sorted, duplicate-free list.
fn insert_alias(xs: Vec<String>, x: String) -> (r: Vec<String>)
    ensures
        views_of(r@) == spec_insert_uniq(views_of(xs@), x@),
    decreases xs@.len(),
{
    let ghost xs0 = views_of(xs@);
    let mut xs = xs;
    if xs.len() == 0 {
        let mut r: Vec<String> = Vec::new();
        r.push(x);
        proof {
            assert(views_of(r@) =~= seq![x@]);
        }
        return r;
    }
    let first = xs.remove(0);
    proof {
        assert(views_of(xs@) =~= xs0.drop_first());
        assert(first@ == xs0[0]);
    }
    if str_eq(x.as_str(), first.as_str()) {
        xs.insert(0, first);
        proof {
            assert(views_of(xs@) =~= xs0);
        }
        return xs;
    }
    if crate::text::str_le(x.as_str(), first.as_str()) {
        xs.insert(0, first);
        xs.insert(0, x);
        proof {
            assert(views_of(xs@) =~= seq![xs0[0]].insert(0, x@) + xs0.drop_first());
            assert(views_of(xs@) =~= seq![x@] + xs0);
        }
        return xs;
    }
    let mut r = insert_alias(xs, x);
    proof {
        assert(views_of(r@) == spec_insert_uniq(xs0.drop_first(), x@));
    }
    r.insert(0, first);
    proof {
        assert(views_of(r@) =~= seq![xs0[0]] + spec_insert_uniq(xs0.drop_first(), x@));
    }
    r
}

/// Sorts an alias list and drops duplicates.
fn sort_aliases(al: Vec<String>) -> (r: Vec<String>)
    ensures
        views_of(r@) == spec_sort_uniq_from(Seq::<Seq<char>>::empty(), views_of(al@)),
    decreases al@.len(),
{
    let ghost goal = spec_sort_uniq_from(Seq::<Seq<char>>::empty(), views_of(al@));
    let mut acc: Vec<String> = Vec::new();
    proof {
        assert(views_of(acc@) =~= Seq::<Seq<char>>::empty());
    }
    let mut rest = al;
    while rest.len() > 0
        invariant
            spec_sort_uniq_from(views_of(acc@), views_of(rest@)) == goal,
        decreases rest.len(),
    {
        let ghost pre = views_of(rest@);
        let a = rest.remove(0);
        proof {
            assert(pre[0] == a@);
            assert(views_of(rest@) =~= pre.drop_first());
        }
        acc = insert_alias(acc, a);
    }
    proof {
        assert(views_of(rest@).len() == 0);
    }
    acc
}

/// Removes the entry's own name from its alias list.
fn drop_name(xs: Vec<String>, name: &str) -> (r: Vec<String>)
    ensures
        views_of(r@) == spec_drop_name(views_of(xs@), name@),
{
    let ghost goal = spec_drop_name(views_of(xs@), name@);
    let mut out: Vec<String> = Vec::new();
    proof {
        assert(views_of(out@) =~= Seq::<Seq<char>>::empty());
        assert(views_of(out@) + goal =~= goal);
    }
    let mut rest = xs;
    while rest.len() > 0
        invariant
            views_of(out@) + spec_drop_name(views_of(rest@), name@) == goal,
        decreases rest.len(),
    {
        let ghost pre = views_of(rest@);
        let ghost out0 = views_of(out@);
        let a = rest.remove(0);
        proof {
            assert(pre[0] == a@);
            assert(views_of(rest@) =~= pre.drop_first());
        }
        if !str_eq(a.as_str(), name) {
            out.push(a);
            proof {
                assert(views_of(out@) =~= out0.push(a@));
                assert(views_of(out@) + spec_drop_name(views_of(rest@), name@) =~= out0 + (seq![
                    a@,
                ] + spec_drop_name(pre.drop_first(), name@)));
            }
        }
    }
    proof {
        assert(spec_drop_name(views_of(rest@), name@).len() == 0);
        assert(views_of(out@) + spec_drop_name(views_of(rest@), name@) =~= views_of(out@));
    }
    out
}

/// Normalizes one entry's alias list for publication.
fn normalize_entry(e: Scheme) -> (r: Scheme)
    ensures
        r@ == spec_normalize_entry(e@),
{
    let Scheme { name, file_name, palette, metadata } = e;
    let SchemeMetaData { aliases, origin_url, wezterm_version } = metadata;
    let sorted = sort_aliases(aliases);
    let kept = drop_name(sorted, name.as_str());
    Scheme {
        name,
        file_name,
        palette,
        metadata: SchemeMetaData { aliases: kept, origin_url, wezterm_version },
    }
}

/// Decides the publication order of two entries.
fn key_le(a: &Scheme, b: &Scheme) -> (r: bool)
    requires
        crate::text::spec_has_sort_char(a@.name),
        crate::text::spec_has_sort_char(b@.name),
    ensures
        r == spec_key_le(a@, b@),
{
    let (pa, la) = crate::text::make_prefix(a.name.as_str());
    let (pb, lb) = crate::text::make_prefix(b.name.as_str());
    if (pa as u32) < (pb as u32) {
        true
    } else if (pa as u32) > (pb as u32) {
        false
    } else {
        crate::text::str_le(la.as_str(), lb.as_str())
    }
}

/// Inserts an entry at its ordered position.
fn insert_entry(xs: Vec<Scheme>, x: Scheme) -> (r: Vec<Scheme>)
    requires
        crate::text::spec_has_sort_char(x@.name),
        forall|i: int|
            0 <= i < xs@.len() ==> crate::text::spec_has_sort_char(scheme_views(xs@)[i].name),
    ensures
        scheme_views(r@) == spec_sort_insert(scheme_views(xs@), x@),
        forall|i: int|
            0 <= i < r@.len() ==> crate::text::spec_has_sort_char(scheme_views(r@)[i].name),
    decreases xs@.len(),
{
    let ghost xs0 = scheme_views(xs@);
    let mut xs = xs;
    if xs.len() == 0 {
        let mut r: Vec<Scheme> = Vec::new();
        r.push(x);
        proof {
            assert(scheme_views(r@) =~= seq![x@]);
        }
        return r;
    }
    let first = xs.remove(0);
    proof {
        assert(scheme_views(xs@) =~= xs0.drop_first());
        assert(first@ == xs0[0]);
    }
    if key_le(&x, &first) {
        xs.insert(0, first);
        xs.insert(0, x);
        proof {
            assert(scheme_views(xs@) =~= seq![x@] + xs0);
        }
        return xs;
    }
    proof {
        assert(forall|i: int|
            0 <= i < xs@.len() ==> scheme_views(xs@)[i] == xs0.drop_first()[i]);
    }
    let mut r = insert_entry(xs, x);
    r.insert(0, first);
    proof {
        assert(scheme_views(r@) =~= seq![xs0[0]] + spec_sort_insert(xs0.drop_first(), x@));
    }
    r
}

impl SchemeSet {
    /// Produces the canonical output of the run: every entry with its
    /// alias list normalized, in publication order, together with the
    /// names of the unreleased entries for the changelog summary.
    pub fn finalize(self) -> (r: (Vec<Scheme>, Vec<String>))
        requires
            forall|i: int|
                0 <= i < self.entries().len() ==> crate::text::spec_has_sort_char(
                    self.entries()[i].name,
                ),
        ensures
            scheme_views(r.0@) == spec_sort_entries(
                self.entries().map_values(|e: SchemeView| spec_normalize_entry(e)),
            ),
            views_of(r.1@) == spec_nightly_names(scheme_views(r.0@)),
    {
        let ghost goal_norm = self.entries().map_values(|e: SchemeView| spec_normalize_entry(e));
        let mut norm: Vec<Scheme> = Vec::new();
        proof {
            assert(scheme_views(norm@) =~= Seq::<SchemeView>::empty());
        }
        let mut rest = self.by_name;
        while rest.len() > 0
            invariant
                scheme_views(norm@) + scheme_views(rest@).map_values(
                    |e: SchemeView| spec_normalize_entry(e),
                ) == goal_norm,
                forall|i: int|
                    0 <= i < norm@.len() ==> crate::text::spec_has_sort_char(
                        scheme_views(norm@)[i].name,
                    ),
                forall|i: int|
                    0 <= i < rest@.len() ==> crate::text::spec_has_sort_char(
                        scheme_views(rest@)[i].name,
                    ),
            decreases rest.len(),
        {
            let ghost pre = scheme_views(rest@);
            let ghost norm0 = scheme_views(norm@);
            let e = rest.remove(0);
            proof {
                assert(pre[0] == e@);
                assert(scheme_views(rest@) =~= pre.drop_first());
            }
            let ne = normalize_entry(e);
            norm.push(ne);
            proof {
                assert(scheme_views(norm@) =~= norm0.push(ne@));
                assert(pre.map_values(|x: SchemeView| spec_normalize_entry(x)) =~= seq![
                    spec_normalize_entry(pre[0]),
                ] + pre.drop_first().map_values(|x: SchemeView| spec_normalize_entry(x)));
                assert(scheme_views(norm@) + scheme_views(rest@).map_values(
                    |x: SchemeView| spec_normalize_entry(x),
                ) =~= norm0 + pre.map_values(|x: SchemeView| spec_normalize_entry(x)));
            }
        }
        proof {
            assert(scheme_views(rest@).map_values(|e: SchemeView| spec_normalize_entry(e)).len()
                == 0);
            assert(scheme_views(norm@) + scheme_views(rest@).map_values(
                |e: SchemeView| spec_normalize_entry(e),
            ) =~= scheme_views(norm@));
            assert(scheme_views(norm@) == goal_norm);
        }
        let ghost goal_sorted = spec_sort_entries(goal_norm);
        let mut sorted: Vec<Scheme> = Vec::new();
        proof {
            assert(scheme_views(sorted@) =~= Seq::<SchemeView>::empty());
        }
        let mut rest2 = norm;
        while rest2.len() > 0
            invariant
                spec_sort_from(scheme_views(sorted@), scheme_views(rest2@)) == goal_sorted,
                forall|i: int|
                    0 <= i < sorted@.len() ==> crate::text::spec_has_sort_char(
                        scheme_views(sorted@)[i].name,
                    ),
                forall|i: int|
                    0 <= i < rest2@.len() ==> crate::text::spec_has_sort_char(
                        scheme_views(rest2@)[i].name,
                    ),
            decreases rest2.len(),
        {
            let ghost pre = scheme_views(rest2@);
            let e = rest2.remove(0);
            proof {
                assert(pre[0] == e@);
                assert(scheme_views(rest2@) =~= pre.drop_first());
            }
            sorted = insert_entry(sorted, e);
        }
        proof {
            assert(scheme_views(rest2@).len() == 0);
            assert(scheme_views(sorted@) == goal_sorted);
        }
        let ghost sv = scheme_views(sorted@);
        let mut new_names: Vec<String> = Vec::new();
        let n = sorted.len();
        let mut i: usize = 0;
        proof {
            assert(sv.skip(0) =~= sv);
            assert(views_of(new_names@) =~= Seq::<Seq<char>>::empty());
            assert(views_of(new_names@) + spec_nightly_names(sv) =~= spec_nightly_names(sv));
        }
        while i < n
            invariant
                n == sorted@.len(),
                sv == scheme_views(sorted@),
                i <= n,
                views_of(new_names@) + spec_nightly_names(sv.skip(i as int)) == spec_nightly_names(
                    sv,
                ),
            decreases n - i,
        {
            let ghost nn0 = views_of(new_names@);
            proof {
                assert(sv.skip(i as int)[0] == sv[i as int]);
                assert(sv.skip(i as int).drop_first() =~= sv.skip(i + 1));
                assert(sv[i as int] == sorted@[i as int]@);
            }
            let is_new = match &sorted[i].metadata.wezterm_version {
                Some(v) => str_eq(v.as_str(), "nightly builds only"),
                None => false,
            };
            if is_new {
                new_names.push(sorted[i].name.clone());
                proof {
                    assert(views_of(new_names@) =~= nn0.push(sv[i as int].name));
                    assert(views_of(new_names@) + spec_nightly_names(sv.skip(i + 1)) =~= nn0 + (
                    seq![sv[i as int].name] + spec_nightly_names(sv.skip(i + 1))));
                }
            }
            i = i + 1;
        }
        proof {
            assert(spec_nightly_names(sv.skip(n as int)).len() == 0);
            assert(views_of(new_names@) + spec_nightly_names(sv.skip(n as int)) =~= views_of(
                new_names@,
            ));
        }
        (sorted, new_names)
    }
}

} // verus!

verus! {

proof fn lemma_find_match_none_all(es: Seq<SchemeView>, p: Seq<char>)
    requires
        spec_find_match(es, p) is None,
    ensures
        forall|j: int| 0 <= j < es.len() ==> es[j].palette != p,
    decreases es.len(),
{
    if es.len() > 0 {
        lemma_find_match_none_all(es.drop_first(), p);
        assert forall|j: int| 0 <= j < es.len() implies es[j].palette != p by {
            if j > 0 {
                assert(es.drop_first()[j - 1] == es[j]);
            }
        }
    }
}

proof fn lemma_find_name_some(es: Seq<SchemeView>, n: Seq<char>)
    requires
        spec_find_name(es, n) is Some,
    ensures
        0 <= spec_find_name(es, n)->0 < es.len(),
        es[spec_find_name(es, n)->0].name == n,
    decreases es.len(),
{
    if es.len() > 0 && es[0].name != n {
        lemma_find_name_some(es.drop_first(), n);
    }
}

/// Alias transitivity: after candidate `a` enters as a new entry, a later
/// candidate `b` with an identical palette but any name becomes an alias
/// of `a`'s entry — `b.name` is appended to that entry's alias list and
/// no separate top-level entry for `b` exists.
pub proof fn lemma_alias_transitivity(
    es: Seq<SchemeView>,
    vbcs: Seq<(Seq<char>, Seq<char>)>,
    vbn: Seq<(Seq<char>, Seq<char>)>,
    a: SchemeView,
    b: SchemeView,
)
    requires
        spec_find_match(es, a.palette) is None,
        spec_find_name(es, a.name) is None,
        b.palette == a.palette,
    ensures
        ({
            let es1 = spec_add_entries(es, vbcs, vbn, a);
            let es2 = spec_add_entries(es1, vbcs, vbn, b);
            &&& es1.len() == es.len() + 1
            &&& es2.len() == es.len() + 1
            &&& es2[es.len() as int].name == a.name
            &&& es2[es.len() as int].aliases == a.aliases.push(b.name)
            &&& forall|k: int| 0 <= k < es.len() ==> es2[k] == es[k]
        }),
{
    let a2 = spec_stamp(vbcs, vbn, a);
    let es1 = spec_add_entries(es, vbcs, vbn, a);
    assert(es1 == es.push(a2));
    lemma_find_match_none_all(es, a.palette);
    assert forall|j: int| 0 <= j < es.len() implies es1[j].palette != b.palette by {
        assert(es1[j] == es[j]);
    }
    assert(es1[es.len() as int] == a2);
    assert(a2.palette == a.palette);
    lemma_find_match_at(es1, es.len() as int, b.palette);
    let es2 = spec_add_entries(es1, vbcs, vbn, b);
    assert(es2 == es1.update(
        es.len() as int,
        SchemeView { aliases: a2.aliases.push(b.name), ..a2 },
    ));
}

/// Version propagation: a candidate whose exact palette is indexed with a
/// prior version, and which matches no current entry's palette, lands in
/// the catalog under its name carrying that version, not unset.
pub proof fn lemma_version_propagation(
    es: Seq<SchemeView>,
    vbcs: Seq<(Seq<char>, Seq<char>)>,
    vbn: Seq<(Seq<char>, Seq<char>)>,
    c: SchemeView,
    v: Seq<char>,
)
    requires
        spec_lookup(vbcs, c.palette) == Some(v),
        spec_find_match(es, c.palette) is None,
    ensures
        ({
            let es2 = spec_add_entries(es, vbcs, vbn, c);
            match spec_find_name(es, c.name) {
                Some(j) => {
                    &&& es2.len() == es.len()
                    &&& es2[j].name == c.name
                    &&& es2[j].palette == c.palette
                    &&& es2[j].version == Some(v)
                },
                None => {
                    &&& es2.len() == es.len() + 1
                    &&& es2[es.len() as int].name == c.name
                    &&& es2[es.len() as int].palette == c.palette
                    &&& es2[es.len() as int].version == Some(v)
                },
            }
        }),
{
    let c2 = spec_stamp(vbcs, vbn, c);
    assert(c2.version == Some(v));
    if spec_find_name(es, c.name) is Some {
        lemma_find_name_some(es, c.name);
    }
}

/// Name-collision carry-forward: a candidate that matches no palette but
/// whose name is already taken supersedes that entry, and the old entry's
/// alias list is retained on the new one.
pub proof fn lemma_collision_carry_forward(
    es: Seq<SchemeView>,
    vbcs: Seq<(Seq<char>, Seq<char>)>,
    vbn: Seq<(Seq<char>, Seq<char>)>,
    c: SchemeView,
)
    requires
        spec_find_match(es, c.palette) is None,
        spec_find_name(es, c.name) is Some,
    ensures
        ({
            let j = spec_find_name(es, c.name)->0;
            let es2 = spec_add_entries(es, vbcs, vbn, c);
            &&& 0 <= j < es.len()
            &&& es2.len() == es.len()
            &&& es2[j].name == c.name
            &&& es2[j].palette == c.palette
            &&& es2[j].aliases == es[j].aliases
            &&& forall|k: int| 0 <= k < es.len() && k != j ==> es2[k] == es[k]
        }),
{
    lemma_find_name_some(es, c.name);
}

/// Re-adding a candidate whose palette the catalog already holds changes
/// no entry's name, palette or version, and creates no entry: only the
/// first matching entry's alias list grows by the candidate's name.
pub proof fn lemma_readd_alias_only(
    es: Seq<SchemeView>,
    vbcs: Seq<(Seq<char>, Seq<char>)>,
    vbn: Seq<(Seq<char>, Seq<char>)>,
    c: SchemeView,
)
    requires
        spec_find_match(es, c.palette) is Some,
    ensures
        ({
            let i = spec_find_match(es, c.palette)->0;
            let es2 = spec_add_entries(es, vbcs, vbn, c);
            &&& es2.len() == es.len()
            &&& forall|k: int|
                0 <= k < es.len() ==> es2[k].name == es[k].name && es2[k].palette == es[k].palette
                    && es2[k].version == es[k].version
            &&& 0 <= i < es.len()
            &&& es2[i].aliases == es[i].aliases.push(c.name)
            &&& forall|k: int| 0 <= k < es.len() && k != i ==> es2[k].aliases == es[k].aliases
        }),
{
    lemma_find_match_some(es, c.palette);
}

proof fn lemma_find_match_some(es: Seq<SchemeView>, p: Seq<char>)
    requires
        spec_find_match(es, p) is Some,
    ensures
        0 <= spec_find_match(es, p)->0 < es.len(),
        es[spec_find_match(es, p)->0].palette == p,
    decreases es.len(),
{
    if es.len() > 0 && es[0].palette != p {
        lemma_find_match_some(es.drop_first(), p);
    }
}

/// Entries standing in publication order.
pub open spec fn entries_sorted(es: Seq<SchemeView>) -> bool {
    forall|i: int, j: int| 0 <= i < j < es.len() ==> spec_key_le(es[i], es[j])
}

pub proof fn lemma_key_le_total(a: SchemeView, b: SchemeView)
    ensures
        spec_key_le(a, b) || spec_key_le(b, a),
{
    crate::text::lemma_str_le_total(
        crate::text::spec_lower(a.name),
        crate::text::spec_lower(b.name),
    );
}

pub proof fn lemma_key_le_trans(a: SchemeView, b: SchemeView, c: SchemeView)
    requires
        spec_key_le(a, b),
        spec_key_le(b, c),
    ensures
        spec_key_le(a, c),
{
    let pa = crate::text::spec_prefix_char(a.name);
    let pb = crate::text::spec_prefix_char(b.name);
    let pc = crate::text::spec_prefix_char(c.name);
    if (pa as u32) == (pb as u32) && (pb as u32) == (pc as u32) {
        crate::text::lemma_str_le_trans(
            crate::text::spec_lower(a.name),
            crate::text::spec_lower(b.name),
            crate::text::spec_lower(c.name),
        );
    }
}

proof fn lemma_sort_insert_lower_bound(xs: Seq<SchemeView>, x: SchemeView, b: SchemeView)
    requires
        spec_key_le(b, x),
        forall|k: int| 0 <= k < xs.len() ==> spec_key_le(b, xs[k]),
    ensures
        forall|k: int|
            0 <= k < spec_sort_insert(xs, x).len() ==> spec_key_le(b, spec_sort_insert(xs, x)[k]),
    decreases xs.len(),
{
    if xs.len() == 0 {
        assert(spec_sort_insert(xs, x)[0] == x);
    } else if spec_key_le(x, xs[0]) {
        assert forall|k: int|
            0 <= k < spec_sort_insert(xs, x).len() implies spec_key_le(
            b,
            spec_sort_insert(xs, x)[k],
        ) by {
            if k == 0 {
                assert(spec_sort_insert(xs, x)[0] == x);
            } else {
                assert(spec_sort_insert(xs, x)[k] == xs[k - 1]);
            }
        }
    } else {
        assert forall|k: int| 0 <= k < xs.drop_first().len() implies spec_key_le(
            b,
            xs.drop_first()[k],
        ) by {
            assert(xs.drop_first()[k] == xs[k + 1]);
        }
        lemma_sort_insert_lower_bound(xs.drop_first(), x, b);
        assert forall|k: int|
            0 <= k < spec_sort_insert(xs, x).len() implies spec_key_le(
            b,
            spec_sort_insert(xs, x)[k],
        ) by {
            if k == 0 {
                assert(spec_sort_insert(xs, x)[0] == xs[0]);
            } else {
                assert(spec_sort_insert(xs, x)[k] == spec_sort_insert(xs.drop_first(), x)[k - 1]);
            }
        }
    }
}

proof fn lemma_sort_insert_sorted(xs: Seq<SchemeView>, x: SchemeView)
    requires
        entries_sorted(xs),
    ensures
        entries_sorted(spec_sort_insert(xs, x)),
        spec_sort_insert(xs, x).len() == xs.len() + 1,
    decreases xs.len(),
{
    if xs.len() == 0 {
    } else if spec_key_le(x, xs[0]) {
        let r = seq![x] + xs;
        assert forall|i: int, j: int| 0 <= i < j < r.len() implies spec_key_le(r[i], r[j]) by {
            if i == 0 {
                if j > 1 {
                    lemma_key_le_trans(x, xs[0], xs[j - 1]);
                }
            } else {
                assert(r[i] == xs[i - 1]);
                assert(r[j] == xs[j - 1]);
            }
        }
    } else {
        assert forall|i: int, j: int|
            0 <= i < j < xs.drop_first().len() implies spec_key_le(
            xs.drop_first()[i],
            xs.drop_first()[j],
        ) by {
            assert(xs.drop_first()[i] == xs[i + 1]);
            assert(xs.drop_first()[j] == xs[j + 1]);
        }
        lemma_sort_insert_sorted(xs.drop_first(), x);
        lemma_key_le_total(x, xs[0]);
        assert forall|k: int| 0 <= k < xs.drop_first().len() implies spec_key_le(
            xs[0],
            xs.drop_first()[k],
        ) by {
            assert(xs.drop_first()[k] == xs[k + 1]);
        }
        lemma_sort_insert_lower_bound(xs.drop_first(), x, xs[0]);
        let r = seq![xs[0]] + spec_sort_insert(xs.drop_first(), x);
        assert forall|i: int, j: int| 0 <= i < j < r.len() implies spec_key_le(r[i], r[j]) by {
            if i > 0 {
                assert(r[i] == spec_sort_insert(xs.drop_first(), x)[i - 1]);
                assert(r[j] == spec_sort_insert(xs.drop_first(), x)[j - 1]);
            } else {
                assert(r[j] == spec_sort_insert(xs.drop_first(), x)[j - 1]);
            }
        }
    }
}

proof fn lemma_sort_from_sorted(acc: Seq<SchemeView>, es: Seq<SchemeView>)
    requires
        entries_sorted(acc),
    ensures
        entries_sorted(spec_sort_from(acc, es)),
    decreases es.len(),
{
    if es.len() > 0 {
        lemma_sort_insert_sorted(acc, es[0]);
        lemma_sort_from_sorted(spec_sort_insert(acc, es[0]), es.drop_first());
    }
}

/// Sort order: the publication order of `finalize` holds of its whole
/// output — entries stand by their first alphanumeric character,
/// case-insensitively, tie-broken by the case-folded full name.
pub proof fn lemma_sort_entries_sorted(es: Seq<SchemeView>)
    ensures
        entries_sorted(spec_sort_entries(es)),
{
    lemma_sort_from_sorted(Seq::<SchemeView>::empty(), es);
}

} // verus!

verus! {

proof fn lemma_sort_uniq_push(acc: Seq<Seq<char>>, al: Seq<Seq<char>>, x: Seq<char>)
    ensures
        spec_sort_uniq_from(acc, al.push(x)) == spec_insert_uniq(spec_sort_uniq_from(acc, al), x),
    decreases al.len(),
{
    if al.len() == 0 {
        assert(al.push(x)[0] == x);
        assert(al.push(x).drop_first() =~= al);
        assert(spec_sort_uniq_from(acc, al.push(x)) == spec_sort_uniq_from(
            spec_insert_uniq(acc, x),
            al,
        ));
        assert(spec_sort_uniq_from(spec_insert_uniq(acc, x), al) == spec_insert_uniq(acc, x));
        assert(spec_sort_uniq_from(acc, al) == acc);
    } else {
        assert(al.push(x)[0] == al[0]);
        assert(al.push(x).drop_first() =~= al.drop_first().push(x));
        assert(spec_sort_uniq_from(acc, al.push(x)) == spec_sort_uniq_from(
            spec_insert_uniq(acc, al[0]),
            al.drop_first().push(x),
        ));
        lemma_sort_uniq_push(spec_insert_uniq(acc, al[0]), al.drop_first(), x);
        assert(spec_sort_uniq_from(acc, al) == spec_sort_uniq_from(
            spec_insert_uniq(acc, al[0]),
            al.drop_first(),
        ));
    }
}

proof fn lemma_drop_insert_self(s: Seq<Seq<char>>, name: Seq<char>)
    ensures
        spec_drop_name(spec_insert_uniq(s, name), name) == spec_drop_name(s, name),
    decreases s.len(),
{
    if s.len() == 0 {
        assert(spec_insert_uniq(s, name) =~= seq![name]);
        assert(seq![name].drop_first() =~= s);
    } else if name == s[0] {
    } else if crate::text::spec_str_le(name, s[0]) {
        assert((seq![name] + s)[0] == name);
        assert((seq![name] + s).drop_first() =~= s);
    } else {
        lemma_drop_insert_self(s.drop_first(), name);
        let r = seq![s[0]] + spec_insert_uniq(s.drop_first(), name);
        assert(r[0] == s[0]);
        assert(r.drop_first() =~= spec_insert_uniq(s.drop_first(), name));
        assert(spec_drop_name(r, name) =~= seq![s[0]] + spec_drop_name(
            spec_insert_uniq(s.drop_first(), name),
            name,
        ));
        assert(spec_drop_name(s, name) =~= seq![s[0]] + spec_drop_name(s.drop_first(), name));
    }
}

/// Re-encountering a scheme under its entry's own name — as a repeated
/// run does for every unchanged source — appends that name to the alias
/// list, and normalization removes it again: the published alias list is
/// unchanged.
pub proof fn lemma_self_alias_normalizes_away(al: Seq<Seq<char>>, name: Seq<char>)
    ensures
        spec_norm_aliases(al.push(name), name) == spec_norm_aliases(al, name),
{
    lemma_sort_uniq_push(Seq::<Seq<char>>::empty(), al, name);
    lemma_drop_insert_self(spec_sort_uniq_from(Seq::<Seq<char>>::empty(), al), name);
}

} // verus!
