//! The mapping store: loading dictionary sources into a mapping set and
//! serving exact lookups.
//!
//! A dictionary source yields a header (column labels) and data rows; rows
//! are merged in order into one set of `key -> Mapping` entries, later
//! sources overwriting earlier ones on duplicate keys. Keys and values are
//! trimmed of surrounding whitespace; rows with an empty key or value after
//! trimming are skipped.
use vstd::prelude::*;

use crate::text;

verus! {

use crate::text::spec_trim;

/// One translation entry: the labels of its two columns and the target text.
/// The source text it is keyed by lives beside it in a [`MappingEntry`].
#[derive(Debug, PartialEq)]
pub struct Mapping {
    pub source_name: String,
    pub target_name: String,
    pub value: String,
}

/// Mathematical model of a [`Mapping`].
pub ghost struct MappingModel {
    pub source_name: Seq<char>,
    pub target_name: Seq<char>,
    pub value: Seq<char>,
}

impl View for Mapping {
    type V = MappingModel;

    open spec fn view(&self) -> MappingModel {
        MappingModel {
            source_name: self.source_name@,
            target_name: self.target_name@,
            value: self.value@,
        }
    }
}

impl DeepView for Mapping {
    type V = MappingModel;

    open spec fn deep_view(&self) -> MappingModel {
        self@
    }
}

/// A key (trimmed source text) together with its mapping.
#[derive(Debug, PartialEq)]
pub struct MappingEntry {
    pub key: String,
    pub mapping: Mapping,
}

/// Mathematical model of a [`MappingEntry`].
pub ghost struct EntryModel {
    pub key: Seq<char>,
    pub mapping: MappingModel,
}

impl View for MappingEntry {
    type V = EntryModel;

    open spec fn view(&self) -> EntryModel {
        EntryModel { key: self.key@, mapping: self.mapping@ }
    }
}

impl DeepView for MappingEntry {
    type V = EntryModel;

    open spec fn deep_view(&self) -> EntryModel {
        self@
    }
}

/// An already-tokenized dictionary source: where it came from, its header
/// cells (at least two are required: source label, target label) and its
/// data rows (each needs at least two cells: source text, target text).
#[derive(Debug, PartialEq)]
pub struct DictionarySource {
    pub location: String,
    pub header: Vec<String>,
    pub rows: Vec<Vec<String>>,
}

/// Mathematical model of a [`DictionarySource`].
pub ghost struct SourceModel {
    pub location: Seq<char>,
    pub header: Seq<Seq<char>>,
    pub rows: Seq<Seq<Seq<char>>>,
}

impl View for DictionarySource {
    type V = SourceModel;

    open spec fn view(&self) -> SourceModel {
        SourceModel {
            location: self.location@,
            header: self.header.deep_view(),
            rows: self.rows.deep_view(),
        }
    }
}

impl DeepView for DictionarySource {
    type V = SourceModel;

    open spec fn deep_view(&self) -> SourceModel {
        self@
    }
}

/// Why a load failed. A failure discards the whole batch: no partial set is
/// ever published.
#[derive(Debug, PartialEq)]
pub enum LoadError {
    /// The source's header has fewer than two columns or could not be read.
    MalformedSource { location: String },
    /// A data row (at the given 1-based line, counting the header as line 1)
    /// has fewer than two columns.
    RowError { location: String, line: usize },
    /// A set is already published and the store does not reload.
    AlreadyLoaded,
}

/// Mathematical model of a [`LoadError`].
pub ghost enum LoadErrorModel {
    MalformedSource { location: Seq<char> },
    RowError { location: Seq<char>, line: int },
    AlreadyLoaded,
}

impl View for LoadError {
    type V = LoadErrorModel;

    open spec fn view(&self) -> LoadErrorModel {
        match self {
            LoadError::MalformedSource { location } => LoadErrorModel::MalformedSource {
                location: location@,
            },
            LoadError::RowError { location, line } => LoadErrorModel::RowError {
                location: location@,
                line: *line as int,
            },
            LoadError::AlreadyLoaded => LoadErrorModel::AlreadyLoaded,
        }
    }
}

/// The first mapping stored under `key`, if any. Under [`keys_unique`] it is
/// the only one.
pub open spec fn lookup(s: Seq<EntryModel>, key: Seq<char>) -> Option<MappingModel>
    decreases s.len(),
{
    if s.len() == 0 {
        None
    } else if s[0].key == key {
        Some(s[0].mapping)
    } else {
        lookup(s.drop_first(), key)
    }
}

/// `s` with `key` bound to `m`: the existing entry for `key` is replaced in
/// place, or a new entry is appended at the end.
pub open spec fn upsert(s: Seq<EntryModel>, key: Seq<char>, m: MappingModel) -> Seq<EntryModel>
    decreases s.len(),
{
    if s.len() == 0 {
        seq![EntryModel { key, mapping: m }]
    } else if s[0].key == key {
        seq![EntryModel { key, mapping: m }] + s.drop_first()
    } else {
        seq![s[0]] + upsert(s.drop_first(), key, m)
    }
}

/// No two entries share a key: each distinct source text maps to exactly one
/// mapping.
pub open spec fn keys_unique(s: Seq<EntryModel>) -> bool {
    forall|i: int, j: int| 0 <= i < j < s.len() ==> s[i].key != s[j].key
}

/// Every entry has a non-empty key and a non-empty value, and no key repeats.
pub open spec fn entries_wf(s: Seq<EntryModel>) -> bool {
    &&& keys_unique(s)
    &&& forall|i: int|
        0 <= i < s.len() ==> (#[trigger] s[i]).key.len() > 0 && s[i].mapping.value.len() > 0
}

/// Whether some entry of `s` equals `e`.
pub open spec fn has_entry(s: Seq<EntryModel>, e: EntryModel) -> bool {
    exists|i: int| 0 <= i < s.len() && s[i] == e
}

/// After an upsert, `key` is bound to `m` and every other key is bound as
/// before.
pub proof fn lemma_lookup_upsert(s: Seq<EntryModel>, key: Seq<char>, m: MappingModel, q: Seq<char>)
    ensures
        lookup(upsert(s, key, m), q) == if q == key {
            Some(m)
        } else {
            lookup(s, q)
        },
    decreases s.len(),
{
    let u = upsert(s, key, m);
    let e = EntryModel { key, mapping: m };
    if s.len() == 0 {
        assert(u == seq![e]);
        assert(u.len() == 1 && u[0] == e);
        assert(u.drop_first() =~= Seq::<EntryModel>::empty());
        if q == key {
            assert(lookup(u, q) == Some(m));
        } else {
            assert(lookup(u, q) == lookup(u.drop_first(), q));
            assert(lookup(u, q) is None);
            assert(lookup(s, q) is None);
        }
    } else if s[0].key == key {
        assert(u == seq![e] + s.drop_first());
        assert(u[0] == e);
        assert(u.drop_first() =~= s.drop_first());
        if q == key {
            assert(lookup(u, q) == Some(m));
        } else {
            assert(lookup(u, q) == lookup(s.drop_first(), q));
            assert(lookup(s, q) == lookup(s.drop_first(), q));
        }
    } else {
        assert(u == seq![s[0]] + upsert(s.drop_first(), key, m));
        assert(u[0] == s[0]);
        assert(u.drop_first() =~= upsert(s.drop_first(), key, m));
        lemma_lookup_upsert(s.drop_first(), key, m, q);
        if q == s[0].key {
            assert(q != key);
            assert(lookup(u, q) == Some(s[0].mapping));
            assert(lookup(s, q) == Some(s[0].mapping));
        } else {
            assert(lookup(u, q) == lookup(upsert(s.drop_first(), key, m), q));
            assert(lookup(s, q) == lookup(s.drop_first(), q));
        }
    }
}

/// An upsert only produces the new entry or entries already present, and
/// preserves well-formedness when the new entry is itself well formed.
pub proof fn lemma_upsert_entries(s: Seq<EntryModel>, key: Seq<char>, m: MappingModel)
    ensures
        forall|j: int|
            0 <= j < upsert(s, key, m).len() ==> (#[trigger] upsert(s, key, m)[j]) == (EntryModel {
                key,
                mapping: m,
            }) || has_entry(s, upsert(s, key, m)[j]),
        entries_wf(s) && key.len() > 0 && m.value.len() > 0 ==> entries_wf(upsert(s, key, m)),
    decreases s.len(),
{
    let u = upsert(s, key, m);
    let e = EntryModel { key, mapping: m };
    if s.len() == 0 {
        assert(u == seq![e]);
        assert(u[0] == e);
    } else if s[0].key == key {
        assert(u == seq![e] + s.drop_first());
        assert(u[0] == e);
        assert(forall|j: int| 1 <= j < u.len() ==> u[j] == s[j]);
        assert(forall|j: int| 1 <= j < u.len() ==> has_entry(s, u[j]));
        if entries_wf(s) && key.len() > 0 && m.value.len() > 0 {
            assert(forall|i: int, j: int| 0 <= i < j < u.len() ==> u[i].key != u[j].key) by {
                assert(forall|j: int| 1 <= j < u.len() ==> u[j].key == s[j].key);
                assert(forall|j: int| 1 <= j < u.len() ==> s[0].key != (#[trigger] s[j]).key);
            }
        }
    } else {
        let t = s.drop_first();
        lemma_upsert_entries(t, key, m);
        let ut = upsert(t, key, m);
        assert(u == seq![s[0]] + ut);
        assert(u[0] == s[0]);
        assert(has_entry(s, s[0]));
        assert(forall|j: int| 1 <= j < u.len() ==> u[j] == ut[j - 1]);
        assert forall|j: int| 1 <= j < u.len() implies u[j] == e || has_entry(s, u[j]) by {
            if ut[j - 1] != e {
                assert(has_entry(t, ut[j - 1]));
                let i = choose|i: int| 0 <= i < t.len() && t[i] == ut[j - 1];
                assert(s[i + 1] == ut[j - 1]);
            }
        }
        if entries_wf(s) && key.len() > 0 && m.value.len() > 0 {
            assert(entries_wf(t)) by {
                assert(forall|i: int| 0 <= i < t.len() ==> t[i] == s[i + 1]);
            }
            assert(entries_wf(ut));
            assert forall|i: int, j: int| 0 <= i < j < u.len() implies u[i].key != u[j].key by {
                if i == 0 {
                    // s[0].key differs from key and from every key of t,
                    // and u[j] is either the new entry or one of t's.
                    if u[j] == e {
                        assert(u[j].key == key);
                    } else {
                        assert(has_entry(t, u[j]));
                        let w = choose|w: int| 0 <= w < t.len() && t[w] == u[j];
                        assert(s[w + 1] == t[w]);
                    }
                }
            }
            assert(forall|i: int|
                0 <= i < u.len() ==> (#[trigger] u[i]).key.len() > 0 && u[i].mapping.value.len()
                    > 0) by {
                assert(forall|i: int|
                    0 <= i < u.len() ==> u[i] == e || has_entry(s, #[trigger] u[i]));
            }
        }
    }
}

/// When `s[j]` is the first entry with key `key`, an upsert replaces it in
/// place.
pub proof fn lemma_upsert_found(s: Seq<EntryModel>, key: Seq<char>, m: MappingModel, j: int)
    requires
        0 <= j < s.len(),
        s[j].key == key,
        forall|i: int| 0 <= i < j ==> s[i].key != key,
    ensures
        upsert(s, key, m) == s.update(j, EntryModel { key, mapping: m }),
    decreases j,
{
    let e = EntryModel { key, mapping: m };
    if j == 0 {
        assert(upsert(s, key, m) == seq![e] + s.drop_first());
        assert(seq![e] + s.drop_first() =~= s.update(0, e));
    } else {
        let t = s.drop_first();
        assert(forall|i: int| 0 <= i < j - 1 ==> t[i] == s[i + 1]);
        lemma_upsert_found(t, key, m, j - 1);
        assert(upsert(s, key, m) == seq![s[0]] + upsert(t, key, m));
        assert(seq![s[0]] + t.update(j - 1, e) =~= s.update(j, e));
    }
}

/// When no entry has key `key`, an upsert appends at the end.
pub proof fn lemma_upsert_absent(s: Seq<EntryModel>, key: Seq<char>, m: MappingModel)
    requires
        forall|i: int| 0 <= i < s.len() ==> (#[trigger] s[i]).key != key,
    ensures
        upsert(s, key, m) == s.push(EntryModel { key, mapping: m }),
    decreases s.len(),
{
    let e = EntryModel { key, mapping: m };
    if s.len() == 0 {
        assert(upsert(s, key, m) =~= s.push(e));
    } else {
        let t = s.drop_first();
        assert(forall|i: int| 0 <= i < t.len() ==> t[i] == s[i + 1]);
        lemma_upsert_absent(t, key, m);
        assert(upsert(s, key, m) == seq![s[0]] + t.push(e));
        assert(seq![s[0]] + t.push(e) =~= s.push(e));
    }
}

/// When `s[j]` is the first entry with key `key`, lookup returns its mapping.
pub proof fn lemma_lookup_found(s: Seq<EntryModel>, key: Seq<char>, j: int)
    requires
        0 <= j < s.len(),
        s[j].key == key,
        forall|i: int| 0 <= i < j ==> s[i].key != key,
    ensures
        lookup(s, key) == Some(s[j].mapping),
    decreases j,
{
    if j > 0 {
        let t = s.drop_first();
        assert(forall|i: int| 0 <= i < j - 1 ==> t[i] == s[i + 1]);
        lemma_lookup_found(t, key, j - 1);
    }
}

/// When no entry has key `key`, lookup returns nothing.
pub proof fn lemma_lookup_absent(s: Seq<EntryModel>, key: Seq<char>)
    requires
        forall|i: int| 0 <= i < s.len() ==> (#[trigger] s[i]).key != key,
    ensures
        lookup(s, key) is None,
    decreases s.len(),
{
    if s.len() > 0 {
        let t = s.drop_first();
        assert(forall|i: int| 0 <= i < t.len() ==> t[i] == s[i + 1]);
        lemma_lookup_absent(t, key);
    }
}

/// One data row merged into `acc`: skipped when key or value trims to
/// nothing, otherwise upserted under the trimmed key. The row must have at
/// least two cells.
pub open spec fn apply_row(
    acc: Seq<EntryModel>,
    source_label: Seq<char>,
    target_label: Seq<char>,
    row: Seq<Seq<char>>,
) -> Seq<EntryModel> {
    if spec_trim(row[0]).len() == 0 || spec_trim(row[1]).len() == 0 {
        acc
    } else {
        upsert(
            acc,
            spec_trim(row[0]),
            MappingModel {
                source_name: source_label,
                target_name: target_label,
                value: spec_trim(row[1]),
            },
        )
    }
}

/// All of a source's data rows merged into `acc`, in order. A row with fewer
/// than two cells aborts the load; its line number counts the header as
/// line 1.
pub open spec fn apply_rows(
    acc: Seq<EntryModel>,
    source_label: Seq<char>,
    target_label: Seq<char>,
    rows: Seq<Seq<Seq<char>>>,
    location: Seq<char>,
) -> Result<Seq<EntryModel>, LoadErrorModel>
    decreases rows.len(),
{
    if rows.len() == 0 {
        Ok(acc)
    } else {
        match apply_rows(acc, source_label, target_label, rows.drop_last(), location) {
            Err(e) => Err(e),
            Ok(cur) => {
                let row = rows.last();
                if row.len() < 2 {
                    Err(LoadErrorModel::RowError { location, line: rows.len() + 1 as int })
                } else {
                    Ok(apply_row(cur, source_label, target_label, row))
                }
            },
        }
    }
}

/// One whole source merged into `acc`: its header must have at least two
/// columns, whose trimmed cells become the labels of every mapping the
/// source contributes.
pub open spec fn load_source(acc: Seq<EntryModel>, src: SourceModel) -> Result<
    Seq<EntryModel>,
    LoadErrorModel,
> {
    if src.header.len() < 2 {
        Err(LoadErrorModel::MalformedSource { location: src.location })
    } else {
        apply_rows(acc, spec_trim(src.header[0]), spec_trim(src.header[1]), src.rows, src.location)
    }
}

/// All sources merged in order into `acc`; later sources overwrite earlier
/// ones on duplicate keys, and the first failure aborts the whole load.
pub open spec fn load_sources(acc: Seq<EntryModel>, sources: Seq<SourceModel>) -> Result<
    Seq<EntryModel>,
    LoadErrorModel,
>
    decreases sources.len(),
{
    if sources.len() == 0 {
        Ok(acc)
    } else {
        match load_sources(acc, sources.drop_last()) {
            Err(e) => Err(e),
            Ok(cur) => load_source(cur, sources.last()),
        }
    }
}

/// A row failure in a prefix of the rows is the outcome of all of them.
proof fn lemma_apply_rows_err(
    acc: Seq<EntryModel>,
    source_label: Seq<char>,
    target_label: Seq<char>,
    rows: Seq<Seq<Seq<char>>>,
    location: Seq<char>,
    i: int,
    e: LoadErrorModel,
)
    requires
        0 <= i <= rows.len(),
        apply_rows(acc, source_label, target_label, rows.take(i), location) == Err::<
            Seq<EntryModel>,
            _,
        >(e),
    ensures
        apply_rows(acc, source_label, target_label, rows, location) == Err::<Seq<EntryModel>, _>(e),
    decreases rows.len() - i,
{
    if i == rows.len() {
        assert(rows.take(i) =~= rows);
    } else {
        assert(rows.take(i + 1).drop_last() =~= rows.take(i));
        lemma_apply_rows_err(acc, source_label, target_label, rows, location, i + 1, e);
    }
}

/// A source failure in a prefix of the sources is the outcome of all of them.
proof fn lemma_load_sources_err(
    acc: Seq<EntryModel>,
    sources: Seq<SourceModel>,
    i: int,
    e: LoadErrorModel,
)
    requires
        0 <= i <= sources.len(),
        load_sources(acc, sources.take(i)) == Err::<Seq<EntryModel>, _>(e),
    ensures
        load_sources(acc, sources) == Err::<Seq<EntryModel>, _>(e),
    decreases sources.len() - i,
{
    if i == sources.len() {
        assert(sources.take(i) =~= sources);
    } else {
        assert(sources.take(i + 1).drop_last() =~= sources.take(i));
        lemma_load_sources_err(acc, sources, i + 1, e);
    }
}

/// What a source's rows bind `k` to: the mapping made from the last row
/// whose trimmed key is `k` and whose trimmed key and value are non-empty.
pub open spec fn rows_binding(
    source_label: Seq<char>,
    target_label: Seq<char>,
    rows: Seq<Seq<Seq<char>>>,
    k: Seq<char>,
) -> Option<MappingModel>
    decreases rows.len(),
{
    if rows.len() == 0 {
        None
    } else {
        let row = rows.last();
        if row.len() >= 2 && spec_trim(row[0]) == k && spec_trim(row[0]).len() > 0 && spec_trim(
            row[1],
        ).len() > 0 {
            Some(
                MappingModel {
                    source_name: source_label,
                    target_name: target_label,
                    value: spec_trim(row[1]),
                },
            )
        } else {
            rows_binding(source_label, target_label, rows.drop_last(), k)
        }
    }
}

/// After a source's rows are merged, a key the source defines is bound to
/// the source's last mapping for it, and every other key is bound as before.
pub proof fn lemma_rows_override(
    acc: Seq<EntryModel>,
    source_label: Seq<char>,
    target_label: Seq<char>,
    rows: Seq<Seq<Seq<char>>>,
    location: Seq<char>,
    s: Seq<EntryModel>,
    k: Seq<char>,
)
    requires
        apply_rows(acc, source_label, target_label, rows, location) == Ok::<_, LoadErrorModel>(s),
    ensures
        lookup(s, k) == match rows_binding(source_label, target_label, rows, k) {
            Some(m) => Some(m),
            None => lookup(acc, k),
        },
    decreases rows.len(),
{
    if rows.len() > 0 {
        let row = rows.last();
        let prev = apply_rows(acc, source_label, target_label, rows.drop_last(), location);
        match prev {
            Err(_) => {
                assert(false);
            },
            Ok(cur) => {
                assert(row.len() >= 2);
                assert(s == apply_row(cur, source_label, target_label, row));
                lemma_rows_override(
                    acc,
                    source_label,
                    target_label,
                    rows.drop_last(),
                    location,
                    cur,
                    k,
                );
                if spec_trim(row[0]).len() > 0 && spec_trim(row[1]).len() > 0 {
                    let m = MappingModel {
                        source_name: source_label,
                        target_name: target_label,
                        value: spec_trim(row[1]),
                    };
                    lemma_lookup_upsert(cur, spec_trim(row[0]), m, k);
                }
            },
        }
    }
}

/// Override-order law: when loading source `a` then source `b` succeeds
/// with set `s`, a key that `b` defines is bound to `b`'s mapping for it,
/// whatever `a` said; a key that `b` does not define keeps `a`'s binding.
pub proof fn lemma_override_order(a: SourceModel, b: SourceModel, s: Seq<EntryModel>, k: Seq<char>)
    requires
        load_sources(Seq::empty(), seq![a, b]) == Ok::<_, LoadErrorModel>(s),
    ensures
        b.header.len() >= 2,
        ({
            let b_bind = rows_binding(spec_trim(b.header[0]), spec_trim(b.header[1]), b.rows, k);
            match b_bind {
                Some(m) => lookup(s, k) == Some(m),
                None => exists|sa: Seq<EntryModel>|
                    load_sources(Seq::empty(), seq![a]) == Ok::<_, LoadErrorModel>(sa) && lookup(
                        s,
                        k,
                    ) == lookup(sa, k),
            }
        }),
{
    let pair = seq![a, b];
    assert(pair.drop_last() =~= seq![a]);
    assert(pair.last() == b);
    match load_sources(Seq::empty(), seq![a]) {
        Err(_) => {
            assert(false);
        },
        Ok(sa) => {
            assert(load_source(sa, b) == Ok::<_, LoadErrorModel>(s));
            assert(b.header.len() >= 2);
            lemma_rows_override(
                sa,
                spec_trim(b.header[0]),
                spec_trim(b.header[1]),
                b.rows,
                b.location,
                s,
                k,
            );
        },
    }
}

/// A published mapping set: entry order is the scan order that search uses,
/// and no key appears twice.
#[derive(Debug, PartialEq)]
pub struct MappingSet {
    entries: Vec<MappingEntry>,
}

impl View for MappingSet {
    type V = Seq<EntryModel>;

    closed spec fn view(&self) -> Seq<EntryModel> {
        self.entries.deep_view()
    }
}

impl MappingSet {
    /// Every key is non-empty and unique, every value non-empty.
    pub open spec fn wf(&self) -> bool {
        entries_wf(self@)
    }

    /// The entries of the set, in scan order.
    pub fn all_entries(&self) -> (r: &Vec<MappingEntry>)
        ensures
            r.deep_view() == self@,
    {
        &self.entries
    }

    /// How many mappings the set holds.
    pub fn len(&self) -> (n: usize)
        ensures
            n == self@.len(),
    {
        self.entries.len()
    }
}

/// The mapping whose key equals the trimmed query, if one is present.
/// Case-sensitive; no normalization beyond the trim applied at load time.
pub fn find_target<'a>(set: &'a MappingSet, source: &str) -> (r: Option<&'a Mapping>)
    ensures
        match r {
            Some(m) => lookup(set@, spec_trim(source@)) == Some(m@),
            None => lookup(set@, spec_trim(source@)) is None,
        },
{
    let query = text::trim_str(source);
    let n = set.entries.len();
    let mut i: usize = 0;
    while i < n
        invariant
            n == set.entries.len(),
            set@ == set.entries.deep_view(),
            query@ == spec_trim(source@),
            0 <= i <= n,
            forall|k: int| 0 <= k < i ==> (#[trigger] set@[k]).key != query@,
        decreases n - i,
    {
        if set.entries[i].key == query {
            proof {
                lemma_lookup_found(set@, query@, i as int);
            }
            return Some(&set.entries[i].mapping);
        }
        i = i + 1;
    }
    proof {
        lemma_lookup_absent(set@, query@);
    }
    None
}

/// Binds `key` to `mapping`, replacing an existing entry in place or
/// appending a new one.
fn upsert_entry(entries: &mut Vec<MappingEntry>, key: String, mapping: Mapping)
    ensures
        final(entries).deep_view() == upsert(old(entries).deep_view(), key@, mapping@),
{
    let ghost s = entries.deep_view();
    let n = entries.len();
    let mut i: usize = 0;
    while i < n
        invariant
            n == entries.len(),
            s == old(entries).deep_view(),
            entries.deep_view() == s,
            0 <= i <= n,
            forall|k: int| 0 <= k < i ==> (#[trigger] s[k]).key != key@,
        decreases n - i,
    {
        if entries[i].key == key {
            let ghost kv = key@;
            let ghost mv = mapping@;
            proof {
                lemma_upsert_found(s, kv, mv, i as int);
            }
            entries[i] = MappingEntry { key, mapping };
            proof {
                assert(entries.deep_view() =~= s.update(i as int, EntryModel { key: kv, mapping: mv }));
            }
            return;
        }
        i = i + 1;
    }
    let ghost kv = key@;
    let ghost mv = mapping@;
    proof {
        lemma_upsert_absent(s, kv, mv);
    }
    entries.push(MappingEntry { key, mapping });
    proof {
        assert(entries.deep_view() =~= s.push(EntryModel { key: kv, mapping: mv }));
    }
}

/// Merges all sources, in order, into one fresh mapping set. Later sources
/// overwrite earlier ones on duplicate keys; rows whose key or value trims
/// to nothing are skipped; the first malformed header or short row aborts
/// the whole load and nothing is returned. Zero sources yield an empty set.
pub fn load_all_mappings(sources: &Vec<DictionarySource>) -> (r: Result<MappingSet, LoadError>)
    requires
        forall|i: int|
            0 <= i < sources@.len() ==> (#[trigger] sources@[i]).rows@.len() + 2 <= usize::MAX,
    ensures
        match r {
            Ok(set) => load_sources(Seq::empty(), sources.deep_view()) == Ok::<_, LoadErrorModel>(
                set@,
            ) && set.wf(),
            Err(e) => load_sources(Seq::empty(), sources.deep_view()) == Err::<Seq<EntryModel>, _>(
                e@,
            ),
        },
{
    let ghost svs = sources.deep_view();
    let mut entries: Vec<MappingEntry> = Vec::new();
    proof {
        assert(entries.deep_view() =~= Seq::<EntryModel>::empty());
        assert(svs.take(0) =~= Seq::<SourceModel>::empty());
    }
    let ns = sources.len();
    let mut si: usize = 0;
    while si < ns
        invariant
            ns == sources.len(),
            svs == sources.deep_view(),
            forall|i: int| 0 <= i < sources@.len() ==> (#[trigger] sources@[i]).rows@.len() + 2 <= usize::MAX,
            0 <= si <= ns,
            load_sources(Seq::empty(), svs.take(si as int)) == Ok::<_, LoadErrorModel>(
                entries.deep_view(),
            ),
            entries_wf(entries.deep_view()),
        decreases ns - si,
    {
        let src = &sources[si];
        let ghost acc0 = entries.deep_view();
        proof {
            assert(svs.take(si as int + 1).drop_last() =~= svs.take(si as int));
            assert(svs.take(si as int + 1).last() == svs[si as int]);
            assert(svs[si as int] == src@);
        }
        if src.header.len() < 2 {
            let err = LoadError::MalformedSource { location: src.location.clone() };
            proof {
                assert(load_sources(Seq::empty(), svs.take(si as int + 1)) == Err::<
                    Seq<EntryModel>,
                    _,
                >(err@));
                lemma_load_sources_err(Seq::empty(), svs, si as int + 1, err@);
            }
            return Err(err);
        }
        let source_label = text::trim_str(src.header[0].as_str());
        let target_label = text::trim_str(src.header[1].as_str());
        let ghost slv = source_label@;
        let ghost tlv = target_label@;
        let ghost rows_v = src@.rows;
        let ghost loc = src@.location;
        let nr = src.rows.len();
        let mut ri: usize = 0;
        while ri < nr
            invariant
                nr == src.rows.len(),
                rows_v == src.rows.deep_view(),
                src@ == svs[si as int],
                loc == src@.location,
                0 <= si < svs.len(),
                nr + 2 <= usize::MAX,
                svs == sources.deep_view(),
                slv == spec_trim(src@.header[0]),
                tlv == spec_trim(src@.header[1]),
                src@.header.len() >= 2,
                source_label@ == slv,
                target_label@ == tlv,
                load_sources(Seq::empty(), svs.take(si as int)) == Ok::<_, LoadErrorModel>(acc0),
                0 <= ri <= nr,
                apply_rows(acc0, slv, tlv, rows_v.take(ri as int), loc) == Ok::<_, LoadErrorModel>(
                    entries.deep_view(),
                ),
                entries_wf(entries.deep_view()),
            decreases nr - ri,
        {
            let row = &src.rows[ri];
            proof {
                assert(rows_v.take(ri as int + 1).drop_last() =~= rows_v.take(ri as int));
                assert(rows_v.take(ri as int + 1).last() == rows_v[ri as int]);
                assert(rows_v[ri as int] == row.deep_view());
                assert(rows_v.take(ri as int + 1).len() == ri + 1);
            }
            if row.len() < 2 {
                let err = LoadError::RowError { location: src.location.clone(), line: ri + 2 };
                proof {
                    assert(apply_rows(acc0, slv, tlv, rows_v.take(ri as int + 1), loc) == Err::<
                        Seq<EntryModel>,
                        _,
                    >(err@));
                    lemma_apply_rows_err(acc0, slv, tlv, rows_v, loc, ri as int + 1, err@);
                    assert(load_source(acc0, svs[si as int]) == Err::<Seq<EntryModel>, _>(err@));
                    assert(svs.take(si as int + 1).drop_last() =~= svs.take(si as int));
                    assert(svs.take(si as int + 1).last() == svs[si as int]);
                    assert(load_sources(Seq::empty(), svs.take(si as int + 1)) == Err::<
                        Seq<EntryModel>,
                        _,
                    >(err@));
                    lemma_load_sources_err(Seq::empty(), svs, si as int + 1, err@);
                }
                return Err(err);
            }
            let key = text::trim_str(row[0].as_str());
            let value = text::trim_str(row[1].as_str());
            if !key.as_str().is_empty() && !value.as_str().is_empty() {
                let mapping = Mapping {
                    source_name: source_label.clone(),
                    target_name: target_label.clone(),
                    value,
                };
                proof {
                    lemma_upsert_entries(entries.deep_view(), key@, mapping@);
                }
                upsert_entry(&mut entries, key, mapping);
            }
            ri = ri + 1;
        }
        proof {
            assert(rows_v.take(nr as int) =~= rows_v);
            assert(load_source(acc0, svs[si as int]) == Ok::<_, LoadErrorModel>(
                entries.deep_view(),
            ));
        }
        si = si + 1;
    }
    proof {
        assert(svs.take(ns as int) =~= svs);
    }
    Ok(MappingSet { entries })
}

/// The store: a mapping set published at most once per process. Readers see
/// either no set or one whole, well-formed set, never a partial one.
#[derive(Debug, PartialEq)]
pub struct MappingStore {
    published: Option<MappingSet>,
}

impl View for MappingStore {
    type V = Option<Seq<EntryModel>>;

    closed spec fn view(&self) -> Option<Seq<EntryModel>> {
        match self.published {
            Some(ref set) => Some(set@),
            None => None,
        }
    }
}

impl MappingStore {
    /// Whatever set is published is well formed.
    pub open spec fn wf(&self) -> bool {
        match self@ {
            Some(s) => entries_wf(s),
            None => true,
        }
    }

    /// An empty store with nothing published.
    pub fn new() -> (r: MappingStore)
        ensures
            r@ is None,
            r.wf(),
    {
        MappingStore { published: None }
    }

    /// Whether a set has been published.
    pub fn is_loaded(&self) -> (r: bool)
        ensures
            r == (self@ is Some),
    {
        self.published.is_some()
    }

    /// The published set, if any.
    pub fn published_set(&self) -> (r: Option<&MappingSet>)
        ensures
            match r {
                Some(set) => self@ == Some(set@),
                None => self@ is None,
            },
    {
        match self.published {
            Some(ref set) => Some(set),
            None => None,
        }
    }

    /// Loads and publishes the merge of `sources`, all or nothing. A second
    /// load is refused, and a failed load publishes nothing.
    pub fn load(&mut self, sources: &Vec<DictionarySource>) -> (r: Result<(), LoadError>)
        requires
            old(self).wf(),
            forall|i: int|
                0 <= i < sources@.len() ==> (#[trigger] sources@[i]).rows@.len() + 2 <= usize::MAX,
        ensures
            final(self).wf(),
            old(self)@ is Some ==> {
                &&& r matches Err(e) && e@ == LoadErrorModel::AlreadyLoaded
                &&& final(self)@ == old(self)@
            },
            old(self)@ is None ==> match r {
                Ok(_) => {
                    &&& final(self)@ matches Some(s) && load_sources(
                        Seq::empty(),
                        sources.deep_view(),
                    ) == Ok::<_, LoadErrorModel>(s)
                },
                Err(e) => {
                    &&& load_sources(Seq::empty(), sources.deep_view()) == Err::<
                        Seq<EntryModel>,
                        _,
                    >(e@)
                    &&& final(self)@ is None
                },
            },
    {
        if self.published.is_some() {
            return Err(LoadError::AlreadyLoaded);
        }
        match load_all_mappings(sources) {
            Ok(set) => {
                self.published = Some(set);
                Ok(())
            },
            Err(e) => Err(e),
        }
    }

    /// The mapping whose key equals the trimmed query in the published set;
    /// nothing when no set is published or the key is absent.
    pub fn find_exact<'a>(&'a self, source: &str) -> (r: Option<&'a Mapping>)
        ensures
            match self@ {
                None => r is None,
                Some(s) => match r {
                    Some(m) => lookup(s, spec_trim(source@)) == Some(m@),
                    None => lookup(s, spec_trim(source@)) is None,
                },
            },
    {
        match self.published {
            Some(ref set) => find_target(set, source),
            None => None,
        }
    }
}

/// A load failure rendered for people: which source failed and why.
#[derive(Debug, PartialEq)]
pub struct MappingError {
    pub location: String,
    pub error: String,
}

impl MappingError {
    /// The human-readable form of a load failure.
    pub fn from_load_error(e: &LoadError) -> (r: MappingError)
        ensures
            match e {
                LoadError::MalformedSource { location } => r.location@ == location@ && r.error@
                    == "source must have at least 2 columns"@,
                LoadError::RowError { location, line } => r.location@ == location@ && r.error@
                    == "line "@ + text::spec_dec(*line as int) + " has fewer than 2 columns"@,
                LoadError::AlreadyLoaded => r.location@.len() == 0 && r.error@
                    == "mappings already loaded"@,
            },
    {
        match e {
            LoadError::MalformedSource { location } => MappingError {
                location: location.clone(),
                error: String::from_str("source must have at least 2 columns"),
            },
            LoadError::RowError { location, line } => {
                let mut msg = String::from_str("line ");
                let num = text::usize_to_string(*line);
                msg.append(num.as_str());
                msg.append(" has fewer than 2 columns");
                MappingError { location: location.clone(), error: msg }
            },
            LoadError::AlreadyLoaded => MappingError {
                location: String::new(),
                error: String::from_str("mappings already loaded"),
            },
        }
    }

    /// One line naming the offending source and the reason.
    pub fn message(&self) -> (r: String)
        ensures
            r@ == "Error in "@ + self.location@ + ": "@ + self.error@,
    {
        let mut msg = String::from_str("Error in ");
        msg.append(self.location.as_str());
        msg.append(": ");
        msg.append(self.error.as_str());
        msg
    }
}

/// What csv's reader makes of a document held in memory: every row as a
/// sequence of cells (no header treatment, rows of any width), or the text
/// of a parse error (invalid UTF-8 or bad quoting). A function of the bytes
/// alone.
pub uninterp spec fn csv_rows_of(bytes: Seq<u8>) -> Result<Seq<Seq<Seq<char>>>, Seq<char>>;

/// Relies on csv's `ReaderBuilder` and `Reader::records`: reading from a
/// byte slice, with no header row and flexible record lengths, yields every
/// record of the document in order, or an error for a malformed document.
#[verifier::external_body]
fn parse_csv_bytes(bytes: &Vec<u8>) -> (r: Result<Vec<Vec<String>>, String>)
    ensures
        match r {
            Ok(rows) => csv_rows_of(bytes@) == Ok::<_, Seq<char>>(rows.deep_view()),
            Err(e) => csv_rows_of(bytes@) == Err::<Seq<Seq<Seq<char>>>, _>(e@),
        },
{
    let mut reader = csv::ReaderBuilder::new().has_headers(false).flexible(true).from_reader(
        bytes.as_slice(),
    );
    let mut rows = Vec::new();
    for record in reader.records() {
        match record {
            Ok(r) => rows.push(r.iter().map(|cell| cell.to_string()).collect()),
            Err(e) => return Err(format!("{}", e)),
        }
    }
    Ok(rows)
}

/// A dictionary source parsed from the bytes of one CSV document: the first
/// row becomes the header, the rest the data rows. A document that does not
/// parse, or has no rows at all, is a malformed source.
pub fn source_from_csv(location: &str, bytes: &Vec<u8>) -> (r: Result<DictionarySource, LoadError>)
    ensures
        match csv_rows_of(bytes@) {
            Err(_) => r matches Err(e) && e@ == LoadErrorModel::MalformedSource {
                location: location@,
            },
            Ok(rows) => if rows.len() == 0 {
                r matches Err(e) && e@ == LoadErrorModel::MalformedSource { location: location@ }
            } else {
                r matches Ok(src) && src@.location == location@ && src@.header == rows[0]
                    && src@.rows == rows.drop_first()
            },
        },
{
    match parse_csv_bytes(bytes) {
        Err(_) => Err(LoadError::MalformedSource { location: String::from_str(location) }),
        Ok(mut rows) => {
            if rows.len() == 0 {
                Err(LoadError::MalformedSource { location: String::from_str(location) })
            } else {
                let ghost all = rows.deep_view();
                let header = rows.remove(0);
                proof {
                    assert(rows.deep_view() =~= all.drop_first());
                }
                Ok(DictionarySource { location: String::from_str(location), header, rows })
            }
        },
    }
}

} // verus!
