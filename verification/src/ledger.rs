//! The metadata ledger: the ordered collection of entries, keyed by a stable
//! identity, with unique ids and unique canonical filenames. Merging newly
//! discovered entries, reconciling with the files present on disk, and
//! applying download results all preserve these invariants.
use vstd::prelude::*;
use crate::text::dec_rep;
use crate::text::str_to_chars;
use crate::text::chars_to_string;
use crate::text::copy_range;
use crate::text::ends_with;
use crate::title::make_filename;
use crate::title::spec_filename;
use crate::title::spec_species;
use crate::title::spec_suffix_of;
use crate::title::suffix_of;
use crate::title::format_species_name;
use crate::title::lemma_filename_suffix;
use crate::title::unknown;
use crate::title::wav_suffix;
use crate::title::has_ext;

verus! {

// ---------- entries and their mathematical model ----------

/// One recording: its discovered metadata plus download status.
pub struct Entry {
    pub id: String,
    pub source_url: String,
    pub common_name: String,
    pub scientific_name: String,
    pub species: String,
    pub filename: String,
    pub downloaded: bool,
}

/// The mathematical model of an `Entry`.
pub struct EntryV {
    pub id: Seq<char>,
    pub source_url: Seq<char>,
    pub common_name: Seq<char>,
    pub scientific_name: Seq<char>,
    pub species: Seq<char>,
    pub filename: Seq<char>,
    pub downloaded: bool,
}

impl View for Entry {
    type V = EntryV;

    open spec fn view(&self) -> EntryV {
        EntryV {
            id: self.id@,
            source_url: self.source_url@,
            common_name: self.common_name@,
            scientific_name: self.scientific_name@,
            species: self.species@,
            filename: self.filename@,
            downloaded: self.downloaded,
        }
    }
}

impl DeepView for Entry {
    type V = EntryV;

    open spec fn deep_view(&self) -> EntryV {
        self.view()
    }
}

/// Copy an entry field by field.
pub fn clone_entry(e: &Entry) -> (r: Entry)
    ensures
        r@ == e@,
{
    Entry {
        id: e.id.clone(),
        source_url: e.source_url.clone(),
        common_name: e.common_name.clone(),
        scientific_name: e.scientific_name.clone(),
        species: e.species.clone(),
        filename: e.filename.clone(),
        downloaded: e.downloaded,
    }
}

/// Copy a discovered entry field by field.
pub fn clone_discovered(d: &Discovered) -> (r: Discovered)
    ensures
        r@ == d@,
{
    Discovered {
        url: d.url.clone(),
        id: d.id.clone(),
        common_name: d.common_name.clone(),
        scientific_name: d.scientific_name.clone(),
    }
}

/// A raw entry found on a listing page, before the ledger assigns it a
/// species key and a filename.
pub struct Discovered {
    pub url: String,
    pub id: String,
    pub common_name: String,
    pub scientific_name: String,
}

/// The mathematical model of a `Discovered`.
pub struct DiscoveredV {
    pub url: Seq<char>,
    pub id: Seq<char>,
    pub common_name: Seq<char>,
    pub scientific_name: Seq<char>,
}

impl View for Discovered {
    type V = DiscoveredV;

    open spec fn view(&self) -> DiscoveredV {
        DiscoveredV {
            url: self.url@,
            id: self.id@,
            common_name: self.common_name@,
            scientific_name: self.scientific_name@,
        }
    }
}

impl DeepView for Discovered {
    type V = DiscoveredV;

    open spec fn deep_view(&self) -> DiscoveredV {
        self.view()
    }
}

// ---------- the ledger and its invariants ----------

/// The complete collection of entries for one output directory.
pub struct Ledger {
    pub entries: Vec<Entry>,
}

impl View for Ledger {
    type V = Seq<EntryV>;

    open spec fn view(&self) -> Seq<EntryV> {
        self.entries.deep_view()
    }
}

/// Some entry carries this id.
pub open spec fn has_id(l: Seq<EntryV>, id: Seq<char>) -> bool {
    exists|i: int| 0 <= i < l.len() && l[i].id == id
}

/// Some entry carries this filename.
pub open spec fn has_filename(l: Seq<EntryV>, f: Seq<char>) -> bool {
    exists|i: int| 0 <= i < l.len() && l[i].filename == f
}

/// Ledger invariant: ids are unique and filenames are unique.
pub open spec fn wf(l: Seq<EntryV>) -> bool {
    &&& forall|i: int, j: int|
        0 <= i < l.len() && 0 <= j < l.len() && i != j ==> l[i].id != l[j].id
    &&& forall|i: int, j: int|
        0 <= i < l.len() && 0 <= j < l.len() && i != j ==> l[i].filename != l[j].filename
}

impl Ledger {
    /// The empty ledger.
    pub fn new() -> (r: Ledger)
        ensures
            r@ == Seq::<EntryV>::empty(),
            wf(r@),
    {
        let r = Ledger { entries: Vec::new() };
        proof {
            assert(r@ =~= Seq::<EntryV>::empty());
        }
        r
    }
}

// ---------- species suffix numbering ----------

/// The largest numeric suffix that any entry's filename carries under the
/// species prefix `sp` (0 when none does).
pub open spec fn max_suffix(l: Seq<EntryV>, sp: Seq<char>) -> nat
    decreases l.len(),
{
    if l.len() == 0 {
        0
    } else {
        let m = max_suffix(l.drop_last(), sp);
        match spec_suffix_of(l.last().filename, sp) {
            Some(n) => if n > m {
                n
            } else {
                m
            },
            None => m,
        }
    }
}

/// Every suffix present under `sp` is at most `max_suffix`.
proof fn lemma_max_suffix_ge(l: Seq<EntryV>, sp: Seq<char>, i: int)
    requires
        0 <= i < l.len(),
        spec_suffix_of(l[i].filename, sp) is Some,
    ensures
        spec_suffix_of(l[i].filename, sp)->Some_0 <= max_suffix(l, sp),
    decreases l.len(),
{
    if i == l.len() - 1 {
    } else {
        lemma_max_suffix_ge(l.drop_last(), sp, i);
        assert(l.drop_last()[i] == l[i]);
    }
}

/// `max_suffix` never exceeds `u64::MAX`.
proof fn lemma_max_suffix_bound(l: Seq<EntryV>, sp: Seq<char>)
    ensures
        max_suffix(l, sp) <= u64::MAX,
    decreases l.len(),
{
    if l.len() > 0 {
        lemma_max_suffix_bound(l.drop_last(), sp);
    }
}

pub(crate) fn contains_id(entries: &Vec<Entry>, id: &String) -> (r: bool)
    ensures
        r == has_id(entries.deep_view(), id@),
{
    let mut k: usize = 0;
    while k < entries.len()
        invariant
            k <= entries@.len(),
            forall|j: int| 0 <= j < k ==> entries.deep_view()[j].id != id@,
        decreases entries@.len() - k,
    {
        let e = &entries[k];
        if e.id.eq(id) {
            proof {
                assert(entries.deep_view()[k as int].id == id@);
            }
            return true;
        }
        k = k + 1;
    }
    false
}

fn max_suffix_exec(entries: &Vec<Entry>, sp: &Vec<char>) -> (m: u64)
    ensures
        m as nat == max_suffix(entries.deep_view(), sp@),
{
    let ghost l = entries.deep_view();
    let mut m: u64 = 0;
    let mut k: usize = 0;
    while k < entries.len()
        invariant
            k <= entries@.len(),
            l == entries.deep_view(),
            m as nat == max_suffix(l.take(k as int), sp@),
        decreases entries@.len() - k,
    {
        let fv = str_to_chars(entries[k].filename.as_str());
        let s = suffix_of(&fv, sp);
        proof {
            assert(l.take(k + 1).drop_last() =~= l.take(k as int));
            assert(l.take(k + 1).last() == l[k as int]);
            assert(l[k as int].filename == fv@);
        }
        match s {
            Some(n) => {
                if n > m {
                    m = n;
                }
            },
            None => {
            },
        }
        k = k + 1;
    }
    proof {
        assert(l.take(l.len() as int) =~= l);
    }
    m
}

// ---------- discovery merge ----------

/// Merge one discovered entry: an already-known id is left untouched; a new
/// id is appended with the next free suffix for its species. (In the
/// degenerate case where that species' suffixes are already exhausted at
/// `u64::MAX`, no filename can be assigned and the entry is not added.)
pub open spec fn merge_one(l: Seq<EntryV>, d: DiscoveredV) -> Seq<EntryV> {
    if has_id(l, d.id) {
        l
    } else {
        let sp = spec_species(d.common_name);
        let m = max_suffix(l, sp);
        if m >= u64::MAX {
            l
        } else {
            l.push(
                EntryV {
                    id: d.id,
                    source_url: d.url,
                    common_name: d.common_name,
                    scientific_name: d.scientific_name,
                    species: sp,
                    filename: spec_filename(sp, (m + 1) as nat),
                    downloaded: false,
                },
            )
        }
    }
}

/// Merge a sequence of discovered entries, in order.
pub open spec fn merge_all(l: Seq<EntryV>, ds: Seq<DiscoveredV>) -> Seq<EntryV>
    decreases ds.len(),
{
    if ds.len() == 0 {
        l
    } else {
        merge_one(merge_all(l, ds.drop_last()), ds.last())
    }
}

/// Merging one entry preserves the ledger invariants.
proof fn lemma_merge_one_wf(l: Seq<EntryV>, d: DiscoveredV)
    requires
        wf(l),
    ensures
        wf(merge_one(l, d)),
{
    let sp = spec_species(d.common_name);
    let m = max_suffix(l, sp);
    if !has_id(l, d.id) && m < u64::MAX {
        let e = merge_one(l, d).last();
        lemma_filename_suffix(sp, (m + 1) as nat);
        assert forall|i: int| 0 <= i < l.len() implies l[i].filename != e.filename by {
            if l[i].filename == e.filename {
                lemma_max_suffix_ge(l, sp, i);
            }
        }
        assert forall|i: int| 0 <= i < l.len() implies l[i].id != e.id by {
            if l[i].id == e.id {
                assert(has_id(l, d.id));
            }
        }
    }
}

/// Merging preserves the ledger invariants.
pub proof fn lemma_merge_all_wf(l: Seq<EntryV>, ds: Seq<DiscoveredV>)
    requires
        wf(l),
    ensures
        wf(merge_all(l, ds)),
    decreases ds.len(),
{
    if ds.len() > 0 {
        lemma_merge_all_wf(l, ds.drop_last());
        lemma_merge_one_wf(merge_all(l, ds.drop_last()), ds.last());
    }
}

impl Ledger {
    /// Merge newly discovered entries. Entries whose id is already present
    /// are left untouched; each new id is appended with `downloaded=false`,
    /// its species key, and the next free filename suffix for that species
    /// (seeded from the largest suffix present, including entries added
    /// earlier in the same call).
    pub fn merge_discovered(&mut self, ds: &Vec<Discovered>)
        ensures
            final(self)@ == merge_all(old(self)@, ds.deep_view()),
            wf(old(self)@) ==> wf(final(self)@),
    {
        let ghost l0 = self@;
        let ghost dv = ds.deep_view();
        let mut i: usize = 0;
        while i < ds.len()
            invariant
                i <= ds@.len(),
                dv == ds.deep_view(),
                self@ == merge_all(l0, dv.take(i as int)),
            decreases ds@.len() - i,
        {
            let ghost lcur = self@;
            let d = &ds[i];
            proof {
                assert(dv[i as int] == d@);
                assert(dv.take(i + 1).drop_last() =~= dv.take(i as int));
                assert(dv.take(i + 1).last() == dv[i as int]);
            }
            if !contains_id(&self.entries, &d.id) {
                let species = format_species_name(d.common_name.as_str());
                let sp = str_to_chars(species.as_str());
                let m = max_suffix_exec(&self.entries, &sp);
                proof {
                    lemma_max_suffix_bound(lcur, sp@);
                }
                if m < u64::MAX {
                    let fname = make_filename(&sp, m + 1);
                    let e = Entry {
                        id: d.id.clone(),
                        source_url: d.url.clone(),
                        common_name: d.common_name.clone(),
                        scientific_name: d.scientific_name.clone(),
                        species,
                        filename: chars_to_string(&fname),
                        downloaded: false,
                    };
                    proof {
                        assert(e@ == merge_one(lcur, d@).last());
                    }
                    self.entries.push(e);
                    proof {
                        assert(self@ =~= merge_one(lcur, d@));
                    }
                }
            }
            i = i + 1;
        }
        proof {
            assert(dv.take(dv.len() as int) =~= dv);
            if wf(l0) {
                lemma_merge_all_wf(l0, dv);
            }
        }
    }
}

// ---------- contiguity of assigned suffixes ----------

/// Some entry's filename carries suffix `n` under species `sp`.
pub open spec fn has_suffix(l: Seq<EntryV>, sp: Seq<char>, n: nat) -> bool {
    exists|i: int|
        0 <= i < l.len() && spec_suffix_of(#[trigger] l[i].filename, sp) == Some(n)
}

/// A canonical filename parses only under its own species prefix.
proof fn lemma_canonical_cross(sp1: Seq<char>, n1: nat, sp2: Seq<char>)
    requires
        n1 <= u64::MAX,
        sp1 != sp2,
    ensures
        spec_suffix_of(spec_filename(sp1, n1), sp2) is None,
{
    crate::text::lemma_dec_rep_val(n1);
    let f = spec_filename(sp1, n1);
    let a = sp1.len() as int;
    let b = sp2.len() as int;
    let d = dec_rep(n1).len() as int;
    assert(f.len() == a + 1 + d + 4);
    assert(forall|t: int| 0 <= t < a ==> f[t] == sp1[t]);
    assert(f[a] == '_');
    assert(forall|t: int| 0 <= t < d ==> f[a + 1 + t] == dec_rep(n1)[t]);
    if spec_suffix_of(f, sp2) is Some {
        let pre = sp2 + seq!['_'];
        assert(f.take(b + 1) == pre);
        assert forall|t: int| 0 <= t < b + 1 implies f[t] == pre[t] by {
            assert(f.take(b + 1)[t] == f[t]);
        }
        assert(f[b] == '_');
        let mid = f.subrange(b + 1, f.len() - 4);
        if b == a {
            assert(sp2 =~= sp1);
        } else if b < a {
            assert(mid[a - b - 1] == f[a]);
            assert(crate::text::is_digit(mid[a - b - 1]));
            assert(false);
        } else {
            assert(f.len() >= b + 6);
            assert(b - a - 1 < d);
            assert(f[b] == dec_rep(n1)[b - a - 1]);
            assert(crate::text::is_digit(dec_rep(n1)[b - a - 1]));
            assert(false);
        }
    }
}

/// The merge appends an entry for `d`.
pub open spec fn merge_pushes(l: Seq<EntryV>, d: DiscoveredV) -> bool {
    !has_id(l, d.id) && max_suffix(l, spec_species(d.common_name)) < u64::MAX
}

/// How one merge step moves a species' largest suffix: up by exactly one for
/// the species that received an entry, not at all for every other.
proof fn lemma_merge_one_max(l: Seq<EntryV>, d: DiscoveredV, sp: Seq<char>)
    ensures
        max_suffix(merge_one(l, d), sp) == (if merge_pushes(l, d) && sp == spec_species(
            d.common_name,
        ) {
            max_suffix(l, sp) + 1
        } else {
            max_suffix(l, sp)
        }),
        merge_pushes(l, d) && sp == spec_species(d.common_name) ==> has_suffix(
            merge_one(l, d),
            sp,
            max_suffix(l, sp) + 1,
        ),
{
    if merge_pushes(l, d) {
        let spd = spec_species(d.common_name);
        let m = max_suffix(l, spd);
        let r = merge_one(l, d);
        let e = r.last();
        assert(r.drop_last() =~= l);
        lemma_filename_suffix(spd, m + 1);
        if sp == spd {
            assert(spec_suffix_of(e.filename, sp) == Some((m + 1) as nat));
            assert(r[r.len() - 1] == e);
        } else {
            lemma_canonical_cross(spd, m + 1, sp);
        }
    }
}

/// Suffixes assigned by one merge are contiguous: every value between a
/// species' largest suffix before the merge and its largest suffix after it
/// is carried by some entry. In particular, a species new to the ledger gets
/// the contiguous run starting at 1.
pub proof fn lemma_merge_suffixes_contiguous(
    l: Seq<EntryV>,
    ds: Seq<DiscoveredV>,
    sp: Seq<char>,
    n: nat,
)
    requires
        max_suffix(l, sp) < n <= max_suffix(merge_all(l, ds), sp),
    ensures
        has_suffix(merge_all(l, ds), sp, n),
    decreases ds.len(),
{
    if ds.len() == 0 {
    } else {
        let prev = merge_all(l, ds.drop_last());
        let r = merge_one(prev, ds.last());
        lemma_merge_one_max(prev, ds.last(), sp);
        lemma_merge_one_extends(prev, ds.last());
        if n <= max_suffix(prev, sp) {
            lemma_merge_suffixes_contiguous(l, ds.drop_last(), sp, n);
            let i = choose|i: int|
                0 <= i < prev.len() && spec_suffix_of(#[trigger] prev[i].filename, sp) == Some(n);
            assert(r[i] == prev[i]);
        } else {
            assert(merge_pushes(prev, ds.last()) && sp == spec_species(ds.last().common_name));
            assert(n == max_suffix(prev, sp) + 1);
        }
    }
}

/// For a species the ledger did not know, the suffixes a merge assigns are
/// the contiguous run 1, 2, … up to the species' new largest suffix.
pub proof fn lemma_merge_suffixes_from_one(
    l: Seq<EntryV>,
    ds: Seq<DiscoveredV>,
    sp: Seq<char>,
    n: nat,
)
    requires
        max_suffix(l, sp) == 0,
        1 <= n <= max_suffix(merge_all(l, ds), sp),
    ensures
        has_suffix(merge_all(l, ds), sp, n),
{
    lemma_merge_suffixes_contiguous(l, ds, sp, n);
}

/// Canonical filenames of one species are distinct for distinct suffixes; with
/// filename uniqueness this is why no merge assigns one suffix twice.
pub proof fn lemma_filename_injective(sp: Seq<char>, n1: nat, n2: nat)
    requires
        n1 <= u64::MAX,
        n2 <= u64::MAX,
        n1 != n2,
    ensures
        spec_filename(sp, n1) != spec_filename(sp, n2),
{
    lemma_filename_suffix(sp, n1);
    lemma_filename_suffix(sp, n2);
}

// ---------- idempotence of discovery merge ----------

/// Merging `d` into `l` can change nothing: either its id is present, or its
/// species can take no further suffix.
pub open spec fn absorbed(l: Seq<EntryV>, d: DiscoveredV) -> bool {
    has_id(l, d.id) || max_suffix(l, spec_species(d.common_name)) >= u64::MAX
}

proof fn lemma_merge_one_extends(l: Seq<EntryV>, d: DiscoveredV)
    ensures
        merge_one(l, d).len() >= l.len(),
        forall|i: int| 0 <= i < l.len() ==> #[trigger] merge_one(l, d)[i] == l[i],
{
}

/// A merge only appends: every entry already present stays, unchanged and
/// in place.
pub proof fn lemma_merge_all_extends(l: Seq<EntryV>, ds: Seq<DiscoveredV>)
    ensures
        merge_all(l, ds).len() >= l.len(),
        forall|i: int| 0 <= i < l.len() ==> #[trigger] merge_all(l, ds)[i] == l[i],
    decreases ds.len(),
{
    if ds.len() > 0 {
        lemma_merge_all_extends(l, ds.drop_last());
        lemma_merge_one_extends(merge_all(l, ds.drop_last()), ds.last());
    }
}

/// `max_suffix` only grows when the ledger is extended at the end.
proof fn lemma_max_suffix_monotone(l: Seq<EntryV>, l2: Seq<EntryV>, sp: Seq<char>)
    requires
        l.len() <= l2.len(),
        forall|i: int| 0 <= i < l.len() ==> #[trigger] l2[i] == l[i],
    ensures
        max_suffix(l, sp) <= max_suffix(l2, sp),
    decreases l2.len(),
{
    if l2.len() == l.len() {
        assert(l2 =~= l);
    } else {
        assert(forall|i: int| 0 <= i < l.len() ==> #[trigger] l2.drop_last()[i] == l[i]);
        lemma_max_suffix_monotone(l, l2.drop_last(), sp);
    }
}

proof fn lemma_absorbed_monotone(l: Seq<EntryV>, l2: Seq<EntryV>, d: DiscoveredV)
    requires
        absorbed(l, d),
        l.len() <= l2.len(),
        forall|i: int| 0 <= i < l.len() ==> #[trigger] l2[i] == l[i],
    ensures
        absorbed(l2, d),
{
    if has_id(l, d.id) {
        let i = choose|i: int| 0 <= i < l.len() && l[i].id == d.id;
        assert(l2[i].id == d.id);
    } else {
        lemma_max_suffix_monotone(l, l2, spec_species(d.common_name));
    }
}

proof fn lemma_merge_one_absorbed(l: Seq<EntryV>, d: DiscoveredV)
    ensures
        absorbed(merge_one(l, d), d),
{
    let r = merge_one(l, d);
    if has_id(l, d.id) {
        lemma_absorbed_monotone(l, r, d);
    } else if max_suffix(l, spec_species(d.common_name)) >= u64::MAX {
        lemma_absorbed_monotone(l, r, d);
    } else {
        assert(r[l.len() as int].id == d.id);
    }
}

/// After one merge, every entry of the batch is absorbed.
proof fn lemma_all_absorbed(l: Seq<EntryV>, ds: Seq<DiscoveredV>)
    ensures
        forall|k: int| 0 <= k < ds.len() ==> absorbed(merge_all(l, ds), #[trigger] ds[k]),
    decreases ds.len(),
{
    if ds.len() > 0 {
        let prev = merge_all(l, ds.drop_last());
        let r = merge_one(prev, ds.last());
        lemma_all_absorbed(l, ds.drop_last());
        lemma_merge_one_extends(prev, ds.last());
        assert forall|k: int| 0 <= k < ds.len() implies absorbed(r, #[trigger] ds[k]) by {
            if k < ds.len() - 1 {
                assert(absorbed(prev, ds.drop_last()[k]));
                assert(ds.drop_last()[k] == ds[k]);
                lemma_absorbed_monotone(prev, r, ds[k]);
            } else {
                lemma_merge_one_absorbed(prev, ds.last());
            }
        }
    }
}

/// Merging a batch of already-absorbed entries changes nothing.
proof fn lemma_merge_noop(l: Seq<EntryV>, ds: Seq<DiscoveredV>)
    requires
        forall|k: int| 0 <= k < ds.len() ==> absorbed(l, #[trigger] ds[k]),
    ensures
        merge_all(l, ds) == l,
    decreases ds.len(),
{
    if ds.len() > 0 {
        assert(forall|k: int| 0 <= k < ds.len() - 1 ==> #[trigger] ds.drop_last()[k] == ds[k]);
        lemma_merge_noop(l, ds.drop_last());
    }
}

/// Merging the same discovered batch twice is idempotent: the second merge
/// leaves the ledger — its size, its entries, their filenames — unchanged.
pub proof fn lemma_merge_idempotent(l: Seq<EntryV>, ds: Seq<DiscoveredV>)
    ensures
        merge_all(merge_all(l, ds), ds) == merge_all(l, ds),
{
    lemma_all_absorbed(l, ds);
    lemma_merge_noop(merge_all(l, ds), ds);
}

// ---------- disk reconciliation ----------

/// `e` with its download flag set to `b`.
pub open spec fn with_downloaded(e: EntryV, b: bool) -> EntryV {
    EntryV { downloaded: b, ..e }
}

/// Mark every entry whose filename is `f` as downloaded.
pub open spec fn mark_downloaded(l: Seq<EntryV>, f: Seq<char>) -> Seq<EntryV> {
    Seq::new(
        l.len(),
        |i: int|
            if l[i].filename == f {
                with_downloaded(l[i], true)
            } else {
                l[i]
            },
    )
}

pub open spec fn underscore_to_space(c: char) -> char {
    if c == '_' {
        ' '
    } else {
        c
    }
}

pub open spec fn dot_to_underscore(c: char) -> char {
    if c == '.' {
        '_'
    } else {
        c
    }
}

/// Best-effort species of a file found on disk: the name up to the last
/// underscore, or up to the extension when it has no underscore.
pub open spec fn spec_disk_species(f: Seq<char>) -> Seq<char> {
    match crate::text::rfind(f, '_') {
        Some(i) => f.take(i),
        None => match crate::text::rfind(f, '.') {
            Some(i) => f.take(i),
            None => f,
        },
    }
}

/// Common name derived back from a species key.
pub open spec fn spec_disk_common(sp: Seq<char>) -> Seq<char> {
    sp.map_values(|c: char| underscore_to_space(c))
}

/// The sentinel source of an entry that was discovered only on disk.
pub open spec fn disk_url() -> Seq<char> {
    "file://local"@
}

/// The base of a synthesized identity for a disk-only file.
pub open spec fn spec_local_base(f: Seq<char>) -> Seq<char> {
    seq!['l', 'o', 'c', 'a', 'l', '_'] + f.map_values(|c: char| dot_to_underscore(c))
}

/// The `k`-th identity candidate derived from `base`.
pub open spec fn id_candidate(base: Seq<char>, k: nat) -> Seq<char> {
    if k == 0 {
        base
    } else {
        base + seq!['_'] + dec_rep(k)
    }
}

/// The first identity candidate, starting at number `k`, that no entry uses;
/// the search gives up after `tries` candidates.
pub open spec fn synth_id_from(l: Seq<EntryV>, base: Seq<char>, k: nat, tries: nat) -> Option<
    Seq<char>,
>
    decreases tries,
{
    if tries == 0 {
        None
    } else if !has_id(l, id_candidate(base, k)) {
        Some(id_candidate(base, k))
    } else {
        synth_id_from(l, base, k + 1, (tries - 1) as nat)
    }
}

/// A synthesized identity is fresh.
proof fn lemma_synth_fresh(l: Seq<EntryV>, base: Seq<char>, k: nat, tries: nat)
    requires
        synth_id_from(l, base, k, tries) is Some,
    ensures
        !has_id(l, synth_id_from(l, base, k, tries)->Some_0),
    decreases tries,
{
    if tries > 0 && has_id(l, id_candidate(base, k)) {
        lemma_synth_fresh(l, base, k + 1, (tries - 1) as nat);
    }
}

/// Distinct candidate numbers give distinct identities.
proof fn lemma_candidate_injective(base: Seq<char>, k1: nat, k2: nat)
    requires
        k1 != k2,
    ensures
        id_candidate(base, k1) != id_candidate(base, k2),
{
    crate::text::lemma_dec_rep_val(k1);
    crate::text::lemma_dec_rep_val(k2);
    let c1 = id_candidate(base, k1);
    let c2 = id_candidate(base, k2);
    if k1 == 0 || k2 == 0 {
        assert(c1.len() != c2.len());
    } else if c1 == c2 {
        assert(c1.len() == base.len() + 1 + dec_rep(k1).len());
        assert(c2.len() == base.len() + 1 + dec_rep(k2).len());
        assert(dec_rep(k1).len() == dec_rep(k2).len());
        assert(dec_rep(k1) =~= dec_rep(k2)) by {
            assert(forall|t: int|
                0 <= t < dec_rep(k1).len() ==> c1[base.len() + 1 + t] == #[trigger] dec_rep(k1)[t]);
            assert(forall|t: int|
                0 <= t < dec_rep(k2).len() ==> c2[base.len() + 1 + t] == #[trigger] dec_rep(k2)[t]);
        }
    }
}

/// The entries whose id equals some identity candidate numbered `k` or above.
spec fn later_hits(l: Seq<EntryV>, base: Seq<char>, k: nat) -> Set<int> {
    Set::new(
        |i: int|
            0 <= i < l.len() && exists|j: nat| j >= k && l[i].id == id_candidate(base, j),
    )
}

proof fn lemma_later_hits_finite(l: Seq<EntryV>, base: Seq<char>, k: nat)
    ensures
        later_hits(l, base, k).finite(),
        later_hits(l, base, k).len() <= l.len(),
{
    vstd::set_lib::lemma_int_range(0, l.len() as int);
    assert(later_hits(l, base, k) <= vstd::set_lib::set_int_range(0, l.len() as int));
    vstd::set_lib::lemma_len_subset(
        later_hits(l, base, k),
        vstd::set_lib::set_int_range(0, l.len() as int),
    );
}

/// With more tries than entries that could collide, the search succeeds.
proof fn lemma_synth_from_bounded(l: Seq<EntryV>, base: Seq<char>, k: nat, tries: nat)
    requires
        tries > later_hits(l, base, k).len(),
        later_hits(l, base, k).finite(),
    ensures
        synth_id_from(l, base, k, tries) is Some,
    decreases tries,
{
    if has_id(l, id_candidate(base, k)) {
        let hit = choose|i: int| 0 <= i < l.len() && l[i].id == id_candidate(base, k);
        assert(later_hits(l, base, k).contains(hit));
        assert forall|i: int| later_hits(l, base, k + 1).contains(i) implies later_hits(
            l,
            base,
            k,
        ).remove(hit).contains(i) by {
            let j = choose|j: nat| j >= k + 1 && l[i].id == id_candidate(base, j);
            assert(j >= k && l[i].id == id_candidate(base, j));
            if i == hit {
                lemma_candidate_injective(base, k, j);
            }
        }
        vstd::set_lib::lemma_len_subset(
            later_hits(l, base, k + 1),
            later_hits(l, base, k).remove(hit),
        );
        lemma_synth_from_bounded(l, base, k + 1, (tries - 1) as nat);
    }
}

/// The identity search never gives up: within `l.len() + 2` candidates one
/// is always free.
proof fn lemma_synth_id_total(l: Seq<EntryV>, base: Seq<char>)
    ensures
        synth_id_from(l, base, 0, l.len() + 2) is Some,
{
    lemma_later_hits_finite(l, base, 0);
    lemma_synth_from_bounded(l, base, 0, l.len() + 2);
}

/// Reconcile one file found on disk: a file whose name some entry already
/// carries marks that entry downloaded; any other canonical-format file is
/// appended as a new, already-downloaded entry with a synthesized identity.
pub open spec fn reconcile_one(l: Seq<EntryV>, f: Seq<char>) -> Seq<EntryV> {
    if !has_ext(f, wav_suffix()) {
        l
    } else if has_filename(l, f) {
        mark_downloaded(l, f)
    } else {
        match synth_id_from(l, spec_local_base(f), 0, l.len() + 2) {
            Some(id) => l.push(
                EntryV {
                    id: id,
                    source_url: disk_url(),
                    common_name: spec_disk_common(spec_disk_species(f)),
                    scientific_name: unknown(),
                    species: spec_disk_species(f),
                    filename: f,
                    downloaded: true,
                },
            ),
            None => l,
        }
    }
}

/// A canonical-format file that no entry accounts for is always recorded:
/// reconciling it appends exactly one entry, already downloaded, carrying
/// the file's name and its best-effort species.
pub proof fn lemma_reconcile_records_unknown_file(l: Seq<EntryV>, f: Seq<char>)
    requires
        has_ext(f, wav_suffix()),
        !has_filename(l, f),
    ensures
        reconcile_one(l, f).len() == l.len() + 1,
        reconcile_one(l, f).last().filename == f,
        reconcile_one(l, f).last().species == spec_disk_species(f),
        reconcile_one(l, f).last().downloaded,
{
    lemma_synth_id_total(l, spec_local_base(f));
}

/// Reconcile a sequence of files found on disk, in order.
pub open spec fn reconcile_all(l: Seq<EntryV>, fs: Seq<Seq<char>>) -> Seq<EntryV>
    decreases fs.len(),
{
    if fs.len() == 0 {
        l
    } else {
        reconcile_one(reconcile_all(l, fs.drop_last()), fs.last())
    }
}

/// All fields of `a` survive in `b`, and the download flag never goes back
/// from true to false.
pub open spec fn entry_preserved(a: EntryV, b: EntryV) -> bool {
    &&& b.id == a.id
    &&& b.source_url == a.source_url
    &&& b.common_name == a.common_name
    &&& b.scientific_name == a.scientific_name
    &&& b.species == a.species
    &&& b.filename == a.filename
    &&& a.downloaded ==> b.downloaded
}

proof fn lemma_reconcile_one_preserves(l: Seq<EntryV>, f: Seq<char>)
    ensures
        reconcile_one(l, f).len() >= l.len(),
        forall|i: int| 0 <= i < l.len() ==> entry_preserved(l[i], #[trigger] reconcile_one(l, f)[i]),
{
}

/// Reconciliation never removes an entry and never clears a download flag.
pub proof fn lemma_reconcile_all_preserves(l: Seq<EntryV>, fs: Seq<Seq<char>>)
    ensures
        reconcile_all(l, fs).len() >= l.len(),
        forall|i: int|
            0 <= i < l.len() ==> entry_preserved(l[i], #[trigger] reconcile_all(l, fs)[i]),
    decreases fs.len(),
{
    if fs.len() > 0 {
        lemma_reconcile_all_preserves(l, fs.drop_last());
        lemma_reconcile_one_preserves(reconcile_all(l, fs.drop_last()), fs.last());
    }
}

proof fn lemma_reconcile_one_wf(l: Seq<EntryV>, f: Seq<char>)
    requires
        wf(l),
    ensures
        wf(reconcile_one(l, f)),
{
    let r = reconcile_one(l, f);
    if has_ext(f, wav_suffix()) && !has_filename(l, f) {
        if synth_id_from(l, spec_local_base(f), 0, l.len() + 2) is Some {
            lemma_synth_fresh(l, spec_local_base(f), 0, l.len() + 2);
            assert forall|i: int| 0 <= i < l.len() implies l[i].id != r.last().id by {
                if l[i].id == r.last().id {
                    assert(has_id(l, r.last().id));
                }
            }
            assert forall|i: int| 0 <= i < l.len() implies l[i].filename != r.last().filename by {
                if l[i].filename == f {
                    assert(has_filename(l, f));
                }
            }
        }
    }
}

/// Reconciliation preserves the ledger invariants.
pub proof fn lemma_reconcile_all_wf(l: Seq<EntryV>, fs: Seq<Seq<char>>)
    requires
        wf(l),
    ensures
        wf(reconcile_all(l, fs)),
    decreases fs.len(),
{
    if fs.len() > 0 {
        lemma_reconcile_all_wf(l, fs.drop_last());
        lemma_reconcile_one_wf(reconcile_all(l, fs.drop_last()), fs.last());
    }
}

pub(crate) fn contains_filename(entries: &Vec<Entry>, f: &String) -> (r: bool)
    ensures
        r == has_filename(entries.deep_view(), f@),
{
    let mut k: usize = 0;
    while k < entries.len()
        invariant
            k <= entries@.len(),
            forall|j: int| 0 <= j < k ==> entries.deep_view()[j].filename != f@,
        decreases entries@.len() - k,
    {
        let e = &entries[k];
        if e.filename.eq(f) {
            proof {
                assert(entries.deep_view()[k as int].filename == f@);
            }
            return true;
        }
        k = k + 1;
    }
    false
}

fn mark_downloaded_exec(entries: &Vec<Entry>, f: &String) -> (r: Vec<Entry>)
    ensures
        r.deep_view() == mark_downloaded(entries.deep_view(), f@),
{
    let ghost l = entries.deep_view();
    let mut r: Vec<Entry> = Vec::new();
    let mut k: usize = 0;
    while k < entries.len()
        invariant
            k <= entries@.len(),
            l == entries.deep_view(),
            r.deep_view().len() == k,
            forall|j: int|
                0 <= j < k ==> r.deep_view()[j] == (if l[j].filename == f@ {
                    with_downloaded(l[j], true)
                } else {
                    l[j]
                }),
        decreases entries@.len() - k,
    {
        let e = &entries[k];
        let mut c = clone_entry(e);
        if e.filename.eq(f) {
            c.downloaded = true;
        }
        let ghost cv = c@;
        proof {
            assert(l[k as int] == e@);
        }
        let ghost rprev = r.deep_view();
        r.push(c);
        proof {
            assert forall|j: int| 0 <= j < k + 1 implies r.deep_view()[j] == (if l[j].filename
                == f@ {
                with_downloaded(l[j], true)
            } else {
                l[j]
            }) by {
                if j < k {
                    assert(r.deep_view()[j] == rprev[j]);
                } else {
                    assert(r.deep_view()[j] == cv);
                }
            }
        }
        k = k + 1;
    }
    proof {
        assert(r.deep_view() =~= mark_downloaded(l, f@));
    }
    r
}

fn map_underscore_to_space(v: &Vec<char>) -> (r: Vec<char>)
    ensures
        r@ == spec_disk_common(v@),
{
    let mut out: Vec<char> = Vec::new();
    let mut i: usize = 0;
    while i < v.len()
        invariant
            i <= v@.len(),
            out@ =~= v@.take(i as int).map_values(|c: char| underscore_to_space(c)),
        decreases v@.len() - i,
    {
        let c = v[i];
        if c == '_' {
            out.push(' ');
        } else {
            out.push(c);
        }
        proof {
            let ghost cc = v@[i as int];
            assert(v@.take(i + 1).map_values(|c: char| underscore_to_space(c)) =~= v@.take(
                i as int,
            ).map_values(|c: char| underscore_to_space(c)).push(underscore_to_space(cc)));
        }
        i = i + 1;
    }
    proof {
        assert(v@.take(v@.len() as int) =~= v@);
    }
    out
}

fn build_local_base(f: &Vec<char>) -> (r: Vec<char>)
    ensures
        r@ == spec_local_base(f@),
{
    let mut out = str_to_chars("local_");
    proof {
        reveal_strlit("local_");
        assert(out@ =~= seq!['l', 'o', 'c', 'a', 'l', '_']);
    }
    let ghost pre = out@;
    let mut i: usize = 0;
    while i < f.len()
        invariant
            i <= f@.len(),
            out@ =~= pre + f@.take(i as int).map_values(|c: char| dot_to_underscore(c)),
        decreases f@.len() - i,
    {
        let c = f[i];
        if c == '.' {
            out.push('_');
        } else {
            out.push(c);
        }
        proof {
            let ghost cc = f@[i as int];
            assert(pre + f@.take(i + 1).map_values(|c: char| dot_to_underscore(c)) =~= (pre
                + f@.take(i as int).map_values(|c: char| dot_to_underscore(c))).push(
                dot_to_underscore(cc),
            ));
        }
        i = i + 1;
    }
    proof {
        assert(f@.take(f@.len() as int) =~= f@);
    }
    out
}

fn synth_unique_id(entries: &Vec<Entry>, base: &Vec<char>) -> (r: Option<Vec<char>>)
    ensures
        ({
            let l = entries.deep_view();
            match r {
                Some(v) => synth_id_from(l, base@, 0, l.len() + 2) == Some(v@),
                None => synth_id_from(l, base@, 0, l.len() + 2) is None,
            }
        }),
{
    let ghost l = entries.deep_view();
    let tries: u128 = entries.len() as u128 + 2;
    let mut k: u128 = 0;
    while k < tries
        invariant
            k <= tries,
            tries == l.len() + 2,
            l == entries.deep_view(),
            synth_id_from(l, base@, 0, l.len() + 2) == synth_id_from(
                l,
                base@,
                k as nat,
                (tries - k) as nat,
            ),
        decreases tries - k,
    {
        let mut cand = copy_range(base, 0, base.len());
        if k > 0 {
            cand.push('_');
            crate::text::push_dec_u128(k, &mut cand);
        }
        proof {
            assert(cand@ =~= id_candidate(base@, k as nat));
        }
        let cand_str = chars_to_string(&cand);
        if !contains_id(entries, &cand_str) {
            return Some(cand);
        }
        k = k + 1;
    }
    None
}

impl Ledger {
    /// Reconcile the ledger with the canonical-format files actually present
    /// on disk. Files already known mark their entry downloaded; unknown
    /// files are appended as new, already-downloaded entries. No entry is
    /// ever removed, and no download flag ever goes back from true to false.
    pub fn reconcile_with_disk(&mut self, files: &Vec<String>)
        ensures
            final(self)@ == reconcile_all(old(self)@, files.deep_view()),
            wf(old(self)@) ==> wf(final(self)@),
            final(self)@.len() >= old(self)@.len(),
            forall|i: int|
                0 <= i < old(self)@.len() ==> entry_preserved(
                    old(self)@[i],
                    #[trigger] final(self)@[i],
                ),
    {
        let ghost l0 = self@;
        let ghost fv = files.deep_view();
        let mut j: usize = 0;
        while j < files.len()
            invariant
                j <= files@.len(),
                fv == files.deep_view(),
                self@ == reconcile_all(l0, fv.take(j as int)),
            decreases files@.len() - j,
        {
            let ghost lcur = self@;
            let f_chars = str_to_chars(files[j].as_str());
            proof {
                assert(fv[j as int] == files@[j as int]@);
                assert(fv.take(j + 1).drop_last() =~= fv.take(j as int));
                assert(fv.take(j + 1).last() == fv[j as int]);
            }
            let wav = crate::title::wav_suffix_exec();
            if ends_with(&f_chars, &wav) {
                if contains_filename(&self.entries, &files[j]) {
                    let marked = mark_downloaded_exec(&self.entries, &files[j]);
                    self.entries = marked;
                } else {
                    let species_v = match crate::text::rfind_exec(&f_chars, '_') {
                        Some(i) => copy_range(&f_chars, 0, i),
                        None => match crate::text::rfind_exec(&f_chars, '.') {
                            Some(i) => copy_range(&f_chars, 0, i),
                            None => copy_range(&f_chars, 0, f_chars.len()),
                        },
                    };
                    proof {
                        assert(species_v@ == spec_disk_species(f_chars@));
                    }
                    let common_v = map_underscore_to_space(&species_v);
                    let base = build_local_base(&f_chars);
                    match synth_unique_id(&self.entries, &base) {
                        Some(idv) => {
                            let e = Entry {
                                id: chars_to_string(&idv),
                                source_url: "file://local".to_owned(),
                                common_name: chars_to_string(&common_v),
                                scientific_name: "unknown".to_owned(),
                                species: chars_to_string(&species_v),
                                filename: files[j].clone(),
                                downloaded: true,
                            };
                            proof {
                                reveal_strlit("unknown");
                                assert(e.scientific_name@ =~= unknown());
                                assert(e@ == reconcile_one(lcur, f_chars@).last());
                            }
                            self.entries.push(e);
                            proof {
                                assert(self@ =~= reconcile_one(lcur, f_chars@));
                            }
                        },
                        None => {
                        },
                    }
                }
            }
            j = j + 1;
        }
        proof {
            assert(fv.take(fv.len() as int) =~= fv);
            if wf(l0) {
                lemma_reconcile_all_wf(l0, fv);
            }
            lemma_reconcile_all_preserves(l0, fv);
        }
    }
}

// ---------- download results and pending work ----------

/// The id appears in the result list.
pub open spec fn id_listed(ids: Seq<Seq<char>>, id: Seq<char>) -> bool {
    exists|k: int| 0 <= k < ids.len() && ids[k] == id
}

/// Every entry whose id appears in `ids` is marked downloaded; unknown ids
/// change nothing.
pub open spec fn apply_results(l: Seq<EntryV>, ids: Seq<Seq<char>>) -> Seq<EntryV> {
    Seq::new(l.len(), |i: int| with_downloaded(l[i], l[i].downloaded || id_listed(ids, l[i].id)))
}

fn id_in_list(ids: &Vec<String>, id: &String) -> (r: bool)
    ensures
        r == id_listed(ids.deep_view(), id@),
{
    let mut k: usize = 0;
    while k < ids.len()
        invariant
            k <= ids@.len(),
            forall|j: int| 0 <= j < k ==> ids.deep_view()[j] != id@,
        decreases ids@.len() - k,
    {
        if ids[k].eq(id) {
            proof {
                assert(ids.deep_view()[k as int] == id@);
            }
            return true;
        }
        k = k + 1;
    }
    false
}

/// The entries still awaiting download, in ledger order.
pub open spec fn pending_of(l: Seq<EntryV>) -> Seq<EntryV>
    decreases l.len(),
{
    if l.len() == 0 {
        Seq::empty()
    } else if !l.last().downloaded {
        pending_of(l.drop_last()).push(l.last())
    } else {
        pending_of(l.drop_last())
    }
}

impl Ledger {
    /// Record the ids that the download phase completed: each listed id's
    /// entry becomes downloaded; ids with no entry are ignored.
    pub fn apply_download_results(&mut self, ids: &Vec<String>)
        ensures
            final(self)@ == apply_results(old(self)@, ids.deep_view()),
            wf(old(self)@) ==> wf(final(self)@),
            final(self)@.len() == old(self)@.len(),
            forall|i: int|
                0 <= i < old(self)@.len() ==> entry_preserved(
                    old(self)@[i],
                    #[trigger] final(self)@[i],
                ),
    {
        let ghost l = self@;
        let ghost iv = ids.deep_view();
        let mut r: Vec<Entry> = Vec::new();
        let mut k: usize = 0;
        while k < self.entries.len()
            invariant
                k <= self.entries@.len(),
                l == self@,
                iv == ids.deep_view(),
                r.deep_view().len() == k,
                forall|j: int|
                    0 <= j < k ==> r.deep_view()[j] == with_downloaded(
                        l[j],
                        l[j].downloaded || id_listed(iv, l[j].id),
                    ),
            decreases self.entries@.len() - k,
        {
            let e = &self.entries[k];
            let listed = id_in_list(ids, &e.id);
            let mut c = clone_entry(e);
            c.downloaded = e.downloaded || listed;
            let ghost cv = c@;
            proof {
                assert(l[k as int] == e@);
            }
            let ghost rprev = r.deep_view();
            r.push(c);
            proof {
                assert forall|j: int| 0 <= j < k + 1 implies r.deep_view()[j] == with_downloaded(
                    l[j],
                    l[j].downloaded || id_listed(iv, l[j].id),
                ) by {
                    if j < k {
                        assert(r.deep_view()[j] == rprev[j]);
                    } else {
                        assert(r.deep_view()[j] == cv);
                    }
                }
            }
            k = k + 1;
        }
        self.entries = r;
        proof {
            assert(self@ =~= apply_results(l, iv));
        }
    }

    /// The entries not yet downloaded, in order.
    pub fn pending_entries(&self) -> (r: Vec<Entry>)
        ensures
            r.deep_view() == pending_of(self@),
    {
        let ghost l = self@;
        let mut r: Vec<Entry> = Vec::new();
        let mut k: usize = 0;
        while k < self.entries.len()
            invariant
                k <= self.entries@.len(),
                l == self@,
                r.deep_view() == pending_of(l.take(k as int)),
            decreases self.entries@.len() - k,
        {
            let e = &self.entries[k];
            proof {
                assert(l.take(k + 1).drop_last() =~= l.take(k as int));
                assert(l.take(k + 1).last() == l[k as int]);
                assert(l[k as int] == e@);
            }
            if !e.downloaded {
                let c = clone_entry(e);
                let ghost rprev = r.deep_view();
                let ghost cv = c@;
                r.push(c);
                proof {
                    assert(r.deep_view() =~= rprev.push(cv));
                }
            }
            k = k + 1;
        }
        proof {
            assert(l.take(l.len() as int) =~= l);
        }
        r
    }
}

} // verus!
