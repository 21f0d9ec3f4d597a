//! Selecting `node_modules` directories from a bounded walk, summing the
//! files beneath one, and assembling the sorted scan result.
use vstd::prelude::*;
use crate::path_text::{
    contains_multiple_node_modules, count_occurrences, display_name, display_name_of, file_name,
    file_name_of, last_sep, lemma_last_sep_bounds, occurs_at_exec, target_name, target_str,
};
use crate::size_format::{get_size_as_string, hundredths, lemma_size_text_rounding, size_text, size_unit};

verus! {

/// Shallowest walk depth at which a match is looked for (the root is depth 0).
pub const SCAN_MIN_DEPTH: usize = 1;

/// Deepest walk depth at which a match is looked for.
pub const SCAN_MAX_DEPTH: usize = 3;

/// One entry met while walking beneath the scan root.
#[derive(Clone, Debug)]
pub struct WalkEntry {
    /// The entry's path, starting with the scan root, with '/' between its
    /// segments (whatever separator the platform writes).
    pub path: String,
    /// Whether the entry is a directory.
    pub is_dir: bool,
    /// How many levels below the scan root the entry lies.
    pub depth: usize,
}

impl View for WalkEntry {
    type V = (Seq<char>, bool, usize);

    open spec fn view(&self) -> (Seq<char>, bool, usize) {
        (self.path@, self.is_dir, self.depth)
    }
}

/// What is known of one entry met while walking beneath a matched directory.
#[derive(Clone, Copy, Debug)]
pub struct FileMeta {
    /// Whether the entry is a regular file.
    pub is_file: bool,
    /// Its length in bytes.
    pub len: u64,
}

/// The views of a walk's entries; an entry that could not be read is `None`.
pub open spec fn walk_view(entries: Seq<Option<WalkEntry>>) -> Seq<Option<(Seq<char>, bool, usize)>> {
    entries.map_values(|e: Option<WalkEntry>| match e {
        Some(w) => Some(w@),
        None => None,
    })
}

/// Whether a walk entry is a match: a directory within the scan depths whose
/// final segment is the target name, with the target name occurring exactly
/// once in its path.
pub open spec fn is_match(e: (Seq<char>, bool, usize)) -> bool {
    &&& SCAN_MIN_DEPTH <= e.2 <= SCAN_MAX_DEPTH
    &&& e.1
    &&& file_name(e.0) == target_name()
    &&& count_occurrences(e.0, target_name()) == 1
}

/// The paths of the matches among a walk's entries, in walk order; entries
/// that could not be read are skipped.
pub open spec fn matched_paths(entries: Seq<Option<(Seq<char>, bool, usize)>>) -> Seq<Seq<char>>
    decreases entries.len(),
{
    if entries.len() == 0 {
        Seq::empty()
    } else {
        let rest = matched_paths(entries.drop_last());
        match entries.last() {
            Some(e) => if is_match(e) {
                rest.push(e.0)
            } else {
                rest
            },
            None => rest,
        }
    }
}

/// The total length of the regular files among `metas`, skipping entries
/// whose metadata could not be read.
pub open spec fn file_bytes(metas: Seq<Option<FileMeta>>) -> nat
    decreases metas.len(),
{
    if metas.len() == 0 {
        0
    } else {
        file_bytes(metas.drop_last()) + match metas.last() {
            Some(m) => if m.is_file {
                m.len as nat
            } else {
                0
            },
            None => 0,
        }
    }
}

/// A count of bytes, capped at the largest `u64`.
pub open spec fn capped(n: nat) -> u64 {
    if n > u64::MAX {
        u64::MAX
    } else {
        n as u64
    }
}

/// A path ends with the text `p`.
pub open spec fn ends_with(s: Seq<char>, p: Seq<char>) -> bool {
    p.len() <= s.len() && s.subrange(s.len() - p.len(), s.len() as int) == p
}

/// A text that ends with a non-empty pattern holds at least one occurrence.
pub proof fn lemma_ends_with_occurs(s: Seq<char>, p: Seq<char>)
    requires
        p.len() > 0,
        ends_with(s, p),
    ensures
        count_occurrences(s, p) >= 1,
    decreases s.len(),
{
    if s.subrange(0, p.len() as int) != p {
        if s.len() == p.len() {
            assert(s.subrange(0, p.len() as int) =~= s.subrange(
                s.len() - p.len(),
                s.len() as int,
            ));
        }
        let t = s.subrange(1, s.len() as int);
        assert(t.subrange(t.len() - p.len(), t.len() as int) =~= s.subrange(
            s.len() - p.len(),
            s.len() as int,
        ));
        lemma_ends_with_occurs(t, p);
    }
}

fn same_text(a: &str, b: &str) -> (r: bool)
    ensures
        r == (a@ == b@),
{
    let r = a.unicode_len() == b.unicode_len() && occurs_at_exec(a, b, 0);
    proof {
        if r {
            assert(a@ =~= a@.subrange(0, b@.len() as int));
        }
        if a@ == b@ {
            assert(a@.subrange(0, b@.len() as int) =~= b@);
        }
    }
    r
}

/// Whether a walk entry is a match (see `is_match`).
pub fn is_node_modules_dir(entry: &WalkEntry) -> (r: bool)
    ensures
        r == is_match(entry@),
{
    if entry.depth < SCAN_MIN_DEPTH || entry.depth > SCAN_MAX_DEPTH || !entry.is_dir {
        return false;
    }
    let name = file_name_of(entry.path.as_str());
    if !same_text(name.as_str(), target_str()) {
        return false;
    }
    proof {
        let s = entry.path@;
        lemma_last_sep_bounds(s);
        assert(target_name().len() == 12);
        assert(file_name(s).len() == s.len() - last_sep(s) - 1);
        assert(s.subrange(s.len() - target_name().len(), s.len() as int) =~= file_name(s));
        lemma_ends_with_occurs(s, target_name());
    }
    !contains_multiple_node_modules(entry.path.as_str())
}

/// The paths of the matches among a walk's entries, in walk order. Entries
/// that could not be read (`None`) are skipped.
pub fn select_matches(entries: &Vec<Option<WalkEntry>>) -> (r: Vec<String>)
    ensures
        r@.map_values(|s: String| s@) == matched_paths(walk_view(entries@)),
{
    let mut r: Vec<String> = Vec::new();
    let mut i: usize = 0;
    while i < entries.len()
        invariant
            i <= entries@.len(),
            r@.map_values(|s: String| s@) == matched_paths(walk_view(entries@.take(i as int))),
        decreases entries@.len() - i,
    {
        proof {
            assert(walk_view(entries@.take(i + 1)).drop_last() =~= walk_view(
                entries@.take(i as int),
            ));
        }
        match &entries[i] {
            Some(e) => {
                if is_node_modules_dir(e) {
                    r.push(e.path.clone());
                    assert(r@.map_values(|s: String| s@) =~= matched_paths(
                        walk_view(entries@.take(i as int)),
                    ).push(e.path@));
                }
            },
            None => {},
        }
        i = i + 1;
    }
    assert(entries@.take(entries@.len() as int) =~= entries@);
    r
}

/// The total length in bytes of the regular files among the entries beneath
/// a directory, capped at the largest `u64`. Entries whose metadata could not
/// be read (`None`) are skipped.
pub fn get_folder_size(metas: &Vec<Option<FileMeta>>) -> (r: u64)
    ensures
        r == capped(file_bytes(metas@)),
{
    let mut total: u64 = 0;
    let mut i: usize = 0;
    while i < metas.len()
        invariant
            i <= metas@.len(),
            total == capped(file_bytes(metas@.take(i as int))),
        decreases metas@.len() - i,
    {
        proof {
            assert(metas@.take(i + 1).drop_last() =~= metas@.take(i as int));
        }
        match metas[i] {
            Some(m) => {
                if m.is_file {
                    total = total.saturating_add(m.len);
                }
            },
            None => {},
        }
        i = i + 1;
    }
    assert(metas@.take(metas@.len() as int) =~= metas@);
    total
}

/// A matched directory together with its size in bytes (0 when sizes are
/// not computed).
#[derive(Clone, Debug)]
pub struct FoundDir {
    /// The directory's path, starting with the scan root.
    pub path: String,
    /// The total length of the regular files beneath it.
    pub size_in_bytes: u64,
}

impl View for FoundDir {
    type V = (Seq<char>, u64);

    open spec fn view(&self) -> (Seq<char>, u64) {
        (self.path@, self.size_in_bytes)
    }
}

/// One reported directory: its path, the name shown for it, its size as
/// display text and in bytes.
#[derive(Debug)]
pub struct FolderWithNodeModules {
    pub path: String,
    pub name: String,
    pub size: String,
    pub size_in_bytes: u64,
}

impl View for FolderWithNodeModules {
    type V = (Seq<char>, Seq<char>, Seq<char>, u64);

    open spec fn view(&self) -> (Seq<char>, Seq<char>, Seq<char>, u64) {
        (self.path@, self.name@, self.size@, self.size_in_bytes)
    }
}

/// The outcome of a scan: the reported directories, largest first, and the
/// display text of their total size.
#[derive(Debug)]
pub struct ScanResult {
    pub folders: Vec<FolderWithNodeModules>,
    pub total_size: String,
}

/// The views of a list of matches with their sizes.
pub open spec fn found_view(found: Seq<FoundDir>) -> Seq<(Seq<char>, u64)> {
    found.map_values(|f: FoundDir| f@)
}

/// The views of a list of reported directories.
pub open spec fn folders_view(folders: Seq<FolderWithNodeModules>) -> Seq<
    (Seq<char>, Seq<char>, Seq<char>, u64),
> {
    folders.map_values(|f: FolderWithNodeModules| f@)
}

/// The matches that a scan reports, in walk order, each with the size it is
/// reported with: when sizes are computed, those of size 0 are dropped; when
/// they are not, every match is kept with size 0.
pub open spec fn kept(found: Seq<(Seq<char>, u64)>, calculate_size: bool) -> Seq<(Seq<char>, u64)>
    decreases found.len(),
{
    if found.len() == 0 {
        Seq::empty()
    } else {
        let rest = kept(found.drop_last(), calculate_size);
        let f = found.last();
        if !calculate_size {
            rest.push((f.0, 0u64))
        } else if f.1 > 0 {
            rest.push(f)
        } else {
            rest
        }
    }
}

/// The sum of the sizes of a sequence of matches.
pub open spec fn kept_total(k: Seq<(Seq<char>, u64)>) -> nat
    decreases k.len(),
{
    if k.len() == 0 {
        0
    } else {
        kept_total(k.drop_last()) + k.last().1 as nat
    }
}

/// Every match lies under `base`, so that it can be given a display name.
pub open spec fn all_under(k: Seq<(Seq<char>, u64)>, base: Seq<char>) -> bool {
    forall|i: int| 0 <= i < k.len() ==> (#[trigger] display_name(k[i].0, base)) is Some
}

/// The record reported for a match under `base`.
pub open spec fn folder_record(item: (Seq<char>, u64), base: Seq<char>) -> (
    Seq<char>,
    Seq<char>,
    Seq<char>,
    u64,
) {
    let name = match display_name(item.0, base) {
        Some(n) => n,
        None => Seq::empty(),
    };
    (item.0, name, size_text(item.1 as nat), item.1)
}

/// The records reported for matches `k` under `base`, in the same order.
pub open spec fn folder_records(k: Seq<(Seq<char>, u64)>, base: Seq<char>) -> Seq<
    (Seq<char>, Seq<char>, Seq<char>, u64),
> {
    k.map_values(|item: (Seq<char>, u64)| folder_record(item, base))
}

/// `x` placed into `s` after every element at least as large as `x`, up to
/// the first smaller one.
pub open spec fn insert_desc(
    s: Seq<(Seq<char>, Seq<char>, Seq<char>, u64)>,
    x: (Seq<char>, Seq<char>, Seq<char>, u64),
) -> Seq<(Seq<char>, Seq<char>, Seq<char>, u64)>
    decreases s.len(),
{
    if s.len() == 0 {
        seq![x]
    } else if s[0].3 >= x.3 {
        seq![s[0]] + insert_desc(s.drop_first(), x)
    } else {
        seq![x] + s
    }
}

/// Records ordered by size, largest first; records of equal size keep their
/// order.
pub open spec fn sort_desc(s: Seq<(Seq<char>, Seq<char>, Seq<char>, u64)>) -> Seq<
    (Seq<char>, Seq<char>, Seq<char>, u64),
>
    decreases s.len(),
{
    if s.len() == 0 {
        s
    } else {
        insert_desc(sort_desc(s.drop_last()), s.last())
    }
}

/// The text of the error that a match outside the scan root gives.
pub open spec fn prefix_error_text() -> Seq<char> {
    seq!['p', 'r', 'e', 'f', 'i', 'x', ' ', 'n', 'o', 't', ' ', 'f', 'o', 'u', 'n', 'd']
}

/// What a scan reports for matches `found` under `base`: `None` when a kept
/// match does not lie under `base`, else the records sorted largest first
/// and the display text of their total size.
pub open spec fn scan_outcome(
    found: Seq<(Seq<char>, u64)>,
    base: Seq<char>,
    calculate_size: bool,
) -> Option<(Seq<(Seq<char>, Seq<char>, Seq<char>, u64)>, Seq<char>)> {
    let k = kept(found, calculate_size);
    if all_under(k, base) {
        Some((sort_desc(folder_records(k, base)), size_text(capped(kept_total(k)) as nat)))
    } else {
        None
    }
}

/// The matches that a scan reports, with the sizes they are reported with.
pub fn keep_matches(found: &Vec<FoundDir>, calculate_size: bool) -> (r: Vec<FoundDir>)
    ensures
        found_view(r@) == kept(found_view(found@), calculate_size),
{
    let mut r: Vec<FoundDir> = Vec::new();
    let mut i: usize = 0;
    while i < found.len()
        invariant
            i <= found@.len(),
            found_view(r@) == kept(found_view(found@.take(i as int)), calculate_size),
        decreases found@.len() - i,
    {
        proof {
            assert(found_view(found@.take(i + 1)).drop_last() =~= found_view(
                found@.take(i as int),
            ));
        }
        let f = &found[i];
        if !calculate_size {
            r.push(FoundDir { path: f.path.clone(), size_in_bytes: 0 });
        } else if f.size_in_bytes > 0 {
            r.push(FoundDir { path: f.path.clone(), size_in_bytes: f.size_in_bytes });
        }
        proof {
            assert(found_view(r@) =~= kept(found_view(found@.take(i + 1)), calculate_size));
        }
        i = i + 1;
    }
    assert(found@.take(found@.len() as int) =~= found@);
    r
}

/// The sum of the sizes of `k`, capped at the largest `u64`.
fn total_of(k: &Vec<FoundDir>) -> (r: u64)
    ensures
        r == capped(kept_total(found_view(k@))),
{
    let mut total: u64 = 0;
    let mut i: usize = 0;
    while i < k.len()
        invariant
            i <= k@.len(),
            total == capped(kept_total(found_view(k@.take(i as int)))),
        decreases k@.len() - i,
    {
        proof {
            assert(found_view(k@.take(i + 1)).drop_last() =~= found_view(k@.take(i as int)));
        }
        total = total.saturating_add(k[i].size_in_bytes);
        i = i + 1;
    }
    assert(k@.take(k@.len() as int) =~= k@);
    total
}

fn prefix_error() -> (r: String)
    ensures
        r@ == prefix_error_text(),
{
    proof {
        reveal_strlit("prefix not found");
        assert("prefix not found"@ =~= prefix_error_text());
    }
    String::from_str("prefix not found")
}

/// The records of matches `k` under `base`, in the same order; `None` when
/// one of them does not lie under `base`.
fn records_of(k: &Vec<FoundDir>, base: &str) -> (r: Option<Vec<FolderWithNodeModules>>)
    ensures
        r is None <==> !all_under(found_view(k@), base@),
        r matches Some(v) ==> folders_view(v@) == folder_records(found_view(k@), base@),
{
    let mut v: Vec<FolderWithNodeModules> = Vec::new();
    let mut i: usize = 0;
    while i < k.len()
        invariant
            i <= k@.len(),
            forall|j: int| 0 <= j < i ==> (#[trigger] display_name(k@[j].path@, base@)) is Some,
            folders_view(v@) == folder_records(found_view(k@.take(i as int)), base@),
        decreases k@.len() - i,
    {
        let f = &k[i];
        match display_name_of(f.path.as_str(), base) {
            None => {
                proof {
                    assert(found_view(k@)[i as int] == f@);
                    assert(display_name(found_view(k@)[i as int].0, base@) is None);
                }
                return None;
            },
            Some(name) => {
                v.push(
                    FolderWithNodeModules {
                        path: f.path.clone(),
                        name,
                        size: get_size_as_string(f.size_in_bytes),
                        size_in_bytes: f.size_in_bytes,
                    },
                );
                proof {
                    assert(found_view(k@.take(i + 1)) =~= found_view(k@.take(i as int)).push(f@));
                    assert(folder_records(found_view(k@.take(i + 1)), base@) =~= folder_records(
                        found_view(k@.take(i as int)),
                        base@,
                    ).push(folder_record(f@, base@)));
                    assert(folders_view(v@) =~= folder_records(
                        found_view(k@.take(i + 1)),
                        base@,
                    ));
                }
            },
        }
        i = i + 1;
    }
    proof {
        assert(k@.take(k@.len() as int) =~= k@);
        assert forall|j: int| 0 <= j < found_view(k@).len() implies (#[trigger] display_name(
            found_view(k@)[j].0,
            base@,
        )) is Some by {
            assert(found_view(k@)[j] == k@[j]@);
        }
    }
    Some(v)
}

proof fn lemma_insert_at(
    s: Seq<(Seq<char>, Seq<char>, Seq<char>, u64)>,
    x: (Seq<char>, Seq<char>, Seq<char>, u64),
    p: int,
)
    requires
        0 <= p <= s.len(),
        forall|j: int| 0 <= j < p ==> s[j].3 >= x.3,
        p < s.len() ==> s[p].3 < x.3,
    ensures
        insert_desc(s, x) == s.insert(p, x),
    decreases s.len(),
{
    if s.len() == 0 {
        assert(s.insert(p, x) =~= seq![x]);
    } else if s[0].3 >= x.3 {
        lemma_insert_at(s.drop_first(), x, p - 1);
        assert(s.insert(p, x) =~= seq![s[0]] + s.drop_first().insert(p - 1, x));
    } else {
        assert(s.insert(p, x) =~= seq![x] + s);
    }
}

/// Orders records by size, largest first, keeping the order of equal sizes.
fn sort_by_size_desc(items: Vec<FolderWithNodeModules>) -> (r: Vec<FolderWithNodeModules>)
    ensures
        folders_view(r@) == sort_desc(folders_view(items@)),
{
    let ghost orig = folders_view(items@);
    let len = items.len();
    let ghost n = len as nat;
    let mut items = items;
    let mut out: Vec<FolderWithNodeModules> = Vec::new();
    let mut i: usize = 0;
    while items.len() > 0
        invariant
            orig.len() == n,
            n <= usize::MAX,
            i + items@.len() == n,
            folders_view(items@) == orig.subrange(i as int, n as int),
            folders_view(out@) == sort_desc(orig.take(i as int)),
        decreases items@.len(),
    {
        let ghost old_items = items@;
        let x = items.remove(0);
        proof {
            assert(folders_view(old_items)[0] == old_items[0]@);
            assert(folders_view(old_items)[0] == orig[i as int]);
            assert(x@ == orig[i as int]);
            assert forall|j: int| 0 <= j < items@.len() implies folders_view(items@)[j] == orig[i
                + 1 + j] by {
                assert(items@[j] == old_items[j + 1]);
                assert(folders_view(old_items)[j + 1] == old_items[j + 1]@);
            }
            assert(folders_view(items@) =~= orig.subrange(i + 1, n as int));
            assert(orig.take(i + 1).drop_last() =~= orig.take(i as int));
        }
        let mut p: usize = 0;
        while p < out.len() && out[p].size_in_bytes >= x.size_in_bytes
            invariant
                p <= out@.len(),
                forall|j: int| 0 <= j < p ==> (#[trigger] out@[j]).size_in_bytes >= x.size_in_bytes,
            decreases out@.len() - p,
        {
            p = p + 1;
        }
        proof {
            let s = folders_view(out@);
            assert forall|j: int| 0 <= j < p implies s[j].3 >= x@.3 by {
                assert(s[j] == out@[j]@);
            }
            if p < out@.len() {
                assert(s[p as int] == out@[p as int]@);
            }
            lemma_insert_at(s, x@, p as int);
        }
        let ghost before = out@;
        out.insert(p, x);
        proof {
            assert(folders_view(out@) =~= folders_view(before).insert(p as int, x@));
        }
        i = i + 1;
    }
    assert(orig.take(n as int) =~= orig);
    out
}

/// Assembles the result of a scan under `base_dir` from its matches in walk
/// order. When `calculate_size` holds, the sizes in `found` are the matches'
/// sizes and those of size 0 are dropped; otherwise every match is kept with
/// size 0. The records are sorted largest first, ties in walk order; the
/// total is the display text of the capped sum of their sizes. Fails with
/// "prefix not found" when a kept match does not lie under `base_dir`.
pub fn build_scan_result(base_dir: &str, found: &Vec<FoundDir>, calculate_size: bool) -> (r: Result<
    ScanResult,
    String,
>)
    ensures
        r is Err <==> scan_outcome(found_view(found@), base_dir@, calculate_size) is None,
        r matches Err(e) ==> e@ == prefix_error_text(),
        r matches Ok(res) ==> scan_outcome(found_view(found@), base_dir@, calculate_size) == Some(
            (folders_view(res.folders@), res.total_size@),
        ),
{
    let k = keep_matches(found, calculate_size);
    match records_of(&k, base_dir) {
        None => Err(prefix_error()),
        Some(records) => {
            let folders = sort_by_size_desc(records);
            let total = total_of(&k);
            Ok(ScanResult { folders, total_size: get_size_as_string(total) })
        },
    }
}

/// The matches `paths` paired with their sizes: the `j`-th match gets
/// `sizes[j]`, or 0 where `sizes` is shorter.
pub open spec fn pair_sizes(paths: Seq<Seq<char>>, sizes: Seq<u64>) -> Seq<(Seq<char>, u64)> {
    Seq::new(paths.len(), |j: int| (paths[j], if j < sizes.len() { sizes[j] } else { 0u64 }))
}

/// Scans a walk beneath `base_dir`: selects its matches (see `select_matches`)
/// and assembles the result from them (see `build_scan_result`). `sizes[j]`
/// is the size of the `j`-th match in walk order; a missing size counts as 0,
/// and sizes are not read at all when `calculate_size` is false.
pub fn scan_walk(
    base_dir: &str,
    entries: &Vec<Option<WalkEntry>>,
    sizes: &Vec<u64>,
    calculate_size: bool,
) -> (r: Result<ScanResult, String>)
    ensures
        ({
            let found = pair_sizes(matched_paths(walk_view(entries@)), sizes@);
            &&& r is Err <==> scan_outcome(found, base_dir@, calculate_size) is None
            &&& r matches Err(e) ==> e@ == prefix_error_text()
            &&& r matches Ok(res) ==> scan_outcome(found, base_dir@, calculate_size) == Some(
                (folders_view(res.folders@), res.total_size@),
            )
        }),
{
    let paths = select_matches(entries);
    let ghost names = matched_paths(walk_view(entries@));
    let mut found: Vec<FoundDir> = Vec::new();
    let mut j: usize = 0;
    while j < paths.len()
        invariant
            j <= paths@.len(),
            paths@.map_values(|s: String| s@) == names,
            found_view(found@) == pair_sizes(names, sizes@).take(j as int),
        decreases paths@.len() - j,
    {
        let size: u64 = if j < sizes.len() {
            sizes[j]
        } else {
            0
        };
        let ghost before = found@;
        let fd = FoundDir { path: paths[j].clone(), size_in_bytes: size };
        found.push(fd);
        proof {
            assert(paths@.map_values(|s: String| s@)[j as int] == paths@[j as int]@);
            assert(names[j as int] == paths@[j as int]@);
            assert(found_view(found@) =~= found_view(before).push(
                (names[j as int], size),
            ));
            assert(found_view(found@) =~= pair_sizes(names, sizes@).take(j + 1));
        }
        j = j + 1;
    }
    assert(pair_sizes(names, sizes@).take(paths@.len() as int) =~= pair_sizes(names, sizes@));
    build_scan_result(base_dir, &found, calculate_size)
}

/// Of a scanned walk: a directory met in the walk is reported exactly when
/// it is a match (a directory within the scan depths whose final segment is
/// the target name and whose path holds the target name exactly once) and,
/// when sizes are computed, a match with that path has a size above zero.
pub proof fn lemma_walk_reported_iff(
    entries: Seq<Option<(Seq<char>, bool, usize)>>,
    sizes: Seq<u64>,
    base: Seq<char>,
    calculate_size: bool,
    p: Seq<char>,
)
    requires
        scan_outcome(pair_sizes(matched_paths(entries), sizes), base, calculate_size) is Some,
    ensures
        ({
            let found = pair_sizes(matched_paths(entries), sizes);
            let fs = scan_outcome(found, base, calculate_size)->Some_0.0;
            (exists|i: int| 0 <= i < fs.len() && (#[trigger] fs[i]).0 == p) <==> ((exists|m: int|
                0 <= m < entries.len() && (#[trigger] entries[m]) is Some && entries[m]->Some_0.0
                    == p && is_match(entries[m]->Some_0)) && (exists|j: int|
                0 <= j < found.len() && (#[trigger] found[j]).0 == p && (!calculate_size
                    || found[j].1 > 0)))
        }),
{
    let found = pair_sizes(matched_paths(entries), sizes);
    assert(found.map_values(|f: (Seq<char>, u64)| f.0) =~= matched_paths(entries));
    lemma_reported_iff(entries, found, base, calculate_size, p);
}

/// No two readable entries of a walk share a path.
pub open spec fn walk_paths_distinct(entries: Seq<Option<(Seq<char>, bool, usize)>>) -> bool {
    forall|a: int, b: int|
        0 <= a < b < entries.len() && (#[trigger] entries[a]) is Some && (#[trigger] entries[b]) is Some
            ==> entries[a]->Some_0.0 != entries[b]->Some_0.0
}

proof fn lemma_matched_distinct(entries: Seq<Option<(Seq<char>, bool, usize)>>)
    requires
        walk_paths_distinct(entries),
    ensures
        matched_paths(entries).no_duplicates(),
    decreases entries.len(),
{
    if entries.len() > 0 {
        let rest = entries.drop_last();
        assert(walk_paths_distinct(rest)) by {
            assert forall|a: int, b: int|
                0 <= a < b < rest.len() && (#[trigger] rest[a]) is Some && (#[trigger] rest[b]) is Some
                    implies rest[a]->Some_0.0 != rest[b]->Some_0.0 by {
                assert(rest[a] == entries[a] && rest[b] == entries[b]);
            }
        }
        lemma_matched_distinct(rest);
        let n = entries.len() - 1;
        if entries[n] is Some && is_match(entries[n]->Some_0) {
            let q = entries[n]->Some_0.0;
            lemma_matched_paths_iff(rest, q);
            if matched_paths(rest).contains(q) {
                let m = choose|m: int|
                    0 <= m < rest.len() && (#[trigger] rest[m]) is Some && rest[m]->Some_0.0 == q
                        && is_match(rest[m]->Some_0);
                assert(entries[m] == rest[m]);
            }
            let r = matched_paths(rest);
            assert forall|i: int, j: int|
                0 <= i < r.len() + 1 && 0 <= j < r.len() + 1 && i != j implies r.push(q)[i] != r.push(
                    q,
                )[j] by {
                if i == r.len() {
                    assert(r.contains(r[j]));
                } else if j == r.len() {
                    assert(r.contains(r[i]));
                }
            }
        }
    }
}

proof fn lemma_kept_distinct(found: Seq<(Seq<char>, u64)>, calculate_size: bool)
    requires
        forall|i: int, j: int| 0 <= i < j < found.len() ==> found[i].0 != found[j].0,
    ensures
        ({
            let k = kept(found, calculate_size);
            forall|i: int, j: int| 0 <= i < j < k.len() ==> k[i].0 != k[j].0
        }),
    decreases found.len(),
{
    if found.len() > 0 {
        let rest = found.drop_last();
        lemma_kept_distinct(rest, calculate_size);
        let q = found.last().0;
        lemma_kept_iff(rest, calculate_size, q);
        let kr = kept(rest, calculate_size);
        let k = kept(found, calculate_size);
        assert forall|i: int, j: int| 0 <= i < j < k.len() implies k[i].0 != k[j].0 by {
            if j == kr.len() && k.len() == kr.len() + 1 {
                assert(k[i] == kr[i]);
                if kr[i].0 == q {
                    let m = choose|m: int|
                        0 <= m < rest.len() && (#[trigger] rest[m]).0 == q && (!calculate_size
                            || rest[m].1 > 0);
                    assert(found[m] == rest[m]);
                }
            } else {
                assert(k[i] == kr[i] && k[j] == kr[j]);
            }
        }
    }
}

/// Of a scanned walk in which no path is met twice: no path is reported
/// twice, so each reported directory appears exactly once.
pub proof fn lemma_walk_reported_once(
    entries: Seq<Option<(Seq<char>, bool, usize)>>,
    sizes: Seq<u64>,
    base: Seq<char>,
    calculate_size: bool,
)
    requires
        walk_paths_distinct(entries),
        scan_outcome(pair_sizes(matched_paths(entries), sizes), base, calculate_size) is Some,
    ensures
        ({
            let fs = scan_outcome(pair_sizes(matched_paths(entries), sizes), base, calculate_size)->Some_0.0;
            forall|i: int, j: int| 0 <= i < j < fs.len() ==> fs[i].0 != fs[j].0
        }),
{
    broadcast use vstd::seq_lib::group_to_multiset_ensures;

    let found = pair_sizes(matched_paths(entries), sizes);
    lemma_matched_distinct(entries);
    lemma_kept_distinct(found, calculate_size);
    let k = kept(found, calculate_size);
    let recs = folder_records(k, base);
    let fs = sort_desc(recs);
    lemma_sort_desc(recs);
    assert(recs.no_duplicates()) by {
        assert forall|i: int, j: int|
            0 <= i < recs.len() && 0 <= j < recs.len() && i != j implies recs[i] != recs[j] by {
            if i < j {
                assert(k[i].0 != k[j].0);
            } else {
                assert(k[j].0 != k[i].0);
            }
        }
    }
    recs.lemma_multiset_has_no_duplicates();
    fs.lemma_multiset_has_no_duplicates_conv();
    assert forall|i: int, j: int| 0 <= i < j < fs.len() implies fs[i].0 != fs[j].0 by {
        assert(fs.contains(fs[i]) && fs.contains(fs[j]));
        assert(fs.to_multiset().count(fs[i]) > 0 && fs.to_multiset().count(fs[j]) > 0);
        assert(recs.contains(fs[i]) && recs.contains(fs[j]));
        let a = choose|a: int| 0 <= a < recs.len() && recs[a] == fs[i];
        let b = choose|b: int| 0 <= b < recs.len() && recs[b] == fs[j];
        if a != b {
            if a < b {
                assert(k[a].0 != k[b].0);
            } else {
                assert(k[b].0 != k[a].0);
            }
        }
    }
}

/// Records ordered by size, largest first.
pub open spec fn sorted_desc(s: Seq<(Seq<char>, Seq<char>, Seq<char>, u64)>) -> bool {
    forall|i: int, j: int| 0 <= i < j < s.len() ==> s[i].3 >= s[j].3
}

/// The sum of the sizes of a sequence of reported directories.
pub open spec fn folders_total(fs: Seq<(Seq<char>, Seq<char>, Seq<char>, u64)>) -> nat
    decreases fs.len(),
{
    if fs.len() == 0 {
        0
    } else {
        fs[0].3 as nat + folders_total(fs.drop_first())
    }
}

/// Where `insert_desc` places `x` in `s`.
pub open spec fn insert_pos(
    s: Seq<(Seq<char>, Seq<char>, Seq<char>, u64)>,
    x: (Seq<char>, Seq<char>, Seq<char>, u64),
) -> int
    decreases s.len(),
{
    if s.len() == 0 {
        0
    } else if s[0].3 >= x.3 {
        1 + insert_pos(s.drop_first(), x)
    } else {
        0
    }
}

proof fn lemma_insert_pos(
    s: Seq<(Seq<char>, Seq<char>, Seq<char>, u64)>,
    x: (Seq<char>, Seq<char>, Seq<char>, u64),
)
    ensures
        0 <= insert_pos(s, x) <= s.len(),
        forall|j: int| 0 <= j < insert_pos(s, x) ==> s[j].3 >= x.3,
        insert_pos(s, x) < s.len() ==> s[insert_pos(s, x)].3 < x.3,
    decreases s.len(),
{
    if s.len() > 0 && s[0].3 >= x.3 {
        lemma_insert_pos(s.drop_first(), x);
        assert forall|j: int| 0 <= j < insert_pos(s, x) implies s[j].3 >= x.3 by {
            if j > 0 {
                assert(s[j] == s.drop_first()[j - 1]);
            }
        }
    }
}

proof fn lemma_insert_desc(
    s: Seq<(Seq<char>, Seq<char>, Seq<char>, u64)>,
    x: (Seq<char>, Seq<char>, Seq<char>, u64),
)
    ensures
        insert_desc(s, x).to_multiset() == s.to_multiset().insert(x),
        sorted_desc(s) ==> sorted_desc(insert_desc(s, x)),
        folders_total(insert_desc(s, x)) == folders_total(s) + x.3,
{
    broadcast use vstd::seq_lib::group_to_multiset_ensures;

    let p = insert_pos(s, x);
    lemma_insert_pos(s, x);
    lemma_insert_at(s, x, p);
    let r = s.insert(p, x);
    assert forall|k: int| 0 <= k < r.len() implies r[k] == (if k < p {
        s[k]
    } else if k == p {
        x
    } else {
        s[k - 1]
    }) by {}
    vstd::seq_lib::to_multiset_insert(s, p, x);
    lemma_insert_total(s, x);
}

proof fn lemma_insert_total(
    s: Seq<(Seq<char>, Seq<char>, Seq<char>, u64)>,
    x: (Seq<char>, Seq<char>, Seq<char>, u64),
)
    ensures
        folders_total(insert_desc(s, x)) == folders_total(s) + x.3,
    decreases s.len(),
{
    if s.len() == 0 {
        assert(seq![x].drop_first() =~= s);
    } else if s[0].3 >= x.3 {
        lemma_insert_total(s.drop_first(), x);
        assert((seq![s[0]] + insert_desc(s.drop_first(), x)).drop_first() =~= insert_desc(
            s.drop_first(),
            x,
        ));
    } else {
        assert((seq![x] + s).drop_first() =~= s);
    }
}

proof fn lemma_folders_total_push(
    s: Seq<(Seq<char>, Seq<char>, Seq<char>, u64)>,
    x: (Seq<char>, Seq<char>, Seq<char>, u64),
)
    ensures
        folders_total(s.push(x)) == folders_total(s) + x.3,
    decreases s.len(),
{
    if s.len() == 0 {
        assert(s.push(x).drop_first() =~= s);
    } else {
        assert(s.push(x).drop_first() =~= s.drop_first().push(x));
        lemma_folders_total_push(s.drop_first(), x);
    }
}

proof fn lemma_sort_desc(s: Seq<(Seq<char>, Seq<char>, Seq<char>, u64)>)
    ensures
        sort_desc(s).to_multiset() == s.to_multiset(),
        sorted_desc(sort_desc(s)),
        folders_total(sort_desc(s)) == folders_total(s),
    decreases s.len(),
{
    broadcast use vstd::seq_lib::group_to_multiset_ensures;

    if s.len() > 0 {
        lemma_sort_desc(s.drop_last());
        lemma_insert_desc(sort_desc(s.drop_last()), s.last());
        lemma_folders_total_push(s.drop_last(), s.last());
        assert(s.drop_last().push(s.last()) =~= s);
    }
}

proof fn lemma_records_total(k: Seq<(Seq<char>, u64)>, base: Seq<char>)
    ensures
        folders_total(folder_records(k, base)) == kept_total(k),
    decreases k.len(),
{
    if k.len() > 0 {
        lemma_records_total(k.drop_last(), base);
        assert(folder_records(k, base) =~= folder_records(k.drop_last(), base).push(
            folder_record(k.last(), base),
        ));
        lemma_folders_total_push(folder_records(k.drop_last(), base), folder_record(k.last(), base));
    }
}

/// A scan reports its directories largest first, each record once for each
/// kept match.
pub proof fn lemma_scan_sorted(found: Seq<(Seq<char>, u64)>, base: Seq<char>, calculate_size: bool)
    requires
        scan_outcome(found, base, calculate_size) is Some,
    ensures
        ({
            let fs = scan_outcome(found, base, calculate_size)->Some_0.0;
            let k = kept(found, calculate_size);
            &&& sorted_desc(fs)
            &&& fs.to_multiset() == folder_records(k, base).to_multiset()
        }),
{
    lemma_sort_desc(folder_records(kept(found, calculate_size), base));
}

/// The total a scan reports is the display text of the sum of the sizes of
/// the directories it reports (capped at the largest `u64`), and that text
/// shows the sum to within half a hundredth of its unit.
pub proof fn lemma_scan_total(found: Seq<(Seq<char>, u64)>, base: Seq<char>, calculate_size: bool)
    requires
        scan_outcome(found, base, calculate_size) is Some,
    ensures
        ({
            let (fs, total) = scan_outcome(found, base, calculate_size)->Some_0;
            let sum = capped(folders_total(fs)) as nat;
            let unit = size_unit(sum);
            let h = hundredths(sum, unit);
            &&& total == size_text(sum)
            &&& 2 * (h * unit - sum * 100) <= unit
            &&& 2 * (sum * 100 - h * unit) <= unit
        }),
{
    let k = kept(found, calculate_size);
    lemma_sort_desc(folder_records(k, base));
    lemma_records_total(k, base);
    lemma_size_text_rounding(capped(kept_total(k)) as nat);
}

proof fn lemma_matched_paths_iff(entries: Seq<Option<(Seq<char>, bool, usize)>>, p: Seq<char>)
    ensures
        matched_paths(entries).contains(p) <==> exists|i: int|
            0 <= i < entries.len() && (#[trigger] entries[i]) is Some && entries[i]->Some_0.0 == p
                && is_match(entries[i]->Some_0),
    decreases entries.len(),
{
    if entries.len() > 0 {
        let rest = entries.drop_last();
        lemma_matched_paths_iff(rest, p);
        let n = entries.len() - 1;
        if matched_paths(entries).contains(p) {
            let m = matched_paths(entries);
            if !matched_paths(rest).contains(p) {
                assert(entries[n] is Some && entries[n]->Some_0.0 == p && is_match(
                    entries[n]->Some_0,
                )) by {
                    if !(entries[n] is Some && is_match(entries[n]->Some_0)) {
                        assert(m == matched_paths(rest));
                    } else {
                        let j = choose|j: int| 0 <= j < m.len() && m[j] == p;
                        if j < m.len() - 1 {
                            assert(matched_paths(rest)[j] == p);
                        }
                    }
                }
            } else {
                let i = choose|i: int|
                    0 <= i < rest.len() && (#[trigger] rest[i]) is Some && rest[i]->Some_0.0 == p
                        && is_match(rest[i]->Some_0);
                assert(entries[i] == rest[i]);
            }
        }
        if exists|i: int|
            0 <= i < entries.len() && (#[trigger] entries[i]) is Some && entries[i]->Some_0.0 == p
                && is_match(entries[i]->Some_0) {
            let i = choose|i: int|
                0 <= i < entries.len() && (#[trigger] entries[i]) is Some && entries[i]->Some_0.0
                    == p && is_match(entries[i]->Some_0);
            if i < n {
                assert(rest[i] == entries[i]);
                let m = matched_paths(rest);
                let j = choose|j: int| 0 <= j < m.len() && m[j] == p;
                if entries[n] is Some && is_match(entries[n]->Some_0) {
                    assert(matched_paths(entries)[j] == p);
                }
            } else {
                assert(matched_paths(entries).last() == p);
            }
        }
    }
}

proof fn lemma_kept_iff(found: Seq<(Seq<char>, u64)>, calculate_size: bool, p: Seq<char>)
    ensures
        (exists|i: int| 0 <= i < kept(found, calculate_size).len() && (#[trigger] kept(
            found,
            calculate_size,
        )[i]).0 == p) <==> exists|j: int|
            0 <= j < found.len() && (#[trigger] found[j]).0 == p && (!calculate_size || found[j].1
                > 0),
    decreases found.len(),
{
    if found.len() > 0 {
        let rest = found.drop_last();
        lemma_kept_iff(rest, calculate_size, p);
        let k = kept(found, calculate_size);
        let kr = kept(rest, calculate_size);
        let n = found.len() - 1;
        let last_kept = !calculate_size || found[n].1 > 0;
        if exists|i: int| 0 <= i < k.len() && (#[trigger] k[i]).0 == p {
            let i = choose|i: int| 0 <= i < k.len() && (#[trigger] k[i]).0 == p;
            if last_kept && i == k.len() - 1 {
                assert(found[n].0 == p);
            } else {
                assert(kr[i] == k[i]);
                let j = choose|j: int|
                    0 <= j < rest.len() && (#[trigger] rest[j]).0 == p && (!calculate_size
                        || rest[j].1 > 0);
                assert(found[j] == rest[j]);
            }
        }
        if exists|j: int|
            0 <= j < found.len() && (#[trigger] found[j]).0 == p && (!calculate_size || found[j].1
                > 0) {
            let j = choose|j: int|
                0 <= j < found.len() && (#[trigger] found[j]).0 == p && (!calculate_size
                    || found[j].1 > 0);
            if j == n {
                assert(k[k.len() - 1].0 == p);
            } else {
                assert(rest[j] == found[j]);
                let i = choose|i: int| 0 <= i < kr.len() && (#[trigger] kr[i]).0 == p;
                assert(k[i] == kr[i]);
            }
        }
    }
}

/// A directory met in the walk is reported exactly when it is a match (a
/// directory within the scan depths, named like the target, whose path holds
/// the target name exactly once) and, when sizes are computed, its size is
/// above zero. `found` is the list of matches, in walk order, with their
/// sizes.
pub proof fn lemma_reported_iff(
    entries: Seq<Option<(Seq<char>, bool, usize)>>,
    found: Seq<(Seq<char>, u64)>,
    base: Seq<char>,
    calculate_size: bool,
    p: Seq<char>,
)
    requires
        found.map_values(|f: (Seq<char>, u64)| f.0) == matched_paths(entries),
        scan_outcome(found, base, calculate_size) is Some,
    ensures
        ({
            let fs = scan_outcome(found, base, calculate_size)->Some_0.0;
            (exists|i: int| 0 <= i < fs.len() && (#[trigger] fs[i]).0 == p) <==> ((exists|m: int|
                0 <= m < entries.len() && (#[trigger] entries[m]) is Some && entries[m]->Some_0.0
                    == p && is_match(entries[m]->Some_0)) && (exists|j: int|
                0 <= j < found.len() && (#[trigger] found[j]).0 == p && (!calculate_size
                    || found[j].1 > 0)))
        }),
{
    broadcast use vstd::seq_lib::group_to_multiset_ensures;

    let k = kept(found, calculate_size);
    let recs = folder_records(k, base);
    let fs = scan_outcome(found, base, calculate_size)->Some_0.0;
    lemma_sort_desc(recs);
    lemma_kept_iff(found, calculate_size, p);
    lemma_matched_paths_iff(entries, p);
    let names = found.map_values(|f: (Seq<char>, u64)| f.0);
    if exists|i: int| 0 <= i < fs.len() && (#[trigger] fs[i]).0 == p {
        let i = choose|i: int| 0 <= i < fs.len() && (#[trigger] fs[i]).0 == p;
        assert(fs == sort_desc(recs));
        assert(fs.contains(fs[i]));
        assert(fs.to_multiset().count(fs[i]) > 0);
        assert(recs.to_multiset().count(fs[i]) > 0);
        assert(recs.contains(fs[i]));
        let i2 = choose|i2: int| 0 <= i2 < recs.len() && recs[i2] == fs[i];
        assert(k[i2].0 == p);
        let j = choose|j: int|
            0 <= j < found.len() && (#[trigger] found[j]).0 == p && (!calculate_size || found[j].1
                > 0);
        assert(names[j] == p);
        assert(matched_paths(entries).contains(p));
    }
    if exists|j: int|
        0 <= j < found.len() && (#[trigger] found[j]).0 == p && (!calculate_size || found[j].1
            > 0) {
        let i = choose|i: int| 0 <= i < k.len() && (#[trigger] k[i]).0 == p;
        assert(recs[i].0 == p);
        assert(fs == sort_desc(recs));
        assert(recs.contains(recs[i]));
        assert(recs.to_multiset().count(recs[i]) > 0);
        assert(fs.to_multiset().count(recs[i]) > 0);
        assert(fs.contains(recs[i]));
    }
}

/// Scanning the same walk twice gives the same matches, and assembling the
/// same matches twice gives the same result: nothing but the walk and the
/// matches' sizes decides what a scan reports, ties included.
pub proof fn lemma_scan_repeatable(
    first_walk: Seq<Option<WalkEntry>>,
    second_walk: Seq<Option<WalkEntry>>,
    first_found: Seq<FoundDir>,
    second_found: Seq<FoundDir>,
    base: Seq<char>,
    calculate_size: bool,
)
    requires
        walk_view(first_walk) == walk_view(second_walk),
        found_view(first_found) == found_view(second_found),
    ensures
        matched_paths(walk_view(first_walk)) == matched_paths(walk_view(second_walk)),
        scan_outcome(found_view(first_found), base, calculate_size) == scan_outcome(
            found_view(second_found),
            base,
            calculate_size,
        ),
{
}

} // verus!
