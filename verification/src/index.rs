//! The content-addressable file index: location rows keyed by path,
//! entry rows keyed by content hash, and the reconciliation that diffs a
//! fresh scan against the previously persisted snapshot.
use vstd::prelude::*;

use crate::text::opt_str_view;
use crate::text::clone_opt_string;
use crate::text::opt_string_eq;
use crate::text::bytes_eq;

verus! {

/// One observed file: where it is, what its content hashes to, and the
/// filesystem-reported timestamps (unix microseconds; each may be
/// unavailable).  `timestamp` is when the scan saw it.
#[derive(Debug)]
pub struct FileLocation {
    pub path: String,
    pub hash: Option<Vec<u8>>,
    pub size: u64,
    pub mime_type: Option<String>,
    pub timestamp: i64,
    pub created_at: Option<i64>,
    pub modified_at: Option<i64>,
    pub accessed_at: Option<i64>,
}

/// Mathematical image of a `FileLocation`.
pub ghost struct LocationView {
    pub path: Seq<char>,
    pub hash: Option<Seq<u8>>,
    pub size: u64,
    pub mime_type: Option<Seq<char>>,
    pub timestamp: i64,
    pub created_at: Option<i64>,
    pub modified_at: Option<i64>,
    pub accessed_at: Option<i64>,
}

/// View of optional hash bytes.
pub open spec fn opt_bytes_view(o: &Option<Vec<u8>>) -> Option<Seq<u8>> {
    match o {
        Some(b) => Some(b@),
        None => None,
    }
}

impl View for FileLocation {
    type V = LocationView;

    open spec fn view(&self) -> LocationView {
        LocationView {
            path: self.path@,
            hash: opt_bytes_view(&self.hash),
            size: self.size,
            mime_type: opt_str_view(&self.mime_type),
            timestamp: self.timestamp,
            created_at: self.created_at,
            modified_at: self.modified_at,
            accessed_at: self.accessed_at,
        }
    }
}

/// One row per distinct content hash, spanning every location that
/// shares it: the first and last time such content was reported seen.
#[derive(Debug)]
pub struct FileEntry {
    pub hash: Option<Vec<u8>>,
    pub size: u64,
    pub mime_type: Option<String>,
    pub first_datetime: Option<i64>,
    pub latest_datetime: Option<i64>,
}

/// Mathematical image of a `FileEntry`.
pub ghost struct EntryView {
    pub hash: Option<Seq<u8>>,
    pub size: u64,
    pub mime_type: Option<Seq<char>>,
    pub first_datetime: Option<i64>,
    pub latest_datetime: Option<i64>,
}

impl View for FileEntry {
    type V = EntryView;

    open spec fn view(&self) -> EntryView {
        EntryView {
            hash: opt_bytes_view(&self.hash),
            size: self.size,
            mime_type: opt_str_view(&self.mime_type),
            first_datetime: self.first_datetime,
            latest_datetime: self.latest_datetime,
        }
    }
}

/// Change-detection equality: hash, size, MIME and the three filesystem
/// timestamps.  The path and the scan timestamp deliberately do not
/// count.
pub open spec fn same_content(a: LocationView, b: LocationView) -> bool {
    &&& a.hash == b.hash
    &&& a.size == b.size
    &&& a.mime_type == b.mime_type
    &&& a.created_at == b.created_at
    &&& a.modified_at == b.modified_at
    &&& a.accessed_at == b.accessed_at
}

/// Equality of two optional timestamps.
fn opt_i64_eq(a: &Option<i64>, b: &Option<i64>) -> (r: bool)
    ensures
        r == (*a == *b),
{
    match (a, b) {
        (Some(x), Some(y)) => *x == *y,
        (None, None) => true,
        _ => false,
    }
}

/// Equality of two optional byte strings.
fn opt_bytes_eq(a: &Option<Vec<u8>>, b: &Option<Vec<u8>>) -> (r: bool)
    ensures
        r == (opt_bytes_view(a) == opt_bytes_view(b)),
{
    match (a, b) {
        (Some(x), Some(y)) => bytes_eq(x.as_slice(), y.as_slice()),
        (None, None) => true,
        _ => false,
    }
}

/// A byte-for-byte copy.
fn clone_bytes(v: &Vec<u8>) -> (r: Vec<u8>)
    ensures
        r@ == v@,
{
    let mut r: Vec<u8> = Vec::new();
    let n = v.len();
    let mut i: usize = 0;
    while i < n
        invariant
            n == v@.len(),
            i <= n,
            r@ == v@.take(i as int),
        decreases n - i,
    {
        r.push(v[i]);
        proof {
            assert(r@ =~= v@.take(i + 1 as int));
        }
        i += 1;
    }
    proof {
        assert(v@.take(n as int) =~= v@);
    }
    r
}

/// A copy of an optional byte string.
fn clone_opt_bytes(o: &Option<Vec<u8>>) -> (r: Option<Vec<u8>>)
    ensures
        opt_bytes_view(&r) == opt_bytes_view(o),
{
    match o {
        Some(b) => Some(clone_bytes(b)),
        None => None,
    }
}

impl PartialEq for FileLocation {
    /// Change detection: equal when hash, size, MIME and the filesystem
    /// timestamps agree; path and scan timestamp do not count.
    fn eq(&self, other: &Self) -> (r: bool) {
        opt_bytes_eq(&self.hash, &other.hash) && self.size == other.size && opt_string_eq(
            &self.mime_type,
            &other.mime_type,
        ) && opt_i64_eq(&self.created_at, &other.created_at) && opt_i64_eq(
            &self.modified_at,
            &other.modified_at,
        ) && opt_i64_eq(&self.accessed_at, &other.accessed_at)
    }
}

impl vstd::std_specs::cmp::PartialEqSpecImpl for FileLocation {
    open spec fn obeys_eq_spec() -> bool {
        true
    }

    open spec fn eq_spec(&self, other: &FileLocation) -> bool {
        same_content(self@, other@)
    }
}

impl FileLocation {
    /// A copy of this row with the same contents.
    pub fn duplicate(&self) -> (r: FileLocation)
        ensures
            r@ == self@,
    {
        FileLocation {
            path: self.path.clone(),
            hash: clone_opt_bytes(&self.hash),
            size: self.size,
            mime_type: clone_opt_string(&self.mime_type),
            timestamp: self.timestamp,
            created_at: self.created_at,
            modified_at: self.modified_at,
            accessed_at: self.accessed_at,
        }
    }
}

impl FileEntry {
    /// A copy of this row with the same contents.
    pub fn duplicate(&self) -> (r: FileEntry)
        ensures
            r@ == self@,
    {
        FileEntry {
            hash: clone_opt_bytes(&self.hash),
            size: self.size,
            mime_type: clone_opt_string(&self.mime_type),
            first_datetime: self.first_datetime,
            latest_datetime: self.latest_datetime,
        }
    }
}

/// Whether some location row carries this path.
pub open spec fn has_path(locs: Seq<LocationView>, path: Seq<char>) -> bool {
    exists|i: int| 0 <= i < locs.len() && (#[trigger] locs[i]).path == path
}

/// The first index whose row carries this path (`locs.len()` when none
/// does).
pub open spec fn first_path_index(locs: Seq<LocationView>, path: Seq<char>) -> int
    decreases locs.len(),
{
    if locs.len() == 0 {
        0
    } else if locs[0].path == path {
        0
    } else {
        1 + first_path_index(locs.drop_first(), path)
    }
}

/// The first row that carries this path.
pub open spec fn loc_at(locs: Seq<LocationView>, path: Seq<char>) -> LocationView
    recommends
        has_path(locs, path),
{
    locs[first_path_index(locs, path)]
}

pub proof fn lemma_first_path_index(locs: Seq<LocationView>, path: Seq<char>)
    ensures
        has_path(locs, path) ==> {
            let i = first_path_index(locs, path);
            &&& 0 <= i < locs.len()
            &&& locs[i].path == path
            &&& forall|j: int| 0 <= j < i ==> (#[trigger] locs[j]).path != path
        },
        !has_path(locs, path) ==> first_path_index(locs, path) == locs.len(),
    decreases locs.len(),
{
    if locs.len() == 0 {
    } else if locs[0].path == path {
    } else {
        let rest = locs.drop_first();
        lemma_first_path_index(rest, path);
        let f = first_path_index(rest, path);
        if has_path(locs, path) {
            let i = choose|i: int| 0 <= i < locs.len() && (#[trigger] locs[i]).path == path;
            assert(i >= 1);
            assert(rest[i - 1] == locs[i]);
            assert(has_path(rest, path));
            assert(locs[f + 1] == rest[f]);
            assert forall|j: int| 0 <= j < f + 1 implies (#[trigger] locs[j]).path != path by {
                if j >= 1 {
                    assert(rest[j - 1] == locs[j]);
                }
            }
        } else {
            if has_path(rest, path) {
                let k = choose|i: int| 0 <= i < rest.len() && (#[trigger] rest[i]).path == path;
                assert(locs[k + 1] == rest[k]);
                assert(has_path(locs, path));
            }
        }
    }
}

/// The views of a vector of location rows.
pub open spec fn loc_views(locs: Seq<FileLocation>) -> Seq<LocationView> {
    locs.map_values(|l: FileLocation| l@)
}

/// The views of a vector of entry rows.
pub open spec fn entry_views(entries: Seq<FileEntry>) -> Seq<EntryView> {
    entries.map_values(|e: FileEntry| e@)
}

/// The views of a vector of paths.
pub open spec fn path_views(paths: Seq<String>) -> Seq<Seq<char>> {
    paths.map_values(|p: String| p@)
}

/// Finds the first row with this path.
fn find_by_path(locs: &Vec<FileLocation>, path: &str) -> (r: Option<usize>)
    ensures
        r is Some <==> has_path(loc_views(locs@), path@),
        r is Some ==> r.unwrap() == first_path_index(loc_views(locs@), path@) && r.unwrap()
            < locs@.len(),
    decreases locs@.len(),
{
    let ghost views = loc_views(locs@);
    proof {
        lemma_first_path_index(views, path@);
    }
    let n = locs.len();
    let mut i: usize = 0;
    while i < n
        invariant
            n == locs@.len(),
            i <= n,
            views == loc_views(locs@),
            forall|j: int| 0 <= j < i ==> (#[trigger] views[j]).path != path@,
        decreases n - i,
    {
        if crate::text::str_eq(locs[i].path.as_str(), path) {
            proof {
                assert(views[i as int].path == path@);
                assert(has_path(views, path@));
                lemma_first_path_index(views, path@);
                let f = first_path_index(views, path@);
                if f < i {
                    assert(views[f].path != path@);
                }
            }
            return Some(i);
        }
        i += 1;
    }
    proof {
        if has_path(views, path@) {
            let k = choose|j: int| 0 <= j < views.len() && (#[trigger] views[j]).path == path@;
            assert(views[k].path != path@);
        }
    }
    None
}

/// Whether some entry row carries this hash.
pub open spec fn has_hash(entries: Seq<EntryView>, hash: Option<Seq<u8>>) -> bool {
    exists|i: int| 0 <= i < entries.len() && (#[trigger] entries[i]).hash == hash
}

/// The first index whose entry carries this hash (`entries.len()` when
/// none does).
pub open spec fn first_hash_index(entries: Seq<EntryView>, hash: Option<Seq<u8>>) -> int
    decreases entries.len(),
{
    if entries.len() == 0 {
        0
    } else if entries[0].hash == hash {
        0
    } else {
        1 + first_hash_index(entries.drop_first(), hash)
    }
}

pub proof fn lemma_first_hash_index(entries: Seq<EntryView>, hash: Option<Seq<u8>>)
    ensures
        has_hash(entries, hash) ==> {
            let i = first_hash_index(entries, hash);
            &&& 0 <= i < entries.len()
            &&& entries[i].hash == hash
            &&& forall|j: int| 0 <= j < i ==> (#[trigger] entries[j]).hash != hash
        },
        !has_hash(entries, hash) ==> first_hash_index(entries, hash) == entries.len(),
    decreases entries.len(),
{
    if entries.len() == 0 {
    } else if entries[0].hash == hash {
    } else {
        let rest = entries.drop_first();
        lemma_first_hash_index(rest, hash);
        let f = first_hash_index(rest, hash);
        if has_hash(entries, hash) {
            let i = choose|i: int| 0 <= i < entries.len() && (#[trigger] entries[i]).hash == hash;
            assert(i >= 1);
            assert(rest[i - 1] == entries[i]);
            assert(has_hash(rest, hash));
            assert(entries[f + 1] == rest[f]);
            assert forall|j: int| 0 <= j < f + 1 implies (#[trigger] entries[j]).hash != hash by {
                if j >= 1 {
                    assert(rest[j - 1] == entries[j]);
                }
            }
        } else {
            if has_hash(rest, hash) {
                let k = choose|i: int| 0 <= i < rest.len() && (#[trigger] rest[i]).hash == hash;
                assert(entries[k + 1] == rest[k]);
                assert(has_hash(entries, hash));
            }
        }
    }
}

/// The earlier of two optional timestamps; an absent side never wins.
pub open spec fn opt_min(a: Option<i64>, b: Option<i64>) -> Option<i64> {
    match (a, b) {
        (Some(x), Some(y)) => Some(if x <= y { x } else { y }),
        (Some(x), None) => Some(x),
        (None, y) => y,
    }
}

/// The later of two optional timestamps; an absent side never wins.
pub open spec fn opt_max(a: Option<i64>, b: Option<i64>) -> Option<i64> {
    match (a, b) {
        (Some(x), Some(y)) => Some(if x >= y { x } else { y }),
        (Some(x), None) => Some(x),
        (None, y) => y,
    }
}

/// The earliest of a location's filesystem timestamps, absent ones
/// excluded.
pub open spec fn loc_first_seen(l: LocationView) -> Option<i64> {
    opt_min(opt_min(l.created_at, l.modified_at), l.accessed_at)
}

/// The latest of a location's filesystem timestamps, absent ones
/// excluded.
pub open spec fn loc_last_seen(l: LocationView) -> Option<i64> {
    opt_max(opt_max(l.created_at, l.modified_at), l.accessed_at)
}

/// A fresh entry row for a hash seen for the first time.
pub open spec fn new_entry(l: LocationView) -> EntryView {
    EntryView {
        hash: l.hash,
        size: l.size,
        mime_type: l.mime_type,
        first_datetime: loc_first_seen(l),
        latest_datetime: loc_last_seen(l),
    }
}

/// An existing entry widened by one more location of the same content:
/// the seen window grows by min/max merge and never shrinks.
pub open spec fn merge_entry(e: EntryView, l: LocationView) -> EntryView {
    EntryView {
        first_datetime: opt_min(e.first_datetime, loc_first_seen(l)),
        latest_datetime: opt_max(e.latest_datetime, loc_last_seen(l)),
        ..e
    }
}

/// The entry table after recording one scanned location: merged into
/// the row with its hash, or appended as a new row; a location whose
/// hashing failed records nothing.
pub open spec fn upsert_entry(entries: Seq<EntryView>, l: LocationView) -> Seq<EntryView> {
    if l.hash is None {
        entries
    } else if has_hash(entries, l.hash) {
        let i = first_hash_index(entries, l.hash);
        entries.update(i, merge_entry(entries[i], l))
    } else {
        entries.push(new_entry(l))
    }
}

/// The entry table after recording every scanned location, in order.
pub open spec fn apply_upserts(entries: Seq<EntryView>, locs: Seq<LocationView>) -> Seq<EntryView>
    decreases locs.len(),
{
    if locs.len() == 0 {
        entries
    } else {
        apply_upserts(upsert_entry(entries, locs[0]), locs.drop_first())
    }
}

/// The paths of previously known rows that the new scan no longer
/// contains, in the previous snapshot's order.
pub open spec fn spec_removed(prev: Seq<LocationView>, scanned: Seq<LocationView>) -> Seq<
    Seq<char>,
>
    decreases prev.len(),
{
    if prev.len() == 0 {
        Seq::empty()
    } else {
        let rest = spec_removed(prev.drop_first(), scanned);
        if !has_path(scanned, prev[0].path) {
            seq![prev[0].path] + rest
        } else {
            rest
        }
    }
}

/// The scanned rows whose paths are new, in scan order.
pub open spec fn spec_inserted(prev: Seq<LocationView>, scanned: Seq<LocationView>) -> Seq<
    LocationView,
>
    decreases scanned.len(),
{
    if scanned.len() == 0 {
        Seq::empty()
    } else {
        let rest = spec_inserted(prev, scanned.drop_first());
        if !has_path(prev, scanned[0].path) {
            seq![scanned[0]] + rest
        } else {
            rest
        }
    }
}

/// The scanned rows whose paths were known but whose content changed,
/// in scan order.
pub open spec fn spec_updated(prev: Seq<LocationView>, scanned: Seq<LocationView>) -> Seq<
    LocationView,
>
    decreases scanned.len(),
{
    if scanned.len() == 0 {
        Seq::empty()
    } else {
        let rest = spec_updated(prev, scanned.drop_first());
        if has_path(prev, scanned[0].path) && !same_content(
            loc_at(prev, scanned[0].path),
            scanned[0],
        ) {
            seq![scanned[0]] + rest
        } else {
            rest
        }
    }
}

proof fn lemma_removed_none(prev: Seq<LocationView>, scanned: Seq<LocationView>)
    requires
        forall|i: int| 0 <= i < prev.len() ==> has_path(scanned, (#[trigger] prev[i]).path),
    ensures
        spec_removed(prev, scanned) == Seq::<Seq<char>>::empty(),
    decreases prev.len(),
{
    if prev.len() > 0 {
        let rest = prev.drop_first();
        assert forall|i: int| 0 <= i < rest.len() implies has_path(
            scanned,
            (#[trigger] rest[i]).path,
        ) by {
            assert(rest[i] == prev[i + 1]);
        }
        lemma_removed_none(rest, scanned);
        assert(spec_removed(prev, scanned) =~= Seq::<Seq<char>>::empty());
    }
}

proof fn lemma_inserted_none(prev: Seq<LocationView>, scanned: Seq<LocationView>)
    requires
        forall|i: int| 0 <= i < scanned.len() ==> has_path(prev, (#[trigger] scanned[i]).path),
    ensures
        spec_inserted(prev, scanned) == Seq::<LocationView>::empty(),
    decreases scanned.len(),
{
    if scanned.len() > 0 {
        let rest = scanned.drop_first();
        assert forall|i: int| 0 <= i < rest.len() implies has_path(
            prev,
            (#[trigger] rest[i]).path,
        ) by {
            assert(rest[i] == scanned[i + 1]);
        }
        lemma_inserted_none(prev, rest);
        assert(spec_inserted(prev, scanned) =~= Seq::<LocationView>::empty());
    }
}

proof fn lemma_updated_none(prev: Seq<LocationView>, scanned: Seq<LocationView>)
    requires
        forall|i: int|
            0 <= i < scanned.len() && has_path(prev, (#[trigger] scanned[i]).path)
                ==> same_content(loc_at(prev, scanned[i].path), scanned[i]),
    ensures
        spec_updated(prev, scanned) == Seq::<LocationView>::empty(),
    decreases scanned.len(),
{
    if scanned.len() > 0 {
        let rest = scanned.drop_first();
        assert forall|i: int|
            0 <= i < rest.len() && has_path(prev, (#[trigger] rest[i]).path) implies same_content(
            loc_at(prev, rest[i].path),
            rest[i],
        ) by {
            assert(rest[i] == scanned[i + 1]);
        }
        lemma_updated_none(prev, rest);
        assert(spec_updated(prev, scanned) =~= Seq::<LocationView>::empty());
    }
}

/// Law: scanning an unchanged directory again changes nothing: no row
/// is removed, inserted or updated.
pub proof fn lemma_unchanged_scan(prev: Seq<LocationView>, scanned: Seq<LocationView>)
    requires
        forall|i: int| 0 <= i < prev.len() ==> has_path(scanned, (#[trigger] prev[i]).path),
        forall|i: int|
            0 <= i < scanned.len() ==> has_path(prev, (#[trigger] scanned[i]).path)
                && same_content(loc_at(prev, scanned[i].path), scanned[i]),
    ensures
        spec_removed(prev, scanned) == Seq::<Seq<char>>::empty(),
        spec_inserted(prev, scanned) == Seq::<LocationView>::empty(),
        spec_updated(prev, scanned) == Seq::<LocationView>::empty(),
{
    lemma_removed_none(prev, scanned);
    lemma_inserted_none(prev, scanned);
    lemma_updated_none(prev, scanned);
}

proof fn lemma_updated_single(prev: Seq<LocationView>, scanned: Seq<LocationView>, p: Seq<char>)
    requires
        forall|i: int| 0 <= i < scanned.len() ==> has_path(prev, (#[trigger] scanned[i]).path),
        forall|i: int, j: int|
            0 <= i < j < scanned.len() ==> (#[trigger] scanned[i]).path != (
            #[trigger] scanned[j]).path,
        has_path(scanned, p),
        !same_content(loc_at(prev, p), loc_at(scanned, p)),
        forall|i: int|
            0 <= i < scanned.len() && (#[trigger] scanned[i]).path != p ==> same_content(
                loc_at(prev, scanned[i].path),
                scanned[i],
            ),
    ensures
        spec_updated(prev, scanned) == seq![loc_at(scanned, p)],
    decreases scanned.len(),
{
    lemma_first_path_index(scanned, p);
    let rest = scanned.drop_first();
    assert forall|i: int| 0 <= i < rest.len() implies has_path(
        prev,
        (#[trigger] rest[i]).path,
    ) by {
        assert(rest[i] == scanned[i + 1]);
    }
    if scanned[0].path == p {
        assert(first_path_index(scanned, p) == 0);
        assert(loc_at(scanned, p) == scanned[0]);
        assert(has_path(prev, scanned[0].path));
        assert forall|i: int|
            0 <= i < rest.len() && has_path(prev, (#[trigger] rest[i]).path) implies same_content(
            loc_at(prev, rest[i].path),
            rest[i],
        ) by {
            assert(rest[i] == scanned[i + 1]);
            assert(scanned[i + 1].path != scanned[0].path);
        }
        lemma_updated_none(prev, rest);
        assert(spec_updated(prev, scanned) =~= seq![loc_at(scanned, p)]);
    } else {
        assert(scanned.len() > 0);
        assert(same_content(loc_at(prev, scanned[0].path), scanned[0]));
        assert forall|i: int, j: int|
            0 <= i < j < rest.len() implies (#[trigger] rest[i]).path != (
        #[trigger] rest[j]).path by {
            assert(rest[i] == scanned[i + 1]);
            assert(rest[j] == scanned[j + 1]);
        }
        let k = choose|k: int| 0 <= k < scanned.len() && (#[trigger] scanned[k]).path == p;
        assert(k >= 1);
        assert(rest[k - 1] == scanned[k]);
        assert(has_path(rest, p));
        lemma_first_path_index(rest, p);
        assert(first_path_index(scanned, p) == 1 + first_path_index(rest, p));
        assert(loc_at(scanned, p) == rest[first_path_index(rest, p)]);
        assert(loc_at(scanned, p) == loc_at(rest, p));
        assert forall|i: int|
            0 <= i < rest.len() && (#[trigger] rest[i]).path != p implies same_content(
            loc_at(prev, rest[i].path),
            rest[i],
        ) by {
            assert(rest[i] == scanned[i + 1]);
        }
        lemma_updated_single(prev, rest, p);
        assert(spec_updated(prev, scanned) =~= seq![loc_at(scanned, p)]);
    }
}

/// Law: touching exactly one file's content between two scans of the
/// same path set updates exactly that path: one updated row, nothing
/// inserted, nothing removed.
pub proof fn lemma_touched_file(prev: Seq<LocationView>, scanned: Seq<LocationView>, p: Seq<char>)
    requires
        forall|i: int| 0 <= i < prev.len() ==> has_path(scanned, (#[trigger] prev[i]).path),
        forall|i: int| 0 <= i < scanned.len() ==> has_path(prev, (#[trigger] scanned[i]).path),
        forall|i: int, j: int|
            0 <= i < j < scanned.len() ==> (#[trigger] scanned[i]).path != (
            #[trigger] scanned[j]).path,
        has_path(scanned, p),
        !same_content(loc_at(prev, p), loc_at(scanned, p)),
        forall|i: int|
            0 <= i < scanned.len() && (#[trigger] scanned[i]).path != p ==> same_content(
                loc_at(prev, scanned[i].path),
                scanned[i],
            ),
    ensures
        spec_removed(prev, scanned) == Seq::<Seq<char>>::empty(),
        spec_inserted(prev, scanned) == Seq::<LocationView>::empty(),
        spec_updated(prev, scanned) == seq![loc_at(scanned, p)],
{
    lemma_removed_none(prev, scanned);
    lemma_inserted_none(prev, scanned);
    lemma_updated_single(prev, scanned, p);
}

proof fn lemma_removed_single(prev: Seq<LocationView>, scanned: Seq<LocationView>, p: Seq<char>)
    requires
        has_path(prev, p),
        !has_path(scanned, p),
        forall|i: int, j: int|
            0 <= i < j < prev.len() ==> (#[trigger] prev[i]).path != (#[trigger] prev[j]).path,
        forall|i: int|
            0 <= i < prev.len() && (#[trigger] prev[i]).path != p ==> has_path(
                scanned,
                prev[i].path,
            ),
    ensures
        spec_removed(prev, scanned) == seq![p],
    decreases prev.len(),
{
    let rest = prev.drop_first();
    assert forall|i: int, j: int|
        0 <= i < j < rest.len() implies (#[trigger] rest[i]).path != (#[trigger] rest[j]).path by {
        assert(rest[i] == prev[i + 1]);
        assert(rest[j] == prev[j + 1]);
    }
    if prev[0].path == p {
        assert(!has_path(scanned, prev[0].path));
        assert forall|i: int| 0 <= i < rest.len() implies has_path(
            scanned,
            (#[trigger] rest[i]).path,
        ) by {
            assert(rest[i] == prev[i + 1]);
            assert(prev[i + 1].path != prev[0].path);
        }
        lemma_removed_none(rest, scanned);
        assert(spec_removed(prev, scanned) =~= seq![p]);
    } else {
        assert(has_path(scanned, prev[0].path));
        let k = choose|k: int| 0 <= k < prev.len() && (#[trigger] prev[k]).path == p;
        assert(k >= 1);
        assert(rest[k - 1] == prev[k]);
        assert(has_path(rest, p));
        assert forall|i: int|
            0 <= i < rest.len() && (#[trigger] rest[i]).path != p implies has_path(
            scanned,
            rest[i].path,
        ) by {
            assert(rest[i] == prev[i + 1]);
        }
        lemma_removed_single(rest, scanned, p);
        assert(spec_removed(prev, scanned) =~= seq![p]);
    }
}

/// Law: deleting exactly one previously indexed file between two scans
/// removes exactly that path: one removed row, nothing inserted,
/// nothing updated.
pub proof fn lemma_deleted_file(prev: Seq<LocationView>, scanned: Seq<LocationView>, p: Seq<char>)
    requires
        has_path(prev, p),
        !has_path(scanned, p),
        forall|i: int, j: int|
            0 <= i < j < prev.len() ==> (#[trigger] prev[i]).path != (#[trigger] prev[j]).path,
        forall|i: int|
            0 <= i < prev.len() && (#[trigger] prev[i]).path != p ==> has_path(
                scanned,
                prev[i].path,
            ),
        forall|i: int|
            0 <= i < scanned.len() ==> has_path(prev, (#[trigger] scanned[i]).path)
                && same_content(loc_at(prev, scanned[i].path), scanned[i]),
    ensures
        spec_removed(prev, scanned) == seq![p],
        spec_inserted(prev, scanned) == Seq::<LocationView>::empty(),
        spec_updated(prev, scanned) == Seq::<LocationView>::empty(),
{
    lemma_removed_single(prev, scanned, p);
    lemma_inserted_none(prev, scanned);
    lemma_updated_none(prev, scanned);
}

/// How one scanned location's hash affects the entry row count: a novel
/// hash adds one row, a known or absent hash adds none.
pub proof fn lemma_upsert_count(entries: Seq<EntryView>, l: LocationView)
    ensures
        l.hash is Some && !has_hash(entries, l.hash) ==> upsert_entry(entries, l).len()
            == entries.len() + 1,
        !(l.hash is Some && !has_hash(entries, l.hash)) ==> upsert_entry(entries, l).len()
            == entries.len(),
{
    lemma_first_hash_index(entries, l.hash);
}

/// Law: a scan whose hashes are all already known leaves the number of
/// entry rows unchanged (the rows' seen windows may widen, none is
/// added or dropped).
pub proof fn lemma_no_novel_hash_count(entries: Seq<EntryView>, locs: Seq<LocationView>)
    requires
        forall|i: int|
            0 <= i < locs.len() && (#[trigger] locs[i]).hash is Some ==> has_hash(
                entries,
                locs[i].hash,
            ),
    ensures
        apply_upserts(entries, locs).len() == entries.len(),
    decreases locs.len(),
{
    if locs.len() > 0 {
        let e1 = upsert_entry(entries, locs[0]);
        lemma_first_hash_index(entries, locs[0].hash);
        assert(e1.len() == entries.len());
        assert forall|m: int| 0 <= m < entries.len() implies (#[trigger] e1[m]).hash
            == entries[m].hash by {}
        let rest = locs.drop_first();
        assert forall|i: int|
            0 <= i < rest.len() && (#[trigger] rest[i]).hash is Some implies has_hash(
            e1,
            rest[i].hash,
        ) by {
            assert(rest[i] == locs[i + 1]);
            let w = choose|w: int|
                0 <= w < entries.len() && (#[trigger] entries[w]).hash == locs[i + 1].hash;
            assert(e1[w].hash == locs[i + 1].hash);
        }
        lemma_no_novel_hash_count(e1, rest);
    }
}

/// Recording one location never loses a hash the table already has;
/// and a known or absent hash leaves the set of recorded hashes as it
/// was.
proof fn lemma_upsert_preserves_has_hash(entries: Seq<EntryView>, l: LocationView, h: Option<
    Seq<u8>,
>)
    ensures
        has_hash(entries, h) ==> has_hash(upsert_entry(entries, l), h),
        (l.hash is None || has_hash(entries, l.hash)) ==> (has_hash(upsert_entry(entries, l), h)
            <==> has_hash(entries, h)),
{
    let after = upsert_entry(entries, l);
    lemma_first_hash_index(entries, l.hash);
    if has_hash(entries, h) {
        let k = choose|i: int| 0 <= i < entries.len() && (#[trigger] entries[i]).hash == h;
        assert(after[k].hash == h);
        assert(has_hash(after, h));
    }
    if l.hash is None || has_hash(entries, l.hash) {
        if has_hash(after, h) {
            let k = choose|i: int| 0 <= i < after.len() && (#[trigger] after[i]).hash == h;
            assert(entries[k].hash == h);
            assert(has_hash(entries, h));
        }
    }
}

/// Law: between two scans the store keeps one entry row per recorded
/// hash; under that invariant, a scan in which every path but one
/// carries an already-recorded hash leaves the entry row count
/// unchanged — unless the one remaining path's hash is novel, in which
/// case the count grows by exactly one.
pub proof fn lemma_touched_file_entry_count(
    entries: Seq<EntryView>,
    scanned: Seq<LocationView>,
    p: Seq<char>,
)
    requires
        forall|i: int, j: int|
            0 <= i < j < scanned.len() ==> (#[trigger] scanned[i]).path != (
            #[trigger] scanned[j]).path,
        has_path(scanned, p),
        forall|i: int|
            0 <= i < scanned.len() && (#[trigger] scanned[i]).path != p && scanned[i].hash is Some
                ==> has_hash(entries, scanned[i].hash),
    ensures
        ({
            let h = loc_at(scanned, p).hash;
            &&& (h is Some && !has_hash(entries, h)) ==> apply_upserts(entries, scanned).len()
                == entries.len() + 1
            &&& !(h is Some && !has_hash(entries, h)) ==> apply_upserts(entries, scanned).len()
                == entries.len()
        }),
    decreases scanned.len(),
{
    lemma_first_path_index(scanned, p);
    let h = loc_at(scanned, p).hash;
    let rest = scanned.drop_first();
    let e1 = upsert_entry(entries, scanned[0]);
    lemma_upsert_count(entries, scanned[0]);
    assert forall|i: int, j: int|
        0 <= i < j < rest.len() implies (#[trigger] rest[i]).path != (#[trigger] rest[j]).path by {
        assert(rest[i] == scanned[i + 1]);
        assert(rest[j] == scanned[j + 1]);
    }
    if scanned[0].path == p {
        assert(first_path_index(scanned, p) == 0);
        assert(loc_at(scanned, p) == scanned[0]);
        assert forall|i: int|
            0 <= i < rest.len() && (#[trigger] rest[i]).hash is Some implies has_hash(
            e1,
            rest[i].hash,
        ) by {
            assert(rest[i] == scanned[i + 1]);
            assert(scanned[i + 1].path != scanned[0].path);
            lemma_upsert_preserves_has_hash(entries, scanned[0], rest[i].hash);
        }
        lemma_no_novel_hash_count(e1, rest);
    } else {
        assert(scanned[0].hash is Some ==> has_hash(entries, scanned[0].hash));
        assert(e1.len() == entries.len());
        let k = choose|k: int| 0 <= k < scanned.len() && (#[trigger] scanned[k]).path == p;
        assert(k >= 1);
        assert(rest[k - 1] == scanned[k]);
        assert(has_path(rest, p));
        lemma_first_path_index(rest, p);
        assert(first_path_index(scanned, p) == 1 + first_path_index(rest, p));
        assert(loc_at(scanned, p) == rest[first_path_index(rest, p)]);
        assert(loc_at(scanned, p) == loc_at(rest, p));
        assert forall|i: int|
            0 <= i < rest.len() && (#[trigger] rest[i]).path != p && rest[i].hash
                is Some implies has_hash(e1, rest[i].hash) by {
            assert(rest[i] == scanned[i + 1]);
            lemma_upsert_preserves_has_hash(entries, scanned[0], rest[i].hash);
        }
        lemma_touched_file_entry_count(e1, rest, p);
        lemma_upsert_preserves_has_hash(entries, scanned[0], h);
        assert(has_hash(e1, h) <==> has_hash(entries, h));
    }
}

/// An entry whose seen window only widened: first never later, latest
/// never earlier, identity untouched.
pub open spec fn window_extends(after: EntryView, before: EntryView) -> bool {
    &&& after.hash == before.hash
    &&& (before.first_datetime matches Some(f) ==> after.first_datetime matches Some(g) && g <= f)
    &&& (before.latest_datetime matches Some(l) ==> after.latest_datetime matches Some(m) && m
        >= l)
}

/// Law: recording scanned locations never regresses any retained entry
/// row: its hash stays, its first-seen time never moves later, its
/// latest-seen time never moves earlier.
pub proof fn lemma_upserts_window_monotone(
    entries: Seq<EntryView>,
    locs: Seq<LocationView>,
    i: int,
)
    requires
        0 <= i < entries.len(),
    ensures
        apply_upserts(entries, locs).len() >= entries.len(),
        window_extends(apply_upserts(entries, locs)[i], entries[i]),
    decreases locs.len(),
{
    if locs.len() == 0 {
    } else {
        let e1 = upsert_entry(entries, locs[0]);
        lemma_first_hash_index(entries, locs[0].hash);
        assert(window_extends(e1[i], entries[i]));
        lemma_upserts_window_monotone(e1, locs.drop_first(), i);
    }
}

/// What one scan changes: rows to delete, insert and update in the
/// location table, and the resulting entry table.  The caller applies
/// all of it in one transaction.
pub struct ReconcileOutcome {
    pub removed: Vec<String>,
    pub inserted: Vec<FileLocation>,
    pub updated: Vec<FileLocation>,
    pub entries: Vec<FileEntry>,
}

/// The counts one reconciliation reports.
#[derive(Debug)]
pub struct ScanResult {
    pub updated_count: u64,
    pub inserted_count: u64,
    pub removed_count: u64,
    pub duration_micros: u64,
}

impl ReconcileOutcome {
    /// The reported counts: one per removed, inserted and updated row.
    pub fn counts(&self, duration_micros: u64) -> (r: ScanResult)
        ensures
            r.removed_count == self.removed@.len(),
            r.inserted_count == self.inserted@.len(),
            r.updated_count == self.updated@.len(),
            r.duration_micros == duration_micros,
    {
        ScanResult {
            updated_count: self.updated.len() as u64,
            inserted_count: self.inserted.len() as u64,
            removed_count: self.removed.len() as u64,
            duration_micros,
        }
    }
}

/// Records one scanned location in the entry table.
fn upsert_one(entries: &mut Vec<FileEntry>, loc: &FileLocation)
    ensures
        entry_views(final(entries)@) == upsert_entry(entry_views(old(entries)@), loc@),
{
    let ghost views = entry_views(entries@);
    let hash = match &loc.hash {
        Some(h) => h,
        None => {
            return ;
        },
    };
    let n = entries.len();
    let mut i: usize = 0;
    while i < n
        invariant
            n == entries@.len(),
            i <= n,
            views == entry_views(entries@),
            views == entry_views(old(entries)@),
            loc@.hash == Some(hash@),
            forall|j: int| 0 <= j < i ==> (#[trigger] views[j]).hash != loc@.hash,
        decreases n - i,
    {
        let hit = match &entries[i].hash {
            Some(eh) => bytes_eq(eh.as_slice(), hash.as_slice()),
            None => false,
        };
        if hit {
            proof {
                assert(views[i as int].hash == loc@.hash);
                assert(has_hash(views, loc@.hash));
                lemma_first_hash_index(views, loc@.hash);
                let f = first_hash_index(views, loc@.hash);
                if f < i {
                    assert(views[f].hash != loc@.hash);
                }
                assert(f == i);
            }
            let mut e = entries[i].duplicate();
            e.first_datetime = opt_min_exec(e.first_datetime, loc_first_seen_exec(loc));
            e.latest_datetime = opt_max_exec(e.latest_datetime, loc_last_seen_exec(loc));
            proof {
                assert(e@ == merge_entry(views[i as int], loc@));
            }
            entries[i] = e;
            proof {
                assert(entry_views(entries@) =~= views.update(
                    i as int,
                    merge_entry(views[i as int], loc@),
                ));
                assert(upsert_entry(views, loc@) == views.update(
                    i as int,
                    merge_entry(views[i as int], loc@),
                ));
            }
            return ;
        }
        i += 1;
    }
    proof {
        if has_hash(views, loc@.hash) {
            let k = choose|j: int| 0 <= j < views.len() && (#[trigger] views[j]).hash == loc@.hash;
            assert(views[k].hash != loc@.hash);
        }
        assert(!has_hash(views, loc@.hash));
    }
    let e = FileEntry {
        hash: clone_opt_bytes(&loc.hash),
        size: loc.size,
        mime_type: clone_opt_string(&loc.mime_type),
        first_datetime: loc_first_seen_exec(loc),
        latest_datetime: loc_last_seen_exec(loc),
    };
    proof {
        assert(e@ == new_entry(loc@));
    }
    entries.push(e);
    proof {
        assert(entry_views(entries@) =~= views.push(new_entry(loc@)));
    }
}

/// The earlier of two optional timestamps.
fn opt_min_exec(a: Option<i64>, b: Option<i64>) -> (r: Option<i64>)
    ensures
        r == opt_min(a, b),
{
    match (a, b) {
        (Some(x), Some(y)) => Some(
            if x <= y {
                x
            } else {
                y
            },
        ),
        (Some(x), None) => Some(x),
        (None, y) => y,
    }
}

/// The later of two optional timestamps.
fn opt_max_exec(a: Option<i64>, b: Option<i64>) -> (r: Option<i64>)
    ensures
        r == opt_max(a, b),
{
    match (a, b) {
        (Some(x), Some(y)) => Some(
            if x >= y {
                x
            } else {
                y
            },
        ),
        (Some(x), None) => Some(x),
        (None, y) => y,
    }
}

/// The earliest filesystem timestamp of a location.
fn loc_first_seen_exec(loc: &FileLocation) -> (r: Option<i64>)
    ensures
        r == loc_first_seen(loc@),
{
    opt_min_exec(opt_min_exec(loc.created_at, loc.modified_at), loc.accessed_at)
}

/// The latest filesystem timestamp of a location.
fn loc_last_seen_exec(loc: &FileLocation) -> (r: Option<i64>)
    ensures
        r == loc_last_seen(loc@),
{
    opt_max_exec(opt_max_exec(loc.created_at, loc.modified_at), loc.accessed_at)
}

/// Diffs a fresh scan against the previous snapshot: paths gone from
/// the scan are removed, new paths inserted, changed content updated
/// (by change-detection equality), and the entry table is widened by
/// every scanned location.  Nothing is written here; the caller applies
/// the outcome in one transaction.
pub fn reconcile(
    prev: &Vec<FileLocation>,
    prev_entries: &Vec<FileEntry>,
    scanned: &Vec<FileLocation>,
) -> (out: ReconcileOutcome)
    ensures
        path_views(out.removed@) == spec_removed(loc_views(prev@), loc_views(scanned@)),
        loc_views(out.inserted@) == spec_inserted(loc_views(prev@), loc_views(scanned@)),
        loc_views(out.updated@) == spec_updated(loc_views(prev@), loc_views(scanned@)),
        entry_views(out.entries@) == apply_upserts(
            entry_views(prev_entries@),
            loc_views(scanned@),
        ),
{
    let ghost prev_v = loc_views(prev@);
    let ghost scanned_v = loc_views(scanned@);
    let mut removed: Vec<String> = Vec::new();
    proof {
        assert(prev_v.skip(0) =~= prev_v);
        assert(path_views(removed@) =~= Seq::<Seq<char>>::empty());
        assert(path_views(removed@) + spec_removed(prev_v, scanned_v) =~= spec_removed(
            prev_v,
            scanned_v,
        ));
    }
    let pn = prev.len();
    let mut i: usize = 0;
    while i < pn
        invariant
            pn == prev@.len(),
            i <= pn,
            prev_v == loc_views(prev@),
            scanned_v == loc_views(scanned@),
            path_views(removed@) + spec_removed(prev_v.skip(i as int), scanned_v)
                =~= spec_removed(prev_v, scanned_v),
        decreases pn - i,
    {
        let ghost pre = path_views(removed@);
        proof {
            assert(prev_v.skip(i as int).drop_first() =~= prev_v.skip(i + 1 as int));
            assert(prev_v.skip(i as int)[0] == prev_v[i as int]);
        }
        if find_by_path(scanned, prev[i].path.as_str()).is_none() {
            removed.push(prev[i].path.clone());
            proof {
                assert(path_views(removed@) =~= pre + seq![prev_v[i as int].path]);
                assert(path_views(removed@) + spec_removed(prev_v.skip(i + 1 as int), scanned_v)
                    =~= spec_removed(prev_v, scanned_v));
            }
        }
        i += 1;
    }
    proof {
        assert(prev_v.skip(pn as int) =~= Seq::<LocationView>::empty());
        assert(path_views(removed@) + spec_removed(prev_v.skip(pn as int), scanned_v)
            =~= path_views(removed@));
    }
    let mut inserted: Vec<FileLocation> = Vec::new();
    let mut updated: Vec<FileLocation> = Vec::new();
    let mut entries: Vec<FileEntry> = Vec::new();
    let en = prev_entries.len();
    let mut k: usize = 0;
    while k < en
        invariant
            en == prev_entries@.len(),
            k <= en,
            entries@.len() == k,
            forall|m: int| 0 <= m < k ==> (#[trigger] entries@[m])@ == prev_entries@[m]@,
        decreases en - k,
    {
        entries.push(prev_entries[k].duplicate());
        k += 1;
    }
    proof {
        assert(entry_views(entries@) =~= entry_views(prev_entries@));
    }
    let sn = scanned.len();
    let mut j: usize = 0;
    proof {
        assert(scanned_v.skip(0) =~= scanned_v);
        assert(loc_views(inserted@) =~= Seq::<LocationView>::empty());
        assert(loc_views(updated@) =~= Seq::<LocationView>::empty());
        assert(loc_views(inserted@) + spec_inserted(prev_v, scanned_v) =~= spec_inserted(
            prev_v,
            scanned_v,
        ));
        assert(loc_views(updated@) + spec_updated(prev_v, scanned_v) =~= spec_updated(
            prev_v,
            scanned_v,
        ));
    }
    while j < sn
        invariant
            sn == scanned@.len(),
            j <= sn,
            prev_v == loc_views(prev@),
            scanned_v == loc_views(scanned@),
            loc_views(inserted@) + spec_inserted(prev_v, scanned_v.skip(j as int))
                =~= spec_inserted(prev_v, scanned_v),
            loc_views(updated@) + spec_updated(prev_v, scanned_v.skip(j as int)) =~= spec_updated(
                prev_v,
                scanned_v,
            ),
            apply_upserts(entry_views(entries@), scanned_v.skip(j as int)) == apply_upserts(
                entry_views(prev_entries@),
                scanned_v,
            ),
        decreases sn - j,
    {
        let ghost ins_pre = loc_views(inserted@);
        let ghost upd_pre = loc_views(updated@);
        proof {
            assert(scanned_v.skip(j as int).drop_first() =~= scanned_v.skip(j + 1 as int));
            assert(scanned_v.skip(j as int)[0] == scanned_v[j as int]);
        }
        match find_by_path(prev, scanned[j].path.as_str()) {
            None => {
                inserted.push(scanned[j].duplicate());
                proof {
                    assert(loc_views(inserted@) =~= ins_pre + seq![scanned_v[j as int]]);
                    assert(loc_views(inserted@) + spec_inserted(
                        prev_v,
                        scanned_v.skip(j + 1 as int),
                    ) =~= spec_inserted(prev_v, scanned_v));
                    assert(loc_views(updated@) + spec_updated(prev_v, scanned_v.skip(j + 1 as int))
                        =~= spec_updated(prev_v, scanned_v));
                }
            },
            Some(pi) => {
                if !(&prev[pi] == &scanned[j]) {
                    updated.push(scanned[j].duplicate());
                    proof {
                        assert(loc_views(updated@) =~= upd_pre + seq![scanned_v[j as int]]);
                        assert(loc_views(updated@) + spec_updated(
                            prev_v,
                            scanned_v.skip(j + 1 as int),
                        ) =~= spec_updated(prev_v, scanned_v));
                    }
                } else {
                    proof {
                        assert(loc_views(updated@) + spec_updated(
                            prev_v,
                            scanned_v.skip(j + 1 as int),
                        ) =~= spec_updated(prev_v, scanned_v));
                    }
                }
                proof {
                    assert(loc_views(inserted@) + spec_inserted(
                        prev_v,
                        scanned_v.skip(j + 1 as int),
                    ) =~= spec_inserted(prev_v, scanned_v));
                }
            },
        }
        let ghost entries_pre = entry_views(entries@);
        upsert_one(&mut entries, &scanned[j]);
        proof {
            assert(entry_views(entries@) == upsert_entry(entries_pre, scanned_v[j as int]));
            assert(apply_upserts(entries_pre, scanned_v.skip(j as int)) == apply_upserts(
                entry_views(entries@),
                scanned_v.skip(j + 1 as int),
            ));
        }
        j += 1;
    }
    proof {
        assert(scanned_v.skip(sn as int) =~= Seq::<LocationView>::empty());
        assert(loc_views(inserted@) + spec_inserted(prev_v, scanned_v.skip(sn as int))
            =~= loc_views(inserted@));
        assert(loc_views(updated@) + spec_updated(prev_v, scanned_v.skip(sn as int)) =~= loc_views(
            updated@,
        ));
    }
    ReconcileOutcome { removed, inserted, updated, entries }
}

} // verus!
