//! The cache of last known good binaries, and rollback from it.
//!
//! Before a binary is replaced it is snapshotted, with its digest and build number. A rollback is an
//! install and gets the same discipline: the cached bytes are hashed again and must match the
//! recorded digest, and a build from an earlier pass must not lie below the current floor, or a
//! rollback could reopen what the floor excludes. Bytes snapshotted in the same pass are exempt
//! from the floor: putting them back where they were a moment ago is no downgrade, and refusing it
//! could leave the target missing.

use vstd::prelude::*;

use crate::error::{error_text, BrokerError, ErrorView};
use crate::hashing::{digest_hex, hex, sha256_of};
use crate::path::{join, joined, parent, parent_of, with_ext, with_extension};
use crate::text::{
    cat2, cat4, chars_of, decimal, decimal_of, lemma_views_push, same_text, stands,
    stands_at, text_range, views,
};

verus! {

/// The extension of the sibling through which a cached binary is written.
pub const LKG_TEMP_EXT: &'static str = "lkg-tmp";

/// What is kept beside a cached binary.
#[derive(Debug, Clone, PartialEq, Eq)]
pub struct LkgRecord {
    /// Lowercase-hex SHA-256 of the cached bytes.
    pub digest: String,
    /// The build number, where the version could be read.
    pub build: Option<u64>,
    /// Where the binary is installed.
    pub dest: String,
}

/// The last known good build of one component.
#[derive(Debug, Clone, PartialEq, Eq)]
pub struct LkgEntry {
    /// The component's name.
    pub component: String,
    /// Lowercase-hex SHA-256, recorded when the snapshot was taken.
    pub digest: String,
    /// The build number, where the version could be read.
    pub build: Option<u64>,
    /// The cached binary.
    pub cached_path: String,
    /// Where it is put back.
    pub dest: String,
}

/// Which rollback is done; the floor applies to one of them.
#[derive(Debug, Clone, Copy, PartialEq, Eq, Structural)]
pub enum RestoreKind {
    /// The snapshot of this very pass is put back: exempt from the floor.
    InPlace,
    /// The snapshot of an earlier pass is put back: it must not lie below the floor.
    CrossPass,
}

/// [`LkgRecord`] with its texts as sequences.
pub struct RecordView {
    pub digest: Seq<char>,
    pub build: Option<u64>,
    pub dest: Seq<char>,
}

/// [`LkgEntry`] with its texts as sequences.
pub struct EntryView {
    pub component: Seq<char>,
    pub digest: Seq<char>,
    pub build: Option<u64>,
    pub cached_path: Seq<char>,
    pub dest: Seq<char>,
}

impl View for LkgRecord {
    type V = RecordView;

    open spec fn view(&self) -> RecordView {
        RecordView { digest: self.digest@, build: self.build, dest: self.dest@ }
    }
}

impl View for LkgEntry {
    type V = EntryView;

    open spec fn view(&self) -> EntryView {
        EntryView {
            component: self.component@,
            digest: self.digest@,
            build: self.build,
            cached_path: self.cached_path@,
            dest: self.dest@,
        }
    }
}

/// The record of a snapshot of `bytes` at `dest`.
pub open spec fn record_for(bytes: Seq<u8>, build: Option<u64>, dest: Seq<char>) -> RecordView {
    RecordView { digest: hex(sha256_of(bytes)), build, dest }
}

/// The entry that a record in the cache `dir` stands for.
pub open spec fn entry_for(dir: Seq<char>, component: Seq<char>, record: RecordView) -> EntryView {
    EntryView {
        component,
        digest: record.digest,
        build: record.build,
        cached_path: joined(dir, component),
        dest: record.dest,
    }
}

/// Whether the floor lets a build back in.
pub open spec fn floor_allows(build: Option<u64>, floor: u64, kind: RestoreKind) -> bool {
    kind is InPlace || (build is Some && build->0 >= floor)
}

/// Why the floor keeps a build out.
pub open spec fn floor_text(build: Option<u64>, floor: u64) -> Seq<char> {
    match build {
        Some(b) => "cached build "@ + decimal(b as nat) + " is below the current rollback floor "@
            + decimal(floor as nat),
        None => "cached build age is unknown; cannot prove it is at or above the floor"@,
    }
}

/// What a rollback does once the cached bytes were read or not: it writes those bytes, or it fails.
pub open spec fn restoration(
    entry: EntryView,
    floor: u64,
    kind: RestoreKind,
    cached: Result<Seq<u8>, ErrorView>,
) -> Result<Seq<u8>, ErrorView> {
    if !floor_allows(entry.build, floor, kind) {
        Err(ErrorView::RollbackFailed(entry.component, floor_text(entry.build, floor)))
    } else {
        match cached {
            Err(e) => Err(
                ErrorView::RollbackFailed(
                    entry.component,
                    "cached bytes unreadable: "@ + error_text(e),
                ),
            ),
            Ok(bytes) => if hex(sha256_of(bytes)) == entry.digest {
                Ok(bytes)
            } else {
                Err(
                    ErrorView::RollbackFailed(
                        entry.component,
                        "cached bytes failed re-verification: expected "@ + entry.digest + ", got "@
                            + hex(sha256_of(bytes)),
                    ),
                )
            },
        }
    }
}

/// Whether `r` is what reading gave, with texts as sequences.
pub open spec fn bytes_of(r: Result<Vec<u8>, BrokerError>) -> Result<Seq<u8>, ErrorView> {
    match r {
        Ok(bytes) => Ok(bytes@),
        Err(e) => Err(e@),
    }
}

/// Reading `path` gave `r`.
pub open spec fn was_read<R: FnOnce(&str) -> Result<Vec<u8>, BrokerError>>(
    read: R,
    path: Seq<char>,
    r: Result<Seq<u8>, ErrorView>,
) -> bool {
    exists|p: &str, x: Result<Vec<u8>, BrokerError>|
        p@ == path && bytes_of(x) == r && #[trigger] read.ensures((p,), x)
}

/// Writing `bytes` to `path` gave `r`.
pub open spec fn was_written<W: FnOnce(&str, &Vec<u8>) -> Result<(), BrokerError>>(
    write: W,
    path: Seq<char>,
    bytes: Seq<u8>,
    r: Result<(), BrokerError>,
) -> bool {
    exists|p: &str, b: &Vec<u8>|
        p@ == path && b@ == bytes && #[trigger] write.ensures((p, b), r)
}

/// What could be read of a record.
#[derive(Debug, Clone, PartialEq, Eq)]
pub enum RecordRead {
    /// The record.
    Record(LkgRecord),
    /// There is none, or it cannot be read.
    Missing(String),
    /// It is malformed.
    Malformed(String),
}

/// The cache of last known good binaries.
#[derive(Debug, Clone, PartialEq, Eq)]
pub struct LkgCache {
    dir: String,
}

impl View for LkgCache {
    type V = Seq<char>;

    closed spec fn view(&self) -> Seq<char> {
        self.dir@
    }
}

impl LkgCache {
    /// The cache in the directory `dir`.
    #[must_use]
    pub fn at(dir: &str) -> (cache: Self)
        ensures
            cache@ == dir@,
    {
        LkgCache { dir: dir.to_owned() }
    }

    /// The directory of the cache.
    #[must_use]
    pub fn dir(&self) -> (dir: &str)
        ensures
            dir@ == self@,
    {
        self.dir.as_str()
    }

    /// Where the binary of a component is cached.
    #[must_use]
    pub fn cached_path(&self, component: &str) -> (path: String)
        ensures
            path@ == joined(self@, component@),
    {
        join(self.dir.as_str(), component)
    }

    /// Where the record of a component is kept.
    #[must_use]
    pub fn record_path(&self, component: &str) -> (path: String)
        ensures
            path@ == joined(self@, component@ + ".json"@),
    {
        let name: String = cat2(component, ".json");
        join(self.dir.as_str(), name.as_str())
    }

    /// Snapshot the binary at `dest`, if there is one: its bytes are cached, and then its digest and
    /// build number are recorded.
    ///
    /// The bytes are read once, so the recorded digest is that of the cached bytes. `store` may be
    /// called only with the bytes that were read, and `record` only once they are cached.
    ///
    /// # Errors
    ///
    /// What `read`, `store` or `record` report.
    pub fn snapshot<
        R: FnOnce(&str) -> Result<Option<Vec<u8>>, BrokerError>,
        W: FnOnce(&str, &Vec<u8>) -> Result<(), BrokerError>,
        C: FnOnce(&str, &LkgRecord) -> Result<(), BrokerError>,
    >(&self, component: &str, dest: &str, build: Option<u64>, read: R, store: W, record: C) -> (r:
        Result<Option<LkgEntry>, BrokerError>)
        requires
            read.requires((dest,)),
            forall|p: &str, b: &Vec<u8>|
                p@ == joined(self@, component@) && found_at(read, dest, Ok(Some(b@)))
                    ==> #[trigger] store.requires((p, b)),
            forall|p: &str, c: &LkgRecord|
                p@ == joined(self@, component@ + ".json"@) && describes_cached(
                    read,
                    store,
                    dest,
                    build,
                    joined(self@, component@),
                    c@,
                ) ==> #[trigger] record.requires((p, c)),
        ensures
            match r {
                Ok(None) => found_at(read, dest, Ok(None)),
                Ok(Some(entry)) => exists|bytes: Seq<u8>| #[trigger]
                    found_at(read, dest, Ok(Some(bytes))) && was_written(
                        store,
                        joined(self@, component@),
                        bytes,
                        Ok(()),
                    ) && was_recorded(
                        record,
                        joined(self@, component@ + ".json"@),
                        record_for(bytes, build, dest@),
                        Ok(()),
                    ) && entry@ == entry_for(
                        self@,
                        component@,
                        record_for(bytes, build, dest@),
                    ),
                Err(e) => found_at(read, dest, Err(e@)) || exists|bytes: Seq<u8>| #[trigger]
                    found_at(read, dest, Ok(Some(bytes))) && (was_written(
                        store,
                        joined(self@, component@),
                        bytes,
                        Err(e),
                    ) || was_recorded(
                        record,
                        joined(self@, component@ + ".json"@),
                        record_for(bytes, build, dest@),
                        Err(e),
                    )),
            },
    {
        let bytes: Vec<u8> = match read(dest) {
            Err(e) => {
                assert(read.ensures((dest,), Err(e)));
                return Err(e);
            },
            Ok(None) => {
                assert(read.ensures((dest,), Ok(None)));
                return Ok(None);
            },
            Ok(Some(bytes)) => {
                assert(read.ensures((dest,), Ok(Some(bytes))));
                bytes
            },
        };
        assert(found_at(read, dest, Ok(Some(bytes@))));
        let digest: String = digest_hex(bytes.as_slice());
        let cached_path: String = self.cached_path(component);
        match store(cached_path.as_str(), &bytes) {
            Ok(u) => {
                assert(u == ());
                assert(was_written(store, joined(self@, component@), bytes@, Ok(())));
            },
            Err(e) => {
                assert(was_written(store, joined(self@, component@), bytes@, Err(e)));
                return Err(e);
            },
        }
        let kept = LkgRecord { digest: digest.clone(), build, dest: dest.to_owned() };
        let path: String = self.record_path(component);
        assert(kept@ == record_for(bytes@, build, dest@));
        assert(describes_cached(read, store, dest, build, joined(self@, component@), kept@));
        match record(path.as_str(), &kept) {
            Ok(u) => {
                assert(u == ());
                assert(was_recorded(
                    record,
                    joined(self@, component@ + ".json"@),
                    record_for(bytes@, build, dest@),
                    Ok(()),
                ));
            },
            Err(e) => {
                assert(was_recorded(
                    record,
                    joined(self@, component@ + ".json"@),
                    record_for(bytes@, build, dest@),
                    Err(e),
                ));
                return Err(e);
            },
        }
        Ok(
            Some(
                LkgEntry {
                    component: component.to_owned(),
                    digest,
                    build,
                    cached_path,
                    dest: dest.to_owned(),
                },
            ),
        )
    }

    /// Put a snapshot back where it came from.
    ///
    /// The cached bytes are read only past the floor, and only bytes with the recorded digest are
    /// ever written.
    ///
    /// # Errors
    ///
    /// [`BrokerError::RollbackFailed`] if the build lies below `floor` or its age is unknown (for a
    /// snapshot of an earlier pass), the cached bytes cannot be read or do not match the recorded
    /// digest, or they cannot be written.
    pub fn restore<
        R: FnOnce(&str) -> Result<Vec<u8>, BrokerError>,
        W: FnOnce(&str, &Vec<u8>) -> Result<(), BrokerError>,
    >(&self, entry: &LkgEntry, floor: u64, kind: RestoreKind, read: R, write: W) -> (r: Result<
        (),
        BrokerError,
    >)
        requires
            forall|p: &str|
                p@ == entry.cached_path@ && floor_allows(entry.build, floor, kind)
                    ==> #[trigger] read.requires((p,)),
            forall|p: &str, b: &Vec<u8>|
                p@ == entry.dest@ && floor_allows(entry.build, floor, kind) && was_read(
                    read,
                    entry.cached_path@,
                    Ok(b@),
                ) && hex(sha256_of(b@)) == entry.digest@ ==> #[trigger] write.requires((p, b)),
        ensures
            r is Ok ==> exists|bytes: Seq<u8>| #[trigger]
                was_read(read, entry.cached_path@, Ok(bytes)) && restoration(
                    entry@,
                    floor,
                    kind,
                    Ok(bytes),
                ) == Ok::<Seq<u8>, ErrorView>(bytes) && was_written(
                    write,
                    entry.dest@,
                    bytes,
                    Ok(()),
                ),
            r matches Err(e) ==> {
                ||| !floor_allows(entry.build, floor, kind) && e@ == ErrorView::RollbackFailed(
                    entry.component@,
                    floor_text(entry.build, floor),
                )
                ||| exists|cached: Result<Seq<u8>, ErrorView>| #[trigger]
                    was_read(read, entry.cached_path@, cached) && restoration(
                        entry@,
                        floor,
                        kind,
                        cached,
                    ) == Err::<Seq<u8>, ErrorView>(e@)
                ||| exists|bytes: Seq<u8>, w: BrokerError|
                    was_read(read, entry.cached_path@, Ok(bytes)) && restoration(
                        entry@,
                        floor,
                        kind,
                        Ok(bytes),
                    ) == Ok::<Seq<u8>, ErrorView>(bytes) && #[trigger] was_written(
                        write,
                        entry.dest@,
                        bytes,
                        Err(w),
                    ) && e@ == ErrorView::RollbackFailed(
                        entry.component@,
                        "reinstate write failed: "@ + error_text(w@),
                    )
            },
    {
        if kind == RestoreKind::CrossPass {
            match entry.build {
                Some(build) => {
                    if build < floor {
                        let b: String = decimal_of(build);
                        let f: String = decimal_of(floor);
                        return Err(
                            BrokerError::RollbackFailed {
                                component: entry.component.clone(),
                                detail: cat4(
                                    "cached build ",
                                    b.as_str(),
                                    " is below the current rollback floor ",
                                    f.as_str(),
                                ),
                            },
                        );
                    }
                },
                None => {
                    return Err(
                        BrokerError::RollbackFailed {
                            component: entry.component.clone(),
                            detail: "cached build age is unknown; cannot prove it is at or above the floor".to_owned(),
                        },
                    );
                },
            }
        }
        let got: Result<Vec<u8>, BrokerError> = read(entry.cached_path.as_str());
        let ghost cached = bytes_of(got);
        assert(was_read(read, entry.cached_path@, cached));
        let bytes: Vec<u8> = match got {
            Ok(bytes) => bytes,
            Err(e) => {
                let why: String = e.message();
                return Err(
                    BrokerError::RollbackFailed {
                        component: entry.component.clone(),
                        detail: cat2("cached bytes unreadable: ", why.as_str()),
                    },
                );
            },
        };
        let computed: String = digest_hex(bytes.as_slice());
        if !same_text(computed.as_str(), entry.digest.as_str()) {
            return Err(
                BrokerError::RollbackFailed {
                    component: entry.component.clone(),
                    detail: cat4(
                        "cached bytes failed re-verification: expected ",
                        entry.digest.as_str(),
                        ", got ",
                        computed.as_str(),
                    ),
                },
            );
        }
        match write(entry.dest.as_str(), &bytes) {
            Ok(u) => {
                assert(u == ());
                assert(was_written(write, entry.dest@, bytes@, Ok(())));
                Ok(())
            },
            Err(e) => {
                assert(was_written(write, entry.dest@, bytes@, Err(e)));
                let why: String = e.message();
                Err(
                    BrokerError::RollbackFailed {
                        component: entry.component.clone(),
                        detail: cat2("reinstate write failed: ", why.as_str()),
                    },
                )
            },
        }
    }

    /// Put a snapshot that was taken earlier in this pass back where it came from.
    ///
    /// No floor applies: the bytes are those that were there moments ago, and refusing them would
    /// leave the place empty. Only bytes with the recorded digest are ever written.
    ///
    /// # Errors
    ///
    /// [`BrokerError::RollbackFailed`] if the cached bytes cannot be read or do not match the
    /// recorded digest, or cannot be written.
    pub fn restore_in_place<
        R: FnOnce(&str) -> Result<Vec<u8>, BrokerError>,
        W: FnOnce(&str, &Vec<u8>) -> Result<(), BrokerError>,
    >(&self, entry: &LkgEntry, read: R, write: W) -> (r: Result<(), BrokerError>)
        requires
            forall|p: &str| p@ == entry.cached_path@ ==> #[trigger] read.requires((p,)),
            forall|p: &str, b: &Vec<u8>|
                p@ == entry.dest@ && was_read(read, entry.cached_path@, Ok(b@)) && restoration(
                    entry@,
                    0,
                    RestoreKind::InPlace,
                    Ok(b@),
                ) == Ok::<Seq<u8>, ErrorView>(b@) ==> #[trigger] write.requires((p, b)),
        ensures
            r is Ok ==> exists|bytes: Seq<u8>| #[trigger]
                was_read(read, entry.cached_path@, Ok(bytes)) && restoration(
                    entry@,
                    0,
                    RestoreKind::InPlace,
                    Ok(bytes),
                ) == Ok::<Seq<u8>, ErrorView>(bytes) && was_written(
                    write,
                    entry.dest@,
                    bytes,
                    Ok(()),
                ),
            r matches Err(e) ==> {
                ||| exists|cached: Result<Seq<u8>, ErrorView>| #[trigger]
                    was_read(read, entry.cached_path@, cached) && restoration(
                        entry@,
                        0,
                        RestoreKind::InPlace,
                        cached,
                    ) == Err::<Seq<u8>, ErrorView>(e@)
                ||| exists|bytes: Seq<u8>, w: BrokerError|
                    was_read(read, entry.cached_path@, Ok(bytes)) && restoration(
                        entry@,
                        0,
                        RestoreKind::InPlace,
                        Ok(bytes),
                    ) == Ok::<Seq<u8>, ErrorView>(bytes) && #[trigger] was_written(
                        write,
                        entry.dest@,
                        bytes,
                        Err(w),
                    ) && e@ == ErrorView::RollbackFailed(
                        entry.component@,
                        "reinstate write failed: "@ + error_text(w@),
                    )
            },
    {
        self.restore(entry, 0, RestoreKind::InPlace, read, write)
    }

    /// The entry of a component, from what could be read of its record.
    ///
    /// # Errors
    ///
    /// [`BrokerError::Io`] if the record is missing or malformed.
    pub fn load_entry(&self, component: &str, record: RecordRead) -> (r: Result<
        LkgEntry,
        BrokerError,
    >)
        ensures
            match record {
                RecordRead::Record(kept) => r matches Ok(entry) && entry@ == entry_for(
                    self@,
                    component@,
                    kept@,
                ),
                RecordRead::Missing(why) => r matches Err(e) && e@ == ErrorView::Io(
                    "no last-known-good for "@ + component@ + ": "@ + why@,
                ),
                RecordRead::Malformed(why) => r matches Err(e) && e@ == ErrorView::Io(why@),
            },
    {
        match record {
            RecordRead::Record(kept) => Ok(
                LkgEntry {
                    component: component.to_owned(),
                    digest: kept.digest,
                    build: kept.build,
                    cached_path: self.cached_path(component),
                    dest: kept.dest,
                },
            ),
            RecordRead::Missing(why) => Err(
                BrokerError::Io(cat4("no last-known-good for ", component, ": ", why.as_str())),
            ),
            RecordRead::Malformed(why) => Err(BrokerError::Io(why)),
        }
    }
}

/// Looking at `dest` found nothing, or these bytes, or failed.
pub open spec fn found_at<R: FnOnce(&str) -> Result<Option<Vec<u8>>, BrokerError>>(
    read: R,
    dest: &str,
    r: Result<Option<Seq<u8>>, ErrorView>,
) -> bool {
    exists|x: Result<Option<Vec<u8>>, BrokerError>|
        #[trigger] read.ensures((dest,), x) && r == match x {
            Ok(Some(bytes)) => Ok(Some(bytes@)),
            Ok(None) => Ok(None),
            Err(e) => Err(e@),
        }
}

/// Whether the record describes bytes that were read from `dest` and cached at `path`.
pub open spec fn describes_cached<
    R: FnOnce(&str) -> Result<Option<Vec<u8>>, BrokerError>,
    W: FnOnce(&str, &Vec<u8>) -> Result<(), BrokerError>,
>(
    read: R,
    store: W,
    dest: &str,
    build: Option<u64>,
    path: Seq<char>,
    kept: RecordView,
) -> bool {
    exists|bytes: Seq<u8>| #[trigger]
        found_at(read, dest, Ok(Some(bytes))) && was_written(store, path, bytes, Ok(())) && kept
            == record_for(bytes, build, dest@)
}

/// Writing the record `kept` to `path` gave `r`.
pub open spec fn was_recorded<C: FnOnce(&str, &LkgRecord) -> Result<(), BrokerError>>(
    record: C,
    path: Seq<char>,
    kept: RecordView,
    r: Result<(), BrokerError>,
) -> bool {
    exists|p: &str, c: &LkgRecord| p@ == path && c@ == kept && #[trigger] record.ensures((p, c), r)
}

/// The component whose record a file of the cache is.
pub open spec fn record_owner(name: Seq<char>) -> Option<Seq<char>> {
    let n: int = name.len() - ".json"@.len();
    if n >= 0 && stands_at(name, ".json"@, n) {
        Some(name.take(n))
    } else {
        None
    }
}

/// The components that the files of the cache are records of, in order.
pub open spec fn record_owners(names: Seq<Seq<char>>) -> Seq<Seq<char>>
    decreases names.len(),
{
    if names.len() == 0 {
        Seq::empty()
    } else {
        match record_owner(names.last()) {
            Some(component) => record_owners(names.drop_last()).push(component),
            None => record_owners(names.drop_last()),
        }
    }
}

/// The components with a snapshot, from the names of the files in the cache.
#[must_use]
pub fn cached_components(names: &Vec<String>) -> (components: Vec<String>)
    ensures
        views(components@) == record_owners(views(names@)),
        forall|k: int, component: Seq<char>|
            0 <= k < names@.len() && (#[trigger] names@[k])@ == #[trigger] (component + ".json"@)
                ==> exists|i: int|
                0 <= i < components@.len() && (#[trigger] components@[i])@ == component,
        forall|i: int|
            0 <= i < components@.len() ==> exists|k: int|
                0 <= k < names@.len() && (#[trigger] names@[k])@ == (#[trigger] components@[i])@
                    + ".json"@,
{
    let suffix: Vec<char> = chars_of(".json");
    let mut out: Vec<String> = Vec::new();
    let mut i: usize = 0;
    assert(views(out@) =~= record_owners(views(names@).take(0)));
    while i < names.len()
        invariant
            i <= names@.len(),
            suffix@ == ".json"@,
            views(out@) == record_owners(views(names@).take(i as int)),
        decreases names@.len() - i,
    {
        let chars: Vec<char> = chars_of(names[i].as_str());
        proof {
            let upto = views(names@).take(i + 1);
            assert(upto.drop_last() =~= views(names@).take(i as int));
            assert(upto.last() == names@[i as int]@);
        }
        if chars.len() >= suffix.len() {
            let n: usize = chars.len() - suffix.len();
            if stands(&chars, &suffix, n) {
                let component: String = text_range(&chars, 0, n);
                assert(component@ =~= names@[i as int]@.take(n as int));
                proof {
                    lemma_views_push(out@, component);
                }
                out.push(component);
            }
        }
        i = i + 1;
    }
    assert(views(names@).take(i as int) =~= views(names@));
    proof {
        let at = every_record_gives_its_component(views(names@));
        assert(views(out@).len() == out@.len());
        assert forall|k: int, component: Seq<char>|
            0 <= k < names@.len() && (#[trigger] names@[k])@ == #[trigger] (component
                + ".json"@) implies exists|j: int|
            0 <= j < out@.len() && (#[trigger] out@[j])@ == component by {
            assert(views(names@)[k] == component + ".json"@);
            let j: int = choose|j: int| 0 <= j < at.len() && #[trigger] at[j] == k;
            assert(views(names@)[at[j]] == views(out@)[j] + ".json"@);
            assert(component =~= (component + ".json"@).take(component.len() as int));
            assert(views(out@)[j] =~= (views(out@)[j] + ".json"@).take(component.len() as int));
            assert(out@[j]@ == component);
        }
        assert forall|j: int| 0 <= j < out@.len() implies exists|k: int|
            0 <= k < names@.len() && (#[trigger] names@[k])@ == (#[trigger] out@[j])@
                + ".json"@ by {
            assert(views(names@)[at[j]] == views(out@)[j] + ".json"@);
            assert(names@[at[j]]@ == out@[j]@ + ".json"@);
        }
    }
    out
}

// ------------------------------------------------------------------ writing a binary

/// Where the new bytes of a binary are written first.
pub open spec fn lkg_temp_of(path: Seq<char>) -> Seq<char> {
    with_ext(path, LKG_TEMP_EXT@)
}

/// A step on a path came to `r`.
pub open spec fn path_step<F: FnOnce(&str) -> Result<(), BrokerError>>(
    step: F,
    path: Seq<char>,
    r: Result<(), BrokerError>,
) -> bool {
    exists|p: &str| p@ == path && #[trigger] step.ensures((p,), r)
}

/// Writing these bytes beside `path` came to `r`.
pub open spec fn written_beside<W: FnOnce(&str, &[u8]) -> Result<(), BrokerError>>(
    write_synced: W,
    path: Seq<char>,
    bytes: &[u8],
    r: Result<(), BrokerError>,
) -> bool {
    exists|t: &str| t@ == lkg_temp_of(path) && #[trigger] write_synced.ensures((t, bytes), r)
}

/// Moving the new bytes over `path` came to `r`.
pub open spec fn moved_over<N: FnOnce(&str, &str) -> Result<(), BrokerError>>(
    rename: N,
    path: &str,
    r: Result<(), BrokerError>,
) -> bool {
    exists|t: &str| t@ == lkg_temp_of(path@) && #[trigger] rename.ensures((t, path), r)
}

/// Whether the directory of `path`, if it has one, was created.
pub open spec fn dir_ready<D: FnOnce(&str) -> Result<(), BrokerError>>(
    create_dir: D,
    path: Seq<char>,
) -> bool {
    parent_of(path) is Some ==> path_step(create_dir, parent_of(path)->0, Ok(()))
}

/// Write a binary, cached or put back, so that it is never half written: its directory is created,
/// the bytes are written to a sibling and flushed, and the sibling is renamed over it. Each step is
/// taken only once those before it have succeeded.
///
/// # Errors
///
/// What the first failed step reports.
pub fn write_binary<
    D: FnOnce(&str) -> Result<(), BrokerError>,
    W: FnOnce(&str, &[u8]) -> Result<(), BrokerError>,
    N: FnOnce(&str, &str) -> Result<(), BrokerError>,
>(path: &str, bytes: &[u8], create_dir: D, write_synced: W, rename: N) -> (r: Result<
    (),
    BrokerError,
>)
    requires
        forall|d: &str| parent_of(path@) == Some(d@) ==> #[trigger] create_dir.requires((d,)),
        forall|t: &str|
            t@ == lkg_temp_of(path@) && dir_ready(create_dir, path@)
                ==> #[trigger] write_synced.requires((t, bytes)),
        forall|t: &str|
            t@ == lkg_temp_of(path@) && dir_ready(create_dir, path@) && written_beside(write_synced, path@, bytes, Ok(())) ==> #[trigger] rename.requires((t, path)),
    ensures
        r is Ok ==> dir_ready(create_dir, path@) && written_beside(write_synced, path@, bytes, Ok(())) && moved_over(rename, path, Ok(())),
        r is Err ==> {
            ||| parent_of(path@) is Some && path_step(create_dir, parent_of(path@)->0, r)
            ||| written_beside(write_synced, path@, bytes, r)
            ||| moved_over(rename, path, r)
        },
{
    if let Some(dir) = parent(path) {
        match create_dir(dir.as_str()) {
            Ok(u) => {
                assert(u == ());
                assert(path_step(create_dir, dir@, Ok(())));
            },
            Err(e) => {
                assert(path_step(create_dir, dir@, Err(e)));
                return Err(e);
            },
        }
    }
    assert(dir_ready(create_dir, path@));
    let temp: String = with_extension(path, LKG_TEMP_EXT);
    match write_synced(temp.as_str(), bytes) {
        Ok(u) => {
            assert(u == ());
            assert(written_beside(write_synced, path@, bytes, Ok(())));
        },
        Err(e) => {
            assert(written_beside(write_synced, path@, bytes, Err(e)));
            return Err(e);
        },
    }
    match rename(temp.as_str(), path) {
        Ok(u) => {
            assert(u == ());
            assert(moved_over(rename, path, Ok(())));
            Ok(())
        },
        Err(e) => {
            assert(moved_over(rename, path, Err(e)));
            Err(e)
        },
    }
}

// ------------------------------------------------------------------ laws

/// A rollback to a build of an earlier pass never goes below the floor, and never to a build whose
/// age is unknown.
pub proof fn an_earlier_build_never_comes_back_below_the_floor(
    entry: EntryView,
    floor: u64,
    cached: Result<Seq<u8>, ErrorView>,
)
    requires
        restoration(entry, floor, RestoreKind::CrossPass, cached) is Ok,
    ensures
        entry.build is Some,
        entry.build->0 >= floor,
{
}

/// No rollback puts back bytes other than the cached ones, nor any whose digest is not the recorded
/// one.
pub proof fn altered_bytes_are_never_put_back(
    entry: EntryView,
    floor: u64,
    kind: RestoreKind,
    cached: Result<Seq<u8>, ErrorView>,
)
    requires
        restoration(entry, floor, kind, cached) is Ok,
    ensures
        cached is Ok,
        restoration(entry, floor, kind, cached)->Ok_0 == cached->Ok_0,
        hex(sha256_of(cached->Ok_0)) == entry.digest,
{
}

/// What was snapshotted is what a rollback puts back, at the place it came from: in the same pass
/// always, whatever the floor and even if the build's age is unknown; in a later pass where the
/// build is not below the floor.
pub proof fn a_snapshot_is_put_back(
    dir: Seq<char>,
    component: Seq<char>,
    dest: Seq<char>,
    build: Option<u64>,
    bytes: Seq<u8>,
    floor: u64,
)
    ensures
        ({
            let entry = entry_for(dir, component, record_for(bytes, build, dest));
            &&& entry.dest == dest
            &&& restoration(entry, floor, RestoreKind::InPlace, Ok(bytes)) == Ok::<
                Seq<u8>,
                ErrorView,
            >(bytes)
            &&& build is Some && build->0 >= floor ==> restoration(
                entry,
                floor,
                RestoreKind::CrossPass,
                Ok(bytes),
            ) == Ok::<Seq<u8>, ErrorView>(bytes)
        }),
{
}

/// The record that a snapshot writes is found again under the component's name.
pub proof fn a_record_is_found_again(component: Seq<char>)
    ensures
        record_owner(component + ".json"@) == Some(component),
{
    let name = component + ".json"@;
    let n: int = component.len() as int;
    assert(name.subrange(n, n + ".json"@.len()) =~= ".json"@);
    assert(name.take(n) =~= component);
}

/// The components of a cache are those whose record, the component's name and `.json`, is among the
/// files: each such file gives its component, in order, and no other file gives any. What is returned is
/// where in the list of files the record of each component stands.
#[verifier::rlimit(40)]
pub proof fn every_record_gives_its_component(names: Seq<Seq<char>>) -> (at: Seq<int>)
    ensures
        at.len() == record_owners(names).len(),
        forall|i: int|
            0 <= i < at.len() ==> 0 <= #[trigger] at[i] < names.len() && names[at[i]]
                == record_owners(names)[i] + ".json"@,
        forall|i: int, j: int| 0 <= i < j < at.len() ==> #[trigger] at[i] < #[trigger] at[j],
        forall|k: int, component: Seq<char>|
            0 <= k < names.len() && #[trigger] names[k] == #[trigger] (component + ".json"@)
                ==> exists|i: int| 0 <= i < at.len() && #[trigger] at[i] == k,
    decreases names.len(),
{
    if names.len() == 0 {
        Seq::empty()
    } else {
        let fewer = names.drop_last();
        let n: int = names.len() - 1;
        let before = every_record_gives_its_component(fewer);
        let last = names.last();
        assert(forall|k: int| 0 <= k < n ==> names[k] == fewer[k]);
        let at = if record_owner(last) is Some {
            before.push(n)
        } else {
            before
        };
        if record_owner(last) is Some {
            let component = record_owner(last)->0;
            assert(component + ".json"@ =~= last);
        }
        assert forall|i: int| 0 <= i < at.len() implies 0 <= #[trigger] at[i] < names.len()
            && names[at[i]] == record_owners(names)[i] + ".json"@ by {
            if i < before.len() {
                assert(at[i] == before[i]);
                assert(record_owners(names)[i] == record_owners(fewer)[i]);
            }
        }
        assert forall|i: int, j: int| 0 <= i < j < at.len() implies #[trigger] at[i]
            < #[trigger] at[j] by {
            assert(at[i] == before[i]);
            if j < before.len() {
                assert(at[j] == before[j]);
            }
        }
        assert forall|k: int, component: Seq<char>|
            0 <= k < names.len() && #[trigger] names[k] == #[trigger] (component
                + ".json"@) implies exists|i: int| 0 <= i < at.len() && #[trigger] at[i] == k by {
            if k < n {
                assert(fewer[k] == component + ".json"@);
                let i: int = choose|i: int| 0 <= i < before.len() && #[trigger] before[i] == k;
                assert(at[i] == k);
            } else {
                a_record_is_found_again(component);
                assert(at[before.len() as int] == k);
            }
        }
        at
    }
}

/// What is cached in two lists of files one after the other is what is cached in each, in order.
pub proof fn records_are_taken_in_order(a: Seq<Seq<char>>, b: Seq<Seq<char>>, component: Seq<char>)
    ensures
        record_owners(a + b) == record_owners(a) + record_owners(b),
        record_owners(seq![component + ".json"@]) == seq![component],
        record_owners(Seq::empty()) == Seq::<Seq<char>>::empty(),
    decreases b.len(),
{
    let one = seq![component + ".json"@];
    a_record_is_found_again(component);
    assert(one.drop_last() =~= Seq::empty());
    assert(record_owners(one.drop_last()) =~= Seq::empty());
    assert(record_owners(one) =~= seq![component]);
    if b.len() == 0 {
        assert(a + b =~= a);
        assert(record_owners(a) + record_owners(b) =~= record_owners(a));
    } else {
        records_are_taken_in_order(a, b.drop_last(), component);
        assert((a + b).drop_last() =~= a + b.drop_last());
        assert((a + b).last() == b.last());
        assert(record_owners(a + b) =~= record_owners(a) + record_owners(b));
    }
}

} // verus!
