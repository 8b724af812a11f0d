//! Which build of each component was last installed, per channel.
//!
//! A component whose installed version is established by hashing can only say "it is the build
//! that the manifest promises" or "it is something else": a newer build than the feed's looks like
//! an older one. So the builds that were installed are remembered, and a record of a newer build
//! holds an update back.
//!
//! Loading cannot fail: an absent or corrupt record reads as empty, which plans exactly as if
//! nothing had been recorded. The recorded value is the build actually present, not a high-water
//! mark: a rollback records the reinstated build, or forgets the component.

use vstd::prelude::*;

use crate::config::{channel_token, Channel};
use crate::path::{join, joined};
use crate::text::{cat3, same_text};

verus! {

/// The builds that were last installed, by component name. A missing entry means that the
/// component was not installed by this updater.
#[derive(Debug)]
pub struct InstalledBuilds {
    entries: Vec<(String, u64)>,
}

/// The map that a list of pairs writes; a later pair replaces an earlier one of the same name.
pub open spec fn pairs_map(pairs: Seq<(String, u64)>) -> Map<Seq<char>, u64>
    decreases pairs.len(),
{
    if pairs.len() == 0 {
        Map::empty()
    } else {
        pairs_map(pairs.drop_last()).insert(pairs.last().0@, pairs.last().1)
    }
}

/// Whether no name occurs twice.
pub open spec fn distinct_names(pairs: Seq<(String, u64)>) -> bool {
    forall|i: int, j: int|
        0 <= i < j < pairs.len() ==> (#[trigger] pairs[i]).0@ != (#[trigger] pairs[j]).0@
}

impl View for InstalledBuilds {
    type V = Map<Seq<char>, u64>;

    closed spec fn view(&self) -> Map<Seq<char>, u64> {
        pairs_map(self.entries@)
    }
}

proof fn lemma_pairs_map(pairs: Seq<(String, u64)>)
    requires
        distinct_names(pairs),
    ensures
        forall|i: int|
            0 <= i < pairs.len() ==> pairs_map(pairs).contains_key((#[trigger] pairs[i]).0@)
                && pairs_map(pairs)[pairs[i].0@] == pairs[i].1,
        forall|name: Seq<char>|
            pairs_map(pairs).contains_key(name) ==> exists|i: int|
                0 <= i < pairs.len() && (#[trigger] pairs[i]).0@ == name,
    decreases pairs.len(),
{
    if pairs.len() > 0 {
        let before = pairs.drop_last();
        assert(forall|i: int| 0 <= i < before.len() ==> before[i] == pairs[i]);
        lemma_pairs_map(before);
        assert forall|i: int| 0 <= i < pairs.len() implies pairs_map(pairs).contains_key(
            (#[trigger] pairs[i]).0@,
        ) && pairs_map(pairs)[pairs[i].0@] == pairs[i].1 by {
            if i < before.len() {
                assert(before[i] == pairs[i]);
                assert(pairs[i].0@ != pairs[pairs.len() - 1].0@);
            }
        }
        assert forall|name: Seq<char>| pairs_map(pairs).contains_key(name) implies exists|i: int|
            0 <= i < pairs.len() && (#[trigger] pairs[i]).0@ == name by {
            if name == pairs.last().0@ {
                assert(pairs[pairs.len() - 1].0@ == name);
            } else {
                assert(pairs_map(before).contains_key(name));
                let i: int = choose|i: int|
                    0 <= i < before.len() && (#[trigger] before[i]).0@ == name;
                assert(pairs[i].0@ == name);
            }
        }
    }
}

/// Two lists without repetition write the same map where each pair of one is in the other.
proof fn lemma_same_map(a: Seq<(String, u64)>, m: Map<Seq<char>, u64>)
    requires
        distinct_names(a),
        forall|i: int|
            0 <= i < a.len() ==> m.contains_key((#[trigger] a[i]).0@) && m[a[i].0@] == a[i].1,
        forall|name: Seq<char>|
            #![trigger m.contains_key(name)]
            m.contains_key(name) ==> exists|i: int|
                0 <= i < a.len() && (#[trigger] a[i]).0@ == name,
    ensures
        pairs_map(a) == m,
{
    lemma_pairs_map(a);
    assert forall|name: Seq<char>| #![trigger m.contains_key(name)]
        pairs_map(a).contains_key(name) == m.contains_key(name) && (m.contains_key(name)
            ==> pairs_map(a)[name] == m[name]) by {
        if pairs_map(a).contains_key(name) || m.contains_key(name) {
            let i: int = choose|i: int| 0 <= i < a.len() && (#[trigger] a[i]).0@ == name;
            assert(a[i].0@ == name);
        }
    }
    assert(pairs_map(a) =~= m);
}

impl Default for InstalledBuilds {
    /// No record at all.
    fn default() -> (builds: Self)
        ensures
            builds@ == Map::<Seq<char>, u64>::empty(),
    {
        InstalledBuilds { entries: Vec::new() }
    }
}

impl Clone for InstalledBuilds {
    fn clone(&self) -> (builds: Self)
        ensures
            builds@ == self@,
    {
        proof {
            use_type_invariant(self);
        }
        let mut entries: Vec<(String, u64)> = Vec::new();
        let mut i: usize = 0;
        while i < self.entries.len()
            invariant
                i <= self.entries@.len(),
                entries@ =~= self.entries@.take(i as int),
            decreases self.entries@.len() - i,
        {
            entries.push((self.entries[i].0.clone(), self.entries[i].1));
            i = i + 1;
        }
        assert(entries@ =~= self.entries@);
        InstalledBuilds { entries }
    }
}

impl PartialEq for InstalledBuilds {
    fn eq(&self, other: &Self) -> (r: bool) {
        proof {
            use_type_invariant(self);
            use_type_invariant(other);
        }
        let r: bool = self.within(other) && other.within(self);
        proof {
            lemma_pairs_map(self.entries@);
            lemma_pairs_map(other.entries@);
            if r {
                lemma_same_map(self.entries@, other@);
            } else if self@ == other@ {
                assert(self.within_spec(other@) && other.within_spec(self@));
            }
        }
        r
    }
}

impl Eq for InstalledBuilds {

}

impl vstd::std_specs::cmp::PartialEqSpecImpl for InstalledBuilds {
    open spec fn obeys_eq_spec() -> bool {
        true
    }

    open spec fn eq_spec(&self, other: &Self) -> bool {
        self@ == other@
    }
}

impl InstalledBuilds {
    #[verifier::type_invariant]
    spec fn well_formed(self) -> bool {
        distinct_names(self.entries@)
    }

    spec fn within_spec(self, m: Map<Seq<char>, u64>) -> bool {
        forall|i: int|
            0 <= i < self.entries@.len() ==> m.contains_key((#[trigger] self.entries@[i]).0@)
                && m[self.entries@[i].0@] == self.entries@[i].1
    }

    /// Whether every record of `self` is a record of `other` too.
    fn within(&self, other: &Self) -> (r: bool)
        ensures
            r == self.within_spec(other@),
    {
        let mut i: usize = 0;
        while i < self.entries.len()
            invariant
                i <= self.entries@.len(),
                forall|j: int|
                    0 <= j < i ==> other@.contains_key((#[trigger] self.entries@[j]).0@)
                        && other@[self.entries@[j].0@] == self.entries@[j].1,
            decreases self.entries@.len() - i,
        {
            let same: bool = match other.build_of(self.entries[i].0.as_str()) {
                Some(build) => build == self.entries[i].1,
                None => false,
            };
            if !same {
                assert(!(other@.contains_key(self.entries@[i as int].0@)
                    && other@[self.entries@[i as int].0@] == self.entries@[i as int].1));
                return false;
            }
            i = i + 1;
        }
        true
    }

    /// The build that was last installed of `component`, if one was.
    #[must_use]
    pub fn build_of(&self, component: &str) -> (build: Option<u64>)
        ensures
            build == if self@.contains_key(component@) {
                Some(self@[component@])
            } else {
                None
            },
    {
        proof {
            use_type_invariant(self);
            lemma_pairs_map(self.entries@);
        }
        let mut i: usize = 0;
        while i < self.entries.len()
            invariant
                i <= self.entries@.len(),
                self@ == pairs_map(self.entries@),
                distinct_names(self.entries@),
                forall|j: int| 0 <= j < i ==> (#[trigger] self.entries@[j]).0@ != component@,
            decreases self.entries@.len() - i,
        {
            if same_text(self.entries[i].0.as_str(), component) {
                proof {
                    lemma_pairs_map(self.entries@);
                    assert(self.entries@[i as int].0@ == component@);
                }
                return Some(self.entries[i].1);
            }
            i = i + 1;
        }
        None
    }

    /// A record set built from explicit pairs; a later pair replaces an earlier one.
    #[must_use]
    pub fn from_pairs(pairs: Vec<(String, u64)>) -> (builds: Self)
        ensures
            builds@ == pairs_map(pairs@),
    {
        let mut builds: InstalledBuilds = InstalledBuilds::default();
        let mut i: usize = 0;
        while i < pairs.len()
            invariant
                i <= pairs@.len(),
                builds@ == pairs_map(pairs@.take(i as int)),
            decreases pairs@.len() - i,
        {
            assert(pairs@.take(i + 1).drop_last() =~= pairs@.take(i as int));
            assert(pairs@.take(i + 1).last() == pairs@[i as int]);
            builds = builds.with(pairs[i].0.as_str(), Some(pairs[i].1));
            i = i + 1;
        }
        assert(pairs@.take(i as int) =~= pairs@);
        builds
    }

    /// The pairs of the other components.
    fn without(&self, component: &str) -> (kept: Vec<(String, u64)>)
        ensures
            distinct_names(kept@),
            pairs_map(kept@) == self@.remove(component@),
    {
        proof {
            use_type_invariant(self);
        }
        let mut kept: Vec<(String, u64)> = Vec::new();
        let mut i: usize = 0;
        assert(pairs_map(kept@) =~= pairs_map(self.entries@.take(0)).remove(component@));
        while i < self.entries.len()
            invariant
                i <= self.entries@.len(),
                distinct_names(self.entries@),
                distinct_names(kept@),
                pairs_map(kept@) == pairs_map(self.entries@.take(i as int)).remove(component@),
            decreases self.entries@.len() - i,
        {
            let ghost done = self.entries@.take(i as int);
            let ghost pair = self.entries@[i as int];
            let ghost before = kept@;
            proof {
                assert(self.entries@.take(i + 1).drop_last() =~= done);
                assert(self.entries@.take(i + 1).last() == pair);
            }
            if !same_text(self.entries[i].0.as_str(), component) {
                kept.push((self.entries[i].0.clone(), self.entries[i].1));
                proof {
                    lemma_fresh_name(self.entries@, i as int, before, component@);
                    assert(kept@.drop_last() =~= before);
                    assert(pairs_map(kept@) =~= pairs_map(done).insert(pair.0@, pair.1).remove(
                        component@,
                    ));
                }
            } else {
                assert(pairs_map(done).insert(pair.0@, pair.1).remove(component@) =~= pairs_map(
                    done,
                ).remove(component@));
            }
            i = i + 1;
        }
        assert(self.entries@.take(i as int) =~= self.entries@);
        kept
    }

    /// The records with `component` recorded at `build`, or, with `build == None`, forgotten. The
    /// other records stay as they are.
    pub fn with(self, component: &str, build: Option<u64>) -> (builds: Self)
        ensures
            builds@ == recorded(self@, component@, build),
    {
        let mut kept: Vec<(String, u64)> = self.without(component);
        let ghost rest = kept@;
        proof {
            lemma_pairs_map(rest);
        }
        if let Some(value) = build {
            kept.push((component.to_owned(), value));
            proof {
                assert(kept@.drop_last() =~= rest);
                assert forall|a: int, b: int| 0 <= a < b < kept@.len() implies (
                #[trigger] kept@[a]).0@ != (#[trigger] kept@[b]).0@ by {
                    assert(kept@[a] == rest[a]);
                    assert(pairs_map(rest).contains_key(rest[a].0@));
                    if b < rest.len() {
                        assert(kept@[b] == rest[b]);
                    }
                }
                assert(self@.remove(component@).insert(component@, value) =~= self@.insert(
                    component@,
                    value,
                ));
            }
        }
        InstalledBuilds { entries: kept }
    }
}

/// A pair that is kept does not repeat a name that was kept before it.
proof fn lemma_fresh_name(
    entries: Seq<(String, u64)>,
    i: int,
    kept: Seq<(String, u64)>,
    component: Seq<char>,
)
    requires
        0 <= i < entries.len(),
        distinct_names(entries),
        distinct_names(kept),
        pairs_map(kept) == pairs_map(entries.take(i)).remove(component),
    ensures
        distinct_names(kept.push(entries[i])),
{
    let done = entries.take(i);
    assert(distinct_names(done)) by {
        assert forall|a: int, b: int| 0 <= a < b < done.len() implies (#[trigger] done[a]).0@ != (
        #[trigger] done[b]).0@ by {
            assert(done[a] == entries[a] && done[b] == entries[b]);
        }
    }
    lemma_pairs_map(done);
    lemma_pairs_map(kept);
    let more = kept.push(entries[i]);
    assert forall|a: int, b: int| 0 <= a < b < more.len() implies (#[trigger] more[a]).0@ != (
    #[trigger] more[b]).0@ by {
        assert(more[a] == kept[a]);
        if b < kept.len() {
            assert(more[b] == kept[b]);
        } else if kept[a].0@ == entries[i].0@ {
            assert(pairs_map(kept).contains_key(kept[a].0@));
            assert(pairs_map(done).contains_key(entries[i].0@));
            let k: int = choose|k: int|
                0 <= k < done.len() && (#[trigger] done[k]).0@ == entries[i].0@;
            assert(done[k] == entries[k]);
        }
    }
}

/// The records after `component` was recorded at `build`, or forgotten.
pub open spec fn recorded(
    builds: Map<Seq<char>, u64>,
    component: Seq<char>,
    build: Option<u64>,
) -> Map<Seq<char>, u64> {
    match build {
        Some(b) => builds.insert(component, b),
        None => builds.remove(component),
    }
}

// ------------------------------------------------------------------ the record file

/// The component-to-build map that `bytes` hold as JSON, if they hold one.
pub uninterp spec fn json_builds(bytes: Seq<u8>) -> Option<Map<Seq<char>, u64>>;

/// The JSON text of a component-to-build map.
pub uninterp spec fn pretty_json(builds: Map<Seq<char>, u64>) -> Seq<u8>;

/// `serde_json::from_slice` into a map from text to `u64`: the map that the bytes hold, each name
/// once, or an error with a description where they hold none.
#[verifier::external_body]
fn parse_builds(bytes: &[u8]) -> (parsed: Result<Vec<(String, u64)>, String>)
    ensures
        parsed is Ok <==> json_builds(bytes@) is Some,
        parsed is Ok ==> json_builds(bytes@) == Some(pairs_map(parsed->Ok_0@)),
        parsed is Ok ==> distinct_names(parsed->Ok_0@),
{
    serde_json::from_slice::<std::collections::BTreeMap<String, u64>>(bytes).map(
        |map| map.into_iter().collect(),
    ).map_err(|e| e.to_string())
}

/// `serde_json::to_vec_pretty` of a map from text to `u64`: it cannot fail on such a map, and
/// `serde_json::from_slice` reads the same map back.
#[verifier::external_body]
fn print_builds(pairs: &Vec<(String, u64)>) -> (printed: Result<Vec<u8>, String>)
    requires
        distinct_names(pairs@),
    ensures
        printed is Ok,
        printed->Ok_0@ == pretty_json(pairs_map(pairs@)),
        json_builds(printed->Ok_0@) == Some(pairs_map(pairs@)),
{
    let map: std::collections::BTreeMap<&str, u64> = pairs.iter().map(|(k, v)| (k.as_str(), *v))
        .collect();
    serde_json::to_vec_pretty(&map).map_err(|e| e.to_string())
}

/// Reads and writes one channel's [`InstalledBuilds`] under the state directory.
#[derive(Debug, Clone)]
pub struct InstalledBuildStore {
    path: String,
}

/// The per-channel record file name (`installed-builds-stable.json`).
pub open spec fn record_name(channel: Channel) -> Seq<char> {
    "installed-builds-"@ + channel_token(channel) + ".json"@
}

/// What the contents of a record file mean: nothing recorded, unless they hold a map.
pub open spec fn loaded(contents: Option<Seq<u8>>) -> Map<Seq<char>, u64> {
    match contents {
        Some(bytes) => match json_builds(bytes) {
            Some(map) => map,
            None => Map::empty(),
        },
        None => Map::empty(),
    }
}

impl InstalledBuildStore {
    /// Where the record file is.
    pub closed spec fn path_view(&self) -> Seq<char> {
        self.path@
    }

    /// A store for `channel`'s records under `state_dir`.
    #[must_use]
    pub fn for_channel(state_dir: &str, channel: Channel) -> (store: Self)
        ensures
            store.path_view() == joined(state_dir@, record_name(channel)),
    {
        let name: String = installed_builds_file_name(channel);
        InstalledBuildStore { path: join(state_dir, name.as_str()) }
    }

    /// The path of the record file this store reads and writes.
    #[must_use]
    pub fn path(&self) -> (path: &str)
        ensures
            path@ == self.path_view(),
    {
        self.path.as_str()
    }

    /// The builds that the record file's `contents` hold, or why they hold none.
    ///
    /// # Errors
    ///
    /// A description, if the contents are no component-to-build map.
    pub fn read(&self, contents: &[u8]) -> (builds: Result<InstalledBuilds, String>)
        ensures
            match builds {
                Ok(b) => json_builds(contents@) == Some(b@),
                Err(_) => json_builds(contents@) is None,
            },
    {
        match parse_builds(contents) {
            Ok(entries) => Ok(InstalledBuilds { entries }),
            Err(why) => Err(why),
        }
    }

    /// Load the recorded builds from the record file's contents, `None` where there are none to
    /// read. Never fails: malformed contents are an empty set.
    #[must_use]
    pub fn load(&self, contents: Option<&[u8]>) -> (builds: InstalledBuilds)
        ensures
            builds@ == loaded(
                match contents {
                    Some(bytes) => Some(bytes@),
                    None => None,
                },
            ),
    {
        match contents {
            Some(bytes) => match self.read(bytes) {
                Ok(builds) => builds,
                Err(_) => InstalledBuilds::default(),
            },
            None => InstalledBuilds::default(),
        }
    }

    /// The new contents of the record file, once `component` has `build` installed; with
    /// `build == None` the component is forgotten.
    pub fn record(&self, contents: Option<&[u8]>, component: &str, build: Option<u64>) -> (written:
        Result<Vec<u8>, String>)
        ensures
            written matches Ok(bytes) && bytes@ == pretty_json(
                recorded(
                    loaded(
                        match contents {
                            Some(b) => Some(b@),
                            None => None,
                        },
                    ),
                    component@,
                    build,
                ),
            ) && json_builds(bytes@) == Some(
                recorded(
                    loaded(
                        match contents {
                            Some(b) => Some(b@),
                            None => None,
                        },
                    ),
                    component@,
                    build,
                ),
            ),
    {
        let builds: InstalledBuilds = self.load(contents).with(component, build);
        proof {
            use_type_invariant(&builds);
        }
        print_builds(&builds.entries)
    }
}

/// Computes [`record_name`].
fn installed_builds_file_name(channel: Channel) -> (name: String)
    ensures
        name@ == record_name(channel),
{
    cat3("installed-builds-", channel.as_str(), ".json")
}

/// What is recorded is read back, and no other component's record is disturbed. (`written` is
/// what [`InstalledBuildStore::record`] returns for `contents`.)
pub proof fn a_record_is_read_back(
    contents: Option<Seq<u8>>,
    written: Seq<u8>,
    component: Seq<char>,
    build: Option<u64>,
    other: Seq<char>,
)
    requires
        json_builds(written) == Some(recorded(loaded(contents), component, build)),
        other != component,
    ensures
        build matches Some(b) ==> loaded(Some(written)).contains_key(component) && loaded(
            Some(written),
        )[component] == b,
        build is None ==> !loaded(Some(written)).contains_key(component),
        loaded(Some(written)).contains_key(other) == loaded(contents).contains_key(other),
        loaded(contents).contains_key(other) ==> loaded(Some(written))[other] == loaded(
            contents,
        )[other],
{
}

/// A missing record file and a malformed one both read as nothing recorded.
pub proof fn an_unreadable_record_is_empty(bytes: Seq<u8>)
    requires
        json_builds(bytes) is None,
    ensures
        loaded(Some(bytes)) == Map::<Seq<char>, u64>::empty(),
        loaded(None) == Map::<Seq<char>, u64>::empty(),
{
}

/// Each channel keeps its own record file.
pub proof fn channels_do_not_share_a_record(state_dir: Seq<char>, a: Channel, b: Channel)
    requires
        a != b,
    ensures
        joined(state_dir, record_name(a)) != joined(state_dir, record_name(b)),
{
    reveal_strlit("installed-builds-");
    reveal_strlit(".json");
    reveal_strlit("alpha");
    reveal_strlit("nightly");
    reveal_strlit("stable");
    let x = joined(state_dir, record_name(a));
    let y = joined(state_dir, record_name(b));
    assert(channel_token(a).len() != channel_token(b).len());
    assert(x.len() != y.len());
}

/// Of pairs with one name the last counts, and a name without a pair has no build.
pub proof fn the_last_pair_of_a_name_counts(pairs: Seq<(String, u64)>, name: Seq<char>, k: int)
    requires
        -1 <= k < pairs.len(),
        k >= 0 ==> pairs[k].0@ == name,
        forall|i: int| k < i < pairs.len() ==> (#[trigger] pairs[i]).0@ != name,
    ensures
        pairs_map(pairs).contains_key(name) <==> k >= 0,
        k >= 0 ==> pairs_map(pairs)[name] == pairs[k].1,
    decreases pairs.len(),
{
    if pairs.len() > 0 && k < pairs.len() - 1 {
        assert(pairs[pairs.len() - 1].0@ != name);
        the_last_pair_of_a_name_counts(pairs.drop_last(), name, k);
    }
}

/// Recording a build leaves every other component's as it is.
pub proof fn recording_changes_one_component(
    builds: Map<Seq<char>, u64>,
    component: Seq<char>,
    build: u64,
    other: Seq<char>,
)
    requires
        other != component,
    ensures
        recorded(builds, component, Some(build)).contains_key(component),
        recorded(builds, component, Some(build))[component] == build,
        !recorded(builds, component, None).contains_key(component),
        recorded(builds, component, Some(build)).contains_key(other) == builds.contains_key(other),
        recorded(builds, component, None).contains_key(other) == builds.contains_key(other),
        builds.contains_key(other) ==> recorded(builds, component, Some(build))[other]
            == builds[other] && recorded(builds, component, None)[other] == builds[other],
{
}

} // verus!
