//! The signed manifest, the artifacts staged for it, and the platform they are for.

use vstd::prelude::*;

use crate::text::same_text;

verus! {

/// The operating system and architecture whose artifacts are installed.
#[derive(Debug, Clone, PartialEq, Eq)]
pub struct Platform {
    /// The operating system (`windows`, `macos`, `linux`).
    pub os: String,
    /// The architecture (`x64`, `arm64`).
    pub arch: String,
}

/// One downloadable build of a component.
#[derive(Debug, Clone, PartialEq, Eq)]
pub struct Artifact {
    /// The operating system it is for.
    pub os: String,
    /// The architecture it is for.
    pub arch: String,
    /// Where it is downloaded from.
    pub url: String,
    /// Lowercase-hex SHA-256 of its bytes.
    pub sha256: String,
    /// Its size in bytes.
    pub size: u64,
    /// The build variant, or `None` for the default build.
    pub variant: Option<String>,
}

/// One component of the manifest.
#[derive(Debug, Clone, PartialEq, Eq)]
pub struct Component {
    /// The component's name.
    pub name: String,
    /// Its version, as people read it.
    pub version: String,
    /// Its monotonic build number.
    pub build: u64,
    /// Its artifacts, over all platforms.
    pub artifacts: Vec<Artifact>,
}

/// The manifest of one channel.
#[derive(Debug, Clone, PartialEq, Eq)]
pub struct Manifest {
    /// The manifest's schema.
    pub schema: u32,
    /// The version of the root of trust it was made under.
    pub root_version: u64,
    /// Its sequence number.
    pub sequence: u64,
    /// When it was made, in unix seconds.
    pub generated: u64,
    /// When it expires, in unix seconds.
    pub expires: u64,
    /// The lowest build that may be reinstated.
    pub rollback_floor_build: u64,
    /// The components it offers.
    pub components: Vec<Component>,
}

/// An artifact that the worker downloaded and checked.
#[derive(Debug, Clone, PartialEq, Eq)]
pub struct StagedArtifact {
    /// The component it belongs to.
    pub component: String,
    /// The component's version.
    pub version: String,
    /// The component's build number.
    pub build: u64,
    /// The operating system it is for.
    pub os: String,
    /// The architecture it is for.
    pub arch: String,
    /// The build variant, or `None` for the default build.
    pub variant: Option<String>,
    /// Lowercase-hex SHA-256 of its bytes, as the worker reports it.
    pub sha256: String,
    /// Its size in bytes.
    pub size: u64,
    /// Where the worker put it.
    pub staged_path: String,
}

/// Whether an artifact is for the given operating system and architecture.
pub open spec fn is_for(a: Artifact, os: Seq<char>, arch: Seq<char>) -> bool {
    a.os@ == os && a.arch@ == arch
}

/// The positions among the first `n` artifacts of those for the given platform: the default builds
/// if `default`, else the others.
pub open spec fn positions(
    artifacts: Seq<Artifact>,
    os: Seq<char>,
    arch: Seq<char>,
    default: bool,
    n: int,
) -> Seq<int>
    decreases n,
{
    if n <= 0 {
        Seq::empty()
    } else {
        let before = positions(artifacts, os, arch, default, n - 1);
        let a = artifacts[n - 1];
        if is_for(a, os, arch) && (a.variant is None) == default {
            before.push(n - 1)
        } else {
            before
        }
    }
}

/// The artifacts for a platform, default builds first, each group in manifest order.
pub open spec fn artifacts_for(
    artifacts: Seq<Artifact>,
    os: Seq<char>,
    arch: Seq<char>,
) -> Seq<Artifact> {
    let n: int = artifacts.len() as int;
    let order = positions(artifacts, os, arch, true, n) + positions(artifacts, os, arch, false, n);
    Seq::new(order.len(), |i: int| artifacts[order[i]])
}

impl Component {
    /// Where in the component's list the artifacts for a platform stand: each artifact whose operating
    /// system and architecture are the given ones, once, and no other; default builds first, each
    /// group in the order of the list.
    pub fn artifacts_for(&self, os: &str, arch: &str) -> (order: Vec<usize>)
        ensures
            forall|i: int|
                0 <= i < order@.len() ==> {
                    &&& (#[trigger] order@[i]) < self.artifacts@.len()
                    &&& self.artifacts@[order@[i] as int].os@ == os@
                    &&& self.artifacts@[order@[i] as int].arch@ == arch@
                },
            forall|k: int|
                0 <= k < self.artifacts@.len() && (#[trigger] self.artifacts@[k]).os@ == os@
                    && self.artifacts@[k].arch@ == arch@ ==> exists|i: int|
                    0 <= i < order@.len() && #[trigger] order@[i] == k,
            forall|i: int, j: int|
                0 <= i < j < order@.len() ==> {
                    let a = self.artifacts@[#[trigger] order@[i] as int];
                    let b = self.artifacts@[#[trigger] order@[j] as int];
                    if a.variant is None == b.variant is None {
                        order@[i] < order@[j]
                    } else {
                        a.variant is None
                    }
                },
            order@.len() == artifacts_for(self.artifacts@, os@, arch@).len(),
            forall|i: int|
                0 <= i < order@.len() ==> (#[trigger] order@[i]) < self.artifacts@.len()
                    && self.artifacts@[order@[i] as int] == artifacts_for(
                    self.artifacts@,
                    os@,
                    arch@,
                )[i],
    {
        let n: usize = self.artifacts.len();
        let mut order: Vec<usize> = Vec::new();
        let mut pass: usize = 0;
        let ghost firsts = positions(self.artifacts@, os@, arch@, true, n as int);
        let ghost others = positions(self.artifacts@, os@, arch@, false, n as int);
        assert(ints(order@) =~= Seq::empty());
        while pass < 2
            invariant
                pass <= 2,
                n == self.artifacts@.len(),
                firsts == positions(self.artifacts@, os@, arch@, true, n as int),
                others == positions(self.artifacts@, os@, arch@, false, n as int),
                pass == 0 ==> ints(order@) == Seq::<int>::empty(),
                pass == 1 ==> ints(order@) == firsts,
                pass == 2 ==> ints(order@) == firsts + others,
                forall|i: int| 0 <= i < order@.len() ==> (#[trigger] order@[i]) < n,
            decreases 2 - pass,
        {
            let ghost start = ints(order@);
            let default: bool = pass == 0;
            let mut i: usize = 0;
            assert(start =~= start + positions(self.artifacts@, os@, arch@, default, 0));
            while i < n
                invariant
                    i <= n,
                    n == self.artifacts@.len(),
                    ints(order@) == start + positions(
                        self.artifacts@,
                        os@,
                        arch@,
                        default,
                        i as int,
                    ),
                    forall|j: int| 0 <= j < order@.len() ==> (#[trigger] order@[j]) < n,
                decreases n - i,
            {
                let a: &Artifact = &self.artifacts[i];
                let ghost before = order@;
                if same_text(a.os.as_str(), os) && same_text(a.arch.as_str(), arch)
                    && a.variant.is_none() == default {
                    order.push(i);
                    assert(ints(order@) =~= ints(before).push(i as int));
                    assert(start + positions(self.artifacts@, os@, arch@, default, i + 1)
                        =~= ints(before).push(i as int));
                }
                i = i + 1;
            }
            pass = pass + 1;
            assert(pass == 1 ==> ints(order@) =~= firsts);
        }
        assert(ints(order@) == firsts + others);
        assert forall|i: int| 0 <= i < order@.len() implies (#[trigger] order@[i]) < n
            && self.artifacts@[order@[i] as int] == artifacts_for(self.artifacts@, os@, arch@)[i] by {
            assert(ints(order@)[i] == (firsts + others)[i]);
        }
        proof {
            let law = the_artifacts_of_a_platform(self.artifacts@, os@, arch@);
            assert(law == ints(order@));
            assert forall|k: int|
                0 <= k < self.artifacts@.len() && (#[trigger] self.artifacts@[k]).os@ == os@
                    && self.artifacts@[k].arch@ == arch@ implies exists|i: int|
                0 <= i < order@.len() && #[trigger] order@[i] == k by {
                let i: int = choose|i: int| 0 <= i < law.len() && #[trigger] law[i] == k;
                assert(ints(order@)[i] == order@[i]);
            }
            assert forall|i: int| 0 <= i < order@.len() implies {
                &&& (#[trigger] order@[i]) < self.artifacts@.len()
                &&& self.artifacts@[order@[i] as int].os@ == os@
                &&& self.artifacts@[order@[i] as int].arch@ == arch@
            } by {
                assert(law[i] == order@[i]);
            }
            assert forall|i: int, j: int| 0 <= i < j < order@.len() implies {
                let a = self.artifacts@[#[trigger] order@[i] as int];
                let b = self.artifacts@[#[trigger] order@[j] as int];
                if a.variant is None == b.variant is None {
                    order@[i] < order@[j]
                } else {
                    a.variant is None
                }
            } by {
                assert(law[i] == order@[i] && law[j] == order@[j]);
            }
        }
        order
    }
}

/// The artifacts of a platform are those of the list whose operating system and architecture are the
/// platform's, each once: default builds first, each group in the order of the list. What is returned
/// is where each of them stands in the list.
#[verifier::rlimit(40)]
pub proof fn the_artifacts_of_a_platform(
    artifacts: Seq<Artifact>,
    os: Seq<char>,
    arch: Seq<char>,
) -> (order: Seq<int>)
    ensures
        order == positions(artifacts, os, arch, true, artifacts.len() as int) + positions(
            artifacts,
            os,
            arch,
            false,
            artifacts.len() as int,
        ),
        artifacts_for(artifacts, os, arch).len() == order.len(),
        forall|i: int|
            0 <= i < order.len() ==> {
                &&& 0 <= #[trigger] order[i] < artifacts.len()
                &&& artifacts[order[i]].os@ == os
                &&& artifacts[order[i]].arch@ == arch
                &&& artifacts_for(artifacts, os, arch)[i] == artifacts[order[i]]
            },
        forall|k: int|
            0 <= k < artifacts.len() && (#[trigger] artifacts[k]).os@ == os && artifacts[k].arch@
                == arch ==> exists|i: int| 0 <= i < order.len() && #[trigger] order[i] == k,
        forall|i: int, j: int|
            0 <= i < j < order.len() ==> {
                let a = artifacts[#[trigger] order[i]];
                let b = artifacts[#[trigger] order[j]];
                if a.variant is None == b.variant is None {
                    order[i] < order[j]
                } else {
                    a.variant is None
                }
            },
{
    let n: int = artifacts.len() as int;
    let firsts = positions(artifacts, os, arch, true, n);
    let others = positions(artifacts, os, arch, false, n);
    let order = firsts + others;
    lemma_positions(artifacts, os, arch, true, n);
    lemma_positions(artifacts, os, arch, false, n);
    assert forall|k: int|
        0 <= k < artifacts.len() && (#[trigger] artifacts[k]).os@ == os && artifacts[k].arch@
            == arch implies exists|i: int| 0 <= i < order.len() && #[trigger] order[i] == k by {
        if artifacts[k].variant is None {
            let i: int = choose|i: int| 0 <= i < firsts.len() && #[trigger] firsts[i] == k;
            assert(order[i] == k);
        } else {
            let i: int = choose|i: int| 0 <= i < others.len() && #[trigger] others[i] == k;
            assert(order[firsts.len() + i] == k);
        }
    }
    assert forall|i: int| 0 <= i < order.len() implies {
        &&& 0 <= #[trigger] order[i] < artifacts.len()
        &&& artifacts[order[i]].os@ == os
        &&& artifacts[order[i]].arch@ == arch
        &&& artifacts_for(artifacts, os, arch)[i] == artifacts[order[i]]
        &&& (artifacts[order[i]].variant is None <==> i < firsts.len())
    } by {
        if i < firsts.len() {
            assert(order[i] == firsts[i]);
        } else {
            assert(order[i] == others[i - firsts.len()]);
        }
    }
    assert forall|i: int, j: int| 0 <= i < j < order.len() implies {
        let a = artifacts[#[trigger] order[i]];
        let b = artifacts[#[trigger] order[j]];
        if a.variant is None == b.variant is None {
            order[i] < order[j]
        } else {
            a.variant is None
        }
    } by {
        if j < firsts.len() {
            assert(order[i] == firsts[i] && order[j] == firsts[j]);
        } else if i >= firsts.len() {
            assert(order[i] == others[i - firsts.len()] && order[j] == others[j - firsts.len()]);
        }
    }
    order
}

#[verifier::rlimit(40)]
proof fn lemma_positions(
    artifacts: Seq<Artifact>,
    os: Seq<char>,
    arch: Seq<char>,
    default: bool,
    n: int,
)
    requires
        0 <= n <= artifacts.len(),
    ensures
        forall|i: int|
            0 <= i < positions(artifacts, os, arch, default, n).len() ==> {
                let k: int = #[trigger] positions(artifacts, os, arch, default, n)[i];
                &&& 0 <= k < n
                &&& artifacts[k].os@ == os
                &&& artifacts[k].arch@ == arch
                &&& (artifacts[k].variant is None) == default
            },
        forall|k: int|
            0 <= k < n && (#[trigger] artifacts[k]).os@ == os && artifacts[k].arch@ == arch && (
            artifacts[k].variant is None) == default ==> exists|i: int|
                0 <= i < positions(artifacts, os, arch, default, n).len() && #[trigger] positions(
                    artifacts,
                    os,
                    arch,
                    default,
                    n,
                )[i] == k,
        forall|i: int, j: int|
            0 <= i < j < positions(artifacts, os, arch, default, n).len() ==> #[trigger] positions(
                artifacts,
                os,
                arch,
                default,
                n,
            )[i] < #[trigger] positions(artifacts, os, arch, default, n)[j],
    decreases n,
{
    if n > 0 {
        lemma_positions(artifacts, os, arch, default, n - 1);
        let before = positions(artifacts, os, arch, default, n - 1);
        let now = positions(artifacts, os, arch, default, n);
        assert forall|i: int| 0 <= i < before.len() implies now[i] == #[trigger] before[i] by {}
        assert forall|k: int|
            0 <= k < n && (#[trigger] artifacts[k]).os@ == os && artifacts[k].arch@ == arch && (
            artifacts[k].variant is None) == default implies exists|i: int|
            0 <= i < now.len() && #[trigger] now[i] == k by {
            if k == n - 1 {
                assert(now[before.len() as int] == k);
            } else {
                let i: int = choose|i: int| 0 <= i < before.len() && #[trigger] before[i] == k;
                assert(now[i] == before[i]);
            }
        }
        assert forall|i: int, j: int| 0 <= i < j < now.len() implies #[trigger] now[i]
            < #[trigger] now[j] by {
            assert(now[i] == before[i]);
            if j < before.len() {
                assert(now[j] == before[j]);
            }
        }
    }
}

spec fn ints(order: Seq<usize>) -> Seq<int> {
    Seq::new(order.len(), |i: int| order[i] as int)
}

} // verus!
