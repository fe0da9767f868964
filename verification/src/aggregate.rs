//! Aggregation of version tokens across a paginated listing of filenames
//! into a deduplicated set of version strings.

use vstd::prelude::*;
use crate::version::scan_version;

verus! {

/// The set of version tokens that scanning each name of `names` yields.
pub open spec fn versions_of(names: Seq<Seq<char>>) -> Set<Seq<char>> {
    Set::new(
        |v: Seq<char>|
            exists|k: int| 0 <= k < names.len() && #[trigger] scan_version(names[k]) == Some(v),
    )
}

/// A deduplicated, append-only set of version strings.
pub struct VersionSet {
    versions: Vec<String>,
}

impl VersionSet {
    /// The mathematical contents: a set of version strings as character
    /// sequences.
    pub closed spec fn view(&self) -> Set<Seq<char>> {
        self.versions.deep_view().to_set()
    }

    /// Internal well-formedness: the backing vector holds no duplicates.
    pub closed spec fn inv(&self) -> bool {
        self.versions.deep_view().no_duplicates()
    }

    /// An empty version set.
    pub fn new() -> (s: VersionSet)
        ensures
            s.inv(),
            s@ == Set::<Seq<char>>::empty(),
    {
        let s = VersionSet { versions: Vec::new() };
        proof {
            assert(s.versions.deep_view() =~= Seq::<Seq<char>>::empty());
            assert(s.versions.deep_view().to_set() =~= Set::<Seq<char>>::empty());
        }
        s
    }

    /// How many distinct versions have been gathered.
    pub fn len(&self) -> (n: usize)
        requires
            self.inv(),
        ensures
            n == self@.len(),
    {
        proof {
            self.versions.deep_view().unique_seq_to_set();
        }
        self.versions.len()
    }

    /// Whether `v` is already in the set.
    pub fn contains(&self, v: &String) -> (r: bool)
        ensures
            r == self@.contains(v@),
    {
        let ghost dv = self.versions.deep_view();
        let mut k: usize = 0;
        while k < self.versions.len()
            invariant
                dv == self.versions.deep_view(),
                k <= self.versions.len(),
                forall|m: int| 0 <= m < k ==> #[trigger] dv[m] != v@,
            decreases self.versions.len() - k,
        {
            proof {
                assert(dv[k as int] == self.versions@[k as int]@);
            }
            if self.versions[k] == *v {
                proof {
                    assert(dv[k as int] == v@);
                    assert(dv.contains(v@));
                }
                return true;
            }
            k += 1;
        }
        proof {
            assert(!dv.contains(v@));
        }
        false
    }

    /// Inserts a version string; duplicates are silently absorbed.
    pub fn insert(&mut self, v: String)
        requires
            old(self).inv(),
        ensures
            final(self).inv(),
            final(self)@ == old(self)@.insert(v@),
    {
        let present = self.contains(&v);
        if !present {
            let ghost dv = self.versions.deep_view();
            self.versions.push(v);
            proof {
                assert(self.versions.deep_view() =~= dv.push(v@));
                assert forall|a: int, b: int|
                    0 <= a < b < dv.push(v@).len() implies dv.push(v@)[a] != dv.push(v@)[b] by {
                    if b == dv.len() {
                        assert(dv.push(v@)[a] == dv[a]);
                        assert(dv.contains(dv[a]));
                    }
                };
                dv.lemma_push_to_set_commute(v@);
            }
        } else {
            proof {
                assert(self@.insert(v@) =~= self@);
            }
        }
    }

    /// Hands the gathered versions out as a vector without duplicates.
    pub fn into_versions(self) -> (r: Vec<String>)
        requires
            self.inv(),
        ensures
            r.deep_view().no_duplicates(),
            r.deep_view().to_set() == self@,
    {
        self.versions
    }
}

/// Scans every filename and gathers each extracted version into a
/// deduplicated set. A name that yields no version token is skipped and
/// never aborts aggregation.
pub fn aggregate(filenames: &Vec<String>) -> (s: VersionSet)
    ensures
        s.inv(),
        s@ == versions_of(filenames.deep_view()),
{
    let ghost dv = filenames.deep_view();
    let mut s = VersionSet::new();
    let mut k: usize = 0;
    proof {
        assert(versions_of(dv.take(0)) =~= Set::<Seq<char>>::empty());
    }
    while k < filenames.len()
        invariant
            dv == filenames.deep_view(),
            k <= filenames.len(),
            s.inv(),
            s@ == versions_of(dv.take(k as int)),
        decreases filenames.len() - k,
    {
        let ghost pre = dv.take(k as int);
        match crate::version::extract_version_from_name(filenames[k].as_str()) {
            Some(v) => {
                proof {
                    assert(dv[k as int] == filenames@[k as int]@);
                    lemma_versions_of_extend(dv, k as int);
                    assert(scan_version(dv[k as int]) == Some(v@));
                }
                s.insert(v);
            },
            None => {
                proof {
                    assert(dv[k as int] == filenames@[k as int]@);
                    lemma_versions_of_extend(dv, k as int);
                    assert(scan_version(dv[k as int]) is None);
                    assert(versions_of(dv.take(k + 1)) =~= versions_of(dv.take(k as int)));
                }
            },
        }
        k += 1;
    }
    proof {
        assert(dv.take(filenames.len() as int) =~= dv);
    }
    s
}

/// Extending the scanned prefix by one name adds exactly that name's
/// version token, if it has one.
proof fn lemma_versions_of_extend(names: Seq<Seq<char>>, k: int)
    requires
        0 <= k < names.len(),
    ensures
        versions_of(names.take(k + 1)) == (match scan_version(names[k]) {
            Some(v) => versions_of(names.take(k)).insert(v),
            None => versions_of(names.take(k)),
        }),
{
    let pre = names.take(k);
    let ext = names.take(k + 1);
    assert(ext =~= pre.push(names[k]));
    match scan_version(names[k]) {
        Some(v) => {
            assert forall|w: Seq<char>| versions_of(ext).contains(w) implies versions_of(
                pre,
            ).insert(v).contains(w) by {
                let i = choose|i: int|
                    0 <= i < ext.len() && #[trigger] scan_version(ext[i]) == Some(w);
                if i < k {
                    assert(scan_version(pre[i]) == Some(w));
                } else {
                    assert(ext[i] == names[k]);
                }
            };
            assert forall|w: Seq<char>| versions_of(pre).insert(v).contains(w)
                implies versions_of(ext).contains(w) by {
                if versions_of(pre).contains(w) {
                    let i = choose|i: int|
                        0 <= i < pre.len() && #[trigger] scan_version(pre[i]) == Some(w);
                    assert(scan_version(ext[i]) == Some(w));
                } else {
                    assert(scan_version(ext[k]) == Some(w));
                }
            };
            assert(versions_of(ext) =~= versions_of(pre).insert(v));
        },
        None => {
            assert forall|w: Seq<char>| versions_of(ext).contains(w) implies versions_of(
                pre,
            ).contains(w) by {
                let i = choose|i: int|
                    0 <= i < ext.len() && #[trigger] scan_version(ext[i]) == Some(w);
                assert(i < k);
                assert(scan_version(pre[i]) == Some(w));
            };
            assert forall|w: Seq<char>| versions_of(pre).contains(w) implies versions_of(
                ext,
            ).contains(w) by {
                let i = choose|i: int|
                    0 <= i < pre.len() && #[trigger] scan_version(pre[i]) == Some(w);
                assert(scan_version(ext[i]) == Some(w));
            };
            assert(versions_of(ext) =~= versions_of(pre));
        },
    }
}

/// A filename that already occurs in the listing contributes nothing new:
/// aggregation deduplicates.
pub proof fn lemma_duplicate_filename_adds_nothing(names: Seq<Seq<char>>, name: Seq<char>)
    requires
        names.contains(name),
    ensures
        versions_of(names.push(name)) == versions_of(names),
{
    let ext = names.push(name);
    assert forall|w: Seq<char>| versions_of(ext).contains(w) implies versions_of(
        names,
    ).contains(w) by {
        let i = choose|i: int| 0 <= i < ext.len() && #[trigger] scan_version(ext[i]) == Some(w);
        if i == names.len() {
            let i0 = choose|i0: int| 0 <= i0 < names.len() && names[i0] == name;
            assert(scan_version(names[i0]) == Some(w));
        } else {
            assert(scan_version(names[i]) == Some(w));
        }
    };
    assert forall|w: Seq<char>| versions_of(names).contains(w) implies versions_of(
        ext,
    ).contains(w) by {
        let i = choose|i: int| 0 <= i < names.len() && #[trigger] scan_version(names[i]) == Some(w);
        assert(scan_version(ext[i]) == Some(w));
    };
    assert(versions_of(ext) =~= versions_of(names));
}

} // verus!
