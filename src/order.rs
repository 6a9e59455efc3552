//! The order in which a package's releases are offered to the search: newest
//! first, with every prerelease after every other release.

use vstd::multiset::Multiset;
use vstd::prelude::*;
use crate::package::Release;
use crate::version::{VersionView, lemma_version_cmp_antisym, lemma_version_cmp_trans, version_cmp};

verus! {

broadcast use vstd::seq_lib::group_to_multiset_ensures;

/// Version `a` may be offered before version `b`: `a` is no prerelease and
/// `b` is one, or both are of one kind and `a` is at least as new as `b`.
pub open spec fn version_precedes(a: VersionView, b: VersionView) -> bool {
    ||| (!a.is_pre() && b.is_pre())
    ||| (a.is_pre() == b.is_pre() && version_cmp(a, b) >= 0)
}

/// Release `a` may stand before release `b`.
pub open spec fn release_precedes(a: Release, b: Release) -> bool {
    version_precedes(a.version@, b.version@)
}

/// Every version of the list may be offered before every later one.
pub open spec fn versions_ordered(s: Seq<VersionView>) -> bool {
    forall|i: int, j: int| 0 <= i < j < s.len() ==> #[trigger] version_precedes(s[i], s[j])
}

/// The order in which versions are offered is transitive.
pub proof fn lemma_version_precedes_trans(a: VersionView, b: VersionView, c: VersionView)
    requires
        version_precedes(a, b),
        version_precedes(b, c),
    ensures
        version_precedes(a, c),
{
    lemma_version_cmp_antisym(a, b);
    lemma_version_cmp_antisym(b, c);
    lemma_version_cmp_antisym(a, c);
    if a.is_pre() == b.is_pre() && b.is_pre() == c.is_pre() {
        lemma_version_cmp_trans(c, b, a);
    }
}

/// In releases ordered for the search, every release may stand before every
/// later one.
pub proof fn lemma_releases_ordered_everywhere(s: Seq<Release>, i: int, j: int)
    requires
        releases_ordered(s),
        0 <= i < j < s.len(),
    ensures
        release_precedes(s[i], s[j]),
    decreases j - i,
{
    assert(release_precedes(s[i], s[i + 1]));
    if i + 1 < j {
        lemma_releases_ordered_everywhere(s, i + 1, j);
        lemma_version_precedes_trans(s[i].version@, s[i + 1].version@, s[j].version@);
    }
}

/// Each release may stand before the next one.
pub open spec fn releases_ordered(s: Seq<Release>) -> bool {
    forall|i: int| 0 <= i < s.len() - 1 ==> #[trigger] release_precedes(s[i], s[i + 1])
}

/// Of two releases, one may always stand before the other.
pub proof fn lemma_precedes_total(a: Release, b: Release)
    ensures
        release_precedes(a, b) || release_precedes(b, a),
{
    lemma_version_cmp_antisym(a.version@, b.version@);
}

/// In an ordered list no prerelease comes before a release that is none.
pub proof fn lemma_prereleases_last(s: Seq<Release>, i: int, j: int)
    requires
        releases_ordered(s),
        0 <= i < j < s.len(),
        s[i].version@.is_pre(),
    ensures
        s[j].version@.is_pre(),
    decreases j - i,
{
    assert(release_precedes(s[i], s[i + 1]));
    if i + 1 < j {
        lemma_prereleases_last(s, i + 1, j);
    }
}

fn precedes(a: &Release, b: &Release) -> (r: bool)
    ensures
        r == release_precedes(*a, *b),
{
    let pa = a.version.is_pre();
    let pb = b.version.is_pre();
    (!pa && pb) || (pa == pb && a.version.compare(&b.version) >= 0)
}

fn insert_ordered(out: &mut Vec<Release>, x: Release)
    requires
        releases_ordered(old(out)@),
    ensures
        releases_ordered(final(out)@),
        final(out)@.to_multiset() == old(out)@.to_multiset().insert(x),
{
    let mut k: usize = 0;
    while k < out.len() && precedes(&out[k], &x)
        invariant
            k <= out.len(),
            forall|m: int| 0 <= m < k ==> #[trigger] release_precedes(out@[m], x),
        decreases out.len() - k,
    {
        k = k + 1;
    }
    if k < out.len() {
        proof {
            lemma_precedes_total(out@[k as int], x);
        }
    }
    let ghost before = out@;
    out.insert(k, x);
    assert forall|i: int| 0 <= i < out@.len() - 1 implies #[trigger] release_precedes(out@[i], out@[i + 1]) by {
        if i < k as int - 1 {
            assert(release_precedes(before[i], before[i + 1]));
        } else if i > k as int {
            let j = i - 1;
            assert(release_precedes(before[j], before[j + 1]));
            assert(j + 1 == i);
        }
    }
    assert(out@.remove(k as int) =~= before);
    assert(out@.to_multiset() =~= before.to_multiset().insert(x)) by {
        assert(out@[k as int] == x);
        assert(out@.to_multiset().count(x) > 0) by {
            assert(out@.contains(x));
        }
    }
}

/// The releases newest first, every prerelease after every other release.
pub fn order_releases(releases: Vec<Release>) -> (r: Vec<Release>)
    ensures
        r@.to_multiset() == releases@.to_multiset(),
        releases_ordered(r@),
{
    let mut rest = releases;
    let mut out: Vec<Release> = Vec::new();
    while rest.len() > 0
        invariant
            releases_ordered(out@),
            rest@.to_multiset().add(out@.to_multiset()) == releases@.to_multiset(),
        decreases rest.len(),
    {
        let ghost r0 = rest@;
        let x = rest.pop().unwrap();
        assert(r0 =~= rest@.push(x));
        insert_ordered(&mut out, x);
        assert(rest@.to_multiset().add(out@.to_multiset()) =~= releases@.to_multiset());
    }
    assert(rest@.to_multiset() =~= Multiset::empty());
    assert(out@.to_multiset() =~= releases@.to_multiset());
    out
}

/// The versions of the list that `admitted` marks, in the list's order.
pub open spec fn admitted_only(s: Seq<VersionView>, admitted: Seq<bool>) -> Seq<VersionView>
    decreases s.len(),
{
    if s.len() == 0 || admitted.len() == 0 {
        Seq::empty()
    } else {
        let rest = admitted_only(s.drop_last(), admitted.drop_last());
        if admitted.last() {
            rest.push(s.last())
        } else {
            rest
        }
    }
}

proof fn lemma_admitted_from(s: Seq<VersionView>, admitted: Seq<bool>, i: int)
    requires
        0 <= i < admitted_only(s, admitted).len(),
    ensures
        exists|k: int| 0 <= k < s.len() && s[k] == admitted_only(s, admitted)[i],
    decreases s.len(),
{
    let rest = admitted_only(s.drop_last(), admitted.drop_last());
    if i < rest.len() {
        lemma_admitted_from(s.drop_last(), admitted.drop_last(), i);
        let k = choose|k: int| 0 <= k < s.drop_last().len() && s.drop_last()[k] == rest[i];
        assert(s[k] == s.drop_last()[k]);
    } else {
        assert(s[s.len() - 1] == s.last());
    }
}

/// Keeping only some versions of an ordered list leaves it ordered.
pub proof fn lemma_admitted_ordered(s: Seq<VersionView>, admitted: Seq<bool>)
    requires
        versions_ordered(s),
    ensures
        versions_ordered(admitted_only(s, admitted)),
    decreases s.len(),
{
    if s.len() > 0 && admitted.len() > 0 {
        let prefix = s.drop_last();
        assert forall|i: int, j: int| 0 <= i < j < prefix.len() implies #[trigger] version_precedes(prefix[i], prefix[j]) by {
            assert(version_precedes(s[i], s[j]));
        }
        lemma_admitted_ordered(prefix, admitted.drop_last());
        let rest = admitted_only(prefix, admitted.drop_last());
        let all = admitted_only(s, admitted);
        assert forall|i: int, j: int| 0 <= i < j < all.len() implies #[trigger] version_precedes(all[i], all[j]) by {
            if j < rest.len() {
                assert(all[i] == rest[i] && all[j] == rest[j]);
            } else {
                lemma_admitted_from(prefix, admitted.drop_last(), i);
                let k = choose|k: int| 0 <= k < prefix.len() && prefix[k] == rest[i];
                assert(version_precedes(s[k], s[s.len() - 1]));
            }
        }
    }
}

} // verus!
