//! The offline analysis pass's aggregation logic. It consumes harvested
//! build descriptors as plain parsed values — which repositories each
//! descriptor declares — and computes the report: per-URL usage counts,
//! per-hostname tallies, and the projects that declare distribution
//! repositories. The walking, XML decoding and parallel scheduling stay at
//! the edges.
use crate::strutil;
use vstd::prelude::*;

verus! {

/// One declared repository of a build descriptor.
pub struct Repository {
    pub id: String,
    pub url: String,
}

/// A `<repositories>` or `<distributionManagement>` section.
pub struct Repositories {
    pub repositories: Vec<Repository>,
}

/// The parts of one build descriptor the analysis reads.
pub struct Pom {
    pub repositories: Option<Repositories>,
    pub distribution_management: Option<Repositories>,
}

impl Pom {
    /// The external repository URLs this descriptor declares, if the
    /// section is present.
    pub fn repositories(&self) -> (r: Option<Vec<String>>)
        ensures
            match r {
                Some(urls) => match self.repositories {
                    Some(inner) => urls@.len() == inner.repositories@.len() && forall|i: int|
                        0 <= i < urls@.len() ==> #[trigger] urls@[i]@
                            == inner.repositories@[i].url@,
                    None => false,
                },
                None => self.repositories is None,
            },
    {
        match &self.repositories {
            Some(inner) => Some(clone_urls(&inner.repositories)),
            None => None,
        }
    }

    /// The distribution repository URLs this descriptor declares, if the
    /// section is present.
    pub fn distribution_repositories(&self) -> (r: Option<Vec<String>>)
        ensures
            match r {
                Some(urls) => match self.distribution_management {
                    Some(inner) => urls@.len() == inner.repositories@.len() && forall|i: int|
                        0 <= i < urls@.len() ==> #[trigger] urls@[i]@
                            == inner.repositories@[i].url@,
                    None => false,
                },
                None => self.distribution_management is None,
            },
    {
        match &self.distribution_management {
            Some(inner) => Some(clone_urls(&inner.repositories)),
            None => None,
        }
    }
}

fn clone_urls(list: &Vec<Repository>) -> (r: Vec<String>)
    ensures
        r@.len() == list@.len(),
        forall|i: int| 0 <= i < r@.len() ==> #[trigger] r@[i]@ == list@[i].url@,
{
    let n = list.len();
    let mut out: Vec<String> = Vec::new();
    let mut i: usize = 0;
    while i < n
        invariant
            n == list@.len(),
            i <= n,
            out@.len() == i,
            forall|k: int| 0 <= k < i ==> #[trigger] out@[k]@ == list@[k].url@,
        decreases n - i,
    {
        out.push(list[i].url.clone());
        i += 1;
    }
    out
}

/// One analyzed project: the distinct external and distribution
/// repository URLs declared across all its build descriptors.
pub struct Project {
    pub name: String,
    pub repos: Vec<String>,
    pub dist_repos: Vec<String>,
}

pub open spec fn pom_repos(p: Pom) -> Seq<Repository> {
    match p.repositories {
        Some(rs) => rs.repositories@,
        None => Seq::empty(),
    }
}

pub open spec fn pom_dists(p: Pom) -> Seq<Repository> {
    match p.distribution_management {
        Some(rs) => rs.repositories@,
        None => Seq::empty(),
    }
}

/// The descriptor declares `u` as an external repository.
pub open spec fn pom_has_repo(p: Pom, u: Seq<char>) -> bool {
    exists|k: int| 0 <= k < pom_repos(p).len() && #[trigger] pom_repos(p)[k].url@ == u
}

/// The descriptor declares `u` as a distribution repository.
pub open spec fn pom_has_dist(p: Pom, u: Seq<char>) -> bool {
    exists|k: int| 0 <= k < pom_dists(p).len() && #[trigger] pom_dists(p)[k].url@ == u
}

/// Some descriptor of the set declares `u` as an external repository.
pub open spec fn poms_have_repo(poms: Seq<Pom>, u: Seq<char>) -> bool {
    exists|i: int| 0 <= i < poms.len() && #[trigger] pom_has_repo(poms[i], u)
}

/// Some descriptor of the set declares `u` as a distribution repository.
pub open spec fn poms_have_dist(poms: Seq<Pom>, u: Seq<char>) -> bool {
    exists|i: int| 0 <= i < poms.len() && #[trigger] pom_has_dist(poms[i], u)
}

/// Appends `s` unless an equal value is already present.
fn insert_unique(v: &mut Vec<String>, s: String)
    requires
        strutil::distinct_views(old(v)@),
    ensures
        strutil::distinct_views(final(v)@),
        final(v)@ == (if strutil::contains_view(old(v)@, s@) {
            old(v)@
        } else {
            old(v)@.push(s)
        }),
{
    let n = v.len();
    let mut i: usize = 0;
    while i < n
        invariant
            n == v@.len(),
            i <= n,
            v@ == old(v)@,
            strutil::distinct_views(v@),
            forall|k: int| 0 <= k < i ==> #[trigger] v@[k]@ != s@,
        decreases n - i,
    {
        if v[i].eq(&s) {
            return ;
        }
        i += 1;
    }
    let ghost before = v@;
    v.push(s);
    proof {
        assert forall|i: int, j: int| 0 <= i < j < v@.len() implies #[trigger] v@[i]@
            != #[trigger] v@[j]@ by {
            if j < before.len() {
                assert(v@[i] == before[i] && v@[j] == before[j]);
            } else {
                assert(v@[i] == before[i] && v@[j]@ == s@);
            }
        }
    }
}

/// Absorbs one section's URLs into a running distinct set.
fn absorb_urls(set: &mut Vec<String>, list: &Vec<Repository>)
    requires
        strutil::distinct_views(old(set)@),
    ensures
        strutil::distinct_views(final(set)@),
        forall|u: Seq<char>|
            strutil::contains_view(final(set)@, u) <==> (strutil::contains_view(old(set)@, u) || (
            exists|k: int| 0 <= k < list@.len() && #[trigger] list@[k].url@ == u)),
{
    let m = list.len();
    let mut j: usize = 0;
    while j < m
        invariant
            m == list@.len(),
            j <= m,
            strutil::distinct_views(set@),
            forall|u: Seq<char>|
                strutil::contains_view(set@, u) <==> (strutil::contains_view(old(set)@, u) || (
                exists|k: int| 0 <= k < j && #[trigger] list@[k].url@ == u)),
        decreases m - j,
    {
        let url = list[j].url.clone();
        let ghost before = set@;
        insert_unique(set, url);
        proof {
            assert forall|u: Seq<char>|
                strutil::contains_view(set@, u) <==> (strutil::contains_view(old(set)@, u) || (
                exists|k: int| 0 <= k < j + 1 && #[trigger] list@[k].url@ == u)) by {
                if strutil::contains_view(set@, u) {
                    if !strutil::contains_view(before, u) {
                        assert(u == list@[j as int].url@);
                    }
                }
                if strutil::contains_view(old(set)@, u) || (exists|k: int|
                    0 <= k < j + 1 && #[trigger] list@[k].url@ == u) {
                    if strutil::contains_view(before, u) {
                        let w = choose|w: int|
                            0 <= w < before.len() && #[trigger] before[w]@ == u;
                        if strutil::contains_view(before, list@[j as int].url@) {
                            assert(set@ == before);
                            assert(set@[w]@ == u);
                        } else {
                            assert(set@[w]@ == u);
                        }
                    } else {
                        assert(u == list@[j as int].url@);
                        assert(set@ == before.push(list@[j as int].url));
                        assert(set@[set@.len() - 1]@ == u);
                    }
                }
            }
        }
        j += 1;
    }
}


proof fn lemma_repo_union_step(
    outer_sub: Seq<Pom>,
    outer_ext: Seq<Pom>,
    p: Pom,
    set_before: Seq<String>,
    set_now: Seq<String>,
)
    requires
        outer_ext.drop_last() == outer_sub,
        outer_ext.len() == outer_sub.len() + 1,
        outer_ext.last() == p,
        forall|u: Seq<char>|
            strutil::contains_view(set_before, u) <==> poms_have_repo(outer_sub, u),
        forall|u: Seq<char>|
            strutil::contains_view(set_now, u) <==> (strutil::contains_view(set_before, u)
                || pom_has_repo(p, u)),
    ensures
        forall|u: Seq<char>| strutil::contains_view(set_now, u) <==> poms_have_repo(outer_ext, u),
{
    let i = outer_sub.len() as int;
    assert(outer_ext[i] == p);
    assert forall|u: Seq<char>|
        strutil::contains_view(set_now, u) <==> poms_have_repo(outer_ext, u) by {
        if strutil::contains_view(set_now, u) {
            if strutil::contains_view(set_before, u) {
                let wi = choose|wi: int|
                    0 <= wi < outer_sub.len() && #[trigger] pom_has_repo(outer_sub[wi], u);
                assert(outer_ext[wi] == outer_sub[wi]);
                assert(pom_has_repo(outer_ext[wi], u));
            } else {
                assert(pom_has_repo(outer_ext[i], u));
            }
        }
        if poms_have_repo(outer_ext, u) {
            let wi = choose|wi: int|
                0 <= wi < outer_ext.len() && #[trigger] pom_has_repo(outer_ext[wi], u);
            if wi < i {
                assert(outer_sub[wi] == outer_ext[wi]);
                assert(pom_has_repo(outer_sub[wi], u));
                assert(poms_have_repo(outer_sub, u));
            } else {
                assert(pom_has_repo(p, u));
            }
        }
    }
}

proof fn lemma_dist_union_step(
    outer_sub: Seq<Pom>,
    outer_ext: Seq<Pom>,
    p: Pom,
    set_before: Seq<String>,
    set_now: Seq<String>,
)
    requires
        outer_ext.drop_last() == outer_sub,
        outer_ext.len() == outer_sub.len() + 1,
        outer_ext.last() == p,
        forall|u: Seq<char>|
            strutil::contains_view(set_before, u) <==> poms_have_dist(outer_sub, u),
        forall|u: Seq<char>|
            strutil::contains_view(set_now, u) <==> (strutil::contains_view(set_before, u)
                || pom_has_dist(p, u)),
    ensures
        forall|u: Seq<char>| strutil::contains_view(set_now, u) <==> poms_have_dist(outer_ext, u),
{
    let i = outer_sub.len() as int;
    assert(outer_ext[i] == p);
    assert forall|u: Seq<char>|
        strutil::contains_view(set_now, u) <==> poms_have_dist(outer_ext, u) by {
        if strutil::contains_view(set_now, u) {
            if strutil::contains_view(set_before, u) {
                let wi = choose|wi: int|
                    0 <= wi < outer_sub.len() && #[trigger] pom_has_dist(outer_sub[wi], u);
                assert(outer_ext[wi] == outer_sub[wi]);
                assert(pom_has_dist(outer_ext[wi], u));
            } else {
                assert(pom_has_dist(outer_ext[i], u));
            }
        }
        if poms_have_dist(outer_ext, u) {
            let wi = choose|wi: int|
                0 <= wi < outer_ext.len() && #[trigger] pom_has_dist(outer_ext[wi], u);
            if wi < i {
                assert(outer_sub[wi] == outer_ext[wi]);
                assert(pom_has_dist(outer_sub[wi], u));
                assert(poms_have_dist(outer_sub, u));
            } else {
                assert(pom_has_dist(p, u));
            }
        }
    }
}

/// Collects one project from its descriptors: its distinct external and
/// distribution repository URLs, exactly those some descriptor declares.
#[verifier::rlimit(60)]
pub fn collect_project(name: String, poms: &Vec<Pom>) -> (p: Project)
    ensures
        p.name == name,
        strutil::distinct_views(p.repos@),
        strutil::distinct_views(p.dist_repos@),
        forall|u: Seq<char>| strutil::contains_view(p.repos@, u) <==> poms_have_repo(poms@, u),
        forall|u: Seq<char>| strutil::contains_view(p.dist_repos@, u) <==> poms_have_dist(poms@, u),
{
    let n = poms.len();
    let mut repos: Vec<String> = Vec::new();
    let mut dist_repos: Vec<String> = Vec::new();
    let mut i: usize = 0;
    while i < n
        invariant
            n == poms@.len(),
            i <= n,
            strutil::distinct_views(repos@),
            strutil::distinct_views(dist_repos@),
            forall|u: Seq<char>|
                strutil::contains_view(repos@, u) <==> poms_have_repo(
                    poms@.subrange(0, i as int),
                    u,
                ),
            forall|u: Seq<char>|
                strutil::contains_view(dist_repos@, u) <==> poms_have_dist(
                    poms@.subrange(0, i as int),
                    u,
                ),
        decreases n - i,
    {
        let ghost outer_sub = poms@.subrange(0, i as int);
        let ghost outer_ext = poms@.subrange(0, i + 1);
        let ghost repos_before = repos@;
        let ghost dists_before = dist_repos@;
        let pom = &poms[i];
        match &pom.repositories {
            Some(inner) => {
                absorb_urls(&mut repos, &inner.repositories);
                proof {
                    assert(pom_repos(poms@[i as int]) == inner.repositories@);
                    assert(forall|u: Seq<char>|
                        strutil::contains_view(repos@, u) <==> (strutil::contains_view(
                            repos_before,
                            u,
                        ) || pom_has_repo(poms@[i as int], u)));
                }
            },
            None => {
                proof {
                    assert(pom_repos(poms@[i as int]).len() == 0);
                    assert(forall|u: Seq<char>|
                        strutil::contains_view(repos@, u) <==> (strutil::contains_view(
                            repos_before,
                            u,
                        ) || pom_has_repo(poms@[i as int], u)));
                }
            },
        }
        match &pom.distribution_management {
            Some(inner) => {
                absorb_urls(&mut dist_repos, &inner.repositories);
                proof {
                    assert(pom_dists(poms@[i as int]) == inner.repositories@);
                    assert(forall|u: Seq<char>|
                        strutil::contains_view(dist_repos@, u) <==> (strutil::contains_view(
                            dists_before,
                            u,
                        ) || pom_has_dist(poms@[i as int], u)));
                }
            },
            None => {
                proof {
                    assert(pom_dists(poms@[i as int]).len() == 0);
                    assert(forall|u: Seq<char>|
                        strutil::contains_view(dist_repos@, u) <==> (strutil::contains_view(
                            dists_before,
                            u,
                        ) || pom_has_dist(poms@[i as int], u)));
                }
            },
        }
        proof {
            assert(outer_ext.drop_last() =~= outer_sub);
            assert(outer_ext.last() == poms@[i as int]);
            lemma_repo_union_step(outer_sub, outer_ext, poms@[i as int], repos_before, repos@);
            lemma_dist_union_step(
                outer_sub,
                outer_ext,
                poms@[i as int],
                dists_before,
                dist_repos@,
            );
        }
        i += 1;
    }
    proof {
        assert(poms@.subrange(0, n as int) =~= poms@);
    }
    Project { name, repos, dist_repos }
}

/// The canonical central repository, not counted as external.
pub open spec fn central() -> Seq<char> {
    "https://repo.maven.apache.org/maven2"@
}

/// The count recorded for key `k`, if the key is present.
pub open spec fn lookup(counts: Seq<(String, usize)>, k: Seq<char>) -> Option<int>
    decreases counts.len(),
{
    if counts.len() == 0 {
        None
    } else if counts[0].0@ == k {
        Some(counts[0].1 as int)
    } else {
        lookup(counts.drop_first(), k)
    }
}

pub open spec fn distinct_keys(counts: Seq<(String, usize)>) -> bool {
    forall|i: int, j: int|
        0 <= i < j < counts.len() ==> (#[trigger] counts[i]).0@ != (#[trigger] counts[j]).0@
}

proof fn lemma_drop_first_distinct(counts: Seq<(String, usize)>)
    requires
        distinct_keys(counts),
        counts.len() > 0,
    ensures
        distinct_keys(counts.drop_first()),
        forall|i: int|
            0 <= i < counts.drop_first().len() ==> #[trigger] counts.drop_first()[i] == counts[i
                + 1],
{
    let rest = counts.drop_first();
    assert forall|a: int, b: int|
        0 <= a < b < rest.len() implies (#[trigger] rest[a]).0@ != (#[trigger] rest[b]).0@ by {
        assert(rest[a] == counts[a + 1] && rest[b] == counts[b + 1]);
    }
}

proof fn lemma_lookup_at(counts: Seq<(String, usize)>, i: int)
    requires
        distinct_keys(counts),
        0 <= i < counts.len(),
    ensures
        lookup(counts, counts[i].0@) == Some(counts[i].1 as int),
    decreases i,
{
    if i > 0 {
        lemma_drop_first_distinct(counts);
        let rest = counts.drop_first();
        assert(counts[0].0@ != counts[i].0@);
        lemma_lookup_at(rest, i - 1);
        assert(rest[i - 1] == counts[i]);
    }
}

proof fn lemma_lookup_absent(counts: Seq<(String, usize)>, k: Seq<char>)
    requires
        forall|i: int| 0 <= i < counts.len() ==> (#[trigger] counts[i]).0@ != k,
    ensures
        lookup(counts, k) is None,
    decreases counts.len(),
{
    if counts.len() > 0 {
        let rest = counts.drop_first();
        assert(forall|i: int| 0 <= i < rest.len() ==> (#[trigger] rest[i]) == counts[i + 1]);
        lemma_lookup_absent(rest, k);
    }
}

proof fn lemma_lookup_update(counts: Seq<(String, usize)>, i: int, v: usize)
    requires
        distinct_keys(counts),
        0 <= i < counts.len(),
    ensures
        distinct_keys(counts.update(i, (counts[i].0, v))),
        lookup(counts.update(i, (counts[i].0, v)), counts[i].0@) == Some(v as int),
        forall|k: Seq<char>|
            k != counts[i].0@ ==> #[trigger] lookup(counts.update(i, (counts[i].0, v)), k)
                == lookup(counts, k),
    decreases i,
{
    let updated = counts.update(i, (counts[i].0, v));
    assert(distinct_keys(updated)) by {
        assert(forall|a: int| 0 <= a < updated.len() ==> (#[trigger] updated[a]).0 == counts[a].0);
    }
    if i == 0 {
        assert(updated[0] == (counts[0].0, v));
        assert forall|k: Seq<char>| k != counts[0].0@ implies #[trigger] lookup(updated, k)
            == lookup(counts, k) by {
            assert(updated.drop_first() =~= counts.drop_first());
            assert(lookup(updated, k) == lookup(updated.drop_first(), k));
            assert(lookup(counts, k) == lookup(counts.drop_first(), k));
        }
    } else {
        lemma_drop_first_distinct(counts);
        let rest = counts.drop_first();
        assert(rest[i - 1] == counts[i]);
        lemma_lookup_update(rest, i - 1, v);
        assert(updated.drop_first() =~= rest.update(i - 1, (rest[i - 1].0, v)));
        assert(updated[0] == counts[0]);
        assert(counts[0].0@ != counts[i].0@);
        assert(lookup(updated, counts[i].0@) == lookup(updated.drop_first(), counts[i].0@));
        assert forall|k: Seq<char>| k != counts[i].0@ implies #[trigger] lookup(updated, k)
            == lookup(counts, k) by {
            if counts[0].0@ == k {
                assert(lookup(updated, k) == Some(updated[0].1 as int));
                assert(lookup(counts, k) == Some(counts[0].1 as int));
            } else {
                assert(lookup(updated, k) == lookup(updated.drop_first(), k));
                assert(lookup(counts, k) == lookup(rest, k));
                assert(lookup(rest.update(i - 1, (rest[i - 1].0, v)), k) == lookup(rest, k));
            }
        }
    }
}

proof fn lemma_lookup_push(counts: Seq<(String, usize)>, pair: (String, usize))
    requires
        distinct_keys(counts),
        forall|i: int| 0 <= i < counts.len() ==> (#[trigger] counts[i]).0@ != pair.0@,
    ensures
        distinct_keys(counts.push(pair)),
        lookup(counts.push(pair), pair.0@) == Some(pair.1 as int),
        forall|k: Seq<char>|
            k != pair.0@ ==> #[trigger] lookup(counts.push(pair), k) == lookup(counts, k),
    decreases counts.len(),
{
    let pushed = counts.push(pair);
    assert(distinct_keys(pushed)) by {
        assert forall|a: int, b: int|
            0 <= a < b < pushed.len() implies (#[trigger] pushed[a]).0@ != (
        #[trigger] pushed[b]).0@ by {
            if b < counts.len() {
                assert(pushed[a] == counts[a] && pushed[b] == counts[b]);
            } else {
                assert(pushed[a] == counts[a] && pushed[b] == pair);
            }
        }
    }
    if counts.len() == 0 {
        assert(pushed[0] == pair);
        assert(pushed.drop_first() =~= Seq::<(String, usize)>::empty());
        assert forall|k: Seq<char>| k != pair.0@ implies #[trigger] lookup(pushed, k) == lookup(
            counts,
            k,
        ) by {
            assert(lookup(pushed, k) == lookup(pushed.drop_first(), k));
        }
    } else {
        lemma_drop_first_distinct(counts);
        let rest = counts.drop_first();
        lemma_lookup_push(rest, pair);
        assert(pushed.drop_first() =~= rest.push(pair));
        assert(pushed[0] == counts[0]);
        assert(lookup(pushed, pair.0@) == lookup(pushed.drop_first(), pair.0@));
        assert forall|k: Seq<char>| k != pair.0@ implies #[trigger] lookup(pushed, k) == lookup(
            counts,
            k,
        ) by {
            if counts[0].0@ == k {
                assert(lookup(pushed, k) == Some(pushed[0].1 as int));
            } else {
                assert(lookup(pushed, k) == lookup(pushed.drop_first(), k));
                assert(lookup(counts, k) == lookup(rest, k));
                assert(lookup(rest.push(pair), k) == lookup(rest, k));
            }
        }
    }
}

/// Raises `key`'s count by `amount`, inserting the key on first sight.
fn add_count(counts: &mut Vec<(String, usize)>, key: &String, amount: usize)
    requires
        distinct_keys(old(counts)@),
        match lookup(old(counts)@, key@) {
            Some(c) => c + amount <= usize::MAX,
            None => true,
        },
    ensures
        distinct_keys(final(counts)@),
        lookup(final(counts)@, key@) == Some(
            match lookup(old(counts)@, key@) {
                Some(c) => c + amount,
                None => amount as int,
            },
        ),
        forall|k: Seq<char>|
            k != key@ ==> #[trigger] lookup(final(counts)@, k) == lookup(old(counts)@, k),
{
    let n = counts.len();
    let mut i: usize = 0;
    while i < n
        invariant
            n == counts@.len(),
            i <= n,
            counts@ == old(counts)@,
            distinct_keys(counts@),
            match lookup(counts@, key@) {
                Some(c) => c + amount <= usize::MAX,
                None => true,
            },
            forall|k: int| 0 <= k < i ==> (#[trigger] counts@[k]).0@ != key@,
        decreases n - i,
    {
        if counts[i].0.eq(key) {
            proof {
                lemma_lookup_at(counts@, i as int);
            }
            let c = counts[i].1;
            let k2 = counts[i].0.clone();
            let ghost before = counts@;
            counts[i] = (k2, c + amount);
            proof {
                assert(counts@ =~= before.update(
                    i as int,
                    (before[i as int].0, (c + amount) as usize),
                ));
                lemma_lookup_update(before, i as int, (c + amount) as usize);
            }
            return ;
        }
        i += 1;
    }
    proof {
        lemma_lookup_absent(counts@, key@);
    }
    let ghost before = counts@;
    let pair = (key.clone(), amount);
    let ghost gp = pair;
    counts.push(pair);
    proof {
        lemma_lookup_push(before, gp);
        assert(counts@ =~= before.push(gp));
    }
}

/// How many projects declare `u` as an external repository; the central
/// repository is never counted.
pub open spec fn count_repo(projects: Seq<Project>, u: Seq<char>) -> int
    decreases projects.len(),
{
    if projects.len() == 0 {
        0
    } else {
        count_repo(projects.drop_last(), u) + (if u != central() && strutil::contains_view(
            projects.last().repos@,
            u,
        ) {
            1int
        } else {
            0int
        })
    }
}

/// How many projects declare `u` as a distribution repository.
pub open spec fn count_dist(projects: Seq<Project>, u: Seq<char>) -> int
    decreases projects.len(),
{
    if projects.len() == 0 {
        0
    } else {
        count_dist(projects.drop_last(), u) + (if strutil::contains_view(
            projects.last().dist_repos@,
            u,
        ) {
            1int
        } else {
            0int
        })
    }
}

/// The project declares some repository besides the central one.
pub open spec fn has_noncentral(p: Project) -> bool {
    exists|j: int| 0 <= j < p.repos@.len() && #[trigger] p.repos@[j]@ != central()
}

pub open spec fn count_noncentral(projects: Seq<Project>) -> int
    decreases projects.len(),
{
    if projects.len() == 0 {
        0
    } else {
        count_noncentral(projects.drop_last()) + (if has_noncentral(projects.last()) {
            1int
        } else {
            0int
        })
    }
}

/// The names of the projects that declare distribution repositories, in
/// input order.
pub open spec fn dist_names(projects: Seq<Project>) -> Seq<String>
    decreases projects.len(),
{
    if projects.len() == 0 {
        Seq::empty()
    } else {
        dist_names(projects.drop_last()) + (if projects.last().dist_repos@.len() > 0 {
            seq![projects.last().name]
        } else {
            Seq::empty()
        })
    }
}

proof fn lemma_count_bounds(projects: Seq<Project>, u: Seq<char>)
    ensures
        0 <= count_repo(projects, u) <= projects.len(),
        0 <= count_dist(projects, u) <= projects.len(),
        0 <= count_noncentral(projects) <= projects.len(),
    decreases projects.len(),
{
    if projects.len() > 0 {
        lemma_count_bounds(projects.drop_last(), u);
    }
}

/// The analysis report over one set of projects.
pub struct Report {
    pub distros: Vec<(String, usize)>,
    pub external_repos: Vec<(String, usize)>,
    pub has_external_repos: usize,
    pub has_distro_repos: Vec<String>,
    pub errors: Vec<String>,
    pub total: usize,
}

fn project_has_noncentral(p: &Project) -> (r: bool)
    ensures
        r == has_noncentral(*p),
{
    let central_url: String = "https://repo.maven.apache.org/maven2".to_owned();
    let n = p.repos.len();
    let mut i: usize = 0;
    while i < n
        invariant
            n == p.repos@.len(),
            i <= n,
            central_url@ == central(),
            forall|k: int| 0 <= k < i ==> #[trigger] p.repos@[k]@ == central(),
        decreases n - i,
    {
        if !p.repos[i].eq(&central_url) {
            return true;
        }
        i += 1;
    }
    false
}

/// Folds the per-project results into the report: how often each external
/// repository URL is declared (the central repository excluded), how often
/// each distribution URL is declared, how many projects have external or
/// distribution repositories at all, and the run's collected errors.
pub fn aggregate(projects: &Vec<Project>, errors: Vec<String>) -> (r: Report)
    requires
        forall|i: int|
            0 <= i < projects@.len() ==> strutil::distinct_views((#[trigger] projects@[i]).repos@)
                && strutil::distinct_views(projects@[i].dist_repos@),
    ensures
        r.total == projects@.len(),
        r.has_external_repos as int == count_noncentral(projects@),
        r.has_distro_repos@ == dist_names(projects@),
        r.errors == errors,
        distinct_keys(r.external_repos@),
        distinct_keys(r.distros@),
        forall|u: Seq<char>|
            #[trigger] lookup(r.external_repos@, u) == (if count_repo(projects@, u) > 0 {
                Some(count_repo(projects@, u))
            } else {
                None::<int>
            }),
        forall|u: Seq<char>|
            #[trigger] lookup(r.distros@, u) == (if count_dist(projects@, u) > 0 {
                Some(count_dist(projects@, u))
            } else {
                None::<int>
            }),
{
    let central_url: String = "https://repo.maven.apache.org/maven2".to_owned();
    let n = projects.len();
    let mut ext: Vec<(String, usize)> = Vec::new();
    let mut dist: Vec<(String, usize)> = Vec::new();
    let mut has_ext: usize = 0;
    let mut names: Vec<String> = Vec::new();
    let mut i: usize = 0;
    proof {
        assert(projects@.subrange(0, 0) =~= Seq::<Project>::empty());
        assert(names@ =~= dist_names(projects@.subrange(0, 0)));
    }
    while i < n
        invariant
            n == projects@.len(),
            i <= n,
            central_url@ == central(),
            forall|pi: int|
                0 <= pi < projects@.len() ==> strutil::distinct_views(
                    (#[trigger] projects@[pi]).repos@,
                ) && strutil::distinct_views(projects@[pi].dist_repos@),
            distinct_keys(ext@),
            distinct_keys(dist@),
            has_ext as int == count_noncentral(projects@.subrange(0, i as int)),
            names@ == dist_names(projects@.subrange(0, i as int)),
            forall|u: Seq<char>|
                #[trigger] lookup(ext@, u) == (if count_repo(projects@.subrange(0, i as int), u)
                    > 0 {
                    Some(count_repo(projects@.subrange(0, i as int), u))
                } else {
                    None::<int>
                }),
            forall|u: Seq<char>|
                #[trigger] lookup(dist@, u) == (if count_dist(projects@.subrange(0, i as int), u)
                    > 0 {
                    Some(count_dist(projects@.subrange(0, i as int), u))
                } else {
                    None::<int>
                }),
        decreases n - i,
    {
        let ghost outer_sub = projects@.subrange(0, i as int);
        let ghost outer_ext = projects@.subrange(0, i + 1);
        proof {
            assert(outer_ext.drop_last() =~= outer_sub);
            assert(outer_ext.last() == projects@[i as int]);
        }
        let p = &projects[i];
        // tally this project's external repositories, skipping central
        let m = p.repos.len();
        let mut j: usize = 0;
        while j < m
            invariant
                n == projects@.len(),
                i < n,
                m == p.repos@.len(),
                j <= m,
                *p == projects@[i as int],
                central_url@ == central(),
                strutil::distinct_views(p.repos@),
                outer_sub == projects@.subrange(0, i as int),
                distinct_keys(ext@),
                forall|u: Seq<char>|
                    #[trigger] lookup(ext@, u) == ({
                        let c = count_repo(outer_sub, u) + (if u != central()
                            && strutil::contains_view(p.repos@.subrange(0, j as int), u) {
                            1int
                        } else {
                            0int
                        });
                        if c > 0 {
                            Some(c)
                        } else {
                            None::<int>
                        }
                    }),
            decreases m - j,
        {
            let ghost inner_sub = p.repos@.subrange(0, j as int);
            let ghost inner_ext = p.repos@.subrange(0, j + 1);
            proof {
                assert(forall|k: int| 0 <= k < j ==> inner_sub[k] == #[trigger] inner_ext[k]);
                assert(inner_ext[j as int] == p.repos@[j as int]);
            }
            let url = &p.repos[j];
            if !url.eq(&central_url) {
                proof {
                    lemma_count_bounds(outer_sub, url@);
                    assert(!strutil::contains_view(inner_sub, url@)) by {
                        if strutil::contains_view(inner_sub, url@) {
                            let w = choose|w: int|
                                0 <= w < inner_sub.len() && #[trigger] inner_sub[w]@ == url@;
                            assert(p.repos@[w]@ == p.repos@[j as int]@);
                        }
                    }
                }
                let ghost before = ext@;
                add_count(&mut ext, url, 1);
                proof {
                    assert forall|u: Seq<char>|
                        #[trigger] lookup(ext@, u) == ({
                            let c = count_repo(outer_sub, u) + (if u != central()
                                && strutil::contains_view(inner_ext, u) {
                                1int
                            } else {
                                0int
                            });
                            if c > 0 {
                                Some(c)
                            } else {
                                None::<int>
                            }
                        }) by {
                        if u == url@ {
                            assert(strutil::contains_view(inner_ext, u)) by {
                                assert(inner_ext[j as int]@ == u);
                            }
                        } else {
                            assert(lookup(ext@, u) == lookup(before, u));
                            assert(strutil::contains_view(inner_ext, u) == strutil::contains_view(
                                inner_sub,
                                u,
                            )) by {
                                if strutil::contains_view(inner_ext, u) {
                                    let w = choose|w: int|
                                        0 <= w < inner_ext.len() && #[trigger] inner_ext[w]@ == u;
                                    assert(w != j);
                                    assert(inner_sub[w]@ == u);
                                }
                                if strutil::contains_view(inner_sub, u) {
                                    let w = choose|w: int|
                                        0 <= w < inner_sub.len() && #[trigger] inner_sub[w]@ == u;
                                    assert(inner_ext[w]@ == u);
                                }
                            }
                        }
                    }
                }
            } else {
                proof {
                    assert forall|u: Seq<char>|
                        #[trigger] lookup(ext@, u) == ({
                            let c = count_repo(outer_sub, u) + (if u != central()
                                && strutil::contains_view(inner_ext, u) {
                                1int
                            } else {
                                0int
                            });
                            if c > 0 {
                                Some(c)
                            } else {
                                None::<int>
                            }
                        }) by {
                        if u != central() {
                            assert(strutil::contains_view(inner_ext, u) == strutil::contains_view(
                                inner_sub,
                                u,
                            )) by {
                                if strutil::contains_view(inner_ext, u) {
                                    let w = choose|w: int|
                                        0 <= w < inner_ext.len() && #[trigger] inner_ext[w]@ == u;
                                    assert(w != j);
                                    assert(inner_sub[w]@ == u);
                                }
                                if strutil::contains_view(inner_sub, u) {
                                    let w = choose|w: int|
                                        0 <= w < inner_sub.len() && #[trigger] inner_sub[w]@ == u;
                                    assert(inner_ext[w]@ == u);
                                }
                            }
                        }
                    }
                }
            }
            j += 1;
        }
        proof {
            assert(p.repos@.subrange(0, m as int) =~= p.repos@);
            assert forall|u: Seq<char>|
                #[trigger] lookup(ext@, u) == (if count_repo(outer_ext, u) > 0 {
                    Some(count_repo(outer_ext, u))
                } else {
                    None::<int>
                }) by {
                assert(count_repo(outer_ext, u) == count_repo(outer_sub, u) + (if u != central()
                    && strutil::contains_view(projects@[i as int].repos@, u) {
                    1int
                } else {
                    0int
                }));
            }
        }
        // tally this project's distribution repositories
        let m2 = p.dist_repos.len();
        let mut j2: usize = 0;
        while j2 < m2
            invariant
                n == projects@.len(),
                i < n,
                m2 == p.dist_repos@.len(),
                j2 <= m2,
                *p == projects@[i as int],
                strutil::distinct_views(p.dist_repos@),
                outer_sub == projects@.subrange(0, i as int),
                distinct_keys(dist@),
                forall|u: Seq<char>|
                    #[trigger] lookup(dist@, u) == ({
                        let c = count_dist(outer_sub, u) + (if strutil::contains_view(
                            p.dist_repos@.subrange(0, j2 as int),
                            u,
                        ) {
                            1int
                        } else {
                            0int
                        });
                        if c > 0 {
                            Some(c)
                        } else {
                            None::<int>
                        }
                    }),
            decreases m2 - j2,
        {
            let ghost inner_sub = p.dist_repos@.subrange(0, j2 as int);
            let ghost inner_ext = p.dist_repos@.subrange(0, j2 + 1);
            proof {
                assert(forall|k: int| 0 <= k < j2 ==> inner_sub[k] == #[trigger] inner_ext[k]);
                assert(inner_ext[j2 as int] == p.dist_repos@[j2 as int]);
            }
            let url = &p.dist_repos[j2];
            proof {
                lemma_count_bounds(outer_sub, url@);
                assert(!strutil::contains_view(inner_sub, url@)) by {
                    if strutil::contains_view(inner_sub, url@) {
                        let w = choose|w: int|
                            0 <= w < inner_sub.len() && #[trigger] inner_sub[w]@ == url@;
                        assert(p.dist_repos@[w]@ == p.dist_repos@[j2 as int]@);
                    }
                }
            }
            let ghost before = dist@;
            add_count(&mut dist, url, 1);
            proof {
                assert forall|u: Seq<char>|
                    #[trigger] lookup(dist@, u) == ({
                        let c = count_dist(outer_sub, u) + (if strutil::contains_view(
                            inner_ext,
                            u,
                        ) {
                            1int
                        } else {
                            0int
                        });
                        if c > 0 {
                            Some(c)
                        } else {
                            None::<int>
                        }
                    }) by {
                    if u == url@ {
                        assert(strutil::contains_view(inner_ext, u)) by {
                            assert(inner_ext[j2 as int]@ == u);
                        }
                    } else {
                        assert(lookup(dist@, u) == lookup(before, u));
                        assert(strutil::contains_view(inner_ext, u) == strutil::contains_view(
                            inner_sub,
                            u,
                        )) by {
                            if strutil::contains_view(inner_ext, u) {
                                let w = choose|w: int|
                                    0 <= w < inner_ext.len() && #[trigger] inner_ext[w]@ == u;
                                assert(w != j2);
                                assert(inner_sub[w]@ == u);
                            }
                            if strutil::contains_view(inner_sub, u) {
                                let w = choose|w: int|
                                    0 <= w < inner_sub.len() && #[trigger] inner_sub[w]@ == u;
                                assert(inner_ext[w]@ == u);
                            }
                        }
                    }
                }
            }
            j2 += 1;
        }
        proof {
            assert(p.dist_repos@.subrange(0, m2 as int) =~= p.dist_repos@);
            assert forall|u: Seq<char>|
                #[trigger] lookup(dist@, u) == (if count_dist(outer_ext, u) > 0 {
                    Some(count_dist(outer_ext, u))
                } else {
                    None::<int>
                }) by {
                assert(count_dist(outer_ext, u) == count_dist(outer_sub, u) + (if
                    strutil::contains_view(projects@[i as int].dist_repos@, u) {
                    1int
                } else {
                    0int
                }));
            }
        }
        if project_has_noncentral(p) {
            proof {
                lemma_count_bounds(outer_sub, central());
            }
            has_ext += 1;
        }
        if p.dist_repos.len() > 0 {
            names.push(p.name.clone());
            proof {
                assert(names@ =~= dist_names(outer_sub).push(projects@[i as int].name));
                assert(dist_names(outer_ext) =~= dist_names(outer_sub).push(
                    projects@[i as int].name,
                ));
            }
        } else {
            proof {
                assert(dist_names(outer_ext) =~= dist_names(outer_sub));
            }
        }
        i += 1;
    }
    proof {
        assert(projects@.subrange(0, n as int) =~= projects@);
    }
    Report {
        distros: dist,
        external_repos: ext,
        has_external_repos: has_ext,
        has_distro_repos: names,
        errors,
        total: n,
    }
}


/// What the URL library reports as the host of a URL string; a function of
/// the string alone.
pub uninterp spec fn url_host_of(s: Seq<char>) -> Option<Seq<char>>;

/// Relies on url::Url::parse and url::Url::host_str: parsing, and the host
/// of the parsed URL, depend on the URL string alone.
#[verifier::external_body]
fn host_of(s: &str) -> (r: Option<String>)
    ensures
        match r {
            Some(h) => url_host_of(s@) == Some(h@),
            None => url_host_of(s@) is None,
        },
{
    match url::Url::parse(s) {
        Ok(u) => match u.host_str() {
            Some(h) => Some(h.to_string()),
            None => None,
        },
        Err(_) => None,
    }
}

/// The total of all recorded counts.
pub open spec fn total_counts(entries: Seq<(String, usize)>) -> int
    decreases entries.len(),
{
    if entries.len() == 0 {
        0
    } else {
        total_counts(entries.drop_last()) + entries.last().1
    }
}

/// The counts attributed to host `h`.
pub open spec fn host_sum(entries: Seq<(String, usize)>, h: Seq<char>) -> int
    decreases entries.len(),
{
    if entries.len() == 0 {
        0
    } else {
        host_sum(entries.drop_last(), h) + (if url_host_of(entries.last().0@) == Some(h) {
            entries.last().1 as int
        } else {
            0int
        })
    }
}

/// The number of entries whose URL has host `h`.
pub open spec fn host_entry_count(entries: Seq<(String, usize)>, h: Seq<char>) -> int
    decreases entries.len(),
{
    if entries.len() == 0 {
        0
    } else {
        host_entry_count(entries.drop_last(), h) + (if url_host_of(entries.last().0@) == Some(h) {
            1int
        } else {
            0int
        })
    }
}

/// Some entry's URL has host `h`.
pub open spec fn host_present(entries: Seq<(String, usize)>, h: Seq<char>) -> bool {
    exists|i: int| 0 <= i < entries.len() && url_host_of((#[trigger] entries[i]).0@) == Some(h)
}

proof fn lemma_host_bounds(entries: Seq<(String, usize)>, h: Seq<char>)
    ensures
        0 <= host_sum(entries, h) <= total_counts(entries),
        0 <= host_entry_count(entries, h) <= entries.len(),
        total_counts(entries) >= 0,
        !host_present(entries, h) ==> host_sum(entries, h) == 0 && host_entry_count(entries, h)
            == 0,
    decreases entries.len(),
{
    if entries.len() > 0 {
        lemma_host_bounds(entries.drop_last(), h);
        if !host_present(entries, h) {
            assert(!host_present(entries.drop_last(), h)) by {
                if host_present(entries.drop_last(), h) {
                    let w = choose|w: int|
                        0 <= w < entries.drop_last().len() && url_host_of(
                            (#[trigger] entries.drop_last()[w]).0@,
                        ) == Some(h);
                    assert(entries[w] == entries.drop_last()[w]);
                }
            }
            assert(entries.last() == entries[entries.len() - 1]);
        }
    }
}

proof fn lemma_total_counts_prefix(entries: Seq<(String, usize)>, j: int)
    requires
        0 <= j <= entries.len(),
    ensures
        total_counts(entries.subrange(0, j)) <= total_counts(entries),
    decreases entries.len() - j,
{
    if j == entries.len() {
        assert(entries.subrange(0, j) =~= entries);
    } else {
        let shorter = entries.subrange(0, j);
        let longer = entries.subrange(0, j + 1);
        assert(longer.drop_last() =~= shorter);
        assert(longer.last() == entries[j]);
        lemma_total_counts_prefix(entries, j + 1);
    }
}

/// Tallies recorded counts by the host of each URL: for every host, the
/// sum of the counts of the URLs it serves.
pub fn count_by_host(entries: &Vec<(String, usize)>) -> (r: Vec<(String, usize)>)
    requires
        total_counts(entries@) <= usize::MAX,
    ensures
        distinct_keys(r@),
        forall|h: Seq<char>|
            #[trigger] lookup(r@, h) == (if host_present(entries@, h) {
                Some(host_sum(entries@, h))
            } else {
                None::<int>
            }),
{
    let n = entries.len();
    let mut counts: Vec<(String, usize)> = Vec::new();
    let mut j: usize = 0;
    while j < n
        invariant
            n == entries@.len(),
            j <= n,
            total_counts(entries@) <= usize::MAX,
            distinct_keys(counts@),
            forall|h: Seq<char>|
                #[trigger] lookup(counts@, h) == (if host_present(entries@.subrange(0, j as int), h)
                     {
                    Some(host_sum(entries@.subrange(0, j as int), h))
                } else {
                    None::<int>
                }),
        decreases n - j,
    {
        let ghost sub = entries@.subrange(0, j as int);
        let ghost ext = entries@.subrange(0, j + 1);
        proof {
            assert(ext.drop_last() =~= sub);
            assert(ext.last() == entries@[j as int]);
        }
        let amount = entries[j].1;
        match host_of(entries[j].0.as_str()) {
            Some(host) => {
                proof {
                    lemma_host_bounds(sub, host@);
                    lemma_total_counts_prefix(entries@, j + 1);
                    assert(total_counts(ext) == total_counts(sub) + amount);
                    assert(host_sum(sub, host@) + amount <= usize::MAX);
                }
                let ghost before = counts@;
                add_count(&mut counts, &host, amount);
                proof {
                    assert forall|h: Seq<char>|
                        #[trigger] lookup(counts@, h) == (if host_present(ext, h) {
                            Some(host_sum(ext, h))
                        } else {
                            None::<int>
                        }) by {
                        if h == host@ {
                            assert(host_present(ext, h)) by {
                                assert(url_host_of(ext[j as int].0@) == Some(h));
                            }
                            assert(host_sum(ext, h) == host_sum(sub, h) + amount);
                            if !host_present(sub, h) {
                                lemma_host_bounds(sub, h);
                            }
                        } else {
                            assert(lookup(counts@, h) == lookup(before, h));
                            assert(host_sum(ext, h) == host_sum(sub, h));
                            assert(host_present(ext, h) == host_present(sub, h)) by {
                                if host_present(ext, h) {
                                    let w = choose|w: int|
                                        0 <= w < ext.len() && url_host_of(
                                            (#[trigger] ext[w]).0@,
                                        ) == Some(h);
                                    assert(w != j);
                                    assert(sub[w] == ext[w]);
                                }
                                if host_present(sub, h) {
                                    let w = choose|w: int|
                                        0 <= w < sub.len() && url_host_of(
                                            (#[trigger] sub[w]).0@,
                                        ) == Some(h);
                                    assert(ext[w] == sub[w]);
                                }
                            }
                        }
                    }
                }
            },
            None => {
                proof {
                    assert forall|h: Seq<char>|
                        #[trigger] lookup(counts@, h) == (if host_present(ext, h) {
                            Some(host_sum(ext, h))
                        } else {
                            None::<int>
                        }) by {
                        assert(host_sum(ext, h) == host_sum(sub, h));
                        assert(host_present(ext, h) == host_present(sub, h)) by {
                            if host_present(ext, h) {
                                let w = choose|w: int|
                                    0 <= w < ext.len() && url_host_of((#[trigger] ext[w]).0@)
                                        == Some(h);
                                assert(w != j);
                                assert(sub[w] == ext[w]);
                            }
                            if host_present(sub, h) {
                                let w = choose|w: int|
                                    0 <= w < sub.len() && url_host_of((#[trigger] sub[w]).0@)
                                        == Some(h);
                                assert(ext[w] == sub[w]);
                            }
                        }
                    }
                }
            },
        }
        j += 1;
    }
    proof {
        assert(entries@.subrange(0, n as int) =~= entries@);
    }
    counts
}

/// Counts, per host, how many distinct recorded URLs it serves.
pub fn distinct_repos_per_hostname(entries: &Vec<(String, usize)>) -> (r: Vec<(String, usize)>)
    ensures
        distinct_keys(r@),
        forall|h: Seq<char>|
            #[trigger] lookup(r@, h) == (if host_present(entries@, h) {
                Some(host_entry_count(entries@, h))
            } else {
                None::<int>
            }),
{
    let n = entries.len();
    let mut counts: Vec<(String, usize)> = Vec::new();
    let mut j: usize = 0;
    while j < n
        invariant
            n == entries@.len(),
            j <= n,
            distinct_keys(counts@),
            forall|h: Seq<char>|
                #[trigger] lookup(counts@, h) == (if host_present(entries@.subrange(0, j as int), h)
                     {
                    Some(host_entry_count(entries@.subrange(0, j as int), h))
                } else {
                    None::<int>
                }),
        decreases n - j,
    {
        let ghost sub = entries@.subrange(0, j as int);
        let ghost ext = entries@.subrange(0, j + 1);
        proof {
            assert(ext.drop_last() =~= sub);
            assert(ext.last() == entries@[j as int]);
        }
        match host_of(entries[j].0.as_str()) {
            Some(host) => {
                proof {
                    lemma_host_bounds(sub, host@);
                }
                let ghost before = counts@;
                add_count(&mut counts, &host, 1);
                proof {
                    assert forall|h: Seq<char>|
                        #[trigger] lookup(counts@, h) == (if host_present(ext, h) {
                            Some(host_entry_count(ext, h))
                        } else {
                            None::<int>
                        }) by {
                        if h == host@ {
                            assert(host_present(ext, h)) by {
                                assert(url_host_of(ext[j as int].0@) == Some(h));
                            }
                            assert(host_entry_count(ext, h) == host_entry_count(sub, h) + 1);
                        } else {
                            assert(lookup(counts@, h) == lookup(before, h));
                            assert(host_entry_count(ext, h) == host_entry_count(sub, h));
                            assert(host_present(ext, h) == host_present(sub, h)) by {
                                if host_present(ext, h) {
                                    let w = choose|w: int|
                                        0 <= w < ext.len() && url_host_of(
                                            (#[trigger] ext[w]).0@,
                                        ) == Some(h);
                                    assert(w != j);
                                    assert(sub[w] == ext[w]);
                                }
                                if host_present(sub, h) {
                                    let w = choose|w: int|
                                        0 <= w < sub.len() && url_host_of(
                                            (#[trigger] sub[w]).0@,
                                        ) == Some(h);
                                    assert(ext[w] == sub[w]);
                                }
                            }
                        }
                    }
                }
            },
            None => {
                proof {
                    assert forall|h: Seq<char>|
                        #[trigger] lookup(counts@, h) == (if host_present(ext, h) {
                            Some(host_entry_count(ext, h))
                        } else {
                            None::<int>
                        }) by {
                        assert(host_entry_count(ext, h) == host_entry_count(sub, h));
                        assert(host_present(ext, h) == host_present(sub, h)) by {
                            if host_present(ext, h) {
                                let w = choose|w: int|
                                    0 <= w < ext.len() && url_host_of((#[trigger] ext[w]).0@)
                                        == Some(h);
                                assert(w != j);
                                assert(sub[w] == ext[w]);
                            }
                            if host_present(sub, h) {
                                let w = choose|w: int|
                                    0 <= w < sub.len() && url_host_of((#[trigger] sub[w]).0@)
                                        == Some(h);
                                assert(ext[w] == sub[w]);
                            }
                        }
                    }
                }
            },
        }
        j += 1;
    }
    proof {
        assert(entries@.subrange(0, n as int) =~= entries@);
    }
    counts
}

/// Counts in non-increasing order.
pub open spec fn sorted_desc(s: Seq<(String, usize)>) -> bool {
    forall|i: int, j: int| 0 <= i < j < s.len() ==> (#[trigger] s[i]).1 >= (#[trigger] s[j]).1
}

/// Sorts count entries by count, highest first.
fn sort_desc(v: &Vec<(String, usize)>) -> (r: Vec<(String, usize)>)
    ensures
        r@.to_multiset() == v@.to_multiset(),
        sorted_desc(r@),
        r@.len() == v@.len(),
{
    broadcast use vstd::seq_lib::group_to_multiset_ensures;

    let n = v.len();
    let mut out: Vec<(String, usize)> = Vec::new();
    let mut i: usize = 0;
    proof {
        assert(v@.subrange(0, 0) =~= Seq::<(String, usize)>::empty());
        assert(out@.to_multiset() =~= v@.subrange(0, 0).to_multiset());
    }
    while i < n
        invariant
            n == v@.len(),
            i <= n,
            out@.len() == i,
            out@.to_multiset() == v@.subrange(0, i as int).to_multiset(),
            sorted_desc(out@),
        decreases n - i,
    {
        let ghost sub = v@.subrange(0, i as int);
        let ghost ext = v@.subrange(0, i + 1);
        proof {
            assert(ext =~= sub.push(v@[i as int]));
        }
        let item = (v[i].0.clone(), v[i].1);
        proof {
            assert(item == v@[i as int]);
        }
        // find the first position whose count is below the new item's
        let mut pos: usize = 0;
        while pos < out.len() && out[pos].1 >= item.1
            invariant
                pos <= out@.len(),
                forall|k: int| 0 <= k < pos ==> (#[trigger] out@[k]).1 >= item.1,
            decreases out@.len() - pos,
        {
            pos += 1;
        }
        let ghost before = out@;
        out.insert(pos, item);
        proof {
            broadcast use vstd::seq_lib::group_to_multiset_ensures;

            assert(out@ == before.insert(pos as int, item));
            before.insert_ensures(pos as int, item);
            assert(out@.to_multiset() == before.to_multiset().insert(item));
            assert(sub.push(v@[i as int]).to_multiset() == sub.to_multiset().insert(
                v@[i as int],
            ));
            assert(out@.to_multiset() == ext.to_multiset());
            assert forall|a: int, b: int|
                0 <= a < b < out@.len() implies (#[trigger] out@[a]).1 >= (
            #[trigger] out@[b]).1 by {
                if b < pos {
                    assert(out@[a] == before[a] && out@[b] == before[b]);
                } else if a < pos && b == pos {
                    assert(out@[a] == before[a]);
                    assert(out@[b] == item);
                } else if a == pos {
                    assert(out@[a] == item);
                    assert(out@[b] == before[b - 1]);
                    assert(pos < before.len() ==> before[pos as int].1 < item.1);
                    assert(before[b - 1].1 <= before[pos as int].1);
                } else if a < pos {
                    assert(out@[a] == before[a]);
                    assert(out@[b] == before[b - 1]);
                    assert(pos < before.len() ==> before[pos as int].1 < item.1);
                } else {
                    assert(out@[a] == before[a - 1] && out@[b] == before[b - 1]);
                }
            }
        }
        i += 1;
    }
    proof {
        assert(v@.subrange(0, n as int) =~= v@);
    }
    out
}

/// The `n` most-used entries: some highest-first ordering of the whole
/// tally, truncated to `n`.
pub fn biggest_n(map: &Vec<(String, usize)>, n: usize) -> (r: Vec<(String, usize)>)
    ensures
        exists|s: Seq<(String, usize)>|
            #[trigger] s.to_multiset() == map@.to_multiset() && sorted_desc(s) && r@ == (if n
                <= s.len() {
                s.subrange(0, n as int)
            } else {
                s
            }),
{
    let sorted = sort_desc(map);
    let ghost full = sorted@;
    let mut sorted = sorted;
    sorted.truncate(n);
    proof {
        assert(full.to_multiset() == map@.to_multiset() && sorted_desc(full) && sorted@ == (if n
            <= full.len() {
            full.subrange(0, n as int)
        } else {
            full
        }));
    }
    sorted
}

} // verus!
