use vstd::prelude::*;

use crate::repositories::{merge_index, PackageIndex, RepositoryContents};

verus! {

/// The sequence without the occurrences of one url.
pub open spec fn keep_not(s: Seq<Seq<char>>, u: Seq<char>) -> Seq<Seq<char>>
    decreases s.len(),
{
    if s.len() == 0 {
        s
    } else if s[0] == u {
        keep_not(s.skip(1), u)
    } else {
        seq![s[0]] + keep_not(s.skip(1), u)
    }
}

/// One more url at the end of the filtered list.
proof fn lemma_keep_not_push(s: Seq<Seq<char>>, x: Seq<char>, u: Seq<char>)
    ensures
        keep_not(s.push(x), u) == (if x == u {
            keep_not(s, u)
        } else {
            keep_not(s, u).push(x)
        }),
    decreases s.len(),
{
    if s.len() == 0 {
        assert(s.push(x)[0] == x);
        assert(s.push(x).skip(1) =~= s);
        if x != u {
            assert(seq![x] + keep_not(s, u) =~= keep_not(s, u).push(x));
        }
    } else {
        assert(s.push(x)[0] == s[0]);
        assert(s.push(x).skip(1) =~= s.skip(1).push(x));
        lemma_keep_not_push(s.skip(1), x, u);
        if s[0] != u && x != u {
            assert(seq![s[0]] + keep_not(s.skip(1), u).push(x) =~= (seq![s[0]] + keep_not(
                s.skip(1),
                u,
            )).push(x));
        }
    }
}

/// The tool's own configuration: the repository urls to merge an index
/// from, in order.
pub struct HermioneConfig {
    pub repository_urls: Vec<String>,
}

impl Default for HermioneConfig {
    /// A configuration with no repositories.
    fn default() -> (r: HermioneConfig)
        ensures
            r.repository_urls@.len() == 0,
    {
        HermioneConfig { repository_urls: Vec::new() }
    }
}

impl HermioneConfig {
    /// The configured repository urls, in order.
    pub fn repo_list(&self) -> (r: Vec<String>)
        ensures
            r.deep_view() == self.repository_urls.deep_view(),
    {
        let mut out: Vec<String> = Vec::new();
        let mut k: usize = 0;
        proof {
            assert(out.deep_view() =~= self.repository_urls.deep_view().take(0));
        }
        while k < self.repository_urls.len()
            invariant
                k <= self.repository_urls@.len(),
                out.deep_view() == self.repository_urls.deep_view().take(k as int),
            decreases self.repository_urls@.len() - k,
        {
            let ghost pre = out.deep_view();
            out.push(self.repository_urls[k].clone());
            proof {
                assert(out.deep_view() =~= pre.push(self.repository_urls.deep_view()[k as int]));
                assert(pre.push(self.repository_urls.deep_view()[k as int])
                    =~= self.repository_urls.deep_view().take(k as int + 1));
            }
            k = k + 1;
        }
        proof {
            assert(self.repository_urls.deep_view().take(self.repository_urls@.len() as int)
                =~= self.repository_urls.deep_view());
        }
        out
    }

    /// Appends a repository url, moving it to the end when it is already
    /// configured: no url is listed twice.
    #[verifier::loop_isolation(false)]
    pub fn add_repo_url(self, repo_url: String) -> (r: HermioneConfig)
        ensures
            r.repository_urls.deep_view() == keep_not(
                self.repository_urls.deep_view(),
                repo_url@,
            ).push(repo_url@),
    {
        let mut filtered = self.filter_out(repo_url.as_str());
        filtered.push(repo_url);
        proof {
            assert(filtered.deep_view() =~= keep_not(
                self.repository_urls.deep_view(),
                repo_url@,
            ).push(repo_url@));
        }
        HermioneConfig { repository_urls: filtered }
    }

    /// Removes a repository url from the configuration.
    pub fn remove_repo_url(self, repo_url: String) -> (r: HermioneConfig)
        ensures
            r.repository_urls.deep_view() == keep_not(self.repository_urls.deep_view(), repo_url@),
    {
        let filtered = self.filter_out(repo_url.as_str());
        HermioneConfig { repository_urls: filtered }
    }

    /// The configured urls without the occurrences of one url.
    #[verifier::loop_isolation(false)]
    fn filter_out(self, repo_url: &str) -> (r: Vec<String>)
        ensures
            r.deep_view() == keep_not(self.repository_urls.deep_view(), repo_url@),
    {
        let ghost uv = self.repository_urls.deep_view();
        let mut out: Vec<String> = Vec::new();
        let mut k: usize = 0;
        proof {
            assert(uv.take(0) =~= Seq::<Seq<char>>::empty());
            assert(out.deep_view() =~= keep_not(uv.take(0), repo_url@));
        }
        while k < self.repository_urls.len()
            invariant
                k <= uv.len(),
                out.deep_view() == keep_not(uv.take(k as int), repo_url@),
            decreases uv.len() - k,
        {
            let ghost pre = out.deep_view();
            let keep = !crate::text::str_eq(self.repository_urls[k].as_str(), repo_url);
            if keep {
                out.push(self.repository_urls[k].clone());
            }
            proof {
                assert(uv.take(k as int).push(uv[k as int]) =~= uv.take(k as int + 1));
                lemma_keep_not_push(uv.take(k as int), uv[k as int], repo_url@);
                if keep {
                    assert(out.deep_view() =~= pre.push(uv[k as int]));
                }
            }
            k = k + 1;
        }
        proof {
            assert(uv.take(uv.len() as int) =~= uv);
        }
        out
    }

    /// Folds fetched repository descriptors into one package index: a later
    /// repository's entry for a package id wins over an earlier one.
    #[verifier::loop_isolation(false)]
    #[verifier::rlimit(30)]
    pub fn build_index(repositories: Vec<RepositoryContents>) -> (r: PackageIndex)
        ensures
            r.wf(),
            forall|id: Seq<char>|
                r.find(id) == spec_repos_find(repositories.deep_view(), id),
    {
        let ghost rsv = repositories.deep_view();
        let mut index = PackageIndex::new();
        let mut rest = repositories;
        let ghost n = rest@.len() as int;
        let ghost mut k: int = 0;
        proof {
            assert(rsv.take(0) =~= Seq::<crate::repositories::RepositoryContentsV>::empty());
        }
        loop
            invariant
                index.wf(),
                0 <= k <= n,
                n == rsv.len(),
                rest.deep_view() == rsv.skip(k),
                forall|id: Seq<char>| index.find(id) == spec_repos_find(rsv.take(k), id),
            decreases n - k,
        {
            if rest.len() == 0 {
                proof {
                    assert(rsv.skip(k).len() == 0);
                    assert(k == n);
                }
                break ;
            }
            proof {
                assert(rest.deep_view().len() > 0);
                assert(k < n);
                assert(rest.deep_view()[0] == rsv[k]);
            }
            let ghost old_rest = rest.deep_view();
            let rc = rest.remove(0);
            let ghost rcv = rc.deep_view();
            proof {
                assert forall|j: int| 0 <= j < rest.deep_view().len() implies rest.deep_view()[j]
                    == rsv.skip(k + 1)[j] by {
                    assert(rest.deep_view()[j] == old_rest[j + 1]);
                    assert(old_rest[j + 1] == rsv[k + 1 + j]);
                }
                assert(rest.deep_view() =~= rsv.skip(k + 1));
                assert(rcv == rsv[k]);
            }
            let later = rc.into_index();
            merge_index(&mut index, later);
            proof {
                assert forall|id: Seq<char>| true implies index.find(id) == spec_repos_find(
                    rsv.take(k + 1),
                    id,
                ) by {
                    assert(rsv.take(k + 1).last() == rsv[k]);
                    assert(rsv.take(k + 1).drop_last() =~= rsv.take(k));
                }
            }
            proof {
                k = k + 1;
            }
        }
        proof {
            assert(rsv.take(n) =~= rsv);
        }
        index
    }
}

/// The versions the last repository recording a package id gives for it.
pub open spec fn spec_repos_find(
    rs: Seq<crate::repositories::RepositoryContentsV>,
    id: Seq<char>,
) -> Option<Seq<crate::repositories::AvailableVersionV>>
    decreases rs.len(),
{
    if rs.len() == 0 {
        None
    } else {
        match crate::repositories::spec_repo_find(rs.last().available_packages, id) {
            Some(v) => Some(v),
            None => spec_repos_find(rs.drop_last(), id),
        }
    }
}

} // verus!
