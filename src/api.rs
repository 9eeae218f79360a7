//! The set of served repositories, by name.
use vstd::prelude::*;

verus! {

/// A repository as configured: its name, whether it is enabled, and its
/// handle.
pub struct RepoEntry<R> {
    pub name: String,
    pub enabled: bool,
    pub repo: R,
}

/// The request parameters that name a repository.
pub struct DataParams {
    pub repo: String,
}

#[derive(PartialEq, Eq, Structural, Clone, Copy, Debug)]
pub enum QueryKind {
    LfsBatch,
    Other,
}

pub enum QueryError {
    /// No repository of this name; LFS batch requests report it in their
    /// own format.
    LfsNotFound { repo: String },
    NotFound { repo: String },
}

pub open spec fn names_of<R>(s: Seq<(String, R)>) -> Seq<Seq<char>> {
    s.map_values(|e: (String, R)| e.0@)
}

pub open spec fn string_views(s: Seq<String>) -> Seq<Seq<char>> {
    s.map_values(|e: String| e@)
}

pub open spec fn is_enabled<R>() -> spec_fn(RepoEntry<R>) -> bool {
    |e: RepoEntry<R>| e.enabled
}

pub open spec fn entry_names<R>(s: Seq<RepoEntry<R>>) -> Seq<Seq<char>> {
    s.map_values(|e: RepoEntry<R>| e.name@)
}

pub open spec fn entry_pairs<R>(s: Seq<RepoEntry<R>>) -> Seq<(String, R)> {
    s.map_values(|e: RepoEntry<R>| (e.name, e.repo))
}

/// An instance managing several repositories.
pub struct Mononoke<R> {
    pub repos: Vec<(String, R)>,
}

impl<R> Mononoke<R> {
    /// Serves the enabled repositories of `configs`, in order.
    pub fn new(configs: Vec<RepoEntry<R>>) -> (r: Mononoke<R>)
        ensures
            r.repos@ == entry_pairs(configs@.filter(is_enabled())),
            names_of(r.repos@) == entry_names(configs@.filter(is_enabled())),
    {
        let ghost all = configs@;
        let mut configs = configs;
        let mut rev: Vec<(String, R)> = Vec::new();
        while configs.len() > 0
            invariant
                configs@.len() <= all.len(),
                configs@ == all.take(configs@.len() as int),
                rev@ == entry_pairs(all.skip(configs@.len() as int).filter(is_enabled())).reverse(),
            decreases configs@.len(),
        {
            let ghost k = configs@.len() as int;
            let e = configs.pop().unwrap();
            let ghost ee = e;
            proof {
                assert(configs@ =~= all.take(k - 1));
                assert(all.take(k)[k - 1] == ee);
                assert(all[k - 1] == ee);
                assert(all.skip(k - 1) =~= seq![ee] + all.skip(k));
                all.skip(k).lemma_filter_prepend(ee, is_enabled());
                assert(is_enabled()(ee) == ee.enabled);
                let f = all.skip(k).filter(is_enabled());
                assert(entry_pairs(seq![ee] + f).reverse() =~= entry_pairs(f).reverse().push((ee.name, ee.repo)));
                assert(Seq::<RepoEntry<R>>::empty() + f =~= f);
            }
            let ghost f = all.skip(k).filter(is_enabled());
            assert(configs@.len() == k - 1);
            if e.enabled {
                rev.push((e.name, e.repo));
                assert(all.skip(k - 1).filter(is_enabled()) == seq![ee] + f);
            } else {
                assert(all.skip(k - 1).filter(is_enabled()) == f);
            }
        }
        assert(all.skip(0) =~= all);
        let ghost target = rev@.reverse();
        let mut out: Vec<(String, R)> = Vec::new();
        while rev.len() > 0
            invariant
                out@ + rev@.reverse() == target,
            decreases rev@.len(),
        {
            let ghost r0 = rev@;
            let ghost o0 = out@;
            let e = rev.pop().unwrap();
            let ghost ev = e;
            out.push(e);
            assert(r0 =~= rev@.push(ev));
            assert(r0.reverse() =~= seq![ev] + rev@.reverse());
            assert(out@ + rev@.reverse() =~= o0 + r0.reverse());
        }
        assert(out@ =~= out@ + rev@.reverse());
        assert(target =~= entry_pairs(all.filter(is_enabled())));
        assert(names_of(out@) =~= entry_names(all.filter(is_enabled())));
        Mononoke { repos: out }
    }

    /// The repository named `name`, if served.
    pub fn repo(&self, name: &String) -> (r: Option<&R>)
        ensures
            match r {
                Some(x) => exists|i: int| 0 <= i < self.repos@.len() && self.repos@[i].0@ == name@ && self.repos@[i].1 == *x,
                None => !names_of(self.repos@).contains(name@),
            },
    {
        let mut i: usize = 0;
        while i < self.repos.len()
            invariant
                i <= self.repos@.len(),
                forall|j: int| 0 <= j < i ==> self.repos@[j].0@ != name@,
            decreases self.repos@.len() - i,
        {
            if self.repos[i].0 == *name {
                return Some(&self.repos[i].1);
            }
            i = i + 1;
        }
        assert(!names_of(self.repos@).contains(name@)) by {
            if names_of(self.repos@).contains(name@) {
                let j = choose|j: int| 0 <= j < names_of(self.repos@).len() && names_of(self.repos@)[j] == name@;
                assert(self.repos@[j].0@ == name@);
            }
        };
        None
    }

    /// The names of the served repositories.
    pub fn repo_names(&self) -> (r: Vec<String>)
        ensures
            string_views(r@) == names_of(self.repos@),
    {
        let mut out: Vec<String> = Vec::new();
        let mut i: usize = 0;
        while i < self.repos.len()
            invariant
                i <= self.repos@.len(),
                string_views(out@) == names_of(self.repos@).take(i as int),
            decreases self.repos@.len() - i,
        {
            let ghost o0 = out@;
            let name = self.repos[i].0.clone();
            out.push(name);
            assert(string_views(out@) =~= string_views(o0).push(self.repos@[i as int].0@));
            assert(names_of(self.repos@).take(i as int + 1) =~= names_of(self.repos@).take(i as int).push(
                self.repos@[i as int].0@,
            ));
            i = i + 1;
        }
        assert(names_of(self.repos@).take(i as int) =~= names_of(self.repos@));
        out
    }

    /// Routes a query to the repository it names, or reports it missing in
    /// the format the query kind expects.
    pub fn send_query(&self, repo: &String, kind: QueryKind) -> (r: Result<&R, QueryError>)
        ensures
            match r {
                Ok(x) => exists|i: int| 0 <= i < self.repos@.len() && self.repos@[i].0@ == repo@ && self.repos@[i].1 == *x,
                Err(QueryError::LfsNotFound { repo: n }) => kind == QueryKind::LfsBatch && n@ == repo@
                    && !names_of(self.repos@).contains(repo@),
                Err(QueryError::NotFound { repo: n }) => kind == QueryKind::Other && n@ == repo@
                    && !names_of(self.repos@).contains(repo@),
            },
    {
        match self.repo(repo) {
            Some(x) => Ok(x),
            None => match kind {
                QueryKind::LfsBatch => Err(QueryError::LfsNotFound { repo: repo.clone() }),
                QueryKind::Other => Err(QueryError::NotFound { repo: repo.clone() }),
            },
        }
    }
}

} // verus!
