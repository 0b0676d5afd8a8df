//! The pipeline: filtered entries, grouped by the match list, each group
//! sorted, the groups joined into one path list.

use crate::classifier::{
    grouped, grouping_after, lemma_grouped_conserves, lemma_nothing_taken, take_containing,
    take_exact, Grouping,
};
use crate::entry::PATH_LIST_DELIMITER;
use crate::filter::{filter_entries, filtered_entries, lemma_filtered_entries, passes};
use crate::list::{join_list, join_with, split_list, split_on};
use crate::representation::{enforced, MatchRule, Path, SortFile};
use crate::sorter::{ordered, same_ties, sort_entries, sorted_entries, sorted_groups};
use vstd::prelude::*;

verus! {

/// One group of entries.
#[derive(Debug)]
pub struct PathElements {
    elements: Vec<String>,
}

impl View for PathElements {
    type V = Seq<Seq<char>>;

    closed spec fn view(&self) -> Seq<Seq<char>> {
        self.elements.deep_view()
    }
}

impl DeepView for PathElements {
    type V = Seq<Seq<char>>;

    open spec fn deep_view(&self) -> Seq<Seq<char>> {
        self@
    }
}

/// The groups of a path list, in rule order.
#[derive(Debug)]
pub struct FullPath {
    paths: Vec<PathElements>,
}

impl View for FullPath {
    type V = Seq<Seq<Seq<char>>>;

    closed spec fn view(&self) -> Seq<Seq<Seq<char>>> {
        self.paths.deep_view()
    }
}

impl PathElements {
    pub fn new(elements: Vec<String>) -> (group: Self)
        ensures
            group@ == elements.deep_view(),
    {
        PathElements { elements }
    }

    pub fn elements(&self) -> (elements: &Vec<String>)
        ensures
            elements.deep_view() == self@,
    {
        &self.elements
    }

    /// Sorts the group under the keys of `sort_file`: the entries stay the
    /// same, and afterwards none stands behind one that it precedes. Entries
    /// that the keys do not tell apart keep their order.
    pub fn sort(&mut self, sort_file: &SortFile)
        ensures
            final(self)@ == sorted_entries(sort_file.keys(), old(self)@),
            final(self)@.to_multiset() == old(self)@.to_multiset(),
            ordered(sort_file.keys(), final(self)@),
            same_ties(sort_file.keys(), final(self)@, old(self)@),
    {
        let sorted = sort_entries(sort_file.sort_keys(), &self.elements);
        self.elements = sorted;
    }
}

impl FullPath {
    pub fn paths(&self) -> (groups: &Vec<PathElements>)
        ensures
            groups.deep_view() == self@,
    {
        &self.paths
    }

    /// Sorts every group under the keys of `sort_file`.
    pub fn sort(&mut self, sort_file: &SortFile)
        ensures
            final(self)@ == sorted_groups(sort_file.keys(), old(self)@),
    {
        let mut next: usize = 0;
        while next < self.paths.len()
            invariant
                next <= self.paths.len(),
                self.paths.len() == old(self).paths.len(),
                forall|i: int|
                    0 <= i < next ==> (#[trigger] self.paths[i])@ == sorted_entries(
                        sort_file.keys(),
                        old(self).paths[i]@,
                    ),
                forall|i: int|
                    next <= i < self.paths.len() ==> #[trigger] self.paths[i] == old(
                        self,
                    ).paths[i],
            decreases self.paths.len() - next,
        {
            self.paths[next].sort(sort_file);
            next += 1;
        }
    }

    /// The entries of all groups in order, joined into one path list.
    pub fn to_string(&self) -> (list: String)
        ensures
            list@ == join_with(self@.flatten(), PATH_LIST_DELIMITER),
    {
        let mut entries: Vec<String> = Vec::new();
        let mut next: usize = 0;
        while next < self.paths.len()
            invariant
                next <= self.paths.len(),
                entries.deep_view() == self@.take(next as int).flatten(),
            decreases self.paths.len() - next,
        {
            let group = &self.paths[next].elements;
            let ghost before = entries.deep_view();
            let mut at: usize = 0;
            while at < group.len()
                invariant
                    at <= group.len(),
                    entries.deep_view() == before + group.deep_view().take(at as int),
                decreases group.len() - at,
            {
                let ghost so_far = entries.deep_view();
                entries.push(group[at].clone());
                assert(entries.deep_view() =~= so_far.push(group.deep_view()[at as int]));
                at += 1;
            }
            proof {
                assert(self@.take(next + 1) =~= self@.take(next as int).push(self@[next as int]));
                self@.take(next as int).lemma_flatten_push(self@[next as int]);
            }
            next += 1;
        }
        assert(self@.take(next as int) =~= self@);
        join_list(&entries, PATH_LIST_DELIMITER)
    }
}

/// The entries of one path list together with the rule document that is to
/// order them.
#[derive(Debug)]
pub struct OsPathHandler<'a> {
    paths: Vec<String>,
    sort_file: &'a SortFile,
}

impl<'a> OsPathHandler<'a> {
    /// The entries that the handler holds.
    pub closed spec fn entries(&self) -> Seq<Seq<char>> {
        self.paths.deep_view()
    }

    /// The rule document that the handler goes by.
    pub closed spec fn document(&self) -> SortFile {
        *self.sort_file
    }

    /// Filters `paths` as `sort_file` asks. `existing` lists the entries that
    /// name something in the file system; any other entry counts as missing.
    /// What is held afterwards was among `paths` and meets the rules, and
    /// where uniqueness is enforced nothing is held twice.
    pub fn new(paths: Vec<String>, existing: &Vec<String>, sort_file: &'a SortFile) -> (handler:
        Self)
        ensures
            handler.entries() == filtered_entries(
                paths.deep_view(),
                existing.deep_view(),
                sort_file.rules,
            ),
            handler.document() == *sort_file,
            forall|entry: Seq<char>| #[trigger]
                handler.entries().contains(entry) ==> paths.deep_view().contains(entry)
                    && passes(entry, existing.deep_view(), sort_file.rules),
            enforced(sort_file.rules.must_be_unique) ==> handler.entries().no_duplicates(),
    {
        proof {
            lemma_filtered_entries(paths.deep_view(), existing.deep_view(), sort_file.rules);
        }
        OsPathHandler { paths: filter_entries(paths, existing, &sort_file.rules), sort_file }
    }

    /// The entries of the path list `path_var`; none where the list is unset.
    pub fn get_path(path_var: Option<&str>) -> (entries: Vec<String>)
        ensures
            entries.deep_view() == match path_var {
                Some(list) => split_on(list@, PATH_LIST_DELIMITER),
                None => Seq::empty(),
            },
    {
        match path_var {
            Some(list) => split_list(list, PATH_LIST_DELIMITER),
            None => {
                let entries: Vec<String> = Vec::new();
                entries
            },
        }
    }

    pub fn paths(&self) -> (paths: &Vec<String>)
        ensures
            paths.deep_view() == self.entries(),
    {
        &self.paths
    }

    /// Groups the entries by the match list of the document. Without a match
    /// list there is no ordering, and no full path. The groups hold no entry
    /// more often than the handler does, and with a catch-all rule in the
    /// match list they hold every entry as often.
    pub fn create_full_path(&self) -> (full: Option<FullPath>)
        ensures
            match self.document().match_list() {
                Some(rules) => {
                    &&& full matches Some(path)
                    &&& path@ == grouped(self.entries(), rules)
                    &&& path@.flatten().to_multiset().subset_of(self.entries().to_multiset())
                    &&& rules.contains(MatchRule::Default(true)) ==> path@.flatten().to_multiset()
                        == self.entries().to_multiset()
                },
                None => full is None,
            },
    {
        let rules = match &self.sort_file.rules.order {
            Some(order) => match &order.paths {
                Some(paths) => paths,
                None => {
                    return None;
                },
            },
            None => {
                return None;
            },
        };
        let mut pool: Vec<String> = Vec::new();
        let mut copied: usize = 0;
        while copied < self.paths.len()
            invariant
                copied <= self.paths.len(),
                pool.deep_view() == self.paths.deep_view().take(copied as int),
            decreases self.paths.len() - copied,
        {
            let ghost before = pool.deep_view();
            pool.push(self.paths[copied].clone());
            assert(pool.deep_view() =~= before.push(self.paths.deep_view()[copied as int]));
            copied += 1;
        }
        assert(self.paths.deep_view().take(copied as int) =~= self.paths.deep_view());

        let mut groups: Vec<PathElements> = Vec::new();
        let mut catch_all: Option<usize> = None;
        let mut next: usize = 0;
        proof {
            assert(groups.deep_view() =~= Seq::empty());
        }
        while next < rules.len()
            invariant
                next <= rules.len(),
                catch_all matches Some(place) ==> place < groups.len(),
                grouping_after(self.paths.deep_view(), rules.deep_view().take(next as int))
                    == (Grouping {
                    pool: pool.deep_view(),
                    groups: groups.deep_view(),
                    catch_all: match catch_all {
                        Some(place) => Some(place as int),
                        None => None,
                    },
                }),
            decreases rules.len() - next,
        {
            let ghost state = grouping_after(
                self.paths.deep_view(),
                rules.deep_view().take(next as int),
            );
            let ghost emitted = groups.deep_view();
            proof {
                let prefix = rules.deep_view().take(next + 1);
                assert(prefix.drop_last() =~= rules.deep_view().take(next as int));
            }
            match &rules[next] {
                Path::Exact(text) => {
                    if take_exact(&mut pool, text) {
                        let mut single: Vec<String> = Vec::new();
                        single.push(text.clone());
                        assert(single.deep_view() =~= seq![text@]);
                        groups.push(PathElements { elements: single });
                        assert(groups.deep_view() =~= emitted.push(seq![text@]));
                    } else {
                        proof {
                            state.pool.index_of_first_ensures(text@);
                        }
                    }
                },
                Path::Contains(text) => {
                    let taken = take_containing(&mut pool, text.as_str());
                    if taken.len() > 0 {
                        let ghost claimed = taken.deep_view();
                        groups.push(PathElements { elements: taken });
                        assert(groups.deep_view() =~= emitted.push(claimed));
                    } else {
                        proof {
                            lemma_nothing_taken(state.pool, text@);
                        }
                    }
                },
                Path::Default(flag) => {
                    if *flag {
                        if catch_all.is_none() {
                            catch_all = Some(groups.len());
                        }
                        let empty: Vec<String> = Vec::new();
                        assert(empty.deep_view() =~= Seq::empty());
                        groups.push(PathElements { elements: empty });
                        assert(groups.deep_view() =~= emitted.push(Seq::empty()));
                    }
                },
            }
            next += 1;
        }
        proof {
            assert(rules.deep_view().take(next as int) =~= rules.deep_view());
            lemma_grouped_conserves(self.paths.deep_view(), rules.deep_view());
        }
        if let Some(place) = catch_all {
            let ghost emitted = groups.deep_view();
            let ghost rest = pool.deep_view();
            groups.set(place, PathElements { elements: pool });
            assert(groups.deep_view() =~= emitted.update(place as int, rest));
        }
        Some(FullPath { paths: groups })
    }
}

/// The entries of the path list `path_var`; none where the list is unset.
pub open spec fn entries_of(path_var: Option<Seq<char>>) -> Seq<Seq<char>> {
    match path_var {
        Some(list) => split_on(list, PATH_LIST_DELIMITER),
        None => Seq::empty(),
    }
}

/// The sorted groups of `entries` under `document`: the entries filtered,
/// grouped by the match list, each group sorted. Without a match list there
/// are none.
pub open spec fn sorted_path(
    entries: Seq<Seq<char>>,
    existing: Seq<Seq<char>>,
    document: SortFile,
) -> Option<Seq<Seq<Seq<char>>>> {
    match document.match_list() {
        Some(rules) => Some(
            sorted_groups(
                document.keys(),
                grouped(filtered_entries(entries, existing, document.rules), rules),
            ),
        ),
        None => None,
    }
}

/// The sorted path list of `path_var` under `document`, as text.
pub open spec fn sorted_list(
    path_var: Option<Seq<char>>,
    existing: Seq<Seq<char>>,
    document: SortFile,
) -> Option<Seq<char>> {
    match sorted_path(entries_of(path_var), existing, document) {
        Some(groups) => Some(join_with(groups.flatten(), PATH_LIST_DELIMITER)),
        None => None,
    }
}

/// The entry point that picks the rule document.
pub struct PathSort;

impl PathSort {
    pub fn new() -> (sorter: Self) {
        PathSort {  }
    }

    /// The whole operation: splits the path list `path_var`, filters its
    /// entries, groups and sorts them under `sort_file`, and joins the result.
    /// `existing` lists the entries that name something in the file system.
    /// Without a match list in the document there is no result.
    pub fn sort_path_list(
        &self,
        path_var: Option<&str>,
        existing: &Vec<String>,
        sort_file: &SortFile,
    ) -> (sorted: Option<String>)
        ensures
            match sorted_list(
                match path_var {
                    Some(list) => Some(list@),
                    None => None,
                },
                existing.deep_view(),
                *sort_file,
            ) {
                Some(text) => sorted matches Some(list) && list@ == text,
                None => sorted is None,
            },
    {
        let handler = OsPathHandler::new(OsPathHandler::get_path(path_var), existing, sort_file);
        match handler.create_full_path() {
            Some(mut full) => {
                full.sort(sort_file);
                Some(full.to_string())
            },
            None => None,
        }
    }

    /// The rule document to go by: the one supplied, or the built-in one.
    pub fn get_sort_file(&self, supplied: Option<SortFile>) -> (document: SortFile)
        ensures
            match supplied {
                Some(given) => document == given,
                None => document.is_built_in(),
            },
    {
        match supplied {
            Some(given) => given,
            None => SortFile::built_in(),
        }
    }
}

} // verus!
