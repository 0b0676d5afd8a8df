//! The rule document: which entries survive, how they are grouped, and how
//! each group is ordered. Every field is optional; an absent field switches
//! its rule off.

use vstd::prelude::*;

verus! {

/// The whole rule document.
#[derive(Debug)]
pub struct SortFile {
    pub rules: Rules,
}

/// The filters and the ordering of a rule document.
#[derive(Debug)]
pub struct Rules {
    pub order: Option<Order>,
    pub must_exist: Option<bool>,
    pub must_be_unique: Option<bool>,
    pub must_be_absolute: Option<bool>,
}

/// The match list that groups the entries and the keys that sort each group.
#[derive(Debug)]
pub struct Order {
    pub paths: Option<Vec<Path>>,
    pub sort: Option<Sort>,
}

/// One rule of the match list.
#[derive(Debug)]
pub enum Path {
    /// Claims the entry equal to the text, if it is still unclaimed.
    Exact(String),
    /// Claims every unclaimed entry that contains the text.
    Contains(String),
    /// `true` marks the place of the catch-all group; `false` does nothing.
    Default(bool),
}

/// The two sort settings: zero or absent is off, positive is ascending,
/// negative is descending.
#[derive(Debug)]
pub struct Sort {
    pub alphabetical: Option<i8>,
    pub path_component_length: Option<i8>,
}

/// A match rule over character sequences.
pub enum MatchRule {
    Exact(Seq<char>),
    Contains(Seq<char>),
    Default(bool),
}

impl View for Path {
    type V = MatchRule;

    open spec fn view(&self) -> MatchRule {
        match *self {
            Path::Exact(text) => MatchRule::Exact(text@),
            Path::Contains(text) => MatchRule::Contains(text@),
            Path::Default(flag) => MatchRule::Default(flag),
        }
    }
}

impl DeepView for Path {
    type V = MatchRule;

    open spec fn deep_view(&self) -> MatchRule {
        self@
    }
}

/// The sense in which one sort key is applied.
#[derive(Clone, Copy, Debug, PartialEq, Eq, Structural)]
pub enum Direction {
    Inactive,
    Ascending,
    Descending,
}

impl Direction {
    /// The direction that a setting of the rule document stands for.
    pub open spec fn of(setting: Option<i8>) -> Direction {
        match setting {
            Some(value) => if value > 0 {
                Direction::Ascending
            } else if value < 0 {
                Direction::Descending
            } else {
                Direction::Inactive
            },
            None => Direction::Inactive,
        }
    }

    pub fn from_setting(setting: Option<i8>) -> (direction: Direction)
        ensures
            direction == Direction::of(setting),
    {
        match setting {
            Some(value) => if value > 0 {
                Direction::Ascending
            } else if value < 0 {
                Direction::Descending
            } else {
                Direction::Inactive
            },
            None => Direction::Inactive,
        }
    }
}

/// The keys by which a group is sorted: path depth first, then the text.
#[derive(Clone, Copy, Debug, PartialEq, Eq, Structural)]
pub struct SortKeys {
    pub depth: Direction,
    pub alphabetical: Direction,
}

/// Whether an optional switch of the rule document is on.
pub open spec fn enforced(switch: Option<bool>) -> bool {
    switch == Some(true)
}

impl SortFile {
    /// The sort keys in force: those of `rules.order.sort`, each inactive
    /// where the document leaves it out.
    pub open spec fn keys(&self) -> SortKeys {
        match self.rules.order {
            Some(order) => match order.sort {
                Some(sort) => SortKeys {
                    depth: Direction::of(sort.path_component_length),
                    alphabetical: Direction::of(sort.alphabetical),
                },
                None => SortKeys { depth: Direction::Inactive, alphabetical: Direction::Inactive },
            },
            None => SortKeys { depth: Direction::Inactive, alphabetical: Direction::Inactive },
        }
    }

    /// The match list, where the document defines an ordering.
    pub open spec fn match_list(&self) -> Option<Seq<MatchRule>> {
        match self.rules.order {
            Some(order) => match order.paths {
                Some(paths) => Some(paths.deep_view()),
                None => None,
            },
            None => None,
        }
    }

    /// The built-in document: one catch-all group, sorted by ascending depth
    /// and then ascending text, of entries that exist and are unique.
    pub open spec fn is_built_in(&self) -> bool {
        &&& self.rules.must_exist == Some(true)
        &&& self.rules.must_be_unique == Some(true)
        &&& self.rules.must_be_absolute is None
        &&& self.match_list() == Some(seq![MatchRule::Default(true)])
        &&& self.rules.order is Some
        &&& self.rules.order->0.sort == Some(
            Sort { alphabetical: Some(1i8), path_component_length: Some(1i8) },
        )
    }

    pub fn sort_keys(&self) -> (keys: SortKeys)
        ensures
            keys == self.keys(),
    {
        let mut keys = SortKeys { depth: Direction::Inactive, alphabetical: Direction::Inactive };
        if let Some(order) = &self.rules.order {
            if let Some(sort) = &order.sort {
                keys.depth = Direction::from_setting(sort.path_component_length);
                keys.alphabetical = Direction::from_setting(sort.alphabetical);
            }
        }
        keys
    }

    pub fn built_in() -> (document: SortFile)
        ensures
            document.is_built_in(),
    {
        let mut paths: Vec<Path> = Vec::new();
        paths.push(Path::Default(true));
        assert(paths.deep_view() =~= seq![MatchRule::Default(true)]);
        SortFile {
            rules: Rules {
                order: Some(
                    Order {
                        paths: Some(paths),
                        sort: Some(Sort { alphabetical: Some(1), path_component_length: Some(1) }),
                    },
                ),
                must_exist: Some(true),
                must_be_unique: Some(true),
                must_be_absolute: None,
            },
        }
    }
}

} // verus!
