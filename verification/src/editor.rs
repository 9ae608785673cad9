//! What the save editor shows: the categories that group the fields of a
//! save game, the two ways of editing, and how a search query matches an
//! entry.

use vstd::prelude::*;

verus! {

/// How a save game is edited.
#[derive(Debug, Clone, Copy, PartialEq, Eq, Structural)]
pub enum EditMode {
    /// Through a form with one control per field.
    Form,
    /// As raw text.
    Raw,
}

/// Where a search query was found in an entry.
#[derive(Debug, Clone, Copy, PartialEq, Eq, Structural)]
pub enum SearchMatch {
    /// In the key only.
    Key,
    /// In the value only.
    Value,
    /// In the key and in the value.
    Both,
    /// Nowhere.
    NoMatch,
}

/// A named group of save game fields.
pub struct Category {
    pub name: &'static str,
    pub icon: &'static str,
    pub fields: Vec<&'static str>,
}

/// A category as mathematical values: its texts as sequences of characters.
pub struct CategoryView {
    pub name: Seq<char>,
    pub icon: Seq<char>,
    pub fields: Seq<Seq<char>>,
}

impl View for Category {
    type V = CategoryView;

    open spec fn view(&self) -> CategoryView {
        CategoryView {
            name: self.name@,
            icon: self.icon@,
            fields: Seq::new(self.fields@.len(), |i: int| self.fields@[i]@),
        }
    }
}

impl Category {
    /// A category with the given name, icon and fields.
    pub fn new(name: &'static str, icon: &'static str, fields: Vec<&'static str>) -> (c: Self)
        ensures
            c.name == name,
            c.icon == icon,
            c.fields == fields,
    {
        Category { name, icon, fields }
    }
}

/// The categories of a save game, in the order in which they are shown.
pub open spec fn category_table() -> Seq<CategoryView> {
    seq![
        CategoryView { name: "Player Stats"@, icon: "\u{201a}\u{2260}\u{ea}"@, fields: seq!["gems"@, "gold"@, "gemsTotal"@, "highestLevel"@, "lastCharacter"@, "gameMode"@, "personalBestGold"@, "welcomeGems"@] },
        CategoryView { name: "Achievements"@, icon: "\u{f8ff}\u{fc}\u{e8}\u{dc}"@, fields: seq!["achievements"@] },
        CategoryView { name: "Challenges"@, icon: "\u{f8ff}\u{fc}\u{e9}\u{d8}"@, fields: seq!["challenges"@, "completeChallenges"@] },
        CategoryView { name: "Collectables"@, icon: "\u{f8ff}\u{fc}\u{ec}\u{b6}"@, fields: seq!["collectables"@, "collectables_new"@] },
        CategoryView { name: "Highest Levels"@, icon: "\u{f8ff}\u{fc}\u{e9}\u{c6}"@, fields: seq!["highestLevels"@] },
        CategoryView { name: "Statistics"@, icon: "\u{f8ff}\u{fc}\u{ec}\u{e4}"@, fields: seq!["dailyStats"@, "totalStats"@] },
        CategoryView { name: "High Scores"@, icon: "\u{f8ff}\u{fc}\u{e8}\u{d6}"@, fields: seq!["highscores"@] },
        CategoryView { name: "Leaderboards"@, icon: "\u{f8ff}\u{fc}\u{e5}\u{ea}"@, fields: seq!["leaderboard_bombs_exploded"@, "leaderboard_distance_ran"@, "leaderboard_enemies_killed"@, "leaderboard_most_gold"@] },
        CategoryView { name: "McDoodle"@, icon: "\u{f8ff}\u{fc}\u{e9}\u{ae}"@, fields: seq!["mcdoodle"@] },
        CategoryView { name: "Perms"@, icon: "\u{f8ff}\u{fc}\u{ee}\u{eb}"@, fields: seq!["perms"@] },
        CategoryView { name: "Metadata"@, icon: "\u{201a}\u{d1}\u{3c0}"@, fields: seq!["challengeDate"@, "statsDay"@, "version"@, "statsVersion"@, "permsVersion"@, "replayCode"@] },
    ]
}

/// The predefined categories of a save game.
pub fn get_categories() -> (categories: Vec<Category>)
    ensures
        categories@.len() == category_table().len(),
        forall|i: int| 0 <= i < categories@.len() ==> categories@[i]@ == category_table()[i],
{
    let categories = vec![
        Category::new("Player Stats", "\u{201a}\u{2260}\u{ea}", vec!["gems", "gold", "gemsTotal", "highestLevel", "lastCharacter", "gameMode", "personalBestGold", "welcomeGems"]),
        Category::new("Achievements", "\u{f8ff}\u{fc}\u{e8}\u{dc}", vec!["achievements"]),
        Category::new("Challenges", "\u{f8ff}\u{fc}\u{e9}\u{d8}", vec!["challenges", "completeChallenges"]),
        Category::new("Collectables", "\u{f8ff}\u{fc}\u{ec}\u{b6}", vec!["collectables", "collectables_new"]),
        Category::new("Highest Levels", "\u{f8ff}\u{fc}\u{e9}\u{c6}", vec!["highestLevels"]),
        Category::new("Statistics", "\u{f8ff}\u{fc}\u{ec}\u{e4}", vec!["dailyStats", "totalStats"]),
        Category::new("High Scores", "\u{f8ff}\u{fc}\u{e8}\u{d6}", vec!["highscores"]),
        Category::new("Leaderboards", "\u{f8ff}\u{fc}\u{e5}\u{ea}", vec!["leaderboard_bombs_exploded", "leaderboard_distance_ran", "leaderboard_enemies_killed", "leaderboard_most_gold"]),
        Category::new("McDoodle", "\u{f8ff}\u{fc}\u{e9}\u{ae}", vec!["mcdoodle"]),
        Category::new("Perms", "\u{f8ff}\u{fc}\u{ee}\u{eb}", vec!["perms"]),
        Category::new("Metadata", "\u{201a}\u{d1}\u{3c0}", vec!["challengeDate", "statsDay", "version", "statsVersion", "permsVersion", "replayCode"]),
    ];
    assert forall|i: int| 0 <= i < categories@.len() implies categories@[i]@ == category_table()[i] by {
        assert(categories@[i]@.fields =~= category_table()[i].fields);
    }
    categories
}

/// Tells where a query was found in an entry, from whether it was found in
/// the entry's key and in its value. An empty query matches nothing.
pub fn get_search_match(query_is_empty: bool, key_matches: bool, value_matches: bool) -> (m: SearchMatch)
    ensures
        m == search_match_spec(query_is_empty, key_matches, value_matches),
{
    if query_is_empty {
        return SearchMatch::NoMatch;
    }
    match (key_matches, value_matches) {
        (true, true) => SearchMatch::Both,
        (true, false) => SearchMatch::Key,
        (false, true) => SearchMatch::Value,
        (false, false) => SearchMatch::NoMatch,
    }
}

/// Where a query was found, given where it was looked for and found.
pub open spec fn search_match_spec(query_is_empty: bool, key_matches: bool, value_matches: bool) -> SearchMatch {
    if query_is_empty || (!key_matches && !value_matches) {
        SearchMatch::NoMatch
    } else if key_matches && value_matches {
        SearchMatch::Both
    } else if key_matches {
        SearchMatch::Key
    } else {
        SearchMatch::Value
    }
}

} // verus!
