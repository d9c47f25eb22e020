//! The command line, and where the configuration is looked for.

use crate::text;
use vstd::prelude::*;
use vstd::string::*;

verus! {

pub const DEFAULT_CONFIG_NAME: &'static str = "config.toml";

#[derive(Debug, Clone, Copy, PartialEq, Eq, Structural)]
pub enum Command {
    /// Write a configuration to start from.
    Init { force: bool },
    /// Check whether the configured tunnels can work.
    Check,
    /// Run the tunnels, as is done without a command.
    Run,
}

#[derive(Debug)]
pub struct Cli {
    pub command: Option<Command>,
    pub config: Option<String>,
}

/// What the search for a configuration depends on: two environment variables, and which of the
/// candidates are there.
#[derive(Debug)]
pub struct Surroundings {
    pub xdg_config_home: Option<String>,
    pub home: Option<String>,
    pub existing: Vec<String>,
}

/// The characters of a text that may be missing.
pub open spec fn chars_if_any(s: Option<String>) -> Option<Seq<char>> {
    match s {
        Some(t) => Some(t@),
        None => None,
    }
}

/// A text, where there is one that is not empty.
pub open spec fn filled(s: Option<Seq<char>>) -> Option<Seq<char>> {
    match s {
        Some(t) => if t.len() > 0 {
            Some(t)
        } else {
            None
        },
        None => None,
    }
}

/// The path of `name` in the directory `dir`. An empty `dir` is the current directory.
pub open spec fn in_dir(dir: Seq<char>, name: Seq<char>) -> Seq<char> {
    if dir.len() == 0 {
        name
    } else if dir.last() == '/' {
        dir + name
    } else {
        dir + "/"@ + name
    }
}

/// The directory for configurations at home. A variable that is empty counts as not set.
pub open spec fn home_dir(home: Option<Seq<char>>) -> Option<Seq<char>> {
    match filled(home) {
        Some(h) => Some(in_dir(h, ".config"@)),
        None => None,
    }
}

/// The path of the configuration below a directory for configurations.
pub open spec fn own_file(dir: Seq<char>) -> Seq<char> {
    in_dir(in_dir(dir, "ipbridge"@), DEFAULT_CONFIG_NAME@)
}

/// The path of the configuration below a directory, where there is one.
pub open spec fn place_below(dir: Option<Seq<char>>) -> Seq<Seq<char>> {
    match dir {
        Some(d) => seq![own_file(d)],
        None => Seq::empty(),
    }
}

/// Where a configuration is looked for, in this order: in the current directory, in the directory
/// for configurations that is set, and in the one at home.
pub open spec fn config_places(
    xdg_config_home: Option<Seq<char>>,
    home: Option<Seq<char>>,
) -> Seq<Seq<char>> {
    seq![DEFAULT_CONFIG_NAME@] + place_below(filled(xdg_config_home)) + place_below(home_dir(home))
}

/// The characters of each of some texts.
pub open spec fn chars_of_each(texts: Seq<String>) -> Seq<Seq<char>> {
    texts.map_values(|t: String| t@)
}

/// The first of some places that is there.
pub open spec fn first_existing(places: Seq<Seq<char>>, existing: Seq<Seq<char>>) -> Option<
    Seq<char>,
>
    decreases places.len(),
{
    if places.len() == 0 {
        None
    } else if existing.contains(places[0]) {
        Some(places[0])
    } else {
        first_existing(places.drop_first(), existing)
    }
}

/// The path of the configuration without a search.
pub open spec fn plain_path(given: Option<Seq<char>>) -> Seq<char> {
    match given {
        Some(path) => path,
        None => DEFAULT_CONFIG_NAME@,
    }
}

/// The path of the configuration: the one that is given, or else the first place that is there.
pub open spec fn found_path(
    given: Option<Seq<char>>,
    places: Seq<Seq<char>>,
    existing: Seq<Seq<char>>,
) -> Option<Seq<char>> {
    match given {
        Some(path) => Some(path),
        None => first_existing(places, existing),
    }
}

impl Surroundings {
    /// Where a configuration is looked for here.
    pub open spec fn places(self) -> Seq<Seq<char>> {
        config_places(chars_if_any(self.xdg_config_home), chars_if_any(self.home))
    }

    /// Whether `path` is there.
    fn has(&self, path: &str) -> (found: bool)
        ensures
            found == chars_of_each(self.existing@).contains(path@),
    {
        let ghost all = chars_of_each(self.existing@);
        let mut i: usize = 0;
        while i < self.existing.len()
            invariant
                i <= self.existing@.len(),
                all == chars_of_each(self.existing@),
                forall|j: int| 0 <= j < i ==> all[j] != path@,
            decreases self.existing@.len() - i,
        {
            assert(all[i as int] == self.existing@[i as int]@);
            if text::same_text(self.existing[i].as_str(), path) {
                return true;
            }
            i = i + 1;
        }
        false
    }
}

fn join(dir: &str, name: &str) -> (path: String)
    ensures
        path@ == in_dir(dir@, name@),
{
    let chars = text::chars_of(dir);
    let n: usize = chars.len();
    if n == 0 {
        return name.to_owned();
    }
    let mut path = dir.to_owned();
    if chars[n - 1] != '/' {
        path.append("/");
    }
    path.append(name);
    path
}

/// A text, where there is one that is not empty.
fn non_empty(s: &Option<String>) -> (t: Option<String>)
    ensures
        chars_if_any(t) == filled(chars_if_any(*s)),
{
    match s {
        Some(t) => if text::chars_of(t.as_str()).len() > 0 {
            Some(t.clone())
        } else {
            None
        },
        None => None,
    }
}

/// The directory for configurations that is set.
pub fn xdg_config_dir(surroundings: &Surroundings) -> (dir: Option<String>)
    ensures
        chars_if_any(dir) == filled(chars_if_any(surroundings.xdg_config_home)),
{
    non_empty(&surroundings.xdg_config_home)
}

/// The directory for configurations at home.
pub fn home_config_dir(surroundings: &Surroundings) -> (dir: Option<String>)
    ensures
        chars_if_any(dir) == home_dir(chars_if_any(surroundings.home)),
{
    match non_empty(&surroundings.home) {
        Some(home) => Some(join(home.as_str(), ".config")),
        None => None,
    }
}

fn join_own_file(dir: &str) -> (path: String)
    ensures
        path@ == own_file(dir@),
{
    let own = join(dir, "ipbridge");
    join(own.as_str(), DEFAULT_CONFIG_NAME)
}

/// Where a configuration is looked for, in this order.
pub fn config_candidates(surroundings: &Surroundings) -> (candidates: Vec<String>)
    ensures
        chars_of_each(candidates@) == surroundings.places(),
{
    let mut candidates: Vec<String> = Vec::new();
    candidates.push(DEFAULT_CONFIG_NAME.to_owned());
    if let Some(dir) = xdg_config_dir(surroundings) {
        candidates.push(join_own_file(dir.as_str()));
    }
    if let Some(dir) = home_config_dir(surroundings) {
        candidates.push(join_own_file(dir.as_str()));
    }
    assert(chars_of_each(candidates@) =~= surroundings.places());
    candidates
}

impl Cli {
    /// The path of the configuration, without a search.
    pub fn config_path(&self) -> (path: String)
        ensures
            path@ == match self.config {
                Some(p) => p@,
                None => DEFAULT_CONFIG_NAME@,
            },
            path@ == plain_path(chars_if_any(self.config)),
    {
        match &self.config {
            Some(p) => p.clone(),
            None => DEFAULT_CONFIG_NAME.to_owned(),
        }
    }

    /// The path of the configuration: the one that is given, or else the first place where there
    /// is one.
    pub fn resolve_config_path(&self, surroundings: &Surroundings) -> (path: Option<String>)
        ensures
            chars_if_any(path) == match self.config {
                Some(p) => Some(p@),
                None => first_existing(
                    surroundings.places(),
                    chars_of_each(surroundings.existing@),
                ),
            },
            chars_if_any(path) == found_path(
                chars_if_any(self.config),
                surroundings.places(),
                chars_of_each(surroundings.existing@),
            ),
    {
        if let Some(p) = &self.config {
            return Some(p.clone());
        }
        let candidates = config_candidates(surroundings);
        let ghost places = surroundings.places();
        let ghost existing = chars_of_each(surroundings.existing@);
        let mut i: usize = 0;
        assert(places.skip(0) =~= places);
        while i < candidates.len()
            invariant
                self.config is None,
                i <= candidates@.len(),
                places == surroundings.places(),
                places == chars_of_each(candidates@),
                existing == chars_of_each(surroundings.existing@),
                first_existing(places, existing) == first_existing(
                    places.skip(i as int),
                    existing,
                ),
            decreases candidates@.len() - i,
        {
            assert(places.skip(i as int)[0] == candidates@[i as int]@);
            assert(places.skip(i as int).drop_first() =~= places.skip(i + 1));
            if surroundings.has(candidates[i].as_str()) {
                return Some(candidates[i].clone());
            }
            i = i + 1;
        }
        None
    }
}

/// A configuration in the current directory is taken before any other; without one, the one in
/// the directory that is set; without that, the one at home, even where another directory is set;
/// and without that, none.
pub proof fn law_current_directory_comes_first(
    xdg_config_home: Option<Seq<char>>,
    home: Option<Seq<char>>,
    existing: Seq<Seq<char>>,
)
    ensures
        ({
            let found = first_existing(config_places(xdg_config_home, home), existing);
            let (xdg, at_home) = (filled(xdg_config_home), home_dir(home));
            if existing.contains(DEFAULT_CONFIG_NAME@) {
                found == Some(DEFAULT_CONFIG_NAME@)
            } else if xdg is Some && existing.contains(own_file(xdg->0)) {
                found == Some(own_file(xdg->0))
            } else if at_home is Some && existing.contains(own_file(at_home->0)) {
                found == Some(own_file(at_home->0))
            } else {
                found is None
            }
        }),
{
    let places = config_places(xdg_config_home, home);
    let rest = places.drop_first();
    reveal_with_fuel(first_existing, 4);
    assert(places[0] == DEFAULT_CONFIG_NAME@);
    assert(rest =~= place_below(filled(xdg_config_home)) + place_below(home_dir(home)));
    if filled(xdg_config_home) is Some {
        assert(rest.drop_first() =~= place_below(home_dir(home)));
    }
}

/// What is found is there, and is one of the places where a configuration is looked for.
pub proof fn law_found_configuration_exists(places: Seq<Seq<char>>, existing: Seq<Seq<char>>)
    ensures
        first_existing(places, existing) matches Some(found) ==> existing.contains(found)
            && places.contains(found),
    decreases places.len(),
{
    if places.len() > 0 && !existing.contains(places[0]) {
        let rest = places.drop_first();
        law_found_configuration_exists(rest, existing);
        if let Some(found) = first_existing(rest, existing) {
            let i = rest.index_of(found);
            assert(places[i + 1] == found);
        }
    }
}

/// An empty variable counts as one that is not set.
pub proof fn law_empty_variable_counts_as_unset(other: Option<Seq<char>>)
    ensures
        config_places(Some(Seq::empty()), other) == config_places(None, other),
        config_places(other, Some(Seq::empty())) == config_places(other, None),
{
}

/// A path ends with the name and starts with the directory, with one slash between them at least
/// and none added where there is one. In the current directory it is the name alone.
pub proof fn law_path_is_directory_and_name(dir: Seq<char>, name: Seq<char>)
    ensures
        name.is_suffix_of(in_dir(dir, name)),
        dir.is_prefix_of(in_dir(dir, name)),
        dir.len() == 0 ==> in_dir(dir, name) == name,
        dir.len() > 0 ==> (seq!['/'] + name).is_suffix_of(in_dir(dir, name)),
        dir.len() > 0 && dir.last() == '/' ==> in_dir(dir, name).len() == dir.len() + name.len(),
        dir.len() > 0 && dir.last() != '/' ==> in_dir(dir, name).len() == dir.len() + 1
            + name.len(),
{
    reveal_strlit("/");
    let path = in_dir(dir, name);
    assert(path.subrange(path.len() - name.len(), path.len() as int) =~= name);
    assert(path.subrange(0, dir.len() as int) =~= dir);
    if dir.len() > 0 {
        assert(path.subrange(path.len() - name.len() - 1, path.len() as int) =~= seq!['/'] + name);
    }
}

/// The configuration below a directory is `ipbridge/config.toml` there, and the directory at home
/// is `.config` there.
pub proof fn law_own_file_and_home(dir: Seq<char>)
    requires
        dir.len() > 0,
        dir.last() != '/',
    ensures
        own_file(dir) == dir + "/ipbridge/config.toml"@,
        own_file(dir + seq!['/']) == dir + "/ipbridge/config.toml"@,
        home_dir(Some(dir)) == Some(dir + "/.config"@),
        home_dir(Some(dir + seq!['/'])) == Some(dir + "/.config"@),
        home_dir(None) is None,
        filled(Some(dir)) == Some(dir),
        filled(None) is None,
{
    reveal_strlit("/");
    reveal_strlit("ipbridge");
    reveal_strlit("config.toml");
    reveal_strlit(".config");
    reveal_strlit("/.config");
    reveal_strlit("/ipbridge/config.toml");
    let slashed = dir + seq!['/'];
    assert(slashed.last() == '/');
    assert(in_dir(slashed, "ipbridge"@) =~= in_dir(dir, "ipbridge"@));
    assert(in_dir(dir, "ipbridge"@).last() == 'e');
    assert(own_file(dir) =~= dir + "/ipbridge/config.toml"@);
    assert(in_dir(dir, ".config"@) =~= dir + "/.config"@);
    assert(in_dir(slashed, ".config"@) =~= dir + "/.config"@);
}

/// The places below a directory and at home, for every directory.
pub proof fn law_places_below_a_directory(dir: Seq<char>, text: Option<Seq<char>>)
    ensures
        own_file(dir) == in_dir(in_dir(dir, "ipbridge"@), "config.toml"@),
        dir.len() > 0 ==> filled(Some(dir)) == Some(dir),
        dir.len() > 0 ==> home_dir(Some(dir)) == Some(in_dir(dir, ".config"@)),
        place_below(Some(dir)) == seq![own_file(dir)],
        place_below(None) == Seq::<Seq<char>>::empty(),
        config_places(text, None).first() == "config.toml"@,
{
}

/// A path that is given is taken, whatever is there; without one, what the search finds is, or,
/// without a search, the file in the current directory.
pub proof fn law_given_path_is_taken(
    given: Option<Seq<char>>,
    places: Seq<Seq<char>>,
    existing: Seq<Seq<char>>,
)
    ensures
        given is Some ==> found_path(given, places, existing) == given,
        given is None ==> found_path(given, places, existing) == first_existing(places, existing),
        given is Some ==> plain_path(given) == given->0,
        given is None ==> plain_path(given) == "config.toml"@,
{
}

/// What is seen of texts is their characters, one text for one text.
pub proof fn law_texts_are_their_characters(text: String, texts: Seq<String>, i: int)
    requires
        0 <= i < texts.len(),
    ensures
        chars_if_any(Some(text)) == Some(text@),
        chars_if_any(None) is None,
        chars_of_each(texts).len() == texts.len(),
        chars_of_each(texts)[i] == texts[i]@,
{
}

} // verus!
