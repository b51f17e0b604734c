//! Reading the answers typed at the prompts and the options: modes, counts, choices
//! of directories and channels, and which channels the automatic mode records.

use vstd::prelude::*;
use crate::number::{parse_u8, parse_unsigned_spec, parse_usize};
use crate::strings::{contains, has_infix, split_on, split_on_char, str_eq};
use crate::twitch::OwlChannel;

verus! {

/// A number typed in, or `default` when it does not read as a `usize`.
pub open spec fn index_or(s: Seq<char>, default: nat) -> nat {
    match parse_unsigned_spec(s, usize::MAX as nat) {
        Some(v) => v,
        None => default,
    }
}

/// A mode typed in, or `default` when it does not read as a `u8` (`parse().unwrap_or(default)`).
pub fn parse_mode(text: &str, default: u8) -> (r: u8)
    ensures
        r == match parse_unsigned_spec(text@, u8::MAX as nat) {
            Some(v) => v as u8,
            None => default,
        },
{
    match parse_u8(text) {
        Some(v) => v,
        None => default,
    }
}

/// A count typed in, or `default` when it does not read as a `usize`.
pub fn parse_count(text: &str, default: usize) -> (r: usize)
    ensures
        r == index_or(text@, default as nat),
{
    match parse_usize(text) {
        Some(v) => v,
        None => default,
    }
}

/// The positions typed in a comma-separated answer, each one that does not read taken as `default`.
fn indices_of(pieces: &Vec<String>, default: usize) -> (r: Vec<usize>)
    ensures
        r@.len() == pieces@.len(),
        forall|k: int| 0 <= k < r@.len() ==> r@[k] == index_or(#[trigger] pieces@[k]@, default as nat),
{
    let mut r: Vec<usize> = Vec::new();
    let mut i: usize = 0;
    while i < pieces.len()
        invariant
            i <= pieces@.len(),
            r@.len() == i,
            forall|k: int| 0 <= k < i ==> r@[k] == index_or(#[trigger] pieces@[k]@, default as nat),
        decreases pieces.len() - i,
    {
        let v = parse_count(pieces[i].as_str(), default);
        r.push(v);
        i = i + 1;
    }
    r
}

/// Which download directories to write playlists for.
pub enum DirSelection {
    /// The directories at these positions.
    Indices(Vec<usize>),
    /// Those without a playlist.
    New,
    /// All of them.
    All,
    /// The directory at this position.
    Index(usize),
}

/// Reads the answer to the choice of directories: positions separated by `,` (one that
/// does not read counts as 9999, which names no directory), `new`, `all`, or a single
/// position (0 when it does not read).
pub fn parse_dir_selection(input: &str) -> (r: DirSelection)
    ensures
        has_infix(input@, ","@) ==> (r matches DirSelection::Indices(v) && v@.len() == split_on(input@, ',').len()
            && forall|k: int| 0 <= k < v@.len() ==> v@[k] == index_or(#[trigger] split_on(input@, ',')[k], 9999)),
        !has_infix(input@, ","@) && input@ == "new"@ ==> r is New,
        !has_infix(input@, ","@) && input@ == "all"@ ==> r is All,
        !has_infix(input@, ","@) && input@ != "new"@ && input@ != "all"@ ==> r == DirSelection::Index(
            index_or(input@, 0) as usize,
        ),
{
    proof {
        reveal_strlit("new");
        reveal_strlit("all");
        assert("new"@ != "all"@) by {
            assert("new"@[0] != "all"@[0]);
        }
    }
    if contains(input, ",") {
        let pieces = split_on_char(input, ',');
        let v = indices_of(&pieces, 9999);
        assert forall|k: int| 0 <= k < v@.len() implies v@[k] == index_or(#[trigger] split_on(input@, ',')[k], 9999) by {
            assert(pieces@[k]@ == split_on(input@, ',')[k]);
        }
        DirSelection::Indices(v)
    } else if str_eq(input, "new") {
        DirSelection::New
    } else if str_eq(input, "all") {
        DirSelection::All
    } else {
        DirSelection::Index(parse_count(input, 0))
    }
}

/// Reads the answer to the choice of channels: positions separated by `,`, or a single
/// one; one that does not read counts as 9999, which names no channel.
pub fn parse_channel_indices(input: &str) -> (r: Vec<usize>)
    ensures
        has_infix(input@, ","@) ==> r@.len() == split_on(input@, ',').len() && forall|k: int|
            0 <= k < r@.len() ==> r@[k] == index_or(#[trigger] split_on(input@, ',')[k], 9999),
        !has_infix(input@, ","@) ==> r@ == seq![index_or(input@, 9999) as usize],
{
    if contains(input, ",") {
        let pieces = split_on_char(input, ',');
        let v = indices_of(&pieces, 9999);
        assert forall|k: int| 0 <= k < v@.len() implies v@[k] == index_or(#[trigger] split_on(input@, ',')[k], 9999) by {
            assert(pieces@[k]@ == split_on(input@, ',')[k]);
        }
        v
    } else {
        let mut r = Vec::new();
        r.push(parse_count(input, 9999));
        r
    }
}

/// Reads the channel names typed in: the pieces between commas, or the whole answer.
pub fn split_channel_names(input: &str) -> (r: Vec<String>)
    ensures
        has_infix(input@, ","@) ==> r@.len() == split_on(input@, ',').len() && forall|k: int|
            0 <= k < r@.len() ==> (#[trigger] r@[k])@ == split_on(input@, ',')[k],
        !has_infix(input@, ","@) ==> r@.len() == 1 && r@[0]@ == input@,
{
    if contains(input, ",") {
        split_on_char(input, ',')
    } else {
        let mut r = Vec::new();
        r.push(input.to_string());
        r
    }
}

/// Which channels the automatic All Access Pass mode records.
pub struct AutoFilter {
    pub three_screen: bool,
    pub pov: bool,
    pub player: String,
    pub team: String,
}

/// The filter from the options; with no option given it records the three-screen streams.
pub fn auto_filter(player: String, team: String, pov: bool, three_screen: bool) -> (r: AutoFilter)
    ensures
        r.player@ == player@,
        r.team@ == team@,
        r.pov == pov,
        r.three_screen == (three_screen || (player@.len() == 0 && team@.len() == 0 && !pov)),
{
    let default = player.as_str().is_empty() && team.as_str().is_empty() && !pov && !three_screen;
    AutoFilter { three_screen: three_screen || default, pov, player, team }
}

/// Whether the filter records a channel with this title, player and team: a three-screen
/// stream (its title holds `Main Stream / Map`), a point-of-view stream (its title holds
/// `POV` or is `Map`), the chosen player's, or the chosen team's.
pub open spec fn wanted(f_three: bool, f_pov: bool, f_player: Seq<char>, f_team: Seq<char>, name: Seq<char>, player: Seq<char>, team: Seq<char>) -> bool {
    (f_three && has_infix(name, "Main Stream / Map"@)) || (f_pov && (has_infix(name, "POV"@) || name
        == "Map"@)) || (f_player.len() > 0 && has_infix(player, f_player)) || (f_team.len() > 0
        && has_infix(team, f_team))
}

/// With a team chosen, every channel of that team is recorded, whatever its title (its
/// point-of-view and its three-screen streams alike); the same holds of a chosen player.
pub proof fn lemma_chosen_team_or_player_is_recorded(
    f_three: bool,
    f_pov: bool,
    f_player: Seq<char>,
    f_team: Seq<char>,
    name: Seq<char>,
    player: Seq<char>,
    team: Seq<char>,
)
    ensures
        f_team.len() > 0 && has_infix(team, f_team) ==> wanted(f_three, f_pov, f_player, f_team, name, player, team),
        f_player.len() > 0 && has_infix(player, f_player) ==> wanted(f_three, f_pov, f_player, f_team, name, player, team),
{
}

/// With no option given, the automatic mode records exactly the three-screen streams.
pub proof fn lemma_default_filter_records_three_screen(name: Seq<char>, player: Seq<char>, team: Seq<char>)
    ensures
        wanted(true, false, Seq::<char>::empty(), Seq::<char>::empty(), name, player, team) <==> has_infix(
            name,
            "Main Stream / Map"@,
        ),
{
}

/// With only a player chosen (no team, no point-of-view or three-screen option), a
/// channel is recorded exactly when its player contains the chosen one.
pub proof fn lemma_player_filter_records_that_player(f_player: Seq<char>, name: Seq<char>, player: Seq<char>, team: Seq<char>)
    requires
        f_player.len() > 0,
    ensures
        wanted(false, false, f_player, Seq::<char>::empty(), name, player, team) <==> has_infix(player, f_player),
{
}

/// With only a team chosen, a channel is recorded exactly when its team contains the
/// chosen one.
pub proof fn lemma_team_filter_records_that_team(f_team: Seq<char>, name: Seq<char>, player: Seq<char>, team: Seq<char>)
    requires
        f_team.len() > 0,
    ensures
        wanted(false, false, Seq::<char>::empty(), f_team, name, player, team) <==> has_infix(team, f_team),
{
}

/// With only the point-of-view option, a channel is recorded exactly when its title
/// holds `POV` or is `Map`; with only the three-screen option, exactly when its title
/// holds `Main Stream / Map`.
pub proof fn lemma_title_filters(name: Seq<char>, player: Seq<char>, team: Seq<char>)
    ensures
        wanted(false, true, Seq::<char>::empty(), Seq::<char>::empty(), name, player, team) <==> (has_infix(
            name,
            "POV"@,
        ) || name == "Map"@),
        wanted(true, false, Seq::<char>::empty(), Seq::<char>::empty(), name, player, team) <==> has_infix(
            name,
            "Main Stream / Map"@,
        ),
{
}

/// Nothing is recorded that no chosen option asks for: a channel whose title is neither
/// a three-screen nor a point-of-view title, whose player does not contain the chosen
/// player (if one is chosen) and whose team does not contain the chosen team (if one is
/// chosen) is not recorded, whatever options are on.
pub proof fn lemma_unasked_channel_is_not_recorded(
    f_three: bool,
    f_pov: bool,
    f_player: Seq<char>,
    f_team: Seq<char>,
    name: Seq<char>,
    player: Seq<char>,
    team: Seq<char>,
)
    requires
        !has_infix(name, "Main Stream / Map"@),
        !has_infix(name, "POV"@),
        name != "Map"@,
        f_player.len() == 0 || !has_infix(player, f_player),
        f_team.len() == 0 || !has_infix(team, f_team),
    ensures
        !wanted(f_three, f_pov, f_player, f_team, name, player, team),
{
}

/// Turning an option on, or choosing a player or team where none was, never stops a
/// channel from being recorded.
pub proof fn lemma_more_options_record_more(
    f_three: bool,
    f_pov: bool,
    f_player: Seq<char>,
    f_team: Seq<char>,
    name: Seq<char>,
    player: Seq<char>,
    team: Seq<char>,
)
    requires
        wanted(f_three, f_pov, f_player, f_team, name, player, team),
    ensures
        wanted(true, f_pov, f_player, f_team, name, player, team),
        wanted(f_three, true, f_player, f_team, name, player, team),
{
}

impl AutoFilter {
    /// Whether the automatic mode records this channel.
    pub fn wants(&self, ch: &OwlChannel) -> (r: bool)
        ensures
            r == wanted(self.three_screen, self.pov, self.player@, self.team@, ch.name@, ch.player@, ch.team@),
    {
        (self.three_screen && contains(&ch.name, "Main Stream / Map")) || (self.pov && (contains(
            &ch.name,
            "POV",
        ) || str_eq(&ch.name, "Map"))) || (!self.player.as_str().is_empty() && contains(
            &ch.player,
            &self.player,
        )) || (!self.team.as_str().is_empty() && contains(&ch.team, &self.team))
    }
}

} // verus!
