//! The requests that a crawl makes of the game's servers, and what the league
//! endpoints answer.

use crate::config::{QUEUE_ID, RANKED_QUEUE_TYPE};
use crate::text::{decimal, push_decimal};
use vstd::prelude::*;
use vstd::string::StringExecFns;

verus! {

/// The endpoints, as limiters and audits name them.
pub const METHOD_APEX: &'static str = "league-v4.apex";

pub const METHOD_ENTRIES: &'static str = "league-v4.entries";

pub const METHOD_BY_PUUID: &'static str = "league-v4.by-puuid";

pub const METHOD_IDS: &'static str = "match-v5.ids";

pub const METHOD_MATCH: &'static str = "match-v5.match";

pub const METHOD_TIMELINE: &'static str = "match-v5.timeline";

/// A player's place on the ladder of a queue.
#[derive(Clone, Debug, PartialEq, Eq)]
pub struct LeagueEntry {
    pub puuid: String,
    pub queue_type: String,
    pub tier: String,
    pub rank: String,
    pub league_points: i32,
    pub wins: i32,
    pub losses: i32,
}

/// A player of an apex league.
#[derive(Clone, Debug, PartialEq, Eq)]
pub struct LeagueListEntry {
    pub puuid: String,
    pub league_points: i32,
    pub wins: i32,
    pub losses: i32,
}

/// A whole apex league.
#[derive(Clone, Debug, PartialEq, Eq)]
pub struct LeagueList {
    pub entries: Vec<LeagueListEntry>,
}

/// A number in decimal, with a sign if it is negative.
pub open spec fn signed_decimal(v: int) -> Seq<char> {
    if v < 0 {
        "-"@ + decimal(-v)
    } else {
        decimal(v)
    }
}

/// Where an apex league is found.
pub open spec fn apex_path(league: Seq<char>) -> Seq<char> {
    "/lol/league/v4/"@ + league + "/by-queue/"@ + RANKED_QUEUE_TYPE@
}

/// Where a page of a ladder band is found.
pub open spec fn entries_path(tier: Seq<char>, division: Seq<char>, page: int) -> Seq<char> {
    "/lol/league/v4/entries/"@ + RANKED_QUEUE_TYPE@ + "/"@ + tier + "/"@ + division + "?page="@
        + decimal(page)
}

/// Where a page of a player's match list is found.
pub open spec fn ids_path(puuid: Seq<char>, start_time_s: Option<i64>, start: int) -> Seq<char> {
    "/lol/match/v5/matches/by-puuid/"@ + puuid + "/ids?queue="@ + decimal(QUEUE_ID as int)
        + "&start="@ + decimal(start) + "&count=100"@ + match start_time_s {
        Some(t) => "&startTime="@ + signed_decimal(t as int),
        None => Seq::empty(),
    }
}

fn push_signed(out: &mut String, v: i64)
    ensures
        final(out)@ == old(out)@ + signed_decimal(v as int),
{
    if v < 0 {
        out.append("-");
        let below: u64 = (-(v + 1)) as u64;
        push_decimal(out, below + 1);
        assert(out@ =~= old(out)@ + signed_decimal(v as int));
    } else {
        push_decimal(out, v as u64);
    }
}

/// A whole apex league.
pub fn apex_league_path(league: &str) -> (res: String)
    ensures
        res@ == apex_path(league@),
{
    let mut out = "/lol/league/v4/".to_string();
    out.append(league);
    out.append("/by-queue/");
    out.append(RANKED_QUEUE_TYPE);
    out
}

/// One page of the ladder of a tier and division.
pub fn league_entries_path(tier: &str, division: &str, page: u32) -> (res: String)
    ensures
        res@ == entries_path(tier@, division@, page as int),
{
    let mut out = "/lol/league/v4/entries/".to_string();
    out.append(RANKED_QUEUE_TYPE);
    out.append("/");
    out.append(tier);
    out.append("/");
    out.append(division);
    out.append("?page=");
    push_decimal(&mut out, page as u64);
    out
}

/// All places of one player.
pub fn league_entries_by_puuid_path(puuid: &str) -> (res: String)
    ensures
        res@ == "/lol/league/v4/entries/by-puuid/"@ + puuid@,
{
    let mut out = "/lol/league/v4/entries/by-puuid/".to_string();
    out.append(puuid);
    out
}

/// One page of a player's ranked matches, newest first; without a start time
/// of any age.
pub fn match_ids_path(puuid: &str, start_time_s: Option<i64>, start: u32) -> (res: String)
    ensures
        res@ == ids_path(puuid@, start_time_s, start as int),
{
    let mut out = "/lol/match/v5/matches/by-puuid/".to_string();
    out.append(puuid);
    out.append("/ids?queue=");
    push_decimal(&mut out, QUEUE_ID as u64);
    out.append("&start=");
    push_decimal(&mut out, start as u64);
    out.append("&count=100");
    let ghost head = out@;
    match start_time_s {
        Some(t) => {
            out.append("&startTime=");
            push_signed(&mut out, t);
            assert(out@ =~= head + ("&startTime="@ + signed_decimal(t as int)));
        },
        None => {
            assert(out@ =~= head + Seq::<char>::empty());
        },
    }
    out
}

/// A match.
pub fn match_path(match_id: &str) -> (res: String)
    ensures
        res@ == "/lol/match/v5/matches/"@ + match_id@,
{
    let mut out = "/lol/match/v5/matches/".to_string();
    out.append(match_id);
    out
}

/// The timeline of a match.
pub fn timeline_path(match_id: &str) -> (res: String)
    ensures
        res@ == "/lol/match/v5/matches/"@ + match_id@ + "/timeline"@,
{
    let mut out = "/lol/match/v5/matches/".to_string();
    out.append(match_id);
    out.append("/timeline");
    out
}

} // verus!
