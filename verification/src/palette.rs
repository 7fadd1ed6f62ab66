//! The fixed palette. The rest of the crate only ever names a bucket; the
//! colour behind each bucket is listed here for whoever draws.

use crate::board::Team;
use vstd::prelude::*;

verus! {

/// The named colours of the game.
#[derive(Clone, Copy, Debug, PartialEq, Eq, Hash, Structural)]
pub enum ColorBucket {
    BackgroundHex,
    Neutral,
    NeutralWeakHighlight,
    NeutralStrongHighlight,
    AllySprite,
    AllyUnusedAction,
    AllyUsedAction,
    AllyBorder,
    AllyCapital,
    AllyCapitalWeakHighlight,
    AllyCapitalStrongHighlight,
    EnemySprite,
    EnemyUnusedAction,
    EnemyUsedAction,
    EnemyBorder,
    EnemyCapital,
    EnemyCapitalWeakHighlight,
    EnemyCapitalStrongHighlight,
}

/// How strongly a tile is emphasised.
#[derive(Clone, Copy, Debug, PartialEq, Eq, Hash, Structural)]
pub enum Highlight {
    Base,
    Weak,
    Strong,
}

/// Red, green, blue and opacity of a bucket, each out of 255.
pub open spec fn rgba_of(bucket: ColorBucket) -> (u8, u8, u8, u8) {
    match bucket {
        ColorBucket::BackgroundHex => (25, 25, 25, 255),
        ColorBucket::Neutral => (40, 40, 40, 255),
        ColorBucket::NeutralWeakHighlight => (60, 60, 60, 255),
        ColorBucket::NeutralStrongHighlight => (90, 90, 90, 255),
        ColorBucket::AllySprite => (70, 130, 250, 255),
        ColorBucket::AllyUnusedAction => (100, 150, 250, 255),
        ColorBucket::AllyUsedAction => (100, 150, 250, 50),
        ColorBucket::AllyBorder => (70, 130, 250, 100),
        ColorBucket::AllyCapital => (70, 70, 200, 255),
        ColorBucket::AllyCapitalWeakHighlight => (100, 100, 240, 255),
        ColorBucket::AllyCapitalStrongHighlight => (150, 150, 255, 255),
        ColorBucket::EnemySprite => (250, 130, 70, 255),
        ColorBucket::EnemyUnusedAction => (250, 150, 100, 255),
        ColorBucket::EnemyUsedAction => (250, 150, 100, 50),
        ColorBucket::EnemyBorder => (200, 70, 70, 100),
        ColorBucket::EnemyCapital => (200, 70, 70, 255),
        ColorBucket::EnemyCapitalWeakHighlight => (240, 100, 100, 255),
        ColorBucket::EnemyCapitalStrongHighlight => (255, 150, 150, 255),
    }
}

/// The bucket a tile of `team` is drawn in at the given emphasis.
pub open spec fn tile_bucket(team: Team, level: Highlight) -> ColorBucket {
    match (team, level) {
        (Team::Neutral, Highlight::Base) => ColorBucket::Neutral,
        (Team::Neutral, Highlight::Weak) => ColorBucket::NeutralWeakHighlight,
        (Team::Neutral, Highlight::Strong) => ColorBucket::NeutralStrongHighlight,
        (Team::Ally, Highlight::Base) => ColorBucket::AllyCapital,
        (Team::Ally, Highlight::Weak) => ColorBucket::AllyCapitalWeakHighlight,
        (Team::Ally, Highlight::Strong) => ColorBucket::AllyCapitalStrongHighlight,
        (Team::Enemy, Highlight::Base) => ColorBucket::EnemyCapital,
        (Team::Enemy, Highlight::Weak) => ColorBucket::EnemyCapitalWeakHighlight,
        (Team::Enemy, Highlight::Strong) => ColorBucket::EnemyCapitalStrongHighlight,
    }
}

/// The bucket of the outline of a territory. Neutral ground has no outline
/// colour of its own and falls back to the neutral tile colour.
pub open spec fn border_bucket(team: Team) -> ColorBucket {
    match team {
        Team::Neutral => ColorBucket::Neutral,
        Team::Ally => ColorBucket::AllyBorder,
        Team::Enemy => ColorBucket::EnemyBorder,
    }
}

/// The bucket of the unused-action tint of a unit of `team`; a unit of no
/// team is tinted as an ally.
pub open spec fn unused_action_bucket(team: Team) -> ColorBucket {
    match team {
        Team::Enemy => ColorBucket::EnemyUnusedAction,
        _ => ColorBucket::AllyUnusedAction,
    }
}

/// The bucket of the used-action tint of a unit of `team`; a unit of no team
/// is tinted as an ally.
pub open spec fn used_action_bucket(team: Team) -> ColorBucket {
    match team {
        Team::Enemy => ColorBucket::EnemyUsedAction,
        _ => ColorBucket::AllyUsedAction,
    }
}

/// Red, green, blue and opacity of a bucket, each out of 255.
pub fn rgba(bucket: ColorBucket) -> (color: (u8, u8, u8, u8))
    ensures
        color == rgba_of(bucket),
{
    match bucket {
        ColorBucket::BackgroundHex => (25, 25, 25, 255),
        ColorBucket::Neutral => (40, 40, 40, 255),
        ColorBucket::NeutralWeakHighlight => (60, 60, 60, 255),
        ColorBucket::NeutralStrongHighlight => (90, 90, 90, 255),
        ColorBucket::AllySprite => (70, 130, 250, 255),
        ColorBucket::AllyUnusedAction => (100, 150, 250, 255),
        ColorBucket::AllyUsedAction => (100, 150, 250, 50),
        ColorBucket::AllyBorder => (70, 130, 250, 100),
        ColorBucket::AllyCapital => (70, 70, 200, 255),
        ColorBucket::AllyCapitalWeakHighlight => (100, 100, 240, 255),
        ColorBucket::AllyCapitalStrongHighlight => (150, 150, 255, 255),
        ColorBucket::EnemySprite => (250, 130, 70, 255),
        ColorBucket::EnemyUnusedAction => (250, 150, 100, 255),
        ColorBucket::EnemyUsedAction => (250, 150, 100, 50),
        ColorBucket::EnemyBorder => (200, 70, 70, 100),
        ColorBucket::EnemyCapital => (200, 70, 70, 255),
        ColorBucket::EnemyCapitalWeakHighlight => (240, 100, 100, 255),
        ColorBucket::EnemyCapitalStrongHighlight => (255, 150, 150, 255),
    }
}

/// The bucket a tile of `team` is drawn in at the given emphasis.
pub fn tile_color(team: Team, level: Highlight) -> (bucket: ColorBucket)
    ensures
        bucket == tile_bucket(team, level),
{
    match team {
        Team::Neutral => match level {
            Highlight::Base => ColorBucket::Neutral,
            Highlight::Weak => ColorBucket::NeutralWeakHighlight,
            Highlight::Strong => ColorBucket::NeutralStrongHighlight,
        },
        Team::Ally => match level {
            Highlight::Base => ColorBucket::AllyCapital,
            Highlight::Weak => ColorBucket::AllyCapitalWeakHighlight,
            Highlight::Strong => ColorBucket::AllyCapitalStrongHighlight,
        },
        Team::Enemy => match level {
            Highlight::Base => ColorBucket::EnemyCapital,
            Highlight::Weak => ColorBucket::EnemyCapitalWeakHighlight,
            Highlight::Strong => ColorBucket::EnemyCapitalStrongHighlight,
        },
    }
}

/// The bucket of the outline of the territory of `team`.
pub fn border_color(team: Team) -> (bucket: ColorBucket)
    ensures
        bucket == border_bucket(team),
{
    match team {
        Team::Neutral => ColorBucket::Neutral,
        Team::Ally => ColorBucket::AllyBorder,
        Team::Enemy => ColorBucket::EnemyBorder,
    }
}

/// The unused-action tint of a unit of `team`.
pub fn unused_action_color(team: Team) -> (bucket: ColorBucket)
    ensures
        bucket == unused_action_bucket(team),
{
    match team {
        Team::Enemy => ColorBucket::EnemyUnusedAction,
        _ => ColorBucket::AllyUnusedAction,
    }
}

/// The used-action tint of a unit of `team`.
pub fn used_action_color(team: Team) -> (bucket: ColorBucket)
    ensures
        bucket == used_action_bucket(team),
{
    match team {
        Team::Enemy => ColorBucket::EnemyUsedAction,
        _ => ColorBucket::AllyUsedAction,
    }
}

} // verus!
