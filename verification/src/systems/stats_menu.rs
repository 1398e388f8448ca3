use crate::cfg;
use crate::cmtp::{DialogKind, DialogView, PlayerAction, PlayerState};
use crate::engine::game::{Stat, World, WorldView};
use crate::text::{int_text, int_to_string};
use vstd::prelude::*;

verus! {

/// The experience a character of `level` needs to reach the next level.
pub open spec fn level_up_xp(level: int) -> int {
    cfg::LEVEL_UP_BASE + level * cfg::LEVEL_UP_FACTOR
}

/// Computing `level_up_xp(level)` stays within `i32`.
pub open spec fn level_up_fits(level: int) -> bool {
    &&& i32::MIN <= level * cfg::LEVEL_UP_FACTOR <= i32::MAX
    &&& i32::MIN <= level_up_xp(level) <= i32::MAX
}

/// The text of the character-information window.
pub open spec fn stats_text(level: int, xp: int, max_hp: int, attack: int, defense: int) -> Seq<char> {
    "Character information\n\nLevel: "@ + int_text(level) + "\nExperience: "@ + int_text(xp)
        + "\nExperience to level up: "@ + int_text(level_up_xp(level)) + "\n\nMaximum HP: "@
        + int_text(max_hp) + "\nAttack: "@ + int_text(attack) + "\nDefense: "@ + int_text(defense)
}

/// The numbers the window shows fit an `i32`.
pub open spec fn stats_fit(w: WorldView) -> bool {
    let id = w.player.id;
    &&& w.stat_fits(id, Stat::MaxHp)
    &&& w.stat_fits(id, Stat::Power)
    &&& w.stat_fits(id, Stat::Defense)
    &&& level_up_fits(w.char_of(id).level as int)
}

/// The world after a frame of the stats system: asking for character
/// information during a turn opens a window with the player's numbers.
pub open spec fn stats_menu_step(w: WorldView) -> WorldView {
    let id = w.player.id;
    if w.player.state == PlayerState::MakingTurn && w.player.action == PlayerAction::OpenCharInfo
        && w.is_character(id) {
        let c = w.char_of(id);
        w.with_dialog(
            DialogView {
                kind: DialogKind::MessageBox,
                header: stats_text(
                    c.level as int,
                    c.xp as int,
                    w.stat(id, Stat::MaxHp),
                    w.stat(id, Stat::Power),
                    w.stat(id, Stat::Defense),
                ),
                options: seq![],
                width: cfg::CHARACTER_SCREEN_WIDTH,
            },
        )
    } else {
        w
    }
}

pub fn update(world: &mut World)
    requires
        old(world)@.wf(),
        old(world).id_count < u32::MAX,
        old(world)@.player.state == PlayerState::MakingTurn && old(world)@.player.action
            == PlayerAction::OpenCharInfo && old(world)@.is_character(old(world)@.player.id)
            ==> stats_fit(old(world)@),
    ensures
        final(world)@.wf(),
        final(world)@ == stats_menu_step(old(world)@),
{
    let should_open_stats = (world.player.state == PlayerState::MakingTurn) && (world.player.action
        == PlayerAction::OpenCharInfo);
    if !should_open_stats {
        return;
    }
    let id = world.player.id;
    let (level, xp) = match world.get_character(id) {
        Some((_, _, player, _)) => (player.level, player.xp),
        None => return,
    };
    // show character information
    let level_up_xp = cfg::LEVEL_UP_BASE + level * cfg::LEVEL_UP_FACTOR;
    let mut msg = String::from_str("Character information\n\nLevel: ");
    msg.append(int_to_string(level).as_str());
    msg.append("\nExperience: ");
    msg.append(int_to_string(xp).as_str());
    msg.append("\nExperience to level up: ");
    msg.append(int_to_string(level_up_xp).as_str());
    msg.append("\n\nMaximum HP: ");
    msg.append(int_to_string(world.max_hp(id)).as_str());
    msg.append("\nAttack: ");
    msg.append(int_to_string(world.power(id)).as_str());
    msg.append("\nDefense: ");
    msg.append(int_to_string(world.defense(id)).as_str());
    let options: Vec<String> = Vec::new();
    proof {
        assert(options@.map_values(|o: String| o@) =~= seq![]);
    }
    world.add_dialog_box(DialogKind::MessageBox, msg, options, cfg::CHARACTER_SCREEN_WIDTH);
}

/// Whether a frame of the stats system can run.
pub fn is_ready(world: &World) -> (r: bool)
    requires
        world@.wf(),
    ensures
        r == (world.id_count < u32::MAX && (world@.player.state == PlayerState::MakingTurn && world@.player.action
            == PlayerAction::OpenCharInfo && world@.is_character(world@.player.id) ==> stats_fit(world@))),
{
    if world.id_count == u32::MAX {
        return false;
    }
    if !(world.player.state == PlayerState::MakingTurn && world.player.action == PlayerAction::OpenCharInfo) {
        return true;
    }
    match world.get_character(world.player.id) {
        Some((_, _, c, _)) => {
            let level_ok = check_level_up_fits(c.level);
            level_ok && world.check_stat_fits(world.player.id, Stat::MaxHp) && world.check_stat_fits(
                world.player.id,
                Stat::Power,
            ) && world.check_stat_fits(world.player.id, Stat::Defense)
        },
        None => true,
    }
}

/// Whether computing the experience for the next level stays within `i32`.
pub fn check_level_up_fits(level: i32) -> (r: bool)
    ensures
        r == level_up_fits(level as int),
{
    let l = level as i64;
    assert(-0x1_0000_0000_0000 <= l * 150 <= 0x1_0000_0000_0000) by (nonlinear_arith)
        requires
            -0x8000_0000 <= l <= 0x8000_0000,
    ;
    let f = l * 150;
    let x = cfg::LEVEL_UP_BASE as i64 + f;
    i32::MIN as i64 <= f && f <= i32::MAX as i64 && i32::MIN as i64 <= x && x <= i32::MAX as i64
}

} // verus!
