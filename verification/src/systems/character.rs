//! Levelling up: enough experience raises the player's level, and the player
//! picks a statistic to raise.
use crate::cfg;
use crate::cmtp::{Character, DialogBox, DialogKind, DialogView, PlayerAction, PlayerState, PlayerView};
use crate::engine::game::{World, WorldView};
use crate::systems::stats_menu::{level_up_fits, level_up_xp};
use crate::text::{int_text, int_to_string};
use vstd::prelude::*;

verus! {

/// Where the player's fighter is stored.
pub open spec fn player_ci(w: WorldView) -> int {
    w.ix(w.player.id).character.unwrap() as int
}

/// During its turn, the player has gathered the experience for the next
/// level: where its fighter is stored.
pub open spec fn spec_lvl_up_player(w: WorldView) -> Option<int> {
    if w.player.state == PlayerState::MakingTurn && w.has(w.player.id) {
        let c = w.characters[player_ci(w)];
        if c.xp >= level_up_xp(c.level as int) {
            Some(player_ci(w))
        } else {
            None
        }
    } else {
        None
    }
}

/// The numbers of a level-up fit an `i32`.
pub open spec fn lvl_up_fits(c: Character) -> bool {
    &&& level_up_fits(c.level as int)
    &&& c.level + 1 <= i32::MAX
    &&& i32::MIN <= c.xp - level_up_xp(c.level as int) <= i32::MAX
}

/// The player's fighter, when it has gathered the experience for the next
/// level during its turn.
fn get_lvl_up_player(world: &World) -> (r: Option<usize>)
    requires
        world@.wf(),
        world@.player.state == PlayerState::MakingTurn && world@.has(world@.player.id) ==> {
            &&& world@.ix(world@.player.id).character is Some
            &&& level_up_fits(world@.characters[player_ci(world@)].level as int)
        },
    ensures
        r matches Some(ci) ==> spec_lvl_up_player(world@) == Some(ci as int),
        r is None ==> spec_lvl_up_player(world@) is None,
{
    if world.player.state != PlayerState::MakingTurn {
        return None;
    }
    match world.get_indexes(world.player.id) {
        Some(ix) => {
            proof {
                world@.lemma_wf_indexes(world@.player.id);
            }
            let ci = ix.character.unwrap();
            let c = &world.characters[ci];
            let level_up_xp = cfg::LEVEL_UP_BASE + c.level * cfg::LEVEL_UP_FACTOR;
            if c.xp >= level_up_xp {
                Some(ci)
            } else {
                None
            }
        },
        None => None,
    }
}

fn is_lvl_up_menu(dialog_box: &DialogBox) -> (r: bool)
    ensures
        r == (dialog_box.kind == DialogKind::LevelUp),
{
    dialog_box.kind == DialogKind::LevelUp
}

pub open spec fn level_reached_msg(level: int) -> Seq<char> {
    "Your battle skills grow stronger! You reached level "@ + int_text(level) + "!"@
}

/// The choices of the level-up menu, with the numbers they raise.
pub open spec fn lvl_up_options(c: Character) -> Seq<Seq<char>> {
    seq![
        "Constitution (+20 HP, from "@ + int_text(c.base_max_hp as int) + ")"@,
        "Strength (+1 attack, from "@ + int_text(c.base_power as int) + ")"@,
        "Agility (+1 defense, from "@ + int_text(c.base_defense as int) + ")"@,
    ]
}

/// The player's fighter after the `choice`-th option of the level-up menu
/// (`None` for anything else).
pub open spec fn raised(c: Character, choice: usize) -> Option<Character> {
    if choice == 0 {
        Some(Character { base_max_hp: (c.base_max_hp + 20) as i32, hp: (c.hp + 20) as i32, ..c })
    } else if choice == 1 {
        Some(Character { base_power: (c.base_power + 1) as i32, ..c })
    } else if choice == 2 {
        Some(Character { base_defense: (c.base_defense + 1) as i32, ..c })
    } else {
        None
    }
}

/// The level-up menu is on top of the dialogs.
pub open spec fn lvl_up_is_open(w: WorldView) -> bool {
    w.dialogs.len() > 0 && w.dialogs.last().kind == DialogKind::LevelUp
}

/// The world after a frame of the character system.
///
/// During its turn, a player with the experience for the next level goes up
/// a level (the experience it took is spent), is told so, and gets the menu
/// of statistics to raise. With that menu on top, picking one of its three
/// options raises the statistic and closes the menu.
pub open spec fn character_step(w: WorldView) -> WorldView {
    match spec_lvl_up_player(w) {
        Some(ci) => {
            let c = w.characters[ci];
            let c1 = Character { level: (c.level + 1) as i32, xp: (c.xp - level_up_xp(c.level as int)) as i32, ..c };
            let w1 = WorldView { characters: w.characters.update(ci, c1), ..w };
            let w2 = w1.with_log(level_reached_msg(c.level + 1), cfg::color_orange());
            let w3 = w2.with_dialog(
                DialogView {
                    kind: DialogKind::LevelUp,
                    header: "Level up! Choose a stat to raise:\n"@,
                    options: lvl_up_options(c),
                    width: cfg::LEVEL_SCREEN_WIDTH,
                },
            );
            WorldView { player: PlayerView { state: PlayerState::InDialog, ..w3.player }, ..w3 }
        },
        None => if lvl_up_is_open(w) {
            match w.player.action {
                PlayerAction::SelectMenuItem(choice) => match raised(w.characters[player_ci(w)], choice) {
                    Some(c) => {
                        let d = w.dialogs.drop_last();
                        WorldView {
                            characters: w.characters.update(player_ci(w), c),
                            dialogs: d,
                            player: PlayerView {
                                state: if d.len() == 0 { PlayerState::MakingTurn } else { w.player.state },
                                ..w.player
                            },
                            ..w
                        }
                    },
                    None => w,
                },
                _ => w,
            }
        } else {
            w
        },
    }
}

/// The statistic the `choice`-th option of the level-up menu raises still
/// fits an `i32` once raised (the other choices raise nothing).
pub open spec fn choice_fits(c: Character, choice: usize) -> bool {
    if choice == 0 {
        c.base_max_hp + 20 <= i32::MAX && c.hp + 20 <= i32::MAX
    } else if choice == 1 {
        c.base_power + 1 <= i32::MAX
    } else if choice == 2 {
        c.base_defense + 1 <= i32::MAX
    } else {
        true
    }
}

/// What a frame of the character system needs: the player's fighter where
/// it is looked at, and numbers that fit an `i32` after the change: those
/// of a level-up, or else the statistic the choice in the open level-up menu
/// raises.
pub open spec fn character_ready(w: WorldView) -> bool {
    let c = w.characters[player_ci(w)];
    &&& (w.player.state == PlayerState::MakingTurn && w.has(w.player.id)) ==> {
        &&& w.ix(w.player.id).character is Some
        &&& level_up_fits(c.level as int)
        &&& (c.xp >= level_up_xp(c.level as int) ==> lvl_up_fits(c) && w.id_count + 2 <= u32::MAX)
    }
    &&& (lvl_up_is_open(w) && spec_lvl_up_player(w) is None) ==> {
        &&& w.has(w.player.id)
        &&& w.ix(w.player.id).character is Some
        &&& (w.player.action matches PlayerAction::SelectMenuItem(k) ==> choice_fits(c, k))
    }
}

pub fn update(world: &mut World)
    requires
        old(world)@.wf(),
        character_ready(old(world)@),
    ensures
        final(world)@.wf(),
        final(world)@ == character_step(old(world)@),
{
    let ghost pre = world@;
    let lvl_up_is_open = match world.dialogs.last() {
        Some(d) => is_lvl_up_menu(d),
        None => false,
    };
    let lvl_up_player = get_lvl_up_player(world);
    if let Some(ci) = lvl_up_player {
        // it is! level up
        proof {
            pre.lemma_wf_indexes(pre.player.id);
        }
        let mut player = world.characters[ci];
        let new_level = player.level + 1;
        let base_max_hp = player.base_max_hp;
        let base_power = player.base_power;
        let base_defense = player.base_defense;
        let level_up_xp = cfg::LEVEL_UP_BASE + player.level * cfg::LEVEL_UP_FACTOR;
        player.level = player.level + 1;
        player.xp = player.xp - level_up_xp;
        world.characters.set(ci, player);
        let ghost w1 = world@;
        proof {
            assert forall|i: int| 0 <= i < w1.entities.len() implies w1.indexes_wf(#[trigger] w1.entities[i].1) by {
                assert(pre.indexes_wf(pre.entities[i].1));
            }
        }
        let mut msg = String::from_str("Your battle skills grow stronger! You reached level ");
        msg.append(int_to_string(new_level).as_str());
        msg.append("!");
        world.add_log(cfg::color_orange(), msg);
        let header = String::from_str("Level up! Choose a stat to raise:\n");
        let mut o1 = String::from_str("Constitution (+20 HP, from ");
        o1.append(int_to_string(base_max_hp).as_str());
        o1.append(")");
        let mut o2 = String::from_str("Strength (+1 attack, from ");
        o2.append(int_to_string(base_power).as_str());
        o2.append(")");
        let mut o3 = String::from_str("Agility (+1 defense, from ");
        o3.append(int_to_string(base_defense).as_str());
        o3.append(")");
        let options = vec![o1, o2, o3];
        proof {
            assert(options@.map_values(|o: String| o@) =~= lvl_up_options(pre.characters[ci as int]));
        }
        world.add_dialog_box(DialogKind::LevelUp, header, options, cfg::LEVEL_SCREEN_WIDTH);
        world.player.state = PlayerState::InDialog;
        proof {
            assert(world@.player.look_at =~= character_step(pre).player.look_at);
        }
    } else if lvl_up_is_open {
        let ix = world.get_indexes(world.player.id).unwrap();
        proof {
            pre.lemma_wf_indexes(pre.player.id);
        }
        let ci = ix.character.unwrap();
        let mut player = world.characters[ci];
        let should_close_dialog = match world.player.action {
            PlayerAction::SelectMenuItem(0) => {
                player.base_max_hp = player.base_max_hp + 20;
                player.hp = player.hp + 20;
                true
            },
            PlayerAction::SelectMenuItem(1) => {
                player.base_power = player.base_power + 1;
                true
            },
            PlayerAction::SelectMenuItem(2) => {
                player.base_defense = player.base_defense + 1;
                true
            },
            _ => false,
        };
        if should_close_dialog {
            world.characters.set(ci, player);
            world.dialogs.pop();
            if world.dialogs.len() == 0 {
                world.player.state = PlayerState::MakingTurn;
            }
            proof {
                assert(world@.player.look_at =~= character_step(pre).player.look_at);
                assert(world@.dialogs =~= character_step(pre).dialogs);
                assert(world@.characters =~= character_step(pre).characters);
                assert forall|i: int| 0 <= i < world@.entities.len() implies world@.indexes_wf(
                    #[trigger] world@.entities[i].1,
                ) by {
                    assert(pre.indexes_wf(pre.entities[i].1));
                }
            }
        }
    }
}

/// Going up a level spends exactly the experience it takes (what is left is
/// never negative), raises the level by one, and opens the menu of the three
/// statistics to raise, the player choosing in it.
pub proof fn law_level_up(w: WorldView)
    requires
        w.wf(),
        w.ix(w.player.id).character is Some,
        spec_lvl_up_player(w) is Some,
        lvl_up_fits(w.characters[player_ci(w)]),
    ensures
        ({
            let c = w.characters[player_ci(w)];
            let post = character_step(w);
            let c2 = post.characters[player_ci(w)];
            &&& c2.level == c.level + 1
            &&& c2.xp == c.xp - level_up_xp(c.level as int)
            &&& c2.xp >= 0
            &&& c2.base_max_hp == c.base_max_hp
            &&& c2.hp == c.hp
            &&& post.dialogs.last().kind == DialogKind::LevelUp
            &&& post.dialogs.last().options.len() == 3
            &&& post.player.state == PlayerState::InDialog
        }),
{
    w.lemma_wf_indexes(w.player.id);
}

/// Picking an option of the level-up menu raises one statistic by its step
/// and closes the menu; the player goes back to its turn when no dialog is
/// left.
pub proof fn law_level_up_choice(w: WorldView, choice: usize)
    requires
        w.wf(),
        character_ready(w),
        spec_lvl_up_player(w) is None,
        lvl_up_is_open(w),
        w.player.action == PlayerAction::SelectMenuItem(choice),
        choice < 3,
    ensures
        ({
            let c = w.characters[player_ci(w)];
            let post = character_step(w);
            let c2 = post.characters[player_ci(w)];
            &&& post.dialogs == w.dialogs.drop_last()
            &&& (post.dialogs.len() == 0 ==> post.player.state == PlayerState::MakingTurn)
            &&& c2.level == c.level
            &&& c2.xp == c.xp
            &&& (choice == 0 ==> c2.base_max_hp == c.base_max_hp + 20 && c2.hp == c.hp + 20)
            &&& (choice == 1 ==> c2.base_power == c.base_power + 1)
            &&& (choice == 2 ==> c2.base_defense == c.base_defense + 1)
        }),
{
    w.lemma_wf_indexes(w.player.id);
}

/// Whether a frame of the character system can run.
pub fn is_ready(world: &World) -> (r: bool)
    requires
        world@.wf(),
    ensures
        r == character_ready(world@),
{
    let lvl_up_is_open = match world.dialogs.last() {
        Some(d) => is_lvl_up_menu(d),
        None => false,
    };
    let ix = world.get_indexes(world.player.id);
    match ix {
        Some(ix) => {
            proof {
                world@.lemma_wf_indexes(world@.player.id);
            }
            match ix.character {
                Some(ci) => {
                    let c = world.characters[ci];
                    let level_ok = crate::systems::stats_menu::check_level_up_fits(c.level);
                    let turn_ok = if world.player.state == PlayerState::MakingTurn {
                        if level_ok {
                            let level_up_xp = cfg::LEVEL_UP_BASE + c.level * cfg::LEVEL_UP_FACTOR;
                            c.xp < level_up_xp || (c.level < i32::MAX && (c.xp as i64 - level_up_xp as i64)
                                >= i32::MIN as i64 && (c.xp as i64 - level_up_xp as i64) <= i32::MAX as i64
                                && world.id_count <= u32::MAX - 2)
                        } else {
                            false
                        }
                    } else {
                        true
                    };
                    if !turn_ok {
                        return false;
                    }
                    let levelling = world.player.state == PlayerState::MakingTurn
                        && c.xp >= cfg::LEVEL_UP_BASE + c.level * cfg::LEVEL_UP_FACTOR;
                    if lvl_up_is_open && !levelling {
                        match world.player.action {
                            PlayerAction::SelectMenuItem(0) => c.base_max_hp <= i32::MAX - 20 && c.hp <= i32::MAX - 20,
                            PlayerAction::SelectMenuItem(1) => c.base_power < i32::MAX,
                            PlayerAction::SelectMenuItem(2) => c.base_defense < i32::MAX,
                            _ => true,
                        }
                    } else {
                        true
                    }
                },
                None => !(world.player.state == PlayerState::MakingTurn) && !lvl_up_is_open,
            }
        },
        None => !lvl_up_is_open,
    }
}

} // verus!
