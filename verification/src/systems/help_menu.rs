use crate::cmtp::{DialogKind, DialogView, PlayerAction, PlayerState};
use crate::engine::game::{World, WorldView};
use vstd::prelude::*;

verus! {

/// The text of the help window.
pub const HELP_TEXT: &'static str = "           How To Play\n\
               \n\
               \n\
               Save And Exit........Esc\n\
               Look.................Mouse\n\
               Pick Up, Downstairs..Enter\n\
               Inventory............I\n\
               Character Info.......C\n\
               Drop Item............D\n\
               Move Character.......Arrows, Home,\n\
               \x20                    End, Page Up,\n\
               \x20                    Page Down,\n\
               \x20                    Numpad";

/// The world after a frame of the help system: asking for help during a turn
/// opens the help window.
pub open spec fn help_menu_step(w: WorldView) -> WorldView {
    if w.player.state == PlayerState::MakingTurn && w.player.action == PlayerAction::OpenHelp {
        w.with_dialog(DialogView { kind: DialogKind::MessageBox, header: HELP_TEXT@, options: seq![], width: 36 })
    } else {
        w
    }
}

pub fn update(world: &mut World)
    requires
        old(world)@.wf(),
        old(world).id_count < u32::MAX,
    ensures
        final(world)@.wf(),
        final(world)@ == help_menu_step(old(world)@),
{
    let should_open_help = (world.player.state == PlayerState::MakingTurn) && (world.player.action
        == PlayerAction::OpenHelp);
    if !should_open_help {
        return;
    }
    let options: Vec<String> = Vec::new();
    proof {
        assert(options@.map_values(|o: String| o@) =~= seq![]);
    }
    world.add_dialog_box(DialogKind::MessageBox, String::from_str(HELP_TEXT), options, 36);
}

} // verus!
