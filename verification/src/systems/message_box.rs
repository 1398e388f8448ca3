use crate::cmtp::{DialogBox, DialogKind, PlayerAction, PlayerState, PlayerView};
use crate::engine::game::{World, WorldView};
use vstd::prelude::*;

verus! {

fn is_message_box(dialog_box: &DialogBox) -> (r: bool)
    ensures
        r == (dialog_box.kind == DialogKind::MessageBox),
{
    dialog_box.kind == DialogKind::MessageBox
}

/// The world after a frame of the message-box system: while a message box is
/// on top, the player is in a dialog, and cancelling closes the box.
pub open spec fn message_box_step(w: WorldView) -> WorldView {
    if w.dialogs.len() > 0 && w.dialogs.last().kind == DialogKind::MessageBox {
        if w.player.action == PlayerAction::Cancel {
            let d = w.dialogs.drop_last();
            WorldView {
                dialogs: d,
                player: PlayerView {
                    state: if d.len() == 0 { PlayerState::MakingTurn } else { PlayerState::InDialog },
                    ..w.player
                },
                ..w
            }
        } else {
            WorldView { player: PlayerView { state: PlayerState::InDialog, ..w.player }, ..w }
        }
    } else {
        w
    }
}

pub fn update(world: &mut World)
    requires
        old(world)@.wf(),
    ensures
        final(world)@.wf(),
        final(world)@ == message_box_step(old(world)@),
{
    let ghost pre = world@;
    let message_box_is_open = match world.dialogs.last() {
        Some(d) => is_message_box(d),
        None => false,
    };
    if message_box_is_open {
        world.player.state = PlayerState::InDialog;
        if world.player.action == PlayerAction::Cancel {
            world.dialogs.pop();
            if world.dialogs.len() == 0 {
                world.player.state = PlayerState::MakingTurn;
            }
        }
    }
    proof {
        assert(world@.dialogs =~= message_box_step(pre).dialogs);
        assert(world@.player.look_at =~= message_box_step(pre).player.look_at);
    }
}

} // verus!
