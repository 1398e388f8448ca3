//! The components an entity of the game world is made of.
use vstd::prelude::*;

verus! {

/// An RGB colour.
#[derive(Clone, Copy, Debug, PartialEq, Eq, Structural)]
pub struct Color {
    pub r: u8,
    pub g: u8,
    pub b: u8,
}

/// What the player is doing and what it asked for in the current frame.
#[derive(Debug)]
pub struct Player {
    pub id: u32,
    pub dungeon_level: u32,
    pub state: PlayerState,
    pub action: PlayerAction,
    pub looking_at: Option<(i32, i32)>,
    pub look_at: Vec<Option<u32>>,
    pub previous_player_position: (i32, i32),
}

impl Default for Player {
    fn default() -> (p: Self)
        ensures
            p.id == 0,
            p.dungeon_level == 0,
            p.state == PlayerState::InMenu,
            p.action == PlayerAction::Nothing,
            p.looking_at is None,
            p.look_at@ == seq![None::<u32>, None, None],
            p.previous_player_position == (0i32, 0i32),
    {
        Player {
            id: 0,
            dungeon_level: 0,
            state: PlayerState::InMenu,
            action: PlayerAction::Nothing,
            looking_at: None,
            look_at: vec![None, None, None],
            previous_player_position: (0, 0),
        }
    }
}

#[derive(Clone, Copy, Debug, PartialEq, Eq, Structural)]
pub enum PlayerState {
    InMenu,
    InDialog,
    MakingTurn,
    /// Waiting for a click that aims the item with this entity id.
    TargetingTile(u32),
}

impl Default for PlayerState {
    fn default() -> (s: Self)
        ensures
            s == PlayerState::InMenu,
    {
        PlayerState::InMenu
    }
}

#[derive(Clone, Copy, Debug, PartialEq, Eq, Structural)]
pub enum PlayerAction {
    /// No action was asked for.
    Nothing,
    Cancel,
    SelectMenuItem(usize),
    LookAt(i32, i32),
    ClickAt(i32, i32),
    GoToUp,
    GoToDown,
    GoToLeft,
    GoToRight,
    GoToUpLeft,
    GoToUpRight,
    GoToDownLeft,
    GoToDownRight,
    SkipTurn,
    InteractWithMap,
    OpenHelp,
    OpenInventory,
    OpenCharInfo,
    DropItem,
}

impl Default for PlayerAction {
    fn default() -> (a: Self)
        ensures
            a == PlayerAction::Nothing,
    {
        PlayerAction::Nothing
    }
}

/// Where and how an entity is drawn.
#[derive(Clone, Copy, Debug, PartialEq, Eq, Structural)]
pub struct Symbol {
    pub x: i32,
    pub y: i32,
    pub glyph: char,
    pub color: Color,
}

/// A tile of the map and its properties
#[derive(Clone, Copy, Debug, PartialEq, Eq, Structural)]
pub struct MapCell {
    pub block: bool,
    pub explored: bool,
    pub block_sight: bool,
    pub in_fov: bool,
}

#[derive(Debug)]
pub struct MapObject {
    pub name: String,
    pub block: bool,
    pub always_visible: bool,
    pub hidden: bool,
}

#[derive(Clone, Copy, Debug, PartialEq, Eq, Structural)]
pub struct Character {
    pub alive: bool,
    pub level: i32,
    pub hp: i32,
    pub base_max_hp: i32,
    pub base_defense: i32,
    pub base_power: i32,
    pub xp: i32,
    pub on_death: DeathCallback,
    pub looking_right: bool,
}

#[derive(Clone, Copy, Debug, PartialEq, Eq, Structural)]
pub enum DeathCallback {
    /// Nothing happens on death.
    Nothing,
    Player,
    Monster,
}

#[derive(Debug)]
pub enum Ai {
    Basic,
    Confused { previous_ai: Box<Ai>, num_turns: i32 },
}

#[derive(Debug)]
pub struct AiOption {
    pub option: Option<Ai>,
}

/// What an item does when it is used.
#[derive(Clone, Copy, Debug, PartialEq, Eq, Structural)]
pub enum Item {
    Medkit,
    SlingshotAmmo,
    Brick,
    BlastingCartridge,
    Melee,
    Clothing,
    /// A weapon held in the hands that hits from a distance.
    Ranged,
}

/// An item together with the entity that carries it (0: nobody).
#[derive(Clone, Copy, Debug, PartialEq, Eq, Structural)]
pub struct OwnedItem {
    pub item: Item,
    pub owner: u32,
}

/// A stack of ammunition of one kind.
#[derive(Clone, Copy, Debug, PartialEq, Eq, Structural)]
pub struct Ammo {
    pub kind: u32,
    pub count: u32,
}

/// An object that can be equipped, yielding bonuses.
#[derive(Clone, Copy, Debug, PartialEq, Eq, Structural)]
pub struct Equipment {
    pub slot: Slot,
    pub equipped: bool,
    pub max_hp_bonus: i32,
    pub defense_bonus: i32,
    pub power_bonus: i32,
}

#[derive(Clone, Copy, Debug, PartialEq, Eq, Structural)]
pub enum Slot {
    Body,
    Hands,
    Ammo,
}

pub open spec fn slot_name(slot: Slot) -> Seq<char> {
    match slot {
        Slot::Body => "body"@,
        Slot::Hands => "hands"@,
        Slot::Ammo => "ammo"@,
    }
}

impl Slot {
    /// The slot's name as it is shown to the player.
    pub fn to_string(&self) -> (s: String)
        ensures
            s@ == slot_name(*self),
    {
        match self {
            Slot::Body => String::from_str("body"),
            Slot::Hands => String::from_str("hands"),
            Slot::Ammo => String::from_str("ammo"),
        }
    }
}

/// A message of the game log, with the colour it is shown in.
#[derive(Debug)]
pub struct LogMessage(pub String, pub Color);

#[derive(Clone, Copy, Debug, PartialEq, Eq, Structural)]
pub enum DialogKind {
    MainMenu,
    MessageBox,
    Inventory,
    DropItem,
    LevelUp,
}

/// A window with a header and a list of options to choose from.
#[derive(Debug)]
pub struct DialogBox {
    pub kind: DialogKind,
    pub header: String,
    pub options: Vec<String>,
    pub width: i32,
}

/// A player as seen by the specifications.
pub struct PlayerView {
    pub id: u32,
    pub dungeon_level: u32,
    pub state: PlayerState,
    pub action: PlayerAction,
    pub looking_at: Option<(i32, i32)>,
    pub look_at: Seq<Option<u32>>,
    pub previous_player_position: (i32, i32),
}

impl View for Player {
    type V = PlayerView;

    open spec fn view(&self) -> PlayerView {
        PlayerView {
            id: self.id,
            dungeon_level: self.dungeon_level,
            state: self.state,
            action: self.action,
            looking_at: self.looking_at,
            look_at: self.look_at@,
            previous_player_position: self.previous_player_position,
        }
    }
}

/// A map object as seen by the specifications.
pub struct MapObjectView {
    pub name: Seq<char>,
    pub block: bool,
    pub always_visible: bool,
    pub hidden: bool,
}

impl View for MapObject {
    type V = MapObjectView;

    open spec fn view(&self) -> MapObjectView {
        MapObjectView {
            name: self.name@,
            block: self.block,
            always_visible: self.always_visible,
            hidden: self.hidden,
        }
    }
}

impl View for LogMessage {
    type V = (Seq<char>, Color);

    open spec fn view(&self) -> (Seq<char>, Color) {
        (self.0@, self.1)
    }
}

/// A dialog as seen by the specifications.
pub struct DialogView {
    pub kind: DialogKind,
    pub header: Seq<char>,
    pub options: Seq<Seq<char>>,
    pub width: i32,
}

impl View for DialogBox {
    type V = DialogView;

    open spec fn view(&self) -> DialogView {
        DialogView {
            kind: self.kind,
            header: self.header@,
            options: self.options@.map_values(|o: String| o@),
            width: self.width,
        }
    }
}

impl MapObject {
    /// A copy of this map object.
    pub fn copy(&self) -> (r: MapObject)
        ensures
            r@ == self@,
    {
        MapObject {
            name: self.name.clone(),
            block: self.block,
            always_visible: self.always_visible,
            hidden: self.hidden,
        }
    }
}

impl LogMessage {
    /// A copy of this message.
    pub fn copy(&self) -> (r: LogMessage)
        ensures
            r@ == self@,
    {
        LogMessage(self.0.clone(), self.1)
    }
}

} // verus!
