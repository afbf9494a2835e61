//! Sprite identifiers and per-sprite geometry used when a gate tree is
//! painted as a circuit diagram.  Loading and compositing the sprite
//! images themselves is left to an unverified drawing layer; this module
//! holds only the plain geometric data that layer consumes.

use vstd::prelude::*;

verus! {

/// The kinds of sprite a diagram can show.
#[derive(Hash, PartialEq, Eq, Structural, Clone, Copy, Debug)]
pub enum Sprite {
    AND,
    NAND,
    OR,
    NOR,
    XOR,
    XNOR,
    NOT,
    INPUT,
}

/// The drawable geometry of one sprite: its bounding box and the vertical
/// offsets (relative to the sprite's top edge) of its input and output
/// connection anchors.
#[derive(Hash, PartialEq, Eq, Debug)]
pub struct SpriteInfo {
    pub width: u32,
    pub height: u32,
    pub inputs: Vec<u32>,
    pub outputs: Vec<u32>,
}

impl SpriteInfo {
    pub fn new(width: u32, height: u32, inputs: Vec<u32>, outputs: Vec<u32>) -> (r: SpriteInfo)
        ensures
            r.width == width,
            r.height == height,
            r.inputs@ == inputs@,
            r.outputs@ == outputs@,
    {
        SpriteInfo { width, height, inputs, outputs }
    }
}

/// True when `info` holds exactly the geometry the drawing layer expects
/// for `sprite`: every sprite is 90x40; two-input gates anchor their
/// inputs at 9 and 29 and their output at 19; NOT anchors both at 21;
/// INPUT has no input anchors and its output at 21.
pub open spec fn spec_sprite_info(sprite: Sprite, info: SpriteInfo) -> bool {
    &&& info.width == 90
    &&& info.height == 40
    &&& match sprite {
        Sprite::NOT => info.inputs@ =~= seq![21u32] && info.outputs@ =~= seq![21u32],
        Sprite::INPUT => info.inputs@ =~= Seq::<u32>::empty() && info.outputs@ =~= seq![21u32],
        _ => info.inputs@ =~= seq![9u32, 29u32] && info.outputs@ =~= seq![19u32],
    }
}

/// The geometry table for every sprite kind.
pub fn sprite_info(sprite: Sprite) -> (r: SpriteInfo)
    ensures
        spec_sprite_info(sprite, r),
{
    match sprite {
        Sprite::NOT => SpriteInfo::new(90, 40, vec![21], vec![21]),
        Sprite::INPUT => SpriteInfo::new(90, 40, vec![], vec![21]),
        _ => SpriteInfo::new(90, 40, vec![9, 29], vec![19]),
    }
}

} // verus!
