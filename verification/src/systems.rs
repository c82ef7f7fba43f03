//! Shells of the per-frame systems that consume the geometry core's
//! output.  The drawing they do each frame runs against the GPU and the
//! windowing stack, outside this library; what belongs to the library is
//! their constructed state — the subscription to the primitive event
//! channel, kept as a plain handle — and the screen-activity test used to
//! cull far-away entities.

use vstd::prelude::*;
use crate::geometry::{Point2, pt_in_limit};

verus! {

/// Subscription handle into the host's primitive event channel, kept as a
/// plain identifier.
#[derive(Clone, Copy, Debug, PartialEq, Eq, Structural)]
pub struct ReaderHandle {
    pub id: u64,
}

/// Renders the score table screen; holds its channel subscription.
#[derive(Debug)]
pub struct ScoreTableRendering {
    pub reader: ReaderHandle,
}

impl ScoreTableRendering {
    pub fn new(reader: ReaderHandle) -> (s: ScoreTableRendering)
        ensures
            s.reader == reader,
    {
        ScoreTableRendering { reader }
    }
}

/// Renders the menu screen; holds its channel subscription.
#[derive(Debug)]
pub struct MenuRenderingSystem {
    pub reader: ReaderHandle,
}

impl MenuRenderingSystem {
    pub fn new(reader: ReaderHandle) -> (s: MenuRenderingSystem)
        ensures
            s.reader == reader,
    {
        MenuRenderingSystem { reader }
    }
}

/// Renders the in-game frame, shadows included; holds its channel
/// subscription.
#[derive(Debug)]
pub struct RenderingSystem {
    pub reader: ReaderHandle,
}

impl RenderingSystem {
    pub fn new(reader: ReaderHandle) -> (s: RenderingSystem)
        ensures
            s.reader == reader,
    {
        RenderingSystem { reader }
    }
}

/// Lays out and applies the upgrade choices; stateless between frames.
#[derive(Debug, PartialEq, Eq, Structural)]
pub struct UpgradeGUI {
}

impl Default for UpgradeGUI {
    fn default() -> (r: UpgradeGUI)
        ensures
            r == (UpgradeGUI {  }),
    {
        UpgradeGUI {  }
    }
}

/// Remaining hit points of a ship or asteroid.
#[derive(Clone, Copy, Debug, PartialEq, Eq, Structural)]
pub struct Lifes(pub usize);

/// Remaining shield points, absorbed before life is touched.
#[derive(Clone, Copy, Debug, PartialEq, Eq, Structural)]
pub struct Shield(pub usize);

/// How much of a hit reaches life after the shield phase.  A shield larger
/// than the hit absorbs all of it; a shield that is emptied by the hit
/// absorbs nothing, because the absorbed amount is read from the already
/// emptied shield.
pub open spec fn damage_after_shield(sh: Option<Shield>, dmg: int) -> int {
    match sh {
        Some(s) => if s.0 > 0 && s.0 > dmg {
            0int
        } else {
            dmg
        },
        None => dmg,
    }
}

/// The shield after a hit: reduced when it covers the hit, emptied when it
/// does not, untouched when it was already empty or absent.
pub open spec fn shield_after(sh: Option<Shield>, dmg: int) -> Option<Shield> {
    match sh {
        Some(s) => if s.0 > 0 {
            if s.0 > dmg {
                Some(Shield { 0: (s.0 - dmg) as usize })
            } else {
                Some(Shield { 0: 0 })
            }
        } else {
            Some(s)
        },
        None => None,
    }
}

/// Applies a projectile hit to a life pool behind an optional shield.
/// Returns true exactly when the hit kills: the target was alive and the
/// damage that passed the shield reaches its remaining life.
pub fn process_damage(life: &mut Lifes, shield: &mut Option<Shield>, projectile_damage: usize) -> (
    killed: bool)
    ensures
        *final(shield) == shield_after(*old(shield), projectile_damage as int),
        ({
            let d = damage_after_shield(*old(shield), projectile_damage as int);
            &&& final(life).0 == (if old(life).0 > d {
                old(life).0 - d
            } else {
                0int
            })
            &&& killed == (old(life).0 != 0 && old(life).0 <= d)
        }),
{
    let mut damage = projectile_damage;
    let sh = *shield;
    if let Some(s) = sh {
        if s.0 > 0 {
            if s.0 > damage {
                *shield = Some(Shield(s.0 - damage));
                damage = 0;
            } else {
                // The emptied shield absorbs nothing of this hit: the
                // absorbed amount is read back from the zeroed shield.
                *shield = Some(Shield(0));
            }
        }
    }
    if life.0 == 0 {
        return false;
    }
    if life.0 > damage {
        life.0 = life.0 - damage;
        false
    } else {
        life.0 = 0;
        true
    }
}

/// Is `point` within the active square of the given half-side around the
/// character?  Entities outside it are asleep and skipped by the systems.
pub fn is_active(character_position: Point2, point: Point2, active_area: i64) -> (r: bool)
    requires
        pt_in_limit(character_position),
        pt_in_limit(point),
        0 <= active_area,
    ensures
        r == ({
            let dx = point.x - character_position.x;
            let dy = point.y - character_position.y;
            (if dx < 0 {
                -dx
            } else {
                dx
            }) < active_area && (if dy < 0 {
                -dy
            } else {
                dy
            }) < active_area
        }),
{
    let dx = point.x - character_position.x;
    let dy = point.y - character_position.y;
    let ax = if dx < 0 {
        -dx
    } else {
        dx
    };
    let ay = if dy < 0 {
        -dy
    } else {
        dy
    };
    ax < active_area && ay < active_area
}

} // verus!
