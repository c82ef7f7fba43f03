use lightpoly::geometry::Point2;
use lightpoly::systems::{
    is_active, process_damage, Lifes, MenuRenderingSystem, ReaderHandle, RenderingSystem,
    ScoreTableRendering, Shield, UpgradeGUI,
};

fn p(x: i64, y: i64) -> Point2 {
    Point2 { x, y }
}

#[test]
fn rendering_systems_keep_their_reader() {
    assert_eq!(ScoreTableRendering::new(ReaderHandle { id: 7 }).reader.id, 7);
    assert_eq!(MenuRenderingSystem::new(ReaderHandle { id: 8 }).reader.id, 8);
    assert_eq!(RenderingSystem::new(ReaderHandle { id: 9 }).reader.id, 9);
}

#[test]
fn upgrade_gui_default() {
    let gui = UpgradeGUI::default();
    assert_eq!(gui, UpgradeGUI {});
}

#[test]
fn shield_absorbs_small_hit() {
    let mut life = Lifes(100);
    let mut shield = Some(Shield(50));
    let killed = process_damage(&mut life, &mut shield, 20);
    assert!(!killed);
    assert_eq!(shield, Some(Shield(30)));
    assert_eq!(life, Lifes(100));
}

#[test]
fn overwhelmed_shield_absorbs_nothing() {
    // The absorbed amount is read from the already emptied shield, so the
    // whole hit reaches life.
    let mut life = Lifes(100);
    let mut shield = Some(Shield(20));
    let killed = process_damage(&mut life, &mut shield, 50);
    assert!(!killed);
    assert_eq!(shield, Some(Shield(0)));
    assert_eq!(life, Lifes(50));
}

#[test]
fn unshielded_hit_reduces_life() {
    let mut life = Lifes(30);
    let mut shield = None;
    assert!(!process_damage(&mut life, &mut shield, 10));
    assert_eq!(life, Lifes(20));
}

#[test]
fn lethal_hit_reports_kill() {
    let mut life = Lifes(10);
    let mut shield = Some(Shield(0));
    assert!(process_damage(&mut life, &mut shield, 10));
    assert_eq!(life, Lifes(0));
    assert_eq!(shield, Some(Shield(0)));
}

#[test]
fn already_dead_is_not_killed_again() {
    let mut life = Lifes(0);
    let mut shield = None;
    assert!(!process_damage(&mut life, &mut shield, 99));
    assert_eq!(life, Lifes(0));
}

#[test]
fn active_square_test() {
    // The active area is a square of half-side 40 units.
    let area = 40_000;
    assert!(is_active(p(0, 0), p(39_999, 0), area));
    assert!(!is_active(p(0, 0), p(40_000, 0), area));
    assert!(!is_active(p(0, 0), p(0, -40_000), area));
    assert!(is_active(p(10_000, 0), p(49_999, -39_999), area));
}
