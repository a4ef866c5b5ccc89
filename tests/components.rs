use codepilot_complete::components::{Allegiance, Movable, Tile, WeaponType};

#[test]
fn allegiance_defaults_to_friendly() {
    assert_eq!(Allegiance::default(), Allegiance::Friendly);
    assert_ne!(Allegiance::default(), Allegiance::Enemy);
}

#[test]
fn weapon_defaults_to_laser() {
    assert_eq!(WeaponType::default(), WeaponType::Laser);
    assert_ne!(WeaponType::default(), WeaponType::EMP);
}

#[test]
fn plain_components_hold_their_fields() {
    let t = Tile { x: -3, y: 7 };
    assert_eq!((t.x, t.y), (-3, 7));
    assert!(Movable { auto_despawn: true }.auto_despawn);
}
