use game_core::collision::CollisionLayer;

const ALL: [CollisionLayer; 5] = [
    CollisionLayer::Environment,
    CollisionLayer::Player,
    CollisionLayer::PlayerProjectile,
    CollisionLayer::Enemy,
    CollisionLayer::EnemyProjectile,
];

#[test]
fn layer_rule_is_symmetric() {
    for a in ALL {
        for b in ALL {
            assert_eq!(a.collides_with(b), b.collides_with(a));
        }
    }
}

#[test]
fn only_own_projectiles_are_exempt() {
    let mut exempt = Vec::new();
    for a in ALL {
        for b in ALL {
            if !a.collides_with(b) {
                exempt.push((a, b));
            }
        }
    }
    assert_eq!(
        exempt,
        vec![
            (CollisionLayer::Player, CollisionLayer::PlayerProjectile),
            (CollisionLayer::PlayerProjectile, CollisionLayer::Player),
            (CollisionLayer::Enemy, CollisionLayer::EnemyProjectile),
            (CollisionLayer::EnemyProjectile, CollisionLayer::Enemy),
        ]
    );
    assert!(CollisionLayer::Player.collides_with(CollisionLayer::Player));
    assert!(CollisionLayer::PlayerProjectile.collides_with(CollisionLayer::EnemyProjectile));
}
