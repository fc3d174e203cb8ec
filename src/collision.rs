//! Collision layers and which of them interact.

use vstd::prelude::*;

verus! {

/// The category a body belongs to for collision filtering.
#[derive(Copy, Clone, Debug, Hash, PartialEq, Eq, Structural)]
pub enum CollisionLayer {
    Environment,
    Player,
    PlayerProjectile,
    Enemy,
    EnemyProjectile,
}

/// Position of a layer in declaration order.
pub open spec fn layer_rank(l: CollisionLayer) -> nat {
    match l {
        CollisionLayer::Environment => 0,
        CollisionLayer::Player => 1,
        CollisionLayer::PlayerProjectile => 2,
        CollisionLayer::Enemy => 3,
        CollisionLayer::EnemyProjectile => 4,
    }
}

/// Whether an ordered pair (lower rank first) is one of the exempt pairs: a
/// layer never collides with its own projectiles.
pub open spec fn is_exempt_ordered(lo: CollisionLayer, hi: CollisionLayer) -> bool {
    ||| (lo == CollisionLayer::Player && hi == CollisionLayer::PlayerProjectile)
    ||| (lo == CollisionLayer::Enemy && hi == CollisionLayer::EnemyProjectile)
}

/// Whether bodies on layers `a` and `b` interact.
pub open spec fn layers_collide(a: CollisionLayer, b: CollisionLayer) -> bool {
    if layer_rank(a) <= layer_rank(b) {
        !is_exempt_ordered(a, b)
    } else {
        !is_exempt_ordered(b, a)
    }
}

/// Whether two layers interact does not depend on the order they are asked in.
pub proof fn lemma_layers_collide_symmetric(a: CollisionLayer, b: CollisionLayer)
    ensures
        layers_collide(a, b) == layers_collide(b, a),
{
}

impl CollisionLayer {
    fn rank(&self) -> (r: u8)
        ensures
            r as nat == layer_rank(*self),
    {
        match self {
            CollisionLayer::Environment => 0,
            CollisionLayer::Player => 1,
            CollisionLayer::PlayerProjectile => 2,
            CollisionLayer::Enemy => 3,
            CollisionLayer::EnemyProjectile => 4,
        }
    }

    /// Whether a body on this layer interacts with one on `other`. The pair is put
    /// in rank order first, so each exempt pair is listed once.
    pub fn collides_with(&self, other: CollisionLayer) -> (r: bool)
        ensures
            r == layers_collide(*self, other),
    {
        let (lo, hi) = if self.rank() <= other.rank() {
            (*self, other)
        } else {
            (other, *self)
        };
        match (lo, hi) {
            (CollisionLayer::Player, CollisionLayer::PlayerProjectile) => false,
            (CollisionLayer::Enemy, CollisionLayer::EnemyProjectile) => false,
            _ => true,
        }
    }
}

} // verus!
