use vstd::prelude::*;

verus! {

/// The point that world poses are expressed relative to before they are
/// handed to the renderer: an entity's world position, followed every frame,
/// or a fixed point. Entities are named by their 64-bit identifier.
#[derive(Clone, Debug)]
pub enum WorldOrigin<P> {
    Entity(u64),
    Position(P),
}

/// The origin resolved for the current frame.
#[derive(Clone, Debug)]
pub struct SimpleWorldOrigin<P> {
    pub origin: P,
}

/// The origin of a frame: a fixed point as given; a followed entity's world
/// position where the entity has one, and otherwise the previous frame's
/// origin.
pub open spec fn resolved_origin<P>(origin: WorldOrigin<P>, followed: Option<P>, cached: P) -> P {
    match origin {
        WorldOrigin::Position(p) => p,
        WorldOrigin::Entity(_) => match followed {
            Some(q) => q,
            None => cached,
        },
    }
}

/// Resolving the origin again, with the same setting and the followed entity
/// where it was, gives the same origin: a frame in which nothing moved leaves
/// the origin as it was.
pub proof fn lemma_resolution_is_stable<P>(origin: WorldOrigin<P>, followed: Option<P>, cached: P)
    ensures
        resolved_origin(origin, followed, resolved_origin(origin, followed, cached)) == resolved_origin(
            origin,
            followed,
            cached,
        ),
{
}

impl<P> WorldOrigin<P> {
    /// The entity whose world position the origin follows, if any.
    pub fn followed_entity(&self) -> (r: Option<u64>)
        ensures
            r == match *self {
                WorldOrigin::Entity(e) => Some(e),
                WorldOrigin::Position(_) => None,
            },
    {
        match self {
            WorldOrigin::Entity(e) => Some(*e),
            WorldOrigin::Position(_) => None,
        }
    }
}

impl<P: Copy> SimpleWorldOrigin<P> {
    pub fn new(origin: P) -> (r: Self)
        ensures
            r.origin == origin,
    {
        SimpleWorldOrigin { origin }
    }

    /// Resolves the origin for this frame, given the followed entity's world
    /// position as it stands after propagation (`None` where that entity is
    /// gone or has no world pose).
    pub fn refresh(&mut self, origin: &WorldOrigin<P>, followed: Option<P>)
        ensures
            final(self).origin == resolved_origin(*origin, followed, old(self).origin),
    {
        match origin {
            WorldOrigin::Position(p) => {
                self.origin = *p;
            },
            WorldOrigin::Entity(_) => {
                if let Some(q) = followed {
                    self.origin = q;
                }
            },
        }
    }
}

} // verus!
