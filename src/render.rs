//! What the renderer takes from the field: the droplet program's uniform
//! bindings and one instance per live droplet.
use vstd::prelude::*;
use crate::droplet::Droplet;

verus! {

/// A uniform of the droplet program, with its location.
#[derive(Clone, Copy, Debug, PartialEq, Eq, Structural)]
pub enum Uniform {
    /// The texture sampler, bound to texture unit zero.
    Texture(i32),
    /// The viewport resolution.
    Resolution(i32),
    Model(i32),
    View(i32),
    Projection(i32),
}

/// The droplet program's uniform locations; a uniform the program lacks has none.
#[derive(Clone, Copy, Debug, PartialEq, Eq, Structural)]
pub struct Drop {
    pub program_model_location: Option<i32>,
    pub program_view_location: Option<i32>,
    pub program_projection_location: Option<i32>,
    pub texture_location: Option<i32>,
    pub resolution_location: Option<i32>,
}

pub open spec fn bound_if_present(loc: Option<i32>, u: Uniform) -> Seq<Uniform> {
    if loc is Some {
        seq![u]
    } else {
        seq![]
    }
}

/// The uniforms a draw sets, in order: texture, resolution, model, view,
/// projection, each only where the program has it.
pub open spec fn uniform_plan(d: Drop) -> Seq<Uniform> {
    bound_if_present(d.texture_location, Uniform::Texture(d.texture_location->Some_0))
        + bound_if_present(d.resolution_location, Uniform::Resolution(d.resolution_location->Some_0))
        + bound_if_present(d.program_model_location, Uniform::Model(d.program_model_location->Some_0))
        + bound_if_present(d.program_view_location, Uniform::View(d.program_view_location->Some_0))
        + bound_if_present(
        d.program_projection_location,
        Uniform::Projection(d.program_projection_location->Some_0),
    )
}

impl Drop {
    pub fn new(
        program_model_location: Option<i32>,
        program_view_location: Option<i32>,
        program_projection_location: Option<i32>,
        texture_location: Option<i32>,
        resolution_location: Option<i32>,
    ) -> (d: Drop)
        ensures
            d == (Drop {
                program_model_location,
                program_view_location,
                program_projection_location,
                texture_location,
                resolution_location,
            }),
    {
        Drop {
            program_model_location,
            program_view_location,
            program_projection_location,
            texture_location,
            resolution_location,
        }
    }

    /// The uniforms to set before a draw, in the order they are set.
    pub fn render(&self) -> (r: Vec<Uniform>)
        ensures
            r@ == uniform_plan(*self),
    {
        let mut r: Vec<Uniform> = Vec::new();
        if let Some(l) = self.texture_location {
            r.push(Uniform::Texture(l));
        }
        if let Some(l) = self.resolution_location {
            r.push(Uniform::Resolution(l));
        }
        if let Some(l) = self.program_model_location {
            r.push(Uniform::Model(l));
        }
        if let Some(l) = self.program_view_location {
            r.push(Uniform::View(l));
        }
        if let Some(l) = self.program_projection_location {
            r.push(Uniform::Projection(l));
        }
        assert(r@ =~= uniform_plan(*self));
        r
    }
}

/// The instances of the first `n` droplets: `(x, y, size)` of each live one,
/// in slot order.
pub open spec fn instances(ds: Seq<Droplet>, n: int) -> Seq<(i64, i64, i64)>
    decreases n,
{
    if n <= 0 {
        seq![]
    } else if ds[n - 1].deleted {
        instances(ds, n - 1)
    } else {
        instances(ds, n - 1).push((ds[n - 1].x, ds[n - 1].y, ds[n - 1].size))
    }
}

/// The instance data of the live droplets: `(x, y, size)` of each, in slot
/// order. Deleted droplets have none.
pub fn live_instances(droplets: &Vec<Droplet>) -> (r: Vec<(i64, i64, i64)>)
    ensures
        r@ == instances(droplets@, droplets@.len() as int),
{
    let mut r: Vec<(i64, i64, i64)> = Vec::new();
    let mut i: usize = 0;
    while i < droplets.len()
        invariant
            i <= droplets@.len(),
            r@ == instances(droplets@, i as int),
        decreases droplets@.len() - i,
    {
        let d = droplets[i];
        if !d.deleted {
            r.push((d.x, d.y, d.size));
        }
        i = i + 1;
    }
    r
}

} // verus!
