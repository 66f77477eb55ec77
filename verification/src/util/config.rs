use vstd::prelude::*;

verus! {

/// How the quadtree is built.
#[derive(Clone, Copy, Debug, PartialEq, Eq, Structural)]
pub enum QuadTreeConfig {
    /// The bounding box is cut in four this many times at most.
    FixedDepth(u8),
}

/// Whether the engine keeps a grid of distances to the nearest hazard.
#[derive(Clone, Copy, Debug, PartialEq, Eq, Structural)]
pub enum HazProxConfig {
    Disabled,
    /// The grid has about `n_cells` cells.
    Enabled { n_cells: usize },
}

/// How the surrogate of an item is built.
#[derive(Clone, Copy, Debug, PartialEq, Eq, Structural)]
pub struct SPSurrogateConfig {
    /// The share of the shape's area, in percent, that the poles should
    /// cover.
    pub pole_coverage_goal: u8,
    /// The greatest number of poles.
    pub max_poles: usize,
    /// How many poles are tested before anything else.
    pub n_ff_poles: usize,
    /// How many piers are built.
    pub n_ff_piers: usize,
}

/// The configuration of a collision detection engine. It is given once,
/// when the engine is built.
#[derive(Clone, Copy, Debug, PartialEq, Eq, Structural)]
pub struct CDEConfig {
    pub quadtree: QuadTreeConfig,
    pub haz_prox: HazProxConfig,
    pub item_surrogate_config: SPSurrogateConfig,
}

impl QuadTreeConfig {
    /// The greatest depth of the tree.
    pub fn depth(&self) -> (d: u8)
        ensures
            d == self->0,
    {
        match self {
            QuadTreeConfig::FixedDepth(d) => *d,
        }
    }
}

impl Default for CDEConfig {
    /// A tree of depth 4, a proximity grid of 10000 cells, and surrogates of
    /// at most 10 poles that aim at 90 percent of the area, with one pole and
    /// one pier tested first.
    fn default() -> (c: CDEConfig)
        ensures
            c == (CDEConfig {
                quadtree: QuadTreeConfig::FixedDepth(4),
                haz_prox: HazProxConfig::Enabled { n_cells: 10000 },
                item_surrogate_config: SPSurrogateConfig {
                    pole_coverage_goal: 90,
                    max_poles: 10,
                    n_ff_poles: 1,
                    n_ff_piers: 1,
                },
            }),
    {
        CDEConfig {
            quadtree: QuadTreeConfig::FixedDepth(4),
            haz_prox: HazProxConfig::Enabled { n_cells: 10000 },
            item_surrogate_config: SPSurrogateConfig {
                pole_coverage_goal: 90,
                max_poles: 10,
                n_ff_poles: 1,
                n_ff_piers: 1,
            },
        }
    }
}

} // verus!
