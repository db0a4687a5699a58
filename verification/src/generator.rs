//! Candidates: random placements and the stamps prepared for them.

use vstd::prelude::*;
use rand::{Rng, RngCore, SeedableRng};
use rand_xoshiro::Xoshiro256PlusPlus;
use crate::geometry::{lemma_rotated_edge_monotonic, rotated_edge};
use crate::placement::Placement;
use crate::raster::{Picture, Raster};
use crate::stamp::{
    can_hold_stamp, can_resample, is_cutout, prepare, resample_fits, stamp_fits, Fragment,
};

verus! {

/// The xoshiro256++ generator of `rand_xoshiro`, of which nothing is seen
/// here but that it is one.
#[verifier::external_type_specification]
#[verifier::external_body]
pub struct ExXoshiro256PlusPlus(Xoshiro256PlusPlus);

/// A generator seeded with `seed`, by `seed_from_u64` of `rand_xoshiro`.
#[verifier::external_body]
fn seeded(seed: u64) -> (rng: Xoshiro256PlusPlus) {
    Xoshiro256PlusPlus::seed_from_u64(seed)
}

/// A number below `bound`, by `Rng::random_range` of `rand` on `0..bound`,
/// which gives a value of the range and panics on an empty one.
#[verifier::external_body]
fn below(rng: &mut Xoshiro256PlusPlus, bound: usize) -> (drawn: usize)
    requires
        bound > 0,
    ensures
        drawn < bound,
{
    rng.random_range(0..bound)
}

/// The next 32 bits of the stream, by `RngCore::next_u32`.
#[verifier::external_body]
fn word(rng: &mut Xoshiro256PlusPlus) -> (drawn: u32) {
    rng.next_u32()
}

/// The larger of two numbers.
fn larger(a: u32, b: u32) -> (m: u32)
    ensures
        m == vstd::math::max(a as int, b as int),
{
    if a >= b {
        a
    } else {
        b
    }
}

/// The largest size a placement on a canvas of the given dimensions can have:
/// one less than the longer dimension, and at least 1.
pub open spec fn largest_size(width: nat, height: nat) -> nat {
    vstd::math::max(1, vstd::math::max(width as int, height as int) - 1) as nat
}

/// The random numbers behind one placement.
#[derive(Clone, Copy, Debug)]
pub struct Draws {
    /// Which fragment of the library.
    pub fragment: usize,
    /// The centre's column.
    pub x: u32,
    /// The centre's row.
    pub y: u32,
    /// Four sizes, of which the least counts.
    pub sizes: [u32; 4],
    /// The rotation, in parts of a full turn.
    pub turn: u32,
}

impl Draws {
    /// The least of the four sizes drawn.
    pub open spec fn least(self) -> int {
        vstd::math::min(
            vstd::math::min(self.sizes[0] as int, self.sizes[1] as int),
            vstd::math::min(self.sizes[2] as int, self.sizes[3] as int),
        )
    }

    /// The size the draws give: the least of the four, and 1 where that is 0.
    pub open spec fn size(self) -> int {
        if self.least() < 1 {
            1
        } else {
            self.least()
        }
    }

    /// The draws are within what a library of `fragments` fragments and a
    /// target of the given dimensions allow.
    pub open spec fn within(self, fragments: nat, width: nat, height: nat) -> bool {
        &&& self.fragment < fragments
        &&& self.x < width
        &&& self.y < height
        &&& forall|i: int|
            0 <= i < 4 ==> (#[trigger] self.sizes[i]) < vstd::math::max(width as int, height as int)
    }

    /// The placement the draws give on `target` with `library`: centred at
    /// the point drawn, in the target's colour there, of the fragment drawn.
    pub open spec fn placement(self, library: Seq<Fragment>, target: Picture) -> Placement {
        Placement {
            source: library[self.fragment as int].source,
            center_x: self.x,
            center_y: self.y,
            size: self.size() as u32,
            rotation: self.turn,
            color: target.pixel(self.x as int, self.y as int),
        }
    }

    /// The size the draws give.
    pub fn drawn_size(&self) -> (size: u32)
        ensures
            size == self.size(),
            size >= 1,
    {
        let mut least: u32 = self.sizes[0];
        if self.sizes[1] < least {
            least = self.sizes[1];
        }
        if self.sizes[2] < least {
            least = self.sizes[2];
        }
        if self.sizes[3] < least {
            least = self.sizes[3];
        }
        if least < 1 {
            1
        } else {
            least
        }
    }

    /// The placement the draws give on `target` with `library`.
    pub fn place(&self, library: &Vec<Fragment>, target: &Raster) -> (placement: Placement)
        requires
            self.fragment < library@.len(),
            target@.holds(self.x as int, self.y as int),
        ensures
            placement == self.placement(library@, target@),
            placement.well_formed(),
    {
        Placement {
            source: library[self.fragment].source,
            center_x: self.x,
            center_y: self.y,
            size: self.drawn_size(),
            rotation: self.turn,
            color: target.pixel(self.x, self.y),
        }
    }
}

/// A candidate before it is turned and scored: a placement and the stamp
/// prepared for it.
pub struct Proposal {
    pub placement: Placement,
    pub stamp: Raster,
}

impl Proposal {
    /// The stamp is the cutout, in the placement's colour, of a silhouette of
    /// the placement's size, and of `silhouette` itself where that has the
    /// placement's size already.
    pub open spec fn prepared_from(self, silhouette: Picture) -> bool {
        exists|shape: Picture|
            {
                &&& shape.well_formed()
                &&& shape.width == self.placement.size
                &&& shape.height == self.placement.size
                &&& silhouette.width == self.placement.size && silhouette.height
                    == self.placement.size ==> shape == silhouette
                &&& #[trigger] is_cutout(self.stamp@, shape, self.placement.color)
            }
    }
}

/// Stamps of every size that a target of the given dimensions allows can be
/// prepared from every fragment of a library that is not empty, for a target
/// that is not empty.
pub open spec fn proposable(library: Seq<Fragment>, width: nat, height: nat) -> bool {
    &&& library.len() > 0
    &&& width > 0
    &&& height > 0
    &&& stamp_fits(largest_size(width, height))
    &&& forall|k: int|
        0 <= k < library.len() ==> resample_fits(
            (#[trigger] library[k]).silhouette@.width,
            library[k].silhouette@.height,
            largest_size(width, height),
        )
}

/// What can be prepared at one size can be prepared at a smaller one.
pub proof fn lemma_smaller_fits(width: nat, height: nat, size: nat, limit: nat)
    requires
        size <= limit,
    ensures
        stamp_fits(limit) ==> stamp_fits(size),
        resample_fits(width, height, limit) ==> resample_fits(width, height, size),
{
    lemma_rotated_edge_monotonic(size, limit);
    let r = rotated_edge(size);
    let big = rotated_edge(limit);
    assert(4 * r * r <= 4 * big * big) by (nonlinear_arith)
        requires
            0 <= r <= big,
    ;
    assert(4 * size * size <= 4 * limit * limit && 16 * width * size <= 16 * width * limit)
        by (nonlinear_arith)
        requires
            0 <= size <= limit,
            0 <= width,
    ;
}

/// Whether candidates can be proposed for `target` from `library`.
pub fn can_propose(library: &Vec<Fragment>, target: &Raster) -> (ok: bool)
    ensures
        ok == proposable(library@, target@.width, target@.height),
{
    let width: u32 = target.width();
    let height: u32 = target.height();
    if library.len() == 0 || width == 0 || height == 0 {
        return false;
    }
    let longer: u32 = larger(width, height);
    let limit: u32 = if longer - 1 < 1 {
        1
    } else {
        longer - 1
    };
    if !can_hold_stamp(limit) {
        return false;
    }
    let mut k: usize = 0;
    while k < library.len()
        invariant
            k <= library.len(),
            limit == largest_size(target@.width, target@.height),
            forall|i: int|
                0 <= i < k ==> resample_fits(
                    (#[trigger] library@[i]).silhouette@.width,
                    library@[i].silhouette@.height,
                    limit as nat,
                ),
        decreases library.len() - k,
    {
        if !can_resample(library[k].silhouette.width(), library[k].silhouette.height(), limit) {
            return false;
        }
        k = k + 1;
    }
    true
}

/// The source of candidates, with a random stream of its own.
pub struct Generator {
    rng: Xoshiro256PlusPlus,
}

impl Generator {
    /// A generator whose stream starts from `seed`.
    pub fn new(seed: u64) -> (generator: Generator) {
        Generator { rng: seeded(seed) }
    }

    /// Draws a number below `bound`.
    fn coordinate(&mut self, bound: u32) -> (drawn: u32)
        requires
            bound > 0,
        ensures
            drawn < bound,
    {
        below(&mut self.rng, bound as usize) as u32
    }

    /// Draws the numbers for one placement: a fragment, a centre on the
    /// target, four sizes below the target's longer dimension, a rotation.
    pub fn draw(&mut self, fragments: usize, width: u32, height: u32) -> (draws: Draws)
        requires
            fragments > 0,
            width > 0,
            height > 0,
        ensures
            draws.within(fragments as nat, width as nat, height as nat),
    {
        let fragment: usize = below(&mut self.rng, fragments);
        let x: u32 = self.coordinate(width);
        let y: u32 = self.coordinate(height);
        let longer: u32 = larger(width, height);
        let first: u32 = self.coordinate(longer);
        let second: u32 = self.coordinate(longer);
        let third: u32 = self.coordinate(longer);
        let fourth: u32 = self.coordinate(longer);
        let turn: u32 = word(&mut self.rng);
        Draws { fragment, x, y, sizes: [first, second, third, fourth], turn }
    }

    /// The candidate that `draws` give: their placement, and the stamp
    /// prepared for it from the fragment drawn.
    pub fn propose_from(draws: &Draws, library: &Vec<Fragment>, target: &Raster) -> (proposal:
        Proposal)
        requires
            proposable(library@, target@.width, target@.height),
            draws.within(library@.len(), target@.width, target@.height),
        ensures
            proposal.placement == draws.placement(library@, target@),
            proposal.placement.well_formed(),
            proposal.prepared_from(library@[draws.fragment as int].silhouette@),
    {
        let placement = draws.place(library, target);
        proof {
            let limit = largest_size(target@.width, target@.height);
            assert(draws.sizes[0] < vstd::math::max(target@.width as int, target@.height as int));
            assert(placement.size <= limit);
            lemma_smaller_fits(
                library@[draws.fragment as int].silhouette@.width,
                library@[draws.fragment as int].silhouette@.height,
                placement.size as nat,
                limit,
            );
        }
        let stamp = prepare(&library[draws.fragment].silhouette, placement.size, placement.color);
        let proposal = Proposal { placement, stamp };
        proof {
            let silhouette = library@[draws.fragment as int].silhouette@;
            let shape = choose|shape: Picture|
                {
                    &&& shape.well_formed()
                    &&& shape.width == placement.size
                    &&& shape.height == placement.size
                    &&& silhouette.width == placement.size && silhouette.height == placement.size
                        ==> shape == silhouette
                    &&& #[trigger] is_cutout(proposal.stamp@, shape, placement.color)
                };
            assert(is_cutout(proposal.stamp@, shape, proposal.placement.color));
        }
        proposal
    }

    /// Proposes one candidate for `target` from `library`: a placement drawn
    /// at random, with the stamp prepared for it.
    pub fn propose(&mut self, library: &Vec<Fragment>, target: &Raster) -> (proposal: Proposal)
        requires
            proposable(library@, target@.width, target@.height),
        ensures
            exists|draws: Draws|
                {
                    &&& #[trigger] draws.within(library@.len(), target@.width, target@.height)
                    &&& proposal.placement == draws.placement(library@, target@)
                    &&& proposal.prepared_from(library@[draws.fragment as int].silhouette@)
                },
            proposal.placement.well_formed(),
            target@.holds(proposal.placement.center_x as int, proposal.placement.center_y as int),
            proposal.placement.size <= largest_size(target@.width, target@.height),
            proposal.placement.color == target@.pixel(
                proposal.placement.center_x as int,
                proposal.placement.center_y as int,
            ),
    {
        let draws = self.draw(library.len(), target.width(), target.height());
        assert(draws.sizes[0] < vstd::math::max(target@.width as int, target@.height as int));
        Generator::propose_from(&draws, library, target)
    }
}

} // verus!
