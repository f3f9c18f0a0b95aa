//! The fugue synthesizer: feeds an attack through the information triangle
//! into the wave cube, and replenishes the cube from the pentagon when it
//! runs dry. The verdict it draws from similarities is computed with floats
//! outside this library; the steps here are the cube and triangle updates.

use vstd::prelude::*;
use crate::bits::words_for;
use crate::hypervector::{any_vector_words, lemma_wf_any_words, Hypervector};
use crate::information_triangle::{can_ingest, ingested, InformationTriangle};
use crate::wave_cube::{bindable, cell_coords, cell_index, flow_defined, flow_view, horner, WaveCube};

verus! {

/// Where a detected bug sits, as far as it is known.
pub struct BugLocation {
    pub file: Option<String>,
    pub line: Option<usize>,
    pub column: Option<usize>,
    pub function: Option<String>,
    pub code_snippet: Option<String>,
}

/// Combines the cube, the triangle and the pentagon into a bug verdict; it
/// keeps only the dimension of the vectors it creates.
pub struct FugaSynthesizer {
    pub dim: usize,
}

/// The vertex's words exactly cover its dimension.
pub open spec fn tight(h: Hypervector) -> bool {
    h.words@.len() == words_for(h.dim as nat)
}

impl FugaSynthesizer {
    pub fn new(dim: usize) -> (s: Self)
        ensures
            s.dim == dim,
    {
        FugaSynthesizer { dim }
    }

    /// The first step of a synthesis: the attack is ingested by the
    /// triangle, whose three vertices are then absorbed into the cube.
    pub fn absorb_attack<const N: usize, const S: usize>(
        &self,
        cube: &mut WaveCube<N, S>,
        triangle: &mut InformationTriangle,
        attack: &Hypervector,
    )
        requires
            can_ingest(*old(triangle), *attack),
            tight(old(triangle).vertex_syntax),
            tight(old(triangle).vertex_semantics),
            tight(old(triangle).vertex_chaos),
            old(cube).can_absorb(
                old(triangle).vertex_syntax@,
                old(triangle).vertex_semantics@,
                old(triangle).vertex_chaos@,
            ),
        ensures
            final(triangle).dim == old(triangle).dim,
            final(triangle).accumulator_count == old(triangle).accumulator_count + 1,
            ingested(*old(triangle), *attack, *final(triangle)),
            final(cube).dim == old(cube).dim,
            final(cube).wf(),
            final(cube)@ == WaveCube::<N, S>::absorbed(
                old(cube)@,
                final(triangle).vertex_syntax@,
                final(triangle).vertex_semantics@,
                final(triangle).vertex_chaos@,
            ),
    {
        triangle.ingest_pattern(attack);
        let (syn, sem, chaos) = triangle.emit_to_cube();
        cube.absorb_from_triangle(syn, sem, chaos);
    }

    /// Replenishing a cube: a fresh random well-formed vector of the
    /// synthesizer's dimension is written at the centre cell, then the cube
    /// flows one step along each of its first three axes. Cells that were
    /// well formed of the cube's dimension stay so.
    pub fn replenish<const N: usize, const S: usize>(&self, cube: &mut WaveCube<N, S>)
        requires
            N >= 3,
            self.dim <= usize::MAX - 63,
            old(cube).wf(),
            cell_index(N as nat, S as nat, (S / 2) as usize, (S / 2) as usize, (S / 2) as usize) < old(cube)@.len(),
            flow_defined(N as nat, S as nat, 0, 1),
            flow_defined(N as nat, S as nat, 1, 1),
            flow_defined(N as nat, S as nat, 2, 1),
        ensures
            final(cube).dim == old(cube).dim,
            final(cube).wf(),
            old(cube).cells_wf() && self.dim == old(cube).dim ==> final(cube).cells_wf(),
            exists|fresh: (usize, Seq<u64>)|
                fresh.0 == self.dim && any_vector_words(self.dim as nat, fresh.1) && final(cube)@ == flow_view(
                    flow_view(
                        flow_view(
                            old(cube)@.update(
                                cell_index(N as nat, S as nat, (S / 2) as usize, (S / 2) as usize, (S / 2) as usize),
                                fresh,
                            ),
                            N as nat,
                            S as nat,
                            0,
                            1,
                        ),
                        N as nat,
                        S as nat,
                        1,
                        1,
                    ),
                    N as nat,
                    S as nat,
                    2,
                    1,
                ),
    {
        let fresh = Hypervector::random(self.dim);
        let m = S / 2;
        cube.write_cell(m, m, m, &fresh);
        let ghost c1 = cube@;
        cube.wave_flow_x(1);
        let ghost c2 = cube@;
        cube.wave_flow_y(1);
        let ghost c3 = cube@;
        cube.wave_flow_z(1);
        assert(c2 == flow_view(c1, N as nat, S as nat, 0, 1));
        assert(c3 == flow_view(c2, N as nat, S as nat, 1, 1));
        assert(cube@ == flow_view(c3, N as nat, S as nat, 2, 1));
        proof {
            lemma_wf_any_words(fresh);
        }
        assert(fresh@.0 == self.dim && any_vector_words(self.dim as nat, fresh@.1));
    }
}

} // verus!
