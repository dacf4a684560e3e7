use vstd::prelude::*;

verus! {

/// The settings the pipeline uses, in resolution units and layer counts.
#[derive(Debug, Clone, Copy, PartialEq, Eq, Structural)]
pub struct DiscreteConfig {
    pub nozzle_diameter: i64,
    pub shell_overlap: i64,
    pub shell_infill_overlap: i64,
    pub num_shells: u64,
    pub num_top_layers: usize,
    pub num_bottom_layers: usize,
    pub solid_fill_spacing: i64,
    pub sparse_fill_spacing: i64,
}

/// Settings whose derived offsets fit in 64 bits: lengths below 2^40
/// resolution units, at most 2^20 shells.
pub open spec fn bounded(c: DiscreteConfig) -> bool {
    &&& 0 <= c.nozzle_diameter <= 0x100_0000_0000
    &&& -0x100_0000_0000 <= c.shell_overlap <= 0x100_0000_0000
    &&& -0x100_0000_0000 <= c.shell_infill_overlap <= 0x100_0000_0000
    &&& c.num_shells <= 0x10_0000
}

/// How far shell `i` lies inside the outline: half a nozzle for the first,
/// then a nozzle less the overlap for each further one.
pub open spec fn shell_offset(c: DiscreteConfig, i: int) -> int {
    -(c.nozzle_diameter / 2) - i * (c.nozzle_diameter - c.shell_overlap)
}

/// How far the interior lies inside the outline.
pub open spec fn interior_offset(c: DiscreteConfig) -> int {
    -(c.nozzle_diameter + (c.nozzle_diameter - c.shell_overlap) * (c.num_shells - 1)
        - c.shell_infill_overlap)
}

impl DiscreteConfig {
    /// The offset of the interior from the outline.
    pub fn interior_offset_dsc(&self) -> (r: i64)
        requires
            bounded(*self),
        ensures
            r == interior_offset(*self),
    {
        let nd = self.nozzle_diameter as i128;
        let per = nd - self.shell_overlap as i128;
        let shells = self.num_shells as i128 - 1;
        assert(-1 <= shells <= 0x10_0000);
        assert(-0x200_0000_0000 <= per <= 0x200_0000_0000);
        assert(-0x4000_0000_0000_0000 <= per * shells <= 0x4000_0000_0000_0000)
            by (nonlinear_arith)
            requires
                -1 <= shells <= 0x10_0000,
                -0x200_0000_0000 <= per <= 0x200_0000_0000,
        ;
        let v = -(nd + per * shells - self.shell_infill_overlap as i128);
        v as i64
    }

    /// The offset of each shell from the outline, outermost first.
    pub fn shell_offsets(&self) -> (r: Vec<i64>)
        requires
            bounded(*self),
        ensures
            r@.len() == self.num_shells,
            forall|i: int| 0 <= i < r@.len() ==> #[trigger] r@[i] == shell_offset(*self, i),
    {
        let initial: i64 = -(self.nozzle_diameter / 2);
        let per: i64 = self.nozzle_diameter - self.shell_overlap;
        let mut out: Vec<i64> = Vec::new();
        let mut i: u64 = 0;
        while i < self.num_shells
            invariant
                bounded(*self),
                initial == -(self.nozzle_diameter / 2),
                per == self.nozzle_diameter - self.shell_overlap,
                i <= self.num_shells,
                out@.len() == i,
                forall|j: int| 0 <= j < i ==> #[trigger] out@[j] == shell_offset(*self, j),
            decreases self.num_shells - i,
        {
            assert(-0x4000_0000_0000_0000 <= (i as int) * (per as int) <= 0x4000_0000_0000_0000)
                by (nonlinear_arith)
                requires
                    0 <= i <= 0x10_0000,
                    -0x200_0000_0000 <= per <= 0x200_0000_0000,
            ;
            let step = (i as i64) * per;
            out.push(initial - step);
            i = i + 1;
        }
        out
    }
}

} // verus!
