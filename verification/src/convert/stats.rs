//! Counts of a conversion.
use vstd::prelude::*;

verus! {

/// Counts describing one completed conversion.
///
/// `symbol_functions` and `dwarf_functions` overlap: a function present in both
/// the symbol table and the DWARF is counted once in each, and the builder keeps
/// the richer record. `rejected_ranges` includes expected linker tombstones as
/// well as invalid or unrepresentable input ranges.
#[derive(Clone, Copy, Debug, PartialEq, Eq, Structural)]
pub struct ConversionStats {
    /// Distinct functions imported from ELF symbol tables.
    pub symbol_functions: usize,
    /// Functions imported from DWARF DIEs.
    pub dwarf_functions: usize,
    /// Skeleton units whose matching DWO or DWP data was imported.
    pub split_dwarf_units: usize,
    /// Source-line rows attached to imported functions.
    pub line_rows: usize,
    /// Inline nodes attached to imported functions.
    pub inline_nodes: usize,
    /// Dead, invalid, or unrepresentable address ranges rejected.
    ///
    /// Expected zero, `-1`, or `-2` linker tombstones are counted here but do
    /// not produce individual conversion warnings.
    pub rejected_ranges: usize,
}

/// Counts of a conversion that has imported nothing.
pub open spec fn no_counts() -> ConversionStats {
    ConversionStats {
        symbol_functions: 0,
        dwarf_functions: 0,
        split_dwarf_units: 0,
        line_rows: 0,
        inline_nodes: 0,
        rejected_ranges: 0,
    }
}

impl Default for ConversionStats {
    fn default() -> (stats: Self)
        ensures
            stats == no_counts(),
    {
        ConversionStats {
            symbol_functions: 0,
            dwarf_functions: 0,
            split_dwarf_units: 0,
            line_rows: 0,
            inline_nodes: 0,
            rejected_ranges: 0,
        }
    }
}

/// A count with some more, as far as numbers go.
pub open spec fn more(count: usize, added: nat) -> usize {
    if count + added <= usize::MAX {
        (count + added) as usize
    } else {
        usize::MAX
    }
}

} // verus!
