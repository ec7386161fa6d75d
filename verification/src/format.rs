//! The weight format of a hypergraph in its textual exchange representation.

use vstd::prelude::*;

verus! {

/// The type of hypergraph in regard to it having net and/or vertex weights.
#[derive(Debug, Clone, Copy, PartialEq, Eq, Structural)]
pub enum Format {
    /// Neither the vertices nor the nets are weighted.
    Unweighted,
    /// Nets have weights, but vertices do not.
    NetWeights,
    /// Vertices have weights, but nets do not.
    VertexWeights,
    /// Vertices and nets are weighted.
    Weighted,
}

impl Format {
    /// Inverts the format for creating a dual hypergraph.
    pub fn dual(&self) -> (r: Self)
        ensures
            r == self.dual_spec(),
    {
        match self {
            Self::Unweighted => Self::Unweighted,
            Self::NetWeights => Self::VertexWeights,
            Self::VertexWeights => Self::NetWeights,
            Self::Weighted => Self::Weighted,
        }
    }

    /// The format of the dual hypergraph: the roles of net and vertex
    /// weights are exchanged.
    pub open spec fn dual_spec(self) -> Self {
        match self {
            Self::Unweighted => Self::Unweighted,
            Self::NetWeights => Self::VertexWeights,
            Self::VertexWeights => Self::NetWeights,
            Self::Weighted => Self::Weighted,
        }
    }

    pub fn contains_vertex_weights(&self) -> (r: bool)
        ensures
            r == self.has_vertex_weights(),
    {
        self == &Self::VertexWeights || self == &Self::Weighted
    }

    pub fn contains_net_weights(&self) -> (r: bool)
        ensures
            r == self.has_net_weights(),
    {
        self == &Self::NetWeights || self == &Self::Weighted
    }

    pub open spec fn has_vertex_weights(self) -> bool {
        self == Self::VertexWeights || self == Self::Weighted
    }

    pub open spec fn has_net_weights(self) -> bool {
        self == Self::NetWeights || self == Self::Weighted
    }
}

/// Taking the dual format twice restores the original format.
pub proof fn lemma_format_dual_involutive(f: Format)
    ensures
        f.dual_spec().dual_spec() == f,
{
}

} // verus!
