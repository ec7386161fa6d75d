//! The hypergraph exchange text variant that leads with the indexing
//! base and carries the pin count in its header.

use vstd::prelude::*;

use crate::format::Format;
use crate::graph::{append_weight_lines, total_pins, weight_lines, Graph};
use crate::hmetis::{append_net_lines, net_lines_chars};
use crate::text::{append_dec, dec_chars};
use vstd::string::StringExecFns;

verus! {

/// The weight-format code of this variant's header.
pub open spec fn patoh_code_chars(f: Format) -> Seq<char> {
    match f {
        Format::Unweighted => Seq::empty(),
        Format::NetWeights => seq!['2'],
        Format::VertexWeights => seq!['1'],
        Format::Weighted => seq!['3'],
    }
}

/// The header line: the indexing base, vertex count, net count, pin
/// count, and the weight-format code when some weights follow.
pub open spec fn patoh_header_chars(g: Graph) -> Seq<char> {
    (if g.header.one_indexed {
        seq!['1']
    } else {
        seq!['0']
    }) + seq![' '] + dec_chars(g.header.num_vertices as int) + seq![' '] + dec_chars(
        g.header.num_nets as int,
    ) + seq![' '] + dec_chars(total_pins(g.nets@)) + (if g.header.format == Format::Unweighted {
        Seq::<char>::empty()
    } else {
        seq![' '] + patoh_code_chars(g.header.format)
    })
}

/// The whole text of a graph in this variant.
pub open spec fn patoh_chars(g: Graph) -> Seq<char> {
    patoh_header_chars(g) + seq!['\n'] + net_lines_chars(
        g.nets@,
        g.net_weights@,
        g.header.format.has_net_weights(),
    ) + (if g.header.format.has_vertex_weights() {
        weight_lines(g.vertex_weights@)
    } else {
        Seq::<char>::empty()
    })
}

/// Serializes a graph into this variant.
pub fn patoh_text(g: &Graph) -> (r: String)
    requires
        total_pins(g.nets@) <= usize::MAX,
        g.header.format.has_net_weights() ==> g.net_weights@.len() == g.nets@.len(),
    ensures
        r@ == patoh_chars(*g),
{
    let mut out = String::new();
    proof {
        reveal_strlit("0");
        reveal_strlit("1");
        reveal_strlit("2");
        reveal_strlit("3");
        reveal_strlit(" ");
        reveal_strlit("\n");
    }
    if g.header.one_indexed {
        out.append("1");
    } else {
        out.append("0");
    }
    out.append(" ");
    append_dec(&mut out, g.header.num_vertices as u64);
    out.append(" ");
    append_dec(&mut out, g.header.num_nets as u64);
    out.append(" ");
    let pins = g.pin_count();
    append_dec(&mut out, pins as u64);
    match g.header.format {
        Format::Unweighted => (),
        Format::NetWeights => {
            out.append(" ");
            out.append("2");
        },
        Format::VertexWeights => {
            out.append(" ");
            out.append("1");
        },
        Format::Weighted => {
            out.append(" ");
            out.append("3");
        },
    }
    proof {
        reveal_strlit("0");
        reveal_strlit("1");
        reveal_strlit("2");
        reveal_strlit("3");
        reveal_strlit(" ");
        assert(out@ =~= patoh_header_chars(*g));
    }
    out.append("\n");
    append_net_lines(
        &mut out,
        &g.nets,
        &g.net_weights,
        g.header.format.contains_net_weights(),
    );
    if g.header.format.contains_vertex_weights() {
        append_weight_lines(&mut out, &g.vertex_weights);
    }
    proof {
        assert(out@ =~= patoh_chars(*g));
    }
    out
}

/// Enables a structure to be serialized into this hypergraph format.
pub trait ToStringPATOH {
    /// The text the serialization produces.
    spec fn patoh_view(&self) -> Seq<char>;

    /// Serializes this structure into the format's text.
    fn to_string_patoh(&self) -> (r: String)
        ensures
            r@ == self.patoh_view(),
    ;
}

impl ToStringPATOH for Graph {
    /// The format's text of this graph; a graph whose announced net
    /// weights are missing, or whose pin count is not representable,
    /// cannot be laid out and renders empty.
    open spec fn patoh_view(&self) -> Seq<char> {
        if (self.header.format.has_net_weights() && self.net_weights@.len() != self.nets@.len())
            || total_pins(self.nets@) > usize::MAX {
            Seq::empty()
        } else {
            patoh_chars(*self)
        }
    }

    fn to_string_patoh(&self) -> (r: String)
        ensures
            r@ == self.patoh_view(),
    {
        if self.header.format.contains_net_weights() && self.net_weights.len() != self.nets.len() {
            return String::new();
        }
        let mut pins: usize = 0;
        let mut n: usize = 0;
        proof {
            assert(self.nets@.take(0) =~= Seq::empty());
        }
        while n < self.nets.len()
            invariant
                0 <= n <= self.nets@.len(),
                pins == total_pins(self.nets@.take(n as int)),
            decreases self.nets@.len() - n,
        {
            let add = self.nets[n].0.len();
            proof {
                assert(self.nets@.take(n + 1int).drop_last() =~= self.nets@.take(n as int));
                assert(self.nets@.take(n + 1int).last() == self.nets@[n as int]);
            }
            if pins > usize::MAX - add {
                proof {
                    crate::graph::lemma_total_pins_prefix(self.nets@, n + 1int);
                }
                return String::new();
            }
            pins = pins + add;
            n += 1;
        }
        proof {
            assert(self.nets@.take(self.nets@.len() as int) =~= self.nets@);
        }
        patoh_text(self)
    }
}

} // verus!
