//! The line-oriented hypergraph exchange text, one-indexed variant:
//! a header line with net count, vertex count and weight-format code, one
//! line per net, then optional vertex-weight lines.  Blank lines and lines
//! opened by the comment marker are ignored while parsing.

use vstd::prelude::*;

use crate::format::Format;
use crate::graph::{
    append_net, append_weight_lines, net_chars, weight_lines, Graph, Header, Net, Weight,
};
use crate::text::{all_digits, append_dec, dec_chars, digits_val, parse_usize_token};
use vstd::string::{StringExecFns, StringSliceAdditionalSpecFns};

verus! {

/// Whether a byte is a space or a horizontal tab.
pub open spec fn is_space_byte(b: u8) -> bool {
    b == 32 || b == 9
}

/// The position of the first line break, or the length when there is
/// none.
pub open spec fn first_newline(s: Seq<u8>) -> nat
    decreases s.len(),
{
    if s.len() == 0 {
        0
    } else if s[0] == 10 {
        0
    } else {
        1 + first_newline(s.drop_first())
    }
}

/// The lines of a byte text, split at line breaks; a trailing line break
/// closes the last line rather than opening an empty one.
pub open spec fn split_lines(s: Seq<u8>) -> Seq<Seq<u8>>
    decreases s.len(),
{
    if s.len() == 0 {
        Seq::empty()
    } else {
        let i = first_newline(s);
        if i >= s.len() {
            seq![s]
        } else {
            seq![s.take(i as int)] + split_lines(s.skip(i + 1int))
        }
    }
}

/// The position of the first space byte, or the length when there is
/// none.
pub open spec fn first_space(s: Seq<u8>) -> nat
    decreases s.len(),
{
    if s.len() == 0 {
        0
    } else if is_space_byte(s[0]) {
        0
    } else {
        1 + first_space(s.drop_first())
    }
}

/// The space-separated tokens of a line.
pub open spec fn tokens(l: Seq<u8>) -> Seq<Seq<u8>>
    decreases l.len(),
{
    if l.len() == 0 {
        Seq::empty()
    } else if is_space_byte(l[0]) {
        tokens(l.drop_first())
    } else {
        let i0 = 1 + first_space(l.drop_first());
        let i = if i0 > l.len() {
            l.len()
        } else {
            i0
        };
        seq![l.take(i as int)] + tokens(l.skip(i as int))
    }
}

/// A line holding nothing but spaces.
pub open spec fn is_blank_line(l: Seq<u8>) -> bool {
    forall|k: int| 0 <= k < l.len() ==> is_space_byte(#[trigger] l[k])
}

/// A line opened by the comment marker.
pub open spec fn is_comment_line(l: Seq<u8>) -> bool {
    l.len() > 0 && l[0] == 37
}

/// The lines that carry content: neither blank nor comments.
pub open spec fn content_lines(ls: Seq<Seq<u8>>) -> Seq<Seq<u8>> {
    ls.filter(|l: Seq<u8>| !is_blank_line(l) && !is_comment_line(l))
}

/// The views of a vector of byte lines.
pub open spec fn byte_views(ls: Seq<Vec<u8>>) -> Seq<Seq<u8>> {
    ls.map_values(|l: Vec<u8>| l@)
}

/// Can be (multiple of): newline, empty line or comment.  A marker for
/// the stretches of text the parser ignores.
pub struct Space;

impl Space {
    /// Whether the parser skips this whole line.
    pub fn skips(line: &Vec<u8>) -> (r: bool)
        ensures
            r == (is_blank_line(line@) || is_comment_line(line@)),
    {
        if line.len() > 0 && line[0] == 37 {
            return true;
        }
        let mut k: usize = 0;
        while k < line.len()
            invariant
                0 <= k <= line@.len(),
                !is_comment_line(line@),
                forall|j: int| 0 <= j < k ==> is_space_byte(#[trigger] line@[j]),
            decreases line@.len() - k,
        {
            let b = line[k];
            if b != 32 && b != 9 {
                proof {
                    assert(!is_space_byte(line@[k as int]));
                }
                return false;
            }
            k += 1;
        }
        true
    }
}

/// A text's first line break lies past every earlier byte.
proof fn lemma_first_newline_all(s: Seq<u8>)
    requires
        forall|k: int| 0 <= k < s.len() ==> s[k] != 10,
    ensures
        first_newline(s) == s.len(),
    decreases s.len(),
{
    if s.len() > 0 {
        assert(forall|k: int| 0 <= k < s.drop_first().len() ==> s.drop_first()[k] == s[k + 1]);
        lemma_first_newline_all(s.drop_first());
    }
}

/// The first line break of a break-free prefix followed by a break sits
/// right after the prefix.
proof fn lemma_first_newline_prefix(cur: Seq<u8>, tail: Seq<u8>)
    requires
        forall|k: int| 0 <= k < cur.len() ==> cur[k] != 10,
        tail.len() > 0,
        tail[0] == 10,
    ensures
        first_newline(cur + tail) == cur.len(),
    decreases cur.len(),
{
    let s = cur + tail;
    if cur.len() == 0 {
        assert(s =~= tail);
    } else {
        assert(s[0] == cur[0]);
        assert(s.drop_first() =~= cur.drop_first() + tail);
        assert(forall|k: int| 0 <= k < cur.drop_first().len() ==> cur.drop_first()[k] == cur[k
            + 1]);
        lemma_first_newline_prefix(cur.drop_first(), tail);
    }
}

/// Splitting a break-free line, a break and a rest yields the line and
/// the split rest.
proof fn lemma_split_concat(cur: Seq<u8>, rest: Seq<u8>)
    requires
        forall|k: int| 0 <= k < cur.len() ==> cur[k] != 10,
    ensures
        split_lines(cur + seq![10u8] + rest) == seq![cur] + split_lines(rest),
{
    let s = cur + seq![10u8] + rest;
    assert(s =~= cur + (seq![10u8] + rest));
    lemma_first_newline_prefix(cur, seq![10u8] + rest);
    let i = first_newline(s);
    assert(i == cur.len());
    assert(i < s.len());
    assert(s.take(i as int) =~= cur);
    assert(s.skip(i + 1int) =~= rest);
}

/// A break-free, non-empty text splits into itself alone.
proof fn lemma_split_no_newline(cur: Seq<u8>)
    requires
        cur.len() > 0,
        forall|k: int| 0 <= k < cur.len() ==> cur[k] != 10,
    ensures
        split_lines(cur) == seq![cur],
{
    lemma_first_newline_all(cur);
}

/// Appending a line appends its view.
proof fn lemma_byte_views_push(ls: Seq<Vec<u8>>, x: Vec<u8>)
    ensures
        byte_views(ls.push(x)) == byte_views(ls).push(x@),
{
    assert(byte_views(ls.push(x)) =~= byte_views(ls).push(x@)) by {
        assert forall|k: int| 0 <= k < ls.len() + 1 implies byte_views(ls.push(x))[k]
            == byte_views(ls).push(x@)[k] by {
            if k < ls.len() {
                assert(ls.push(x)[k] == ls[k]);
            } else {
                assert(ls.push(x)[k] == x);
            }
        }
    }
}

/// Splits a byte text into its lines.
pub(crate) fn split_into_lines(bytes: &[u8]) -> (r: Vec<Vec<u8>>)
    ensures
        byte_views(r@) == split_lines(bytes@),
{
    let mut done: Vec<Vec<u8>> = Vec::new();
    let mut cur: Vec<u8> = Vec::new();
    let mut pos: usize = 0;
    proof {
        assert(cur@ + bytes@.skip(0) =~= bytes@);
        assert(byte_views(done@) =~= Seq::<Seq<u8>>::empty());
        assert(Seq::<Seq<u8>>::empty() + split_lines(bytes@) =~= split_lines(bytes@));
    }
    while pos < bytes.len()
        invariant
            0 <= pos <= bytes@.len(),
            forall|k: int| 0 <= k < cur@.len() ==> cur@[k] != 10,
            split_lines(bytes@) == byte_views(done@) + split_lines(cur@ + bytes@.skip(pos as int)),
        decreases bytes@.len() - pos,
    {
        let b = bytes[pos];
        if b == 10 {
            proof {
                assert(bytes@.skip(pos as int) =~= seq![10u8] + bytes@.skip(pos + 1));
                assert(cur@ + bytes@.skip(pos as int) =~= cur@ + seq![10u8] + bytes@.skip(pos + 1));
                lemma_split_concat(cur@, bytes@.skip(pos + 1));
            }
            let ghost pre_done = done@;
            let ghost pre_cur = cur@;
            let finished = cur;
            cur = Vec::new();
            done.push(finished);
            proof {
                lemma_byte_views_push(pre_done, done@.last());
                assert(done@ == pre_done.push(done@.last()));
                assert(byte_views(done@) =~= byte_views(pre_done).push(pre_cur));
                assert(cur@ + bytes@.skip(pos + 1) =~= bytes@.skip(pos + 1));
                assert(byte_views(pre_done) + (seq![pre_cur] + split_lines(bytes@.skip(pos + 1)))
                    =~= byte_views(done@) + split_lines(bytes@.skip(pos + 1)));
            }
        } else {
            proof {
                assert(bytes@.skip(pos as int) =~= seq![b] + bytes@.skip(pos + 1));
                assert(cur@.push(b) + bytes@.skip(pos + 1) =~= cur@ + bytes@.skip(pos as int));
            }
            cur.push(b);
        }
        pos += 1;
    }
    proof {
        assert(bytes@.skip(bytes@.len() as int) =~= Seq::<u8>::empty());
        assert(cur@ + Seq::<u8>::empty() =~= cur@);
    }
    if cur.len() > 0 {
        proof {
            lemma_split_no_newline(cur@);
        }
        let ghost pre_done = done@;
        let ghost pre_cur = cur@;
        done.push(cur);
        proof {
            lemma_byte_views_push(pre_done, done@.last());
            assert(byte_views(done@) =~= byte_views(pre_done).push(pre_cur));
            assert(byte_views(pre_done) + seq![pre_cur] =~= byte_views(done@));
        }
    } else {
        proof {
            assert(split_lines(cur@) =~= Seq::<Seq<u8>>::empty());
            assert(byte_views(done@) + Seq::<Seq<u8>>::empty() =~= byte_views(done@));
        }
    }
    done
}

/// A text's first space lies past every earlier byte.
proof fn lemma_first_space_all(s: Seq<u8>)
    requires
        forall|k: int| 0 <= k < s.len() ==> !is_space_byte(#[trigger] s[k]),
    ensures
        first_space(s) == s.len(),
    decreases s.len(),
{
    if s.len() > 0 {
        assert(forall|k: int| 0 <= k < s.drop_first().len() ==> s.drop_first()[k] == s[k + 1]);
        lemma_first_space_all(s.drop_first());
    }
}

/// The first space after a space-free prefix sits right after it.
proof fn lemma_first_space_prefix(cur: Seq<u8>, tail: Seq<u8>)
    requires
        forall|k: int| 0 <= k < cur.len() ==> !is_space_byte(#[trigger] cur[k]),
        tail.len() > 0,
        is_space_byte(tail[0]),
    ensures
        first_space(cur + tail) == cur.len(),
    decreases cur.len(),
{
    let s = cur + tail;
    if cur.len() == 0 {
        assert(s =~= tail);
    } else {
        assert(s[0] == cur[0]);
        assert(s.drop_first() =~= cur.drop_first() + tail);
        assert(forall|k: int| 0 <= k < cur.drop_first().len() ==> cur.drop_first()[k] == cur[k
            + 1]);
        lemma_first_space_prefix(cur.drop_first(), tail);
    }
}

/// A space-free, non-empty token followed by nothing or a space opens the
/// token list.
proof fn lemma_tokens_leading(cur: Seq<u8>, rest: Seq<u8>)
    requires
        cur.len() > 0,
        forall|k: int| 0 <= k < cur.len() ==> !is_space_byte(#[trigger] cur[k]),
        rest.len() == 0 || is_space_byte(rest[0]),
    ensures
        tokens(cur + rest) == seq![cur] + tokens(rest),
{
    let s = cur + rest;
    assert(s[0] == cur[0]);
    assert(!is_space_byte(s[0]));
    assert(s.drop_first() =~= cur.drop_first() + rest);
    assert(forall|k: int| 0 <= k < cur.drop_first().len() ==> cur.drop_first()[k] == cur[k + 1]);
    if rest.len() == 0 {
        lemma_first_space_all(cur.drop_first() + rest);
        assert((cur.drop_first() + rest).len() == cur.len() - 1);
    } else {
        lemma_first_space_prefix(cur.drop_first(), rest);
    }
    assert(first_space(s.drop_first()) == cur.len() - 1);
    assert(1 + first_space(s.drop_first()) == cur.len());
    assert(s.take(cur.len() as int) =~= cur);
    assert(s.skip(cur.len() as int) =~= rest);
}

/// Splits a line into its space-separated tokens.
fn tokenize(l: &Vec<u8>) -> (r: Vec<Vec<u8>>)
    ensures
        byte_views(r@) == tokens(l@),
{
    let mut done: Vec<Vec<u8>> = Vec::new();
    let mut cur: Vec<u8> = Vec::new();
    let mut pos: usize = 0;
    proof {
        assert(cur@ + l@.skip(0) =~= l@);
        assert(byte_views(done@) =~= Seq::<Seq<u8>>::empty());
        assert(Seq::<Seq<u8>>::empty() + tokens(l@) =~= tokens(l@));
    }
    while pos < l.len()
        invariant
            0 <= pos <= l@.len(),
            forall|k: int| 0 <= k < cur@.len() ==> !is_space_byte(#[trigger] cur@[k]),
            tokens(l@) == byte_views(done@) + tokens(cur@ + l@.skip(pos as int)),
        decreases l@.len() - pos,
    {
        let b = l[pos];
        if b == 32 || b == 9 {
            proof {
                assert(l@.skip(pos as int) =~= seq![b] + l@.skip(pos + 1));
                assert((seq![b] + l@.skip(pos + 1)).drop_first() =~= l@.skip(pos + 1));
                assert(tokens(seq![b] + l@.skip(pos + 1)) == tokens(l@.skip(pos + 1)));
            }
            if cur.len() > 0 {
                proof {
                    assert(cur@ + l@.skip(pos as int) =~= cur@ + (seq![b] + l@.skip(pos + 1)));
                    lemma_tokens_leading(cur@, seq![b] + l@.skip(pos + 1));
                }
                let ghost pre_done = done@;
                let ghost pre_cur = cur@;
                let finished = cur;
                cur = Vec::new();
                done.push(finished);
                proof {
                    lemma_byte_views_push(pre_done, done@.last());
                    assert(byte_views(done@) =~= byte_views(pre_done).push(pre_cur));
                    assert(cur@ + l@.skip(pos + 1) =~= l@.skip(pos + 1));
                    assert(byte_views(pre_done) + (seq![pre_cur] + tokens(l@.skip(pos + 1))) =~= byte_views(done@) + tokens(l@.skip(pos + 1)));
                }
            } else {
                proof {
                    assert(cur@ + l@.skip(pos as int) =~= seq![b] + l@.skip(pos + 1));
                    assert(cur@ + l@.skip(pos + 1) =~= l@.skip(pos + 1));
                }
            }
        } else {
            proof {
                assert(l@.skip(pos as int) =~= seq![b] + l@.skip(pos + 1));
                assert(cur@.push(b) + l@.skip(pos + 1) =~= cur@ + l@.skip(pos as int));
            }
            cur.push(b);
        }
        pos += 1;
    }
    proof {
        assert(l@.skip(l@.len() as int) =~= Seq::<u8>::empty());
        assert(cur@ + Seq::<u8>::empty() =~= cur@);
    }
    if cur.len() > 0 {
        proof {
            lemma_tokens_leading(cur@, Seq::<u8>::empty());
            assert(cur@ + Seq::<u8>::empty() =~= cur@);
            assert(tokens(Seq::<u8>::empty()) =~= Seq::<Seq<u8>>::empty());
            assert(seq![cur@] + Seq::<Seq<u8>>::empty() =~= seq![cur@]);
        }
        let ghost pre_done = done@;
        let ghost pre_cur = cur@;
        done.push(cur);
        proof {
            lemma_byte_views_push(pre_done, done@.last());
            assert(byte_views(done@) =~= byte_views(pre_done).push(pre_cur));
            assert(byte_views(pre_done) + seq![pre_cur] =~= byte_views(done@));
        }
    } else {
        proof {
            assert(tokens(cur@) =~= Seq::<Seq<u8>>::empty());
            assert(byte_views(done@) + Seq::<Seq<u8>>::empty() =~= byte_views(done@));
        }
    }
    done
}

/// The weight-format code of the header line.
pub open spec fn format_code_chars(f: Format) -> Seq<char> {
    match f {
        Format::Unweighted => Seq::empty(),
        Format::NetWeights => seq!['1'],
        Format::VertexWeights => seq!['1', '0'],
        Format::Weighted => seq!['1', '1'],
    }
}

/// The header line: net count, vertex count, and the weight-format code
/// when some weights follow.
pub open spec fn header_chars(h: Header) -> Seq<char> {
    dec_chars(h.num_nets as int) + seq![' '] + dec_chars(h.num_vertices as int) + (if h.format
        == Format::Unweighted {
        Seq::<char>::empty()
    } else {
        seq![' '] + format_code_chars(h.format)
    })
}

/// The net lines: an optional net weight, then the member vertices, one
/// line per net.
pub open spec fn net_lines_chars(nets: Seq<Net>, ws: Seq<Weight>, weighted: bool) -> Seq<char>
    decreases nets.len(),
{
    if nets.len() == 0 {
        Seq::empty()
    } else {
        net_lines_chars(nets.drop_last(), ws.drop_last(), weighted) + (if weighted {
            dec_chars(ws.last() as int) + seq![' ']
        } else {
            Seq::<char>::empty()
        }) + net_chars(nets.last().0@) + seq!['\n']
    }
}

/// The whole text of a graph in this format.
pub open spec fn hmetis_chars(g: Graph) -> Seq<char> {
    header_chars(g.header) + seq!['\n'] + net_lines_chars(
        g.nets@,
        g.net_weights@,
        g.header.format.has_net_weights(),
    ) + (if g.header.format.has_vertex_weights() {
        weight_lines(g.vertex_weights@)
    } else {
        Seq::<char>::empty()
    })
}

/// Serializes a graph into this format.
pub fn hmetis_text(g: &Graph) -> (r: String)
    requires
        g.header.format.has_net_weights() ==> g.net_weights@.len() == g.nets@.len(),
    ensures
        r@ == hmetis_chars(*g),
{
    let mut out = String::new();
    append_dec(&mut out, g.header.num_nets as u64);
    proof {
        reveal_strlit(" ");
        reveal_strlit("\n");
        reveal_strlit("1");
        reveal_strlit("10");
        reveal_strlit("11");
        assert(Seq::<char>::empty() + dec_chars(g.header.num_nets as int) =~= dec_chars(
            g.header.num_nets as int,
        ));
    }
    out.append(" ");
    append_dec(&mut out, g.header.num_vertices as u64);
    match g.header.format {
        Format::Unweighted => (),
        Format::NetWeights => {
            out.append(" ");
            out.append("1");
        },
        Format::VertexWeights => {
            out.append(" ");
            out.append("10");
        },
        Format::Weighted => {
            out.append(" ");
            out.append("11");
        },
    }
    proof {
        reveal_strlit(" ");
        reveal_strlit("1");
        reveal_strlit("10");
        reveal_strlit("11");
        assert(out@ =~= header_chars(g.header));
    }
    out.append("\n");
    append_net_lines(
        &mut out,
        &g.nets,
        &g.net_weights,
        g.header.format.contains_net_weights(),
    );
    if g.header.format.contains_vertex_weights() {
        append_weight_lines(&mut out, &g.vertex_weights);
    }
    proof {
        assert(out@ =~= hmetis_chars(*g));
    }
    out
}

/// Appends the net lines: an optional net weight, then the member
/// vertices, one line per net.
pub fn append_net_lines(out: &mut String, nets: &Vec<Net>, ws: &Vec<Weight>, weighted: bool)
    requires
        weighted ==> ws@.len() == nets@.len(),
    ensures
        final(out)@ == old(out)@ + net_lines_chars(nets@, ws@, weighted),
{
    let ghost head = out@;
    let mut n: usize = 0;
    proof {
        if weighted {
            assert(out@ =~= head + net_lines_chars(nets@.take(0), ws@.take(0), weighted));
        } else {
            assert(out@ =~= head + net_lines_chars(nets@.take(0), ws@, weighted));
        }
    }
    while n < nets.len()
        invariant
            0 <= n <= nets@.len(),
            weighted ==> ws@.len() == nets@.len(),
            out@ == head + net_lines_chars(
                nets@.take(n as int),
                if weighted {
                    ws@.take(n as int)
                } else {
                    ws@
                },
                weighted,
            ),
        decreases nets@.len() - n,
    {
        if weighted {
            append_dec(out, ws[n] as u64);
            proof {
                reveal_strlit(" ");
            }
            out.append(" ");
        }
        append_net(out, &nets[n]);
        proof {
            reveal_strlit("\n");
        }
        out.append("\n");
        proof {
            assert(nets@.take(n + 1int).drop_last() =~= nets@.take(n as int));
            assert(nets@.take(n + 1int).last() == nets@[n as int]);
            if weighted {
                assert(ws@.take(n + 1int).drop_last() =~= ws@.take(n as int));
                assert(ws@.take(n + 1int).last() == ws@[n as int]);
                assert(out@ =~= head + net_lines_chars(
                    nets@.take(n + 1int),
                    ws@.take(n + 1int),
                    weighted,
                ));
            } else {
                lemma_net_lines_unweighted(nets@.take(n as int), ws@.drop_last(), ws@);
                assert(out@ =~= head + net_lines_chars(nets@.take(n + 1int), ws@, weighted));
            }
        }
        n += 1;
    }
    proof {
        assert(nets@.take(nets@.len() as int) =~= nets@);
        if weighted {
            assert(ws@.take(ws@.len() as int) =~= ws@);
        }
    }
}

/// Without net weights, the net lines ignore the weight sequence.
pub proof fn lemma_net_lines_unweighted(nets: Seq<Net>, a: Seq<Weight>, b: Seq<Weight>)
    ensures
        net_lines_chars(nets, a, false) == net_lines_chars(nets, b, false),
    decreases nets.len(),
{
    if nets.len() > 0 {
        lemma_net_lines_unweighted(nets.drop_last(), a.drop_last(), b.drop_last());
    }
}

/// A parse failure: the index of the content line near which the input
/// stopped matching the format.
#[derive(Debug, Clone, Copy, PartialEq, Eq, Structural)]
pub struct ParseError {
    /// The content-line index near the offending fragment.
    pub line: usize,
}

/// A token that denotes a representable number.
pub open spec fn token_num_ok(t: Seq<u8>) -> bool {
    t.len() > 0 && all_digits(t) && digits_val(t) <= usize::MAX
}

/// A net line: at least one token, every token a representable number.
pub open spec fn line_nums_ok(l: Seq<u8>) -> bool {
    tokens(l).len() >= 1 && forall|k: int|
        0 <= k < tokens(l).len() ==> token_num_ok(#[trigger] tokens(l)[k])
}

/// A weight-format code token.
pub open spec fn format_code_ok(t: Seq<u8>) -> bool {
    t == seq![49u8] || t == seq![49u8, 48u8] || t == seq![49u8, 49u8]
}

/// The format a code token denotes.
pub open spec fn format_of_code(t: Seq<u8>) -> Format {
    if t == seq![49u8] {
        Format::NetWeights
    } else if t == seq![49u8, 48u8] {
        Format::VertexWeights
    } else {
        Format::Weighted
    }
}

/// The header line: a net count, a vertex count, and an optional
/// weight-format code.
pub open spec fn header_line_ok(l: Seq<u8>) -> bool {
    let ts = tokens(l);
    &&& (ts.len() == 2 || (ts.len() == 3 && format_code_ok(ts[2])))
    &&& token_num_ok(ts[0])
    &&& token_num_ok(ts[1])
}

/// The header a well-formed header line denotes.
pub open spec fn header_of_line(l: Seq<u8>) -> Header {
    let ts = tokens(l);
    Header {
        num_nets: digits_val(ts[0]) as usize,
        num_vertices: digits_val(ts[1]) as usize,
        format: if ts.len() == 2 {
            Format::Unweighted
        } else {
            format_of_code(ts[2])
        },
        one_indexed: true,
    }
}

/// A whole input matching the format: after dropping blank and comment
/// lines, a header line and at least one net line of numbers.
pub open spec fn hmetis_ok(bytes: Seq<u8>) -> bool {
    let cls = content_lines(split_lines(bytes));
    &&& cls.len() >= 2
    &&& header_line_ok(cls[0])
    &&& forall|i: int| 1 <= i < cls.len() ==> line_nums_ok(#[trigger] cls[i])
}

/// Copies a byte line.
fn copy_bytes(v: &Vec<u8>) -> (r: Vec<u8>)
    ensures
        r@ == v@,
{
    let mut r: Vec<u8> = Vec::new();
    let mut i: usize = 0;
    while i < v.len()
        invariant
            0 <= i <= v@.len(),
            r@ == v@.take(i as int),
        decreases v@.len() - i,
    {
        r.push(v[i]);
        assert(v@.take(i + 1int) =~= v@.take(i as int).push(v@[i as int]));
        i += 1;
    }
    assert(v@.take(v@.len() as int) =~= v@);
    r
}

/// Keeping a content line extends the filtered views by it.
proof fn lemma_content_push(vs: Seq<Seq<u8>>, x: Seq<u8>)
    ensures
        content_lines(vs.push(x)) == if !is_blank_line(x) && !is_comment_line(x) {
            content_lines(vs).push(x)
        } else {
            content_lines(vs)
        },
{
    reveal(Seq::filter);
    assert(vs.push(x).drop_last() =~= vs);
    assert(vs.push(x).last() == x);
}

/// Parses a graph out of this format's text.  Succeeds if, and only if,
/// the input matches the format; the parsed nets carry the numbers of the
/// net lines unchanged and no weights.
#[verifier::loop_isolation(false)]
pub fn parse_hmetis(input: &str) -> (r: Result<Graph, ParseError>)
    ensures
        match r {
            Ok(g) => hmetis_ok(input.spec_bytes()) && {
                let cls = content_lines(split_lines(input.spec_bytes()));
                &&& g.header == header_of_line(cls[0])
                &&& g.nets@.len() == cls.len() - 1
                &&& forall|i: int|
                    0 <= i < g.nets@.len() ==> #[trigger] g.nets@[i].0@.len() == tokens(
                        cls[i + 1],
                    ).len()
                &&& forall|i: int, j: int|
                    0 <= i < g.nets@.len() && 0 <= j < g.nets@[i].0@.len()
                        ==> #[trigger] g.nets@[i].0@[j] == digits_val(tokens(cls[i + 1])[j])
                &&& g.vertex_weights@.len() == 0
                &&& g.net_weights@.len() == 0
            },
            Err(_) => !hmetis_ok(input.spec_bytes()),
        },
{
    let bytes: &[u8] = input.as_bytes();
    let lines = split_into_lines(bytes);
    let ghost cls = content_lines(split_lines(input.spec_bytes()));
    let mut content: Vec<Vec<u8>> = Vec::new();
    let mut li: usize = 0;
    proof {
        assert(byte_views(lines@).take(0) =~= Seq::<Seq<u8>>::empty());
        assert(content_lines(byte_views(lines@).take(0)) =~= Seq::<Seq<u8>>::empty()) by {
            reveal(Seq::filter);
        }
        assert(byte_views(content@) =~= Seq::<Seq<u8>>::empty());
    }
    while li < lines.len()
        invariant
            0 <= li <= lines@.len(),
            byte_views(lines@) == split_lines(input.spec_bytes()),
            byte_views(content@) == content_lines(byte_views(lines@).take(li as int)),
        decreases lines@.len() - li,
    {
        proof {
            assert(byte_views(lines@).take(li + 1) =~= byte_views(lines@).take(li as int).push(
                lines@[li as int]@,
            )) by {
                assert forall|k: int|
                    0 <= k < li + 1 implies #[trigger] byte_views(lines@).take(li + 1)[k]
                    == byte_views(lines@).take(li as int).push(lines@[li as int]@)[k] by {
                    assert(byte_views(lines@)[k] == lines@[k]@);
                }
            }
            lemma_content_push(byte_views(lines@).take(li as int), lines@[li as int]@);
        }
        if !Space::skips(&lines[li]) {
            let ghost pre = content@;
            content.push(copy_bytes(&lines[li]));
            proof {
                lemma_byte_views_push(pre, content@.last());
                assert(byte_views(content@) =~= byte_views(pre).push(lines@[li as int]@));
            }
        }
        li += 1;
    }
    proof {
        assert(byte_views(lines@).take(lines@.len() as int) =~= byte_views(lines@));
        assert(byte_views(content@) == cls);
    }
    if content.len() < 2 {
        return Err(ParseError { line: 0 });
    }
    // The header line.
    let htoks = tokenize(&content[0]);
    proof {
        assert(content@[0]@ == cls[0]);
        assert(byte_views(htoks@) == tokens(cls[0]));
    }
    if !(htoks.len() == 2 || htoks.len() == 3) {
        return Err(ParseError { line: 0 });
    }
    let num_nets = match parse_usize_token(&htoks[0]) {
        Some(v) => v,
        None => {
            proof {
                assert(htoks@[0]@ == tokens(cls[0])[0]);
            }
            return Err(ParseError { line: 0 });
        },
    };
    let num_vertices = match parse_usize_token(&htoks[1]) {
        Some(v) => v,
        None => {
            proof {
                assert(htoks@[1]@ == tokens(cls[0])[1]);
            }
            return Err(ParseError { line: 0 });
        },
    };
    proof {
        assert(htoks@[0]@ == tokens(cls[0])[0]);
        assert(htoks@[1]@ == tokens(cls[0])[1]);
    }
    let format: Format = if htoks.len() == 2 {
        Format::Unweighted
    } else {
        let code = &htoks[2];
        proof {
            assert(htoks@[2]@ == tokens(cls[0])[2]);
        }
        if code.len() == 1 && code[0] == 49 {
            proof {
                assert(code@ =~= seq![49u8]);
            }
            Format::NetWeights
        } else if code.len() == 2 && code[0] == 49 && code[1] == 48 {
            proof {
                assert(code@ =~= seq![49u8, 48u8]);
                assert(code@ != seq![49u8]) by {
                    assert(seq![49u8].len() == 1);
                }
            }
            Format::VertexWeights
        } else if code.len() == 2 && code[0] == 49 && code[1] == 49 {
            proof {
                assert(code@ =~= seq![49u8, 49u8]);
                assert(code@ != seq![49u8]) by {
                    assert(seq![49u8].len() == 1);
                }
                assert(code@ != seq![49u8, 48u8]) by {
                    assert(seq![49u8, 48u8][1] == 48u8);
                }
            }
            Format::Weighted
        } else {
            proof {
                assert(!format_code_ok(code@)) by {
                    assert(seq![49u8].len() == 1);
                    assert(seq![49u8][0] == 49u8);
                    assert(seq![49u8, 48u8].len() == 2);
                    assert(seq![49u8, 48u8][0] == 49u8);
                    assert(seq![49u8, 48u8][1] == 48u8);
                    assert(seq![49u8, 49u8].len() == 2);
                    assert(seq![49u8, 49u8][0] == 49u8);
                    assert(seq![49u8, 49u8][1] == 49u8);
                }
            }
            return Err(ParseError { line: 0 });
        }
    };
    // The net lines.
    let mut nets: Vec<Net> = Vec::new();
    let mut i: usize = 1;
    while i < content.len()
        invariant
            1 <= i <= content@.len(),
            content@.len() == cls.len(),
            byte_views(content@) == cls,
            nets@.len() == i - 1,
            forall|k: int| 1 <= k < i ==> line_nums_ok(#[trigger] cls[k]),
            forall|k: int|
                0 <= k < nets@.len() ==> #[trigger] nets@[k].0@.len() == tokens(cls[k + 1]).len(),
            forall|k: int, j: int|
                0 <= k < nets@.len() && 0 <= j < nets@[k].0@.len() ==> #[trigger] nets@[k].0@[j]
                    == digits_val(tokens(cls[k + 1])[j]),
        decreases content@.len() - i,
    {
        let ts = tokenize(&content[i]);
        proof {
            assert(content@[i as int]@ == cls[i as int]);
            assert(byte_views(ts@) == tokens(cls[i as int]));
        }
        if ts.len() == 0 {
            proof {
                assert(tokens(cls[i as int]).len() == 0);
                assert(!line_nums_ok(cls[i as int]));
                assert(!hmetis_ok(input.spec_bytes()));
            }
            return Err(ParseError { line: i });
        }
        let mut net: Vec<usize> = Vec::new();
        let mut j: usize = 0;
        while j < ts.len()
            invariant
                0 <= j <= ts@.len(),
                1 <= i < content@.len(),
                content@.len() == cls.len(),
                byte_views(ts@) == tokens(cls[i as int]),
                net@.len() == j,
                forall|k: int|
                    0 <= k < j ==> token_num_ok(#[trigger] tokens(cls[i as int])[k]),
                forall|k: int|
                    0 <= k < j ==> #[trigger] net@[k] == digits_val(tokens(cls[i as int])[k]),
            decreases ts@.len() - j,
        {
            proof {
                assert(ts@[j as int]@ == tokens(cls[i as int])[j as int]);
            }
            match parse_usize_token(&ts[j]) {
                Some(v) => {
                    net.push(v);
                },
                None => {
                    proof {
                        assert(!token_num_ok(tokens(cls[i as int])[j as int]));
                        assert(!line_nums_ok(cls[i as int]));
                        assert(!hmetis_ok(input.spec_bytes()));
                    }
                    return Err(ParseError { line: i });
                },
            }
            j += 1;
        }
        proof {
            assert(line_nums_ok(cls[i as int]));
        }
        nets.push(Net(net));
        i += 1;
    }
    let g = Graph {
        header: Header { num_nets, num_vertices, format, one_indexed: true },
        nets,
        vertex_weights: Vec::new(),
        net_weights: Vec::new(),
    };
    proof {
        assert(hmetis_ok(input.spec_bytes()));
        assert(g.header == header_of_line(cls[0]));
    }
    Ok(g)
}

/// Enables a structure to be parsed from this hypergraph format.
pub trait FromStringHMETIS: Sized {
    /// Parses this structure from the format's text.
    fn from_string_hmetis(input: &str) -> Result<Self, ParseError>;
}

impl FromStringHMETIS for Graph {
    fn from_string_hmetis(input: &str) -> (r: Result<Graph, ParseError>) {
        parse_hmetis(input)
    }
}

/// Enables a structure to be serialized into this hypergraph format.
pub trait ToStringHMETIS {
    /// The text the serialization produces.
    spec fn hmetis_view(&self) -> Seq<char>;

    /// Serializes this structure into the format's text.
    fn to_string_hmetis(&self) -> (r: String)
        ensures
            r@ == self.hmetis_view(),
    ;
}

impl ToStringHMETIS for Graph {
    /// The format's text of this graph; a graph whose announced net
    /// weights are missing cannot be laid out and renders empty.
    open spec fn hmetis_view(&self) -> Seq<char> {
        if self.header.format.has_net_weights() && self.net_weights@.len() != self.nets@.len() {
            Seq::empty()
        } else {
            hmetis_chars(*self)
        }
    }

    fn to_string_hmetis(&self) -> (r: String)
        ensures
            r@ == self.hmetis_view(),
    {
        if self.header.format.contains_net_weights() && self.net_weights.len() != self.nets.len() {
            return String::new();
        }
        hmetis_text(self)
    }
}

} // verus!
