//! The textual graph dump of the arena: a directed-graph description with
//! one labeled node per live slot (its data-kind tag and reference count)
//! and one edge per back-link. The bytes are produced by verified code
//! against a byte-exact specification; writing them to a file or handing
//! them to a renderer is the caller's business.

use crate::arena::DataType;
use crate::arena::Frame;
use crate::arena::FrameAtor;
use vstd::prelude::*;

verus! {

/// `"digraph Stacks {\n"`
pub open spec fn lit_header() -> Seq<u8> {
    seq![
        100u8, 105u8, 103u8, 114u8, 97u8, 112u8, 104u8, 32u8, 83u8, 116u8, 97u8, 99u8, 107u8, 115u8, 32u8,
        123u8, 10u8,
    ]
}

/// `"    Node_"`
pub open spec fn lit_node_prefix() -> Seq<u8> {
    seq![32u8, 32u8, 32u8, 32u8, 78u8, 111u8, 100u8, 101u8, 95u8]
}

/// `" [label=\""`
pub open spec fn lit_label_open() -> Seq<u8> {
    seq![32u8, 91u8, 108u8, 97u8, 98u8, 101u8, 108u8, 61u8, 34u8]
}

/// `" ("`
pub open spec fn lit_count_open() -> Seq<u8> {
    seq![32u8, 40u8]
}

/// `")\"]\n"`
pub open spec fn lit_label_close() -> Seq<u8> {
    seq![41u8, 34u8, 93u8, 10u8]
}

/// `" -> Node_"`
pub open spec fn lit_arrow() -> Seq<u8> {
    seq![32u8, 45u8, 62u8, 32u8, 78u8, 111u8, 100u8, 101u8, 95u8]
}

/// `"\n"`
pub open spec fn lit_newline() -> Seq<u8> {
    seq![10u8]
}

/// `"}\n"`
pub open spec fn lit_footer() -> Seq<u8> {
    seq![125u8, 10u8]
}

/// The decimal digits of `n`, most significant first.
pub open spec fn dec_bytes(n: nat) -> Seq<u8>
    decreases n,
{
    if n < 10 {
        seq![(48 + n) as u8]
    } else {
        dec_bytes(n / 10).push((48 + n % 10) as u8)
    }
}

/// The tag's name as it appears in a node label.
pub open spec fn tag_bytes(data_type: DataType) -> Seq<u8> {
    match data_type {
        DataType::Int => seq![73u8, 110u8, 116u8],
        DataType::Ptr => seq![80u8, 116u8, 114u8],
        DataType::Bool => seq![66u8, 111u8, 111u8, 108u8],
    }
}

/// What slot `i` contributes to the dump: nothing when it is free, else its
/// labeled node line followed by its back-link edge line, if any.
pub open spec fn node_entry(i: nat, slot: (Frame, usize)) -> Seq<u8> {
    if slot.1 >= 1 {
        lit_node_prefix() + dec_bytes(i) + lit_label_open() + tag_bytes(slot.0.data_type)
            + lit_count_open() + dec_bytes(slot.1 as nat) + lit_label_close() + (match slot
            .0
            .previous {
            Some(p) => lit_node_prefix() + dec_bytes(i) + lit_arrow() + dec_bytes(p as nat)
                + lit_newline(),
            None => Seq::empty(),
        })
    } else {
        Seq::empty()
    }
}

/// The concatenated entries of the first `n` slots, in index order.
pub open spec fn dump_upto(slots: Seq<(Frame, usize)>, n: int) -> Seq<u8>
    decreases n,
{
    if n <= 0 {
        Seq::empty()
    } else {
        dump_upto(slots, n - 1) + node_entry((n - 1) as nat, slots[n - 1])
    }
}

fn push_header(v: &mut Vec<u8>)
    ensures
        final(v)@ == old(v)@ + lit_header(),
{
    let ghost pre = v@;
    v.push(100u8);
    v.push(105u8);
    v.push(103u8);
    v.push(114u8);
    v.push(97u8);
    v.push(112u8);
    v.push(104u8);
    v.push(32u8);
    v.push(83u8);
    v.push(116u8);
    v.push(97u8);
    v.push(99u8);
    v.push(107u8);
    v.push(115u8);
    v.push(32u8);
    v.push(123u8);
    v.push(10u8);
    proof {
        assert(v@ =~= pre + lit_header());
    }
}

fn push_node_prefix(v: &mut Vec<u8>)
    ensures
        final(v)@ == old(v)@ + lit_node_prefix(),
{
    let ghost pre = v@;
    v.push(32u8);
    v.push(32u8);
    v.push(32u8);
    v.push(32u8);
    v.push(78u8);
    v.push(111u8);
    v.push(100u8);
    v.push(101u8);
    v.push(95u8);
    proof {
        assert(v@ =~= pre + lit_node_prefix());
    }
}

fn push_label_open(v: &mut Vec<u8>)
    ensures
        final(v)@ == old(v)@ + lit_label_open(),
{
    let ghost pre = v@;
    v.push(32u8);
    v.push(91u8);
    v.push(108u8);
    v.push(97u8);
    v.push(98u8);
    v.push(101u8);
    v.push(108u8);
    v.push(61u8);
    v.push(34u8);
    proof {
        assert(v@ =~= pre + lit_label_open());
    }
}

fn push_count_open(v: &mut Vec<u8>)
    ensures
        final(v)@ == old(v)@ + lit_count_open(),
{
    let ghost pre = v@;
    v.push(32u8);
    v.push(40u8);
    proof {
        assert(v@ =~= pre + lit_count_open());
    }
}

fn push_label_close(v: &mut Vec<u8>)
    ensures
        final(v)@ == old(v)@ + lit_label_close(),
{
    let ghost pre = v@;
    v.push(41u8);
    v.push(34u8);
    v.push(93u8);
    v.push(10u8);
    proof {
        assert(v@ =~= pre + lit_label_close());
    }
}

fn push_arrow(v: &mut Vec<u8>)
    ensures
        final(v)@ == old(v)@ + lit_arrow(),
{
    let ghost pre = v@;
    v.push(32u8);
    v.push(45u8);
    v.push(62u8);
    v.push(32u8);
    v.push(78u8);
    v.push(111u8);
    v.push(100u8);
    v.push(101u8);
    v.push(95u8);
    proof {
        assert(v@ =~= pre + lit_arrow());
    }
}

fn push_newline(v: &mut Vec<u8>)
    ensures
        final(v)@ == old(v)@ + lit_newline(),
{
    let ghost pre = v@;
    v.push(10u8);
    proof {
        assert(v@ =~= pre + lit_newline());
    }
}

fn push_footer(v: &mut Vec<u8>)
    ensures
        final(v)@ == old(v)@ + lit_footer(),
{
    let ghost pre = v@;
    v.push(125u8);
    v.push(10u8);
    proof {
        assert(v@ =~= pre + lit_footer());
    }
}

/// Appends the decimal digits of `n`, most significant first.
fn push_decimal(v: &mut Vec<u8>, n: usize)
    ensures
        final(v)@ == old(v)@ + dec_bytes(n as nat),
    decreases n,
{
    let ghost pre = v@;
    if n >= 10 {
        push_decimal(v, n / 10);
    }
    v.push(48 + (n % 10) as u8);
    proof {
        assert(v@ =~= pre + dec_bytes(n as nat));
    }
}

/// Appends the tag's name.
fn push_tag(v: &mut Vec<u8>, data_type: DataType)
    ensures
        final(v)@ == old(v)@ + tag_bytes(data_type),
{
    let ghost pre = v@;
    match data_type {
        DataType::Int => {
            v.push(73u8);
            v.push(110u8);
            v.push(116u8);
            proof {
                assert(v@ =~= pre + tag_bytes(data_type));
            }
        },
        DataType::Ptr => {
            v.push(80u8);
            v.push(116u8);
            v.push(114u8);
            proof {
                assert(v@ =~= pre + tag_bytes(data_type));
            }
        },
        DataType::Bool => {
            v.push(66u8);
            v.push(111u8);
            v.push(111u8);
            v.push(108u8);
            proof {
                assert(v@ =~= pre + tag_bytes(data_type));
            }
        },
    }
}

impl FrameAtor {
    /// The full dump: header, one entry per live slot in index order, footer.
    pub open spec fn dump_spec(self) -> Seq<u8> {
        lit_header() + dump_upto(self.frames@, self.frames@.len() as int) + lit_footer()
    }

    /// Serializes every live slot as a labeled node with an edge to its
    /// back-link, skipping every free slot. Purely observational: the arena
    /// is only read. In a well-formed arena the count-is-zero test used here
    /// coincides with free-list membership (see `lemma_reclaimed`), so
    /// exactly the slots outside the free set are emitted.
    #[verifier::rlimit(100)]
    pub fn dump_dot(&self) -> (out: Vec<u8>)
        requires
            self.wf(),
        ensures
            out@ == self.dump_spec(),
    {
        let mut out: Vec<u8> = Vec::new();
        push_header(&mut out);
        let n = self.frames.len();
        let mut i: usize = 0;
        while i < n
            invariant
                n == self.frames@.len(),
                i <= n,
                out@ == lit_header() + dump_upto(self.frames@, i as int),
            decreases n - i,
        {
            let ghost pre = out@;
            let slot = self.frames[i];
            if slot.1 >= 1 {
                push_node_prefix(&mut out);
                push_decimal(&mut out, i);
                push_label_open(&mut out);
                push_tag(&mut out, slot.0.data_type);
                push_count_open(&mut out);
                push_decimal(&mut out, slot.1);
                push_label_close(&mut out);
                match slot.0.previous {
                    Some(p) => {
                        push_node_prefix(&mut out);
                        push_decimal(&mut out, i);
                        push_arrow(&mut out);
                        push_decimal(&mut out, p);
                        push_newline(&mut out);
                    },
                    None => {},
                }
            }
            proof {
                assert(out@ =~= pre + node_entry(i as nat, self.frames@[i as int]));
                assert(out@ =~= lit_header() + dump_upto(self.frames@, i as int + 1));
            }
            i = i + 1;
        }
        push_footer(&mut out);
        proof {
            assert(out@ =~= self.dump_spec());
        }
        out
    }
}

} // verus!
