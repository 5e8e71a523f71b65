//! Encoder: given a node's kind and the already-encoded buffers of its
//! members (each member is itself a self-contained buffer, since the format
//! is recursively self-describing), produce the parent buffer by placing a
//! header, an optional offset table, and the concatenated member buffers.
//!
//! No encode path fails: encoding a structurally consistent set of members
//! always yields a structurally valid buffer (proved in `laws`).

use vstd::prelude::*;

use crate::header::{le_bytes, push_unit};

verus! {

/// The byte sequences held by a list of child buffers.
pub open spec fn views_of(children: Seq<Vec<u8>>) -> Seq<Seq<u8>> {
    Seq::new(children.len(), |i: int| children[i]@)
}

/// The concatenation of a list of byte sequences, in order.
pub open spec fn concat_bytes(children: Seq<Seq<u8>>) -> Seq<u8>
    decreases children.len(),
{
    if children.len() == 0 {
        Seq::empty()
    } else {
        concat_bytes(children.drop_last()) + children.last()
    }
}

/// The summed length of a list of byte sequences.
pub open spec fn total_len(children: Seq<Seq<u8>>) -> nat
    decreases children.len(),
{
    if children.len() == 0 {
        0
    } else {
        total_len(children.drop_last()) + children.last().len()
    }
}

/// The absolute byte offset of child `i` in a buffer of the offset-table
/// shape: past the header-table region, then past the earlier children.
pub open spec fn dyn_offset(children: Seq<Seq<u8>>, i: int) -> nat {
    4 * (children.len() + 1) + total_len(children.take(i))
}

/// The total byte size of a buffer of the offset-table shape.
pub open spec fn dyn_total(children: Seq<Seq<u8>>) -> nat {
    4 * (children.len() + 1) + total_len(children)
}

/// The encoded offset table: one header unit per child, in order.
pub open spec fn offsets_bytes(children: Seq<Seq<u8>>, k: int) -> Seq<u8>
    decreases k,
{
    if k <= 0 {
        Seq::empty()
    } else {
        offsets_bytes(children, k - 1) + le_bytes(dyn_offset(children, k - 1) as u32)
    }
}

/// The full encoding of the offset-table kinds: total size, offset table,
/// then the concatenated children.
pub open spec fn encode_dyn_spec(children: Seq<Seq<u8>>) -> Seq<u8> {
    le_bytes(dyn_total(children) as u32) + offsets_bytes(children, children.len() as int)
        + concat_bytes(children)
}

/// Concatenating one more buffer extends the concatenation by it.
pub proof fn lemma_concat_take_step(children: Seq<Seq<u8>>, i: int)
    requires
        0 <= i < children.len(),
    ensures
        concat_bytes(children.take(i + 1)) == concat_bytes(children.take(i)) + children[i],
        total_len(children.take(i + 1)) == total_len(children.take(i)) + children[i].len(),
{
    assert(children.take(i + 1).drop_last() =~= children.take(i));
    assert(children.take(i + 1).last() == children[i]);
}

/// A whole list is its own `take`; stated for rewriting at loop exits.
pub proof fn lemma_take_all(children: Seq<Seq<u8>>)
    ensures
        concat_bytes(children.take(children.len() as int)) == concat_bytes(children),
        total_len(children.take(children.len() as int)) == total_len(children),
{
    assert(children.take(children.len() as int) =~= children);
}

/// A concatenation is as long as the sum of its parts.
pub proof fn lemma_concat_len(children: Seq<Seq<u8>>)
    ensures
        concat_bytes(children).len() == total_len(children),
    decreases children.len(),
{
    if children.len() > 0 {
        lemma_concat_len(children.drop_last());
    }
}

/// Earlier prefixes never sum longer: `total_len` grows with `take`.
pub proof fn lemma_total_len_monotone(children: Seq<Seq<u8>>, i: int, j: int)
    requires
        0 <= i <= j <= children.len(),
    ensures
        total_len(children.take(i)) <= total_len(children.take(j)),
    decreases j,
{
    if i < j {
        lemma_total_len_monotone(children, i, j - 1);
        lemma_concat_take_step(children, j - 1);
    }
}

/// Append the bytes of `child` to `out`.
fn append_bytes(out: &mut Vec<u8>, child: &Vec<u8>)
    ensures
        final(out)@ == old(out)@ + child@,
{
    let mut i: usize = 0;
    while i < child.len()
        invariant
            0 <= i <= child@.len(),
            out@ == old(out)@ + child@.take(i as int),
        decreases child@.len() - i,
    {
        out.push(child[i]);
        proof {
            assert(out@ =~= old(out)@ + child@.take(i + 1 as int));
        }
        i = i + 1;
    }
    proof {
        assert(out@ =~= old(out)@ + child@);
    }
}

/// Encode an absent option value: the empty buffer.
pub fn encode_option_none() -> (out: Vec<u8>)
    ensures
        out@ == Seq::<u8>::empty(),
{
    Vec::new()
}

/// Encode a present option value: exactly the inner encoding.
pub fn encode_option_some(child: &Vec<u8>) -> (out: Vec<u8>)
    ensures
        out@ == child@,
{
    vstd::slice::slice_to_vec(child.as_slice())
}

/// Encode a union value: the discriminant as a header unit, then the
/// matching arm's encoding.
pub fn encode_union(id: u32, child: &Vec<u8>) -> (out: Vec<u8>)
    ensures
        out@ == le_bytes(id) + child@,
{
    let mut out: Vec<u8> = Vec::new();
    push_unit(&mut out, id);
    append_bytes(&mut out, child);
    out
}

/// Encode a fixed-layout composite (array or struct): the member
/// encodings concatenated in declared order, with no header.
pub fn encode_fixed(children: &Vec<Vec<u8>>) -> (out: Vec<u8>)
    ensures
        out@ == concat_bytes(views_of(children@)),
{
    let ghost deep = views_of(children@);
    let mut out: Vec<u8> = Vec::new();
    let mut i: usize = 0;
    while i < children.len()
        invariant
            0 <= i <= children@.len(),
            deep == views_of(children@),
            out@ == concat_bytes(deep.take(i as int)),
        decreases children@.len() - i,
    {
        proof {
            lemma_concat_take_step(deep, i as int);
        }
        append_bytes(&mut out, &children[i]);
        i = i + 1;
    }
    proof {
        lemma_take_all(deep);
    }
    out
}

/// Encode a vector of fixed-size items: the item count as a header unit,
/// then the item encodings.
pub fn encode_fixvec(children: &Vec<Vec<u8>>) -> (out: Vec<u8>)
    requires
        children@.len() <= 0xffff_ffff,
    ensures
        out@ == le_bytes(children@.len() as u32) + concat_bytes(views_of(children@)),
{
    let ghost deep = views_of(children@);
    let mut out: Vec<u8> = Vec::new();
    push_unit(&mut out, children.len() as u32);
    let mut i: usize = 0;
    while i < children.len()
        invariant
            0 <= i <= children@.len(),
            deep == views_of(children@),
            out@ == le_bytes(children@.len() as u32) + concat_bytes(deep.take(i as int)),
        decreases children@.len() - i,
    {
        proof {
            lemma_concat_take_step(deep, i as int);
        }
        append_bytes(&mut out, &children[i]);
        i = i + 1;
    }
    proof {
        lemma_take_all(deep);
    }
    out
}

/// Encode a variable-size composite (vector of variable-size items, or a
/// table of named fields; the two share one physical shape): total size,
/// then the offset table, then the member encodings.
pub fn encode_dynvec(children: &Vec<Vec<u8>>) -> (out: Vec<u8>)
    requires
        dyn_total(views_of(children@)) <= 0xffff_ffff,
    ensures
        out@ == encode_dyn_spec(views_of(children@)),
        out@.len() == dyn_total(views_of(children@)),
{
    let ghost deep = views_of(children@);
    let n: usize = children.len();
    proof {
        lemma_take_all(deep);
        lemma_total_len_monotone(deep, 0, deep.len() as int);
    }

    // The summed length of the children, bounded by the declared total.
    let mut body: usize = 0;
    let mut i: usize = 0;
    while i < n
        invariant
            0 <= i <= n,
            n == children@.len(),
            deep == views_of(children@),
            body == total_len(deep.take(i as int)),
            dyn_total(deep) <= 0xffff_ffff,
        decreases n - i,
    {
        proof {
            lemma_concat_take_step(deep, i as int);
            lemma_total_len_monotone(deep, i + 1 as int, deep.len() as int);
            lemma_take_all(deep);
        }
        body = body + children[i].len();
        i = i + 1;
    }
    proof {
        lemma_take_all(deep);
    }
    let total: usize = 4 * (n + 1) + body;

    let mut out: Vec<u8> = Vec::new();
    push_unit(&mut out, total as u32);

    // The offset table: each entry is the header-table size plus the
    // lengths of the children before the entry's child.
    let mut off: usize = 4 * (n + 1);
    let mut i: usize = 0;
    while i < n
        invariant
            0 <= i <= n,
            n == children@.len(),
            deep == views_of(children@),
            off == dyn_offset(deep, i as int),
            dyn_total(deep) <= 0xffff_ffff,
            total == dyn_total(deep),
            out@ == le_bytes(total as u32) + offsets_bytes(deep, i as int),
        decreases n - i,
    {
        proof {
            lemma_concat_take_step(deep, i as int);
            lemma_total_len_monotone(deep, i + 1 as int, deep.len() as int);
            lemma_take_all(deep);
        }
        push_unit(&mut out, off as u32);
        off = off + children[i].len();
        i = i + 1;
    }

    // The children, in order.
    let mut i: usize = 0;
    while i < n
        invariant
            0 <= i <= n,
            n == children@.len(),
            deep == views_of(children@),
            out@ == le_bytes(total as u32) + offsets_bytes(deep, n as int) + concat_bytes(
                deep.take(i as int),
            ),
            total == dyn_total(deep),
        decreases n - i,
    {
        proof {
            lemma_concat_take_step(deep, i as int);
        }
        append_bytes(&mut out, &children[i]);
        i = i + 1;
    }
    proof {
        lemma_take_all(deep);
        lemma_concat_len(deep);
        assert(out@.len() == dyn_total(deep)) by {
            assert(le_bytes(total as u32).len() == 4);
            lemma_offsets_bytes_len(deep, n as int);
        }
    }
    out
}

/// A range within the first part of a concatenation reads from that part.
pub proof fn lemma_prefix_subrange<T>(pre: Seq<T>, post: Seq<T>, x: int, y: int)
    requires
        0 <= x <= y <= pre.len(),
    ensures
        (pre + post).subrange(x, y) == pre.subrange(x, y),
{
    assert((pre + post).subrange(x, y) =~= pre.subrange(x, y));
}

/// A range within the second part of a concatenation reads from that
/// part, shifted by the first part's length.
pub proof fn lemma_shift_subrange<T>(pre: Seq<T>, post: Seq<T>, x: int, y: int)
    requires
        0 <= x <= y <= post.len(),
    ensures
        (pre + post).subrange(pre.len() + x, pre.len() + y) == post.subrange(x, y),
{
    assert((pre + post).subrange(pre.len() + x, pre.len() + y) =~= post.subrange(x, y));
}

/// Carving a concatenation at the summed lengths of the buffers before
/// and through member `i` yields exactly member `i`.
pub proof fn lemma_concat_extract(children: Seq<Seq<u8>>, i: int)
    requires
        0 <= i < children.len(),
    ensures
        concat_bytes(children).subrange(
            total_len(children.take(i)) as int,
            total_len(children.take(i + 1)) as int,
        ) == children[i],
    decreases children.len(),
{
    let m = children.len() - 1;
    let front = children.drop_last();
    lemma_concat_len(front);
    lemma_concat_len(children);
    lemma_total_len_monotone(children, i, i + 1);
    lemma_total_len_monotone(children, i + 1, children.len() as int);
    lemma_take_all(children);
    lemma_concat_take_step(children, i);
    if i == m {
        assert(children.take(i) =~= front);
        assert(concat_bytes(children).subrange(
            total_len(front) as int,
            total_len(children) as int,
        ) =~= children[i]);
    } else {
        lemma_concat_extract(front, i);
        assert(front.take(i) =~= children.take(i));
        assert(front.take(i + 1) =~= children.take(i + 1));
        lemma_take_all(front);
        lemma_total_len_monotone(front, i + 1, front.len() as int);
        assert(concat_bytes(children).subrange(
            total_len(children.take(i)) as int,
            total_len(children.take(i + 1)) as int,
        ) =~= concat_bytes(front).subrange(
            total_len(front.take(i)) as int,
            total_len(front.take(i + 1)) as int,
        ));
    }
}

/// When every buffer in the list has the same length, prefix sums are
/// strides: the first `i` buffers occupy `i * size` bytes.
pub proof fn lemma_total_len_uniform(children: Seq<Seq<u8>>, size: nat, i: int)
    requires
        0 <= i <= children.len(),
        forall|j: int| 0 <= j < children.len() ==> (#[trigger] children[j]).len() == size,
    ensures
        total_len(children.take(i)) == i * size,
    decreases i,
{
    if i == 0 {
        assert(children.take(0).len() == 0);
        assert(total_len(children.take(0)) == 0);
        assert(0 * size == 0) by (nonlinear_arith);
    } else {
        lemma_total_len_uniform(children, size, i - 1);
        lemma_concat_take_step(children, i - 1);
        assert(total_len(children.take(i)) == (i - 1) * size + size);
        assert((i - 1) * size + size == i * size) by (nonlinear_arith);
    }
}

/// Entry `j` of the encoded offset table sits at bytes `4j .. 4j + 4`.
pub proof fn lemma_offsets_bytes_at(children: Seq<Seq<u8>>, k: int, j: int)
    requires
        0 <= j < k,
    ensures
        offsets_bytes(children, k).subrange(4 * j, 4 * j + 4) == le_bytes(
            dyn_offset(children, j) as u32,
        ),
    decreases k,
{
    lemma_offsets_bytes_len(children, k);
    lemma_offsets_bytes_len(children, k - 1);
    if j == k - 1 {
        assert(offsets_bytes(children, k).subrange(4 * j, 4 * j + 4) =~= le_bytes(
            dyn_offset(children, j) as u32,
        ));
    } else {
        lemma_offsets_bytes_at(children, k - 1, j);
        assert(offsets_bytes(children, k).subrange(4 * j, 4 * j + 4) =~= offsets_bytes(
            children,
            k - 1,
        ).subrange(4 * j, 4 * j + 4));
    }
}

/// The encoded offset table of `k` entries occupies `4 * k` bytes.
pub proof fn lemma_offsets_bytes_len(children: Seq<Seq<u8>>, k: int)
    requires
        k >= 0,
    ensures
        offsets_bytes(children, k).len() == 4 * k,
    decreases k,
{
    if k > 0 {
        lemma_offsets_bytes_len(children, k - 1);
    }
}

} // verus!
