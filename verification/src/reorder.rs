//! Putting chunks that arrive in any order back in file order: a stable sort
//! by chunk index.

use vstd::prelude::*;

use crate::chunk::FileChunk;
use crate::manifest::{chunk_datas, joined};

verus! {

broadcast use vstd::seq_lib::group_to_multiset_ensures, vstd::multiset::group_multiset_axioms;

/// `s` with `c` put after the last element whose index is at most `c`'s,
/// every later element having a greater index.
pub open spec fn insert_by_index(s: Seq<FileChunk>, c: FileChunk) -> Seq<FileChunk>
    decreases s.len(),
{
    if s.len() == 0 {
        seq![c]
    } else if s.last().index <= c.index {
        s.push(c)
    } else {
        insert_by_index(s.drop_last(), c).push(s.last())
    }
}

/// `s` sorted by chunk index, chunks of equal index in their order in `s`.
pub open spec fn sort_by_index(s: Seq<FileChunk>) -> Seq<FileChunk>
    decreases s.len(),
{
    if s.len() == 0 {
        s
    } else {
        insert_by_index(sort_by_index(s.drop_last()), s.last())
    }
}

/// The chunk indexes never decrease along `s`.
pub open spec fn is_sorted_by_index(s: Seq<FileChunk>) -> bool {
    forall|i: int, j: int| 0 <= i <= j < s.len() ==> #[trigger] s[i].index <= #[trigger] s[j].index
}

/// Inserting at the position found by scanning back over the greater
/// indexes is `insert_by_index`.
proof fn lemma_insert_position(s: Seq<FileChunk>, c: FileChunk, j: int)
    requires
        0 <= j <= s.len(),
        forall|q: int| j <= q < s.len() ==> #[trigger] s[q].index > c.index,
        j == 0 || s[j - 1].index <= c.index,
    ensures
        insert_by_index(s, c) == s.insert(j, c),
    decreases s.len(),
{
    if s.len() == 0 {
        assert(s.insert(j, c) =~= seq![c]);
    } else if s.last().index <= c.index {
        assert(j == s.len());
        assert(s.insert(j, c) =~= s.push(c));
    } else {
        lemma_insert_position(s.drop_last(), c, j);
        assert(s.drop_last().insert(j, c).push(s.last()) =~= s.insert(j, c));
    }
}

/// Inserting adds exactly the one chunk.
pub proof fn lemma_insert_multiset(s: Seq<FileChunk>, c: FileChunk)
    ensures
        insert_by_index(s, c).to_multiset() == s.to_multiset().insert(c),
    decreases s.len(),
{
    if s.len() == 0 {
        assert(seq![c] =~= Seq::<FileChunk>::empty().push(c));
    } else if s.last().index <= c.index {
    } else {
        lemma_insert_multiset(s.drop_last(), c);
        assert(s =~= s.drop_last().push(s.last()));
        assert(insert_by_index(s, c).to_multiset() =~= s.to_multiset().insert(c));
    }
}

/// Sorting keeps exactly the chunks it was given.
pub proof fn lemma_sort_multiset(s: Seq<FileChunk>)
    ensures
        sort_by_index(s).to_multiset() == s.to_multiset(),
    decreases s.len(),
{
    if s.len() > 0 {
        lemma_sort_multiset(s.drop_last());
        lemma_insert_multiset(sort_by_index(s.drop_last()), s.last());
        assert(s =~= s.drop_last().push(s.last()));
    }
}

/// Inserting into a sequence whose indexes are all at most `b` a chunk whose
/// index is at most `b` keeps every index at most `b`.
proof fn lemma_insert_bounded(s: Seq<FileChunk>, c: FileChunk, b: u64)
    requires
        forall|i: int| 0 <= i < s.len() ==> #[trigger] s[i].index <= b,
        c.index <= b,
    ensures
        forall|i: int| 0 <= i < insert_by_index(s, c).len() ==> #[trigger] insert_by_index(s, c)[i].index <= b,
        insert_by_index(s, c).len() == s.len() + 1,
    decreases s.len(),
{
    if s.len() > 0 && s.last().index > c.index {
        lemma_insert_bounded(s.drop_last(), c, b);
    }
}

/// Inserting into a sorted sequence keeps it sorted.
proof fn lemma_insert_sorted(s: Seq<FileChunk>, c: FileChunk)
    requires
        is_sorted_by_index(s),
    ensures
        is_sorted_by_index(insert_by_index(s, c)),
    decreases s.len(),
{
    if s.len() > 0 && s.last().index > c.index {
        let t = insert_by_index(s.drop_last(), c);
        lemma_insert_sorted(s.drop_last(), c);
        lemma_insert_bounded(s.drop_last(), c, s.last().index);
        assert(is_sorted_by_index(t.push(s.last())));
    }
}

/// Sorting sorts.
pub proof fn lemma_sort_sorted(s: Seq<FileChunk>)
    ensures
        is_sorted_by_index(sort_by_index(s)),
    decreases s.len(),
{
    if s.len() > 0 {
        lemma_sort_sorted(s.drop_last());
        lemma_insert_sorted(sort_by_index(s.drop_last()), s.last());
    }
}

/// The bytes of `s` with one more chunk at the end.
proof fn lemma_joined_push(s: Seq<FileChunk>, c: FileChunk)
    ensures
        joined(s.push(c)) == joined(s) + c.data@,
{
    assert(chunk_datas(s.push(c)) =~= chunk_datas(s).push(c.data@));
    chunk_datas(s).lemma_flatten_push(c.data@);
}

/// Inserting a chunk adds its bytes to the total.
proof fn lemma_insert_total(s: Seq<FileChunk>, c: FileChunk)
    ensures
        joined(insert_by_index(s, c)).len() == joined(s).len() + c.data@.len(),
    decreases s.len(),
{
    if s.len() == 0 {
        lemma_joined_push(s, c);
        assert(s.push(c) =~= seq![c]);
    } else if s.last().index <= c.index {
        lemma_joined_push(s, c);
    } else {
        lemma_insert_total(s.drop_last(), c);
        lemma_joined_push(insert_by_index(s.drop_last(), c), s.last());
        lemma_joined_push(s.drop_last(), s.last());
        assert(s.drop_last().push(s.last()) =~= s);
    }
}

/// Sorting keeps the total number of bytes.
pub proof fn lemma_sort_total(s: Seq<FileChunk>)
    ensures
        joined(sort_by_index(s)).len() == joined(s).len(),
    decreases s.len(),
{
    if s.len() > 0 {
        lemma_sort_total(s.drop_last());
        lemma_insert_total(sort_by_index(s.drop_last()), s.last());
        lemma_joined_push(s.drop_last(), s.last());
        assert(s.drop_last().push(s.last()) =~= s);
    }
}

/// The chunks of `s` whose index is `index`, in their order in `s`.
pub open spec fn with_index(s: Seq<FileChunk>, index: u64) -> Seq<FileChunk> {
    s.filter(|c: FileChunk| c.index == index)
}

/// Inserting a chunk puts it after every chunk of its own index and leaves
/// the chunks of every other index in their order.
proof fn lemma_insert_stable(s: Seq<FileChunk>, c: FileChunk, index: u64)
    ensures
        with_index(insert_by_index(s, c), index) == if c.index == index {
            with_index(s, index).push(c)
        } else {
            with_index(s, index)
        },
    decreases s.len(),
{
    broadcast use Seq::lemma_filter_push;

    let p = |x: FileChunk| x.index == index;
    if s.len() == 0 {
        assert(seq![c] =~= Seq::<FileChunk>::empty().push(c));
        assert(Seq::<FileChunk>::empty().filter(p) =~= Seq::<FileChunk>::empty());
    } else if s.last().index <= c.index {
    } else {
        lemma_insert_stable(s.drop_last(), c, index);
        assert(s.drop_last().push(s.last()) =~= s);
    }
}

/// Sorting keeps chunks of equal index in the order they were given.
pub proof fn lemma_sort_stable(s: Seq<FileChunk>, index: u64)
    ensures
        with_index(sort_by_index(s), index) == with_index(s, index),
    decreases s.len(),
{
    broadcast use Seq::lemma_filter_push;

    if s.len() > 0 {
        lemma_sort_stable(s.drop_last(), index);
        lemma_insert_stable(sort_by_index(s.drop_last()), s.last(), index);
        assert(s.drop_last().push(s.last()) =~= s);
    }
}

/// Puts `c` into `out` as `insert_by_index` says.
fn insert_chunk(out: &mut Vec<FileChunk>, c: FileChunk)
    ensures
        final(out)@ == insert_by_index(old(out)@, c),
{
    let mut j = out.len();
    while j > 0 && out[j - 1].index > c.index
        invariant
            j <= out@.len(),
            forall|q: int| j <= q < out@.len() ==> #[trigger] out@[q].index > c.index,
        decreases j,
    {
        j = j - 1;
    }
    proof {
        lemma_insert_position(out@, c, j as int);
    }
    out.insert(j, c);
}

/// Sorts chunks by index, keeping chunks of equal index in their order.
pub fn sort_chunks(chunks: Vec<FileChunk>) -> (sorted: Vec<FileChunk>)
    ensures
        sorted@ == sort_by_index(chunks@),
{
    let ghost all = chunks@;
    let mut rest = chunks;
    let mut sorted: Vec<FileChunk> = Vec::new();
    while rest.len() > 0
        invariant
            rest@.len() <= all.len(),
            rest@ == all.skip(all.len() - rest@.len()),
            sorted@ == sort_by_index(all.take(all.len() - rest@.len())),
        decreases rest@.len(),
    {
        let ghost k = all.len() - rest@.len();
        let c = rest.remove(0);
        assert(all.take(k + 1).drop_last() =~= all.take(k));
        assert(rest@ =~= all.skip(k + 1));
        insert_chunk(&mut sorted, c);
    }
    assert(all.take(all.len() as int) =~= all);
    sorted
}

/// A sorted rearrangement of chunks that sit at the positions their indexes
/// name can only be those chunks in that order.
pub proof fn lemma_sorted_rearrangement_is_listing(r: Seq<FileChunk>, cs: Seq<FileChunk>)
    requires
        is_sorted_by_index(r),
        r.to_multiset() == cs.to_multiset(),
        forall|i: int| 0 <= i < cs.len() ==> #[trigger] cs[i].index == i,
    ensures
        r == cs,
    decreases cs.len(),
{
    assert(r.len() == r.to_multiset().len());
    assert(cs.len() == cs.to_multiset().len());
    let n = cs.len() as int;
    if n == 0 {
        assert(r =~= cs);
    } else {
        let x = cs.last();
        assert(cs[n - 1] == x);
        assert(cs.contains(x));
        assert(cs.to_multiset().count(x) > 0);
        assert(r.to_multiset().count(x) > 0);
        assert(r.contains(x));
        let j = choose|j: int| 0 <= j < r.len() && r[j] == x;
        let y = r.last();
        assert(r[n - 1] == y);
        assert(r[j].index <= r[n - 1].index);
        assert(r.contains(y));
        assert(r.to_multiset().count(y) > 0);
        assert(cs.to_multiset().count(y) > 0);
        assert(cs.contains(y));
        let k = choose|k: int| 0 <= k < cs.len() && cs[k] == y;
        assert(cs[k].index == k);
        assert(k == n - 1);
        assert(y == x);
        let rd = r.drop_last();
        let cd = cs.drop_last();
        assert(r =~= rd.push(y));
        assert(cs =~= cd.push(x));
        assert(rd.to_multiset().insert(y) == cd.to_multiset().insert(x));
        assert forall|v: FileChunk| rd.to_multiset().count(v) == cd.to_multiset().count(v) by {
            assert(rd.to_multiset().insert(y).count(v) == cd.to_multiset().insert(x).count(v));
        }
        assert(rd.to_multiset() =~= cd.to_multiset());
        assert forall|i: int| 0 <= i < cd.len() implies #[trigger] cd[i].index == i by {
            assert(cd[i] == cs[i]);
        }
        assert(is_sorted_by_index(rd)) by {
            assert forall|a: int, b: int| 0 <= a <= b < rd.len() implies #[trigger] rd[a].index
                <= #[trigger] rd[b].index by {
                assert(rd[a] == r[a] && rd[b] == r[b]);
            }
        }
        lemma_sorted_rearrangement_is_listing(rd, cd);
        assert(r =~= cs);
    }
}

} // verus!
