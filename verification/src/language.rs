//! Block merging: adjacent or overlapping code blocks of one file are joined
//! under type-sensitive distance thresholds.

use vstd::prelude::*;

use crate::models::{BlockModel, CodeBlock, models_of};
use crate::text::str_eq;

verus! {

/// Default largest row gap at which two ordinary blocks still merge.
pub const BASE_MERGE_THRESHOLD: usize = 5;

/// Default largest row gap at which two blocks merge when either is a
/// container kind (a type, class, impl, module or similar).
pub const CONTAINER_MERGE_THRESHOLD: usize = 20;

/// Node kinds whose body spans declarations rather than statements; such
/// blocks merge across larger gaps.
pub open spec fn is_container_kind(nt: Seq<char>) -> bool {
    ||| nt == "struct_type"@
    ||| nt == "struct_item"@
    ||| nt == "struct_specifier"@
    ||| nt == "class_declaration"@
    ||| nt == "class_definition"@
    ||| nt == "class_specifier"@
    ||| nt == "impl_item"@
    ||| nt == "enum_item"@
    ||| nt == "enum_declaration"@
    ||| nt == "enum_specifier"@
    ||| nt == "interface_declaration"@
    ||| nt == "trait_item"@
    ||| nt == "trait_declaration"@
    ||| nt == "mod_item"@
    ||| nt == "module"@
    ||| nt == "namespace_definition"@
    ||| nt == "type_declaration"@
}

/// Whether a node kind merges under the larger, container threshold.
pub fn is_container_node_type(nt: &str) -> (r: bool)
    ensures
        r == is_container_kind(nt@),
{
    str_eq(nt, "struct_type") || str_eq(nt, "struct_item") || str_eq(nt, "struct_specifier")
        || str_eq(nt, "class_declaration") || str_eq(nt, "class_definition") || str_eq(
        nt,
        "class_specifier",
    ) || str_eq(nt, "impl_item") || str_eq(nt, "enum_item") || str_eq(nt, "enum_declaration")
        || str_eq(nt, "enum_specifier") || str_eq(nt, "interface_declaration") || str_eq(
        nt,
        "trait_item",
    ) || str_eq(nt, "trait_declaration") || str_eq(nt, "mod_item") || str_eq(nt, "module")
        || str_eq(nt, "namespace_definition") || str_eq(nt, "type_declaration")
}

/// The row gap threshold for a pair of blocks.
pub open spec fn merge_threshold_of(a: BlockModel, b: BlockModel, base: int, cont: int) -> int {
    if is_container_kind(a.node_type) || is_container_kind(b.node_type) {
        if cont >= base {
            cont
        } else {
            base
        }
    } else {
        base
    }
}

/// Whether `b` (which starts no earlier than `cur`) overlaps `cur` or lies
/// within the threshold gap after it.
pub open spec fn spec_can_merge(cur: BlockModel, b: BlockModel, base: int, cont: int) -> bool {
    b.start_row <= cur.end_row + merge_threshold_of(cur, b, base, cont)
}

/// The union of two blocks; the kind is the container one if either is a
/// container, else the current block's kind.
pub open spec fn spec_merge_two(cur: BlockModel, b: BlockModel) -> BlockModel {
    BlockModel {
        start_row: if cur.start_row <= b.start_row {
            cur.start_row
        } else {
            b.start_row
        },
        end_row: if cur.end_row >= b.end_row {
            cur.end_row
        } else {
            b.end_row
        },
        start_byte: if cur.start_byte <= b.start_byte {
            cur.start_byte
        } else {
            b.start_byte
        },
        end_byte: if cur.end_byte >= b.end_byte {
            cur.end_byte
        } else {
            b.end_byte
        },
        node_type: if is_container_kind(cur.node_type) {
            cur.node_type
        } else if is_container_kind(b.node_type) {
            b.node_type
        } else {
            cur.node_type
        },
    }
}

/// Left-to-right walk over the remaining sorted blocks with a current block.
pub open spec fn spec_merge_loop(s: Seq<BlockModel>, cur: BlockModel, base: int, cont: int) -> Seq<
    BlockModel,
>
    decreases s.len(),
{
    if s.len() == 0 {
        seq![cur]
    } else if spec_can_merge(cur, s[0], base, cont) {
        spec_merge_loop(s.drop_first(), spec_merge_two(cur, s[0]), base, cont)
    } else {
        seq![cur] + spec_merge_loop(s.drop_first(), s[0], base, cont)
    }
}

/// Merge of an already sorted block sequence.
pub open spec fn spec_merge(s: Seq<BlockModel>, base: int, cont: int) -> Seq<BlockModel> {
    if s.len() == 0 {
        Seq::<BlockModel>::empty()
    } else {
        spec_merge_loop(s.drop_first(), s[0], base, cont)
    }
}

/// Stable insertion of a block into a sequence sorted by `start_row`.
pub open spec fn spec_insert(s: Seq<BlockModel>, x: BlockModel) -> Seq<BlockModel>
    decreases s.len(),
{
    if s.len() == 0 {
        seq![x]
    } else if s.last().start_row <= x.start_row {
        s.push(x)
    } else {
        spec_insert(s.drop_last(), x).push(s.last())
    }
}

/// Stable sort of blocks by `start_row`.
pub open spec fn spec_sort(s: Seq<BlockModel>) -> Seq<BlockModel>
    decreases s.len(),
{
    if s.len() == 0 {
        Seq::<BlockModel>::empty()
    } else {
        spec_insert(spec_sort(s.drop_last()), s.last())
    }
}

pub open spec fn sorted_by_start(s: Seq<BlockModel>) -> bool {
    forall|i: int, j: int|
        0 <= i < j < s.len() ==> #[trigger] s[i].start_row <= #[trigger] s[j].start_row
}

/// `a`'s extents contain `b`'s, in rows and in bytes.
pub open spec fn block_covers(a: BlockModel, b: BlockModel) -> bool {
    &&& a.start_row <= b.start_row
    &&& b.end_row <= a.end_row
    &&& a.start_byte <= b.start_byte
    &&& b.end_byte <= a.end_byte
}

proof fn lemma_insert_multiset(s: Seq<BlockModel>, x: BlockModel)
    ensures
        spec_insert(s, x).to_multiset() =~= s.to_multiset().insert(x),
    decreases s.len(),
{
    broadcast use vstd::seq_lib::group_to_multiset_ensures;

    if s.len() == 0 {
        assert(seq![x] =~= Seq::<BlockModel>::empty().push(x));
        assert(Seq::<BlockModel>::empty().push(x).to_multiset() =~= Seq::<
            BlockModel,
        >::empty().to_multiset().insert(x));
    } else if s.last().start_row <= x.start_row {
        assert(s.push(x).to_multiset() =~= s.to_multiset().insert(x));
    } else {
        lemma_insert_multiset(s.drop_last(), x);
        let r = spec_insert(s.drop_last(), x);
        assert(r.push(s.last()).to_multiset() =~= r.to_multiset().insert(s.last()));
        assert(s.drop_last().push(s.last()) =~= s);
        assert(s.drop_last().push(s.last()).to_multiset() =~= s.drop_last().to_multiset().insert(
            s.last(),
        ));
        assert(s.drop_last().to_multiset().insert(x).insert(s.last())
            =~= s.drop_last().to_multiset().insert(s.last()).insert(x));
    }
}

proof fn lemma_sort_multiset(s: Seq<BlockModel>)
    ensures
        spec_sort(s).to_multiset() =~= s.to_multiset(),
    decreases s.len(),
{
    broadcast use vstd::seq_lib::group_to_multiset_ensures;

    if s.len() > 0 {
        lemma_sort_multiset(s.drop_last());
        lemma_insert_multiset(spec_sort(s.drop_last()), s.last());
        assert(s.drop_last().push(s.last()) =~= s);
        assert(s.drop_last().push(s.last()).to_multiset() =~= s.drop_last().to_multiset().insert(
            s.last(),
        ));
    }
}

proof fn lemma_insert_sorted(s: Seq<BlockModel>, x: BlockModel)
    requires
        sorted_by_start(s),
    ensures
        sorted_by_start(spec_insert(s, x)),
    decreases s.len(),
{
    broadcast use vstd::seq_lib::group_to_multiset_ensures;

    if s.len() == 0 {
    } else if s.last().start_row <= x.start_row {
        let r = s.push(x);
        assert forall|i: int, j: int| 0 <= i < j < r.len() implies #[trigger] r[i].start_row
            <= #[trigger] r[j].start_row by {
            if j < s.len() {
            } else {
                if i < s.len() - 1 {
                    assert(s[i].start_row <= s[s.len() - 1].start_row);
                }
            }
        }
    } else {
        assert(sorted_by_start(s.drop_last()));
        lemma_insert_sorted(s.drop_last(), x);
        lemma_insert_multiset(s.drop_last(), x);
        let q = spec_insert(s.drop_last(), x);
        let r = q.push(s.last());
        assert forall|i: int, j: int| 0 <= i < j < r.len() implies #[trigger] r[i].start_row
            <= #[trigger] r[j].start_row by {
            if j < q.len() {
            } else {
                // r[j] is s.last(); every element of q is an element of
                // s.drop_last(), all of which start no later, or is x itself.
                assert(q.contains(q[i]));
                assert(q.to_multiset().count(q[i]) > 0);
                if q[i] == x {
                } else {
                    assert(s.drop_last().to_multiset().count(q[i]) > 0);
                    assert(s.drop_last().contains(q[i]));
                    let w = choose|w: int|
                        0 <= w < s.drop_last().len() && s.drop_last()[w] == q[i];
                    assert(s[w].start_row <= s[s.len() - 1].start_row);
                }
            }
        }
    }
}

proof fn lemma_sort_sorted(s: Seq<BlockModel>)
    ensures
        sorted_by_start(spec_sort(s)),
    decreases s.len(),
{
    if s.len() > 0 {
        lemma_sort_sorted(s.drop_last());
        lemma_insert_sorted(spec_sort(s.drop_last()), s.last());
    }
}

/// Sorting a sequence already sorted by `start_row` leaves it unchanged.
proof fn lemma_sort_of_sorted(s: Seq<BlockModel>)
    requires
        sorted_by_start(s),
    ensures
        spec_sort(s) == s,
    decreases s.len(),
{
    if s.len() > 0 {
        assert(sorted_by_start(s.drop_last()));
        lemma_sort_of_sorted(s.drop_last());
        if s.len() > 1 {
            assert(s.drop_last().last().start_row <= s.last().start_row);
        }
        assert(spec_insert(s.drop_last(), s.last()) =~= s);
    } else {
        assert(spec_sort(s) =~= s);
    }
}

proof fn lemma_merge_loop_props(s: Seq<BlockModel>, cur: BlockModel, base: int, cont: int)
    requires
        base >= 0,
        cont >= 0,
        cur.wf(),
        forall|i: int| 0 <= i < s.len() ==> (#[trigger] s[i]).wf(),
        sorted_by_start(s),
        forall|i: int| 0 <= i < s.len() ==> cur.start_row <= (#[trigger] s[i]).start_row,
    ensures
        ({
            let r = spec_merge_loop(s, cur, base, cont);
            &&& r.len() >= 1
            &&& r[0].start_row == cur.start_row
            &&& forall|k: int| 0 <= k < r.len() ==> (#[trigger] r[k]).wf()
            &&& forall|k: int|
                0 <= k < r.len() - 1 ==> (#[trigger] r[k]).end_row < r[k + 1].start_row
            &&& exists|j: int| 0 <= j < r.len() && block_covers(#[trigger] r[j], cur)
            &&& forall|i: int|
                0 <= i < s.len() ==> exists|j: int|
                    0 <= j < r.len() && block_covers(#[trigger] r[j], #[trigger] s[i])
        }),
    decreases s.len(),
{
    let r = spec_merge_loop(s, cur, base, cont);
    if s.len() == 0 {
        assert(r =~= seq![cur]);
        assert(block_covers(r[0], cur));
    } else if spec_can_merge(cur, s[0], base, cont) {
        let m = spec_merge_two(cur, s[0]);
        assert(sorted_by_start(s.drop_first()));
        assert(m.start_row == cur.start_row);
        lemma_merge_loop_props(s.drop_first(), m, base, cont);
        assert(block_covers(m, cur));
        assert(block_covers(m, s[0]));
        let r2 = spec_merge_loop(s.drop_first(), m, base, cont);
        assert(r == r2);
        let j0 = choose|j: int| 0 <= j < r2.len() && block_covers(r2[j], m);
        assert(block_covers(r2[j0], cur));
        assert(block_covers(r2[j0], s[0]));
        assert forall|i: int| 0 <= i < s.len() implies exists|j: int|
            0 <= j < r.len() && block_covers(#[trigger] r[j], #[trigger] s[i]) by {
            if i == 0 {
                assert(block_covers(r[j0], s[0]));
            } else {
                assert(s.drop_first()[i - 1] == s[i]);
            }
        }
    } else {
        let r2 = spec_merge_loop(s.drop_first(), s[0], base, cont);
        assert(sorted_by_start(s.drop_first()));
        lemma_merge_loop_props(s.drop_first(), s[0], base, cont);
        assert(r =~= seq![cur] + r2);
        assert(r[0] == cur);
        assert(merge_threshold_of(cur, s[0], base, cont) >= 0);
        assert(cur.end_row < s[0].start_row);
        assert(r2[0].start_row == s[0].start_row);
        assert forall|k: int| 0 <= k < r.len() - 1 implies (#[trigger] r[k]).end_row < r[k
            + 1].start_row by {
            if k == 0 {
                assert(r[1] == r2[0]);
            } else {
                assert(r[k] == r2[k - 1]);
                assert(r[k + 1] == r2[k]);
            }
        }
        assert(block_covers(r[0], cur));
        assert forall|i: int| 0 <= i < s.len() implies exists|j: int|
            0 <= j < r.len() && block_covers(#[trigger] r[j], #[trigger] s[i]) by {
            if i == 0 {
                let j0 = choose|j: int| 0 <= j < r2.len() && block_covers(r2[j], s[0]);
                assert(r[j0 + 1] == r2[j0]);
                assert(block_covers(r[j0 + 1], s[0]));
            } else {
                assert(s.drop_first()[i - 1] == s[i]);
                let j1 = choose|j: int|
                    0 <= j < r2.len() && block_covers(r2[j], s.drop_first()[i - 1]);
                assert(r[j1 + 1] == r2[j1]);
                assert(block_covers(r[j1 + 1], s[i]));
            }
        }
    }
}

/// Merging yields blocks that are sorted by row, pairwise disjoint and
/// well-formed, and every input block's row and byte range lies inside one
/// of the merged blocks.
pub proof fn lemma_merge_properties(s: Seq<BlockModel>, base: int, cont: int)
    requires
        base >= 0,
        cont >= 0,
        forall|i: int| 0 <= i < s.len() ==> (#[trigger] s[i]).wf(),
    ensures
        ({
            let r = spec_merge(spec_sort(s), base, cont);
            &&& (r.len() == 0 <==> s.len() == 0)
            &&& forall|k: int| 0 <= k < r.len() ==> (#[trigger] r[k]).wf()
            &&& forall|k: int|
                0 <= k < r.len() - 1 ==> (#[trigger] r[k]).end_row < r[k + 1].start_row
            &&& forall|i: int|
                0 <= i < s.len() ==> exists|j: int|
                    0 <= j < r.len() && block_covers(#[trigger] r[j], #[trigger] s[i])
        }),
{
    broadcast use vstd::seq_lib::group_to_multiset_ensures;

    let t = spec_sort(s);
    lemma_sort_sorted(s);
    lemma_sort_multiset(s);
    assert(t.len() == s.len()) by {
        assert(t.to_multiset().len() == t.len());
        assert(s.to_multiset().len() == s.len());
    }
    if s.len() == 0 {
    } else {
        assert forall|i: int| 0 <= i < t.len() implies (#[trigger] t[i]).wf() by {
            assert(t.contains(t[i]));
            assert(t.to_multiset().count(t[i]) > 0);
            assert(s.to_multiset().count(t[i]) > 0);
            assert(s.contains(t[i]));
        }
        assert(sorted_by_start(t.drop_first()));
        assert forall|i: int| 0 <= i < t.drop_first().len() implies t[0].start_row
            <= (#[trigger] t.drop_first()[i]).start_row by {
            assert(t.drop_first()[i] == t[i + 1]);
        }
        lemma_merge_loop_props(t.drop_first(), t[0], base, cont);
        let r = spec_merge(t, base, cont);
        assert forall|i: int| 0 <= i < s.len() implies exists|j: int|
            0 <= j < r.len() && block_covers(#[trigger] r[j], #[trigger] s[i]) by {
            assert(s.contains(s[i]));
            assert(s.to_multiset().count(s[i]) > 0);
            assert(t.to_multiset().count(s[i]) > 0);
            assert(t.contains(s[i]));
            let w = choose|w: int| 0 <= w < t.len() && t[w] == s[i];
            if w == 0 {
                let j0 = choose|j: int| 0 <= j < r.len() && block_covers(r[j], t[0]);
                assert(block_covers(r[j0], s[i]));
            } else {
                assert(t.drop_first()[w - 1] == t[w]);
                let j1 = choose|j: int|
                    0 <= j < r.len() && block_covers(r[j], t.drop_first()[w - 1]);
                assert(block_covers(r[j1], s[i]));
            }
        }
    }
}

/// All blocks of a sequence agree on whether they are container kinds.
pub open spec fn uniform_container(s: Seq<BlockModel>, u: bool) -> bool {
    forall|i: int| 0 <= i < s.len() ==> is_container_kind((#[trigger] s[i]).node_type) == u
}

proof fn lemma_merge_loop_uniform(
    s: Seq<BlockModel>,
    cur: BlockModel,
    base: int,
    cont: int,
    u: bool,
)
    requires
        base >= 0,
        cont >= base,
        uniform_container(s, u),
        is_container_kind(cur.node_type) == u,
        sorted_by_start(s),
        forall|i: int| 0 <= i < s.len() ==> cur.start_row <= (#[trigger] s[i]).start_row,
    ensures
        ({
            let r = spec_merge_loop(s, cur, base, cont);
            let thr = if u {
                cont
            } else {
                base
            };
            &&& uniform_container(r, u)
            &&& r.len() >= 1
            &&& r[0].start_row == cur.start_row
            &&& r[0].end_row >= cur.end_row
            &&& forall|k: int|
                0 <= k < r.len() - 1 ==> (#[trigger] r[k]).end_row + thr < r[k + 1].start_row
        }),
    decreases s.len(),
{
    let r = spec_merge_loop(s, cur, base, cont);
    let thr = if u {
        cont
    } else {
        base
    };
    if s.len() == 0 {
        assert(r =~= seq![cur]);
    } else if spec_can_merge(cur, s[0], base, cont) {
        let m = spec_merge_two(cur, s[0]);
        assert(uniform_container(s.drop_first(), u));
        assert(is_container_kind(m.node_type) == u);
        assert(sorted_by_start(s.drop_first()));
        assert(m.start_row == cur.start_row);
        assert forall|i: int| 0 <= i < s.drop_first().len() implies m.start_row
            <= (#[trigger] s.drop_first()[i]).start_row by {
            assert(s.drop_first()[i] == s[i + 1]);
        }
        lemma_merge_loop_uniform(s.drop_first(), m, base, cont, u);
    } else {
        let r2 = spec_merge_loop(s.drop_first(), s[0], base, cont);
        assert(uniform_container(s.drop_first(), u));
        assert(sorted_by_start(s.drop_first()));
        assert forall|i: int| 0 <= i < s.drop_first().len() implies s[0].start_row
            <= (#[trigger] s.drop_first()[i]).start_row by {
            assert(s.drop_first()[i] == s[i + 1]);
        }
        lemma_merge_loop_uniform(s.drop_first(), s[0], base, cont, u);
        assert(r =~= seq![cur] + r2);
        assert(merge_threshold_of(cur, s[0], base, cont) == thr);
        assert(cur.end_row + thr < s[0].start_row);
        assert forall|k: int| 0 <= k < r.len() implies is_container_kind(
            (#[trigger] r[k]).node_type,
        ) == u by {
            if k > 0 {
                assert(r[k] == r2[k - 1]);
            }
        }
        assert forall|k: int| 0 <= k < r.len() - 1 implies (#[trigger] r[k]).end_row + thr < r[k
            + 1].start_row by {
            if k == 0 {
                assert(r[1] == r2[0]);
            } else {
                assert(r[k] == r2[k - 1]);
                assert(r[k + 1] == r2[k]);
            }
        }
    }
}

/// When no consecutive pair of a sorted sequence is close enough to merge,
/// merging returns the sequence unchanged.
proof fn lemma_merge_separated(s: Seq<BlockModel>, base: int, cont: int)
    requires
        forall|k: int|
            0 <= k < s.len() - 1 ==> !spec_can_merge(#[trigger] s[k], s[k + 1], base, cont),
    ensures
        spec_merge(s, base, cont) == s,
{
    if s.len() > 0 {
        lemma_merge_loop_separated(s.drop_first(), s[0], base, cont);
        assert(seq![s[0]] + s.drop_first() =~= s);
    } else {
        assert(spec_merge(s, base, cont) =~= s);
    }
}

proof fn lemma_merge_loop_separated(s: Seq<BlockModel>, cur: BlockModel, base: int, cont: int)
    requires
        s.len() > 0 ==> !spec_can_merge(cur, s[0], base, cont),
        forall|k: int|
            0 <= k < s.len() - 1 ==> !spec_can_merge(#[trigger] s[k], s[k + 1], base, cont),
    ensures
        spec_merge_loop(s, cur, base, cont) == seq![cur] + s,
    decreases s.len(),
{
    if s.len() == 0 {
        assert(spec_merge_loop(s, cur, base, cont) =~= seq![cur] + s);
    } else {
        lemma_merge_loop_separated(s.drop_first(), s[0], base, cont);
        assert(seq![cur] + (seq![s[0]] + s.drop_first()) =~= seq![cur] + s);
    }
}

proof fn lemma_sort_preserves(s: Seq<BlockModel>, u: bool)
    requires
        forall|i: int| 0 <= i < s.len() ==> (#[trigger] s[i]).wf(),
        uniform_container(s, u),
    ensures
        ({
            let t = spec_sort(s);
            &&& t.len() == s.len()
            &&& sorted_by_start(t)
            &&& forall|i: int| 0 <= i < t.len() ==> (#[trigger] t[i]).wf()
            &&& uniform_container(t, u)
        }),
{
    broadcast use vstd::seq_lib::group_to_multiset_ensures;

    let t = spec_sort(s);
    lemma_sort_sorted(s);
    lemma_sort_multiset(s);
    assert(t.len() == s.len()) by {
        assert(t.to_multiset().len() == t.len());
        assert(s.to_multiset().len() == s.len());
    }
    assert forall|i: int| 0 <= i < t.len() implies (#[trigger] t[i]).wf() && is_container_kind(
        t[i].node_type,
    ) == u by {
        assert(t.contains(t[i]));
        assert(t.to_multiset().count(t[i]) > 0);
        assert(s.to_multiset().count(t[i]) > 0);
        assert(s.contains(t[i]));
    }
}

proof fn lemma_merge_of_separated_uniform(r: Seq<BlockModel>, base: int, cont: int, u: bool)
    requires
        0 <= base <= cont,
        forall|k: int| 0 <= k < r.len() ==> (#[trigger] r[k]).wf(),
        uniform_container(r, u),
        forall|k: int|
            0 <= k < r.len() - 1 ==> (#[trigger] r[k]).end_row + (if u {
                cont
            } else {
                base
            }) < r[k + 1].start_row,
    ensures
        spec_merge(spec_sort(r), base, cont) == r,
{
    let thr = if u {
        cont
    } else {
        base
    };
    assert forall|i: int, j: int| 0 <= i < j < r.len() implies #[trigger] r[i].start_row
        <= #[trigger] r[j].start_row by {
        lemma_separated_implies_sorted(r, thr, i, j);
    }
    lemma_sort_of_sorted(r);
    assert forall|k: int| 0 <= k < r.len() - 1 implies !spec_can_merge(
        #[trigger] r[k],
        r[k + 1],
        base,
        cont,
    ) by {
        assert(merge_threshold_of(r[k], r[k + 1], base, cont) == thr);
    }
    lemma_merge_separated(r, base, cont);
}

/// Merging is idempotent on block sets whose kinds agree on container status:
/// merging the merged result changes nothing.
pub proof fn lemma_merge_idempotent(s: Seq<BlockModel>, base: int, cont: int, u: bool)
    requires
        0 <= base <= cont,
        forall|i: int| 0 <= i < s.len() ==> (#[trigger] s[i]).wf(),
        uniform_container(s, u),
    ensures
        ({
            let r = spec_merge(spec_sort(s), base, cont);
            spec_merge(spec_sort(r), base, cont) == r
        }),
{
    let t = spec_sort(s);
    let r = spec_merge(t, base, cont);
    lemma_sort_preserves(s, u);
    if s.len() == 0 {
        assert(spec_sort(r) =~= r);
        assert(spec_merge(r, base, cont) =~= r);
    } else {
        assert(uniform_container(t.drop_first(), u));
        assert(sorted_by_start(t.drop_first()));
        assert forall|i: int| 0 <= i < t.drop_first().len() implies t[0].start_row
            <= (#[trigger] t.drop_first()[i]).start_row by {
            assert(t.drop_first()[i] == t[i + 1]);
        }
        lemma_merge_loop_uniform(t.drop_first(), t[0], base, cont, u);
        lemma_merge_properties(s, base, cont);
        lemma_merge_of_separated_uniform(r, base, cont, u);
    }
}

proof fn lemma_separated_implies_sorted(r: Seq<BlockModel>, thr: int, i: int, j: int)
    requires
        thr >= 0,
        forall|k: int| 0 <= k < r.len() - 1 ==> (#[trigger] r[k]).end_row + thr < r[k + 1].start_row,
        forall|k: int| 0 <= k < r.len() ==> (#[trigger] r[k]).wf(),
        0 <= i < j < r.len(),
    ensures
        r[i].start_row <= r[j].start_row,
    decreases j - i,
{
    if j == i + 1 {
        assert(r[i].end_row + thr < r[j].start_row);
    } else {
        lemma_separated_implies_sorted(r, thr, i + 1, j);
        assert(r[i].end_row + thr < r[i + 1].start_row);
    }
}

fn insert_block(v: Vec<CodeBlock>, x: CodeBlock) -> (r: Vec<CodeBlock>)
    ensures
        models_of(r@) == spec_insert(models_of(v@), x.model()),
    decreases v@.len(),
{
    let mut v = v;
    if v.len() == 0 {
        let ghost gv = v@;
        v.push(x);
        proof {
            assert(models_of(gv.push(x)) =~= seq![x.model()]);
        }
        v
    } else if v[v.len() - 1].start_row <= x.start_row {
        let ghost gv = v@;
        v.push(x);
        proof {
            assert(models_of(gv).last().start_row <= x.model().start_row);
            assert(models_of(gv.push(x)) =~= models_of(gv).push(x.model()));
        }
        v
    } else {
        let ghost gv = v@;
        let last = v.pop().unwrap();
        proof {
            assert(models_of(v@) =~= models_of(gv).drop_last());
            assert(models_of(gv).last().start_row > x.model().start_row);
        }
        let mut r = insert_block(v, x);
        let ghost gr = r@;
        r.push(last);
        proof {
            assert(models_of(gr.push(last)) =~= models_of(gr).push(last.model()));
        }
        r
    }
}

fn sort_blocks(v: Vec<CodeBlock>) -> (r: Vec<CodeBlock>)
    ensures
        models_of(r@) == spec_sort(models_of(v@)),
{
    let ghost orig = models_of(v@);
    let mut v = v;
    let mut out: Vec<CodeBlock> = Vec::new();
    let ghost k: int = 0;
    proof {
        assert(models_of(out@) =~= spec_sort(orig.take(0)));
        assert(models_of(v@) =~= orig.skip(0));
    }
    while v.len() > 0
        invariant
            0 <= k <= orig.len(),
            models_of(out@) == spec_sort(orig.take(k)),
            models_of(v@) == orig.skip(k),
            k + v@.len() == orig.len(),
        decreases v@.len(),
    {
        let ghost gv = v@;
        let x = v.remove(0);
        proof {
            assert(models_of(v@) =~= models_of(gv).drop_first());
            assert(models_of(gv).drop_first() =~= orig.skip(k + 1));
            assert(models_of(gv)[0] == gv[0].model());
            assert(orig.skip(k)[0] == orig[k]);
            assert(x.model() == orig[k]);
        }
        out = insert_block(out, x);
        proof {
            assert(orig.take(k + 1).drop_last() =~= orig.take(k));
            assert(orig.take(k + 1).last() == orig[k]);
            assert(spec_sort(orig.take(k + 1)) == spec_insert(
                spec_sort(orig.take(k)),
                orig[k],
            ));
        }
        proof {
            k = k + 1;
        }
    }
    proof {
        assert(orig.take(k) =~= orig);
    }
    out
}

fn merge_two(cur: CodeBlock, b: CodeBlock) -> (r: CodeBlock)
    ensures
        r.model() == spec_merge_two(cur.model(), b.model()),
{
    let start_row = if cur.start_row <= b.start_row {
        cur.start_row
    } else {
        b.start_row
    };
    let end_row = if cur.end_row >= b.end_row {
        cur.end_row
    } else {
        b.end_row
    };
    let start_byte = if cur.start_byte <= b.start_byte {
        cur.start_byte
    } else {
        b.start_byte
    };
    let end_byte = if cur.end_byte >= b.end_byte {
        cur.end_byte
    } else {
        b.end_byte
    };
    let node_type = if is_container_node_type(cur.node_type.as_str()) {
        cur.node_type
    } else if is_container_node_type(b.node_type.as_str()) {
        b.node_type
    } else {
        cur.node_type
    };
    CodeBlock { start_row, end_row, start_byte, end_byte, node_type }
}

fn can_merge(cur: &CodeBlock, b: &CodeBlock, base: usize, cont: usize) -> (r: bool)
    ensures
        r == spec_can_merge(cur.model(), b.model(), base as int, cont as int),
{
    let t = if is_container_node_type(cur.node_type.as_str()) || is_container_node_type(
        b.node_type.as_str(),
    ) {
        if cont >= base {
            cont
        } else {
            base
        }
    } else {
        base
    };
    b.start_row <= cur.end_row || b.start_row - cur.end_row <= t
}

fn merge_sorted(v: Vec<CodeBlock>, base: usize, cont: usize) -> (r: Vec<CodeBlock>)
    ensures
        models_of(r@) == spec_merge(models_of(v@), base as int, cont as int),
{
    let ghost orig = models_of(v@);
    let mut v = v;
    let mut out: Vec<CodeBlock> = Vec::new();
    if v.len() == 0 {
        proof {
            assert(models_of(out@) =~= Seq::<BlockModel>::empty());
        }
        return out;
    }
    let ghost gv0 = v@;
    let mut cur = v.remove(0);
    proof {
        assert(models_of(v@) =~= models_of(gv0).drop_first());
        assert(cur.model() == orig[0]);
    }
    while v.len() > 0
        invariant
            spec_merge(orig, base as int, cont as int) == models_of(out@) + spec_merge_loop(
                models_of(v@),
                cur.model(),
                base as int,
                cont as int,
            ),
        decreases v@.len(),
    {
        let ghost gv = v@;
        let b = v.remove(0);
        proof {
            assert(models_of(v@) =~= models_of(gv).drop_first());
            assert(b.model() == models_of(gv)[0]);
        }
        if can_merge(&cur, &b, base, cont) {
            cur = merge_two(cur, b);
        } else {
            let ghost gout = out@;
            out.push(cur);
            proof {
                assert(models_of(gout.push(cur)) =~= models_of(gout).push(cur.model()));
                assert(models_of(gout).push(cur.model()) =~= models_of(gout) + seq![cur.model()]);
            }
            cur = b;
        }
    }
    let ghost gout = out@;
    out.push(cur);
    proof {
        assert(models_of(gout.push(cur)) =~= models_of(gout) + seq![cur.model()]);
        assert(models_of(v@) =~= Seq::<BlockModel>::empty());
    }
    out
}

/// Merges overlapping or nearby blocks with the default thresholds: a gap of
/// up to 5 rows for ordinary blocks, up to 20 when a container is involved.
pub fn merge_code_blocks(blocks: Vec<CodeBlock>) -> (r: Vec<CodeBlock>)
    requires
        forall|i: int| 0 <= i < blocks@.len() ==> (#[trigger] blocks@[i]).wf(),
    ensures
        models_of(r@) == spec_merge(spec_sort(models_of(blocks@)), 5, 20),
        forall|k: int| 0 <= k < r@.len() ==> (#[trigger] r@[k]).wf(),
        forall|k: int| 0 <= k < r@.len() - 1 ==> (#[trigger] r@[k]).end_row < r@[k + 1].start_row,
        forall|i: int|
            0 <= i < blocks@.len() ==> exists|j: int|
                0 <= j < r@.len() && block_covers(
                    (#[trigger] r@[j]).model(),
                    (#[trigger] blocks@[i]).model(),
                ),
{
    merge_code_blocks_with_threshold(blocks, BASE_MERGE_THRESHOLD)
}

/// Merges with a caller-chosen base threshold; the container threshold is the
/// larger of the base and 20.
pub fn merge_code_blocks_with_threshold(blocks: Vec<CodeBlock>, base_threshold: usize) -> (r: Vec<
    CodeBlock,
>)
    requires
        forall|i: int| 0 <= i < blocks@.len() ==> (#[trigger] blocks@[i]).wf(),
    ensures
        models_of(r@) == spec_merge(
            spec_sort(models_of(blocks@)),
            base_threshold as int,
            if base_threshold as int >= 20 {
                base_threshold as int
            } else {
                20
            },
        ),
        forall|k: int| 0 <= k < r@.len() ==> (#[trigger] r@[k]).wf(),
        forall|k: int| 0 <= k < r@.len() - 1 ==> (#[trigger] r@[k]).end_row < r@[k + 1].start_row,
        forall|i: int|
            0 <= i < blocks@.len() ==> exists|j: int|
                0 <= j < r@.len() && block_covers(
                    (#[trigger] r@[j]).model(),
                    (#[trigger] blocks@[i]).model(),
                ),
{
    let ghost in_models = models_of(blocks@);
    let cont = if base_threshold >= CONTAINER_MERGE_THRESHOLD {
        base_threshold
    } else {
        CONTAINER_MERGE_THRESHOLD
    };
    let sorted = sort_blocks(blocks);
    let r = merge_sorted(sorted, base_threshold, cont);
    proof {
        lemma_merge_properties(in_models, base_threshold as int, cont as int);
        let rm = spec_merge(spec_sort(in_models), base_threshold as int, cont as int);
        assert forall|k: int| 0 <= k < r@.len() implies (#[trigger] r@[k]).wf() by {
            assert(r@[k].model() == rm[k]);
        }
        assert forall|k: int| 0 <= k < r@.len() - 1 implies (#[trigger] r@[k]).end_row < r@[k
            + 1].start_row by {
            assert(r@[k].model() == rm[k]);
            assert(r@[k + 1].model() == rm[k + 1]);
        }
        assert forall|i: int| 0 <= i < blocks@.len() implies exists|j: int|
            0 <= j < r@.len() && block_covers(
                (#[trigger] r@[j]).model(),
                (#[trigger] blocks@[i]).model(),
            ) by {
            assert(in_models[i] == blocks@[i].model());
            let j0 = choose|j: int| 0 <= j < rm.len() && block_covers(rm[j], in_models[i]);
            assert(r@[j0].model() == rm[j0]);
            assert(block_covers(r@[j0].model(), blocks@[i].model()));
        }
    }
    r
}

} // verus!
