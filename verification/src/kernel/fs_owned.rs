//! Which inode holds which data block, and what replacing an inode's contents
//! does to the others.
use vstd::prelude::*;
use crate::kernel::fs_blocks::{
    in_data, is_ino, laid_out, lemma_bit_ok, lemma_inode_ok, lemma_store_data, lemma_with_bit,
    lemma_with_inode, node, same_bits, same_data, same_nodes, taken,
};
use crate::kernel::fs_format::{blocks_for, FsError, Node};
use crate::kernel::fs_model::{padded_block, Volume};

verus! {

/// Inode `i` holds a `k`-th data block.
pub open spec fn holds(v: Volume, i: int, k: int) -> bool {
    is_ino(v, i) && 0 <= k < blocks_for(node(v, i).size as int)
}

/// The `k`-th data block of inode `i`.
pub open spec fn held(v: Volume, i: int, k: int) -> int {
    node(v, i).direct[k] as int
}

/// Every data block that an inode holds is marked as taken and is held once, by
/// one inode. Nothing is said of the inode `except`.
pub open spec fn owned_except(v: Volume, except: int) -> bool {
    &&& laid_out(v)
    &&& forall|i: int| is_ino(v, i) ==> (#[trigger] node(v, i)).size <= 3072
    &&& forall|i: int, k: int|
        i != except && holds(v, i, k) ==> in_data(v.sb, #[trigger] held(v, i, k)) && taken(
            v,
            held(v, i, k) - v.sb.data_start,
        )
    &&& forall|i: int, k: int, j: int, l: int|
        i != except && j != except && holds(v, i, k) && holds(v, j, l) && (i != j || k != l)
            ==> #[trigger] held(v, i, k) != #[trigger] held(v, j, l)
}

/// Every data block that an inode holds is marked as taken and is held once, by
/// one inode.
pub open spec fn owned(v: Volume) -> bool {
    owned_except(v, -1)
}

/// The first `m` pointers of `n` are distinct taken data blocks that no inode but
/// `ino` holds.
pub open spec fn loose(v: Volume, ino: int, n: Node, m: int) -> bool {
    &&& n.direct.len() == 6
    &&& 0 <= m <= 6
    &&& forall|k: int|
        0 <= k < m ==> in_data(v.sb, #[trigger] n.direct[k] as int) && taken(
            v,
            n.direct[k] - v.sb.data_start,
        )
    &&& forall|k: int, l: int|
        0 <= k < m && 0 <= l < m && k != l ==> #[trigger] n.direct[k] != #[trigger] n.direct[l]
    &&& forall|k: int, j: int, l: int|
        0 <= k < m && j != ino && holds(v, j, l) ==> #[trigger] n.direct[k] != #[trigger] held(
            v,
            j,
            l,
        )
}

/// The two volumes have one shape.
pub open spec fn same_shape(a: Volume, b: Volume) -> bool {
    &&& a.sb == b.sb
    &&& a.blocks.len() == b.blocks.len()
}

/// Taken bits stay taken.
pub open spec fn bits_kept(a: Volume, b: Volume) -> bool {
    forall|j: int| 0 <= j < a.sb.data_blocks && taken(a, j) ==> #[trigger] taken(b, j)
}

/// No data block was taken on the way from `a` to `b`.
pub open spec fn none_taken_since(a: Volume, b: Volume) -> bool {
    forall|j: int| 0 <= j < a.sb.data_blocks && #[trigger] taken(b, j) ==> taken(a, j)
}

/// No data block is left.
pub open spec fn all_taken(v: Volume) -> bool {
    forall|j: int| 0 <= j < v.sb.data_blocks ==> #[trigger] taken(v, j)
}

/// Data block `j` is one of those that the pointers `from..to` of `n` name.
pub open spec fn among(v: Volume, n: Node, from: int, to: int, j: int) -> bool {
    exists|k: int| from <= k < to && #[trigger] n.direct[k] == v.sb.data_start + j
}

/// Ownership of all blocks splits into that of one inode and that of the others.
pub proof fn lemma_owned_split(v: Volume, ino: int)
    requires
        is_ino(v, ino),
        laid_out(v),
    ensures
        owned(v) ==> owned_except(v, ino) && loose(
            v,
            ino,
            node(v, ino),
            blocks_for(node(v, ino).size as int),
        ),
        owned_except(v, ino) && loose(
            v,
            ino,
            node(v, ino),
            blocks_for(node(v, ino).size as int),
        ) ==> owned(v),
{
    let n = node(v, ino);
    let m = blocks_for(n.size as int);
    if owned(v) {
        assert forall|k: int| 0 <= k < m implies in_data(v.sb, #[trigger] n.direct[k] as int)
            && taken(v, n.direct[k] - v.sb.data_start) by {
            assert(holds(v, ino, k));
            assert(held(v, ino, k) == n.direct[k]);
        }
        assert forall|k: int, l: int| 0 <= k < m && 0 <= l < m && k != l implies
            #[trigger] n.direct[k] != #[trigger] n.direct[l] by {
            assert(held(v, ino, k) != held(v, ino, l));
        }
        assert forall|k: int, j: int, l: int| 0 <= k < m && j != ino && holds(v, j, l) implies
            #[trigger] n.direct[k] != #[trigger] held(v, j, l) by {
            assert(held(v, ino, k) != held(v, j, l));
        }
    }
    if owned_except(v, ino) && loose(v, ino, n, m) {
        assert forall|i: int, k: int| i != -1 && holds(v, i, k) implies in_data(
            v.sb,
            #[trigger] held(v, i, k),
        ) && taken(v, held(v, i, k) - v.sb.data_start) by {
            if i == ino {
                assert(held(v, i, k) == n.direct[k]);
            }
        }
        assert forall|i: int, k: int, j: int, l: int|
            i != -1 && j != -1 && holds(v, i, k) && holds(v, j, l) && (i != j || k != l) implies
            #[trigger] held(v, i, k) != #[trigger] held(v, j, l) by {
            if i == ino {
                assert(held(v, i, k) == n.direct[k]);
            }
            if j == ino {
                assert(held(v, j, l) == n.direct[l]);
            }
        }
    }
}

/// Ownership survives what keeps the inodes and the taken bits.
proof fn lemma_owned_frame(v: Volume, w: Volume, ino: int, n: Node, m: int)
    requires
        owned_except(v, ino),
        loose(v, ino, n, m),
        laid_out(w),
        same_shape(v, w),
        same_nodes(v, w, -1),
        bits_kept(v, w),
    ensures
        owned_except(w, ino),
        loose(w, ino, n, m),
{
    assert forall|i: int, k: int| #[trigger] held(w, i, k) == held(v, i, k) || !is_ino(v, i) by {
        if is_ino(v, i) {
            assert(node(w, i) == node(v, i));
        }
    }
    assert forall|i: int, k: int| i != ino && holds(w, i, k) implies in_data(
        w.sb,
        #[trigger] held(w, i, k),
    ) && taken(w, held(w, i, k) - w.sb.data_start) by {
        assert(holds(v, i, k));
        assert(held(v, i, k) == held(w, i, k));
        assert(taken(v, held(v, i, k) - v.sb.data_start));
    }
    assert forall|i: int, k: int, j: int, l: int|
        i != ino && j != ino && holds(w, i, k) && holds(w, j, l) && (i != j || k != l) implies
        #[trigger] held(w, i, k) != #[trigger] held(w, j, l) by {
        assert(holds(v, i, k) && holds(v, j, l));
        assert(held(v, i, k) != held(v, j, l));
    }
    assert forall|k: int, j: int, l: int| 0 <= k < m && j != ino && holds(w, j, l) implies
        #[trigger] n.direct[k] != #[trigger] held(w, j, l) by {
        assert(holds(v, j, l));
        assert(n.direct[k] != held(v, j, l));
    }
}

/// What taking a block does.
pub proof fn lemma_alloc(v: Volume, from: int)
    requires
        laid_out(v),
        0 <= from,
    ensures
        ({
            let (w, r) = v.alloc_block_from(from);
            match r {
                Ok(lba) => {
                    &&& laid_out(w)
                    &&& same_shape(v, w)
                    &&& in_data(v.sb, lba as int)
                    &&& !taken(v, lba - v.sb.data_start)
                    &&& taken(w, lba - v.sb.data_start)
                    &&& same_nodes(v, w, -1)
                    &&& same_bits(v, w, lba - v.sb.data_start)
                    &&& same_data(v, w, -1)
                },
                Err(e) => {
                    &&& e is NoSpace
                    &&& w == v
                    &&& forall|j: int| from <= j < v.sb.data_blocks ==> #[trigger] taken(v, j)
                },
            }
        }),
    decreases v.sb.data_blocks - from,
{
    if from < v.sb.data_blocks {
        lemma_bit_ok(v, from);
        if taken(v, from) {
            lemma_alloc(v, from + 1);
        } else {
            lemma_with_bit(v, from, true);
        }
    }
}

/// What taking several blocks for an inode does.
#[verifier::rlimit(60)]
pub proof fn lemma_grow(v: Volume, ino: int, n: Node, from: int, to: int)
    requires
        owned_except(v, ino),
        0 <= from,
        to <= 6,
        loose(v, ino, n, from),
    ensures
        ({
            let (w, n2, r) = v.grow(n, from, to);
            &&& owned_except(w, ino)
            &&& same_shape(v, w)
            &&& same_nodes(v, w, -1)
            &&& same_data(v, w, -1)
            &&& bits_kept(v, w)
            &&& loose(w, ino, n, from)
            &&& from >= to ==> w == v && n2 == n && r is Ok
            &&& match r {
                Ok(_) => {
                    &&& loose(
                        w,
                        ino,
                        n2,
                        if from >= to {
                            from
                        } else {
                            to
                        },
                    )
                    &&& n2.kind == n.kind
                    &&& n2.size == n.size
                    &&& forall|k: int| 0 <= k < from ==> #[trigger] n2.direct[k] == n.direct[k]
                    &&& forall|k: int|
                        from <= k < to ==> !taken(v, #[trigger] n2.direct[k] - v.sb.data_start)
                    &&& forall|j: int|
                        0 <= j < v.sb.data_blocks ==> #[trigger] taken(w, j) == (taken(v, j)
                            || among(v, n2, from, to, j))
                },
                Err(e) => e is NoSpace && all_taken(w),
            }
        }),
    decreases to - from,
{
    if from < to {
        lemma_alloc(v, 0);
        let (v1, r1) = v.alloc_block_from(0);
        if let Ok(lba) = r1 {
            let n1 = Node { direct: n.direct.update(from, lba), ..n };
            assert(bits_kept(v, v1));
            lemma_owned_frame(v, v1, ino, n, from);
            assert forall|k: int, j: int, l: int|
                0 <= k < from + 1 && j != ino && holds(v1, j, l) implies #[trigger] n1.direct[k]
                != #[trigger] held(v1, j, l) by {
                if k == from {
                    assert(node(v1, j) == node(v, j));
                    assert(holds(v, j, l));
                    assert(taken(v, held(v, j, l) - v.sb.data_start));
                } else {
                    assert(n1.direct[k] == n.direct[k]);
                }
            }
            assert forall|k: int, l: int|
                0 <= k < from + 1 && 0 <= l < from + 1 && k != l implies #[trigger] n1.direct[k]
                != #[trigger] n1.direct[l] by {
                if k == from {
                    assert(taken(v, n.direct[l] - v.sb.data_start));
                } else if l == from {
                    assert(taken(v, n.direct[k] - v.sb.data_start));
                } else {
                    assert(n.direct[k] != n.direct[l]);
                }
            }
            assert forall|k: int| 0 <= k < from + 1 implies in_data(
                v1.sb,
                #[trigger] n1.direct[k] as int,
            ) && taken(v1, n1.direct[k] - v1.sb.data_start) by {
                if k < from {
                    assert(n1.direct[k] == n.direct[k]);
                }
            }
            lemma_grow(v1, ino, n1, from + 1, to);
            let (w, n2, r) = v1.grow(n1, from + 1, to);
            assert(bits_kept(v, w));
            assert(same_nodes(v, w, -1)) by {
                assert forall|i: int| is_ino(v, i) implies #[trigger] node(w, i) == node(v, i) by {
                    assert(node(v1, i) == node(v, i));
                }
            }
            assert forall|lba: int| in_data(v.sb, lba) implies #[trigger] w.blocks[lba]
                == v.blocks[lba] by {
                assert(v1.blocks[lba] == v.blocks[lba]);
            }
            lemma_owned_frame(v, w, ino, n, from);
            if r is Ok {
                assert forall|k: int| 0 <= k < from implies #[trigger] n2.direct[k]
                    == n.direct[k] by {
                    assert(n2.direct[k] == n1.direct[k]);
                }
                assert(n2.direct[from] == n1.direct[from]);
                assert forall|k: int| from <= k < to implies !taken(
                    v,
                    #[trigger] n2.direct[k] - v.sb.data_start,
                ) by {
                    if k > from {
                        let j = n2.direct[k] - v.sb.data_start;
                        assert(!taken(v1, j));
                        assert(in_data(w.sb, n2.direct[k] as int));
                        if taken(v, j) {
                            assert(taken(v1, j));
                        }
                    }
                }
                assert forall|j: int| 0 <= j < v.sb.data_blocks implies #[trigger] taken(w, j) == (
                taken(v, j) || among(v, n2, from, to, j)) by {
                    assert(taken(w, j) == (taken(v1, j) || among(v1, n2, from + 1, to, j)));
                    if among(v, n2, from, to, j) {
                        let k = choose|k: int|
                            from <= k < to && #[trigger] n2.direct[k] == v.sb.data_start + j;
                        if k > from {
                            assert(among(v1, n2, from + 1, to, j));
                        }
                    }
                    if among(v1, n2, from + 1, to, j) {
                        let k = choose|k: int|
                            from + 1 <= k < to && #[trigger] n2.direct[k] == v.sb.data_start + j;
                        assert(from <= k < to && n2.direct[k] == v.sb.data_start + j);
                    }
                    if j == lba - v.sb.data_start {
                        assert(n2.direct[from] == v.sb.data_start + j);
                    } else {
                        assert(taken(v1, j) == taken(v, j));
                    }
                }
            }
        }
    } else {
        assert(bits_kept(v, v));
    }
}

/// Where the same blocks are taken, the same block is taken next.
pub proof fn lemma_alloc_alike(v: Volume, x: Volume, from: int)
    requires
        laid_out(v),
        laid_out(x),
        same_shape(v, x),
        same_bits(v, x, -1),
        0 <= from,
    ensures
        x.alloc_block_from(from).1 == v.alloc_block_from(from).1,
        same_bits(v.alloc_block_from(from).0, x.alloc_block_from(from).0, -1),
    decreases v.sb.data_blocks - from,
{
    if from < v.sb.data_blocks {
        lemma_bit_ok(v, from);
        lemma_bit_ok(x, from);
        assert(taken(x, from) == taken(v, from));
        lemma_alloc(v, from);
        lemma_alloc(x, from);
        if taken(v, from) {
            lemma_alloc_alike(v, x, from + 1);
        } else {
            lemma_with_bit(v, from, true);
            lemma_with_bit(x, from, true);
            let (w, r) = v.alloc_block_from(from);
            let (y, s) = x.alloc_block_from(from);
            assert forall|j: int| 0 <= j < v.sb.data_blocks implies #[trigger] taken(y, j) == taken(
                w,
                j,
            ) by {
                if j != from {
                    assert(taken(y, j) == taken(x, j));
                    assert(taken(w, j) == taken(v, j));
                    assert(taken(x, j) == taken(v, j));
                }
            }
        }
    }
}

/// Where the same blocks are taken, an inode grows by the same blocks.
pub proof fn lemma_grow_alike(v: Volume, x: Volume, n: Node, m: Node, from: int, to: int)
    requires
        laid_out(v),
        laid_out(x),
        same_shape(v, x),
        same_bits(v, x, -1),
        0 <= from,
        to <= 6,
        n.direct.len() == 6,
        m.direct.len() == 6,
        forall|k: int| 0 <= k < from && k < 6 ==> #[trigger] m.direct[k] == n.direct[k],
    ensures
        ({
            let (w, n2, r) = v.grow(n, from, to);
            let (y, m2, s) = x.grow(m, from, to);
            &&& s == r
            &&& same_bits(w, y, -1)
            &&& forall|k: int|
                0 <= k < 6 && (k < from || k < to) && r is Ok ==> #[trigger] m2.direct[k]
                    == n2.direct[k]
        }),
    decreases to - from,
{
    if from < to {
        lemma_alloc(v, 0);
        lemma_alloc(x, 0);
        lemma_alloc_alike(v, x, 0);
        let (v1, r1) = v.alloc_block_from(0);
        let x1 = x.alloc_block_from(0).0;
        if let Ok(lba) = r1 {
            let n1 = Node { direct: n.direct.update(from, lba), ..n };
            let m1 = Node { direct: m.direct.update(from, lba), ..m };
            assert forall|k: int| 0 <= k < from + 1 && k < 6 implies #[trigger] m1.direct[k]
                == n1.direct[k] by {
                if k < from {
                    assert(m.direct[k] == n.direct[k]);
                }
            }
            lemma_grow_alike(v1, x1, n1, m1, from + 1, to);
        }
    }
}

/// `k` is below `a`, or from `b` up to `c`.
pub open spec fn in_either(k: int, a: int, b: int, c: int) -> bool {
    0 <= k < a || b <= k < c
}

/// As [`loose`], of the pointers below `a` and those from `b` up to `c`.
pub open spec fn loose_parts(v: Volume, ino: int, n: Node, a: int, b: int, c: int) -> bool {
    &&& n.direct.len() == 6
    &&& 0 <= a <= b
    &&& a <= 6
    &&& c <= 6
    &&& forall|k: int|
        in_either(k, a, b, c) ==> in_data(v.sb, #[trigger] n.direct[k] as int) && taken(
            v,
            n.direct[k] - v.sb.data_start,
        )
    &&& forall|k: int, l: int|
        in_either(k, a, b, c) && in_either(l, a, b, c) && k != l ==> #[trigger] n.direct[k]
            != #[trigger] n.direct[l]
    &&& forall|k: int, j: int, l: int|
        in_either(k, a, b, c) && j != ino && holds(v, j, l) ==> #[trigger] n.direct[k]
            != #[trigger] held(v, j, l)
}

/// What giving the blocks `from..to` of an inode back does, where it keeps the
/// first `a`.
#[verifier::rlimit(60)]
pub proof fn lemma_shrink(v: Volume, ino: int, n: Node, a: int, from: int, to: int)
    requires
        owned_except(v, ino),
        loose_parts(v, ino, n, a, from, to),
    ensures
        ({
            let (w, n2, r) = v.shrink(n, from, to);
            &&& r is Ok
            &&& owned_except(w, ino)
            &&& same_shape(v, w)
            &&& same_nodes(v, w, -1)
            &&& same_data(v, w, -1)
            &&& loose(w, ino, n2, a)
            &&& n2.kind == n.kind
            &&& n2.size == n.size
            &&& forall|k: int| 0 <= k < a ==> #[trigger] n2.direct[k] == n.direct[k]
            &&& none_taken_since(v, w)
            &&& forall|j: int|
                0 <= j < v.sb.data_blocks ==> #[trigger] taken(w, j) == (taken(v, j) && !among(
                    v,
                    n,
                    from,
                    to,
                    j,
                ))
        }),
    decreases to - from,
{
    if from < to {
        let lba = n.direct[from];
        assert(in_either(from, a, from, to));
        assert(in_data(v.sb, lba as int));
        let j = lba - v.sb.data_start;
        lemma_with_bit(v, j, false);
        let v1 = v.with_bit(j, false).0;
        let n1 = Node { direct: n.direct.update(from, 0), ..n };
        // No other inode holds the block that was given back.
        assert forall|i: int, k: int| i != ino && holds(v1, i, k) implies in_data(
            v1.sb,
            #[trigger] held(v1, i, k),
        ) && taken(v1, held(v1, i, k) - v1.sb.data_start) by {
            assert(node(v1, i) == node(v, i));
            assert(holds(v, i, k));
            assert(n.direct[from] != held(v, i, k));
        }
        assert forall|i: int, k: int, i2: int, l: int|
            i != ino && i2 != ino && holds(v1, i, k) && holds(v1, i2, l) && (i != i2 || k
                != l) implies #[trigger] held(v1, i, k) != #[trigger] held(v1, i2, l) by {
            assert(node(v1, i) == node(v, i));
            assert(node(v1, i2) == node(v, i2));
            assert(held(v, i, k) != held(v, i2, l));
        }
        assert forall|k: int| in_either(k, a, from + 1, to) implies in_data(
            v1.sb,
            #[trigger] n1.direct[k] as int,
        ) && taken(v1, n1.direct[k] - v1.sb.data_start) by {
            assert(in_either(k, a, from, to));
            assert(n1.direct[k] == n.direct[k]);
            assert(n.direct[k] != n.direct[from]);
        }
        assert forall|k: int, l: int|
            in_either(k, a, from + 1, to) && in_either(l, a, from + 1, to) && k != l implies
            #[trigger] n1.direct[k] != #[trigger] n1.direct[l] by {
            assert(in_either(k, a, from, to) && in_either(l, a, from, to));
            assert(n.direct[k] != n.direct[l]);
        }
        assert forall|k: int, i: int, l: int|
            in_either(k, a, from + 1, to) && i != ino && holds(v1, i, l) implies
            #[trigger] n1.direct[k] != #[trigger] held(v1, i, l) by {
            assert(in_either(k, a, from, to));
            assert(node(v1, i) == node(v, i));
            assert(holds(v, i, l));
            assert(n.direct[k] != held(v, i, l));
        }
        lemma_shrink(v1, ino, n1, a, from + 1, to);
        let (w, n2, r) = v1.shrink(n1, from + 1, to);
        assert forall|i: int| is_ino(v, i) implies #[trigger] node(w, i) == node(v, i) by {
            assert(node(v1, i) == node(v, i));
        }
        assert forall|x: int| in_data(v.sb, x) implies #[trigger] w.blocks[x] == v.blocks[x] by {
            assert(v1.blocks[x] == v.blocks[x]);
        }
        assert forall|k: int| 0 <= k < a implies #[trigger] n2.direct[k] == n.direct[k] by {
            assert(n2.direct[k] == n1.direct[k]);
        }
        assert forall|x: int| 0 <= x < v.sb.data_blocks && #[trigger] taken(w, x) implies taken(
            v,
            x,
        ) by {
            assert(taken(v1, x));
        }
        assert forall|x: int| 0 <= x < v.sb.data_blocks implies #[trigger] taken(w, x) == (taken(
            v,
            x,
        ) && !among(v, n, from, to, x)) by {
            assert(taken(w, x) == (taken(v1, x) && !among(v1, n1, from + 1, to, x)));
            if among(v, n, from, to, x) {
                let k = choose|k: int|
                    from <= k < to && #[trigger] n.direct[k] == v.sb.data_start + x;
                if k > from {
                    assert(n1.direct[k] == v.sb.data_start + x);
                }
            }
            if among(v1, n1, from + 1, to, x) {
                let k = choose|k: int|
                    from + 1 <= k < to && #[trigger] n1.direct[k] == v.sb.data_start + x;
                assert(n.direct[k] == v.sb.data_start + x);
            }
            if x == j {
                assert(n.direct[from] == v.sb.data_start + x);
            } else {
                assert(taken(v1, x) == taken(v, x));
            }
        }
    } else {
        assert forall|k: int| 0 <= k < a implies in_data(v.sb, #[trigger] n.direct[k] as int)
            && taken(v, n.direct[k] - v.sb.data_start) by {
            assert(in_either(k, a, from, to));
        }
        assert forall|k: int, l: int| 0 <= k < a && 0 <= l < a && k != l implies
            #[trigger] n.direct[k] != #[trigger] n.direct[l] by {
            assert(in_either(k, a, from, to) && in_either(l, a, from, to));
        }
        assert forall|k: int, j: int, l: int| 0 <= k < a && j != ino && holds(v, j, l) implies
            #[trigger] n.direct[k] != #[trigger] held(v, j, l) by {
            assert(in_either(k, a, from, to));
        }
    }
}

/// What writing `data` to the blocks of an inode does.
pub proof fn lemma_put_data(v: Volume, ino: int, n: Node, data: Seq<u8>, i: int)
    requires
        laid_out(v),
        data.len() <= 3072,
        0 <= i,
        loose(v, ino, n, blocks_for(data.len() as int)),
    ensures
        ({
            let (w, r) = v.put_data(n, data, i);
            &&& r is Ok
            &&& laid_out(w)
            &&& same_shape(v, w)
            &&& same_nodes(v, w, -1)
            &&& same_bits(v, w, -1)
            &&& forall|k: int|
                i <= k < blocks_for(data.len() as int) ==> w.blocks[#[trigger] n.direct[k] as int]
                    == padded_block(data, k)
            &&& forall|x: int|
                in_data(v.sb, x) && (forall|k: int|
                    i <= k < blocks_for(data.len() as int) ==> #[trigger] n.direct[k] != x)
                    ==> #[trigger] w.blocks[x] == v.blocks[x]
        }),
    decreases blocks_for(data.len() as int) - i,
{
    let m = blocks_for(data.len() as int);
    if i < m {
        lemma_store_data(v, n.direct[i] as int, padded_block(data, i));
        let v1 = v.store(n.direct[i] as int, padded_block(data, i)).0;
        assert forall|k: int, j: int, l: int| 0 <= k < m && j != ino && holds(v1, j, l) implies
            #[trigger] n.direct[k] != #[trigger] held(v1, j, l) by {
            assert(node(v1, j) == node(v, j));
            assert(holds(v, j, l));
            assert(n.direct[k] != held(v, j, l));
        }
        lemma_put_data(v1, ino, n, data, i + 1);
        let w = v1.put_data(n, data, i + 1).0;
        assert forall|j: int| is_ino(v, j) implies #[trigger] node(w, j) == node(v, j) by {
            assert(node(v1, j) == node(v, j));
        }
        assert forall|j: int| 0 <= j < v.sb.data_blocks implies #[trigger] taken(w, j) == taken(
            v,
            j,
        ) by {
            assert(taken(v1, j) == taken(v, j));
        }
        assert(w.blocks[n.direct[i] as int] == v1.blocks[n.direct[i] as int]);
        assert forall|x: int|
            in_data(v.sb, x) && (forall|k: int|
                i <= k < m ==> #[trigger] n.direct[k] != x) implies #[trigger] w.blocks[x]
            == v.blocks[x] by {
            assert(n.direct[i] != x);
            assert(v1.blocks[x] == v.blocks[x]);
        }
    }
}

/// Contents whose blocks hold `data` read as `data`.
pub proof fn lemma_data_read(v: Volume, n: Node, data: Seq<u8>, k: int)
    requires
        laid_out(v),
        n.direct.len() == 6,
        n.size == data.len(),
        data.len() <= 3072,
        0 <= k <= blocks_for(data.len() as int),
        forall|l: int|
            0 <= l < blocks_for(data.len() as int) ==> in_data(
                v.sb,
                #[trigger] n.direct[l] as int,
            ) && v.blocks[n.direct[l] as int] == padded_block(data, l),
    ensures
        v.data_from(n, k) == Ok::<Seq<u8>, FsError>(
            data.subrange(
                if 512 * k < data.len() {
                    512 * k
                } else {
                    data.len() as int
                },
                data.len() as int,
            ),
        ),
    decreases 6 - k,
{
    let m = blocks_for(data.len() as int);
    if k < m {
        lemma_data_read(v, n, data, k + 1);
        let take = if n.size - 512 * k < 512 {
            n.size - 512 * k
        } else {
            512
        };
        let b = padded_block(data, k);
        let next = if 512 * (k + 1) < data.len() {
            512 * (k + 1)
        } else {
            data.len() as int
        };
        assert(v.blocks[n.direct[k] as int] == b);
        assert(b.subrange(0, take) + data.subrange(next, data.len() as int) =~= data.subrange(
            512 * k,
            data.len() as int,
        ));
    } else {
        assert(data.subrange(data.len() as int, data.len() as int) =~= Seq::<u8>::empty());
    }
}

/// Contents depend on the blocks that hold them alone.
pub proof fn lemma_data_frame(v: Volume, w: Volume, n: Node, k: int)
    requires
        laid_out(v),
        laid_out(w),
        same_shape(v, w),
        n.direct.len() == 6,
        n.size <= 3072,
        0 <= k,
        forall|l: int|
            0 <= l < blocks_for(n.size as int) ==> in_data(v.sb, #[trigger] n.direct[l] as int)
                && v.blocks[n.direct[l] as int] == w.blocks[n.direct[l] as int],
    ensures
        v.data_from(n, k) == w.data_from(n, k),
        v.data_from(n, k) is Ok,
        v.data_from(n, k)->Ok_0.len() == if 512 * k < n.size {
            n.size - 512 * k
        } else {
            0
        },
    decreases 6 - k,
{
    if k < blocks_for(n.size as int) {
        lemma_data_frame(v, w, n, k + 1);
        assert(v.blocks[n.direct[k] as int].len() == 512);
    }
}

/// The contents of inode `i`.
pub open spec fn contents(v: Volume, i: int) -> Seq<u8> {
    v.data_from(node(v, i), 0)->Ok_0
}

/// Reading the contents of an inode succeeds, and depends on its blocks alone.
pub proof fn lemma_contents(v: Volume, w: Volume, i: int)
    requires
        owned(v),
        laid_out(w),
        same_shape(v, w),
        is_ino(v, i),
        node(w, i) == node(v, i),
        forall|k: int|
            holds(v, i, k) ==> w.blocks[#[trigger] held(v, i, k)] == v.blocks[held(v, i, k)],
    ensures
        v.data_from(node(v, i), 0) == Ok::<Seq<u8>, FsError>(contents(v, i)),
        w.data_from(node(w, i), 0) == Ok::<Seq<u8>, FsError>(contents(w, i)),
        contents(w, i) == contents(v, i),
        contents(v, i).len() == node(v, i).size,
{
    let n = node(v, i);
    assert forall|l: int| 0 <= l < blocks_for(n.size as int) implies in_data(
        v.sb,
        #[trigger] n.direct[l] as int,
    ) && v.blocks[n.direct[l] as int] == w.blocks[n.direct[l] as int] by {
        assert(holds(v, i, l));
        assert(held(v, i, l) == n.direct[l]);
    }
    lemma_data_frame(v, w, n, 0);
}

/// The inodes and their contents are the same on both volumes, but for `except`.
pub open spec fn same_files(a: Volume, b: Volume, except: int) -> bool {
    forall|i: int|
        #![trigger node(b, i)]
        #![trigger contents(b, i)]
        is_ino(a, i) && i != except ==> node(b, i) == node(a, i) && contents(b, i) == contents(a, i)
}

/// From `v` to `w` the contents of inode `ino` took the blocks they need more, all
/// of them free before and the first that were, gave back those they need no more,
/// and kept the others.
pub open spec fn rebooked(v: Volume, w: Volume, ino: int) -> bool {
    let n = node(v, ino);
    let m = node(w, ino);
    let old_blocks = blocks_for(n.size as int);
    let new_blocks = blocks_for(m.size as int);
    &&& v.grow(n, old_blocks, new_blocks).2 is Ok
    &&& forall|k: int|
        0 <= k < old_blocks && k < new_blocks ==> #[trigger] m.direct[k] == n.direct[k]
    &&& forall|k: int|
        0 <= k < new_blocks ==> #[trigger] m.direct[k] == v.grow(
            n,
            old_blocks,
            new_blocks,
        ).1.direct[k]
    &&& forall|k: int|
        old_blocks <= k < new_blocks ==> !taken(v, #[trigger] m.direct[k] - v.sb.data_start)
    &&& forall|j: int|
        0 <= j < v.sb.data_blocks ==> #[trigger] taken(w, j) == ((taken(v, j) && !among(
            v,
            n,
            new_blocks,
            old_blocks,
            j,
        )) || among(v, m, old_blocks, new_blocks, j))
}

proof fn lemma_rebooked(
    v: Volume,
    v1: Volume,
    v2: Volume,
    w: Volume,
    ino: int,
    n1: Node,
    n2: Node,
)
    requires
        ({
            let n = node(v, ino);
            let m = node(w, ino);
            let from = blocks_for(n.size as int);
            let to = blocks_for(m.size as int);
            &&& same_shape(v, v1)
            &&& same_shape(v, v2)
            &&& same_shape(v, w)
            &&& m.direct == n2.direct
            &&& n1 == v.grow(n, from, to).1
            &&& v.grow(n, from, to).2 is Ok
            &&& from >= to ==> v1 == v && n1 == n
            &&& from < to ==> {
                &&& n2 == n1
                &&& forall|k: int|
                    from <= k < to ==> !taken(v, #[trigger] n1.direct[k] - v.sb.data_start)
                &&& forall|j: int|
                    0 <= j < v.sb.data_blocks ==> #[trigger] taken(v1, j) == (taken(v, j) || among(
                        v,
                        n1,
                        from,
                        to,
                        j,
                    ))
            }
            &&& forall|k: int| 0 <= k < from ==> #[trigger] n1.direct[k] == n.direct[k]
            &&& forall|k: int| 0 <= k < to ==> #[trigger] n2.direct[k] == n1.direct[k]
            &&& forall|j: int|
                0 <= j < v.sb.data_blocks ==> #[trigger] taken(v2, j) == (taken(v1, j) && !among(
                    v1,
                    n1,
                    to,
                    from,
                    j,
                ))
            &&& forall|j: int|
                0 <= j < v.sb.data_blocks ==> #[trigger] taken(w, j) == taken(v2, j)
        }),
    ensures
        rebooked(v, w, ino),
{
    let n = node(v, ino);
    let m = node(w, ino);
    let from = blocks_for(n.size as int);
    let to = blocks_for(m.size as int);
    assert forall|j: int| 0 <= j < v.sb.data_blocks implies #[trigger] taken(w, j) == ((taken(v, j)
        && !among(v, n, to, from, j)) || among(v, m, from, to, j)) by {
        assert(taken(w, j) == taken(v2, j));
        assert(taken(v2, j) == (taken(v1, j) && !among(v1, n1, to, from, j)));
        assert(among(v1, n1, to, from, j) == among(v, n1, to, from, j));
        if from < to {
            assert(taken(v1, j) == (taken(v, j) || among(v, n1, from, to, j)));
            assert(among(v, m, from, to, j) == among(v, n1, from, to, j));
            assert(!among(v, n, to, from, j));
        } else {
            assert(!among(v, m, from, to, j));
        }
    }
    assert forall|k: int| 0 <= k < from && k < to implies #[trigger] m.direct[k] == n.direct[k] by {
        assert(n2.direct[k] == n1.direct[k]);
        assert(n1.direct[k] == n.direct[k]);
    }
}

/// Pointers that agree name the same blocks.
pub proof fn lemma_among_alike(v: Volume, x: Volume, n: Node, m: Node, from: int, to: int, j: int)
    requires
        same_shape(v, x),
        forall|k: int| from <= k < to ==> #[trigger] m.direct[k] == n.direct[k],
    ensures
        among(x, m, from, to, j) == among(v, n, from, to, j),
{
    if among(v, n, from, to, j) {
        let k = choose|k: int| from <= k < to && #[trigger] n.direct[k] == v.sb.data_start + j;
        assert(m.direct[k] == x.sb.data_start + j);
    }
    if among(x, m, from, to, j) {
        let k = choose|k: int| from <= k < to && #[trigger] m.direct[k] == x.sb.data_start + j;
        assert(n.direct[k] == v.sb.data_start + j);
    }
}

/// The two records say the same of what the inode holds.
pub open spec fn same_record(n: Node, m: Node) -> bool {
    &&& m.kind == n.kind
    &&& m.size == n.size
    &&& forall|k: int| 0 <= k < blocks_for(n.size as int) ==> #[trigger] m.direct[k] == n.direct[k]
}

/// Where the same blocks are taken and an inode holds the same ones, it holds the
/// same ones after its contents were replaced by as many bytes.
pub proof fn lemma_rebooked_alike(v: Volume, x: Volume, w: Volume, y: Volume, i: int)
    requires
        owned(v),
        owned(x),
        owned(w),
        owned(y),
        same_shape(v, x),
        same_shape(v, w),
        same_shape(v, y),
        is_ino(v, i),
        same_bits(v, x, -1),
        same_record(node(v, i), node(x, i)),
        rebooked(v, w, i),
        rebooked(x, y, i),
        node(w, i).kind == node(v, i).kind,
        node(y, i).kind == node(x, i).kind,
        node(w, i).size == node(y, i).size,
    ensures
        same_record(node(w, i), node(y, i)),
        same_bits(w, y, -1),
{
    let n = node(v, i);
    let m = node(x, i);
    let from = blocks_for(n.size as int);
    let to = blocks_for(node(w, i).size as int);
    lemma_inode_ok(v, i);
    lemma_inode_ok(x, i);
    assert(node(w, i).size <= 3072);
    assert(n.size <= 3072);
    lemma_grow_alike(v, x, n, m, from, to);
    assert forall|k: int| 0 <= k < to implies #[trigger] node(y, i).direct[k] == node(
        w,
        i,
    ).direct[k] by {
        assert(x.grow(m, from, to).1.direct[k] == v.grow(n, from, to).1.direct[k]);
    }
    assert forall|j: int| 0 <= j < v.sb.data_blocks implies #[trigger] taken(y, j) == taken(
        w,
        j,
    ) by {
        assert(taken(x, j) == taken(v, j));
        assert(taken(w, j) == ((taken(v, j) && !among(v, n, to, from, j)) || among(
            v,
            node(w, i),
            from,
            to,
            j,
        )));
        lemma_among_alike(v, x, n, m, to, from, j);
        lemma_among_alike(v, x, node(w, i), node(y, i), from, to, j);
    }
}

/// Replacing the contents of an inode leaves the others alone, gives back what
/// was written, and fails only for want of space or if the data is too large.
#[verifier::rlimit(60)]
pub proof fn lemma_write_data(v: Volume, ino: int, data: Seq<u8>)
    requires
        owned(v),
        is_ino(v, ino),
    ensures
        ({
            let (w, r) = v.write_data(ino as u32, node(v, ino), data);
            &&& owned(w)
            &&& same_shape(v, w)
            &&& match r {
                Ok(_) => {
                    &&& data.len() <= 3072
                    &&& same_files(v, w, ino)
                    &&& node(w, ino).kind == node(v, ino).kind
                    &&& node(w, ino).size == data.len()
                    &&& contents(w, ino) == data
                    &&& data.len() <= node(v, ino).size ==> none_taken_since(v, w)
                    &&& rebooked(v, w, ino)
                },
                Err(e) => {
                    &&& data.len() > 3072 <==> e is TooLarge
                    &&& data.len() <= 3072 ==> e is NoSpace && all_taken(w) && data.len() > node(
                        v,
                        ino,
                    ).size && v.grow(
                        node(v, ino),
                        blocks_for(node(v, ino).size as int),
                        blocks_for(data.len() as int),
                    ).2 is Err
                    &&& same_files(v, w, -1)
                },
            }
        }),
{
    let n = node(v, ino);
    let old_blocks = blocks_for(n.size as int);
    let new_blocks = blocks_for(data.len() as int);
    lemma_inode_ok(v, ino);
    lemma_owned_split(v, ino);
    if data.len() <= 3072 {
        lemma_grow(v, ino, n, old_blocks, new_blocks);
        let (v1, n1, r1) = v.grow(n, old_blocks, new_blocks);
        if r1 is Err {
            lemma_owned_split(v1, ino);
            assert forall|i: int| is_ino(v, i) implies node(v1, i) == node(v, i) && contents(v1, i)
                == contents(v, i) by {
                lemma_contents(v, v1, i);
            }
        } else {
            let a = if new_blocks < old_blocks {
                new_blocks
            } else {
                if old_blocks >= new_blocks {
                    old_blocks
                } else {
                    new_blocks
                }
            };
            assert(a == new_blocks);
            assert(loose_parts(v1, ino, n1, new_blocks, new_blocks, old_blocks));
            lemma_shrink(v1, ino, n1, new_blocks, new_blocks, old_blocks);
            let (v2, n2, r2) = v1.shrink(n1, new_blocks, old_blocks);
            lemma_put_data(v2, ino, n2, data, 0);
            let (v3, r3) = v2.put_data(n2, data, 0);
            let n3 = Node { size: data.len() as u64, ..n2 };
            lemma_with_inode(v3, ino, n3);
            let w = v3.with_inode(ino as u32, n3).0;
            assert forall|i: int| is_ino(v, i) && i != ino implies #[trigger] node(w, i) == node(
                v,
                i,
            ) by {
                assert(node(v1, i) == node(v, i));
                assert(node(v2, i) == node(v1, i));
                assert(node(v3, i) == node(v2, i));
            }
            // Ownership on the new volume.
            assert forall|j: int| 0 <= j < v.sb.data_blocks implies #[trigger] taken(w, j)
                == taken(v2, j) by {
                assert(taken(v3, j) == taken(v2, j));
            }
            assert(owned_except(w, ino)) by {
                assert forall|i: int| is_ino(w, i) implies (#[trigger] node(w, i)).size <= 3072 by {
                    if i != ino {
                        assert(node(v, i).size <= 3072);
                    }
                }
                assert forall|i: int, k: int| i != ino && holds(w, i, k) implies in_data(
                    w.sb,
                    #[trigger] held(w, i, k),
                ) && taken(w, held(w, i, k) - w.sb.data_start) by {
                    assert(node(v2, i) == node(w, i)) by {
                        assert(node(v3, i) == node(v2, i));
                    }
                    assert(holds(v2, i, k));
                    assert(held(v2, i, k) == held(w, i, k));
                    assert(taken(w, held(w, i, k) - w.sb.data_start) == taken(
                        v2,
                        held(w, i, k) - w.sb.data_start,
                    ));
                }
                assert forall|i: int, k: int, j: int, l: int|
                    i != ino && j != ino && holds(w, i, k) && holds(w, j, l) && (i != j || k
                        != l) implies #[trigger] held(w, i, k) != #[trigger] held(w, j, l) by {
                    assert(node(v, i) == node(w, i));
                    assert(node(v, j) == node(w, j));
                    assert(held(v, i, k) != held(v, j, l));
                }
            }
            assert(loose(w, ino, n3, new_blocks)) by {
                assert forall|k: int| 0 <= k < new_blocks implies in_data(
                    w.sb,
                    #[trigger] n3.direct[k] as int,
                ) && taken(w, n3.direct[k] - w.sb.data_start) by {
                    assert(n3.direct[k] == n2.direct[k]);
                    assert(taken(w, n2.direct[k] - w.sb.data_start) == taken(
                        v2,
                        n2.direct[k] - w.sb.data_start,
                    ));
                }
                assert forall|k: int, j: int, l: int|
                    0 <= k < new_blocks && j != ino && holds(w, j, l) implies
                    #[trigger] n3.direct[k] != #[trigger] held(w, j, l) by {
                    assert(node(v2, j) == node(w, j)) by {
                        assert(node(v3, j) == node(v2, j));
                    }
                    assert(holds(v2, j, l));
                    assert(n2.direct[k] != held(v2, j, l));
                }
            }
            lemma_owned_split(w, ino);
            lemma_rebooked(v, v1, v2, w, ino, n1, n2);
            // What was written reads back.
            assert forall|l: int| 0 <= l < new_blocks implies in_data(
                w.sb,
                #[trigger] n3.direct[l] as int,
            ) && w.blocks[n3.direct[l] as int] == padded_block(data, l) by {
                assert(n3.direct[l] == n2.direct[l]);
                assert(in_data(v3.sb, n2.direct[l] as int));
                assert(w.blocks[n3.direct[l] as int] == v3.blocks[n3.direct[l] as int]);
            }
            lemma_data_read(w, n3, data, 0);
            assert(data.subrange(0, data.len() as int) =~= data);
            // The other files' blocks are untouched.
            assert forall|i: int| is_ino(v, i) && i != ino implies node(w, i) == node(v, i)
                && contents(w, i) == contents(v, i) by {
                assert forall|k: int| holds(v, i, k) implies w.blocks[#[trigger] held(v, i, k)]
                    == v.blocks[held(v, i, k)] by {
                    let x = held(v, i, k);
                    assert(node(v2, i) == node(v, i)) by {
                        assert(node(v1, i) == node(v, i));
                    }
                    assert(holds(v2, i, k));
                    assert(held(v2, i, k) == x);
                    assert forall|l: int| 0 <= l < new_blocks implies #[trigger] n2.direct[l]
                        != x by {
                        assert(n2.direct[l] != held(v2, i, k));
                    }
                    assert(in_data(v.sb, x));
                    assert(v1.blocks[x] == v.blocks[x]);
                    assert(v2.blocks[x] == v1.blocks[x]);
                    assert(v3.blocks[x] == v2.blocks[x]);
                    assert(w.blocks[x] == v3.blocks[x]);
                }
                lemma_contents(v, w, i);
            }
        }
    }
}

} // verus!
