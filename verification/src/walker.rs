use vstd::prelude::*;

use crate::bytes::{be_val, read_u16_be, read_u32_be};
use crate::error::ScanError;
use crate::pages::{page_base_spec, page_header_offset_spec};

verus! {

// A table B-tree is walked with an explicit work list instead of native
// recursion, and every page number seen is recorded, so that a malicious
// file whose child pointers form a cycle is rejected instead of looping.
// A page number that repeats, or is zero, or whose header lies outside the
// buffer, is a format error: no partial result survives.
//
// Page header layout: byte 0 is the page type (0x0d leaf, 0x05 interior),
// bytes 3..5 the cell count.  On an interior page bytes 8..12 hold the
// right-most child pointer and the cell pointer array starts at byte 12;
// on a leaf page the cell pointer array starts at byte 8.

/// How many entries of `s` are still false.
pub open spec fn count_false(s: Seq<bool>) -> nat
    decreases s.len(),
{
    if s.len() == 0 {
        0
    } else {
        count_false(s.drop_last()) + (if s.last() {
            0nat
        } else {
            1nat
        })
    }
}

proof fn lemma_count_false_update(s: Seq<bool>, i: int)
    requires
        0 <= i < s.len(),
        !s[i],
    ensures
        count_false(s.update(i, true)) + 1 == count_false(s),
    decreases s.len(),
{
    let s2 = s.update(i, true);
    if i == s.len() - 1 {
        assert(s2.drop_last() =~= s.drop_last());
    } else {
        assert(s2.drop_last() =~= s.drop_last().update(i, true));
        lemma_count_false_update(s.drop_last(), i);
    }
}

/// One false entry per possible page number: nothing visited yet.
pub open spec fn unvisited() -> Seq<bool> {
    Seq::new(0x100000000nat, |i: int| false)
}

/// The child page numbers in cells `i` up to `n` of the interior page whose
/// base is `p_base` and whose header starts at `h`: each cell pointer is a
/// 16-bit offset from the page base, and the cell body opens with the
/// four-byte child page number.  `None` is a read past the buffer.
pub open spec fn interior_children(data: Seq<u8>, p_base: int, h: int, i: int, n: int) -> Option<
    Seq<u32>,
>
    decreases n - i,
{
    if i >= n {
        Some(Seq::empty())
    } else if h + 12 + 2 * i + 2 > data.len() {
        None
    } else {
        let ptr = be_val(data, h + 12 + 2 * i, 2);
        if p_base + ptr + 4 > data.len() {
            None
        } else {
            let c = be_val(data, p_base + ptr, 4);
            match interior_children(data, p_base, h, i + 1, n) {
                None => None,
                Some(rest) => Some(seq![c as u32] + rest),
            }
        }
    }
}

/// The leaf pages found by the work-list walk: pop a page, reject a page
/// number that is zero or already visited or whose header is out of bounds,
/// record a leaf, and queue an interior page's cell children and its
/// right-most child (the children before the right-most, so that they come
/// off the stack in cell order).  Pages of unknown type are skipped.
pub open spec fn walk_leaves(
    data: Seq<u8>,
    page_size: u32,
    stack: Seq<u32>,
    visited: Seq<bool>,
) -> Option<Seq<u32>>
    decreases count_false(visited), stack.len(),
    via walk_leaves_decreases
{
    if stack.len() == 0 {
        Some(Seq::empty())
    } else {
        let p = stack.last();
        let rest = stack.drop_last();
        if p == 0 {
            None
        } else if p as int >= visited.len() {
            None
        } else if visited[p as int] {
            None
        } else {
            let visited2 = visited.update(p as int, true);
            let h = page_header_offset_spec(p, page_size);
            if h + 5 > data.len() {
                None
            } else {
                let ptype = data[h];
                let n = be_val(data, h + 3, 2);
                if ptype == 0x0d {
                    match walk_leaves(data, page_size, rest, visited2) {
                        None => None,
                        Some(ls) => Some(seq![p] + ls),
                    }
                } else if ptype == 0x05 {
                    if h + 12 > data.len() {
                        None
                    } else {
                        let right = be_val(data, h + 8, 4);
                        match interior_children(data, page_base_spec(p, page_size), h, 0, n) {
                            None => None,
                            Some(kids) => walk_leaves(
                                data,
                                page_size,
                                rest + seq![right as u32] + kids.reverse(),
                                visited2,
                            ),
                        }
                    }
                } else {
                    walk_leaves(data, page_size, rest, visited2)
                }
            }
        }
    }
}

#[via_fn]
proof fn walk_leaves_decreases(data: Seq<u8>, page_size: u32, stack: Seq<u32>, visited: Seq<bool>) {
    if stack.len() > 0 {
        let p = stack.last();
        if p != 0 && (p as int) < visited.len() && !visited[p as int] {
            lemma_count_false_update(visited, p as int);
        }
    }
}

/// The leaf pages of the B-tree rooted at `root`, in depth-first order,
/// or `None` when the walk runs out of bounds or meets a repeated page.
pub open spec fn collect_spec(data: Seq<u8>, page_size: u32, root: u32) -> Option<Seq<u32>> {
    walk_leaves(data, page_size, seq![root], unvisited())
}

/// The right-most child is walked along with the cell children: one step of
/// the walk on an interior page queues every cell child and the right-most
/// pointer, the right-most deepest in the stack, and marks the page visited.
pub proof fn lemma_interior_step_queues_rightmost(
    data: Seq<u8>,
    page_size: u32,
    stack: Seq<u32>,
    visited: Seq<bool>,
)
    requires
        stack.len() > 0,
        ({
            let p = stack.last();
            &&& p != 0
            &&& 0 <= p < visited.len()
            &&& !visited[p as int]
            &&& page_header_offset_spec(p, page_size) + 12 <= data.len()
            &&& data[page_header_offset_spec(p, page_size)] == 0x05
        }),
    ensures
        ({
            let p = stack.last();
            let h = page_header_offset_spec(p, page_size);
            let right = be_val(data, h + 8, 4) as u32;
            let n = be_val(data, h + 3, 2);
            match interior_children(data, page_base_spec(p, page_size), h, 0, n) {
                None => walk_leaves(data, page_size, stack, visited) is None,
                Some(kids) => walk_leaves(data, page_size, stack, visited) == walk_leaves(
                    data,
                    page_size,
                    stack.drop_last() + seq![right] + kids.reverse(),
                    visited.update(stack.last() as int, true),
                ),
            }
        }),
{
    let p = stack.last();
    lemma_count_false_update(visited, p as int);
}

/// Walk the table B-tree rooted at `page_num`, appending the page number of
/// every leaf found, in depth-first order, to `leaves`.  A cyclic, shared
/// or out-of-bounds page reference is a `FormatError`, and `leaves` is then
/// left as it was.
pub fn collect_leaf_pages(data: &[u8], page_size: u32, page_num: u32, leaves: &mut Vec<u32>) -> (r:
    Result<(), ScanError>)
    ensures
        match r {
            Ok(()) => {
                &&& collect_spec(data@, page_size, page_num) is Some
                &&& final(leaves)@ == old(leaves)@ + collect_spec(
                    data@,
                    page_size,
                    page_num,
                ).unwrap()
            },
            Err(e) => {
                &&& e == ScanError::FormatError
                &&& collect_spec(data@, page_size, page_num) is None
                &&& final(leaves)@ == old(leaves)@
            },
        },
{
    let data_len = data.len();
    let mut stack: Vec<u32> = Vec::new();
    stack.push(page_num);
    let mut seen: Vec<u32> = Vec::new();
    let ghost mut visited: Seq<bool> = unvisited();
    let mut out: Vec<u32> = Vec::new();
    proof {
        assert(stack@ =~= seq![page_num]);
    }
    while stack.len() > 0
        invariant
            data_len == data@.len(),
            visited.len() == 0x100000000,
            forall|q: u32| visited[q as int] == seen@.contains(q),
            match walk_leaves(data@, page_size, stack@, visited) {
                None => collect_spec(data@, page_size, page_num) is None,
                Some(ls) => collect_spec(data@, page_size, page_num) == Some(out@ + ls),
            },
        decreases count_false(visited), stack@.len(),
    {
        let ghost stack0 = stack@;
        let ghost visited0 = visited;
        let p = match stack.pop() {
            Some(v) => v,
            None => {
                proof {
                    assert(false);
                }
                return Err(ScanError::FormatError);
            },
        };
        if p == 0 {
            return Err(ScanError::FormatError);
        }
        if contains_page(&seen, p) {
            return Err(ScanError::FormatError);
        }
        let ghost seen0 = seen@;
        seen.push(p);
        proof {
            visited = visited0.update(p as int, true);
            lemma_count_false_update(visited0, p as int);
            assert forall|q: u32| visited[q as int] == seen@.contains(q) by {
                if q == p {
                    assert(seen@[seen@.len() - 1] == p);
                } else {
                    if seen0.contains(q) {
                        let j = choose|j: int| 0 <= j < seen0.len() && seen0[j] == q;
                        assert(seen@[j] == q);
                    }
                    if seen@.contains(q) {
                        let j = choose|j: int| 0 <= j < seen@.len() && seen@[j] == q;
                        assert(seen0[j] == q);
                    }
                }
            }
        }
        // header offset, computed exactly and checked against the buffer
        proof {
            assert(((p - 1) as u64) * (page_size as u64) <= 0xFFFFFFFE00000001u64)
                by (nonlinear_arith)
                requires
                    (p - 1) as u64 <= 0xFFFFFFFFu64,
                    page_size as u64 <= 0xFFFFFFFFu64,
            ;
        }
        let base64: u64 = (p - 1) as u64 * page_size as u64;
        let h64: u64 = if p == 1 {
            base64 + 100
        } else {
            base64
        };
        proof {
            assert(h64 as int == page_header_offset_spec(p, page_size));
        }
        if h64 + 5 > data_len as u64 {
            return Err(ScanError::FormatError);
        }
        let h: usize = h64 as usize;
        let ptype = data[h];
        let nc: u16 = (data[h + 3] as u16) * 256 + (data[h + 4] as u16);
        proof {
            assert(be_val(data@, h as int + 3, 0) == 0);
            assert(be_val(data@, h as int + 3, 1) == data@[h as int + 3]);
            assert(nc as int == be_val(data@, h as int + 3, 2));
        }
        if ptype == 0x0d {
            out.push(p);
            proof {
                let w_new = walk_leaves(data@, page_size, stack@, visited);
                match w_new {
                    None => {
                        assert(walk_leaves(data@, page_size, stack0, visited0) is None);
                    },
                    Some(ls) => {
                        assert(walk_leaves(data@, page_size, stack0, visited0) == Some(
                            seq![p] + ls,
                        ));
                        assert(out@ =~= out@.drop_last() + seq![p]);
                        assert(out@.drop_last() + (seq![p] + ls) =~= out@ + ls);
                    },
                }
            }
        } else if ptype == 0x05 {
            if h64 + 12 > data_len as u64 {
                return Err(ScanError::FormatError);
            }
            let right = match read_u32_be(data, h + 8) {
                Ok(v) => v,
                Err(e) => {
                    proof {
                        assert(false);
                    }
                    return Err(e);
                },
            };
            let kids = match read_interior_children(data, base64, h64, nc) {
                Ok(v) => v,
                Err(e) => {
                    proof {
                        assert(walk_leaves(data@, page_size, stack0, visited0) is None);
                    }
                    return Err(e);
                },
            };
            let ghost kids_view = kids@;
            stack.push(right);
            push_reversed(&mut stack, kids);
            proof {
                assert(stack@ =~= stack0.drop_last() + seq![right] + kids_view.reverse());
                assert(walk_leaves(data@, page_size, stack0, visited0) == walk_leaves(
                    data@,
                    page_size,
                    stack@,
                    visited,
                ));
            }
        } else {
            // unrecognized page type: no rows, no children
            proof {
                assert(walk_leaves(data@, page_size, stack0, visited0) == walk_leaves(
                    data@,
                    page_size,
                    stack@,
                    visited,
                ));
            }
        }
    }
    proof {
        assert(walk_leaves(data@, page_size, stack@, visited) == Some(Seq::<u32>::empty()));
        assert(out@ + Seq::<u32>::empty() =~= out@);
    }
    let mut out2 = out;
    leaves.append(&mut out2);
    Ok(())
}

/// Whether `seen` holds `p`.
fn contains_page(seen: &Vec<u32>, p: u32) -> (r: bool)
    ensures
        r == seen@.contains(p),
{
    let mut i: usize = 0;
    while i < seen.len()
        invariant
            0 <= i <= seen@.len(),
            forall|j: int| 0 <= j < i ==> seen@[j] != p,
        decreases seen@.len() - i,
    {
        if seen[i] == p {
            return true;
        }
        i += 1;
    }
    false
}

/// Read the child page number of every cell of an interior page whose base
/// byte offset is `p_base` and whose header starts at `h`.
fn read_interior_children(data: &[u8], p_base: u64, h: u64, nc: u16) -> (r: Result<
    Vec<u32>,
    ScanError,
>)
    requires
        h as int + 12 <= data@.len(),
        p_base <= h,
    ensures
        match r {
            Ok(kids) => interior_children(data@, p_base as int, h as int, 0, nc as int) == Some(
                kids@,
            ),
            Err(e) => e == ScanError::FormatError && interior_children(
                data@,
                p_base as int,
                h as int,
                0,
                nc as int,
            ) is None,
        },
{
    let data_len = data.len();
    let mut kids: Vec<u32> = Vec::new();
    let mut i: usize = 0;
    while i < nc as usize
        invariant
            0 <= i <= nc,
            data_len == data@.len(),
            h as int + 12 <= data_len,
            p_base <= h,
            kids@.len() == i,
            match interior_children(data@, p_base as int, h as int, i as int, nc as int) {
                None => interior_children(data@, p_base as int, h as int, 0, nc as int) is None,
                Some(rest) => interior_children(data@, p_base as int, h as int, 0, nc as int)
                    == Some(kids@ + rest),
            },
        decreases nc - i,
    {
        let ghost kids0 = kids@;
        let ptr_off128: u128 = h as u128 + 12 + 2 * (i as u128);
        if ptr_off128 + 2 > data_len as u128 {
            return Err(ScanError::FormatError);
        }
        let ptr_off: usize = ptr_off128 as usize;
        let ptr = match read_u16_be(data, ptr_off) {
            Ok(v) => v,
            Err(e) => {
                proof {
                    assert(false);
                }
                return Err(e);
            },
        };
        let cell128: u128 = p_base as u128 + ptr as u128;
        if cell128 + 4 > data_len as u128 {
            return Err(ScanError::FormatError);
        }
        let cell: usize = cell128 as usize;
        let child = match read_u32_be(data, cell) {
            Ok(v) => v,
            Err(e) => {
                proof {
                    assert(false);
                }
                return Err(e);
            },
        };
        kids.push(child);
        proof {
            let rest_new = interior_children(data@, p_base as int, h as int, i + 1, nc as int);
            match rest_new {
                None => {},
                Some(rn) => {
                    assert(interior_children(data@, p_base as int, h as int, i as int, nc as int)
                        == Some(seq![child] + rn));
                    assert(kids0 + (seq![child] + rn) =~= kids@ + rn);
                },
            }
        }
        i += 1;
    }
    proof {
        assert(interior_children(data@, p_base as int, h as int, nc as int, nc as int) == Some(
            Seq::<u32>::empty(),
        ));
        assert(kids@ + Seq::<u32>::empty() =~= kids@);
    }
    Ok(kids)
}

/// Move every entry of `kids` onto `stack`, last entry first, so that the
/// first entry ends on top.
fn push_reversed(stack: &mut Vec<u32>, kids: Vec<u32>)
    ensures
        final (stack)@ == old(stack)@ + kids@.reverse(),
{
    let ghost kids_all = kids@;
    let mut kids = kids;
    let mut rev: Vec<u32> = Vec::new();
    while kids.len() > 0
        invariant
            kids@.len() + rev@.len() == kids_all.len(),
            kids@ =~= kids_all.subrange(0, kids@.len() as int),
            forall|j: int|
                0 <= j < rev@.len() ==> rev@[j] == kids_all[kids_all.len() - 1 - j],
        decreases kids@.len(),
    {
        let ghost kids_before = kids@;
        let c = match kids.pop() {
            Some(v) => v,
            None => {
                proof {
                    assert(false);
                }
                return ;
            },
        };
        rev.push(c);
        proof {
            assert(c == kids_all[kids_before.len() - 1]);
            assert(kids@ =~= kids_all.subrange(0, kids@.len() as int));
        }
    }
    proof {
        assert(rev@ =~= kids_all.reverse());
    }
    stack.append(&mut rev);
}

} // verus!
