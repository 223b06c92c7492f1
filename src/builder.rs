use vstd::prelude::*;
use crate::tree::{EditTree, Tree, apply_tree, apply_child, child_view};

verus! {

/// Length of the longest common run of `a` from `i` and `b` from `j`.
pub open spec fn run_len(a: Seq<char>, b: Seq<char>, i: int, j: int) -> nat
    decreases a.len() - i,
{
    if 0 <= i < a.len() && 0 <= j < b.len() && a[i] == b[j] {
        1 + run_len(a, b, i + 1, j + 1)
    } else {
        0
    }
}

/// `(i, j)` starts a longest common substring of `a` and `b`, and no other
/// start of one that long comes earlier in `a`, or at the same place in `a`
/// and earlier in `b`.
pub open spec fn is_best(a: Seq<char>, b: Seq<char>, i: int, j: int) -> bool {
    &&& 0 <= i < a.len()
    &&& 0 <= j < b.len()
    &&& forall|i2: int, j2: int|
        0 <= i2 < a.len() && 0 <= j2 < b.len() ==> {
            let r2 = #[trigger] run_len(a, b, i2, j2);
            let r = run_len(a, b, i, j);
            r2 < r || (r2 == r && (i < i2 || (i == i2 && j <= j2)))
        }
}

pub open spec fn best_start(a: Seq<char>, b: Seq<char>) -> (int, int) {
    choose|p: (int, int)| is_best(a, b, p.0, p.1)
}

/// The tree that `create_tree` builds from `a` and `b`: none where both are
/// empty; a match around the chosen longest common substring where one
/// exists; a replacement of `a` by `b` otherwise.
pub open spec fn build_tree(a: Seq<char>, b: Seq<char>) -> Option<Tree>
    decreases a.len() + b.len(),
{
    if a.len() == 0 && b.len() == 0 {
        None
    } else {
        let (i, j) = best_start(a, b);
        let n = run_len(a, b, i, j);
        if 0 < n && 0 <= i && 0 <= j && i + n <= a.len() && j + n <= b.len() {
            Some(
                Tree::Match {
                    pre: i as nat,
                    suf: (a.len() - i - n) as nat,
                    left: box_opt(build_tree(a.take(i), b.take(j))),
                    right: box_opt(build_tree(a.skip(i + n), b.skip(j + n))),
                },
            )
        } else {
            Some(Tree::Replace { replacee: a, replacement: b })
        }
    }
}

pub open spec fn box_opt(o: Option<Tree>) -> Option<Box<Tree>> {
    match o {
        Some(t) => Some(Box::new(t)),
        None => None,
    }
}

/// The tree that a handle holds for the pair `a`, `b`: the built tree, or
/// the empty match where both are empty.
pub open spec fn tree_for(a: Seq<char>, b: Seq<char>) -> Tree {
    match build_tree(a, b) {
        Some(t) => t,
        None => empty_tree(),
    }
}

pub open spec fn empty_tree() -> Tree {
    Tree::Match { pre: 0, suf: 0, left: None, right: None }
}

proof fn lemma_run_len_bounds(a: Seq<char>, b: Seq<char>, i: int, j: int)
    requires
        0 <= i <= a.len(),
        0 <= j <= b.len(),
    ensures
        run_len(a, b, i, j) > 0 ==> i + run_len(a, b, i, j) <= a.len() && j + run_len(a, b, i, j) <= b.len(),
        a.subrange(i, i + run_len(a, b, i, j)) == b.subrange(j, j + run_len(a, b, i, j)),
    decreases a.len() - i,
{
    let n = run_len(a, b, i, j);
    if 0 <= i < a.len() && 0 <= j < b.len() && a[i] == b[j] {
        lemma_run_len_bounds(a, b, i + 1, j + 1);
        assert(a.subrange(i, i + n) =~= seq![a[i]] + a.subrange(i + 1, i + n));
        assert(b.subrange(j, j + n) =~= seq![b[j]] + b.subrange(j + 1, j + n));
    } else {
        assert(a.subrange(i, i) =~= b.subrange(j, j));
    }
}

proof fn lemma_run_len_step(a: Seq<char>, b: Seq<char>, i: int, j: int, k: int)
    requires
        0 <= i,
        0 <= j,
        0 <= k,
        i + k <= a.len(),
        j + k <= b.len(),
        forall|m: int| 0 <= m < k ==> (#[trigger] a[i + m]) == b[j + m],
    ensures
        run_len(a, b, i, j) == k + run_len(a, b, i + k, j + k),
    decreases k,
{
    if k > 0 {
        lemma_run_len_step(a, b, i, j, k - 1);
        assert(a[i + (k - 1)] == b[j + (k - 1)]);
        assert(run_len(a, b, i + (k - 1), j + (k - 1)) == 1 + run_len(a, b, i + k, j + k));
    }
}

proof fn lemma_best_unique(a: Seq<char>, b: Seq<char>, i: int, j: int)
    requires
        is_best(a, b, i, j),
    ensures
        best_start(a, b) == (i, j),
{
    assert(is_best(a, b, (i, j).0, (i, j).1));
    let p = best_start(a, b);
    assert(is_best(a, b, p.0, p.1));
    let r1 = run_len(a, b, i, j);
    let r2 = run_len(a, b, p.0, p.1);
    assert(r2 < r1 || (r2 == r1 && (i < p.0 || (i == p.0 && j <= p.1))));
    assert(r1 < r2 || (r1 == r2 && (p.0 < i || (p.0 == i && p.1 <= j))));
}

/// The length of the common run of `a` from `i` and `b` from `j`.
fn common_run(a: &[char], b: &[char], i: usize, j: usize) -> (k: usize)
    requires
        i <= a@.len(),
        j <= b@.len(),
    ensures
        k == run_len(a@, b@, i as int, j as int),
{
    let mut k: usize = 0;
    while k < a.len() - i && k < b.len() - j && a[i + k] == b[j + k]
        invariant
            i + k <= a@.len(),
            j + k <= b@.len(),
            forall|m: int| 0 <= m < k ==> (#[trigger] a@[i + m]) == b@[j + m],
        decreases a@.len() - i - k,
    {
        k = k + 1;
    }
    proof {
        lemma_run_len_step(a@, b@, i as int, j as int, k as int);
    }
    k
}

/// Finds the longest common substring of `a` and `b`: its start in each and
/// its length.  Of several equally long ones, the one that starts first in
/// `a`, and then first in `b`, is taken.  The length is 0 where the two
/// share no element.
pub fn longest_common_substring(a: &[char], b: &[char]) -> (r: (usize, usize, usize))
    ensures
        r.2 == 0 ==> r.0 == 0 && r.1 == 0,
        r.2 == 0 ==> forall|i: int, j: int|
            0 <= i < a@.len() && 0 <= j < b@.len() ==> #[trigger] run_len(a@, b@, i, j) == 0,
        r.2 > 0 ==> is_best(a@, b@, r.0 as int, r.1 as int) && r.2 == run_len(
            a@,
            b@,
            r.0 as int,
            r.1 as int,
        ),
{
    let mut bi: usize = 0;
    let mut bj: usize = 0;
    let mut bn: usize = 0;
    let mut i: usize = 0;
    while i < a.len()
        invariant
            i <= a@.len(),
            bn == 0 ==> bi == 0 && bj == 0,
            forall|i2: int, j2: int|
                0 <= i2 < i && 0 <= j2 < b@.len() ==> #[trigger] run_len(a@, b@, i2, j2) <= bn,
            bn > 0 ==> bi < i && bj < b@.len() && run_len(a@, b@, bi as int, bj as int) == bn,
            bn > 0 ==> forall|i2: int, j2: int|
                0 <= i2 < i && 0 <= j2 < b@.len() && #[trigger] run_len(a@, b@, i2, j2) == bn
                    ==> (bi < i2 || (bi == i2 && bj <= j2)),
        decreases a@.len() - i,
    {
        let mut j: usize = 0;
        while j < b.len()
            invariant
                i < a@.len(),
                j <= b@.len(),
                bn == 0 ==> bi == 0 && bj == 0,
                forall|i2: int, j2: int|
                    ((0 <= i2 < i && 0 <= j2 < b@.len()) || (i2 == i && 0 <= j2 < j))
                        ==> #[trigger] run_len(a@, b@, i2, j2) <= bn,
                bn > 0 ==> (bi < i || (bi == i && bj < j)) && bj < b@.len() && run_len(
                    a@,
                    b@,
                    bi as int,
                    bj as int,
                ) == bn,
                bn > 0 ==> forall|i2: int, j2: int|
                    ((0 <= i2 < i && 0 <= j2 < b@.len()) || (i2 == i && 0 <= j2 < j))
                        && #[trigger] run_len(a@, b@, i2, j2) == bn ==> (bi < i2 || (bi == i2
                        && bj <= j2)),
            decreases b@.len() - j,
        {
            let k = common_run(a, b, i, j);
            if k > bn {
                bi = i;
                bj = j;
                bn = k;
            }
            j = j + 1;
        }
        i = i + 1;
    }
    (bi, bj, bn)
}

pub open spec fn opt_tree_view(o: Option<EditTree>) -> Option<Tree> {
    match o {
        Some(t) => Some(t@),
        None => None,
    }
}

fn box_tree(o: Option<EditTree>) -> (r: Option<Box<EditTree>>)
    ensures
        child_view(r) == box_opt(opt_tree_view(o)),
{
    match o {
        Some(t) => Some(Box::new(t)),
        None => None,
    }
}

impl EditTree {
    /// Builds the tree that rewrites `a` into `b`; `None` where both are empty.
    pub fn create_tree(a: &[char], b: &[char]) -> (r: Option<EditTree>)
        ensures
            opt_tree_view(r) == build_tree(a@, b@),
        decreases a@.len() + b@.len(),
    {
        if a.len() == 0 && b.len() == 0 {
            return None;
        }
        let (bi, bj, n) = longest_common_substring(a, b);
        if n == 0 {
            proof {
                let p = best_start(a@, b@);
                if 0 <= p.0 < a@.len() && 0 <= p.1 < b@.len() {
                    assert(run_len(a@, b@, p.0, p.1) == 0);
                } else {
                    assert(run_len(a@, b@, p.0, p.1) == 0);
                }
            }
            return Some(
                EditTree::ReplaceNode {
                    replacee: vstd::slice::slice_to_vec(a),
                    replacement: vstd::slice::slice_to_vec(b),
                },
            );
        }
        proof {
            lemma_best_unique(a@, b@, bi as int, bj as int);
            lemma_run_len_bounds(a@, b@, bi as int, bj as int);
        }
        let al = a.len();
        let bl = b.len();
        assert(bi + n <= al && bj + n <= bl);
        let a_lo = vstd::slice::slice_subrange(a, 0, bi);
        let b_lo = vstd::slice::slice_subrange(b, 0, bj);
        let a_hi = vstd::slice::slice_subrange(a, bi + n, al);
        let b_hi = vstd::slice::slice_subrange(b, bj + n, bl);
        assert(a_lo@ == a@.take(bi as int));
        assert(b_lo@ == b@.take(bj as int));
        assert(a_hi@ == a@.skip(bi + n));
        assert(b_hi@ == b@.skip(bj + n));
        let left = box_tree(EditTree::create_tree(a_lo, b_lo));
        let right = box_tree(EditTree::create_tree(a_hi, b_hi));
        Some(EditTree::MatchNode { pre: bi, suf: al - bi - n, left, right })
    }
}

proof fn lemma_child_round_trip(a: Seq<char>, b: Seq<char>)
    ensures
        apply_child(box_opt(build_tree(a, b)), a) == Some(b),
    decreases a.len() + b.len(),
{
    if a.len() == 0 && b.len() == 0 {
        assert(b =~= Seq::<char>::empty());
    } else {
        let (i, j) = best_start(a, b);
        let n = run_len(a, b, i, j);
        if 0 < n && 0 <= i && 0 <= j && i + n <= a.len() && j + n <= b.len() {
            lemma_run_len_bounds(a, b, i, j);
            lemma_child_round_trip(a.take(i), b.take(j));
            lemma_child_round_trip(a.skip(i + n), b.skip(j + n));
            let t = build_tree(a, b)->0;
            assert(a.subrange(i, a.len() - (a.len() - i - n)) == a.subrange(i, i + n));
            assert(a.skip(a.len() - (a.len() - i - n)) == a.skip(i + n));
            assert(b.take(j) + b.subrange(j, j + n) + b.skip(j + n) =~= b);
            assert(apply_tree(t, a) == Some(b));
        }
    }
}

/// Applying the tree that a pair `(a, b)` gives to `a` yields `b`.
pub proof fn lemma_round_trip(a: Seq<char>, b: Seq<char>)
    ensures
        apply_tree(tree_for(a, b), a) == Some(b),
{
    lemma_child_round_trip(a, b);
    if a.len() == 0 && b.len() == 0 {
        assert(a.take(0) =~= a);
        assert(a.subrange(0, 0) + Seq::<char>::empty() + Seq::<char>::empty() =~= b);
    }
}

/// Building from equal inputs gives equal trees.
pub proof fn lemma_build_deterministic(a1: Seq<char>, b1: Seq<char>, a2: Seq<char>, b2: Seq<char>)
    requires
        a1 == a2,
        b1 == b2,
    ensures
        build_tree(a1, b1) == build_tree(a2, b2),
        tree_for(a1, b1) == tree_for(a2, b2),
{
}

} // verus!
