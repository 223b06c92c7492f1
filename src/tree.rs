use vstd::prelude::*;

verus! {

/// The mathematical model of an edit tree.
pub enum Tree {
    /// `pre` elements before and `suf` elements after a shared middle; `left`
    /// rewrites the leading part, `right` the trailing part.
    Match { pre: nat, suf: nat, left: Option<Box<Tree>>, right: Option<Box<Tree>> },
    /// A literal source sequence and the literal sequence that replaces it.
    Replace { replacee: Seq<char>, replacement: Seq<char> },
}

/// An edit tree over characters.
///
/// A `MatchNode` splits its input in three: the first `pre` characters are
/// rewritten by `left` (or dropped when `left` is absent), the last `suf`
/// characters are rewritten by `right` (or dropped when `right` is absent),
/// and the characters in between are copied verbatim.  A `ReplaceNode`
/// accepts exactly `replacee` and produces `replacement`.
#[derive(Debug)]
pub enum EditTree {
    MatchNode {
        pre: usize,
        suf: usize,
        left: Option<Box<EditTree>>,
        right: Option<Box<EditTree>>,
    },
    ReplaceNode { replacee: Vec<char>, replacement: Vec<char> },
}

pub open spec fn child_view(c: Option<Box<EditTree>>) -> Option<Box<Tree>>
    decreases c,
{
    match c {
        Some(t) => Some(Box::new(tree_view(*t))),
        None => None,
    }
}

pub open spec fn tree_view(t: EditTree) -> Tree
    decreases t,
{
    match t {
        EditTree::MatchNode { pre, suf, left, right } => Tree::Match {
            pre: pre as nat,
            suf: suf as nat,
            left: child_view(left),
            right: child_view(right),
        },
        EditTree::ReplaceNode { replacee, replacement } => Tree::Replace {
            replacee: replacee@,
            replacement: replacement@,
        },
    }
}

impl View for EditTree {
    type V = Tree;

    open spec fn view(&self) -> Tree {
        tree_view(*self)
    }
}

/// What applying a child yields: an absent child yields the empty sequence.
pub open spec fn apply_child(c: Option<Box<Tree>>, s: Seq<char>) -> Option<Seq<char>>
    decreases c,
{
    match c {
        Some(t) => apply_tree(*t, s),
        None => Some(Seq::empty()),
    }
}

/// The result of applying `t` to `s`, or `None` where `s` does not fit `t`.
pub open spec fn apply_tree(t: Tree, s: Seq<char>) -> Option<Seq<char>>
    decreases t,
{
    match t {
        Tree::Match { pre, suf, left, right } => {
            if pre + suf > s.len() {
                None
            } else {
                let lo = apply_child(left, s.take(pre as int));
                let hi = apply_child(right, s.skip(s.len() - suf));
                match (lo, hi) {
                    (Some(x), Some(y)) => Some(x + s.subrange(pre as int, s.len() - suf) + y),
                    _ => None,
                }
            }
        },
        Tree::Replace { replacee, replacement } => {
            if s == replacee {
                Some(replacement)
            } else {
                None
            }
        },
    }
}

pub open spec fn opt_view(o: Option<Vec<char>>) -> Option<Seq<char>> {
    match o {
        Some(v) => Some(v@),
        None => None,
    }
}

/// Copies `s[lo..hi]` to the end of `out`.
pub(crate) fn push_range(out: &mut Vec<char>, s: &[char], lo: usize, hi: usize)
    requires
        lo <= hi <= s@.len(),
    ensures
        final(out)@ == old(out)@ + s@.subrange(lo as int, hi as int),
{
    let mut k: usize = lo;
    while k < hi
        invariant
            lo <= k <= hi <= s@.len(),
            out@ == old(out)@ + s@.subrange(lo as int, k as int),
        decreases hi - k,
    {
        out.push(s[k]);
        assert(s@.subrange(lo as int, k + 1) =~= s@.subrange(lo as int, k as int).push(s@[k as int]));
        k = k + 1;
    }
}

/// `true` exactly when `a` and `b` hold the same characters.
pub fn same_chars(a: &[char], b: &[char]) -> (r: bool)
    ensures
        r == (a@ == b@),
{
    if a.len() != b.len() {
        return false;
    }
    let mut k: usize = 0;
    while k < a.len()
        invariant
            a@.len() == b@.len(),
            k <= a@.len(),
            forall|m: int| 0 <= m < k ==> a@[m] == b@[m],
        decreases a@.len() - k,
    {
        if a[k] != b[k] {
            return false;
        }
        k = k + 1;
    }
    assert(a@ =~= b@);
    true
}

fn apply_opt_child(c: &Option<Box<EditTree>>, s: &[char]) -> (r: Option<Vec<char>>)
    ensures
        opt_view(r) == apply_child(child_view(*c), s@),
    decreases c,
{
    match c {
        Some(t) => t.apply(s),
        None => Some(Vec::new()),
    }
}

impl EditTree {
    /// Applies the tree to `form`; `None` where `form` does not fit.
    pub fn apply(&self, form: &[char]) -> (r: Option<Vec<char>>)
        ensures
            opt_view(r) == apply_tree(self@, form@),
        decreases self,
    {
        match self {
            EditTree::MatchNode { pre, suf, left, right } => {
                let n = form.len();
                if *pre > n || *suf > n - *pre {
                    return None;
                }
                let lo_part = vstd::slice::slice_subrange(form, 0, *pre);
                let hi_part = vstd::slice::slice_subrange(form, n - *suf, n);
                assert(lo_part@ == form@.take(*pre as int));
                assert(hi_part@ == form@.skip(n - *suf));
                let lo = apply_opt_child(left, lo_part);
                let mut out = match lo {
                    Some(v) => v,
                    None => { return None; },
                };
                let hi = apply_opt_child(right, hi_part);
                match hi {
                    Some(v) => {
                        push_range(&mut out, form, *pre, n - *suf);
                        let vs = v.as_slice();
                        push_range(&mut out, vs, 0, v.len());
                        assert(vs@.subrange(0, vs@.len() as int) =~= v@);
                        Some(out)
                    },
                    None => None,
                }
            },
            EditTree::ReplaceNode { replacee, replacement } => {
                if same_chars(replacee.as_slice(), form) {
                    Some(replacement.clone())
                } else {
                    None
                }
            },
        }
    }
}

fn same_child(a: &Option<Box<EditTree>>, b: &Option<Box<EditTree>>) -> (r: bool)
    ensures
        r == (child_view(*a) == child_view(*b)),
    decreases a,
{
    match (a, b) {
        (Some(x), Some(y)) => x.same(y),
        (None, None) => true,
        _ => false,
    }
}

impl EditTree {
    /// Deep structural comparison: `true` exactly when the two trees agree
    /// in every node and every field.
    pub fn same(&self, other: &EditTree) -> (r: bool)
        ensures
            r == (self@ == other@),
        decreases self,
    {
        match (self, other) {
            (
                EditTree::MatchNode { pre: p1, suf: s1, left: l1, right: r1 },
                EditTree::MatchNode { pre: p2, suf: s2, left: l2, right: r2 },
            ) => *p1 == *p2 && *s1 == *s2 && same_child(l1, l2) && same_child(r1, r2),
            (
                EditTree::ReplaceNode { replacee: a1, replacement: b1 },
                EditTree::ReplaceNode { replacee: a2, replacement: b2 },
            ) => same_chars(a1.as_slice(), a2.as_slice()) && same_chars(
                b1.as_slice(),
                b2.as_slice(),
            ),
            _ => false,
        }
    }
}

impl PartialEq for EditTree {
    fn eq(&self, other: &EditTree) -> (r: bool) {
        self.same(other)
    }
}

impl vstd::std_specs::cmp::PartialEqSpecImpl for EditTree {
    open spec fn obeys_eq_spec() -> bool {
        true
    }

    open spec fn eq_spec(&self, other: &EditTree) -> bool {
        self@ == other@
    }
}

} // verus!
