use vstd::prelude::*;
use std::collections::hash_map::DefaultHasher;
use std::hash::Hasher;
use vstd::std_specs::hash::DefaultHasherAdditionalSpecFns;
use crate::tree::{EditTree, Tree, apply_tree};
use crate::builder::{tree_for, build_tree, opt_tree_view};
use crate::codec::{decode, encode, fits, from_bytes, to_bytes};
use crate::text::{from_text, read_text, to_text, write_tree};

verus! {

/// What can go wrong when a tree is used, read or written.
#[derive(Clone, Debug)]
pub enum TreeError {
    /// The input does not fit the tree.
    CannotApply { input: String },
    /// The text or the bytes hold no tree.
    Malformed,
    /// Trees are compared with `==` and `!=` only.
    Unordered,
}

/// A comparison that a caller asks for.
#[derive(Clone, Copy, Debug, PartialEq, Eq, Structural)]
pub enum CompareOp {
    Lt,
    Le,
    Eq,
    Ne,
    Gt,
    Ge,
}

/// Relies on str::chars: the characters of `s`, in order.
#[verifier::external_body]
fn chars_of(s: &str) -> (r: Vec<char>)
    ensures
        r@ == s@,
{
    s.chars().collect()
}

/// Relies on `String`'s `FromIterator<&char>`: the string of those characters, in order.
#[verifier::external_body]
fn string_of(v: &Vec<char>) -> (r: String)
    ensures
        r@ == v@,
{
    v.iter().collect()
}

/// An edit tree over the characters of strings.
#[derive(Debug)]
pub struct PyEditTree {
    inner: EditTree,
}

impl View for PyEditTree {
    type V = Tree;

    closed spec fn view(&self) -> Tree {
        self.inner@
    }
}

impl PyEditTree {
    /// The tree that rewrites `a` into `b`; where both are empty, the tree
    /// that copies the empty string.
    pub fn __new__(a: &str, b: &str) -> (r: PyEditTree)
        ensures
            r@ == tree_for(a@, b@),
    {
        let av = chars_of(a);
        let bv = chars_of(b);
        let built = EditTree::create_tree(av.as_slice(), bv.as_slice());
        assert(opt_tree_view(built) == build_tree(a@, b@));
        let inner = match built {
            Some(t) => t,
            None => EditTree::MatchNode { pre: 0, suf: 0, left: None, right: None },
        };
        PyEditTree { inner }
    }

    /// The tree itself.
    pub fn inner(&self) -> (r: &EditTree)
        ensures
            r@ == self@,
    {
        &self.inner
    }

    /// Applies the tree to `a`; an error naming `a` where `a` does not fit.
    pub fn apply(&self, a: &str) -> (r: Result<String, TreeError>)
        ensures
            match r {
                Ok(s) => apply_tree(self@, a@) == Some(s@),
                Err(e) => apply_tree(self@, a@) is None && (e matches TreeError::CannotApply {
                    input,
                } && input@ == a@),
            },
    {
        let av = chars_of(a);
        match self.inner.apply(av.as_slice()) {
            Some(v) => Ok(string_of(&v)),
            None => Err(TreeError::CannotApply { input: a.to_owned() }),
        }
    }

    /// The tree's text form.
    pub fn serialize_to_string(&self) -> (r: Result<String, TreeError>)
        ensures
            r matches Ok(s) && s@ == write_tree(self@),
            fits(self@),
    {
        let text = to_text(&self.inner);
        Ok(string_of(&text))
    }

    /// Reads a tree from its text form; fails where `string` is no such form.
    pub fn deserialize_from_string(string: &str) -> (r: Result<PyEditTree, TreeError>)
        ensures
            match read_text(string@) {
                Some(t) => r matches Ok(p) && p@ == t,
                None => r matches Err(e) && e is Malformed,
            },
    {
        let cs = chars_of(string);
        match from_text(cs.as_slice()) {
            Some(inner) => Ok(PyEditTree { inner }),
            None => Err(TreeError::Malformed),
        }
    }

    /// Same as `serialize_to_string`.
    pub fn __str__(&self) -> (r: Result<String, TreeError>)
        ensures
            r matches Ok(s) && s@ == write_tree(self@),
    {
        self.serialize_to_string()
    }

    /// The tree's canonical bytes.
    pub fn __getstate__(&self) -> (r: Vec<u8>)
        ensures
            r@ == encode(self@),
            fits(self@),
    {
        to_bytes(&self.inner)
    }

    /// Replaces the tree by the one whose canonical bytes are `state`; where
    /// `state` holds no tree, fails and leaves the tree as it was.
    pub fn __setstate__(&mut self, state: &[u8]) -> (r: Result<(), TreeError>)
        ensures
            match decode(state@) {
                Some(t) => r is Ok && final(self)@ == t,
                None => (r matches Err(e) && e is Malformed) && final(self)@ == old(self)@,
            },
    {
        match from_bytes(state) {
            Some(t) => {
                self.inner = t;
                Ok(())
            },
            None => Err(TreeError::Malformed),
        }
    }

    /// The constructor arguments that a host asks for before it restores
    /// the state: two empty strings.
    pub fn __getnewargs__() -> (r: (&'static str, &'static str))
        ensures
            r.0@ == Seq::<char>::empty(),
            r.1@ == Seq::<char>::empty(),
    {
        let r = ("", "");
        proof {
            reveal_strlit("");
        }
        assert(r.0@ =~= Seq::<char>::empty());
        r
    }

    /// A hash of the tree's canonical bytes, so that equal trees hash alike.
    pub fn __hash__(&self) -> (r: isize)
        ensures
            r == DefaultHasher::spec_finish(seq![encode(self@)]) as isize,
    {
        let bytes = to_bytes(&self.inner);
        let mut h = DefaultHasher::new();
        h.write(bytes.as_slice());
        assert(h@ =~= seq![encode(self@)]);
        h.finish() as isize
    }

    /// `==` and `!=` compare the trees deeply; every other comparison fails.
    pub fn __richcmp__(&self, other: &PyEditTree, op: CompareOp) -> (r: Result<bool, TreeError>)
        ensures
            match op {
                CompareOp::Eq => r == Ok::<bool, TreeError>(self@ == other@),
                CompareOp::Ne => r == Ok::<bool, TreeError>(self@ != other@),
                _ => r matches Err(e) && e is Unordered,
            },
    {
        match op {
            CompareOp::Eq => Ok(self.inner.same(&other.inner)),
            CompareOp::Ne => Ok(!self.inner.same(&other.inner)),
            _ => Err(TreeError::Unordered),
        }
    }
}

/// Equal trees hash alike.
pub proof fn lemma_hash_consistent(t1: Tree, t2: Tree)
    requires
        t1 == t2,
    ensures
        DefaultHasher::spec_finish(seq![encode(t1)]) as isize == DefaultHasher::spec_finish(
            seq![encode(t2)],
        ) as isize,
{
}

} // verus!
