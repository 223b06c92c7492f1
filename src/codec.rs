use vstd::prelude::*;
use vstd::bytes::{
    spec_u32_from_le_bytes,
    spec_u32_to_le_bytes,
    spec_u64_from_le_bytes,
    spec_u64_to_le_bytes,
    u32_from_le_bytes,
    u32_to_le_bytes,
    u64_from_le_bytes,
    u64_to_le_bytes,
    lemma_auto_spec_u32_to_from_le_bytes,
    lemma_auto_spec_u64_to_from_le_bytes,
};
use crate::tree::{EditTree, Tree, child_view};

verus! {

/// The scalar value of `c`.
pub open spec fn scalar(c: char) -> u32 {
    c as u32
}

/// The character whose scalar value is `x`, if there is one.
pub open spec fn char_of(x: u32) -> Option<char> {
    if exists|c: char| #[trigger] scalar(c) == x {
        Some(choose|c: char| #[trigger] scalar(c) == x)
    } else {
        None
    }
}

/// Relies on `char::from_u32`: the char with scalar value `x`, or `None`
/// where `x` is no char's scalar value.
#[verifier::external_body]
fn char_from_u32(x: u32) -> (r: Option<char>)
    ensures
        match r {
            Some(c) => scalar(c) == x,
            None => forall|c: char| #[trigger] scalar(c) != x,
        },
{
    char::from_u32(x)
}

/// Each character as its scalar value in four little-endian bytes.
pub open spec fn encode_chars(s: Seq<char>) -> Seq<u8>
    decreases s.len(),
{
    if s.len() == 0 {
        Seq::empty()
    } else {
        encode_chars(s.drop_last()) + spec_u32_to_le_bytes(scalar(s.last()))
    }
}

/// The canonical byte form of a tree.
pub open spec fn encode(t: Tree) -> Seq<u8>
    decreases t,
{
    match t {
        Tree::Match { pre, suf, left, right } => seq![0u8] + spec_u64_to_le_bytes(pre as u64)
            + spec_u64_to_le_bytes(suf as u64) + encode_child(left) + encode_child(right),
        Tree::Replace { replacee, replacement } => seq![1u8] + spec_u64_to_le_bytes(
            replacee.len() as u64,
        ) + encode_chars(replacee) + spec_u64_to_le_bytes(replacement.len() as u64)
            + encode_chars(replacement),
    }
}

pub open spec fn encode_child(c: Option<Box<Tree>>) -> Seq<u8>
    decreases c,
{
    match c {
        Some(t) => seq![1u8] + encode(*t),
        None => seq![0u8],
    }
}

/// Every count in the tree fits in a `usize`.
pub open spec fn fits(t: Tree) -> bool
    decreases t,
{
    match t {
        Tree::Match { pre, suf, left, right } => pre <= usize::MAX && suf <= usize::MAX
            && fits_child(left) && fits_child(right),
        Tree::Replace { replacee, replacement } => replacee.len() <= usize::MAX
            && replacement.len() <= usize::MAX,
    }
}

pub open spec fn fits_child(c: Option<Box<Tree>>) -> bool
    decreases c,
{
    match c {
        Some(t) => fits(*t),
        None => true,
    }
}

/// The first `n` characters encoded at the start of `s`.
pub open spec fn parse_chars(s: Seq<u8>, n: nat) -> Option<Seq<char>>
    decreases n,
{
    if 4 * n > s.len() {
        None
    } else if n == 0 {
        Some(Seq::empty())
    } else {
        match parse_chars(s, (n - 1) as nat) {
            Some(p) => match char_of(spec_u32_from_le_bytes(s.subrange(4 * (n - 1) as int, 4 * n as int))) {
                Some(c) => Some(p.push(c)),
                None => None,
            },
            None => None,
        }
    }
}

/// The tree encoded at the start of `s`, with the number of bytes it takes.
pub open spec fn parse(s: Seq<u8>) -> Option<(Tree, nat)>
    decreases s.len(),
{
    if s.len() == 0 {
        None
    } else if s[0] == 0 {
        if s.len() < 17 {
            None
        } else {
            let pre = spec_u64_from_le_bytes(s.subrange(1, 9));
            let suf = spec_u64_from_le_bytes(s.subrange(9, 17));
            if pre > usize::MAX || suf > usize::MAX {
                None
            } else {
                match parse_child(s.skip(17)) {
                    Some((l, k1)) => if 17 + k1 <= s.len() {
                        match parse_child(s.skip(17 + k1 as int)) {
                            Some((r, k2)) => Some(
                                (
                                    Tree::Match { pre: pre as nat, suf: suf as nat, left: l, right: r },
                                    17 + k1 + k2,
                                ),
                            ),
                            None => None,
                        }
                    } else {
                        None
                    },
                    None => None,
                }
            }
        }
    } else if s[0] == 1 {
        if s.len() < 9 {
            None
        } else {
            let n1 = spec_u64_from_le_bytes(s.subrange(1, 9)) as nat;
            match parse_chars(s.skip(9), n1) {
                Some(a) => {
                    let p: int = 9 + 4 * n1 as int;
                    if p + 8 > s.len() {
                        None
                    } else {
                        let n2 = spec_u64_from_le_bytes(s.subrange(p, p + 8)) as nat;
                        match parse_chars(s.skip(p + 8), n2) {
                            Some(b) => Some(
                                (Tree::Replace { replacee: a, replacement: b }, (p + 8 + 4 * n2) as nat),
                            ),
                            None => None,
                        }
                    }
                },
                None => None,
            }
        }
    } else {
        None
    }
}

pub open spec fn parse_child(s: Seq<u8>) -> Option<(Option<Box<Tree>>, nat)>
    decreases s.len(),
{
    if s.len() == 0 {
        None
    } else if s[0] == 0 {
        Some((None, 1))
    } else if s[0] == 1 {
        match parse(s.skip(1)) {
            Some((t, k)) => Some((Some(Box::new(t)), 1 + k)),
            None => None,
        }
    } else {
        None
    }
}

proof fn lemma_char_of_scalar(c: char)
    ensures
        char_of(scalar(c)) == Some(c),
{
    assert(scalar(c) == scalar(c));
    let d = choose|d: char| #[trigger] scalar(d) == scalar(c);
    vstd::utf8::char_u32_cast(c, scalar(c));
    vstd::utf8::char_u32_cast(d, scalar(d));
}

proof fn lemma_encode_chars_len(s: Seq<char>)
    ensures
        encode_chars(s).len() == 4 * s.len(),
    decreases s.len(),
{
    lemma_auto_spec_u32_to_from_le_bytes();
    if s.len() > 0 {
        lemma_encode_chars_len(s.drop_last());
    }
}

proof fn lemma_parse_chars(x: Seq<char>, rest: Seq<u8>)
    ensures
        parse_chars(encode_chars(x) + rest, x.len()) == Some(x),
    decreases x.len(),
{
    lemma_auto_spec_u32_to_from_le_bytes();
    lemma_encode_chars_len(x);
    let n = x.len();
    let s = encode_chars(x) + rest;
    if n > 0 {
        let y = x.drop_last();
        let w = spec_u32_to_le_bytes(scalar(x.last()));
        lemma_encode_chars_len(y);
        assert(s =~= encode_chars(y) + (w + rest));
        lemma_parse_chars(y, w + rest);
        assert(s.subrange(4 * (n - 1) as int, 4 * n as int) =~= w);
        lemma_char_of_scalar(x.last());
        assert(y.push(x.last()) =~= x);
    }
}

#[verifier::spinoff_prover]
proof fn lemma_parse_encode(t: Tree, rest: Seq<u8>)
    requires
        fits(t),
    ensures
        parse(encode(t) + rest) == Some((t, encode(t).len())),
    decreases t,
{
    match t {
        Tree::Match { left, right, .. } => {
            lemma_parse_encode_child(left, encode_child(right) + rest);
            lemma_parse_encode_child(right, rest);
            lemma_parse_match(t, rest);
        },
        Tree::Replace { .. } => {
            lemma_parse_replace(t, rest);
        },
    }
}

#[verifier::rlimit(40)]
proof fn lemma_parse_match(t: Tree, rest: Seq<u8>)
    requires
        fits(t),
        t is Match,
        parse_child(encode_child(t->left) + (encode_child(t->right) + rest)) == Some(
            (t->left, encode_child(t->left).len()),
        ),
        parse_child(encode_child(t->right) + rest) == Some(
            (t->right, encode_child(t->right).len()),
        ),
    ensures
        parse(encode(t) + rest) == Some((t, encode(t).len())),
{
    lemma_auto_spec_u64_to_from_le_bytes();
    let s = encode(t) + rest;
    let hp = spec_u64_to_le_bytes(t->pre as u64);
    let hs = spec_u64_to_le_bytes(t->suf as u64);
    let el = encode_child(t->left);
    let er = encode_child(t->right);
    assert(s =~= seq![0u8] + hp + hs + el + er + rest);
    assert(s.subrange(1, 9) =~= hp);
    assert(s.subrange(9, 17) =~= hs);
    assert(s.skip(17) =~= el + (er + rest));
    assert(s.skip(17 + el.len() as int) =~= er + rest);
}

#[verifier::rlimit(40)]
proof fn lemma_parse_replace(t: Tree, rest: Seq<u8>)
    requires
        fits(t),
        t is Replace,
    ensures
        parse(encode(t) + rest) == Some((t, encode(t).len())),
{
    lemma_auto_spec_u64_to_from_le_bytes();
    let s = encode(t) + rest;
    let x = t->replacee;
    let y = t->replacement;
    let ha = spec_u64_to_le_bytes(x.len() as u64);
    let hb = spec_u64_to_le_bytes(y.len() as u64);
    let ea = encode_chars(x);
    let eb = encode_chars(y);
    lemma_encode_chars_len(x);
    lemma_encode_chars_len(y);
    assert(s =~= seq![1u8] + ha + ea + hb + eb + rest);
    assert(s.subrange(1, 9) =~= ha);
    assert(s.skip(9) =~= ea + (hb + eb + rest));
    lemma_parse_chars(x, hb + eb + rest);
    let p: int = 9 + 4 * x.len() as int;
    assert(s.subrange(p, p + 8) =~= hb);
    assert(s.skip(p + 8) =~= eb + rest);
    lemma_parse_chars(y, rest);
}

#[verifier::spinoff_prover]
proof fn lemma_parse_encode_child(c: Option<Box<Tree>>, rest: Seq<u8>)
    requires
        fits_child(c),
    ensures
        parse_child(encode_child(c) + rest) == Some((c, encode_child(c).len())),
    decreases c,
{
    let s = encode_child(c) + rest;
    match c {
        Some(t) => {
            assert(s.skip(1) =~= encode(*t) + rest);
            lemma_parse_encode(*t, rest);
        },
        None => {},
    }
}

/// The tree whose canonical byte form is exactly `b`, if any.
pub open spec fn decode(b: Seq<u8>) -> Option<Tree> {
    match parse(b) {
        Some((t, k)) => if k == b.len() {
            Some(t)
        } else {
            None
        },
        None => None,
    }
}

/// Decoding the canonical byte form of a tree gives the tree back.
pub proof fn lemma_bytes_round_trip(t: Tree)
    requires
        fits(t),
    ensures
        decode(encode(t)) == Some(t),
{
    lemma_parse_encode(t, Seq::empty());
    assert(encode(t) + Seq::<u8>::empty() =~= encode(t));
}

fn push_bytes(out: &mut Vec<u8>, w: Vec<u8>)
    ensures
        final(out)@ == old(out)@ + w@,
{
    let mut w = w;
    out.append(&mut w);
}

fn encode_chars_into(s: &Vec<char>, out: &mut Vec<u8>)
    ensures
        final(out)@ == old(out)@ + encode_chars(s@),
{
    let mut k: usize = 0;
    while k < s.len()
        invariant
            k <= s@.len(),
            out@ == old(out)@ + encode_chars(s@.take(k as int)),
        decreases s@.len() - k,
    {
        let c = s[k];
        assert(s@.take(k + 1).drop_last() =~= s@.take(k as int));
        push_bytes(out, u32_to_le_bytes(c as u32));
        k = k + 1;
    }
    assert(s@.take(k as int) =~= s@);
}

fn encode_into(t: &EditTree, out: &mut Vec<u8>)
    ensures
        final(out)@ == old(out)@ + encode(t@),
        fits(t@),
    decreases t,
{
    match t {
        EditTree::MatchNode { pre, suf, left, right } => {
            out.push(0u8);
            push_bytes(out, u64_to_le_bytes(*pre as u64));
            push_bytes(out, u64_to_le_bytes(*suf as u64));
            encode_child_into(left, out);
            encode_child_into(right, out);
            assert(final(out)@ =~= old(out)@ + encode(t@));
        },
        EditTree::ReplaceNode { replacee, replacement } => {
            out.push(1u8);
            push_bytes(out, u64_to_le_bytes(replacee.len() as u64));
            encode_chars_into(replacee, out);
            push_bytes(out, u64_to_le_bytes(replacement.len() as u64));
            encode_chars_into(replacement, out);
            assert(final(out)@ =~= old(out)@ + encode(t@));
        },
    }
}

fn encode_child_into(c: &Option<Box<EditTree>>, out: &mut Vec<u8>)
    ensures
        final(out)@ == old(out)@ + encode_child(child_view(*c)),
        fits_child(child_view(*c)),
    decreases c,
{
    match c {
        Some(t) => {
            out.push(1u8);
            encode_into(t, out);
            assert(final(out)@ =~= old(out)@ + encode_child(child_view(*c)));
        },
        None => {
            out.push(0u8);
            assert(final(out)@ =~= old(out)@ + encode_child(child_view(*c)));
        },
    }
}

/// The canonical byte form of `t`.
pub fn to_bytes(t: &EditTree) -> (r: Vec<u8>)
    ensures
        r@ == encode(t@),
        fits(t@),
{
    let mut out: Vec<u8> = Vec::new();
    encode_into(t, &mut out);
    assert(out@ =~= encode(t@));
    out
}

proof fn lemma_parse_chars_none(s: Seq<u8>, m: nat, n: nat)
    requires
        m <= n,
        parse_chars(s, m) is None,
    ensures
        parse_chars(s, n) is None,
    decreases n,
{
    if n > m {
        lemma_parse_chars_none(s, m, (n - 1) as nat);
    }
}

fn decode_chars(b: &[u8], pos: usize, n: usize) -> (r: Option<Vec<char>>)
    requires
        pos <= b@.len(),
        4 * n <= b@.len() - pos,
    ensures
        match r {
            Some(v) => parse_chars(b@.skip(pos as int), n as nat) == Some(v@),
            None => parse_chars(b@.skip(pos as int), n as nat) is None,
        },
{
    let ghost s = b@.skip(pos as int);
    let len = b.len();
    let mut out: Vec<char> = Vec::new();
    let mut k: usize = 0;
    while k < n
        invariant
            len == b@.len(),
            k <= n,
            pos <= b@.len(),
            4 * n <= b@.len() - pos,
            s == b@.skip(pos as int),
            parse_chars(s, k as nat) == Some(out@),
        decreases n - k,
    {
        let at = pos + 4 * k;
        let w = vstd::slice::slice_subrange(b, at, at + 4);
        assert(w@ =~= s.subrange(4 * k as int, 4 * (k + 1) as int));
        let x = u32_from_le_bytes(w);
        match char_from_u32(x) {
            Some(c) => {
                proof {
                    lemma_char_of_scalar(c);
                }
                out.push(c);
            },
            None => {
                proof {
                    lemma_parse_chars_none(s, (k + 1) as nat, n as nat);
                }
                return None;
            },
        }
        k = k + 1;
    }
    Some(out)
}

fn read_u64(b: &[u8], at: usize) -> (x: u64)
    requires
        at + 8 <= b@.len(),
    ensures
        x == spec_u64_from_le_bytes(b@.subrange(at as int, at + 8)),
{
    let len = b.len();
    assert(at + 8 <= len);
    u64_from_le_bytes(vstd::slice::slice_subrange(b, at, at + 8))
}

#[verifier::spinoff_prover]
fn decode_at(b: &[u8], pos: usize) -> (r: Option<(EditTree, usize)>)
    requires
        pos <= b@.len(),
    ensures
        match r {
            Some((t, e)) => pos <= e <= b@.len() && parse(b@.skip(pos as int)) == Some(
                (t@, (e - pos) as nat),
            ),
            None => parse(b@.skip(pos as int)) is None,
        },
    decreases b@.len() - pos, 2nat,
{
    if pos == b.len() {
        return None;
    }
    let tag = b[pos];
    if tag == 0 {
        decode_match_at(b, pos)
    } else if tag == 1 {
        decode_replace_at(b, pos)
    } else {
        None
    }
}

#[verifier::rlimit(40)]
fn decode_match_at(b: &[u8], pos: usize) -> (r: Option<(EditTree, usize)>)
    requires
        pos < b@.len(),
        b@[pos as int] == 0,
    ensures
        match r {
            Some((t, e)) => pos <= e <= b@.len() && parse(b@.skip(pos as int)) == Some(
                (t@, (e - pos) as nat),
            ),
            None => parse(b@.skip(pos as int)) is None,
        },
    decreases b@.len() - pos, 1nat,
{
    let ghost s = b@.skip(pos as int);
    let len = b.len();
    if len - pos < 17 {
        return None;
    }
    let pre = read_u64(b, pos + 1);
    let suf = read_u64(b, pos + 9);
    assert(b@.subrange(pos + 1, pos + 9) =~= s.subrange(1, 9));
    assert(b@.subrange(pos + 9, pos + 17) =~= s.subrange(9, 17));
    if pre > usize::MAX as u64 || suf > usize::MAX as u64 {
        return None;
    }
    assert(b@.skip(pos + 17) =~= s.skip(17));
    let (left, e1) = match decode_child_at(b, pos + 17) {
        Some(x) => x,
        None => { return None; },
    };
    assert(b@.skip(e1 as int) =~= s.skip(e1 - pos));
    let (right, e2) = match decode_child_at(b, e1) {
        Some(x) => x,
        None => { return None; },
    };
    Some((EditTree::MatchNode { pre: pre as usize, suf: suf as usize, left, right }, e2))
}

#[verifier::rlimit(40)]
fn decode_replace_at(b: &[u8], pos: usize) -> (r: Option<(EditTree, usize)>)
    requires
        pos < b@.len(),
        b@[pos as int] == 1,
    ensures
        match r {
            Some((t, e)) => pos <= e <= b@.len() && parse(b@.skip(pos as int)) == Some(
                (t@, (e - pos) as nat),
            ),
            None => parse(b@.skip(pos as int)) is None,
        },
{
    let ghost s = b@.skip(pos as int);
    let len = b.len();
    if len - pos < 9 {
        return None;
    }
    let n1 = read_u64(b, pos + 1);
    assert(b@.subrange(pos + 1, pos + 9) =~= s.subrange(1, 9));
    let rem1 = len - (pos + 9);
    if n1 > (rem1 / 4) as u64 {
        return None;
    }
    let n1 = n1 as usize;
    assert(b@.skip(pos + 9) =~= s.skip(9));
    let replacee = match decode_chars(b, pos + 9, n1) {
        Some(v) => v,
        None => { return None; },
    };
    let p = pos + 9 + 4 * n1;
    if len - p < 8 {
        return None;
    }
    let n2 = read_u64(b, p);
    assert(b@.subrange(p as int, p + 8) =~= s.subrange(p - pos, p - pos + 8));
    let rem2 = len - (p + 8);
    if n2 > (rem2 / 4) as u64 {
        return None;
    }
    let n2 = n2 as usize;
    assert(b@.skip(p + 8) =~= s.skip(p - pos + 8));
    let replacement = match decode_chars(b, p + 8, n2) {
        Some(v) => v,
        None => { return None; },
    };
    Some((EditTree::ReplaceNode { replacee, replacement }, p + 8 + 4 * n2))
}

#[verifier::spinoff_prover]
fn decode_child_at(b: &[u8], pos: usize) -> (r: Option<(Option<Box<EditTree>>, usize)>)
    requires
        pos <= b@.len(),
    ensures
        match r {
            Some((c, e)) => pos <= e <= b@.len() && parse_child(b@.skip(pos as int)) == Some(
                (child_view(c), (e - pos) as nat),
            ),
            None => parse_child(b@.skip(pos as int)) is None,
        },
    decreases b@.len() - pos, 0nat,
{
    let ghost s = b@.skip(pos as int);
    if pos == b.len() {
        return None;
    }
    let tag = b[pos];
    if tag == 0 {
        Some((None, pos + 1))
    } else if tag == 1 {
        assert(b@.skip(pos + 1) =~= s.skip(1));
        match decode_at(b, pos + 1) {
            Some((t, e)) => Some((Some(Box::new(t)), e)),
            None => None,
        }
    } else {
        None
    }
}

/// The tree whose canonical byte form is `b`; `None` where `b` is no such form.
pub fn from_bytes(b: &[u8]) -> (r: Option<EditTree>)
    ensures
        match r {
            Some(t) => decode(b@) == Some(t@),
            None => decode(b@) is None,
        },
{
    assert(b@.skip(0) =~= b@);
    match decode_at(b, 0) {
        Some((t, e)) => {
            if e == b.len() {
                Some(t)
            } else {
                None
            }
        },
        None => None,
    }
}

} // verus!
