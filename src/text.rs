use vstd::prelude::*;
use crate::tree::{EditTree, Tree, child_view, push_range};
use crate::codec::{fits, fits_child};

verus! {

/// The character of the decimal digit `d`.
pub open spec fn digit_char(d: nat) -> char {
    ((48 + d) as u8) as char
}

pub open spec fn is_digit(c: char) -> bool {
    48 <= c as u32 <= 57
}

pub open spec fn digit_of(c: char) -> nat {
    (c as u32 - 48) as nat
}

/// `n` in decimal, without leading zeros.
pub open spec fn dec(n: nat) -> Seq<char>
    decreases n,
{
    if n < 10 {
        seq![digit_char(n)]
    } else {
        dec(n / 10).push(digit_char(n % 10))
    }
}

/// The number that a run of decimal digits writes.
pub open spec fn digits_value(ds: Seq<char>) -> nat
    decreases ds.len(),
{
    if ds.len() == 0 {
        0
    } else {
        digits_value(ds.drop_last()) * 10 + digit_of(ds.last())
    }
}

/// How many decimal digits `s` starts with.
pub open spec fn digit_run(s: Seq<char>) -> nat
    decreases s.len(),
{
    if s.len() > 0 && is_digit(s[0]) {
        1 + digit_run(s.drop_first())
    } else {
        0
    }
}

/// The number written at the start of `s`, with the characters it takes;
/// `None` where `s` starts with no digit or the number exceeds `usize`.
pub open spec fn parse_num(s: Seq<char>) -> Option<(nat, nat)> {
    let k = digit_run(s);
    let v = digits_value(s.take(k as int));
    if k == 0 || v > usize::MAX {
        None
    } else {
        Some((v, k))
    }
}

/// The text form of a tree: `M<pre>:<suf>` and its two children for a
/// match, where a child is `_` when absent and `(<tree>)` when present;
/// `R<n>:<replacee><m>:<replacement>` for a replacement of `n` characters
/// by `m` characters.
pub open spec fn write_tree(t: Tree) -> Seq<char>
    decreases t,
{
    match t {
        Tree::Match { pre, suf, left, right } => seq!['M'] + dec(pre) + seq![':'] + dec(suf)
            + write_child(left) + write_child(right),
        Tree::Replace { replacee, replacement } => seq!['R'] + dec(replacee.len()) + seq![':']
            + replacee + dec(replacement.len()) + seq![':'] + replacement,
    }
}

pub open spec fn write_child(c: Option<Box<Tree>>) -> Seq<char>
    decreases c,
{
    match c {
        Some(t) => seq!['('] + write_tree(*t) + seq![')'],
        None => seq!['_'],
    }
}

/// The tree written at the start of `s`, with the characters it takes.
pub open spec fn read_tree(s: Seq<char>) -> Option<(Tree, nat)>
    decreases s.len(),
{
    if s.len() == 0 {
        None
    } else if s[0] == 'M' {
        match parse_num(s.skip(1)) {
            Some((pre, k1)) => {
                let p1: int = 1 + k1 as int;
                if p1 < s.len() && s[p1] == ':' {
                    match parse_num(s.skip(p1 + 1)) {
                        Some((suf, k2)) => {
                            let p2: int = p1 + 1 + k2 as int;
                            if p2 <= s.len() {
                                match read_child(s.skip(p2)) {
                                    Some((l, k3)) => if p2 + k3 <= s.len() {
                                        match read_child(s.skip(p2 + k3 as int)) {
                                            Some((r, k4)) => Some(
                                                (
                                                    Tree::Match { pre, suf, left: l, right: r },
                                                    (p2 + k3 + k4) as nat,
                                                ),
                                            ),
                                            None => None,
                                        }
                                    } else {
                                        None
                                    },
                                    None => None,
                                }
                            } else {
                                None
                            }
                        },
                        None => None,
                    }
                } else {
                    None
                }
            },
            None => None,
        }
    } else if s[0] == 'R' {
        read_replace(s)
    } else {
        None
    }
}

pub open spec fn read_replace(s: Seq<char>) -> Option<(Tree, nat)> {
    match parse_num(s.skip(1)) {
        Some((n1, k1)) => {
            let p1: int = 1 + k1 as int;
            let p2: int = p1 + 1 + n1 as int;
            if p2 <= s.len() && s[p1] == ':' {
                match parse_num(s.skip(p2)) {
                    Some((n2, k2)) => {
                        let p3: int = p2 + k2 as int;
                        let end: int = p3 + 1 + n2 as int;
                        if end <= s.len() && s[p3] == ':' {
                            Some(
                                (
                                    Tree::Replace {
                                        replacee: s.subrange(p1 + 1, p2),
                                        replacement: s.subrange(p3 + 1, end),
                                    },
                                    end as nat,
                                ),
                            )
                        } else {
                            None
                        }
                    },
                    None => None,
                }
            } else {
                None
            }
        },
        None => None,
    }
}

pub open spec fn read_child(s: Seq<char>) -> Option<(Option<Box<Tree>>, nat)>
    decreases s.len(),
{
    if s.len() == 0 {
        None
    } else if s[0] == '_' {
        Some((None, 1))
    } else if s[0] == '(' {
        match read_tree(s.skip(1)) {
            Some((t, k)) => if 1 + k < s.len() && s[1 + k as int] == ')' {
                Some((Some(Box::new(t)), k + 2))
            } else {
                None
            },
            None => None,
        }
    } else {
        None
    }
}

/// The tree whose text form is exactly `s`, if any.
pub open spec fn read_text(s: Seq<char>) -> Option<Tree> {
    match read_tree(s) {
        Some((t, k)) => if k == s.len() {
            Some(t)
        } else {
            None
        },
        None => None,
    }
}

proof fn lemma_dec(n: nat)
    ensures
        dec(n).len() >= 1,
        forall|i: int| 0 <= i < dec(n).len() ==> is_digit(#[trigger] dec(n)[i]),
        digits_value(dec(n)) == n,
    decreases n,
{
    if n < 10 {
        assert(dec(n).drop_last() =~= Seq::<char>::empty());
        assert(digits_value(Seq::<char>::empty()) == 0);
        assert(digit_of(digit_char(n)) == n);
    } else {
        lemma_dec(n / 10);
        assert(dec(n).drop_last() =~= dec(n / 10));
        assert(dec(n).last() == digit_char(n % 10));
        assert(digit_of(digit_char(n % 10)) == n % 10);
        assert(n == (n / 10) * 10 + n % 10);
    }
}

proof fn lemma_digit_run(s: Seq<char>, m: nat)
    requires
        m <= s.len(),
        forall|i: int| 0 <= i < m ==> is_digit(#[trigger] s[i]),
        m == s.len() || !is_digit(s[m as int]),
    ensures
        digit_run(s) == m,
    decreases m,
{
    if m > 0 {
        assert(is_digit(s[0]));
        assert forall|i: int| 0 <= i < m - 1 implies is_digit(#[trigger] s.drop_first()[i]) by {
            assert(is_digit(s[i + 1]));
        }
        lemma_digit_run(s.drop_first(), (m - 1) as nat);
    }
}

proof fn lemma_parse_num_dec(n: nat, rest: Seq<char>)
    requires
        n <= usize::MAX,
        rest.len() == 0 || !is_digit(rest[0]),
    ensures
        parse_num(dec(n) + rest) == Some((n, dec(n).len())),
{
    lemma_dec(n);
    let s = dec(n) + rest;
    let m = dec(n).len();
    assert forall|i: int| 0 <= i < m implies is_digit(#[trigger] s[i]) by {
        assert(s[i] == dec(n)[i]);
    }
    if rest.len() > 0 {
        assert(s[m as int] == rest[0]);
    }
    lemma_digit_run(s, m);
    assert(s.take(m as int) =~= dec(n));
}

#[verifier::spinoff_prover]
proof fn lemma_read_write(t: Tree, rest: Seq<char>)
    requires
        fits(t),
    ensures
        read_tree(write_tree(t) + rest) == Some((t, write_tree(t).len())),
    decreases t,
{
    match t {
        Tree::Match { left, right, .. } => {
            lemma_read_write_child(left, write_child(right) + rest);
            lemma_read_write_child(right, rest);
            lemma_read_match(t, rest);
        },
        Tree::Replace { .. } => {
            lemma_read_replace(t, rest);
        },
    }
}

#[verifier::spinoff_prover]
proof fn lemma_read_write_child(c: Option<Box<Tree>>, rest: Seq<char>)
    requires
        fits_child(c),
    ensures
        read_child(write_child(c) + rest) == Some((c, write_child(c).len())),
    decreases c,
{
    let s = write_child(c) + rest;
    match c {
        Some(t) => {
            lemma_read_write(*t, seq![')'] + rest);
            assert(s.skip(1) =~= write_tree(*t) + (seq![')'] + rest));
            assert(s[1 + write_tree(*t).len() as int] == ')');
        },
        None => {},
    }
}

#[verifier::rlimit(100)]
#[verifier::spinoff_prover]
proof fn lemma_match_layout(t: Tree, rest: Seq<char>)
    requires
        fits(t),
        t is Match,
    ensures
        ({
            let s = write_tree(t) + rest;
            let p1: int = 1 + dec(t->pre).len() as int;
            let p2: int = p1 + 1 + dec(t->suf).len() as int;
            let wl = write_child(t->left);
            let wr = write_child(t->right);
            &&& s.len() > 0 && s[0] == 'M'
            &&& parse_num(s.skip(1)) == Some((t->pre, dec(t->pre).len()))
            &&& p1 < s.len() && s[p1] == ':'
            &&& parse_num(s.skip(p1 + 1)) == Some((t->suf, dec(t->suf).len()))
            &&& p2 <= s.len()
            &&& s.skip(p2) == wl + (wr + rest)
            &&& p2 + wl.len() <= s.len()
            &&& s.skip(p2 + wl.len() as int) == wr + rest
            &&& p2 + wl.len() + wr.len() == write_tree(t).len()
        }),
{
    let s = write_tree(t) + rest;
    let dp = dec(t->pre);
    let ds = dec(t->suf);
    let wl = write_child(t->left);
    let wr = write_child(t->right);
    let tail = wl + wr + rest;
    assert(s =~= seq!['M'] + (dp + (seq![':'] + (ds + tail))));
    assert(s.skip(1) =~= dp + (seq![':'] + (ds + tail)));
    lemma_parse_num_dec(t->pre, seq![':'] + (ds + tail));
    let p1: int = 1 + dp.len() as int;
    assert(s[p1] == ':');
    assert(s.skip(p1 + 1) =~= ds + tail);
    assert(wl[0] == '_' || wl[0] == '(');
    assert(tail[0] == wl[0]);
    lemma_parse_num_dec(t->suf, tail);
    let p2: int = p1 + 1 + ds.len() as int;
    assert(s.skip(p2) =~= wl + (wr + rest));
    assert(s.skip(p2 + wl.len() as int) =~= wr + rest);
}

#[verifier::spinoff_prover]
proof fn lemma_read_match(t: Tree, rest: Seq<char>)
    requires
        fits(t),
        t is Match,
        read_child(write_child(t->left) + (write_child(t->right) + rest)) == Some(
            (t->left, write_child(t->left).len()),
        ),
        read_child(write_child(t->right) + rest) == Some(
            (t->right, write_child(t->right).len()),
        ),
    ensures
        read_tree(write_tree(t) + rest) == Some((t, write_tree(t).len())),
{
    lemma_match_layout(t, rest);
}

#[verifier::rlimit(40)]
proof fn lemma_read_replace(t: Tree, rest: Seq<char>)
    requires
        fits(t),
        t is Replace,
    ensures
        read_tree(write_tree(t) + rest) == Some((t, write_tree(t).len())),
{
    let s = write_tree(t) + rest;
    let a = t->replacee;
    let b = t->replacement;
    let da = dec(a.len());
    let db = dec(b.len());
    assert(s =~= seq!['R'] + da + seq![':'] + a + db + seq![':'] + b + rest);
    assert(s.skip(1) =~= da + (seq![':'] + a + db + seq![':'] + b + rest));
    lemma_parse_num_dec(a.len(), seq![':'] + a + db + seq![':'] + b + rest);
    let p1: int = 1 + da.len() as int;
    let p2: int = p1 + 1 + a.len() as int;
    assert(s[p1] == ':');
    assert(s.subrange(p1 + 1, p2) =~= a);
    assert(s.skip(p2) =~= db + (seq![':'] + b + rest));
    lemma_parse_num_dec(b.len(), seq![':'] + b + rest);
    let p3: int = p2 + db.len() as int;
    assert(s[p3] == ':');
    assert(s.subrange(p3 + 1, p3 + 1 + b.len()) =~= b);
}

/// Reading the text form of a tree gives the tree back.
pub proof fn lemma_text_round_trip(t: Tree)
    requires
        fits(t),
    ensures
        read_text(write_tree(t)) == Some(t),
{
    lemma_read_write(t, Seq::empty());
    assert(write_tree(t) + Seq::<char>::empty() =~= write_tree(t));
}

fn make_digit(d: usize) -> (c: char)
    requires
        d < 10,
    ensures
        c == digit_char(d as nat),
{
    ((48 + d) as u8) as char
}

fn push_dec(out: &mut Vec<char>, n: usize)
    ensures
        final(out)@ == old(out)@ + dec(n as nat),
    decreases n,
{
    if n >= 10 {
        push_dec(out, n / 10);
    }
    out.push(make_digit(n % 10));
    proof {
        if n >= 10 {
            assert(final(out)@ =~= old(out)@ + dec(n as nat));
        } else {
            assert(final(out)@ =~= old(out)@ + dec(n as nat));
        }
    }
}

fn push_all(out: &mut Vec<char>, v: &Vec<char>)
    ensures
        final(out)@ == old(out)@ + v@,
{
    let vs = v.as_slice();
    push_range(out, vs, 0, v.len());
    assert(vs@.subrange(0, vs@.len() as int) =~= v@);
}

fn write_into(t: &EditTree, out: &mut Vec<char>)
    ensures
        final(out)@ == old(out)@ + write_tree(t@),
        fits(t@),
    decreases t,
{
    match t {
        EditTree::MatchNode { pre, suf, left, right } => {
            out.push('M');
            push_dec(out, *pre);
            out.push(':');
            push_dec(out, *suf);
            write_child_into(left, out);
            write_child_into(right, out);
            assert(final(out)@ =~= old(out)@ + write_tree(t@));
        },
        EditTree::ReplaceNode { replacee, replacement } => {
            out.push('R');
            push_dec(out, replacee.len());
            out.push(':');
            push_all(out, replacee);
            push_dec(out, replacement.len());
            out.push(':');
            push_all(out, replacement);
            assert(final(out)@ =~= old(out)@ + write_tree(t@));
        },
    }
}

fn write_child_into(c: &Option<Box<EditTree>>, out: &mut Vec<char>)
    ensures
        final(out)@ == old(out)@ + write_child(child_view(*c)),
        fits_child(child_view(*c)),
    decreases c,
{
    match c {
        Some(t) => {
            out.push('(');
            write_into(t, out);
            out.push(')');
            assert(final(out)@ =~= old(out)@ + write_child(child_view(*c)));
        },
        None => {
            out.push('_');
            assert(final(out)@ =~= old(out)@ + write_child(child_view(*c)));
        },
    }
}

/// The text form of `t`.
pub fn to_text(t: &EditTree) -> (r: Vec<char>)
    ensures
        r@ == write_tree(t@),
        fits(t@),
{
    let mut out: Vec<char> = Vec::new();
    write_into(t, &mut out);
    assert(out@ =~= write_tree(t@));
    out
}

proof fn lemma_value_mono(ds: Seq<char>, m: int)
    requires
        0 <= m <= ds.len(),
    ensures
        digits_value(ds) >= digits_value(ds.take(m)),
    decreases ds.len(),
{
    if m < ds.len() {
        lemma_value_mono(ds.drop_last(), m);
        assert(ds.drop_last().take(m) =~= ds.take(m));
    } else {
        assert(ds.take(m) =~= ds);
    }
}

fn digit_at(s: &[char], i: usize) -> (r: bool)
    requires
        i < s@.len(),
    ensures
        r == is_digit(s@[i as int]),
{
    let cu = s[i] as u32;
    48 <= cu && cu <= 57
}

fn read_num_at(s: &[char], pos: usize) -> (r: Option<(usize, usize)>)
    requires
        pos <= s@.len(),
    ensures
        match r {
            Some((v, e)) => pos < e <= s@.len() && parse_num(s@.skip(pos as int)) == Some(
                (v as nat, (e - pos) as nat),
            ),
            None => parse_num(s@.skip(pos as int)) is None,
        },
{
    let ghost t = s@.skip(pos as int);
    let len = s.len();
    let mut e: usize = pos;
    while e < len && digit_at(s, e)
        invariant
            len == s@.len(),
            pos <= e <= len,
            forall|i: int| pos <= i < e ==> is_digit(#[trigger] s@[i]),
        decreases len - e,
    {
        e = e + 1;
    }
    proof {
        assert forall|i: int| 0 <= i < e - pos implies is_digit(#[trigger] t[i]) by {
            assert(t[i] == s@[pos + i]);
        }
        if e < len {
            assert(t[e - pos] == s@[e as int]);
        }
        lemma_digit_run(t, (e - pos) as nat);
        assert(t.take(e - pos) =~= s@.subrange(pos as int, e as int));
    }
    if e == pos {
        return None;
    }
    let mut acc: usize = 0;
    let mut j: usize = pos;
    while j < e
        invariant
            pos <= j <= e <= len,
            len == s@.len(),
            forall|i: int| pos <= i < e ==> is_digit(#[trigger] s@[i]),
            acc == digits_value(s@.subrange(pos as int, j as int)),
            t == s@.skip(pos as int),
            digit_run(t) == e - pos,
            t.take(e - pos) == s@.subrange(pos as int, e as int),
        decreases e - j,
    {
        let d = (s[j] as u32 - 48) as usize;
        let wide: u128 = acc as u128 * 10 + d as u128;
        assert(s@.subrange(pos as int, j + 1).drop_last() =~= s@.subrange(pos as int, j as int));
        assert(s@.subrange(pos as int, j + 1).last() == s@[j as int]);
        assert(is_digit(s@[j as int]));
        assert(d == digit_of(s@[j as int]));
        assert(wide == digits_value(s@.subrange(pos as int, j + 1)));
        if wide > usize::MAX as u128 {
            proof {
                let ds = s@.subrange(pos as int, e as int);
                lemma_value_mono(ds, j + 1 - pos);
                assert(ds.take(j + 1 - pos) =~= s@.subrange(pos as int, j + 1));
            }
            return None;
        }
        acc = wide as usize;
        j = j + 1;
    }
    Some((acc, e))
}

#[verifier::spinoff_prover]
fn read_at(s: &[char], pos: usize) -> (r: Option<(EditTree, usize)>)
    requires
        pos <= s@.len(),
    ensures
        match r {
            Some((t, e)) => pos <= e <= s@.len() && read_tree(s@.skip(pos as int)) == Some(
                (t@, (e - pos) as nat),
            ),
            None => read_tree(s@.skip(pos as int)) is None,
        },
    decreases s@.len() - pos, 2nat,
{
    if pos == s.len() {
        return None;
    }
    let c = s[pos];
    if c == 'M' {
        read_match_at(s, pos)
    } else if c == 'R' {
        read_replace_at(s, pos)
    } else {
        None
    }
}

#[verifier::rlimit(40)]
#[verifier::spinoff_prover]
fn read_match_at(s: &[char], pos: usize) -> (r: Option<(EditTree, usize)>)
    requires
        pos < s@.len(),
        s@[pos as int] == 'M',
    ensures
        match r {
            Some((t, e)) => pos <= e <= s@.len() && read_tree(s@.skip(pos as int)) == Some(
                (t@, (e - pos) as nat),
            ),
            None => read_tree(s@.skip(pos as int)) is None,
        },
    decreases s@.len() - pos, 1nat,
{
    let ghost t = s@.skip(pos as int);
    let len = s.len();
    assert(s@.skip(pos + 1) =~= t.skip(1));
    let (pre, p1) = match read_num_at(s, pos + 1) {
        Some(x) => x,
        None => { return None; },
    };
    if p1 >= len || s[p1] != ':' {
        return None;
    }
    assert(s@.skip(p1 + 1) =~= t.skip(p1 - pos + 1));
    let (suf, p2) = match read_num_at(s, p1 + 1) {
        Some(x) => x,
        None => { return None; },
    };
    assert(s@.skip(p2 as int) =~= t.skip(p2 - pos));
    let (left, p3) = match read_child_at(s, p2) {
        Some(x) => x,
        None => { return None; },
    };
    assert(s@.skip(p3 as int) =~= t.skip(p3 - pos));
    let (right, p4) = match read_child_at(s, p3) {
        Some(x) => x,
        None => { return None; },
    };
    Some((EditTree::MatchNode { pre, suf, left, right }, p4))
}

#[verifier::rlimit(40)]
#[verifier::spinoff_prover]
fn read_replace_at(s: &[char], pos: usize) -> (r: Option<(EditTree, usize)>)
    requires
        pos < s@.len(),
        s@[pos as int] == 'R',
    ensures
        match r {
            Some((t, e)) => pos <= e <= s@.len() && read_tree(s@.skip(pos as int)) == Some(
                (t@, (e - pos) as nat),
            ),
            None => read_tree(s@.skip(pos as int)) is None,
        },
{
    let ghost t = s@.skip(pos as int);
    let len = s.len();
    assert(s@.skip(pos + 1) =~= t.skip(1));
    let (n1, p1) = match read_num_at(s, pos + 1) {
        Some(x) => x,
        None => { return None; },
    };
    if p1 >= len || n1 > len - (p1 + 1) || s[p1] != ':' {
        return None;
    }
    let p2 = p1 + 1 + n1;
    let replacee = vstd::slice::slice_to_vec(vstd::slice::slice_subrange(s, p1 + 1, p2));
    assert(replacee@ =~= t.subrange(p1 - pos + 1, p2 - pos));
    assert(s@.skip(p2 as int) =~= t.skip(p2 - pos));
    let (n2, p3) = match read_num_at(s, p2) {
        Some(x) => x,
        None => { return None; },
    };
    if p3 >= len || n2 > len - (p3 + 1) || s[p3] != ':' {
        return None;
    }
    let end = p3 + 1 + n2;
    let replacement = vstd::slice::slice_to_vec(vstd::slice::slice_subrange(s, p3 + 1, end));
    assert(replacement@ =~= t.subrange(p3 - pos + 1, end - pos));
    Some((EditTree::ReplaceNode { replacee, replacement }, end))
}

#[verifier::spinoff_prover]
fn read_child_at(s: &[char], pos: usize) -> (r: Option<(Option<Box<EditTree>>, usize)>)
    requires
        pos <= s@.len(),
    ensures
        match r {
            Some((c, e)) => pos <= e <= s@.len() && read_child(s@.skip(pos as int)) == Some(
                (child_view(c), (e - pos) as nat),
            ),
            None => read_child(s@.skip(pos as int)) is None,
        },
    decreases s@.len() - pos, 0nat,
{
    let ghost t = s@.skip(pos as int);
    let len = s.len();
    if pos == len {
        return None;
    }
    let c = s[pos];
    if c == '_' {
        Some((None, pos + 1))
    } else if c == '(' {
        assert(s@.skip(pos + 1) =~= t.skip(1));
        match read_at(s, pos + 1) {
            Some((tree, e)) => {
                if e < len && s[e] == ')' {
                    Some((Some(Box::new(tree)), e + 1))
                } else {
                    None
                }
            },
            None => None,
        }
    } else {
        None
    }
}

/// The tree whose text form is `s`; `None` where `s` is no such form.
pub fn from_text(s: &[char]) -> (r: Option<EditTree>)
    ensures
        match r {
            Some(t) => read_text(s@) == Some(t@),
            None => read_text(s@) is None,
        },
{
    assert(s@.skip(0) =~= s@);
    match read_at(s, 0) {
        Some((t, e)) => {
            if e == s.len() {
                Some(t)
            } else {
                None
            }
        },
        None => None,
    }
}

} // verus!
