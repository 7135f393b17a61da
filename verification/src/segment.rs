//! Matching one glob segment against one path segment.
//!
//! A segment pattern may contain `*` (any run of characters), `?` (exactly
//! one character) and `\c` (the literal character `c`). Neither side ever
//! contains `/`: patterns and paths are split on `/` before they get here.
//!
//! `seg_matches` is the semantics. At build time each transition picks a
//! [`TransitionCondition`]: simple shapes get a fast comparison (equality,
//! prefix, suffix, substring), everything else falls back to a general
//! matcher; each is proved equivalent to `seg_matches` for its shape.

use vstd::prelude::*;

verus! {

/// Does glob segment `p` match candidate `c`?
pub open spec fn seg_matches(p: Seq<char>, c: Seq<char>) -> bool
    decreases p.len() + c.len(),
{
    if p.len() == 0 {
        c.len() == 0
    } else if p[0] == '\\' {
        if p.len() == 1 {
            // a trailing backslash escapes nothing and is ignored
            c.len() == 0
        } else {
            c.len() > 0 && c[0] == p[1] && seg_matches(p.skip(2), c.skip(1))
        }
    } else if p[0] == '*' {
        seg_matches(p.skip(1), c) || (c.len() > 0 && seg_matches(p, c.skip(1)))
    } else if p[0] == '?' {
        c.len() > 0 && seg_matches(p.skip(1), c.skip(1))
    } else {
        c.len() > 0 && c[0] == p[0] && seg_matches(p.skip(1), c.skip(1))
    }
}

pub open spec fn is_wild(ch: char) -> bool {
    ch == '*' || ch == '?'
}

/// No wildcards and no escapes anywhere in `p`.
pub open spec fn plain_seg(p: Seq<char>) -> bool {
    forall|k: int| 0 <= k < p.len() ==> !is_wild(#[trigger] p[k]) && p[k] != '\\'
}

/// How a transition's segment pattern is matched. Simple shapes avoid the
/// general matcher.
#[derive(Debug, Clone, Copy, PartialEq, Eq, Structural)]
pub enum TransitionCondition {
    /// The whole pattern is `*`: every candidate matches.
    Unconditional,
    /// No wildcards at all: candidate must equal the pattern.
    Literal,
    /// `<lit>*`: candidate must start with the literal part.
    Prefix,
    /// `*<lit>`: candidate must end with the literal part.
    Suffix,
    /// `*<lit>*`: candidate must contain the literal part.
    Contains,
    /// Anything else (escapes, `?`, inner stars): general glob matching.
    Wildcard,
}

/// The condition chosen for a segment pattern.
pub open spec fn spec_condition(p: Seq<char>) -> TransitionCondition {
    if p.len() == 1 && p[0] == '*' {
        TransitionCondition::Unconditional
    } else if plain_seg(p) {
        TransitionCondition::Literal
    } else if p.len() >= 2 && p[0] == '*' && p[p.len() - 1] == '*' && plain_seg(
        p.subrange(1, p.len() - 1),
    ) {
        TransitionCondition::Contains
    } else if p.len() >= 1 && p[p.len() - 1] == '*' && plain_seg(p.take(p.len() - 1)) {
        TransitionCondition::Prefix
    } else if p.len() >= 1 && p[0] == '*' && plain_seg(p.skip(1)) {
        TransitionCondition::Suffix
    } else {
        TransitionCondition::Wildcard
    }
}

/// `lit` occurs in `c` starting at index `i`.
pub open spec fn contains_at(c: Seq<char>, lit: Seq<char>, i: int) -> bool {
    0 <= i && i + lit.len() <= c.len() && c.subrange(i, i + lit.len()) == lit
}

/// `lit` occurs somewhere in `c`.
pub open spec fn seq_contains(c: Seq<char>, lit: Seq<char>) -> bool {
    exists|i: int| contains_at(c, lit, i)
}

/// Is `p@.subrange(from, to)` free of wildcards and escapes?
fn plain_range(p: &Vec<char>, from: usize, to: usize) -> (r: bool)
    requires
        from <= to <= p@.len(),
    ensures
        r == plain_seg(p@.subrange(from as int, to as int)),
{
    let ghost sub = p@.subrange(from as int, to as int);
    let mut k = from;
    while k < to
        invariant
            from <= k <= to <= p@.len(),
            sub == p@.subrange(from as int, to as int),
            forall|t: int|
                0 <= t < k - from ==> !is_wild(#[trigger] sub[t]) && sub[t] != '\\',
        decreases to - k,
    {
        let ch = p[k];
        proof {
            assert(sub[k - from] == p@[k as int]);
        }
        if ch == '*' || ch == '?' || ch == '\\' {
            return false;
        }
        k = k + 1;
    }
    true
}

/// Choose the matching condition for a segment pattern, per the shape table.
pub fn classify_segment(p: &Vec<char>) -> (r: TransitionCondition)
    ensures
        r == spec_condition(p@),
{
    let n = p.len();
    if n == 1 && p[0] == '*' {
        return TransitionCondition::Unconditional;
    }
    if plain_range(p, 0, n) {
        proof {
            assert(p@.subrange(0, n as int) =~= p@);
        }
        return TransitionCondition::Literal;
    }
    proof {
        assert(p@.subrange(0, n as int) =~= p@);
    }
    if n >= 2 && p[0] == '*' && p[n - 1] == '*' && plain_range(p, 1, n - 1) {
        return TransitionCondition::Contains;
    }
    if n >= 1 && p[n - 1] == '*' && plain_range(p, 0, n - 1) {
        proof {
            assert(p@.subrange(0, n - 1) =~= p@.take(n - 1));
        }
        return TransitionCondition::Prefix;
    }
    proof {
        if n >= 1 {
            assert(p@.subrange(0, n - 1) =~= p@.take(n - 1));
        }
    }
    if n >= 1 && p[0] == '*' && plain_range(p, 1, n) {
        proof {
            assert(p@.subrange(1, n as int) =~= p@.skip(1));
        }
        return TransitionCondition::Suffix;
    }
    proof {
        if n >= 1 {
            assert(p@.subrange(1, n as int) =~= p@.skip(1));
        }
    }
    TransitionCondition::Wildcard
}

pub proof fn lemma_star_matches_all(c: Seq<char>)
    ensures
        seg_matches(seq!['*'], c),
    decreases c.len(),
{
    let p = seq!['*'];
    assert(p.skip(1) =~= Seq::<char>::empty());
    if c.len() == 0 {
        assert(seg_matches(p.skip(1), c));
    } else {
        lemma_star_matches_all(c.skip(1));
        assert(seg_matches(p, c.skip(1)));
    }
}

pub proof fn lemma_literal(p: Seq<char>, c: Seq<char>)
    requires
        plain_seg(p),
    ensures
        seg_matches(p, c) <==> p == c,
    decreases p.len() + c.len(),
{
    if p.len() == 0 {
        if seg_matches(p, c) {
            assert(p =~= c);
        }
    } else {
        assert(!is_wild(p[0]) && p[0] != '\\');
        assert(plain_seg(p.skip(1))) by {
            assert(forall|k: int|
                0 <= k < p.skip(1).len() ==> #[trigger] p.skip(1)[k] == p[k + 1]);
        }
        if c.len() > 0 {
            lemma_literal(p.skip(1), c.skip(1));
            if seg_matches(p, c) {
                assert(p.skip(1) == c.skip(1));
                assert forall|k: int| 0 <= k < p.len() implies p[k] == c[k] by {
                    if k > 0 {
                        assert(p[k] == p.skip(1)[k - 1]);
                        assert(c[k] == c.skip(1)[k - 1]);
                    }
                }
                assert(p =~= c);
            }
            if p == c {
                assert(p.skip(1) =~= c.skip(1));
            }
        }
    }
}

pub proof fn lemma_prefix(lit: Seq<char>, c: Seq<char>)
    requires
        plain_seg(lit),
    ensures
        seg_matches(lit + seq!['*'], c) <==> (c.len() >= lit.len() && c.take(
            lit.len() as int,
        ) == lit),
    decreases lit.len() + c.len(),
{
    let p = lit + seq!['*'];
    if lit.len() == 0 {
        assert(p =~= seq!['*']);
        lemma_star_matches_all(c);
        assert(c.take(0) =~= lit);
    } else {
        assert(p[0] == lit[0]);
        assert(!is_wild(p[0]) && p[0] != '\\');
        assert(plain_seg(lit.skip(1))) by {
            assert(forall|k: int|
                0 <= k < lit.skip(1).len() ==> #[trigger] lit.skip(1)[k] == lit[k + 1]);
        }
        if c.len() > 0 {
            lemma_prefix(lit.skip(1), c.skip(1));
            assert(p.skip(1) =~= lit.skip(1) + seq!['*']);
            if seg_matches(p, c) {
                assert(c[0] == lit[0]);
                assert(c.skip(1).take(lit.len() - 1) == lit.skip(1));
                assert forall|k: int| 0 <= k < lit.len() implies c.take(lit.len() as int)[k]
                    == lit[k] by {
                    if k > 0 {
                        assert(c.skip(1).take(lit.len() - 1)[k - 1] == lit.skip(1)[k - 1]);
                        assert(c.skip(1)[k - 1] == c[k]);
                        assert(lit.skip(1)[k - 1] == lit[k]);
                    }
                }
                assert(c.take(lit.len() as int) =~= lit);
            }
            if c.len() >= lit.len() && c.take(lit.len() as int) == lit {
                assert(c[0] == c.take(lit.len() as int)[0]);
                assert(c.skip(1).take(lit.len() - 1) =~= lit.skip(1)) by {
                    assert forall|k: int| 0 <= k < lit.len() - 1 implies c.skip(1).take(
                        lit.len() - 1,
                    )[k] == lit.skip(1)[k] by {
                        assert(c.skip(1)[k] == c[k + 1]);
                        assert(c[k + 1] == c.take(lit.len() as int)[k + 1]);
                        assert(lit.skip(1)[k] == lit[k + 1]);
                    }
                }
                assert(seg_matches(p, c));
            }
        } else {
            // empty candidate never matches a nonempty plain head
            assert(!seg_matches(p, c));
        }
    }
}

pub proof fn lemma_suffix(lit: Seq<char>, c: Seq<char>)
    requires
        plain_seg(lit),
    ensures
        seg_matches(seq!['*'] + lit, c) <==> (c.len() >= lit.len() && c.skip(
            c.len() - lit.len(),
        ) == lit),
    decreases c.len(),
{
    let p = seq!['*'] + lit;
    assert(p[0] == '*');
    assert(p.skip(1) =~= lit);
    lemma_literal(lit, c);
    if c.len() > 0 {
        lemma_suffix(lit, c.skip(1));
        let cs = c.skip(1);
        if c.len() > lit.len() {
            assert(cs.skip(cs.len() - lit.len()) =~= c.skip(c.len() - lit.len()));
        }
        if seg_matches(p, c) {
            if seg_matches(lit, c) {
                assert(c.skip(0) =~= c);
            }
        }
        if c.len() >= lit.len() && c.skip(c.len() - lit.len()) == lit {
            if c.len() == lit.len() {
                assert(c.skip(0) =~= c);
                assert(lit == c);
            } else {
                assert(seg_matches(p, cs));
            }
        }
    } else {
        if c.len() >= lit.len() && c.skip(c.len() - lit.len()) == lit {
            assert(lit =~= Seq::<char>::empty());
        }
        if seg_matches(p, c) {
            assert(seg_matches(lit, c));
        }
    }
}

pub proof fn lemma_contains(lit: Seq<char>, c: Seq<char>)
    requires
        plain_seg(lit),
    ensures
        seg_matches(seq!['*'] + lit + seq!['*'], c) <==> seq_contains(c, lit),
    decreases c.len(),
{
    let p = seq!['*'] + lit + seq!['*'];
    assert(p[0] == '*');
    assert(p.skip(1) =~= lit + seq!['*']);
    lemma_prefix(lit, c);
    if c.len() > 0 {
        lemma_contains(lit, c.skip(1));
        let cs = c.skip(1);
        if seg_matches(p, c) {
            if seg_matches(lit + seq!['*'], c) {
                assert(c.take(lit.len() as int) =~= c.subrange(0, lit.len() as int));
                assert(contains_at(c, lit, 0));
            } else {
                assert(seg_matches(p, cs));
                let i = choose|i: int| contains_at(cs, lit, i);
                assert(cs.subrange(i, i + lit.len()) =~= c.subrange(i + 1, i + 1 + lit.len()));
                assert(contains_at(c, lit, i + 1));
            }
        }
        if seq_contains(c, lit) {
            let i = choose|i: int| contains_at(c, lit, i);
            if i == 0 {
                assert(c.take(lit.len() as int) =~= c.subrange(0, lit.len() as int));
                assert(seg_matches(lit + seq!['*'], c));
            } else {
                assert(c.subrange(i, i + lit.len()) =~= cs.subrange(i - 1, i - 1 + lit.len()));
                assert(contains_at(cs, lit, i - 1));
                assert(seg_matches(p, cs));
            }
        }
    } else {
        if seg_matches(p, c) {
            assert(seg_matches(lit + seq!['*'], c));
            assert(c.take(lit.len() as int) =~= c.subrange(0, lit.len() as int));
            assert(contains_at(c, lit, 0));
        }
        if seq_contains(c, lit) {
            let i = choose|i: int| contains_at(c, lit, i);
            assert(lit.len() == 0);
            assert(c.take(0) =~= lit);
            assert(seg_matches(lit + seq!['*'], c));
        }
    }
}

/// Compare `c[coff..coff+n]` with `p[poff..poff+n]`.
fn eq_at(c: &Vec<char>, coff: usize, p: &Vec<char>, poff: usize, n: usize) -> (r: bool)
    requires
        coff + n <= c@.len(),
        poff + n <= p@.len(),
    ensures
        r == (c@.subrange(coff as int, coff + n) == p@.subrange(poff as int, poff + n)),
{
    let cl = c.len();
    let pl = p.len();
    let mut k: usize = 0;
    while k < n
        invariant
            k <= n,
            cl == c@.len(),
            pl == p@.len(),
            coff + n <= c@.len(),
            poff + n <= p@.len(),
            forall|t: int| 0 <= t < k ==> #[trigger] c@[coff + t] == p@[poff + t],
        decreases n - k,
    {
        if c[coff + k] != p[poff + k] {
            proof {
                assert(c@.subrange(coff as int, coff + n)[k as int] != p@.subrange(
                    poff as int,
                    poff + n,
                )[k as int]);
            }
            return false;
        }
        k = k + 1;
    }
    proof {
        assert forall|t: int| 0 <= t < n implies #[trigger] c@.subrange(coff as int, coff + n)[t]
            == p@.subrange(poff as int, poff + n)[t] by {
            assert(c@[coff + t] == p@[poff + t]);
        }
        assert(c@.subrange(coff as int, coff + n) =~= p@.subrange(poff as int, poff + n));
    }
    true
}

/// General glob matching by dynamic programming over pattern and candidate
/// positions, so that patterns with many stars stay polynomial.
pub fn seg_match_general(p: &Vec<char>, c: &Vec<char>) -> (r: bool)
    ensures
        r == seg_matches(p@, c@),
{
    let plen = p.len();
    let clen = c.len();
    // For the pattern suffix starting at i:
    //   tail_a == seg_matches(p@.skip(i), c@.skip(clen))  (empty candidate suffix)
    //   row_a[j] == seg_matches(p@.skip(i), c@.skip(j)) for j < clen
    let mut tail_a: bool = true;
    let mut row_a: Vec<bool> = Vec::new();
    let mut j0: usize = 0;
    while j0 < clen
        invariant
            j0 <= clen,
            clen == c@.len(),
            row_a@.len() == j0,
            forall|t: int| 0 <= t < j0 ==> row_a@[t] == false,
        decreases clen - j0,
    {
        row_a.push(false);
        j0 = j0 + 1;
    }
    proof {
        assert(p@.skip(plen as int) =~= Seq::<char>::empty());
        assert(c@.skip(clen as int) =~= Seq::<char>::empty());
        assert forall|t: int| 0 <= t < clen implies row_a@[t] == seg_matches(
            p@.skip(plen as int),
            c@.skip(t),
        ) by {
            assert(c@.skip(t).len() == clen - t);
        }
    }
    let mut tail_b: bool = true;
    let mut row_b: Vec<bool> = Vec::new();
    let mut i = plen;
    while i > 0
        invariant
            i <= plen,
            plen == p@.len(),
            clen == c@.len(),
            row_a@.len() == clen,
            tail_a == seg_matches(p@.skip(i as int), c@.skip(clen as int)),
            forall|t: int|
                0 <= t < clen ==> row_a@[t] == seg_matches(p@.skip(i as int), c@.skip(t)),
            i < plen ==> row_b@.len() == clen,
            i < plen ==> tail_b == seg_matches(p@.skip(i + 1), c@.skip(clen as int)),
            i < plen ==> forall|t: int|
                0 <= t < clen ==> row_b@[t] == seg_matches(p@.skip(i + 1), c@.skip(t)),
        decreases i,
    {
        let im1 = i - 1;
        let pc = p[im1];
        let ghost psi = p@.skip(im1 as int);
        proof {
            assert(psi[0] == p@[im1 as int]);
            assert(psi.len() == plen - im1);
            assert(psi.skip(1) =~= p@.skip(im1 + 1));
            assert(c@.skip(clen as int).len() == 0);
            if im1 + 2 <= plen {
                assert(psi[1] == p@[im1 + 1]);
                assert(psi.skip(2) =~= p@.skip(im1 + 2));
            }
        }
        let cur_tail: bool;
        if pc == '\\' {
            cur_tail = im1 + 1 == plen;
        } else if pc == '*' {
            cur_tail = tail_a;
        } else {
            cur_tail = false;
        }
        proof {
            assert(cur_tail == seg_matches(psi, c@.skip(clen as int)));
        }
        let mut cur: Vec<bool> = Vec::new();
        let mut z: usize = 0;
        while z < clen
            invariant
                z <= clen,
                clen == c@.len(),
                cur@.len() == z,
            decreases clen - z,
        {
            cur.push(false);
            z = z + 1;
        }
        let mut j: usize = clen;
        while j > 0
            invariant
                j <= clen,
                plen == p@.len(),
                clen == c@.len(),
                1 <= i <= plen,
                im1 == i - 1,
                pc == p@[im1 as int],
                psi == p@.skip(im1 as int),
                row_a@.len() == clen,
                tail_a == seg_matches(p@.skip(i as int), c@.skip(clen as int)),
                forall|t: int|
                    0 <= t < clen ==> row_a@[t] == seg_matches(p@.skip(i as int), c@.skip(t)),
                i < plen ==> row_b@.len() == clen,
                i < plen ==> tail_b == seg_matches(p@.skip(i + 1), c@.skip(clen as int)),
                i < plen ==> forall|t: int|
                    0 <= t < clen ==> row_b@[t] == seg_matches(p@.skip(i + 1), c@.skip(t)),
                cur@.len() == clen,
                cur_tail == seg_matches(psi, c@.skip(clen as int)),
                forall|t: int| j <= t < clen ==> cur@[t] == seg_matches(psi, c@.skip(t)),
            decreases j,
        {
            let jj = j - 1;
            let ghost cs = c@.skip(jj as int);
            proof {
                assert(psi[0] == p@[im1 as int]);
                assert(cs.len() == clen - jj);
                assert(psi.skip(1) =~= p@.skip(im1 + 1));
                assert(cs.skip(1) =~= c@.skip(jj + 1));
                assert(cs[0] == c@[jj as int]);
                if im1 + 2 <= plen {
                    assert(psi[1] == p@[im1 + 1]);
                    assert(psi.skip(2) =~= p@.skip(im1 + 2));
                }
            }
            let v: bool;
            if pc == '\\' {
                if im1 + 1 == plen {
                    // a lone trailing backslash only matches the empty candidate
                    v = false;
                } else {
                    let m = c[jj] == p[im1 + 1];
                    let rest = if jj + 1 < clen {
                        row_b[jj + 1]
                    } else {
                        tail_b
                    };
                    v = m && rest;
                }
            } else if pc == '*' {
                let down = row_a[jj];
                let right = if jj + 1 < clen {
                    cur[jj + 1]
                } else {
                    cur_tail
                };
                v = down || right;
            } else if pc == '?' {
                v = if jj + 1 < clen {
                    row_a[jj + 1]
                } else {
                    tail_a
                };
            } else {
                let m = c[jj] == pc;
                let rest = if jj + 1 < clen {
                    row_a[jj + 1]
                } else {
                    tail_a
                };
                v = m && rest;
            }
            proof {
                assert(v == seg_matches(psi, cs));
            }
            cur[jj] = v;
            j = jj;
        }
        row_b = row_a;
        tail_b = tail_a;
        row_a = cur;
        tail_a = cur_tail;
        i = im1;
    }
    let r = if clen == 0 {
        tail_a
    } else {
        row_a[0]
    };
    proof {
        assert(p@.skip(0) =~= p@);
        assert(c@.skip(0) =~= c@);
        if clen == 0 {
            assert(c@.skip(clen as int) =~= c@);
        }
    }
    r
}

/// Match candidate `c` against segment pattern `p` using the precomputed
/// condition for `p`.
pub fn condition_matches(p: &Vec<char>, cond: TransitionCondition, c: &Vec<char>) -> (r: bool)
    requires
        cond == spec_condition(p@),
    ensures
        r == seg_matches(p@, c@),
{
    match cond {
        TransitionCondition::Unconditional => {
            proof {
                assert(p@ =~= seq!['*']);
                lemma_star_matches_all(c@);
            }
            true
        },
        TransitionCondition::Literal => {
            let r = p.len() == c.len() && eq_at(c, 0, p, 0, p.len());
            proof {
                lemma_literal(p@, c@);
                if p@.len() == c@.len() {
                    assert(c@.subrange(0, c@.len() as int) =~= c@);
                    assert(p@.subrange(0, p@.len() as int) =~= p@);
                }
            }
            r
        },
        TransitionCondition::Contains => {
            let n = p.len() - 2;
            let ghost lit = p@.subrange(1, p@.len() - 1);
            let r = contains_scan(c, p, n);
            proof {
                lemma_contains(lit, c@);
                assert(seq!['*'] + lit + seq!['*'] =~= p@);
            }
            r
        },
        TransitionCondition::Prefix => {
            let n = p.len() - 1;
            let ghost lit = p@.take(p@.len() - 1);
            let r = c.len() >= n && eq_at(c, 0, p, 0, n);
            proof {
                lemma_prefix(lit, c@);
                assert(lit + seq!['*'] =~= p@);
                if c@.len() >= n {
                    assert(c@.subrange(0, n as int) =~= c@.take(n as int));
                    assert(p@.subrange(0, n as int) =~= lit);
                }
            }
            r
        },
        TransitionCondition::Suffix => {
            let n = p.len() - 1;
            let ghost lit = p@.skip(1);
            let r = c.len() >= n && eq_at(c, c.len() - n, p, 1, n);
            proof {
                lemma_suffix(lit, c@);
                assert(seq!['*'] + lit =~= p@);
                if c@.len() >= n {
                    assert(c@.subrange(c@.len() - n, c@.len() as int) =~= c@.skip(c@.len() - n));
                    assert(p@.subrange(1, 1 + n) =~= lit);
                }
            }
            r
        },
        TransitionCondition::Wildcard => seg_match_general(p, c),
    }
}

/// Scan for the literal `p[1..1+n]` anywhere in `c`.
fn contains_scan(c: &Vec<char>, p: &Vec<char>, n: usize) -> (r: bool)
    requires
        1 + n < p@.len() || 1 + n <= p@.len(),
        1 + n <= p@.len(),
    ensures
        r == seq_contains(c@, p@.subrange(1, 1 + n)),
{
    let ghost lit = p@.subrange(1, 1 + n);
    if n == 0 {
        proof {
            assert(c@.subrange(0, 0) =~= lit);
            assert(contains_at(c@, lit, 0));
        }
        return true;
    }
    let cl = c.len();
    if cl < n {
        proof {
            assert forall|i: int| !contains_at(c@, lit, i) by {}
        }
        return false;
    }
    let mut i: usize = 0;
    while i <= cl - n
        invariant
            n >= 1,
            cl == c@.len(),
            c@.len() >= n,
            1 + n <= p@.len(),
            lit == p@.subrange(1, 1 + n),
            i <= c@.len() - n + 1,
            forall|t: int| 0 <= t < i ==> !contains_at(c@, lit, t),
        decreases c@.len() - n - i + 1,
    {
        if eq_at(c, i, p, 1, n) {
            proof {
                assert(contains_at(c@, lit, i as int));
            }
            return true;
        }
        i = i + 1;
    }
    proof {
        assert forall|t: int| !contains_at(c@, lit, t) by {
            if 0 <= t <= c@.len() - lit.len() {
                assert(!contains_at(c@, lit, t));
            }
        }
    }
    false
}

} // verus!
