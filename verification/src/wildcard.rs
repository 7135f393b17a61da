//! Plain wildcard matching over whole strings: `*` matches any run of
//! characters, `?` exactly one; every other character matches itself.
//! Unlike segment patterns there are no escapes here.

use vstd::prelude::*;

use crate::util::chars_of;

verus! {

/// Does wildcard pattern `p` match all of `c`?
pub open spec fn wc_matches(p: Seq<char>, c: Seq<char>) -> bool
    decreases p.len() + c.len(),
{
    if p.len() == 0 {
        c.len() == 0
    } else if p[0] == '*' {
        wc_matches(p.skip(1), c) || (c.len() > 0 && wc_matches(p, c.skip(1)))
    } else if p[0] == '?' {
        c.len() > 0 && wc_matches(p.skip(1), c.skip(1))
    } else {
        c.len() > 0 && c[0] == p[0] && wc_matches(p.skip(1), c.skip(1))
    }
}

/// Match `candidate` against `pattern`, by dynamic programming over the
/// two positions so that patterns with many stars stay polynomial.
pub fn matches(pattern: &str, candidate: &str) -> (r: bool)
    ensures
        r == wc_matches(pattern@, candidate@),
{
    let p = chars_of(pattern);
    let c = chars_of(candidate);
    let plen = p.len();
    let clen = c.len();
    // For the pattern suffix starting at i:
    //   tail_a == wc_matches(p@.skip(i), c@.skip(clen))  (empty candidate suffix)
    //   row_a[j] == wc_matches(p@.skip(i), c@.skip(j)) for j < clen
    let mut tail_a: bool = true;
    let mut row_a: Vec<bool> = Vec::new();
    let mut j0: usize = 0;
    while j0 < clen
        invariant
            j0 <= clen,
            clen == c@.len(),
            row_a@.len() == j0,
            forall|t: int| 0 <= t < j0 ==> row_a@[t] == false,
        decreases clen - j0,
    {
        row_a.push(false);
        j0 = j0 + 1;
    }
    proof {
        assert(p@.skip(plen as int) =~= Seq::<char>::empty());
        assert(c@.skip(clen as int) =~= Seq::<char>::empty());
        assert forall|t: int| 0 <= t < clen implies row_a@[t] == wc_matches(
            p@.skip(plen as int),
            c@.skip(t),
        ) by {
            assert(c@.skip(t).len() == clen - t);
        }
    }
    let mut i = plen;
    while i > 0
        invariant
            i <= plen,
            plen == p@.len(),
            clen == c@.len(),
            row_a@.len() == clen,
            tail_a == wc_matches(p@.skip(i as int), c@.skip(clen as int)),
            forall|t: int|
                0 <= t < clen ==> row_a@[t] == wc_matches(p@.skip(i as int), c@.skip(t)),
        decreases i,
    {
        let im1 = i - 1;
        let pc = p[im1];
        let ghost psi = p@.skip(im1 as int);
        proof {
            assert(psi[0] == p@[im1 as int]);
            assert(psi.len() == plen - im1);
            assert(psi.skip(1) =~= p@.skip(im1 + 1));
            assert(c@.skip(clen as int).len() == 0);
        }
        let cur_tail: bool = if pc == '*' {
            tail_a
        } else {
            false
        };
        proof {
            assert(cur_tail == wc_matches(psi, c@.skip(clen as int)));
        }
        let mut cur: Vec<bool> = Vec::new();
        let mut z: usize = 0;
        while z < clen
            invariant
                z <= clen,
                clen == c@.len(),
                cur@.len() == z,
            decreases clen - z,
        {
            cur.push(false);
            z = z + 1;
        }
        let mut j: usize = clen;
        while j > 0
            invariant
                j <= clen,
                plen == p@.len(),
                clen == c@.len(),
                1 <= i <= plen,
                im1 == i - 1,
                pc == p@[im1 as int],
                psi == p@.skip(im1 as int),
                row_a@.len() == clen,
                tail_a == wc_matches(p@.skip(i as int), c@.skip(clen as int)),
                forall|t: int|
                    0 <= t < clen ==> row_a@[t] == wc_matches(p@.skip(i as int), c@.skip(t)),
                cur@.len() == clen,
                cur_tail == wc_matches(psi, c@.skip(clen as int)),
                forall|t: int| j <= t < clen ==> cur@[t] == wc_matches(psi, c@.skip(t)),
            decreases j,
        {
            let jj = j - 1;
            let ghost cs = c@.skip(jj as int);
            proof {
                assert(psi[0] == p@[im1 as int]);
                assert(cs.len() == clen - jj);
                assert(psi.skip(1) =~= p@.skip(im1 + 1));
                assert(cs.skip(1) =~= c@.skip(jj + 1));
                assert(cs[0] == c@[jj as int]);
            }
            let v: bool;
            if pc == '*' {
                let down = row_a[jj];
                let right = if jj + 1 < clen {
                    cur[jj + 1]
                } else {
                    cur_tail
                };
                v = down || right;
            } else if pc == '?' {
                v = if jj + 1 < clen {
                    row_a[jj + 1]
                } else {
                    tail_a
                };
            } else {
                let m = c[jj] == pc;
                let rest = if jj + 1 < clen {
                    row_a[jj + 1]
                } else {
                    tail_a
                };
                v = m && rest;
            }
            proof {
                assert(v == wc_matches(psi, cs));
            }
            cur[jj] = v;
            j = jj;
        }
        row_a = cur;
        tail_a = cur_tail;
        i = im1;
    }
    let r = if clen == 0 {
        tail_a
    } else {
        row_a[0]
    };
    proof {
        assert(p@.skip(0) =~= p@);
        assert(c@.skip(0) =~= c@);
        if clen == 0 {
            assert(c@.skip(clen as int) =~= c@);
        }
    }
    r
}

} // verus!
