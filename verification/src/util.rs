//! Small helpers shared by the parser, the automaton builder and the matcher:
//! conversions between `&str`/`String` and `Vec<char>`, and the UTF-8 width
//! of a character (spans are byte offsets, while parsing walks characters).

use vstd::prelude::*;
use vstd::std_specs::iter::IteratorSpec;
use vstd::string::StrSliceExecFns;

verus! {

/// Number of bytes the UTF-8 encoding of `c` occupies.
pub open spec fn utf8_len(c: char) -> nat {
    if (c as u32) < 0x80 {
        1
    } else if (c as u32) < 0x800 {
        2
    } else if (c as u32) < 0x10000 {
        3
    } else {
        4
    }
}

/// Total UTF-8 byte length of the first `n` characters of `s`.
pub open spec fn byte_len(s: Seq<char>, n: int) -> int
    decreases n,
{
    if n <= 0 {
        0
    } else {
        byte_len(s, n - 1) + utf8_len(s[n - 1])
    }
}

pub proof fn lemma_byte_len_mono(s: Seq<char>, m: int, n: int)
    requires
        m <= n,
    ensures
        byte_len(s, m) <= byte_len(s, n),
    decreases n - m,
{
    if m < n {
        lemma_byte_len_mono(s, m, n - 1);
    }
}

/// UTF-8 byte width of one character.
pub fn utf8_len_exec(c: char) -> (r: usize)
    ensures
        r == utf8_len(c),
{
    let u = c as u32;
    if u < 0x80 {
        1
    } else if u < 0x800 {
        2
    } else if u < 0x10000 {
        3
    } else {
        4
    }
}

/// The characters of `s`, collected into a vector.
pub fn chars_of(s: &str) -> (r: Vec<char>)
    ensures
        r@ == s@,
{
    broadcast use vstd::string::axiom_spec_iter;
    broadcast use vstd::string::next_postcondition;

    let n = s.unicode_len();
    let mut it = s.chars();
    let mut r: Vec<char> = Vec::new();
    let mut fuel = n;
    loop
        invariant
            r@ + it.remaining() == s@,
            fuel == it.remaining().len(),
        ensures
            r@ == s@,
        decreases fuel,
    {
        match it.next() {
            Some(c) => {
                r.push(c);
                fuel = fuel - 1;
            },
            None => {
                proof {
                    assert(r@ =~= s@);
                }
                break;
            },
        }
    }
    r
}

/// Byte length of `s`.
/// Relies on `str::len`: the length of a string in bytes, which equals the
/// sum of the UTF-8 widths of its characters.
#[verifier::external_body]
pub fn str_byte_len(s: &str) -> (n: usize)
    ensures
        n == byte_len(s@, s@.len() as int),
{
    s.len()
}

/// Index of the first occurrence of `sep` in `s`, or `s.len()` if none.
pub open spec fn first_sep(s: Seq<char>, sep: char) -> int
    decreases s.len(),
{
    if s.len() == 0 {
        0
    } else if s[0] == sep {
        0
    } else {
        1 + first_sep(s.skip(1), sep)
    }
}

pub proof fn lemma_first_sep(s: Seq<char>, sep: char)
    ensures
        0 <= first_sep(s, sep) <= s.len(),
        first_sep(s, sep) < s.len() ==> s[first_sep(s, sep)] == sep,
        forall|k: int| 0 <= k < first_sep(s, sep) ==> s[k] != sep,
    decreases s.len(),
{
    if s.len() > 0 && s[0] != sep {
        lemma_first_sep(s.skip(1), sep);
        let i = first_sep(s, sep);
        assert forall|k: int| 0 <= k < i implies s[k] != sep by {
            if k > 0 {
                assert(s.skip(1)[k - 1] != sep);
            }
        }
        if i < s.len() {
            assert(s[i] == s.skip(1)[i - 1]);
        }
    }
}

/// `s` split on `sep`. Splitting the empty sequence gives one empty segment,
/// as `str::split` does.
pub open spec fn split_on(s: Seq<char>, sep: char) -> Seq<Seq<char>>
    decreases s.len(),
    via split_on_decreases
{
    let i = first_sep(s, sep);
    if i == s.len() {
        seq![s]
    } else {
        seq![s.take(i)] + split_on(s.skip(i + 1), sep)
    }
}

#[via_fn]
proof fn split_on_decreases(s: Seq<char>, sep: char) {
    lemma_first_sep(s, sep);
}

pub proof fn lemma_split_on_len(s: Seq<char>, sep: char)
    ensures
        split_on(s, sep).len() >= 1,
    decreases s.len(),
{
    lemma_first_sep(s, sep);
}

/// Splitting distributes over appending one character: a separator starts a
/// new empty segment, any other character extends the last segment.
pub proof fn lemma_split_snoc(u: Seq<char>, c: char, sep: char)
    ensures
        split_on(u, sep).len() >= 1,
        c == sep ==> split_on(u + seq![c], sep) == split_on(u, sep).push(Seq::<char>::empty()),
        c != sep ==> split_on(u + seq![c], sep) == split_on(u, sep).update(
            split_on(u, sep).len() - 1,
            split_on(u, sep).last().push(c),
        ),
    decreases u.len(),
{
    lemma_split_on_len(u, sep);
    lemma_first_sep(u, sep);
    lemma_first_sep(u + seq![c], sep);
    let v = u + seq![c];
    let i = first_sep(u, sep);
    let iv = first_sep(v, sep);
    if i == u.len() {
        // no separator in u
        if c == sep {
            assert(iv == u.len()) by {
                if iv < u.len() {
                    assert(v[iv] == u[iv]);
                }
                assert(v[u.len() as int] == sep);
                assert(forall|k: int| 0 <= k < u.len() ==> v[k] == u[k] && #[trigger] v[k] != sep);
                if iv > u.len() {
                    assert(v[u.len() as int] != sep);
                }
            }
            assert(v.take(iv) =~= u);
            assert(v.skip(iv + 1) =~= Seq::<char>::empty());
            assert(split_on(v, sep) =~= seq![u] + split_on(Seq::<char>::empty(), sep));
            assert(first_sep(Seq::<char>::empty(), sep) == 0);
            assert(split_on(Seq::<char>::empty(), sep) =~= seq![Seq::<char>::empty()]);
            assert(split_on(v, sep) =~= split_on(u, sep).push(Seq::<char>::empty()));
        } else {
            assert(iv == v.len()) by {
                assert(forall|k: int| 0 <= k < u.len() ==> v[k] == u[k] && #[trigger] v[k] != sep);
                assert(v[u.len() as int] == c);
                if iv < v.len() {
                    assert(v[iv] == sep);
                }
            }
            assert(split_on(v, sep) =~= seq![v]);
            assert(v =~= u.push(c));
            assert(split_on(u, sep) =~= seq![u]);
            assert(split_on(v, sep) =~= split_on(u, sep).update(0, u.push(c)));
        }
    } else {
        // u has a separator at i < u.len(): v keeps it as the first one
        assert(iv == i) by {
            assert(v[i] == u[i]);
            assert(forall|k: int| 0 <= k < i ==> v[k] == u[k] && #[trigger] v[k] != sep);
            if iv < i {
                assert(u[iv] != sep && v[iv] == u[iv]);
            }
            if iv > i {
                assert(v[i] != sep);
            }
        }
        assert(v.take(i) =~= u.take(i));
        assert(v.skip(i + 1) =~= u.skip(i + 1) + seq![c]);
        lemma_split_snoc(u.skip(i + 1), c, sep);
        let tailsplit = split_on(u.skip(i + 1), sep);
        if c == sep {
            assert(split_on(v, sep) =~= seq![u.take(i)] + tailsplit.push(Seq::<char>::empty()));
            assert(split_on(u, sep).push(Seq::<char>::empty()) =~= seq![u.take(i)]
                + tailsplit.push(Seq::<char>::empty()));
        } else {
            let n = split_on(u, sep).len() - 1;
            assert(split_on(u, sep).last() == tailsplit.last());
            assert(split_on(v, sep) =~= seq![u.take(i)] + tailsplit.update(
                tailsplit.len() - 1,
                tailsplit.last().push(c),
            ));
            assert(split_on(u, sep).update(n, split_on(u, sep).last().push(c)) =~= seq![u.take(i)]
                + tailsplit.update(tailsplit.len() - 1, tailsplit.last().push(c)));
        }
    }
}

/// Split `s` on `sep`, as executable code.
pub fn split_chars(s: &Vec<char>, sep: char) -> (r: Vec<Vec<char>>)
    ensures
        r.deep_view() == split_on(s@, sep),
{
    let mut r: Vec<Vec<char>> = Vec::new();
    let mut cur: Vec<char> = Vec::new();
    let mut i: usize = 0;
    proof {
        assert(s@.take(0) =~= Seq::<char>::empty());
        assert(first_sep(Seq::<char>::empty(), sep) == 0);
        assert(split_on(Seq::<char>::empty(), sep) =~= seq![Seq::<char>::empty()]);
        assert(r.deep_view().push(cur@) =~= split_on(s@.take(0), sep));
    }
    while i < s.len()
        invariant
            i <= s@.len(),
            r.deep_view().push(cur@) == split_on(s@.take(i as int), sep),
        decreases s@.len() - i,
    {
        let c = s[i];
        let ghost prev = r.deep_view();
        let ghost prevcur = cur@;
        proof {
            assert(s@.take(i + 1) =~= s@.take(i as int) + seq![c]);
            lemma_split_snoc(s@.take(i as int), c, sep);
        }
        if c == sep {
            r.push(cur);
            cur = Vec::new();
            proof {
                assert(r.deep_view() =~~= prev.push(prevcur));
                assert(r.deep_view().push(cur@) =~~= split_on(s@.take(i + 1), sep));
            }
        } else {
            cur.push(c);
            proof {
                assert(r.deep_view() == prev);
                assert(cur@ == prevcur.push(c));
                assert(r.deep_view().push(cur@) =~~= prev.push(prevcur).update(
                    prev.push(prevcur).len() - 1,
                    prevcur.push(c),
                ));
                assert(r.deep_view().push(cur@) =~~= split_on(s@.take(i + 1), sep));
            }
        }
        i = i + 1;
    }
    proof {
        assert(s@.take(s@.len() as int) =~= s@);
    }
    let ghost prev = r.deep_view();
    let ghost prevcur = cur@;
    r.push(cur);
    proof {
        assert(r.deep_view() =~~= prev.push(prevcur));
        assert(r.deep_view() =~~= split_on(s@, sep));
    }
    r
}

/// Leading empty segments (from a leading `/` on a path) are dropped.
pub open spec fn strip_leading_empties(segs: Seq<Seq<char>>) -> Seq<Seq<char>>
    decreases segs.len(),
{
    if segs.len() > 0 && segs[0].len() == 0 {
        strip_leading_empties(segs.drop_first())
    } else {
        segs
    }
}

/// The segments of a path: split on `/`, with leading empty segments
/// stripped. The empty path has no segments.
pub open spec fn path_segments(path: Seq<char>) -> Seq<Seq<char>> {
    strip_leading_empties(split_on(path, '/'))
}

/// If the first `idx` segments are empty and segment `idx` (if any) is not,
/// stripping drops exactly those `idx` segments.
pub proof fn lemma_strip_leading(segs: Seq<Seq<char>>, idx: int)
    requires
        0 <= idx <= segs.len(),
        forall|t: int| 0 <= t < idx ==> (#[trigger] segs[t]).len() == 0,
        idx < segs.len() ==> segs[idx].len() > 0,
    ensures
        strip_leading_empties(segs) == segs.skip(idx),
    decreases idx,
{
    if idx == 0 {
        assert(segs.skip(0) =~= segs);
    } else {
        assert(segs[0].len() == 0);
        let d = segs.drop_first();
        assert forall|t: int| 0 <= t < idx - 1 implies (#[trigger] d[t]).len() == 0 by {
            assert(d[t] == segs[t + 1]);
        }
        if idx - 1 < d.len() {
            assert(d[idx - 1] == segs[idx]);
        }
        lemma_strip_leading(d, idx - 1);
        assert(d.skip(idx - 1) =~= segs.skip(idx));
    }
}

/// Are two character vectors equal?
pub fn chars_eq(a: &Vec<char>, b: &Vec<char>) -> (r: bool)
    ensures
        r == (a@ == b@),
{
    if a.len() != b.len() {
        return false;
    }
    let mut k: usize = 0;
    while k < a.len()
        invariant
            k <= a@.len(),
            a@.len() == b@.len(),
            forall|t: int| 0 <= t < k ==> a@[t] == b@[t],
        decreases a@.len() - k,
    {
        if a[k] != b[k] {
            return false;
        }
        k = k + 1;
    }
    proof {
        assert(a@ =~= b@);
    }
    true
}

/// A copy of a character vector.
pub fn clone_chars(v: &Vec<char>) -> (r: Vec<char>)
    ensures
        r@ == v@,
{
    let mut r: Vec<char> = Vec::new();
    let mut k: usize = 0;
    while k < v.len()
        invariant
            k <= v@.len(),
            r@ == v@.take(k as int),
        decreases v@.len() - k,
    {
        r.push(v[k]);
        proof {
            assert(r@ =~= v@.take(k + 1));
        }
        k = k + 1;
    }
    proof {
        assert(v@.take(v@.len() as int) =~= v@);
    }
    r
}

/// The deep view of a vector of character vectors, element by element.
pub proof fn lemma_deep_view_chars(v: &Vec<Vec<char>>)
    ensures
        v.deep_view().len() == v@.len(),
        forall|i: int| 0 <= i < v@.len() ==> v.deep_view()[i] == v@[i]@,
{
    assert forall|i: int| 0 <= i < v@.len() implies v.deep_view()[i] == v@[i]@ by {
        assert(v.deep_view()[i] =~= v@[i]@);
    }
}

/// Drop leading empty segments from a split path.
pub fn strip_segs(raw: &Vec<Vec<char>>) -> (r: Vec<Vec<char>>)
    ensures
        r.deep_view() == strip_leading_empties(raw.deep_view()),
{
    proof {
        lemma_deep_view_chars(raw);
    }
    let n = raw.len();
    let mut idx: usize = 0;
    while idx < n && raw[idx].len() == 0
        invariant
            idx <= n,
            n == raw@.len(),
            forall|t: int| 0 <= t < raw@.len() ==> #[trigger] raw.deep_view()[t] == raw@[t]@,
            forall|t: int| 0 <= t < idx ==> (#[trigger] raw.deep_view()[t]).len() == 0,
        decreases n - idx,
    {
        idx = idx + 1;
    }
    let mut r: Vec<Vec<char>> = Vec::new();
    let mut i = idx;
    while i < n
        invariant
            idx <= i <= n,
            n == raw@.len(),
            forall|t: int| 0 <= t < raw@.len() ==> #[trigger] raw.deep_view()[t] == raw@[t]@,
            r.deep_view() == raw.deep_view().subrange(idx as int, i as int),
        decreases n - i,
    {
        let ghost prevdv = r.deep_view();
        r.push(clone_chars(&raw[i]));
        proof {
            lemma_deep_view_chars(&r);
            assert(r.deep_view() =~~= raw.deep_view().subrange(idx as int, i + 1)) by {
                assert forall|t: int| 0 <= t < r@.len() implies r.deep_view()[t]
                    == raw.deep_view().subrange(idx as int, i + 1)[t] by {
                    if t < prevdv.len() {
                        assert(r.deep_view()[t] == prevdv[t]);
                        assert(prevdv[t] == raw.deep_view().subrange(idx as int, i as int)[t]);
                    } else {
                        assert(r.deep_view()[t] == r@[t]@);
                        assert(r@[t]@ == raw@[i as int]@);
                    }
                }
            }
        }
        i = i + 1;
    }
    proof {
        lemma_strip_leading(raw.deep_view(), idx as int);
        assert(raw.deep_view().subrange(idx as int, n as int) =~~= raw.deep_view().skip(
            idx as int,
        ));
    }
    r
}

/// A `String` holding exactly the characters of `v`.
/// Relies on `String`'s `FromIterator<char>` implementation: collecting
/// characters yields the string of those characters in order.
#[verifier::external_body]
pub fn string_of(v: &Vec<char>) -> (s: String)
    ensures
        s@ == v@,
{
    v.iter().collect()
}

} // verus!
