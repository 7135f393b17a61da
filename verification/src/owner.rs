//! Classifying owner strings: a user handle, a team handle, or an email
//! address. Classification is pure; anything that fits none of the three
//! shapes is an invalid owner.

use vstd::prelude::*;


verus! {

/// The kind of principal an owner string denotes.
#[derive(Debug, Clone, Copy, PartialEq, Eq, Structural)]
pub enum OwnerKind {
    User,
    Team,
    Email,
}

pub open spec fn is_alpha(c: char) -> bool {
    ('A' <= c && c <= 'Z') || ('a' <= c && c <= 'z')
}

pub open spec fn is_digit(c: char) -> bool {
    '0' <= c && c <= '9'
}

/// Characters allowed in the local part of an email address.
pub open spec fn is_local_char(c: char) -> bool {
    is_alpha(c) || is_digit(c) || c == '.' || c == '_' || c == '\'' || c == '%' || c == '+' || c
        == '-'
}

/// Characters allowed in the domain of an email address.
pub open spec fn is_domain_char(c: char) -> bool {
    is_alpha(c) || is_digit(c) || c == '.' || c == '-'
}

/// Characters allowed in a user name (after the `@`).
pub open spec fn is_user_char(c: char) -> bool {
    is_alpha(c) || is_digit(c) || c == '-' || c == '_'
}

/// Characters allowed in an organisation name (between `@` and `/`).
pub open spec fn is_org_char(c: char) -> bool {
    is_alpha(c) || is_digit(c) || c == '-'
}

/// `s` decomposes as `<local>@<domain>.<tld>` with the `@` at `a` and the
/// final dot at `d`: a nonempty local part, a nonempty domain, and an
/// alphabetic top-level domain of two to six characters.
pub open spec fn email_decomp(s: Seq<char>, a: int, d: int) -> bool {
    &&& 0 < a
    &&& a + 1 < d
    &&& d < s.len()
    &&& s[a] == '@'
    &&& s[d] == '.'
    &&& forall|k: int| 0 <= k < a ==> is_local_char(#[trigger] s[k])
    &&& forall|k: int| a < k < d ==> is_domain_char(#[trigger] s[k])
    &&& 2 <= s.len() - (d + 1) <= 6
    &&& forall|k: int| d < k < s.len() ==> is_alpha(#[trigger] s[k])
}

/// `<local>@<domain>.<tld>`.
pub open spec fn is_email(s: Seq<char>) -> bool {
    exists|a: int, d: int| email_decomp(s, a, d)
}

/// `@name` with a nonempty name of user characters.
pub open spec fn is_user_handle(s: Seq<char>) -> bool {
    s.len() >= 2 && s[0] == '@' && (forall|k: int| 1 <= k < s.len() ==> is_user_char(#[trigger] s[k]))
}

/// `s` decomposes as `@org/name` with the `/` at `sl`: a nonempty
/// organisation of organisation characters, a nonempty name of user
/// characters.
pub open spec fn team_decomp(s: Seq<char>, sl: int) -> bool {
    &&& 1 < sl
    &&& sl + 1 < s.len()
    &&& s[0] == '@'
    &&& s[sl] == '/'
    &&& forall|k: int| 1 <= k < sl ==> is_org_char(#[trigger] s[k])
    &&& forall|k: int| sl < k < s.len() ==> is_user_char(#[trigger] s[k])
}

/// `@org/name`.
pub open spec fn is_team_handle(s: Seq<char>) -> bool {
    exists|sl: int| team_decomp(s, sl)
}

/// The kind an owner string classifies to, trying email first, then user,
/// then team.
pub open spec fn classify_owner(s: Seq<char>) -> Option<OwnerKind> {
    if is_email(s) {
        Some(OwnerKind::Email)
    } else if is_user_handle(s) {
        Some(OwnerKind::User)
    } else if is_team_handle(s) {
        Some(OwnerKind::Team)
    } else {
        None
    }
}

/// Character classes used by the classifier's scanning loops.
#[derive(Debug, Clone, Copy, PartialEq, Eq, Structural)]
enum CharClass {
    Local,
    Domain,
    Alpha,
    UserChar,
    OrgChar,
}

spec fn class_holds(cls: CharClass, c: char) -> bool {
    match cls {
        CharClass::Local => is_local_char(c),
        CharClass::Domain => is_domain_char(c),
        CharClass::Alpha => is_alpha(c),
        CharClass::UserChar => is_user_char(c),
        CharClass::OrgChar => is_org_char(c),
    }
}

fn char_in_class(cls: CharClass, c: char) -> (r: bool)
    ensures
        r == class_holds(cls, c),
{
    let alpha = (c >= 'A' && c <= 'Z') || (c >= 'a' && c <= 'z');
    let digit = c >= '0' && c <= '9';
    match cls {
        CharClass::Local => alpha || digit || c == '.' || c == '_' || c == '\'' || c == '%' || c
            == '+' || c == '-',
        CharClass::Domain => alpha || digit || c == '.' || c == '-',
        CharClass::Alpha => alpha,
        CharClass::UserChar => alpha || digit || c == '-' || c == '_',
        CharClass::OrgChar => alpha || digit || c == '-',
    }
}

/// Do all of `v[from..to]` lie in the class?
fn all_in_class(v: &Vec<char>, from: usize, to: usize, cls: CharClass) -> (r: bool)
    requires
        from <= to <= v@.len(),
    ensures
        r == forall|k: int| from <= k < to ==> class_holds(cls, #[trigger] v@[k]),
{
    let mut k = from;
    while k < to
        invariant
            from <= k <= to <= v@.len(),
            forall|t: int| from <= t < k ==> class_holds(cls, #[trigger] v@[t]),
        decreases to - k,
    {
        if !char_in_class(cls, v[k]) {
            return false;
        }
        k = k + 1;
    }
    true
}

/// Index of the first occurrence of `ch`.
fn find_first(v: &Vec<char>, ch: char) -> (r: Option<usize>)
    ensures
        (match r {
            Some(i) => i < v@.len() && v@[i as int] == ch && forall|k: int|
                0 <= k < i ==> v@[k] != ch,
            None => forall|k: int| 0 <= k < v@.len() ==> v@[k] != ch,
        }),
{
    let mut k: usize = 0;
    while k < v.len()
        invariant
            k <= v@.len(),
            forall|t: int| 0 <= t < k ==> v@[t] != ch,
        decreases v@.len() - k,
    {
        if v[k] == ch {
            return Some(k);
        }
        k = k + 1;
    }
    None
}

/// Index of the last occurrence of `ch`.
fn find_last(v: &Vec<char>, ch: char) -> (r: Option<usize>)
    ensures
        (match r {
            Some(i) => i < v@.len() && v@[i as int] == ch && forall|k: int|
                i < k < v@.len() ==> v@[k] != ch,
            None => forall|k: int| 0 <= k < v@.len() ==> v@[k] != ch,
        }),
{
    let mut k: usize = v.len();
    while k > 0
        invariant
            k <= v@.len(),
            forall|t: int| k <= t < v@.len() ==> v@[t] != ch,
        decreases k,
    {
        let k1 = k - 1;
        if v[k1] == ch {
            return Some(k1);
        }
        k = k1;
    }
    None
}

/// Is `v` an email address?
fn check_email(v: &Vec<char>) -> (r: bool)
    ensures
        r == is_email(v@),
{
    let s = v;
    let n = s.len();
    match find_first(s, '@') {
        None => {
            proof {
                if is_email(s@) {
                    let (a, d) = choose|a: int, d: int| email_decomp(s@, a, d);
                    assert(s@[a] == '@');
                    assert(false);
                }
            }
            false
        },
        Some(a) => {
            // every admissible local part excludes '@', so the '@' must be the
            // first one; the tld excludes '.', so the '.' must be the last one
            if a == 0 || !all_in_class(s, 0, a, CharClass::Local) {
                proof {
                    lemma_email_at_fixed(s@, a as int);
                }
                return false;
            }
            match find_last(s, '.') {
                None => {
                    proof {
                        if is_email(s@) {
                            let (aa, d) = choose|aa: int, dd: int| email_decomp(s@, aa, dd);
                            assert(s@[d] == '.');
                            assert(false);
                        }
                    }
                    false
                },
                Some(d) => {
                    let tld_len_ok = n - d >= 3 && n - d <= 7;
                    let r = d > a + 1 && tld_len_ok && all_in_class(s, a + 1, d, CharClass::Domain)
                        && all_in_class(s, d + 1, n, CharClass::Alpha);
                    proof {
                        let ai = a as int;
                        let di = d as int;
                        if r {
                            assert(email_decomp(s@, ai, di));
                        } else {
                            if is_email(s@) {
                                lemma_email_at_fixed(s@, ai);
                                let dd = choose|dd: int| email_decomp(s@, ai, dd);
                                assert(!is_alpha('.'));
                                if dd < di {
                                    assert(is_alpha(s@[di]));
                                    assert(false);
                                }
                                if dd > di {
                                    assert(s@[dd] != '.');
                                    assert(false);
                                }
                                assert(email_decomp(s@, ai, di));
                                assert(false);
                            }
                        }
                    }
                    r
                },
            }
        },
    }
}

/// In any email decomposition the `@` is the first `@` of the string.
proof fn lemma_email_at_fixed(s: Seq<char>, a0: int)
    requires
        0 <= a0 < s.len(),
        s[a0] == '@',
        forall|k: int| 0 <= k < a0 ==> s[k] != '@',
    ensures
        is_email(s) ==> a0 > 0,
        is_email(s) ==> (forall|k: int| 0 <= k < a0 ==> is_local_char(#[trigger] s[k])),
        is_email(s) ==> exists|d: int| email_decomp(s, a0, d),
{
    if is_email(s) {
        let (a, d) = choose|a: int, d: int| email_decomp(s, a, d);
        // the chosen '@' can be no earlier and no later than the first one
        assert(!is_local_char('@'));
        assert(!is_domain_char('@'));
        assert(!is_alpha('@'));
        if a < a0 {
            assert(s[a] != '@');
            assert(false);
        }
        if a > a0 {
            assert(is_local_char(s[a0]));
            assert(false);
        }
        assert(email_decomp(s, a0, d));
    }
}

/// Is `v` a user handle?
fn check_user(v: &Vec<char>) -> (r: bool)
    ensures
        r == is_user_handle(v@),
{
    v.len() >= 2 && v[0] == '@' && all_in_class(v, 1, v.len(), CharClass::UserChar)
}

/// Is `v` a team handle?
fn check_team(v: &Vec<char>) -> (r: bool)
    ensures
        r == is_team_handle(v@),
{
    let s = v;
    if s.len() < 1 || s[0] != '@' {
        return false;
    }
    match find_first(s, '/') {
        None => {
            proof {
                if is_team_handle(s@) {
                    let slx = choose|slx: int| team_decomp(s@, slx);
                    assert(s@[slx] == '/');
                    assert(false);
                }
            }
            false
        },
        Some(sl) => {
            let r = sl > 1 && sl + 1 < s.len() && all_in_class(s, 1, sl, CharClass::OrgChar)
                && all_in_class(s, sl + 1, s.len(), CharClass::UserChar);
            proof {
                if r {
                    assert(team_decomp(s@, sl as int));
                } else if is_team_handle(s@) {
                    let slx = choose|slx: int| team_decomp(s@, slx);
                    assert(!is_org_char('/'));
                    assert(!is_user_char('/'));
                    if slx < sl as int {
                        assert(s@[slx] != '/');
                        assert(false);
                    }
                    if slx > sl as int {
                        assert(is_org_char(s@[sl as int]));
                        assert(false);
                    }
                    assert(team_decomp(s@, sl as int));
                    assert(false);
                }
            }
            r
        },
    }
}

/// An owner: a value string and its kind.
#[derive(Debug, Clone, PartialEq, Eq)]
pub struct Owner {
    pub value: String,
    pub kind: OwnerKind,
}

/// Model of an owner: the characters of its value and its kind.
#[verifier::ext_equal]
pub ghost struct OwnerView {
    pub value: Seq<char>,
    pub kind: OwnerKind,
}

impl View for Owner {
    type V = OwnerView;

    open spec fn view(&self) -> OwnerView {
        OwnerView { value: self.value@, kind: self.kind }
    }
}

/// The error for a string that is no valid owner.
#[derive(Debug, Clone)]
pub struct InvalidOwnerError {
    pub value: String,
}

impl InvalidOwnerError {
    /// The error text, naming the offending string.
    pub fn message(&self) -> (r: String)
        ensures
            r@ == "invalid owner: "@ + self.value@,
    {
        let mut m = "invalid owner: ".to_owned();
        m.append(self.value.as_str());
        m
    }
}

impl Owner {
    pub fn new(value: String, kind: OwnerKind) -> (r: Owner)
        ensures
            r@ == (OwnerView { value: value@, kind }),
    {
        Owner { value, kind }
    }

    /// Classify `value`, trying email first, then user handle, then team
    /// handle; anything else is an invalid owner.
    pub fn try_from(value: String) -> (r: Result<Owner, InvalidOwnerError>)
        ensures
            (match r {
                Ok(o) => classify_owner(value@) == Some(o.kind) && o.value@ == value@,
                Err(e) => classify_owner(value@) is None && e.value@ == value@,
            }),
    {
        let chars = crate::util::chars_of(value.as_str());
        if check_email(&chars) {
            Ok(Owner { value, kind: OwnerKind::Email })
        } else if check_user(&chars) {
            Ok(Owner { value, kind: OwnerKind::User })
        } else if check_team(&chars) {
            Ok(Owner { value, kind: OwnerKind::Team })
        } else {
            Err(InvalidOwnerError { value })
        }
    }

    /// A copy of this owner.
    pub fn duplicate(&self) -> (r: Owner)
        ensures
            r@ == self@,
    {
        Owner { value: clone_string(&self.value), kind: self.kind }
    }
}

/// A copy of a string.
pub fn clone_string(s: &String) -> (r: String)
    ensures
        r@ == s@,
{
    let mut r = String::new();
    r.append(s.as_str());
    r
}

} // verus!
