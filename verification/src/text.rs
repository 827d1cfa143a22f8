//! Rendering integers as decimal text for the emitted command arguments, and
//! scanning text: substring search, line splitting, trimming.

use vstd::prelude::*;
use vstd::string::{StrSliceExecFns, StringExecFns};

verus! {

pub open spec fn dec_digit_char(d: int) -> char {
    if d == 0 {
        '0'
    } else if d == 1 {
        '1'
    } else if d == 2 {
        '2'
    } else if d == 3 {
        '3'
    } else if d == 4 {
        '4'
    } else if d == 5 {
        '5'
    } else if d == 6 {
        '6'
    } else if d == 7 {
        '7'
    } else if d == 8 {
        '8'
    } else {
        '9'
    }
}

/// The decimal digits of `n`, most significant first.
pub open spec fn dec_nat(n: nat) -> Seq<char>
    decreases n,
{
    if n < 10 {
        seq![dec_digit_char(n as int)]
    } else {
        dec_nat(n / 10).push(dec_digit_char((n % 10) as int))
    }
}

/// The decimal rendering of `v`, with a leading `-` when negative.
pub open spec fn dec_int(v: int) -> Seq<char> {
    if v < 0 {
        seq!['-'] + dec_nat((-v) as nat)
    } else {
        dec_nat(v as nat)
    }
}

/// Relies on `i32`'s `Display` implementation via `format!`: it prints the
/// value's decimal digits, preceded by `-` when the value is negative.
#[verifier::external_body]
pub(crate) fn i32_to_string(v: i32) -> (r: String)
    ensures
        r@ == dec_int(v as int),
{
    format!("{}", v)
}

/// Two decimal numbers joined by a literal `x`, as in `1920x1080`.
pub open spec fn dims_token(a: int, b: int) -> Seq<char> {
    dec_int(a) + "x"@ + dec_int(b)
}

pub fn dims_string(a: i32, b: i32) -> (r: String)
    ensures
        r@ == dims_token(a as int, b as int),
{
    let s = i32_to_string(a);
    let s = s.concat("x");
    let t = i32_to_string(b);
    s.concat(t.as_str())
}

/// `pat` stands in `s` at position `p`.
pub open spec fn spec_contains_at(s: Seq<char>, pat: Seq<char>, p: int) -> bool {
    0 <= p && p + pat.len() <= s.len() && s.subrange(p, p + pat.len()) == pat
}

/// `pat` stands somewhere in `s`.
pub open spec fn spec_contains(s: Seq<char>, pat: Seq<char>) -> bool {
    exists|p: int| spec_contains_at(s, pat, p)
}

/// The first position where `pat` stands in `s`, if any.
pub open spec fn spec_find(s: Seq<char>, pat: Seq<char>) -> Option<int>
    decreases s.len(),
{
    if pat.len() == 0 {
        Some(0)
    } else if s.len() < pat.len() {
        None
    } else if s.take(pat.len() as int) == pat {
        Some(0)
    } else {
        match spec_find(s.drop_first(), pat) {
            None => None,
            Some(q) => Some(q + 1),
        }
    }
}

proof fn lemma_spec_find_is(s: Seq<char>, pat: Seq<char>, p: int)
    requires
        pat.len() > 0,
        0 <= p,
        p + pat.len() <= s.len(),
        forall|q: int| 0 <= q < p ==> !spec_contains_at(s, pat, q),
        spec_contains_at(s, pat, p),
    ensures
        spec_find(s, pat) == Some(p),
    decreases p,
{
    if p == 0 {
        assert(s.take(pat.len() as int) =~= s.subrange(0, pat.len() as int));
    } else {
        assert(!spec_contains_at(s, pat, 0));
        assert(s.take(pat.len() as int) =~= s.subrange(0, pat.len() as int));
        assert(s.take(pat.len() as int) != pat);
        let t = s.drop_first();
        assert forall|q: int| 0 <= q < p - 1 implies !spec_contains_at(t, pat, q) by {
            assert(t.subrange(q, q + pat.len()) =~= s.subrange(q + 1, q + 1 + pat.len()));
            assert(!spec_contains_at(s, pat, q + 1));
        }
        assert(t.subrange(p - 1, p - 1 + pat.len()) =~= s.subrange(p, p + pat.len()));
        lemma_spec_find_is(t, pat, p - 1);
    }
}

proof fn lemma_spec_find_none(s: Seq<char>, pat: Seq<char>)
    requires
        pat.len() > 0,
        forall|q: int| 0 <= q ==> !spec_contains_at(s, pat, q),
    ensures
        spec_find(s, pat) is None,
    decreases s.len(),
{
    if s.len() >= pat.len() {
        assert(!spec_contains_at(s, pat, 0));
        assert(s.take(pat.len() as int) =~= s.subrange(0, pat.len() as int));
        let t = s.drop_first();
        assert forall|q: int| 0 <= q implies !spec_contains_at(t, pat, q) by {
            if q + pat.len() <= t.len() {
                assert(t.subrange(q, q + pat.len()) =~= s.subrange(q + 1, q + 1 + pat.len()));
                assert(!spec_contains_at(s, pat, q + 1));
            }
        }
        lemma_spec_find_none(t, pat);
    }
}

/// `spec_find` finds a position exactly when `pat` stands somewhere in `s`.
pub proof fn lemma_find_contains(s: Seq<char>, pat: Seq<char>)
    ensures
        spec_find(s, pat) is Some <==> spec_contains(s, pat),
        match spec_find(s, pat) {
            Some(p) => spec_contains_at(s, pat, p),
            None => !spec_contains(s, pat),
        },
    decreases s.len(),
{
    if pat.len() == 0 {
        assert(s.subrange(0, 0) =~= pat);
        assert(spec_contains_at(s, pat, 0));
    } else if s.len() < pat.len() {
        assert forall|q: int| 0 <= q implies !spec_contains_at(s, pat, q) by {}
    } else if s.take(pat.len() as int) == pat {
        assert(s.take(pat.len() as int) =~= s.subrange(0, pat.len() as int));
        assert(spec_contains_at(s, pat, 0));
    } else {
        lemma_find_contains(s.drop_first(), pat);
        let t = s.drop_first();
        match spec_find(t, pat) {
            Some(q) => {
                assert(t.subrange(q, q + pat.len()) =~= s.subrange(q + 1, q + 1 + pat.len()));
                assert(spec_contains_at(s, pat, q + 1));
            },
            None => {
                assert(s.take(pat.len() as int) =~= s.subrange(0, pat.len() as int));
                assert forall|q: int| 0 <= q implies !spec_contains_at(s, pat, q) by {
                    if 0 < q && q + pat.len() <= s.len() {
                        assert(t.subrange(q - 1, q - 1 + pat.len()) =~= s.subrange(
                            q,
                            q + pat.len(),
                        ));
                        assert(!spec_contains_at(t, pat, q - 1));
                    }
                }
            },
        }
    }
}

fn matches_at(s: &str, n: usize, pat: &str, m: usize, p: usize) -> (b: bool)
    requires
        n == s@.len(),
        m == pat@.len(),
        p + m <= n,
    ensures
        b == spec_contains_at(s@, pat@, p as int),
{
    let mut t: usize = 0;
    while t < m
        invariant
            t <= m,
            p + m <= n,
            n == s@.len(),
            m == pat@.len(),
            forall|u: int| 0 <= u < t ==> s@[p + u] == pat@[u],
        decreases m - t,
    {
        if s.get_char(p + t) != pat.get_char(t) {
            proof {
                assert(s@.subrange(p as int, p + m)[t as int] != pat@[t as int]);
            }
            return false;
        }
        t = t + 1;
    }
    proof {
        assert(s@.subrange(p as int, p + m) =~= pat@);
    }
    true
}

/// The first position where `pat` stands in `s`, if any.
pub fn find_sub(s: &str, pat: &str) -> (r: Option<usize>)
    ensures
        match r {
            Some(p) => spec_find(s@, pat@) == Some(p as int),
            None => spec_find(s@, pat@) is None,
        },
{
    let n: usize = s.unicode_len();
    let m: usize = pat.unicode_len();
    if m == 0 {
        return Some(0);
    }
    if m > n {
        proof {
            assert forall|q: int| 0 <= q implies !spec_contains_at(s@, pat@, q) by {}
            lemma_spec_find_none(s@, pat@);
        }
        return None;
    }
    let mut p: usize = 0;
    while p <= n - m
        invariant
            0 < m <= n,
            n == s@.len(),
            m == pat@.len(),
            p <= n - m + 1,
            forall|q: int| 0 <= q < p ==> !spec_contains_at(s@, pat@, q),
        decreases n - m - p + 1,
    {
        if matches_at(s, n, pat, m, p) {
            proof {
                lemma_spec_find_is(s@, pat@, p as int);
            }
            return Some(p);
        }
        p = p + 1;
    }
    proof {
        assert forall|q: int| 0 <= q implies !spec_contains_at(s@, pat@, q) by {
            if q < p {
            } else {
                assert(q + pat@.len() > s@.len());
            }
        }
        lemma_spec_find_none(s@, pat@);
    }
    None
}

/// Whether `pat` stands somewhere in `s`.
pub fn contains_sub(s: &str, pat: &str) -> (b: bool)
    ensures
        b == spec_contains(s@, pat@),
{
    proof {
        lemma_find_contains(s@, pat@);
    }
    match find_sub(s, pat) {
        Some(_) => true,
        None => false,
    }
}

/// First position of the character `c` in `s`, or `s.len()`.
pub open spec fn find_char(s: Seq<char>, c: char) -> nat
    decreases s.len(),
{
    if s.len() == 0 {
        0
    } else if s[0] == c {
        0
    } else {
        1 + find_char(s.drop_first(), c)
    }
}

proof fn lemma_find_char_is(s: Seq<char>, c: char, j: int)
    requires
        0 <= j <= s.len(),
        forall|t: int| 0 <= t < j ==> s[t] != c,
        j == s.len() || s[j] == c,
    ensures
        find_char(s, c) == j,
    decreases j,
{
    if j > 0 {
        assert(s[0] != c);
        lemma_find_char_is(s.drop_first(), c, j - 1);
    }
}

/// A line with its trailing carriage return removed.
pub open spec fn strip_cr(l: Seq<char>) -> Seq<char> {
    if l.len() > 0 && l.last() == '\r' {
        l.drop_last()
    } else {
        l
    }
}

/// The lines of `s`: split at each newline, one trailing carriage return
/// stripped per split line, no empty line after a final newline.
pub open spec fn spec_lines(s: Seq<char>) -> Seq<Seq<char>>
    decreases s.len(),
{
    if s.len() == 0 {
        Seq::empty()
    } else {
        let j = find_char(s, '\n') as int;
        if j < s.len() {
            seq![strip_cr(s.take(j))] + spec_lines(s.skip(j + 1))
        } else {
            seq![s]
        }
    }
}

/// Splits `s` into its lines.
pub fn split_lines(s: &str) -> (r: Vec<String>)
    ensures
        r.deep_view() == spec_lines(s@),
{
    let n: usize = s.unicode_len();
    let mut r: Vec<String> = Vec::new();
    let mut pos: usize = 0;
    proof {
        assert(s@.skip(0) =~= s@);
        assert(r.deep_view() + spec_lines(s@) =~~= spec_lines(s@));
    }
    while pos < n
        invariant
            pos <= n,
            n == s@.len(),
            r.deep_view() + spec_lines(s@.skip(pos as int)) =~~= spec_lines(s@),
        decreases n - pos,
    {
        let ghost t = s@.skip(pos as int);
        let mut j: usize = pos;
        while j < n
            invariant
                pos <= j <= n,
                n == s@.len(),
                forall|u: int| pos <= u < j ==> s@[u] != '\n',
            ensures
                j == n || s@[j as int] == '\n',
            decreases n - j,
        {
            if s.get_char(j) == '\n' {
                break;
            }
            j = j + 1;
        }
        proof {
            lemma_find_char_is(t, '\n', j - pos);
        }
        let mut end: usize = j;
        if end > pos && s.get_char(end - 1) == '\r' {
            end = end - 1;
        }
        proof {
            assert(t.take(j - pos) =~= s@.subrange(pos as int, j as int));
            if j < n {
                assert(strip_cr(t.take(j - pos)) =~= s@.subrange(pos as int, end as int));
            } else {
                assert(t =~= s@.subrange(pos as int, n as int));
            }
        }
        if j < n {
            let piece = s.substring_char(pos, end);
            r.push(piece.to_owned());
            proof {
                assert(t.skip(j - pos + 1) =~= s@.skip(j as int + 1));
            }
            pos = j + 1;
        } else {
            let piece = s.substring_char(pos, n);
            r.push(piece.to_owned());
            pos = n;
        }
        proof {
            assert(s@.skip(n as int) =~= Seq::<char>::empty());
            assert(r.deep_view() + spec_lines(s@.skip(pos as int)) =~~= spec_lines(s@));
        }
    }
    proof {
        assert(s@.skip(n as int) =~= Seq::<char>::empty());
        assert(r.deep_view() =~~= spec_lines(s@));
    }
    r
}

/// The whitespace characters recognised when trimming probe output.
pub open spec fn spec_is_ws(c: char) -> bool {
    c == ' ' || c == '\t' || c == '\r' || c == '\n'
}

pub fn is_ws_char(c: char) -> (b: bool)
    ensures
        b == spec_is_ws(c),
{
    c == ' ' || c == '\t' || c == '\r' || c == '\n'
}

/// `s` without leading whitespace.
pub open spec fn spec_trim_start(s: Seq<char>) -> Seq<char>
    decreases s.len(),
{
    if s.len() > 0 && spec_is_ws(s[0]) {
        spec_trim_start(s.drop_first())
    } else {
        s
    }
}

/// `s` without trailing whitespace.
pub open spec fn spec_trim_end(s: Seq<char>) -> Seq<char>
    decreases s.len(),
{
    if s.len() > 0 && spec_is_ws(s.last()) {
        spec_trim_end(s.drop_last())
    } else {
        s
    }
}

/// `s` without leading and trailing whitespace.
pub open spec fn spec_trim(s: Seq<char>) -> Seq<char> {
    spec_trim_end(spec_trim_start(s))
}

proof fn lemma_trim_start_is(s: Seq<char>, a: int)
    requires
        0 <= a <= s.len(),
        forall|t: int| 0 <= t < a ==> spec_is_ws(s[t]),
        a == s.len() || !spec_is_ws(s[a]),
    ensures
        spec_trim_start(s) == s.skip(a),
    decreases a,
{
    if a == 0 {
        assert(s.skip(0) =~= s);
    } else {
        assert(spec_is_ws(s[0]));
        lemma_trim_start_is(s.drop_first(), a - 1);
        assert(s.drop_first().skip(a - 1) =~= s.skip(a));
    }
}

proof fn lemma_trim_end_is(s: Seq<char>, b: int)
    requires
        0 <= b <= s.len(),
        forall|t: int| b <= t < s.len() ==> spec_is_ws(s[t]),
        b == 0 || !spec_is_ws(s[b - 1]),
    ensures
        spec_trim_end(s) == s.take(b),
    decreases s.len(),
{
    if b == s.len() {
        assert(s.take(b) =~= s);
        if s.len() > 0 {
            assert(!spec_is_ws(s.last()));
        }
    } else {
        assert(spec_is_ws(s.last()));
        lemma_trim_end_is(s.drop_last(), b);
        assert(s.drop_last().take(b) =~= s.take(b));
    }
}

/// Trims leading and trailing whitespace.
pub fn trim_str(s: &str) -> (r: String)
    ensures
        r@ == spec_trim(s@),
{
    let n: usize = s.unicode_len();
    let mut a: usize = 0;
    while a < n
        invariant
            a <= n,
            n == s@.len(),
            forall|t: int| 0 <= t < a ==> spec_is_ws(s@[t]),
        ensures
            a == n || !spec_is_ws(s@[a as int]),
        decreases n - a,
    {
        if !is_ws_char(s.get_char(a)) {
            break;
        }
        a = a + 1;
    }
    proof {
        lemma_trim_start_is(s@, a as int);
    }
    let mut b: usize = n;
    while b > a
        invariant
            a <= b <= n,
            n == s@.len(),
            forall|t: int| b <= t < n ==> spec_is_ws(s@[t]),
        ensures
            b == a || !spec_is_ws(s@[b - 1]),
        decreases b,
    {
        if !is_ws_char(s.get_char(b - 1)) {
            break;
        }
        b = b - 1;
    }
    proof {
        let st = s@.skip(a as int);
        assert forall|t: int| b - a <= t < st.len() implies spec_is_ws(st[t]) by {
            assert(st[t] == s@[t + a]);
        }
        if b > a {
            assert(st[b - a - 1] == s@[b as int - 1]);
        }
        lemma_trim_end_is(st, b - a);
        assert(st.take(b - a) =~= s@.subrange(a as int, b as int));
    }
    let piece = s.substring_char(a, b);
    piece.to_owned()
}

/// `s` with every occurrence of the character `c` removed.
pub open spec fn remove_char(s: Seq<char>, c: char) -> Seq<char>
    decreases s.len(),
{
    if s.len() == 0 {
        Seq::empty()
    } else if s[0] == c {
        remove_char(s.drop_first(), c)
    } else {
        seq![s[0]] + remove_char(s.drop_first(), c)
    }
}

/// Removes every single quote, as the probe does to alphanumeric strings.
pub fn remove_quotes(s: &str) -> (r: String)
    ensures
        r@ == remove_char(s@, '\''),
{
    let n: usize = s.unicode_len();
    let mut r: String = String::new();
    let mut i: usize = 0;
    proof {
        assert(s@.skip(0) =~= s@);
        assert(r@ + remove_char(s@, '\'') =~= remove_char(s@, '\''));
    }
    while i < n
        invariant
            i <= n,
            n == s@.len(),
            r@ + remove_char(s@.skip(i as int), '\'') =~= remove_char(s@, '\''),
        decreases n - i,
    {
        proof {
            assert(s@.skip(i as int)[0] == s@[i as int]);
            assert(s@.skip(i as int).drop_first() =~= s@.skip(i as int + 1));
        }
        if s.get_char(i) != '\'' {
            let piece = s.substring_char(i, i + 1);
            r.append(piece);
            proof {
                assert(s@.subrange(i as int, i as int + 1) =~= seq![s@[i as int]]);
            }
        }
        i = i + 1;
        proof {
            assert(r@ + remove_char(s@.skip(i as int), '\'') =~= remove_char(s@, '\''));
        }
    }
    proof {
        assert(s@.skip(n as int) =~= Seq::<char>::empty());
        assert(r@ =~= remove_char(s@, '\''));
    }
    r
}

} // verus!
