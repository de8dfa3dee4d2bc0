//! Release-version comparison and the update report built from a release.
//!
//! Fetching the release list and swapping the binary are I/O and stay with
//! the application; what is decided here is whether a tag names a newer
//! version than the running one, and what the report says.

use vstd::prelude::*;
use crate::text::same_text;
use vstd::string::*;

verus! {

// ---------------------------------------------------------------------------
// Splitting a version string
// ---------------------------------------------------------------------------

/// Position of the first `c` in `t`, or `-1` when there is none.
pub open spec fn first_index_of(t: Seq<char>, c: char) -> int
    decreases t.len(),
{
    if t.len() == 0 {
        -1
    } else {
        let r = first_index_of(t.drop_last(), c);
        if r >= 0 {
            r
        } else if t.last() == c {
            t.len() - 1
        } else {
            -1
        }
    }
}

/// The pieces of `t` between occurrences of `c` (as `str::split`): one more
/// piece than there are separators, empty pieces kept.
pub open spec fn split_on(t: Seq<char>, c: char) -> Seq<Seq<char>>
    decreases t.len(),
{
    if t.len() == 0 {
        seq![Seq::<char>::empty()]
    } else {
        let p = split_on(t.drop_last(), c);
        if t.last() == c {
            p.push(Seq::<char>::empty())
        } else {
            p.update(p.len() - 1, p.last().push(t.last()))
        }
    }
}

/// The version without its build metadata (everything from the first `+`).
pub open spec fn version_body(s: Seq<char>) -> Seq<char> {
    let p = first_index_of(s, '+');
    if p < 0 {
        s
    } else {
        s.take(p)
    }
}

/// The version core: the body up to its first `-`.
pub open spec fn core_text(s: Seq<char>) -> Seq<char> {
    let v = version_body(s);
    let m = first_index_of(v, '-');
    if m < 0 {
        v
    } else {
        v.take(m)
    }
}

/// The pre-release part: the body after its first `-`, if there is one.
pub open spec fn pre_release_text(s: Seq<char>) -> Option<Seq<char>> {
    let v = version_body(s);
    let m = first_index_of(v, '-');
    if m < 0 {
        None
    } else {
        Some(v.skip(m + 1))
    }
}

// ---------------------------------------------------------------------------
// Ordering identifiers
// ---------------------------------------------------------------------------

/// `c` is one of `'0'..='9'`.
pub open spec fn is_ascii_digit(c: char) -> bool {
    '0' <= c && c <= '9'
}

/// Numeric value of an ASCII digit.
pub open spec fn digit_value(c: char) -> int {
    (c as int) - ('0' as int)
}

/// An identifier made of digits only (and not empty).
pub open spec fn is_numeric(id: Seq<char>) -> bool {
    id.len() > 0 && forall|i: int| 0 <= i < id.len() ==> is_ascii_digit(#[trigger] id[i])
}

/// `10^n`.
pub open spec fn pow10(n: nat) -> int
    decreases n,
{
    if n == 0 {
        1
    } else {
        10 * pow10((n - 1) as nat)
    }
}

/// Decimal value of a string of digits (leading zeros allowed).
pub open spec fn digits_value(d: Seq<char>) -> int
    decreases d.len(),
{
    if d.len() == 0 {
        0
    } else {
        digit_value(d[0]) * pow10((d.len() - 1) as nat) + digits_value(d.drop_first())
    }
}

/// `-1`, `0` or `1` as `x` is below, equal to or above `y`.
pub open spec fn sign_of(x: int, y: int) -> int {
    if x < y {
        -1
    } else if x > y {
        1
    } else {
        0
    }
}

/// Character-by-character order by code point; a proper prefix ranks lower.
pub open spec fn order_chars(a: Seq<char>, b: Seq<char>) -> int
    decreases a.len(),
{
    if a.len() == 0 || b.len() == 0 {
        sign_of(a.len() as int, b.len() as int)
    } else if (a[0] as u32) < (b[0] as u32) {
        -1
    } else if (a[0] as u32) > (b[0] as u32) {
        1
    } else {
        order_chars(a.drop_first(), b.drop_first())
    }
}

/// SemVer identifier order: numeric identifiers by value, others by code
/// point, a numeric identifier below a non-numeric one.
pub open spec fn order_ident(a: Seq<char>, b: Seq<char>) -> int {
    if is_numeric(a) && is_numeric(b) {
        sign_of(digits_value(a), digits_value(b))
    } else if is_numeric(a) {
        -1
    } else if is_numeric(b) {
        1
    } else {
        order_chars(a, b)
    }
}

/// Identifier lists compared left to right; when one list is a prefix of
/// the other, the longer one ranks higher.
pub open spec fn order_ids(a: Seq<Seq<char>>, b: Seq<Seq<char>>) -> int
    decreases a.len(),
{
    if a.len() == 0 || b.len() == 0 {
        sign_of(a.len() as int, b.len() as int)
    } else if order_ident(a[0], b[0]) != 0 {
        order_ident(a[0], b[0])
    } else {
        order_ids(a.drop_first(), b.drop_first())
    }
}

/// SemVer precedence of two version strings: the dot-separated core first;
/// on an equal core a version without a pre-release ranks above one with a
/// pre-release, and two pre-releases compare by their dot-separated
/// identifiers. Build metadata (after `+`) is ignored.
pub open spec fn order_version(a: Seq<char>, b: Seq<char>) -> int {
    let c = order_ids(split_on(core_text(a), '.'), split_on(core_text(b), '.'));
    if c != 0 {
        c
    } else {
        match (pre_release_text(a), pre_release_text(b)) {
            (None, None) => 0,
            (None, Some(_)) => 1,
            (Some(_), None) => -1,
            (Some(x), Some(y)) => order_ids(split_on(x, '.'), split_on(y, '.')),
        }
    }
}

/// `candidate` has strictly higher SemVer precedence than `current`.
pub open spec fn spec_semver_newer(candidate: Seq<char>, current: Seq<char>) -> bool {
    order_version(candidate, current) > 0
}

// ---------------------------------------------------------------------------
// Facts about the orders
// ---------------------------------------------------------------------------

/// Orders `ab`, `bc`, `ac` of a triple agree with transitivity.
pub open spec fn transitive_triple(ab: int, bc: int, ac: int) -> bool {
    &&& (ab <= 0 && bc <= 0 ==> ac <= 0)
    &&& (ab <= 0 && bc <= 0 && (ab < 0 || bc < 0) ==> ac < 0)
}

proof fn lemma_order_chars(a: Seq<char>, b: Seq<char>, c: Seq<char>)
    ensures
        order_chars(a, a) == 0,
        order_chars(a, b) == -order_chars(b, a),
        -1 <= order_chars(a, b) <= 1,
        transitive_triple(order_chars(a, b), order_chars(b, c), order_chars(a, c)),
    decreases a.len(),
{
    if a.len() > 0 && b.len() > 0 && c.len() > 0 {
        lemma_order_chars(a.drop_first(), b.drop_first(), c.drop_first());
    } else if a.len() > 0 && b.len() > 0 {
        lemma_order_chars(a.drop_first(), b.drop_first(), c);
    } else if a.len() > 0 {
        lemma_order_chars(a.drop_first(), b, c);
    }
}

proof fn lemma_pow10_facts(m: nat, n: nat)
    ensures
        pow10(n) >= 1,
        m <= n ==> pow10(m) <= pow10(n),
    decreases n,
{
    if n > 0 {
        lemma_pow10_facts(m, (n - 1) as nat);
    }
}

proof fn lemma_digits_value_bounds(d: Seq<char>)
    requires
        forall|i: int| 0 <= i < d.len() ==> is_ascii_digit(#[trigger] d[i]),
    ensures
        0 <= digits_value(d) < pow10(d.len()),
        d.len() > 0 && d[0] != '0' ==> digits_value(d) >= pow10((d.len() - 1) as nat),
    decreases d.len(),
{
    if d.len() > 0 {
        let rest = d.drop_first();
        lemma_digits_value_bounds(rest);
        let p = pow10((d.len() - 1) as nat);
        lemma_pow10_facts(0, (d.len() - 1) as nat);
        let x = digit_value(d[0]);
        assert(0 <= x <= 9);
        assert(0 <= x * p <= 9 * p) by (nonlinear_arith)
            requires
                0 <= x <= 9,
                p >= 1,
        ;
        if d[0] != '0' {
            assert(x >= 1);
            assert(x * p >= p) by (nonlinear_arith)
                requires
                    x >= 1,
                    p >= 1,
            ;
        }
    }
}

/// Leading zeros do not change a value.
proof fn lemma_digits_value_skip_zeros(d: Seq<char>, k: int)
    requires
        0 <= k <= d.len(),
        forall|j: int| 0 <= j < k ==> d[j] == '0',
    ensures
        digits_value(d) == digits_value(d.skip(k)),
    decreases k,
{
    if k > 0 {
        assert(digit_value(d[0]) == 0);
        lemma_digits_value_skip_zeros(d.drop_first(), k - 1);
        assert(d.drop_first().skip(k - 1) =~= d.skip(k));
    } else {
        assert(d.skip(0) =~= d);
    }
}

/// For digit strings of equal length, code-point order is numeric order.
proof fn lemma_same_length_digits(a: Seq<char>, b: Seq<char>)
    requires
        a.len() == b.len(),
        forall|i: int| 0 <= i < a.len() ==> is_ascii_digit(#[trigger] a[i]),
        forall|i: int| 0 <= i < b.len() ==> is_ascii_digit(#[trigger] b[i]),
    ensures
        order_chars(a, b) == sign_of(digits_value(a), digits_value(b)),
    decreases a.len(),
{
    if a.len() > 0 {
        let (ra, rb) = (a.drop_first(), b.drop_first());
        lemma_same_length_digits(ra, rb);
        lemma_digits_value_bounds(ra);
        lemma_digits_value_bounds(rb);
        let p = pow10((a.len() - 1) as nat);
        lemma_pow10_facts(0, (a.len() - 1) as nat);
        let (x, y) = (digit_value(a[0]), digit_value(b[0]));
        if x < y {
            assert(x * p + p <= y * p) by (nonlinear_arith)
                requires
                    x < y,
                    p >= 1,
            ;
        } else if x > y {
            assert(y * p + p <= x * p) by (nonlinear_arith)
                requires
                    y < x,
                    p >= 1,
            ;
        }
    }
}

proof fn lemma_order_ident(a: Seq<char>, b: Seq<char>, c: Seq<char>)
    ensures
        order_ident(a, a) == 0,
        order_ident(a, b) == -order_ident(b, a),
        -1 <= order_ident(a, b) <= 1,
        transitive_triple(order_ident(a, b), order_ident(b, c), order_ident(a, c)),
{
    lemma_order_chars(a, b, c);
    lemma_order_chars(b, a, c);
    lemma_order_chars(a, a, c);
}

proof fn lemma_order_ids(a: Seq<Seq<char>>, b: Seq<Seq<char>>, c: Seq<Seq<char>>)
    ensures
        order_ids(a, a) == 0,
        order_ids(a, b) == -order_ids(b, a),
        -1 <= order_ids(a, b) <= 1,
        transitive_triple(order_ids(a, b), order_ids(b, c), order_ids(a, c)),
    decreases a.len(),
{
    if a.len() > 0 {
        lemma_order_ident(a[0], a[0], a[0]);
        if b.len() > 0 {
            lemma_order_ident(a[0], b[0], a[0]);
            if c.len() > 0 {
                lemma_order_ident(a[0], b[0], c[0]);
                lemma_order_ident(c[0], b[0], a[0]);
                lemma_order_ident(b[0], c[0], a[0]);
                lemma_order_ids(a.drop_first(), b.drop_first(), c.drop_first());
            } else {
                lemma_order_ids(a.drop_first(), b.drop_first(), a.drop_first());
            }
        } else {
            lemma_order_ids(a.drop_first(), a.drop_first(), a.drop_first());
        }
    }
}

proof fn lemma_order_version(a: Seq<char>, b: Seq<char>, c: Seq<char>)
    ensures
        order_version(a, a) == 0,
        order_version(a, b) == -order_version(b, a),
        transitive_triple(order_version(a, b), order_version(b, c), order_version(a, c)),
{
    let (ca, cb, cc) = (
        split_on(core_text(a), '.'),
        split_on(core_text(b), '.'),
        split_on(core_text(c), '.'),
    );
    lemma_order_ids(ca, cb, cc);
    lemma_order_ids(cc, cb, ca);
    lemma_order_ids(ca, ca, ca);
    lemma_order_ids(cb, ca, cc);
    lemma_order_ids(ca, cc, cb);
    if let (Some(x), Some(y), Some(z)) = (
        pre_release_text(a),
        pre_release_text(b),
        pre_release_text(c),
    ) {
        lemma_order_ids(split_on(x, '.'), split_on(y, '.'), split_on(z, '.'));
    }
    if let Some(x) = pre_release_text(a) {
        lemma_order_ids(split_on(x, '.'), split_on(x, '.'), split_on(x, '.'));
        if let Some(y) = pre_release_text(b) {
            lemma_order_ids(split_on(x, '.'), split_on(y, '.'), split_on(x, '.'));
        }
    }
}

/// No version is newer than itself.
pub proof fn lemma_semver_newer_irreflexive(v: Seq<char>)
    ensures
        !spec_semver_newer(v, v),
{
    lemma_order_version(v, v, v);
}

/// If `a` is newer than `b`, then `b` is not newer than `a`.
pub proof fn lemma_semver_newer_asymmetric(a: Seq<char>, b: Seq<char>)
    ensures
        spec_semver_newer(a, b) ==> !spec_semver_newer(b, a),
{
    lemma_order_version(a, b, a);
}

/// "Newer than" is transitive.
pub proof fn lemma_semver_newer_transitive(a: Seq<char>, b: Seq<char>, c: Seq<char>)
    ensures
        spec_semver_newer(a, b) && spec_semver_newer(b, c) ==> spec_semver_newer(a, c),
{
    lemma_order_version(c, b, a);
    lemma_order_version(a, b, c);
    lemma_order_version(b, c, a);
    lemma_order_version(a, c, b);
}

} // verus!

verus! {

/// The texts of a list of character vectors.
pub open spec fn texts(v: Seq<Vec<char>>) -> Seq<Seq<char>> {
    v.map_values(|x: Vec<char>| x@)
}

/// The characters of `s`.
fn chars_of(s: &str) -> (v: Vec<char>)
    ensures
        v@ == s@,
{
    let n = s.unicode_len();
    let mut v: Vec<char> = Vec::new();
    let mut i: usize = 0;
    while i < n
        invariant
            n == s@.len(),
            i <= n,
            v@ == s@.take(i as int),
        decreases n - i,
    {
        v.push(s.get_char(i));
        assert(s@.take(i + 1) =~= s@.take(i as int).push(s@[i as int]));
        i = i + 1;
    }
    assert(s@.take(n as int) =~= s@);
    v
}

/// Position of the first `c` among the first `end` characters of `v`.
fn find_first(v: &Vec<char>, end: usize, c: char) -> (r: Option<usize>)
    requires
        end <= v@.len(),
    ensures
        match r {
            Some(i) => i < end && i as int == first_index_of(v@.take(end as int), c),
            None => first_index_of(v@.take(end as int), c) == -1,
        },
{
    let mut found: Option<usize> = None;
    let mut i: usize = 0;
    assert(v@.take(0) =~= Seq::<char>::empty());
    while i < end
        invariant
            end <= v@.len(),
            i <= end,
            match found {
                Some(k) => k < i && k as int == first_index_of(v@.take(i as int), c),
                None => first_index_of(v@.take(i as int), c) == -1,
            },
        decreases end - i,
    {
        assert(v@.take(i + 1).drop_last() =~= v@.take(i as int));
        if found.is_none() && v[i] == c {
            found = Some(i);
        }
        i = i + 1;
    }
    found
}

/// The pieces of `v[lo..hi]` between occurrences of `c`.
fn split_range(v: &Vec<char>, lo: usize, hi: usize, c: char) -> (parts: Vec<Vec<char>>)
    requires
        lo <= hi <= v@.len(),
    ensures
        texts(parts@) == split_on(v@.subrange(lo as int, hi as int), c),
{
    let mut parts: Vec<Vec<char>> = Vec::new();
    let mut cur: Vec<char> = Vec::new();
    let mut i: usize = lo;
    assert(v@.subrange(lo as int, lo as int) =~= Seq::<char>::empty());
    assert(texts(parts@).push(cur@) =~= seq![Seq::<char>::empty()]);
    while i < hi
        invariant
            lo <= i <= hi,
            hi <= v@.len(),
            texts(parts@).push(cur@) == split_on(v@.subrange(lo as int, i as int), c),
        decreases hi - i,
    {
        let ghost t = v@.subrange(lo as int, i + 1);
        assert(t.drop_last() =~= v@.subrange(lo as int, i as int));
        assert(t.last() == v@[i as int]);
        let ch = v[i];
        let ghost before = texts(parts@).push(cur@);
        if ch == c {
            let done = cur;
            parts.push(done);
            cur = Vec::new();
            assert(texts(parts@).push(cur@) =~= before.push(Seq::<char>::empty()));
        } else {
            cur.push(ch);
            assert(texts(parts@).push(cur@) =~= before.update(
                before.len() - 1,
                before.last().push(ch),
            ));
        }
        i = i + 1;
    }
    let last = cur;
    parts.push(last);
    parts
}

/// Number of leading `'0'` characters of `d`.
fn leading_zeros(d: &Vec<char>) -> (k: usize)
    ensures
        k <= d@.len(),
        forall|j: int| 0 <= j < k ==> d@[j] == '0',
        k < d@.len() ==> d@[k as int] != '0',
{
    let mut k: usize = 0;
    while k < d.len() && d[k] == '0'
        invariant
            k <= d@.len(),
            forall|j: int| 0 <= j < k ==> d@[j] == '0',
        decreases d@.len() - k,
    {
        k = k + 1;
    }
    k
}

/// Code-point order of `a[i..]` and `b[j..]`.
fn order_chars_from(a: &Vec<char>, i: usize, b: &Vec<char>, j: usize) -> (r: i8)
    requires
        i <= a@.len(),
        j <= b@.len(),
    ensures
        r as int == order_chars(a@.skip(i as int), b@.skip(j as int)),
{
    let mut x = i;
    let mut y = j;
    while x < a.len() && y < b.len()
        invariant
            i <= x <= a@.len(),
            j <= y <= b@.len(),
            x - i == y - j,
            order_chars(a@.skip(i as int), b@.skip(j as int)) == order_chars(
                a@.skip(x as int),
                b@.skip(y as int),
            ),
        decreases a@.len() - x,
    {
        assert(a@.skip(x as int)[0] == a@[x as int]);
        assert(b@.skip(y as int)[0] == b@[y as int]);
        let (p, q) = (a[x] as u32, b[y] as u32);
        if p < q {
            return -1;
        }
        if p > q {
            return 1;
        }
        assert(a@.skip(x as int).drop_first() =~= a@.skip(x + 1));
        assert(b@.skip(y as int).drop_first() =~= b@.skip(y + 1));
        x = x + 1;
        y = y + 1;
    }
    let la = a.len() - x;
    let lb = b.len() - y;
    if la < lb {
        -1
    } else if la > lb {
        1
    } else {
        0
    }
}

/// Whether `d` is a non-empty string of ASCII digits.
fn is_numeric_chars(d: &Vec<char>) -> (b: bool)
    ensures
        b == is_numeric(d@),
{
    if d.len() == 0 {
        return false;
    }
    let mut k: usize = 0;
    while k < d.len()
        invariant
            k <= d@.len(),
            forall|j: int| 0 <= j < k ==> is_ascii_digit(#[trigger] d@[j]),
        decreases d@.len() - k,
    {
        if !('0' <= d[k] && d[k] <= '9') {
            return false;
        }
        k = k + 1;
    }
    true
}

/// Numeric order of two digit strings, by value.
fn order_numeric(a: &Vec<char>, b: &Vec<char>) -> (r: i8)
    requires
        is_numeric(a@),
        is_numeric(b@),
    ensures
        r as int == sign_of(digits_value(a@), digits_value(b@)),
{
    let za = leading_zeros(a);
    let zb = leading_zeros(b);
    let la = a.len() - za;
    let lb = b.len() - zb;
    let ghost sa = a@.skip(za as int);
    let ghost sb = b@.skip(zb as int);
    proof {
        lemma_digits_value_skip_zeros(a@, za as int);
        lemma_digits_value_skip_zeros(b@, zb as int);
        assert forall|k: int| 0 <= k < sa.len() implies is_ascii_digit(#[trigger] sa[k]) by {
            assert(sa[k] == a@[k + za]);
        }
        assert forall|k: int| 0 <= k < sb.len() implies is_ascii_digit(#[trigger] sb[k]) by {
            assert(sb[k] == b@[k + zb]);
        }
        lemma_digits_value_bounds(sa);
        lemma_digits_value_bounds(sb);
        if la > 0 {
            assert(sa[0] == a@[za as int]);
        }
        if lb > 0 {
            assert(sb[0] == b@[zb as int]);
        }
    }
    if la < lb {
        proof {
            lemma_pow10_facts(la as nat, (lb - 1) as nat);
        }
        -1
    } else if la > lb {
        proof {
            lemma_pow10_facts(lb as nat, (la - 1) as nat);
        }
        1
    } else {
        proof {
            lemma_same_length_digits(sa, sb);
        }
        order_chars_from(a, za, b, zb)
    }
}

/// SemVer order of two identifiers.
fn order_identifiers(a: &Vec<char>, b: &Vec<char>) -> (r: i8)
    ensures
        r as int == order_ident(a@, b@),
{
    let na = is_numeric_chars(a);
    let nb = is_numeric_chars(b);
    if na && nb {
        order_numeric(a, b)
    } else if na {
        -1
    } else if nb {
        1
    } else {
        assert(a@.skip(0) =~= a@);
        assert(b@.skip(0) =~= b@);
        order_chars_from(a, 0, b, 0)
    }
}

/// Order of two identifier lists.
fn order_identifier_lists(a: &Vec<Vec<char>>, b: &Vec<Vec<char>>) -> (r: i8)
    ensures
        r as int == order_ids(texts(a@), texts(b@)),
{
    let mut k: usize = 0;
    assert(texts(a@).skip(0) =~= texts(a@));
    assert(texts(b@).skip(0) =~= texts(b@));
    while k < a.len() && k < b.len()
        invariant
            k <= a@.len(),
            k <= b@.len(),
            order_ids(texts(a@), texts(b@)) == order_ids(
                texts(a@).skip(k as int),
                texts(b@).skip(k as int),
            ),
        decreases a@.len() - k,
    {
        assert(texts(a@).skip(k as int)[0] == a@[k as int]@);
        assert(texts(b@).skip(k as int)[0] == b@[k as int]@);
        let o = order_identifiers(&a[k], &b[k]);
        if o != 0 {
            return o;
        }
        assert(texts(a@).skip(k as int).drop_first() =~= texts(a@).skip(k + 1));
        assert(texts(b@).skip(k as int).drop_first() =~= texts(b@).skip(k + 1));
        k = k + 1;
    }
    if a.len() < b.len() {
        -1
    } else if a.len() > b.len() {
        1
    } else {
        0
    }
}

/// A version string split into its core identifiers and, when present, its
/// pre-release identifiers.
fn parse_version(s: &str) -> (r: (Vec<Vec<char>>, Option<Vec<Vec<char>>>))
    ensures
        texts(r.0@) == split_on(core_text(s@), '.'),
        match pre_release_text(s@) {
            None => r.1 is None,
            Some(x) => r.1 is Some && texts(r.1->0@) == split_on(x, '.'),
        },
{
    let v = chars_of(s);
    let n = v.len();
    assert(v@.take(n as int) =~= v@);
    let body_end = match find_first(&v, n, '+') {
        Some(p) => p,
        None => n,
    };
    assert(v@.take(body_end as int) =~= version_body(s@));
    match find_first(&v, body_end, '-') {
        None => {
            let core = split_range(&v, 0, body_end, '.');
            assert(v@.subrange(0, body_end as int) =~= core_text(s@));
            (core, None)
        },
        Some(m) => {
            let core = split_range(&v, 0, m, '.');
            assert(v@.subrange(0, m as int) =~= core_text(s@));
            let pre = split_range(&v, m + 1, body_end, '.');
            assert(v@.subrange(m + 1, body_end as int) =~= pre_release_text(s@)->0);
            (core, Some(pre))
        },
    }
}

/// Compare two SemVer strings, returning true when `candidate` has strictly
/// higher precedence than `current`: the numeric core first; on an equal
/// core a release ranks above its pre-releases, and pre-releases compare
/// identifier by identifier (numeric ones numerically, others in ASCII
/// order, numeric below alphanumeric, a longer list above its prefix).
pub fn semver_newer(candidate: &str, current: &str) -> (r: bool)
    ensures
        r == spec_semver_newer(candidate@, current@),
{
    let (ca, pa) = parse_version(candidate);
    let (cb, pb) = parse_version(current);
    let c = order_identifier_lists(&ca, &cb);
    if c != 0 {
        return c > 0;
    }
    match (pa, pb) {
        (None, None) => false,
        (None, Some(_)) => true,
        (Some(_), None) => false,
        (Some(x), Some(y)) => order_identifier_lists(&x, &y) > 0,
    }
}

} // verus!

verus! {

/// What an update check reports to the user.
#[derive(Debug, Clone)]
pub struct UpdateInfo {
    pub current: String,
    pub latest: String,
    pub url: String,
    pub update_available: bool,
}

/// `s` without its leading run of `'v'` characters (as `trim_start_matches('v')`).
pub open spec fn strip_leading_v(s: Seq<char>) -> Seq<char>
    decreases s.len(),
{
    if s.len() > 0 && s[0] == 'v' {
        strip_leading_v(s.drop_first())
    } else {
        s
    }
}

/// Drops every leading `'v'` of a release tag.
fn strip_version_prefix(tag: &str) -> (r: String)
    ensures
        r@ == strip_leading_v(tag@),
{
    let n = tag.unicode_len();
    let mut k: usize = 0;
    assert(tag@.skip(0) =~= tag@);
    while k < n && tag.get_char(k) == 'v'
        invariant
            n == tag@.len(),
            k <= n,
            strip_leading_v(tag@) == strip_leading_v(tag@.skip(k as int)),
        decreases n - k,
    {
        assert(tag@.skip(k as int).drop_first() =~= tag@.skip(k + 1));
        k = k + 1;
    }
    let rest = tag.substring_char(k, n);
    assert(rest@ =~= tag@.skip(k as int));
    rest.to_owned()
}

/// Report for the newest release `release_version` (a tag, possibly
/// `v`-prefixed) named `release_name`, against the running `current`: an
/// update is available when the latest version differs from the running
/// one.
pub fn release_update_info(release_version: &str, release_name: &str, current: &str) -> (info:
    UpdateInfo)
    ensures
        info.current@ == current@,
        info.latest@ == strip_leading_v(release_version@),
        info.url@ == release_name@,
        info.update_available == (strip_leading_v(release_version@) != current@),
{
    let latest = strip_version_prefix(release_version);
    let update_available = !same_text(latest.as_str(), current);
    UpdateInfo {
        current: current.to_owned(),
        latest,
        url: release_name.to_owned(),
        update_available,
    }
}

/// Report after `installed_version` replaced the running `current` binary.
pub fn installed_update_info(current: &str, installed_version: &str) -> (info: UpdateInfo)
    ensures
        info.current@ == current@,
        info.latest@ == installed_version@,
        info.url@ == Seq::<char>::empty(),
        !info.update_available,
{
    UpdateInfo {
        current: current.to_owned(),
        latest: installed_version.to_owned(),
        url: String::new(),
        update_available: false,
    }
}

} // verus!

verus! {

/// Precedence is decided by the dot-separated core first: when the core of
/// `a` ranks above the core of `b`, `a` is newer, and when it ranks below,
/// `a` is not newer — whatever pre-release parts either carries.
pub proof fn lemma_core_decides(a: Seq<char>, b: Seq<char>)
    ensures
        order_ids(split_on(core_text(a), '.'), split_on(core_text(b), '.')) > 0
            ==> spec_semver_newer(a, b),
        order_ids(split_on(core_text(a), '.'), split_on(core_text(b), '.')) < 0
            ==> !spec_semver_newer(a, b),
{
}

/// On equal cores, a version without a pre-release is newer than one with
/// a pre-release, and never the other way round.
pub proof fn lemma_release_above_pre_release(a: Seq<char>, b: Seq<char>)
    requires
        order_ids(split_on(core_text(a), '.'), split_on(core_text(b), '.')) == 0,
        pre_release_text(a) is None,
        pre_release_text(b) is Some,
    ensures
        spec_semver_newer(a, b),
        !spec_semver_newer(b, a),
{
    lemma_order_ids(
        split_on(core_text(a), '.'),
        split_on(core_text(b), '.'),
        split_on(core_text(a), '.'),
    );
}

} // verus!
