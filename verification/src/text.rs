//! Text utilities on Unicode scalar values: whitespace, normalisation,
//! substring tests and the Levenshtein distance.

use vstd::prelude::*;

verus! {

/// Unicode's `White_Space` property, which `char::is_whitespace` and
/// `str::trim` go by.
pub open spec fn is_white_space(c: char) -> bool {
    let u = c as u32;
    ||| 0x09 <= u <= 0x0D
    ||| u == 0x20
    ||| u == 0x85
    ||| u == 0xA0
    ||| u == 0x1680
    ||| 0x2000 <= u <= 0x200A
    ||| u == 0x2028
    ||| u == 0x2029
    ||| u == 0x202F
    ||| u == 0x205F
    ||| u == 0x3000
}

/// Whether `c` is a whitespace character (Unicode `White_Space`).
pub fn is_whitespace_char(c: char) -> (r: bool)
    ensures
        r == is_white_space(c),
{
    let u = c as u32;
    (0x09 <= u && u <= 0x0D) || u == 0x20 || u == 0x85 || u == 0xA0 || u == 0x1680 || (0x2000
        <= u && u <= 0x200A) || u == 0x2028 || u == 0x2029 || u == 0x202F || u == 0x205F || u
        == 0x3000
}

/// The characters of `s`, in order.
pub fn chars_of(s: &str) -> (v: Vec<char>)
    ensures
        v@ == s@,
{
    broadcast use vstd::string::group_string_axioms;

    let mut v: Vec<char> = Vec::new();
    for c in it: s.chars()
        invariant
            it.seq() == s@,
            v@ == it.seq().take(it.index() as int),
    {
        v.push(c);
    }
    v
}

/// Number of characters of `s`.
pub fn char_count(s: &str) -> (n: usize)
    ensures
        n == s@.len(),
{
    chars_of(s).len()
}

/// Appends `c` to `s` by `String::push`, which std documents as appending
/// the character to the end of the string. Trusted: the contract claims that
/// the string's characters afterwards are the old ones followed by `c`.
#[verifier::external_body]
fn push_char(s: &mut String, c: char)
    ensures
        final(s)@ == old(s)@.push(c),
{
    s.push(c);
}

/// `s` with every whitespace character removed.
pub open spec fn normalized(s: Seq<char>) -> Seq<char> {
    s.filter(|c: char| !is_white_space(c))
}

proof fn lemma_normalized_push(s: Seq<char>, c: char)
    ensures
        normalized(s.push(c)) == (if is_white_space(c) {
            normalized(s)
        } else {
            normalized(s).push(c)
        }),
{
    reveal(Seq::filter);
    assert(s.push(c).drop_last() == s);
    assert(s.push(c).last() == c);
}

/// Normalised text holds no whitespace character.
pub proof fn normalized_has_no_whitespace(s: Seq<char>)
    ensures
        forall|i: int| 0 <= i < normalized(s).len() ==> !is_white_space(#[trigger] normalized(s)[i]),
{
    assert forall|i: int| 0 <= i < normalized(s).len() implies !is_white_space(
        #[trigger] normalized(s)[i],
    ) by {
        s.lemma_filter_pred(|c: char| !is_white_space(c), i);
    }
}

/// Normalising twice is the same as normalising once.
pub proof fn normalize_idempotent(s: Seq<char>)
    ensures
        normalized(normalized(s)) == normalized(s),
    decreases s.len(),
{
    if s.len() > 0 {
        let t = s.drop_last();
        let c = s.last();
        assert(s == t.push(c));
        normalize_idempotent(t);
        lemma_normalized_push(t, c);
        if !is_white_space(c) {
            lemma_normalized_push(normalized(t), c);
        }
    } else {
        reveal(Seq::filter);
    }
}

/// Normalises text by removing all whitespace characters.
pub fn normalize(s: &str) -> (r: String)
    ensures
        r@ == normalized(s@),
{
    let v = chars_of(s);
    let mut r = String::new();
    let n = v.len();
    for i in 0..n
        invariant
            n == v@.len(),
            r@ == normalized(v@.take(i as int)),
    {
        let c = v[i];
        proof {
            assert(v@.take(i + 1) == v@.take(i as int).push(c));
            lemma_normalized_push(v@.take(i as int), c);
        }
        if !is_whitespace_char(c) {
            push_char(&mut r, c);
        }
    }
    assert(v@.take(n as int) == v@);
    r
}

/// Whether `needle` occurs in `hay` as a contiguous run of characters.
pub open spec fn occurs_in(hay: Seq<char>, needle: Seq<char>) -> bool {
    exists|k: int|
        0 <= k && k + needle.len() <= hay.len() && #[trigger] hay.subrange(k, k + needle.len())
            == needle
}

/// Length of the UTF-8 encoding of `s`, as `str::len` reports it.
pub open spec fn byte_len(s: Seq<char>) -> usize {
    vstd::utf8::encode_utf8(s).len() as usize
}

/// Either text is a proper part of the other: both are non-empty, their
/// byte lengths differ, and the shorter one occurs in the longer one.
pub open spec fn substring_either_way(a: Seq<char>, b: Seq<char>) -> bool {
    &&& a.len() > 0
    &&& b.len() > 0
    &&& byte_len(a) != byte_len(b)
    &&& if byte_len(a) < byte_len(b) {
        occurs_in(b, a)
    } else {
        occurs_in(a, b)
    }
}

fn matches_at(hay: &Vec<char>, needle: &Vec<char>, k: usize) -> (r: bool)
    requires
        k + needle@.len() <= hay@.len(),
    ensures
        r == (hay@.subrange(k as int, k + needle@.len()) == needle@),
{
    let n = needle.len();
    let hl = hay.len();
    let mut i: usize = 0;
    while i < n
        invariant
            n == needle@.len(),
            hl == hay@.len(),
            k + n <= hay@.len(),
            i <= n,
            forall|t: int| 0 <= t < i ==> hay@[k + t] == needle@[t],
        decreases n - i,
    {
        if hay[k + i] != needle[i] {
            assert(hay@.subrange(k as int, k + n)[i as int] != needle@[i as int]);
            return false;
        }
        i = i + 1;
    }
    assert(hay@.subrange(k as int, k + n) == needle@);
    true
}

/// Whether `needle` occurs in `hay`.
fn occurs(hay: &Vec<char>, needle: &Vec<char>) -> (r: bool)
    ensures
        r == occurs_in(hay@, needle@),
{
    let h = hay.len();
    let n = needle.len();
    if n > h {
        return false;
    }
    if n == 0 {
        assert(hay@.subrange(0int, 0int + needle@.len()) == needle@);
        return true;
    }
    let mut k: usize = 0;
    while k <= h - n
        invariant
            h == hay@.len(),
            n == needle@.len(),
            1 <= n <= h,
            k <= h - n + 1,
            forall|t: int| 0 <= t < k ==> #[trigger] hay@.subrange(t, t + n) != needle@,
        decreases h - n + 1 - k,
    {
        if matches_at(hay, needle, k) {
            return true;
        }
        k = k + 1;
    }
    false
}

/// Whether the text is empty or whitespace only (what `str::trim` leaves
/// empty).
pub open spec fn is_blank(s: Seq<char>) -> bool {
    forall|i: int| 0 <= i < s.len() ==> is_white_space(#[trigger] s[i])
}

/// Whether `s` is empty or whitespace only.
pub fn is_blank_text(s: &str) -> (r: bool)
    ensures
        r == is_blank(s@),
{
    let v = chars_of(s);
    let n = v.len();
    let mut i: usize = 0;
    while i < n
        invariant
            n == v@.len(),
            v@ == s@,
            i <= n,
            forall|j: int| 0 <= j < i ==> is_white_space(#[trigger] v@[j]),
        decreases n - i,
    {
        if !is_whitespace_char(v[i]) {
            return false;
        }
        i = i + 1;
    }
    true
}

/// Appends the characters of `t` to `s`.
fn push_text(s: &mut String, t: &str)
    ensures
        final(s)@ == old(s)@ + t@,
{
    let v = chars_of(t);
    let n = v.len();
    let ghost start = s@;
    let mut i: usize = 0;
    while i < n
        invariant
            n == v@.len(),
            v@ == t@,
            i <= n,
            s@ == start + v@.take(i as int),
        decreases n - i,
    {
        push_char(s, v[i]);
        assert(v@.take(i + 1) == v@.take(i as int).push(v@[i as int]));
        i = i + 1;
    }
    assert(v@.take(n as int) == v@);
}

/// The texts joined with single spaces between them.
pub open spec fn space_joined(list: Seq<Seq<char>>) -> Seq<char>
    decreases list.len(),
{
    if list.len() == 0 {
        Seq::empty()
    } else if list.len() == 1 {
        list[0]
    } else {
        space_joined(list.drop_last()) + seq![' '] + list.last()
    }
}

pub open spec fn text_views(list: Seq<String>) -> Seq<Seq<char>> {
    list.map_values(|t: String| t@)
}

/// Joins the texts with single spaces, as `join(" ")` does.
pub fn join_with_spaces(list: &[String]) -> (r: String)
    ensures
        r@ == space_joined(text_views(list@)),
{
    let n = list.len();
    let mut r = String::new();
    let ghost views = text_views(list@);
    let mut i: usize = 0;
    while i < n
        invariant
            n == list@.len(),
            views == text_views(list@),
            i <= n,
            r@ == space_joined(views.take(i as int)),
        decreases n - i,
    {
        assert(views.take(i + 1).drop_last() == views.take(i as int));
        assert(views.take(i + 1).last() == list@[i as int]@);
        if i > 0 {
            push_char(&mut r, ' ');
        } else {
            assert(views.take(0) =~= Seq::<Seq<char>>::empty());
        }
        push_text(&mut r, list[i].as_str());
        i = i + 1;
    }
    assert(views.take(n as int) == views);
    r
}

/// The texts that are not blank, in order.
pub open spec fn non_blank(list: Seq<Seq<char>>) -> Seq<Seq<char>> {
    list.filter(|t: Seq<char>| !is_blank(t))
}

/// Text of a frame made of several recognised boxes: the non-blank box
/// texts joined with single spaces.
pub fn aggregate_text(texts: &[String]) -> (r: String)
    ensures
        r@ == space_joined(non_blank(text_views(texts@))),
{
    let n = texts.len();
    let mut kept: Vec<String> = Vec::new();
    let ghost views = text_views(texts@);
    let mut i: usize = 0;
    while i < n
        invariant
            n == texts@.len(),
            views == text_views(texts@),
            i <= n,
            text_views(kept@) == non_blank(views.take(i as int)),
        decreases n - i,
    {
        proof {
            reveal(Seq::filter);
            assert(views.take(i + 1).drop_last() == views.take(i as int));
            assert(views.take(i + 1).last() == texts@[i as int]@);
        }
        let ghost before = kept@;
        if !is_blank_text(texts[i].as_str()) {
            kept.push(texts[i].clone());
            assert(text_views(kept@) =~= text_views(before).push(texts@[i as int]@));
        }
        i = i + 1;
    }
    assert(views.take(n as int) == views);
    join_with_spaces(kept.as_slice())
}

/// Whether either text is a proper substring of the other (the shorter one,
/// by byte length, occurs in the longer one; equal lengths never count).
pub fn is_substring_of(a: &str, b: &str) -> (r: bool)
    ensures
        r == substring_either_way(a@, b@),
{
    if a.is_empty() || b.is_empty() || a.len() == b.len() {
        return false;
    }
    let av = chars_of(a);
    let bv = chars_of(b);
    if a.len() < b.len() {
        occurs(&bv, &av)
    } else {
        occurs(&av, &bv)
    }
}

/// Being a substring of each other does not depend on the order of the
/// arguments.
pub proof fn substring_either_way_symmetric(a: Seq<char>, b: Seq<char>)
    ensures
        substring_either_way(a, b) == substring_either_way(b, a),
{
}

/// A text is never a substring of itself (equal lengths never count), and
/// a positive answer means the texts differ and one occurs in the other.
pub proof fn substring_either_way_proper(a: Seq<char>, b: Seq<char>)
    ensures
        !substring_either_way(a, a),
        substring_either_way(a, b) ==> a != b && (occurs_in(b, a) || occurs_in(a, b)),
{
}

pub open spec fn min3(x: nat, y: nat, z: nat) -> nat {
    if x <= y && x <= z {
        x
    } else if y <= z {
        y
    } else {
        z
    }
}

/// Levenshtein distance between the first `i` characters of `a` and the
/// first `j` characters of `b` (unit-cost insertion, deletion, substitution).
pub open spec fn lev_prefix(a: Seq<char>, b: Seq<char>, i: nat, j: nat) -> nat
    decreases i + j,
{
    if i == 0 {
        j
    } else if j == 0 {
        i
    } else if a[i - 1] == b[j - 1] {
        lev_prefix(a, b, (i - 1) as nat, (j - 1) as nat)
    } else {
        1 + min3(
            lev_prefix(a, b, (i - 1) as nat, j),
            lev_prefix(a, b, i, (j - 1) as nat),
            lev_prefix(a, b, (i - 1) as nat, (j - 1) as nat),
        )
    }
}

/// Levenshtein distance between two character sequences.
pub open spec fn levenshtein(a: Seq<char>, b: Seq<char>) -> nat {
    lev_prefix(a, b, a.len(), b.len())
}

proof fn lemma_lev_prefix_upper(a: Seq<char>, b: Seq<char>, i: nat, j: nat)
    ensures
        lev_prefix(a, b, i, j) <= if i >= j { i } else { j },
    decreases i + j,
{
    if i > 0 && j > 0 {
        lemma_lev_prefix_upper(a, b, (i - 1) as nat, (j - 1) as nat);
    }
}

proof fn lemma_lev_prefix_lower(a: Seq<char>, b: Seq<char>, i: nat, j: nat)
    ensures
        lev_prefix(a, b, i, j) >= if i >= j { i - j } else { j - i },
    decreases i + j,
{
    if i > 0 && j > 0 {
        lemma_lev_prefix_lower(a, b, (i - 1) as nat, (j - 1) as nat);
        if a[i - 1] != b[j - 1] {
            lemma_lev_prefix_lower(a, b, (i - 1) as nat, j);
            lemma_lev_prefix_lower(a, b, i, (j - 1) as nat);
        }
    }
}

proof fn lemma_lev_prefix_symmetric(a: Seq<char>, b: Seq<char>, i: nat, j: nat)
    ensures
        lev_prefix(a, b, i, j) == lev_prefix(b, a, j, i),
    decreases i + j,
{
    if i > 0 && j > 0 {
        lemma_lev_prefix_symmetric(a, b, (i - 1) as nat, (j - 1) as nat);
        if a[i - 1] != b[j - 1] {
            lemma_lev_prefix_symmetric(a, b, (i - 1) as nat, j);
            lemma_lev_prefix_symmetric(a, b, i, (j - 1) as nat);
        }
    }
}

proof fn lemma_lev_prefix_zero(a: Seq<char>, b: Seq<char>, i: nat, j: nat)
    requires
        i <= a.len(),
        j <= b.len(),
    ensures
        lev_prefix(a, b, i, j) == 0 <==> (i == j && a.take(i as int) == b.take(j as int)),
    decreases i + j,
{
    if i > 0 && j > 0 {
        lemma_lev_prefix_zero(a, b, (i - 1) as nat, (j - 1) as nat);
        assert(a.take(i as int) == a.take(i - 1).push(a[i - 1]));
        assert(b.take(j as int) == b.take(j - 1).push(b[j - 1]));
        if i == j && a.take(i as int) == b.take(j as int) {
            assert(a.take(i as int)[i - 1] == b.take(j as int)[j - 1]);
            assert(a.take(i - 1) == a.take(i as int).drop_last());
            assert(b.take(j - 1) == b.take(j as int).drop_last());
        }
    } else if i == 0 && j == 0 {
        assert(a.take(0) == b.take(0));
    }
}

proof fn lemma_lev_prefix_steps(a: Seq<char>, c: Seq<char>, i: nat, k: nat)
    ensures
        i >= 1 ==> lev_prefix(a, c, i, k) <= lev_prefix(a, c, (i - 1) as nat, k) + 1,
        k >= 1 ==> lev_prefix(a, c, i, k) <= lev_prefix(a, c, i, (k - 1) as nat) + 1,
        i >= 1 ==> lev_prefix(a, c, (i - 1) as nat, k) <= lev_prefix(a, c, i, k) + 1,
        k >= 1 ==> lev_prefix(a, c, i, (k - 1) as nat) <= lev_prefix(a, c, i, k) + 1,
    decreases i + k,
{
    if i >= 1 && k >= 1 {
        lemma_lev_prefix_steps(a, c, (i - 1) as nat, k);
        lemma_lev_prefix_steps(a, c, i, (k - 1) as nat);
    }
}

proof fn lemma_lev_prefix_triangle(
    a: Seq<char>,
    b: Seq<char>,
    c: Seq<char>,
    i: nat,
    j: nat,
    k: nat,
)
    ensures
        lev_prefix(a, c, i, k) <= lev_prefix(a, b, i, j) + lev_prefix(b, c, j, k),
    decreases i + j + k,
{
    if j == 0 {
        lemma_lev_prefix_upper(a, c, i, k);
    } else if i == 0 {
        lemma_lev_prefix_lower(b, c, j, k);
    } else if k == 0 {
        lemma_lev_prefix_lower(a, b, i, j);
    } else {
        let (i1, j1, k1) = ((i - 1) as nat, (j - 1) as nat, (k - 1) as nat);
        lemma_lev_prefix_steps(a, c, i, k);
        lemma_lev_prefix_triangle(a, b, c, i1, j, k);
        lemma_lev_prefix_triangle(a, b, c, i, j1, k);
        lemma_lev_prefix_triangle(a, b, c, i, j, k1);
        lemma_lev_prefix_triangle(a, b, c, i1, j1, k);
        lemma_lev_prefix_triangle(a, b, c, i, j1, k1);
        lemma_lev_prefix_triangle(a, b, c, i1, j1, k1);
    }
}

/// The distance obeys the triangle inequality:
/// `edit_distance(a, c) <= edit_distance(a, b) + edit_distance(b, c)`, for
/// texts of any length (`edit_distance` itself returns the distance, a
/// `u32`, for texts shorter than `u32::MAX` characters).
pub proof fn edit_distance_triangle(a: Seq<char>, b: Seq<char>, c: Seq<char>)
    ensures
        levenshtein(a, c) <= levenshtein(a, b) + levenshtein(b, c),
{
    lemma_lev_prefix_triangle(a, b, c, a.len(), b.len(), c.len());
}

/// The distance is symmetric: `edit_distance(a, b) == edit_distance(b, a)`.
pub proof fn edit_distance_symmetric(a: Seq<char>, b: Seq<char>)
    ensures
        levenshtein(a, b) == levenshtein(b, a),
{
    lemma_lev_prefix_symmetric(a, b, a.len(), b.len());
}

/// The distance is zero exactly when the two texts are equal.
pub proof fn edit_distance_zero_iff_equal(a: Seq<char>, b: Seq<char>)
    ensures
        levenshtein(a, b) == 0 <==> a == b,
{
    lemma_lev_prefix_zero(a, b, a.len(), b.len());
    assert(a.take(a.len() as int) == a);
    assert(b.take(b.len() as int) == b);
}

/// The distance lies between the difference of the two lengths and the
/// larger of them; against the empty text it is the other text's length.
pub proof fn edit_distance_bounds(a: Seq<char>, b: Seq<char>)
    ensures
        levenshtein(a, b) <= if a.len() >= b.len() { a.len() } else { b.len() },
        levenshtein(a, b) >= if a.len() >= b.len() { a.len() - b.len() } else { b.len() - a.len() },
        b.len() == 0 ==> levenshtein(a, b) == a.len(),
{
    lemma_lev_prefix_upper(a, b, a.len(), b.len());
    lemma_lev_prefix_lower(a, b, a.len(), b.len());
}

/// Levenshtein distance between `a` and `b`, counted in characters.
pub fn edit_distance(a: &str, b: &str) -> (d: u32)
    requires
        a@.len() < u32::MAX,
        b@.len() < u32::MAX,
    ensures
        d == levenshtein(a@, b@),
{
    let a = chars_of(a);
    let b = chars_of(b);
    let m = a.len();
    let n = b.len();
    let mut prev: Vec<u32> = Vec::new();
    let mut j: usize = 0;
    while j <= n
        invariant
            n == b@.len(),
            n < u32::MAX,
            j <= n + 1,
            prev@.len() == j,
            forall|k: int| 0 <= k < j ==> prev@[k] == k,
        decreases n + 1 - j,
    {
        prev.push(j as u32);
        j = j + 1;
    }
    let mut cur: Vec<u32> = Vec::new();
    j = 0;
    while j <= n
        invariant
            n == b@.len(),
            n < u32::MAX,
            j <= n + 1,
            cur@.len() == j,
        decreases n + 1 - j,
    {
        cur.push(0);
        j = j + 1;
    }
    assert forall|k: nat| k <= n implies prev@[k as int] == lev_prefix(a@, b@, 0, k) by {}
    let mut i: usize = 1;
    while i <= m
        invariant
            m == a@.len(),
            n == b@.len(),
            m < u32::MAX,
            n < u32::MAX,
            1 <= i <= m + 1,
            prev@.len() == n + 1,
            cur@.len() == n + 1,
            forall|k: nat| k <= n ==> prev@[k as int] == lev_prefix(a@, b@, (i - 1) as nat, k),
        decreases m + 1 - i,
    {
        cur.set(0, i as u32);
        let mut j: usize = 1;
        while j <= n
            invariant
                m == a@.len(),
                n == b@.len(),
                m < u32::MAX,
                n < u32::MAX,
                1 <= i <= m,
                1 <= j <= n + 1,
                prev@.len() == n + 1,
                cur@.len() == n + 1,
                forall|k: nat| k <= n ==> prev@[k as int] == lev_prefix(a@, b@, (i - 1) as nat, k),
                forall|k: nat| k < j ==> cur@[k as int] == lev_prefix(a@, b@, i as nat, k),
            decreases n + 1 - j,
        {
            let ghost ii = i as nat;
            let ghost jj = j as nat;
            proof {
                lemma_lev_prefix_upper(a@, b@, (ii - 1) as nat, (jj - 1) as nat);
            }
            let v = if a[i - 1] == b[j - 1] {
                prev[j - 1]
            } else {
                let x = prev[j];
                let y = cur[j - 1];
                let z = prev[j - 1];
                let mut lo = x;
                if y < lo {
                    lo = y;
                }
                if z < lo {
                    lo = z;
                }
                lo + 1
            };
            assert(v == lev_prefix(a@, b@, ii, jj));
            cur.set(j, v);
            j = j + 1;
        }
        std::mem::swap(&mut prev, &mut cur);
        i = i + 1;
    }
    prev[n]
}

} // verus!
