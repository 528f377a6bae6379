//! Small helpers over strings and characters that the rest of the library
//! builds on.

use vstd::prelude::*;

verus! {

/// Whether two string slices hold the same characters.
pub fn str_eq(a: &str, b: &str) -> (r: bool)
    ensures
        r == (a@ == b@),
{
    let na = a.unicode_len();
    let nb = b.unicode_len();
    if na != nb {
        proof {
            if a@ == b@ {
                assert(false);
            }
        }
        return false;
    }
    let mut i: usize = 0;
    while i < na
        invariant
            i <= na == a@.len(),
            nb == b@.len(),
            na == nb,
            forall|j: int| 0 <= j < i ==> a@[j] == b@[j],
        decreases na - i,
    {
        let ca = a.get_char(i);
        let cb = b.get_char(i);
        if ca != cb {
            proof {
                assert(a@[i as int] != b@[i as int]);
                if a@ == b@ {
                    assert(false);
                }
            }
            return false;
        }
        i = i + 1;
    }
    proof {
        assert(a@ =~= b@);
    }
    true
}

/// Relies on `char::is_alphanumeric`: whether the character is alphanumeric
/// depends on the character alone.
pub uninterp spec fn char_alphanumeric(c: char) -> bool;

/// Relies on `char::is_alphanumeric`; see `char_alphanumeric`.
#[verifier::external_body]
pub fn is_alphanumeric(c: char) -> (r: bool)
    ensures
        r == char_alphanumeric(c),
{
    c.is_alphanumeric()
}

/// A word character of the validation patterns: alphanumeric or underscore.
pub open spec fn word_char(c: char) -> bool {
    char_alphanumeric(c) || c == '_'
}

/// A character allowed in the local part of an email: word, '-' or '.'.
pub open spec fn local_char(c: char) -> bool {
    word_char(c) || c == '-' || c == '.'
}

/// A character allowed in a domain label: word or '-'.
pub open spec fn label_char(c: char) -> bool {
    word_char(c) || c == '-'
}

/// A valid table or column name: every character alphanumeric or '_'.
pub open spec fn valid_name(s: Seq<char>) -> bool {
    forall|i: int| 0 <= i < s.len() ==> word_char(#[trigger] s[i])
}

/// Checks a table or column name.
pub fn check_name(s: &str) -> (r: bool)
    ensures
        r == valid_name(s@),
{
    let n = s.unicode_len();
    let mut i: usize = 0;
    while i < n
        invariant
            i <= n == s@.len(),
            forall|j: int| 0 <= j < i ==> word_char(#[trigger] s@[j]),
        decreases n - i,
    {
        let c = s.get_char(i);
        if !(is_alphanumeric(c) || c == '_') {
            return false;
        }
        i = i + 1;
    }
    true
}

/// The index of the first occurrence of `c`, or -1.
pub open spec fn first_occ(s: Seq<char>, c: char) -> int
    decreases s.len(),
{
    if s.len() == 0 {
        -1
    } else if s[0] == c {
        0
    } else {
        let r = first_occ(s.skip(1), c);
        if r == -1 {
            -1
        } else {
            r + 1
        }
    }
}

pub proof fn lemma_first_occ(s: Seq<char>, c: char)
    ensures
        first_occ(s, c) >= -1,
        first_occ(s, c) == -1 ==> forall|j: int| 0 <= j < s.len() ==> s[j] != c,
        first_occ(s, c) >= 0 ==> 0 <= first_occ(s, c) < s.len() && s[first_occ(s, c)] == c
            && forall|j: int| 0 <= j < first_occ(s, c) ==> s[j] != c,
    decreases s.len(),
{
    if s.len() > 0 && s[0] != c {
        lemma_first_occ(s.skip(1), c);
        assert(forall|j: int| 1 <= j < s.len() ==> #[trigger] s[j] == s.skip(1)[j - 1]);
        if first_occ(s, c) == -1 {
            assert forall|j: int| 0 <= j < s.len() implies s[j] != c by {
                if j >= 1 {
                    assert(s[j] == s.skip(1)[j - 1]);
                }
            }
        }
    }
}

/// The index of the last occurrence of `c`, or -1.
pub open spec fn last_occ(s: Seq<char>, c: char) -> int
    decreases s.len(),
{
    if s.len() == 0 {
        -1
    } else if s.last() == c {
        s.len() - 1
    } else {
        last_occ(s.drop_last(), c)
    }
}

pub proof fn lemma_last_occ(s: Seq<char>, c: char)
    ensures
        last_occ(s, c) >= -1,
        last_occ(s, c) == -1 ==> forall|j: int| 0 <= j < s.len() ==> s[j] != c,
        last_occ(s, c) >= 0 ==> 0 <= last_occ(s, c) < s.len() && s[last_occ(s, c)] == c
            && forall|j: int| last_occ(s, c) < j < s.len() ==> s[j] != c,
    decreases s.len(),
{
    if s.len() > 0 && s.last() != c {
        lemma_last_occ(s.drop_last(), c);
        assert(forall|j: int| 0 <= j < s.len() - 1 ==> #[trigger] s[j] == s.drop_last()[j]);
        if last_occ(s, c) == -1 {
            assert forall|j: int| 0 <= j < s.len() implies s[j] != c by {
                if j < s.len() - 1 {
                    assert(s[j] == s.drop_last()[j]);
                }
            }
        }
    }
}

/// The fixed email shape: a non-empty local part of word characters,
/// hyphens and dots; an '@'; one or more dot-terminated labels of word
/// characters and hyphens; and a final label of 2 to 4 such characters.
pub open spec fn is_valid_email(s: Seq<char>) -> bool {
    let p = first_occ(s, '@');
    &&& p >= 1
    &&& forall|i: int| 0 <= i < p ==> local_char(#[trigger] s[i])
    &&& email_domain_valid(s.skip(p + 1))
}

/// The part after the '@': labels each followed by '.', then the top-level
/// label, 2 to 4 characters, with no dot.
pub open spec fn email_domain_valid(d: Seq<char>) -> bool {
    let q = last_occ(d, '.');
    &&& q >= 1
    &&& 2 <= d.len() - q - 1 <= 4
    &&& forall|j: int| q < j < d.len() ==> label_char(#[trigger] d[j])
    &&& forall|j: int| 0 <= j < q ==> label_char(#[trigger] d[j]) || d[j] == '.'
    &&& d[0] != '.'
    &&& forall|j: int| 1 <= j <= q ==> !(#[trigger] d[j] == '.' && d[j - 1] == '.')
}

/// Checks the email shape.
pub fn check_email(s: &str) -> (r: bool)
    ensures
        r == is_valid_email(s@),
{
    let n = s.unicode_len();
    // the local part, up to the first '@'
    let mut i: usize = 0;
    let mut at: usize = n;
    let mut found_at = false;
    while i < n && !found_at
        invariant
            i <= n == s@.len(),
            forall|j: int| 0 <= j < i ==> s@[j] != '@' && local_char(#[trigger] s@[j]),
            found_at ==> i < n && at == i && s@[at as int] == '@',
            !found_at ==> at == n,
        decreases n - i + (if found_at { 0int } else { 1int }),
    {
        let c = s.get_char(i);
        if c == '@' {
            at = i;
            found_at = true;
        } else if is_alphanumeric(c) || c == '_' || c == '-' || c == '.' {
            i = i + 1;
        } else {
            // a character the local part does not allow, before any '@'
            proof {
                lemma_first_occ(s@, '@');
                let p = first_occ(s@, '@');
                if p >= 1 {
                    if p <= i {
                        assert(s@[p] == '@');
                        assert(false);
                    } else {
                        assert(!local_char(s@[i as int]));
                    }
                }
            }
            return false;
        }
    }
    if !found_at || at == 0 {
        proof {
            lemma_first_occ(s@, '@');
            if !found_at && first_occ(s@, '@') >= 1 {
                assert(s@[first_occ(s@, '@')] == '@');
            }
        }
        return false;
    }
    proof {
        lemma_first_occ(s@, '@');
        let p = first_occ(s@, '@');
        if p < at as int {
            if p >= 0 {
                assert(s@[p] == '@');
            }
            assert(false);
        }
        if p > at as int {
            assert(false);
        }
        assert(p == at as int);
    }
    let ghost d = s@.skip(at + 1);
    // the last '.' of the domain, scanning from the end
    let mut q: usize = n;
    let mut k: usize = n;
    while k > at + 1 && q == n
        invariant
            at + 1 <= k <= n == s@.len(),
            at < n,
            q <= n,
            q == n ==> forall|j: int| k <= j < n ==> s@[j] != '.',
            q < n ==> at + 1 <= q == k - 1 && s@[q as int] == '.' && forall|j: int|
                q < j < n ==> s@[j] != '.',
        decreases k + (if q == n { 1int } else { 0 }),
    {
        let c = s.get_char(k - 1);
        if c == '.' {
            q = k - 1;
        } else {
            k = k - 1;
        }
    }
    proof {
        assert(forall|j: int| 0 <= j < d.len() ==> #[trigger] d[j] == s@[at + 1 + j]);
        lemma_last_occ(d, '.');
    }
    if q == n {
        // no dot after the '@'
        proof {
            if last_occ(d, '.') >= 0 {
                assert(d[last_occ(d, '.')] == '.');
            }
        }
        return false;
    }
    let ghost qd = q - (at + 1);
    proof {
        assert(d[qd] == '.');
        let lq = last_occ(d, '.');
        if lq < qd {
            assert(false);
        }
        if lq > qd {
            assert(d[lq] == '.');
            assert(s@[at + 1 + lq] == '.');
            assert(false);
        }
        assert(lq == qd);
    }
    // the label before the final dot must not be empty
    if q == at + 1 {
        return false;
    }
    // the top-level label: 2 to 4 label characters
    if n - q - 1 < 2 || n - q - 1 > 4 {
        return false;
    }
    let mut t: usize = q + 1;
    while t < n
        invariant
            at < at + 1 <= q < t,
            q + 1 <= t <= n == s@.len(),
            d == s@.skip(at + 1),
            last_occ(d, '.') == q - (at + 1),
            first_occ(s@, '@') == at as int,
            forall|j: int| q < j < t ==> label_char(#[trigger] s@[j]),
        decreases n - t,
    {
        let c = s.get_char(t);
        if !(is_alphanumeric(c) || c == '_' || c == '-') {
            proof {
                assert(d[t - (at + 1)] == s@[t as int]);
                assert(!label_char(d[t - (at + 1)]));
                assert(!email_domain_valid(d));
            }
            return false;
        }
        t = t + 1;
    }
    // the labels, each of label characters and ended by a dot
    let mut w: usize = at + 1;
    let mut prev_dot = true;
    while w < q
        invariant
            at + 1 <= w <= q < n == s@.len(),
            d == s@.skip(at + 1),
            last_occ(d, '.') == q - (at + 1),
            first_occ(s@, '@') == at as int,
            s@[q as int] == '.',
            forall|j: int| at + 1 <= j < w ==> label_char(#[trigger] s@[j]) || s@[j] == '.',
            forall|j: int| at + 2 <= j < w ==> !(#[trigger] s@[j] == '.' && s@[j - 1] == '.'),
            prev_dot == (w == at + 1 || s@[w - 1] == '.'),
            w > at + 1 ==> s@[at + 1] != '.',
        decreases q - w,
    {
        let c = s.get_char(w);
        let dotc = c == '.';
        if !(is_alphanumeric(c) || c == '_' || c == '-' || dotc) {
            proof {
                assert(d[w - (at + 1)] == s@[w as int]);
                assert(!(label_char(d[w - (at + 1)]) || d[w - (at + 1)] == '.'));
                assert(!email_domain_valid(d));
            }
            return false;
        }
        if dotc && prev_dot {
            // an empty label: the domain starts with '.', or has '..'
            proof {
                if w == at + 1 {
                    assert(d[0] == '.');
                } else {
                    assert(d[w - (at + 1)] == '.' && d[w - (at + 1) - 1] == '.');
                }
                assert(!email_domain_valid(d));
            }
            return false;
        }
        prev_dot = dotc;
        w = w + 1;
    }
    if prev_dot {
        // the label before the final dot is empty
        proof {
            assert(d[qd] == '.' && d[qd - 1] == '.');
            assert(!email_domain_valid(d));
        }
        return false;
    }
    proof {
        assert(d[0] == s@[at + 1]);
        if q > at + 1 {
            assert(s@[at + 1] != '.');
        } else {
            assert(false);
        }
        assert forall|j: int| 0 <= j < qd implies label_char(#[trigger] d[j]) || d[j] == '.' by {
            assert(d[j] == s@[at + 1 + j]);
        }
        assert forall|j: int| 1 <= j <= qd implies !(#[trigger] d[j] == '.' && d[j - 1] == '.') by {
            assert(d[j] == s@[at + 1 + j] && d[j - 1] == s@[at + j]);
            if j == qd {
                assert(s@[q - 1] != '.');
            }
        }
        assert forall|j: int| qd < j < d.len() implies label_char(#[trigger] d[j]) by {
            assert(d[j] == s@[at + 1 + j]);
        }
        assert(email_domain_valid(d));
        assert(is_valid_email(s@));
    }
    true
}

/// Lexicographic order on character sequences, by code point.
pub open spec fn lex_leq(a: Seq<char>, b: Seq<char>) -> bool
    decreases a.len(),
{
    if a.len() == 0 {
        true
    } else if b.len() == 0 {
        false
    } else if a[0] != b[0] {
        (a[0] as u32) < (b[0] as u32)
    } else {
        lex_leq(a.skip(1), b.skip(1))
    }
}

/// Compares two strings in lexicographic order.
pub fn str_leq(a: &str, b: &str) -> (r: bool)
    ensures
        r == lex_leq(a@, b@),
{
    let na = a.unicode_len();
    let nb = b.unicode_len();
    let mut i: usize = 0;
    proof {
        assert(a@.skip(0) =~= a@);
        assert(b@.skip(0) =~= b@);
    }
    while i < na && i < nb
        invariant
            i <= na == a@.len(),
            i <= nb == b@.len(),
            lex_leq(a@, b@) == lex_leq(a@.skip(i as int), b@.skip(i as int)),
        decreases na - i,
    {
        let ca = a.get_char(i);
        let cb = b.get_char(i);
        proof {
            let sa = a@.skip(i as int);
            let sb = b@.skip(i as int);
            assert(sa[0] == a@[i as int] && sb[0] == b@[i as int]);
            assert(sa.skip(1) =~= a@.skip(i + 1));
            assert(sb.skip(1) =~= b@.skip(i + 1));
        }
        if ca as u32 != cb as u32 {
            proof {
                if ca as u32 == cb as u32 {
                    assert(false);
                }
            }
            return (ca as u32) < (cb as u32);
        }
        proof {
            assert(a@[i as int] == b@[i as int]);
        }
        i = i + 1;
    }
    proof {
        assert(a@.skip(i as int).len() == 0 || b@.skip(i as int).len() == 0);
    }
    i == na
}

/// Three-way lexicographic comparison by code point: -1, 0 or 1.
pub open spec fn lex_cmp(a: Seq<char>, b: Seq<char>) -> int
    decreases a.len(),
{
    if a.len() == 0 && b.len() == 0 {
        0
    } else if a.len() == 0 {
        -1
    } else if b.len() == 0 {
        1
    } else if a[0] != b[0] {
        if (a[0] as u32) < (b[0] as u32) {
            -1
        } else {
            1
        }
    } else {
        lex_cmp(a.skip(1), b.skip(1))
    }
}

/// Compares two strings three ways.
pub fn str_cmp(a: &str, b: &str) -> (r: i8)
    ensures
        r as int == lex_cmp(a@, b@),
{
    let na = a.unicode_len();
    let nb = b.unicode_len();
    let mut i: usize = 0;
    proof {
        assert(a@.skip(0) =~= a@);
        assert(b@.skip(0) =~= b@);
    }
    while i < na && i < nb
        invariant
            i <= na == a@.len(),
            i <= nb == b@.len(),
            lex_cmp(a@, b@) == lex_cmp(a@.skip(i as int), b@.skip(i as int)),
        decreases na - i,
    {
        let ca = a.get_char(i);
        let cb = b.get_char(i);
        proof {
            let sa = a@.skip(i as int);
            let sb = b@.skip(i as int);
            assert(sa[0] == a@[i as int] && sb[0] == b@[i as int]);
            assert(sa.skip(1) =~= a@.skip(i + 1));
            assert(sb.skip(1) =~= b@.skip(i + 1));
        }
        if (ca as u32) < (cb as u32) {
            proof {
                assert(a@[i as int] != b@[i as int]);
            }
            return -1;
        }
        if (ca as u32) > (cb as u32) {
            proof {
                assert(a@[i as int] != b@[i as int]);
            }
            return 1;
        }
        proof {
            assert(a@[i as int] == b@[i as int]);
        }
        i = i + 1;
    }
    proof {
        assert(a@.skip(i as int).len() == 0 || b@.skip(i as int).len() == 0);
    }
    if na == nb {
        0
    } else if i == na {
        -1
    } else {
        1
    }
}

/// The first occurrence of `c` within `[from, to)` of `s`, with what that
/// means for `first_occ` of that very subrange.
pub fn find_from(s: &str, from: usize, to: usize, c: char) -> (r: Option<usize>)
    requires
        from <= to <= s@.len(),
    ensures
        match r {
            Some(i) => from <= i < to && s@[i as int] == c && (forall|j: int|
                from <= j < i ==> s@[j] != c) && first_occ(s@.subrange(from as int, to as int), c)
                == i - from,
            Option::None => (forall|j: int| from <= j < to ==> s@[j] != c) && first_occ(
                s@.subrange(from as int, to as int),
                c,
            ) == -1,
        },
{
    let ghost sub = s@.subrange(from as int, to as int);
    proof {
        lemma_first_occ(sub, c);
        assert(forall|j: int| 0 <= j < sub.len() ==> sub[j] == s@[from + j]);
    }
    let mut i: usize = from;
    while i < to
        invariant
            from <= i <= to <= s@.len(),
            sub == s@.subrange(from as int, to as int),
            forall|j: int| from <= j < i ==> s@[j] != c,
        decreases to - i,
    {
        if s.get_char(i) == c {
            proof {
                lemma_first_occ(sub, c);
                assert(forall|j: int| 0 <= j < sub.len() ==> sub[j] == s@[from + j]);
                let f = first_occ(sub, c);
                assert(sub[i - from] == c);
                if f < i - from {
                    assert(s@[from + f] == c);
                    assert(false);
                }
                if f > i - from {
                    assert(false);
                }
            }
            return Some(i);
        }
        i = i + 1;
    }
    proof {
        lemma_first_occ(sub, c);
        assert(forall|j: int| 0 <= j < sub.len() ==> sub[j] == s@[from + j]);
        if first_occ(sub, c) >= 0 {
            assert(sub[first_occ(sub, c)] == c);
            assert(false);
        }
    }
    Option::None
}

/// Any two character sequences compare one way or the other.
pub proof fn lemma_lex_total(a: Seq<char>, b: Seq<char>)
    ensures
        lex_leq(a, b) || lex_leq(b, a),
    decreases a.len(),
{
    if a.len() != 0 && b.len() != 0 {
        if a[0] == b[0] {
            lemma_lex_total(a.skip(1), b.skip(1));
        } else {
            if (a[0] as u32) == (b[0] as u32) {
                vstd::utf8::char_u32_cast(a[0], a[0] as u32);
                vstd::utf8::char_u32_cast(b[0], b[0] as u32);
                assert(false);
            }
        }
    }
}

/// Sequences that compare no later than each other are equal.
pub proof fn lemma_lex_antisym(a: Seq<char>, b: Seq<char>)
    requires
        lex_leq(a, b),
        lex_leq(b, a),
    ensures
        a == b,
    decreases a.len(),
{
    if a.len() == 0 {
        assert(b.len() == 0);
        assert(a =~= b);
    } else {
        assert(b.len() != 0);
        assert(a[0] == b[0]);
        lemma_lex_antisym(a.skip(1), b.skip(1));
        assert forall|i: int| 0 <= i < a.len() implies a[i] == b[i] by {
            if i > 0 {
                assert(a.skip(1)[i - 1] == b.skip(1)[i - 1]);
            }
        }
        assert(a =~= b);
    }
}

/// The order is transitive.
pub proof fn lemma_lex_trans(a: Seq<char>, b: Seq<char>, c: Seq<char>)
    requires
        lex_leq(a, b),
        lex_leq(b, c),
    ensures
        lex_leq(a, c),
    decreases a.len(),
{
    if a.len() != 0 {
        assert(b.len() != 0);
        assert(c.len() != 0);
        if a[0] == b[0] && b[0] == c[0] {
            lemma_lex_trans(a.skip(1), b.skip(1), c.skip(1));
        }
    }
}

/// No position holds the character.
pub open spec fn no_char(s: Seq<char>, c: char) -> bool {
    forall|j: int| 0 <= j < s.len() ==> s[j] != c
}

/// In a concatenation whose left part avoids `c` and whose right part
/// starts with it, the first occurrence is exactly the seam.
pub proof fn lemma_first_occ_concat(a: Seq<char>, b: Seq<char>, c: char)
    requires
        no_char(a, c),
        b.len() > 0,
        b[0] == c,
    ensures
        first_occ(a + b, c) == a.len(),
    decreases a.len(),
{
    if a.len() == 0 {
        assert(a + b =~= b);
    } else {
        assert((a + b)[0] == a[0]);
        assert((a + b).skip(1) =~= a.skip(1) + b);
        assert(no_char(a.skip(1), c)) by {
            assert(forall|j: int| 0 <= j < a.len() - 1 ==> a.skip(1)[j] == a[j + 1]);
        }
        lemma_first_occ_concat(a.skip(1), b, c);
    }
}

/// A sequence that avoids the character has no first occurrence of it.
pub proof fn lemma_first_occ_absent(a: Seq<char>, c: char)
    requires
        no_char(a, c),
    ensures
        first_occ(a, c) == -1,
{
    lemma_first_occ(a, c);
    if first_occ(a, c) >= 0 {
        assert(a[first_occ(a, c)] == c);
        assert(false);
    }
}

} // verus!
