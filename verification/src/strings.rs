//! Character-sequence helpers shared by the catalog and the dispatcher:
//! whitespace trimming, case-sensitive lexicographic ordering of names,
//! and file-path decomposition (base name and extension).

use vstd::prelude::*;
use vstd::string::StrSliceExecFns;
use core::cmp::Ordering;

verus! {

/// ASCII whitespace: the characters recognised by trimming and in front of
/// a field code.
pub open spec fn is_space(c: char) -> bool {
    c == ' ' || c == '\t' || c == '\n' || c == '\r' || c == '\u{b}' || c == '\u{c}'
}

/// ASCII word characters, as they may follow the percent sign of a field
/// code: letters, digits and the underscore.
pub open spec fn is_word_char(c: char) -> bool {
    (97 <= c as int && c as int <= 122)  // 'a'..='z'
    || (65 <= c as int && c as int <= 90)  // 'A'..='Z'
    || (48 <= c as int && c as int <= 57)  // '0'..='9'
    || c as int == 95  // '_'
}

pub fn space_char(c: char) -> (r: bool)
    ensures
        r == is_space(c),
{
    c == ' ' || c == '\t' || c == '\n' || c == '\r' || c == '\u{b}' || c == '\u{c}'
}

pub fn word_char(c: char) -> (r: bool)
    ensures
        r == is_word_char(c),
{
    let u = c as u32;
    (97 <= u && u <= 122) || (65 <= u && u <= 90) || (48 <= u && u <= 57) || u == 95
}

/// The sequence without its leading whitespace.
pub open spec fn trim_front(s: Seq<char>) -> Seq<char>
    decreases s.len(),
{
    if s.len() > 0 && is_space(s[0]) {
        trim_front(s.drop_first())
    } else {
        s
    }
}

/// The sequence without its trailing whitespace.
pub open spec fn trim_back(s: Seq<char>) -> Seq<char>
    decreases s.len(),
{
    if s.len() > 0 && is_space(s.last()) {
        trim_back(s.drop_last())
    } else {
        s
    }
}

/// The sequence without leading and trailing whitespace.
pub open spec fn trimmed(s: Seq<char>) -> Seq<char> {
    trim_back(trim_front(s))
}

/// Trims leading and trailing whitespace from a string.
pub fn trim_str(s: &str) -> (r: String)
    ensures
        r@ == trimmed(s@),
{
    let n = s.unicode_len();
    proof {
        assert(s@.skip(0) =~= s@);
    }
    let mut start: usize = 0;
    while start < n && space_char(s.get_char(start))
        invariant
            start <= n,
            n == s@.len(),
            trim_front(s@) == trim_front(s@.skip(start as int)),
        decreases n - start,
    {
        proof {
            assert(s@.skip(start as int)[0] == s@[start as int]);
            assert(s@.skip(start as int).drop_first() =~= s@.skip(start as int + 1));
        }
        start = start + 1;
    }
    proof {
        if start < n {
            assert(s@.skip(start as int)[0] == s@[start as int]);
        } else {
            assert(s@.skip(start as int) =~= Seq::<char>::empty());
        }
        assert(trim_front(s@) == s@.skip(start as int));
        assert(s@.skip(start as int) =~= s@.subrange(start as int, n as int));
    }
    let mut end: usize = n;
    while end > start && space_char(s.get_char(end - 1))
        invariant
            start <= end <= n,
            n == s@.len(),
            trim_front(s@) == s@.skip(start as int),
            trim_back(s@.skip(start as int)) == trim_back(s@.subrange(start as int, end as int)),
        decreases end,
    {
        proof {
            let cur = s@.subrange(start as int, end as int);
            assert(cur.last() == s@[end - 1]);
            assert(cur.drop_last() =~= s@.subrange(start as int, end as int - 1));
        }
        end = end - 1;
    }
    proof {
        let cur = s@.subrange(start as int, end as int);
        if end > start {
            assert(cur.last() == s@[end - 1]);
        }
        assert(trim_back(cur) == cur);
        assert(trimmed(s@) == s@.subrange(start as int, end as int));
    }
    let piece = s.substring_char(start, end);
    piece.to_owned()
}

/// Case-sensitive lexicographic comparison of two character sequences,
/// by Unicode code point; a strict prefix orders first.
pub open spec fn lex_cmp(a: Seq<char>, b: Seq<char>) -> Ordering
    decreases a.len(),
{
    if a.len() == 0 && b.len() == 0 {
        Ordering::Equal
    } else if a.len() == 0 {
        Ordering::Less
    } else if b.len() == 0 {
        Ordering::Greater
    } else if (a[0] as int) < (b[0] as int) {
        Ordering::Less
    } else if (a[0] as int) > (b[0] as int) {
        Ordering::Greater
    } else {
        lex_cmp(a.drop_first(), b.drop_first())
    }
}

pub open spec fn lex_le(a: Seq<char>, b: Seq<char>) -> bool {
    lex_cmp(a, b) != Ordering::Greater
}

/// Two sequences compare equal exactly when they are equal.
pub proof fn lemma_lex_cmp_eq(a: Seq<char>, b: Seq<char>)
    ensures
        lex_cmp(a, b) == Ordering::Equal <==> a == b,
    decreases a.len(),
{
    if a.len() == 0 && b.len() == 0 {
        assert(a =~= b);
    } else if a.len() == 0 || b.len() == 0 {
    } else if (a[0] as int) < (b[0] as int) || (a[0] as int) > (b[0] as int) {
    } else {
        assert(a[0] == b[0]);
        lemma_lex_cmp_eq(a.drop_first(), b.drop_first());
        if lex_cmp(a, b) == Ordering::Equal {
            assert forall|i: int| 0 <= i < a.len() implies a[i] == b[i] by {
                if i >= 1 {
                    assert(a[i] == a.drop_first()[i - 1]);
                    assert(b[i] == b.drop_first()[i - 1]);
                }
            }
            assert(a =~= b);
        }
        if a == b {
            assert(a.drop_first() =~= b.drop_first());
        }
    }
}

/// Comparison is antisymmetric: swapping the arguments swaps the answer.
pub proof fn lemma_lex_cmp_flip(a: Seq<char>, b: Seq<char>)
    ensures
        lex_cmp(a, b) == Ordering::Less <==> lex_cmp(b, a) == Ordering::Greater,
        lex_cmp(a, b) == Ordering::Equal <==> lex_cmp(b, a) == Ordering::Equal,
    decreases a.len(),
{
    if a.len() == 0 && b.len() == 0 {
    } else if a.len() == 0 {
        assert(lex_cmp(a, b) == Ordering::Less);
        assert(lex_cmp(b, a) == Ordering::Greater);
    } else if b.len() == 0 {
        assert(lex_cmp(a, b) == Ordering::Greater);
        assert(lex_cmp(b, a) == Ordering::Less);
    } else if (a[0] as int) < (b[0] as int) {
        assert(lex_cmp(a, b) == Ordering::Less);
        assert(lex_cmp(b, a) == Ordering::Greater);
    } else if (a[0] as int) > (b[0] as int) {
        assert(lex_cmp(a, b) == Ordering::Greater);
        assert(lex_cmp(b, a) == Ordering::Less);
    } else {
        lemma_lex_cmp_flip(a.drop_first(), b.drop_first());
        assert(lex_cmp(a, b) == lex_cmp(a.drop_first(), b.drop_first()));
        assert(lex_cmp(b, a) == lex_cmp(b.drop_first(), a.drop_first()));
    }
}

/// The order is total: two sequences always compare one way or the other.
pub proof fn lemma_lex_le_total(a: Seq<char>, b: Seq<char>)
    ensures
        lex_le(a, b) || lex_le(b, a),
{
    lemma_lex_cmp_flip(a, b);
}

/// The order is transitive.
pub proof fn lemma_lex_le_trans(a: Seq<char>, b: Seq<char>, c: Seq<char>)
    requires
        lex_le(a, b),
        lex_le(b, c),
    ensures
        lex_le(a, c),
    decreases a.len() + b.len() + c.len(),
{
    if a.len() == 0 {
    } else if b.len() == 0 {
        assert(lex_cmp(a, b) == Ordering::Greater);
    } else if c.len() == 0 {
        assert(lex_cmp(b, c) == Ordering::Greater);
    } else {
        if (a[0] as int) < (b[0] as int) {
            if (b[0] as int) <= (c[0] as int) {
            }
        } else if (a[0] as int) == (b[0] as int) {
            if (b[0] as int) < (c[0] as int) {
            } else if (b[0] as int) == (c[0] as int) {
                lemma_lex_le_trans(a.drop_first(), b.drop_first(), c.drop_first());
            }
        }
    }
}

/// Three-way comparison of two strings by their character sequences.
pub fn str_cmp(a: &str, b: &str) -> (o: Ordering)
    ensures
        o == lex_cmp(a@, b@),
{
    let alen = a.unicode_len();
    let blen = b.unicode_len();
    proof {
        assert(a@.skip(0) =~= a@);
        assert(b@.skip(0) =~= b@);
    }
    let mut i: usize = 0;
    loop
        invariant
            i <= alen,
            i <= blen,
            alen == a@.len(),
            blen == b@.len(),
            lex_cmp(a@, b@) == lex_cmp(a@.skip(i as int), b@.skip(i as int)),
        decreases alen - i,
    {
        proof {
            if i == alen {
                assert(a@.skip(i as int) =~= Seq::<char>::empty());
            }
            if i == blen {
                assert(b@.skip(i as int) =~= Seq::<char>::empty());
            }
            if i < alen {
                assert(a@.skip(i as int)[0] == a@[i as int]);
            }
            if i < blen {
                assert(b@.skip(i as int)[0] == b@[i as int]);
            }
        }
        if i >= alen && i >= blen {
            return Ordering::Equal;
        }
        if i >= alen {
            return Ordering::Less;
        }
        if i >= blen {
            return Ordering::Greater;
        }
        let ua = a.get_char(i) as u32;
        let ub = b.get_char(i) as u32;
        if ua < ub {
            return Ordering::Less;
        }
        if ua > ub {
            return Ordering::Greater;
        }
        proof {
            assert(a@.skip(i as int).drop_first() =~= a@.skip(i as int + 1));
            assert(b@.skip(i as int).drop_first() =~= b@.skip(i as int + 1));
        }
        i = i + 1;
    }
}

/// Equality of two strings, by their character sequences.
pub fn str_eq(a: &str, b: &str) -> (r: bool)
    ensures
        r == (a@ == b@),
{
    proof {
        lemma_lex_cmp_eq(a@, b@);
    }
    match str_cmp(a, b) {
        Ordering::Equal => true,
        _ => false,
    }
}

/// `a` orders at or before `b`.
pub fn str_le(a: &str, b: &str) -> (r: bool)
    ensures
        r == lex_le(a@, b@),
{
    match str_cmp(a, b) {
        Ordering::Greater => false,
        _ => true,
    }
}

} // verus!
