//! Byte-wise lexicographic order on text, the order of `str`'s `Ord`.

use vstd::prelude::*;
use vstd::string::StringSliceAdditionalSpecFns;
use vstd::utf8::encode_utf8;

verus! {

/// Three-way lexicographic comparison of byte sequences: -1, 0 or 1.
pub open spec fn bytes_cmp(a: Seq<u8>, b: Seq<u8>) -> int
    decreases a.len(),
{
    if a.len() == 0 {
        if b.len() == 0 {
            0
        } else {
            -1
        }
    } else if b.len() == 0 {
        1
    } else if a[0] < b[0] {
        -1
    } else if a[0] > b[0] {
        1
    } else {
        bytes_cmp(a.drop_first(), b.drop_first())
    }
}

/// Order of two texts: that of their UTF-8 encodings.
pub open spec fn text_cmp(a: Seq<char>, b: Seq<char>) -> int {
    bytes_cmp(encode_utf8(a), encode_utf8(b))
}

pub proof fn lemma_bytes_cmp_range(a: Seq<u8>, b: Seq<u8>)
    ensures
        -1 <= bytes_cmp(a, b) <= 1,
    decreases a.len(),
{
    if a.len() > 0 && b.len() > 0 && a[0] == b[0] {
        lemma_bytes_cmp_range(a.drop_first(), b.drop_first());
    }
}

pub proof fn lemma_bytes_cmp_antisymmetric(a: Seq<u8>, b: Seq<u8>)
    ensures
        bytes_cmp(a, b) == -bytes_cmp(b, a),
    decreases a.len(),
{
    if a.len() > 0 && b.len() > 0 && a[0] == b[0] {
        lemma_bytes_cmp_antisymmetric(a.drop_first(), b.drop_first());
    }
}

pub proof fn lemma_bytes_cmp_transitive(a: Seq<u8>, b: Seq<u8>, c: Seq<u8>)
    requires
        bytes_cmp(a, b) <= 0,
        bytes_cmp(b, c) <= 0,
    ensures
        bytes_cmp(a, c) <= 0,
    decreases a.len(),
{
    if a.len() > 0 && b.len() > 0 && c.len() > 0 && a[0] == b[0] && b[0] == c[0] {
        lemma_bytes_cmp_transitive(a.drop_first(), b.drop_first(), c.drop_first());
    }
}

pub proof fn lemma_bytes_cmp_reflexive(a: Seq<u8>)
    ensures
        bytes_cmp(a, a) == 0,
    decreases a.len(),
{
    if a.len() > 0 {
        lemma_bytes_cmp_reflexive(a.drop_first());
    }
}

pub proof fn lemma_bytes_cmp_zero(a: Seq<u8>, b: Seq<u8>)
    requires
        bytes_cmp(a, b) == 0,
    ensures
        a == b,
    decreases a.len(),
{
    if a.len() > 0 && b.len() > 0 {
        lemma_bytes_cmp_zero(a.drop_first(), b.drop_first());
        assert(a =~= seq![a[0]] + a.drop_first());
        assert(b =~= seq![b[0]] + b.drop_first());
    }
}

/// Texts that compare equal compare alike with every other text.
pub proof fn lemma_text_cmp_zero(a: Seq<char>, b: Seq<char>, c: Seq<char>)
    requires
        text_cmp(a, b) == 0,
    ensures
        text_cmp(a, c) == text_cmp(b, c),
        text_cmp(c, a) == text_cmp(c, b),
{
    lemma_bytes_cmp_zero(encode_utf8(a), encode_utf8(b));
}

pub proof fn lemma_text_cmp_facts(a: Seq<char>, b: Seq<char>)
    ensures
        -1 <= text_cmp(a, b) <= 1,
        text_cmp(a, b) == -text_cmp(b, a),
        text_cmp(a, a) == 0,
{
    lemma_bytes_cmp_range(encode_utf8(a), encode_utf8(b));
    lemma_bytes_cmp_antisymmetric(encode_utf8(a), encode_utf8(b));
    lemma_bytes_cmp_reflexive(encode_utf8(a));
}

pub proof fn lemma_text_cmp_transitive(a: Seq<char>, b: Seq<char>, c: Seq<char>)
    requires
        text_cmp(a, b) <= 0,
        text_cmp(b, c) <= 0,
    ensures
        text_cmp(a, c) <= 0,
{
    lemma_bytes_cmp_transitive(encode_utf8(a), encode_utf8(b), encode_utf8(c));
}

proof fn lemma_bytes_cmp_suffix(a: Seq<u8>, b: Seq<u8>, i: int)
    requires
        0 <= i < a.len(),
        i < b.len(),
        a[i] == b[i],
    ensures
        bytes_cmp(a.subrange(i, a.len() as int), b.subrange(i, b.len() as int))
            == bytes_cmp(a.subrange(i + 1, a.len() as int), b.subrange(i + 1, b.len() as int)),
{
    assert(a.subrange(i, a.len() as int).drop_first() =~= a.subrange(i + 1, a.len() as int));
    assert(b.subrange(i, b.len() as int).drop_first() =~= b.subrange(i + 1, b.len() as int));
}

/// Compares two texts in byte-wise lexicographic order.
pub fn compare_text(a: &str, b: &str) -> (r: i8)
    ensures
        r as int == text_cmp(a@, b@),
{
    let x = a.as_bytes();
    let y = b.as_bytes();
    let ghost sa = x@;
    let ghost sb = y@;
    proof {
        assert(sa.subrange(0, sa.len() as int) =~= sa);
        assert(sb.subrange(0, sb.len() as int) =~= sb);
    }
    let mut i: usize = 0;
    while i < x.len() && i < y.len()
        invariant
            x@ == sa,
            y@ == sb,
            sa == a.spec_bytes(),
            sb == b.spec_bytes(),
            i <= sa.len(),
            i <= sb.len(),
            bytes_cmp(sa, sb) == bytes_cmp(
                sa.subrange(i as int, sa.len() as int),
                sb.subrange(i as int, sb.len() as int),
            ),
        decreases x.len() - i,
    {
        if x[i] < y[i] {
            return -1;
        }
        if x[i] > y[i] {
            return 1;
        }
        proof {
            lemma_bytes_cmp_suffix(sa, sb, i as int);
        }
        i = i + 1;
    }
    if x.len() == y.len() {
        0
    } else if i == x.len() {
        -1
    } else {
        1
    }
}

/// The texts of a list of strings, in order.
pub open spec fn texts(v: Seq<String>) -> Seq<Seq<char>> {
    Seq::new(v.len(), |i: int| v[i]@)
}

/// Position of the last occurrence of `s` in `names`, if any.
pub open spec fn last_position(names: Seq<Seq<char>>, s: Seq<char>) -> Option<int>
    decreases names.len(),
{
    if names.len() == 0 {
        None
    } else if names.last() == s {
        Some(names.len() - 1)
    } else {
        last_position(names.drop_last(), s)
    }
}

pub proof fn lemma_last_position_bounds(names: Seq<Seq<char>>, s: Seq<char>)
    ensures
        match last_position(names, s) {
            Some(i) => 0 <= i < names.len() && names[i] == s && forall|j: int|
                i < j < names.len() ==> names[j] != s,
            None => forall|j: int| 0 <= j < names.len() ==> names[j] != s,
        },
    decreases names.len(),
{
    if names.len() > 0 && names.last() != s {
        let rest = names.drop_last();
        lemma_last_position_bounds(rest, s);
        assert forall|j: int| 0 <= j < rest.len() implies rest[j] == names[j] by {}
    }
}

/// Position of the last occurrence of `s` in `names`.
pub fn position_of(names: &Vec<String>, s: &String) -> (r: Option<usize>)
    ensures
        match r {
            Some(i) => i < names@.len() && last_position(texts(names@), s@) == Some(i as int),
            None => last_position(texts(names@), s@) is None,
        },
{
    let ghost all = texts(names@);
    let mut i: usize = names.len();
    proof {
        assert(all.subrange(0, i as int) =~= all);
    }
    while i > 0
        invariant
            i <= names@.len(),
            all == texts(names@),
            last_position(all, s@) == last_position(all.subrange(0, i as int), s@),
        decreases i,
    {
        proof {
            assert(all.subrange(0, i as int).drop_last() =~= all.subrange(0, i - 1));
        }
        if names[i - 1] == *s {
            return Some(i - 1);
        }
        i = i - 1;
    }
    proof {
        lemma_last_position_bounds(all, s@);
    }
    None
}

} // verus!
