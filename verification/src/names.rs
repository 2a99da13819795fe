//! The order of variable names: that of `str`, byte by byte on the UTF-8
//! encoding.

use vstd::prelude::*;
use vstd::string::StringSliceAdditionalSpecFns;
use vstd::utf8::{
    decode_utf8, encode_utf8, encode_utf8_decode_utf8, is_ascii_chars, is_ascii_chars_encode_utf8,
};

verus! {

/// The names held by a list of strings.
pub open spec fn names_of(strings: Seq<String>) -> Seq<Seq<char>> {
    Seq::new(strings.len(), |i: int| strings[i]@)
}

/// `a` comes before `b` in the lexicographic order of byte sequences.
pub open spec fn bytes_before(a: Seq<u8>, b: Seq<u8>) -> bool
    decreases a.len(),
{
    if b.len() == 0 {
        false
    } else if a.len() == 0 {
        true
    } else if a[0] != b[0] {
        a[0] < b[0]
    } else {
        bytes_before(a.drop_first(), b.drop_first())
    }
}

/// `a` comes before `b` in the order of names.
pub open spec fn name_before(a: Seq<char>, b: Seq<char>) -> bool {
    bytes_before(encode_utf8(a), encode_utf8(b))
}

/// Each name comes before all that follow it.
pub open spec fn strictly_sorted(names: Seq<Seq<char>>) -> bool {
    forall|i: int, j: int| 0 <= i < j < names.len() ==> name_before(names[i], names[j])
}

/// No byte sequence comes before itself.
pub proof fn lemma_bytes_irreflexive(a: Seq<u8>)
    ensures
        !bytes_before(a, a),
    decreases a.len(),
{
    if a.len() > 0 {
        lemma_bytes_irreflexive(a.drop_first());
    }
}

/// The order of byte sequences is transitive.
pub proof fn lemma_bytes_transitive(a: Seq<u8>, b: Seq<u8>, c: Seq<u8>)
    requires
        bytes_before(a, b),
        bytes_before(b, c),
    ensures
        bytes_before(a, c),
    decreases a.len(),
{
    if a.len() > 0 && a[0] == b[0] && b[0] == c[0] {
        lemma_bytes_transitive(a.drop_first(), b.drop_first(), c.drop_first());
    }
}

/// Of two different byte sequences one comes before the other.
pub proof fn lemma_bytes_total(a: Seq<u8>, b: Seq<u8>)
    ensures
        bytes_before(a, b) || a == b || bytes_before(b, a),
    decreases a.len(),
{
    if a.len() == 0 || b.len() == 0 {
        if a.len() == 0 && b.len() == 0 {
            assert(a =~= b);
        }
    } else if a[0] == b[0] {
        lemma_bytes_total(a.drop_first(), b.drop_first());
        if a.drop_first() == b.drop_first() {
            assert(a =~= seq![a[0]] + a.drop_first());
            assert(b =~= seq![b[0]] + b.drop_first());
        }
    }
}

/// No name comes before itself.
pub proof fn lemma_name_irreflexive(a: Seq<char>)
    ensures
        !name_before(a, a),
{
    lemma_bytes_irreflexive(encode_utf8(a));
}

/// The order of names is transitive.
pub proof fn lemma_name_transitive(a: Seq<char>, b: Seq<char>, c: Seq<char>)
    requires
        name_before(a, b),
        name_before(b, c),
    ensures
        name_before(a, c),
{
    lemma_bytes_transitive(encode_utf8(a), encode_utf8(b), encode_utf8(c));
}

/// Of two different names one comes before the other.
pub proof fn lemma_name_total(a: Seq<char>, b: Seq<char>)
    ensures
        name_before(a, b) || a == b || name_before(b, a),
{
    lemma_bytes_total(encode_utf8(a), encode_utf8(b));
    if encode_utf8(a) == encode_utf8(b) {
        encode_utf8_decode_utf8(a);
        encode_utf8_decode_utf8(b);
        assert(decode_utf8(encode_utf8(a)) == decode_utf8(encode_utf8(b)));
    }
}

/// `a` comes before `b` in the lexicographic order of character sequences.
pub open spec fn chars_before(a: Seq<char>, b: Seq<char>) -> bool
    decreases a.len(),
{
    if b.len() == 0 {
        false
    } else if a.len() == 0 {
        true
    } else if a[0] != b[0] {
        a[0] < b[0]
    } else {
        chars_before(a.drop_first(), b.drop_first())
    }
}

proof fn lemma_bytes_of_ascii(a: Seq<u8>, b: Seq<u8>, x: Seq<char>, y: Seq<char>)
    requires
        is_ascii_chars(x),
        is_ascii_chars(y),
        a.len() == x.len(),
        b.len() == y.len(),
        forall|i: int| 0 <= i < x.len() ==> x[i] as u8 == #[trigger] a[i],
        forall|i: int| 0 <= i < y.len() ==> y[i] as u8 == #[trigger] b[i],
    ensures
        bytes_before(a, b) == chars_before(x, y),
    decreases a.len(),
{
    if a.len() > 0 && b.len() > 0 {
        assert(x[0] as u8 == a[0]);
        assert(y[0] as u8 == b[0]);
        assert('\0' <= x[0] <= '\u{7f}');
        assert('\0' <= y[0] <= '\u{7f}');
        if a[0] == b[0] {
            let a1 = a.drop_first();
            let b1 = b.drop_first();
            let x1 = x.drop_first();
            let y1 = y.drop_first();
            assert forall|i: int| 0 <= i < x1.len() implies x1[i] as u8 == #[trigger] a1[i] by {
                assert(x[i + 1] as u8 == a[i + 1]);
            }
            assert forall|i: int| 0 <= i < y1.len() implies y1[i] as u8 == #[trigger] b1[i] by {
                assert(y[i + 1] as u8 == b[i + 1]);
            }
            assert(is_ascii_chars(x1)) by {
                assert forall|i: int| 0 <= i < x1.len() implies '\0' <= #[trigger] x1[i]
                    <= '\u{7f}' by {
                    assert('\0' <= x[i + 1] <= '\u{7f}');
                }
            }
            assert(is_ascii_chars(y1)) by {
                assert forall|i: int| 0 <= i < y1.len() implies '\0' <= #[trigger] y1[i]
                    <= '\u{7f}' by {
                    assert('\0' <= y[i + 1] <= '\u{7f}');
                }
            }
            lemma_bytes_of_ascii(a1, b1, x1, y1);
        }
    }
}

/// For names of ASCII characters, such as those of the grammar, the order of
/// names is the lexicographic order of their characters.
pub proof fn lemma_ascii_names_by_characters(a: Seq<char>, b: Seq<char>)
    requires
        is_ascii_chars(a),
        is_ascii_chars(b),
    ensures
        name_before(a, b) == chars_before(a, b),
{
    is_ascii_chars_encode_utf8(a);
    is_ascii_chars_encode_utf8(b);
    lemma_bytes_of_ascii(encode_utf8(a), encode_utf8(b), a, b);
}

/// A strictly sorted sequence holds no name twice.
pub proof fn lemma_sorted_distinct(names: Seq<Seq<char>>)
    requires
        strictly_sorted(names),
    ensures
        names.no_duplicates(),
{
    assert forall|i: int, j: int| 0 <= i < names.len() && 0 <= j < names.len() && i != j implies names[i]
        != names[j] by {
        lemma_name_irreflexive(names[i]);
        if i < j {
            assert(name_before(names[i], names[j]));
        } else {
            assert(name_before(names[j], names[i]));
        }
    }
}

/// Two strictly sorted sequences that hold the same names are equal.
pub proof fn lemma_sorted_unique(a: Seq<Seq<char>>, b: Seq<Seq<char>>)
    requires
        strictly_sorted(a),
        strictly_sorted(b),
        forall|x: Seq<char>| a.contains(x) <==> b.contains(x),
    ensures
        a == b,
    decreases a.len(),
{
    if a.len() == 0 {
        if b.len() > 0 {
            assert(b.contains(b[0]));
            let k = choose|k: int| 0 <= k < a.len() && a[k] == b[0];
        }
        assert(a =~= b);
    } else {
        assert(a.contains(a[a.len() - 1]));
        let jb = choose|j: int| 0 <= j < b.len() && b[j] == a.last();
        assert(b.contains(b[b.len() - 1]));
        let ia = choose|i: int| 0 <= i < a.len() && a[i] == b.last();
        if jb < b.len() - 1 {
            assert(name_before(b[jb], b[b.len() - 1]));
            if ia < a.len() - 1 {
                assert(name_before(a[ia], a[a.len() - 1]));
                lemma_name_transitive(a.last(), b.last(), a.last());
            }
            lemma_name_irreflexive(a.last());
        }
        assert(a.last() == b.last());
        let fa = a.drop_last();
        let fb = b.drop_last();
        assert forall|x: Seq<char>| fa.contains(x) <==> fb.contains(x) by {
            lemma_name_irreflexive(x);
            if fa.contains(x) {
                let i = choose|i: int| 0 <= i < fa.len() && fa[i] == x;
                assert(a[i] == x);
                assert(name_before(a[i], a[a.len() - 1]));
                assert(a.contains(x));
                let j = choose|j: int| 0 <= j < b.len() && b[j] == x;
                assert(fb[j] == x);
            }
            if fb.contains(x) {
                let j = choose|j: int| 0 <= j < fb.len() && fb[j] == x;
                assert(b[j] == x);
                assert(name_before(b[j], b[b.len() - 1]));
                assert(b.contains(x));
                let i = choose|i: int| 0 <= i < a.len() && a[i] == x;
                assert(fa[i] == x);
            }
        }
        assert(strictly_sorted(fa)) by {
            assert forall|i: int, j: int| 0 <= i < j < fa.len() implies name_before(fa[i], fa[j]) by {
                assert(name_before(a[i], a[j]));
            }
        }
        assert(strictly_sorted(fb)) by {
            assert forall|i: int, j: int| 0 <= i < j < fb.len() implies name_before(fb[i], fb[j]) by {
                assert(name_before(b[i], b[j]));
            }
        }
        lemma_sorted_unique(fa, fb);
        assert(a =~= fa.push(a.last()));
        assert(b =~= fb.push(b.last()));
    }
}

/// Whether `a` comes before `b` in the order of names.
pub fn name_less(a: &str, b: &str) -> (less: bool)
    ensures
        less == name_before(a@, b@),
{
    let x = a.as_bytes();
    let y = b.as_bytes();
    let mut i: usize = 0;
    proof {
        assert(x@.skip(0) =~= x@);
        assert(y@.skip(0) =~= y@);
    }
    while i < x.len() && i < y.len()
        invariant
            x@ == encode_utf8(a@),
            y@ == encode_utf8(b@),
            i <= x@.len(),
            i <= y@.len(),
            bytes_before(x@, y@) == bytes_before(x@.skip(i as int), y@.skip(i as int)),
        decreases x@.len() - i,
    {
        proof {
            assert(x@.skip(i as int).drop_first() =~= x@.skip(i + 1));
            assert(y@.skip(i as int).drop_first() =~= y@.skip(i + 1));
        }
        if x[i] != y[i] {
            return x[i] < y[i];
        }
        i += 1;
    }
    i < y.len()
}

} // verus!
