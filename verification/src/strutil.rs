//! Verified string helpers: equality, lexicographic order and path joining,
//! specified over `Seq<char>` views.

use vstd::prelude::*;
use vstd::string::{StrSliceExecFns, StringExecFns};

verus! {

/// Lexicographic "strictly less" on character sequences.
pub open spec fn lex_lt(a: Seq<char>, b: Seq<char>) -> bool
    decreases a.len(),
{
    if b.len() == 0 {
        false
    } else if a.len() == 0 {
        true
    } else if a[0] != b[0] {
        a[0] < b[0]
    } else {
        lex_lt(a.drop_first(), b.drop_first())
    }
}

/// Orders characters for flat keys: the path separator `'.'` sorts below
/// every other character, so that flat keys order like their path vectors.
pub open spec fn key_char_lt(a: char, b: char) -> bool {
    if a == '.' {
        b != '.'
    } else {
        b != '.' && a < b
    }
}

/// "Strictly less" on flat keys: lexicographic, with characters compared by
/// [`key_char_lt`].  On keys whose segments are dot-free this is exactly the
/// element-wise lexicographic order of the decomposed path vectors
/// ([`lemma_key_lt_is_path_order`]).
pub open spec fn key_lt(a: Seq<char>, b: Seq<char>) -> bool
    decreases a.len(),
{
    if b.len() == 0 {
        false
    } else if a.len() == 0 {
        true
    } else if a[0] != b[0] {
        key_char_lt(a[0], b[0])
    } else {
        key_lt(a.drop_first(), b.drop_first())
    }
}

/// The order a hierarchical path vector sorts under: element-wise
/// lexicographic over the segments, shorter prefixes first.
pub open spec fn path_lt(a: Seq<Seq<char>>, b: Seq<Seq<char>>) -> bool
    decreases a.len(),
{
    if b.len() == 0 {
        false
    } else if a.len() == 0 {
        true
    } else if a[0] != b[0] {
        lex_lt(a[0], b[0])
    } else {
        path_lt(a.drop_first(), b.drop_first())
    }
}

/// Exactly one of `key_lt(a, b)`, `key_lt(b, a)` and `a == b` holds.
pub proof fn lemma_key_lt_total(a: Seq<char>, b: Seq<char>)
    ensures
        key_lt(a, b) || key_lt(b, a) || a == b,
        key_lt(a, b) ==> !key_lt(b, a) && a != b,
    decreases a.len(),
{
    if a.len() == 0 && b.len() == 0 {
        assert(a =~= b);
    } else if a.len() > 0 && b.len() > 0 && a[0] == b[0] {
        lemma_key_lt_total(a.drop_first(), b.drop_first());
        if a.drop_first() == b.drop_first() {
            assert forall|i: int| 0 <= i < a.len() implies a[i] == b[i] by {
                if i > 0 {
                    assert(a.drop_first()[i - 1] == b.drop_first()[i - 1]);
                }
            }
            assert(a =~= b);
        }
    }
}

/// The flat-key order is transitive.
pub proof fn lemma_key_lt_trans(a: Seq<char>, b: Seq<char>, c: Seq<char>)
    requires
        key_lt(a, b),
        key_lt(b, c),
    ensures
        key_lt(a, c),
    decreases a.len(),
{
    if a.len() > 0 && b.len() > 0 && c.len() > 0 {
        if a[0] == b[0] && b[0] == c[0] {
            lemma_key_lt_trans(a.drop_first(), b.drop_first(), c.drop_first());
        }
    }
}

/// String equality, decided character by character.
pub fn str_eq(a: &str, b: &str) -> (r: bool)
    ensures
        r == (a@ == b@),
{
    let a_len = a.unicode_len();
    let b_len = b.unicode_len();
    if a_len != b_len {
        return false;
    }
    let mut i: usize = 0;
    while i < a_len
        invariant
            0 <= i <= a_len,
            a_len == a@.len(),
            a_len == b@.len(),
            forall|j: int| 0 <= j < i ==> a@[j] == b@[j],
        decreases a_len - i,
    {
        if a.get_char(i) != b.get_char(i) {
            return false;
        }
        i = i + 1;
    }
    proof {
        assert(a@ =~= b@);
    }
    true
}

/// Whether the flat key `a` sorts strictly below `b`.
pub fn str_key_lt(a: &str, b: &str) -> (r: bool)
    ensures
        r == key_lt(a@, b@),
{
    let a_len = a.unicode_len();
    let b_len = b.unicode_len();
    let mut i: usize = 0;
    proof {
        assert(a@.skip(0) =~= a@);
        assert(b@.skip(0) =~= b@);
    }
    loop
        invariant
            0 <= i <= a_len,
            i <= b_len,
            a_len == a@.len(),
            b_len == b@.len(),
            forall|j: int| 0 <= j < i ==> a@[j] == b@[j],
            key_lt(a@, b@) == key_lt(a@.skip(i as int), b@.skip(i as int)),
        decreases a_len - i,
    {
        if i >= b_len {
            proof {
                assert(b@.skip(i as int).len() == 0);
            }
            return false;
        }
        if i >= a_len {
            proof {
                assert(a@.skip(i as int).len() == 0);
                assert(b@.skip(i as int).len() > 0);
            }
            return true;
        }
        let ca = a.get_char(i);
        let cb = b.get_char(i);
        if ca != cb {
            proof {
                assert(a@.skip(i as int)[0] == a@[i as int]);
                assert(b@.skip(i as int)[0] == b@[i as int]);
            }
            return if ca == '.' {
                true
            } else if cb == '.' {
                false
            } else {
                ca < cb
            };
        }
        proof {
            assert(a@.skip(i as int).drop_first() =~= a@.skip(i + 1));
            assert(b@.skip(i as int).drop_first() =~= b@.skip(i + 1));
            assert(a@.skip(i as int)[0] == a@[i as int]);
            assert(b@.skip(i as int)[0] == b@[i as int]);
        }
        i = i + 1;
    }
}

/// Builds the path segment of an enum variant field: `"{name}:{key}"`.
pub fn variant_seg(name: &str, key: &str) -> (r: String)
    ensures
        r@ == name@ + seq![':'] + key@,
{
    let mut s = String::new();
    s.append(name);
    s.append(":");
    proof {
        reveal_strlit(":");
        assert(":"@ =~= seq![':']);
    }
    s.append(key);
    s
}

/// Copies a list of strings; the copy has the same character sequences.
pub fn clone_strings(v: &Vec<String>) -> (r: Vec<String>)
    ensures
        r.deep_view() == v.deep_view(),
        r@.len() == v@.len(),
{
    let mut r: Vec<String> = Vec::new();
    let mut i: usize = 0;
    while i < v.len()
        invariant
            0 <= i <= v@.len(),
            r.deep_view() =~= v.deep_view().take(i as int),
        decreases v@.len() - i,
    {
        let x = v[i].clone();
        let ghost prev = r@;
        let ghost prevdv = r.deep_view();
        r.push(x);
        proof {
            assert(v.deep_view().len() == v@.len());
            assert(prevdv.len() == prev.len());
            assert(prev.len() == i);
            assert(r@ == prev.push(x));
            assert forall|j: int| 0 <= j < r@.len() implies r.deep_view()[j] == v.deep_view().take(
                i + 1,
            )[j] by {
                assert(r.deep_view()[j] == r@[j].deep_view());
                if j < i {
                    assert(r@[j] == prev[j]);
                    assert(prevdv[j] == prev[j].deep_view());
                    assert(prevdv[j] == v.deep_view().take(i as int)[j]);
                } else {
                    assert(r@[j] == x);
                    assert(x@ == v@[i as int]@);
                    assert(v.deep_view()[i as int] == v@[i as int].deep_view());
                }
            }
            assert(r.deep_view() =~= v.deep_view().take(i + 1));
        }
        i = i + 1;
    }
    proof {
        assert(v.deep_view().take(v@.len() as int) =~= v.deep_view());
    }
    r
}

/// The flat key of a hierarchical path: its segments joined by `'.'`.
pub open spec fn join_of(segs: Seq<Seq<char>>) -> Seq<char>
    decreases segs.len(),
{
    if segs.len() == 0 {
        Seq::empty()
    } else if segs.len() == 1 {
        segs[0]
    } else {
        segs[0] + seq!['.'] + join_of(segs.drop_first())
    }
}

/// Appending one more segment extends the joined key by `'.'` and the segment.
pub proof fn lemma_join_push(segs: Seq<Seq<char>>, x: Seq<char>)
    requires
        segs.len() >= 1,
    ensures
        join_of(segs.push(x)) =~= join_of(segs) + seq!['.'] + x,
    decreases segs.len(),
{
    if segs.len() == 1 {
        assert(segs.push(x)[0] == segs[0]);
        assert(segs.push(x).drop_first() =~= seq![x]);
        assert(join_of(seq![x]) == x);
    } else {
        assert(segs.push(x)[0] == segs[0]);
        assert(segs.push(x).drop_first() =~= segs.drop_first().push(x));
        lemma_join_push(segs.drop_first(), x);
    }
}

/// Joins path segments with `'.'` into one flat key.
pub fn join_path(segs: &Vec<String>) -> (r: String)
    ensures
        r@ == join_of(segs.deep_view()),
{
    let ghost dv = segs.deep_view();
    let mut out = String::new();
    let mut i: usize = 0;
    while i < segs.len()
        invariant
            0 <= i <= segs@.len(),
            dv == segs.deep_view(),
            dv.len() == segs@.len(),
            out@ =~= join_of(dv.take(i as int)),
        decreases segs@.len() - i,
    {
        if i > 0 {
            out.append(".");
            proof {
                reveal_strlit(".");
            }
        }
        out.append(segs[i].as_str());
        proof {
            assert(dv.take(i as int).push(dv[i as int]) =~= dv.take(i + 1));
            if i > 0 {
                lemma_join_push(dv.take(i as int), dv[i as int]);
            } else {
                assert(join_of(dv.take(1)) == dv.take(1)[0]);
            }
            assert(segs@[i as int]@ == dv[i as int]);
        }
        i = i + 1;
    }
    proof {
        assert(dv.take(dv.len() as int) =~= dv);
    }
    out
}


/// Joined keys determine their paths: two paths of nonempty dot-free
/// segments with the same flat key are equal.
pub proof fn lemma_join_injective(p1: Seq<Seq<char>>, p2: Seq<Seq<char>>)
    requires
        p1.len() > 0,
        p2.len() > 0,
        forall|i: int|
            0 <= i < p1.len() ==> (#[trigger] p1[i]).len() > 0 && !p1[i].contains('.'),
        forall|i: int|
            0 <= i < p2.len() ==> (#[trigger] p2[i]).len() > 0 && !p2[i].contains('.'),
        join_of(p1) == join_of(p2),
    ensures
        p1 == p2,
    decreases p1.len(),
{
    let s = join_of(p1);
    if p1.len() == 1 && p2.len() == 1 {
        assert(p1 =~= p2);
    } else if p1.len() == 1 {
        assert(s == p1[0]);
        assert(join_of(p2) == p2[0] + seq!['.'] + join_of(p2.drop_first()));
        assert(join_of(p2)[p2[0].len() as int] == '.');
        assert(p1[0][p2[0].len() as int] == '.');
        assert(p1[0].contains('.'));
    } else if p2.len() == 1 {
        assert(join_of(p2) == p2[0]);
        assert(s == p1[0] + seq!['.'] + join_of(p1.drop_first()));
        assert(s[p1[0].len() as int] == '.');
        assert(p2[0][p1[0].len() as int] == '.');
        assert(p2[0].contains('.'));
    } else {
        let a = p1[0];
        let b = p2[0];
        let ta = join_of(p1.drop_first());
        let tb = join_of(p2.drop_first());
        assert(s == a + seq!['.'] + ta);
        assert(join_of(p2) == b + seq!['.'] + tb);
        if a.len() < b.len() {
            assert(s[a.len() as int] == '.');
            assert(join_of(p2)[a.len() as int] == b[a.len() as int]);
            assert(b.contains('.'));
        } else if b.len() < a.len() {
            assert(join_of(p2)[b.len() as int] == '.');
            assert(s[b.len() as int] == a[b.len() as int]);
            assert(a.contains('.'));
        } else {
            assert forall|i: int| 0 <= i < a.len() implies a[i] == b[i] by {
                assert(s[i] == a[i]);
                assert(join_of(p2)[i] == b[i]);
            }
            assert(a =~= b);
            assert(ta.len() == tb.len());
            assert forall|i: int| 0 <= i < ta.len() implies ta[i] == tb[i] by {
                assert(s[a.len() + 1 + i] == ta[i]);
                assert(join_of(p2)[b.len() + 1 + i] == tb[i]);
            }
            assert(ta =~= tb);
            assert forall|i: int|
                0 <= i < p1.drop_first().len() implies (#[trigger] p1.drop_first()[i]).len() > 0
                && !p1.drop_first()[i].contains('.') by {
                assert(p1.drop_first()[i] == p1[i + 1]);
            }
            assert forall|i: int|
                0 <= i < p2.drop_first().len() implies (#[trigger] p2.drop_first()[i]).len() > 0
                && !p2.drop_first()[i].contains('.') by {
                assert(p2.drop_first()[i] == p2[i + 1]);
            }
            lemma_join_injective(p1.drop_first(), p2.drop_first());
            assert forall|i: int| 0 <= i < p1.len() implies p1[i] == p2[i] by {
                if i > 0 {
                    assert(p1.drop_first()[i - 1] == p2.drop_first()[i - 1]);
                }
            }
            assert(p1 =~= p2);
        }
    }
}


/// A common prefix cancels in the flat-key order.
proof fn lemma_key_lt_cancel(x: Seq<char>, a: Seq<char>, b: Seq<char>)
    ensures
        key_lt(x + a, x + b) == key_lt(a, b),
    decreases x.len(),
{
    if x.len() == 0 {
        assert(x + a =~= a);
        assert(x + b =~= b);
    } else {
        assert((x + a).len() > 0);
        assert((x + b).len() > 0);
        assert((x + a)[0] == x[0]);
        assert((x + b)[0] == x[0]);
        assert((x + a).drop_first() =~= x.drop_first() + a);
        assert((x + b).drop_first() =~= x.drop_first() + b);
        lemma_key_lt_cancel(x.drop_first(), a, b);
    }
}

/// On two different dot-free segments, the flat-key order of the keys they
/// head is the plain lexicographic order of the segments, whatever dot-led
/// tails follow.
proof fn lemma_key_lt_seg(s1: Seq<char>, s2: Seq<char>, t1: Seq<char>, t2: Seq<char>)
    requires
        s1 != s2,
        !s1.contains('.'),
        !s2.contains('.'),
        t1.len() == 0 || t1[0] == '.',
        t2.len() == 0 || t2[0] == '.',
    ensures
        key_lt(s1 + t1, s2 + t2) == lex_lt(s1, s2),
    decreases s1.len(),
{
    if s1.len() == 0 {
        assert(s2.len() > 0) by {
            if s2.len() == 0 {
                assert(s1 =~= s2);
            }
        }
        assert(s1 + t1 =~= t1);
        assert((s2 + t2)[0] == s2[0]);
        assert(s2[0] != '.') by {
            if s2[0] == '.' {
                assert(s2.contains('.'));
            }
        }
        if t1.len() == 0 {
            assert(key_lt(t1, s2 + t2));
        } else {
            assert(t1[0] == '.');
            assert(key_char_lt('.', s2[0]));
            assert(key_lt(t1, s2 + t2));
        }
        assert(lex_lt(s1, s2));
    } else if s2.len() == 0 {
        assert(s2 + t2 =~= t2);
        assert((s1 + t1)[0] == s1[0]);
        assert(s1[0] != '.') by {
            if s1[0] == '.' {
                assert(s1.contains('.'));
            }
        }
        if t2.len() == 0 {
            assert(!key_lt(s1 + t1, t2));
        } else {
            assert(t2[0] == '.');
            assert(!key_char_lt(s1[0], '.'));
            assert(!key_lt(s1 + t1, t2));
        }
        assert(!lex_lt(s1, s2));
    } else if s1[0] != s2[0] {
        assert((s1 + t1)[0] == s1[0]);
        assert((s2 + t2)[0] == s2[0]);
        assert(s1[0] != '.') by {
            if s1[0] == '.' {
                assert(s1.contains('.'));
            }
        }
        assert(s2[0] != '.') by {
            if s2[0] == '.' {
                assert(s2.contains('.'));
            }
        }
        assert(key_char_lt(s1[0], s2[0]) == (s1[0] < s2[0]));
    } else {
        assert((s1 + t1)[0] == s1[0]);
        assert((s2 + t2)[0] == s2[0]);
        assert((s1 + t1).drop_first() =~= s1.drop_first() + t1);
        assert((s2 + t2).drop_first() =~= s2.drop_first() + t2);
        assert(s1.drop_first() != s2.drop_first()) by {
            if s1.drop_first() == s2.drop_first() {
                assert(s1.len() == s2.len());
                assert forall|i: int| 0 <= i < s1.len() implies s1[i] == s2[i] by {
                    if i > 0 {
                        assert(s1.drop_first()[i - 1] == s2.drop_first()[i - 1]);
                    }
                }
                assert(s1 =~= s2);
            }
        }
        assert(!s1.drop_first().contains('.')) by {
            if s1.drop_first().contains('.') {
                let i = choose|i: int|
                    0 <= i < s1.drop_first().len() && s1.drop_first()[i] == '.';
                assert(s1[i + 1] == '.');
                assert(s1.contains('.'));
            }
        }
        assert(!s2.drop_first().contains('.')) by {
            if s2.drop_first().contains('.') {
                let i = choose|i: int|
                    0 <= i < s2.drop_first().len() && s2.drop_first()[i] == '.';
                assert(s2[i + 1] == '.');
                assert(s2.contains('.'));
            }
        }
        lemma_key_lt_seg(s1.drop_first(), s2.drop_first(), t1, t2);
    }
}

/// The serialized sort order is the path order: on paths of dot-free
/// segments, comparing the dot-joined flat keys with [`key_lt`] decides
/// exactly the element-wise lexicographic order of the path vectors.
pub proof fn lemma_key_lt_is_path_order(p1: Seq<Seq<char>>, p2: Seq<Seq<char>>)
    requires
        p1.len() > 0,
        p2.len() > 0,
        forall|i: int| 0 <= i < p1.len() ==> !(#[trigger] p1[i]).contains('.'),
        forall|i: int| 0 <= i < p2.len() ==> !(#[trigger] p2[i]).contains('.'),
    ensures
        key_lt(join_of(p1), join_of(p2)) == path_lt(p1, p2),
    decreases p1.len(),
{
    let s1 = p1[0];
    let s2 = p2[0];
    let t1: Seq<char> = if p1.len() == 1 {
        Seq::empty()
    } else {
        seq!['.'] + join_of(p1.drop_first())
    };
    let t2: Seq<char> = if p2.len() == 1 {
        Seq::empty()
    } else {
        seq!['.'] + join_of(p2.drop_first())
    };
    assert(join_of(p1) =~= s1 + t1);
    assert(join_of(p2) =~= s2 + t2);
    if s1 != s2 {
        lemma_key_lt_seg(s1, s2, t1, t2);
    } else {
        lemma_key_lt_cancel(s1, t1, t2);
        assert(key_lt(join_of(p1), join_of(p2)) == key_lt(t1, t2));
        if p1.len() == 1 && p2.len() == 1 {
            assert(!key_lt(t1, t2));
            assert(p2.drop_first().len() == 0);
            assert(!path_lt(p1.drop_first(), p2.drop_first()));
            assert(!path_lt(p1, p2));
        } else if p1.len() == 1 {
            assert(t2.len() > 0);
            assert(key_lt(t1, t2));
            assert(p1.drop_first().len() == 0);
            assert(p2.drop_first().len() > 0);
            assert(path_lt(p1.drop_first(), p2.drop_first()));
            assert(path_lt(p1, p2));
        } else if p2.len() == 1 {
            assert(!key_lt(t1, t2));
            assert(p2.drop_first().len() == 0);
            assert(!path_lt(p1.drop_first(), p2.drop_first()));
            assert(!path_lt(p1, p2));
        } else {
            assert(t1[0] == '.');
            assert(t2[0] == '.');
            assert(t1.drop_first() =~= join_of(p1.drop_first()));
            assert(t2.drop_first() =~= join_of(p2.drop_first()));
            assert(key_lt(t1, t2) == key_lt(join_of(p1.drop_first()), join_of(p2.drop_first())));
            assert forall|i: int|
                0 <= i < p1.drop_first().len() implies !(
                #[trigger] p1.drop_first()[i]).contains('.') by {
                assert(p1.drop_first()[i] == p1[i + 1]);
            }
            assert forall|i: int|
                0 <= i < p2.drop_first().len() implies !(
                #[trigger] p2.drop_first()[i]).contains('.') by {
                assert(p2.drop_first()[i] == p2[i + 1]);
            }
            lemma_key_lt_is_path_order(p1.drop_first(), p2.drop_first());
        }
    }
}

} // verus!
