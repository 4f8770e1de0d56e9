//! Facts about orders that the renderer and the planner sort by: text order
//! is a total order, and two lists sorted by a total preorder that hold the
//! same elements agree wherever tied elements agree.
use vstd::prelude::*;
use crate::renderer::chars_order;

verus! {

broadcast use vstd::seq_lib::group_to_multiset_ensures;

/// Text order is antisymmetric.
pub proof fn lemma_chars_order_flip(a: Seq<char>, b: Seq<char>)
    ensures
        chars_order(a, b) == -chars_order(b, a),
    decreases a.len(),
{
    if a.len() > 0 && b.len() > 0 && (a[0] as u32) == (b[0] as u32) {
        lemma_chars_order_flip(a.drop_first(), b.drop_first());
    }
}

/// Characters with the same code point are the same character.
proof fn lemma_char_code(c: char, d: char)
    ensures
        (c as u32) == (d as u32) ==> c == d,
{
    assert((c as u32) as int == c as int);
    assert((d as u32) as int == d as int);
}

/// Text order ties only equal texts.
pub proof fn lemma_chars_order_equal(a: Seq<char>, b: Seq<char>)
    ensures
        chars_order(a, b) == 0 <==> a == b,
    decreases a.len(),
{
    if a.len() == 0 {
        if b.len() == 0 {
            assert(a =~= b);
        }
    } else if b.len() > 0 && (a[0] as u32) == (b[0] as u32) {
        lemma_chars_order_equal(a.drop_first(), b.drop_first());
        lemma_char_code(a[0], b[0]);
        assert(a[0] == b[0]);
        if a.drop_first() == b.drop_first() {
            assert forall|i: int| 0 <= i < a.len() implies a[i] == b[i] by {
                if i > 0 {
                    assert(a[i] == a.drop_first()[i - 1]);
                    assert(b[i] == b.drop_first()[i - 1]);
                }
            }
            assert(a =~= b);
        }
        if a == b {
            assert(a.drop_first() =~= b.drop_first());
        }
    } else if b.len() > 0 {
        if a == b {
            assert(a[0] == b[0]);
            assert((a[0] as u32) == (b[0] as u32));
        }
    }
}

/// Text order is transitive.
pub proof fn lemma_chars_order_trans(a: Seq<char>, b: Seq<char>, c: Seq<char>)
    requires
        chars_order(a, b) <= 0,
        chars_order(b, c) <= 0,
    ensures
        chars_order(a, c) <= 0,
    decreases a.len(),
{
    if a.len() > 0 && b.len() > 0 && c.len() > 0 && (a[0] as u32) == (b[0] as u32) && (b[0] as u32)
        == (c[0] as u32) {
        lemma_chars_order_trans(a.drop_first(), b.drop_first(), c.drop_first());
    }
}

/// Text order is transitive, strictly when either step is strict.
pub proof fn lemma_chars_order_strict(a: Seq<char>, b: Seq<char>, c: Seq<char>)
    requires
        chars_order(a, b) <= 0,
        chars_order(b, c) <= 0,
        chars_order(a, b) < 0 || chars_order(b, c) < 0,
    ensures
        chars_order(a, c) < 0,
{
    lemma_chars_order_trans(a, b, c);
    lemma_chars_order_equal(a, c);
    if chars_order(a, c) == 0 {
        lemma_chars_order_flip(a, b);
        lemma_chars_order_flip(b, c);
        lemma_chars_order_equal(a, b);
        lemma_chars_order_equal(b, c);
    }
}

/// A list in order: every element orders before or with every later one.
pub open spec fn sorted_by<T>(s: Seq<T>, le: spec_fn(T, T) -> bool) -> bool {
    forall|i: int, j: int| 0 <= i < j < s.len() ==> #[trigger] le(s[i], s[j])
}

/// A total preorder: any two elements are ordered, and order is transitive.
pub open spec fn total_preorder<T>(le: spec_fn(T, T) -> bool) -> bool {
    &&& forall|x: T, y: T| #[trigger] le(x, y) || le(y, x)
    &&& forall|x: T, y: T, z: T| #[trigger] le(x, y) && #[trigger] le(y, z) ==> le(x, z)
}

/// Two elements that order before or with each other.
pub open spec fn tied<T>(le: spec_fn(T, T) -> bool, x: T, y: T) -> bool {
    le(x, y) && le(y, x)
}

/// Within a list, tied elements have the same image.
pub open spec fn ties_agree<T, U>(s: Seq<T>, le: spec_fn(T, T) -> bool, f: spec_fn(T) -> U) -> bool {
    forall|x: T, y: T| s.contains(x) && s.contains(y) && #[trigger] tied(le, x, y) ==> f(x) == f(y)
}

/// Two lists sorted by the same total preorder and holding the same
/// elements have the same images, element by element, when tied elements
/// have the same image.
pub proof fn lemma_sorted_images<T, U>(
    s: Seq<T>,
    t: Seq<T>,
    le: spec_fn(T, T) -> bool,
    f: spec_fn(T) -> U,
)
    requires
        total_preorder(le),
        sorted_by(s, le),
        sorted_by(t, le),
        s.to_multiset() == t.to_multiset(),
        ties_agree(s, le, f),
    ensures
        s.map_values(f) == t.map_values(f),
    decreases s.len(),
{
    assert(s.len() == t.len()) by {
        assert(s.len() == s.to_multiset().len());
        assert(t.len() == t.to_multiset().len());
    }
    if s.len() == 0 {
        assert(s.map_values(f) =~= t.map_values(f));
    } else {
        let n = s.len() as int;
        let x = s.last();
        let y = t.last();
        assert(s.contains(x)) by {
            assert(s[n - 1] == x);
        }
        assert(s.to_multiset().count(x) > 0);
        assert(t.contains(x));
        let j = choose|j: int| 0 <= j < t.len() && t[j] == x;
        assert(t.contains(y)) by {
            assert(t[n - 1] == y);
        }
        assert(t.to_multiset().count(y) > 0);
        assert(s.contains(y));
        let k = choose|k: int| 0 <= k < s.len() && s[k] == y;
        assert(le(y, x)) by {
            if k < n - 1 {
                assert(le(s[k], s[n - 1]));
            } else {
                assert(le(x, x) || le(x, x));
            }
        }
        assert(le(x, y)) by {
            if j < n - 1 {
                assert(le(t[j], t[n - 1]));
            } else {
                assert(le(y, y) || le(y, y));
            }
        }
        let sd = s.drop_last();
        let u = t.remove(j);
        assert(s =~= sd.push(x));
        assert(sd.to_multiset() =~= s.to_multiset().remove(x)) by {
            assert(sd.push(x).to_multiset() =~= sd.to_multiset().insert(x));
        }
        assert(u.to_multiset() =~= t.to_multiset().remove(x));
        assert(sorted_by(sd, le)) by {
            assert forall|a: int, b: int| 0 <= a < b < sd.len() implies #[trigger] le(sd[a], sd[b]) by {
                assert(le(s[a], s[b]));
            }
        }
        assert(sorted_by(u, le)) by {
            assert forall|a: int, b: int| 0 <= a < b < u.len() implies #[trigger] le(u[a], u[b]) by {
                let a2 = if a < j { a } else { a + 1 };
                let b2 = if b < j { b } else { b + 1 };
                assert(u[a] == t[a2]);
                assert(u[b] == t[b2]);
                assert(le(t[a2], t[b2]));
            }
        }
        assert(ties_agree(sd, le, f)) by {
            assert forall|p: T, q: T| sd.contains(p) && sd.contains(q) && #[trigger] tied(le, p, q)
                implies f(p) == f(q) by {
                let a = choose|a: int| 0 <= a < sd.len() && sd[a] == p;
                let b = choose|b: int| 0 <= b < sd.len() && sd[b] == q;
                assert(s[a] == p && s[b] == q);
            }
        }
        lemma_sorted_images(sd, u, le, f);
        // Every element of `t` from `x`'s position on is tied with `x`.
        assert forall|m: int| j <= m < n implies f(#[trigger] t[m]) == f(x) by {
            if m > j {
                assert(le(t[j], t[m]));
            } else {
                assert(le(x, x) || le(x, x));
            }
            if m < n - 1 {
                assert(le(t[m], t[n - 1]));
                assert(le(t[m], y) && le(y, x) ==> le(t[m], x));
            } else {
                assert(t[m] == y);
            }
            assert(tied(le, t[m], x));
            assert(t.to_multiset().count(t[m]) > 0) by {
                assert(t.contains(t[m]));
            }
            assert(s.contains(t[m]));
        }
        assert(s.map_values(f) =~= t.map_values(f)) by {
            assert forall|m: int| 0 <= m < n implies s.map_values(f)[m] == t.map_values(f)[m] by {
                if m < n - 1 {
                    assert(s.map_values(f)[m] == sd.map_values(f)[m]);
                    assert(sd.map_values(f)[m] == u.map_values(f)[m]);
                    if m < j {
                        assert(u[m] == t[m]);
                    } else {
                        assert(u[m] == t[m + 1]);
                        assert(f(t[m + 1]) == f(x));
                        assert(f(t[m]) == f(x));
                    }
                } else {
                    assert(f(t[m]) == f(x));
                }
            }
        }
    }
}

} // verus!
