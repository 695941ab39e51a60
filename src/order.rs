use vstd::prelude::*;

verus! {

/// `a` and `b` agree on their first `i` bytes, and there `a` ends while `b`
/// goes on, or `a`'s byte is the smaller.
pub open spec fn lt_at(a: Seq<u8>, b: Seq<u8>, i: int) -> bool {
    &&& 0 <= i <= a.len()
    &&& i <= b.len()
    &&& a.subrange(0, i) == b.subrange(0, i)
    &&& ((i == a.len() && i < b.len()) || (i < a.len() && i < b.len() && a[i] < b[i]))
}

/// Strict lexicographic order on byte strings: a proper prefix comes first.
pub open spec fn seq_lt(a: Seq<u8>, b: Seq<u8>) -> bool {
    exists|i: int| #[trigger] lt_at(a, b, i)
}

/// Whether `a` comes strictly before `b` in lexicographic order.
pub fn bytes_lt(a: &[u8], b: &[u8]) -> (r: bool)
    ensures
        r == seq_lt(a@, b@),
{
    let mut i: usize = 0;
    while i < a.len() && i < b.len() && a[i] == b[i]
        invariant
            0 <= i <= a@.len(),
            i <= b@.len(),
            forall|j: int| 0 <= j < i ==> a@[j] == b@[j],
        decreases a@.len() - i,
    {
        i = i + 1;
    }
    assert(a@.subrange(0, i as int) =~= b@.subrange(0, i as int));
    let r = if i < a.len() && i < b.len() {
        a[i] < b[i]
    } else {
        a.len() < b.len()
    };
    proof {
        if !r && seq_lt(a@, b@) {
            let j = choose|j: int| lt_at(a@, b@, j);
            if j < i {
                assert(a@[j] == b@[j]);
            } else if j > i {
                assert(a@.subrange(0, j)[i as int] == b@.subrange(0, j)[i as int]);
            }
        }
    }
    if r {
        assert(lt_at(a@, b@, i as int));
    }
    r
}

} // verus!

verus! {

pub proof fn lemma_seq_lt_irreflexive(a: Seq<u8>)
    ensures
        !seq_lt(a, a),
{
}

pub proof fn lemma_seq_lt_transitive(a: Seq<u8>, b: Seq<u8>, c: Seq<u8>)
    requires
        seq_lt(a, b),
        seq_lt(b, c),
    ensures
        seq_lt(a, c),
{
    let i = choose|i: int| lt_at(a, b, i);
    let j = choose|j: int| lt_at(b, c, j);
    if i < j {
        assert(b.subrange(0, j)[i] == c.subrange(0, j)[i]);
        assert(a.subrange(0, i) =~= c.subrange(0, i)) by {
            assert forall|k: int| 0 <= k < i implies a[k] == c[k] by {
                assert(a.subrange(0, i)[k] == b.subrange(0, i)[k]);
                assert(b.subrange(0, j)[k] == c.subrange(0, j)[k]);
            }
        }
        assert(lt_at(a, c, i));
    } else if j < i {
        assert(a.subrange(0, i)[j] == b.subrange(0, i)[j]);
        assert(a.subrange(0, j) =~= c.subrange(0, j)) by {
            assert forall|k: int| 0 <= k < j implies a[k] == c[k] by {
                assert(a.subrange(0, i)[k] == b.subrange(0, i)[k]);
                assert(b.subrange(0, j)[k] == c.subrange(0, j)[k]);
            }
        }
        assert(lt_at(a, c, j));
    } else {
        assert(a.subrange(0, i) =~= c.subrange(0, i));
        assert(lt_at(a, c, i));
    }
}

proof fn lemma_seq_lt_total_from(a: Seq<u8>, b: Seq<u8>, i: int)
    requires
        a != b,
        0 <= i <= a.len(),
        i <= b.len(),
        a.subrange(0, i) == b.subrange(0, i),
    ensures
        seq_lt(a, b) || seq_lt(b, a),
    decreases a.len() - i,
{
    if i == a.len() || i == b.len() {
        if a.len() == b.len() {
            assert(a =~= a.subrange(0, i));
            assert(b =~= b.subrange(0, i));
        } else if i == a.len() {
            assert(lt_at(a, b, i));
        } else {
            assert(lt_at(b, a, i));
        }
    } else if a[i] != b[i] {
        if a[i] < b[i] {
            assert(lt_at(a, b, i));
        } else {
            assert(lt_at(b, a, i));
        }
    } else {
        assert(a.subrange(0, i + 1) =~= a.subrange(0, i).push(a[i]));
        assert(b.subrange(0, i + 1) =~= b.subrange(0, i).push(b[i]));
        lemma_seq_lt_total_from(a, b, i + 1);
    }
}

pub proof fn lemma_seq_lt_total(a: Seq<u8>, b: Seq<u8>)
    requires
        a != b,
    ensures
        seq_lt(a, b) || seq_lt(b, a),
{
    assert(a.subrange(0, 0) =~= b.subrange(0, 0));
    lemma_seq_lt_total_from(a, b, 0);
}

} // verus!

verus! {

/// `acc` with `x` inserted before the first element that is not below it in
/// lexicographic order, unless `x` is there already.
pub open spec fn bytes_ins(acc: Seq<Seq<u8>>, x: Seq<u8>) -> Seq<Seq<u8>>
    decreases acc.len(),
{
    if acc.len() == 0 {
        seq![x]
    } else if acc[0] == x {
        acc
    } else if seq_lt(x, acc[0]) {
        seq![x] + acc
    } else {
        seq![acc[0]] + bytes_ins(acc.drop_first(), x)
    }
}

/// Inserts each element of `xs` in turn.
pub open spec fn bytes_ins_all(acc: Seq<Seq<u8>>, xs: Seq<Seq<u8>>) -> Seq<Seq<u8>>
    decreases xs.len(),
{
    if xs.len() == 0 {
        acc
    } else {
        bytes_ins_all(bytes_ins(acc, xs[0]), xs.drop_first())
    }
}

pub proof fn lemma_bytes_ins_all_push(acc: Seq<Seq<u8>>, a: Seq<Seq<u8>>, x: Seq<u8>)
    ensures
        bytes_ins_all(acc, a.push(x)) == bytes_ins(bytes_ins_all(acc, a), x),
    decreases a.len(),
{
    if a.len() > 0 {
        assert(a.push(x)[0] == a[0]);
        assert(a.push(x).drop_first() =~= a.drop_first().push(x));
        lemma_bytes_ins_all_push(bytes_ins(acc, a[0]), a.drop_first(), x);
    } else {
        let s = a.push(x);
        assert(s[0] == x);
        assert(s.drop_first() =~= Seq::<Seq<u8>>::empty());
        assert(bytes_ins_all(bytes_ins(acc, x), s.drop_first()) == bytes_ins(acc, x));
        assert(a =~= Seq::<Seq<u8>>::empty());
    }
}

/// Where `x` goes in `v` (sorted), and whether it is there already.
pub fn bytes_position(v: &Vec<[u8; 31]>, x: &[u8; 31]) -> (r: (usize, bool))
    ensures
        ({
            let sv = v@.map_values(|s: [u8; 31]| s@);
            &&& r.0 <= v@.len()
            &&& r.1 ==> r.0 < v@.len() && bytes_ins(sv, x@) == sv
            &&& !r.1 ==> bytes_ins(sv, x@) == sv.insert(r.0 as int, x@)
        }),
{
    let ghost sv = v@.map_values(|s: [u8; 31]| s@);
    let ghost n = sv.len() as int;
    let mut i: usize = 0;
    assert(sv.subrange(0, 0) + sv.subrange(0, n) =~= sv);
    while i < v.len()
        invariant
            sv == v@.map_values(|s: [u8; 31]| s@),
            n == sv.len(),
            0 <= i <= n,
            bytes_ins(sv, x@) == sv.subrange(0, i as int) + bytes_ins(sv.subrange(i as int, n), x@),
        decreases n - i,
    {
        let ghost sub = sv.subrange(i as int, n);
        assert(sub[0] == v@[i as int]@);
        if crate::bytes::bytes_eq(&v[i], x) {
            assert(sv.subrange(0, i as int) + sub =~= sv);
            return (i, true);
        }
        if bytes_lt(x, &v[i]) {
            assert(sv.subrange(0, i as int) + (seq![x@] + sub) =~= sv.insert(i as int, x@));
            return (i, false);
        }
        assert(sub.drop_first() =~= sv.subrange(i + 1, n));
        assert(sv.subrange(0, i as int) + (seq![sv[i as int]] + bytes_ins(sub.drop_first(), x@)) =~= sv.subrange(
            0,
            i + 1,
        ) + bytes_ins(sv.subrange(i + 1, n), x@));
        i = i + 1;
    }
    assert(sv.subrange(n, n) =~= Seq::<Seq<u8>>::empty());
    assert(sv.subrange(0, n) + seq![x@] =~= sv.insert(n, x@));
    (i, false)
}

} // verus!

verus! {

/// Strictly ascending in lexicographic order.
pub open spec fn bytes_ascending(s: Seq<Seq<u8>>) -> bool {
    forall|i: int, j: int| 0 <= i < j < s.len() ==> seq_lt(#[trigger] s[i], #[trigger] s[j])
}

proof fn lemma_bytes_ins_contains(acc: Seq<Seq<u8>>, x: Seq<u8>, y: Seq<u8>)
    ensures
        bytes_ins(acc, x).contains(y) ==> acc.contains(y) || y == x,
    decreases acc.len(),
{
    let r = bytes_ins(acc, x);
    if r.contains(y) {
        let j = choose|j: int| 0 <= j < r.len() && r[j] == y;
        if acc.len() == 0 {
        } else if acc[0] == x {
        } else if seq_lt(x, acc[0]) {
            if j > 0 {
                assert(acc[j - 1] == y);
            }
        } else {
            if j == 0 {
                assert(acc[0] == y);
            } else {
                let rest = acc.drop_first();
                lemma_bytes_ins_contains(rest, x, y);
                assert(bytes_ins(rest, x)[j - 1] == y);
                if rest.contains(y) {
                    let k = choose|k: int| 0 <= k < rest.len() && rest[k] == y;
                    assert(acc[k + 1] == y);
                }
            }
        }
    }
}

pub proof fn lemma_bytes_ins_ascending(acc: Seq<Seq<u8>>, x: Seq<u8>)
    requires
        bytes_ascending(acc),
    ensures
        bytes_ascending(bytes_ins(acc, x)),
    decreases acc.len(),
{
    if acc.len() > 0 && acc[0] != x {
        let r = bytes_ins(acc, x);
        if seq_lt(x, acc[0]) {
            assert forall|i: int, j: int| 0 <= i < j < r.len() implies seq_lt(#[trigger] r[i], #[trigger] r[j]) by {
                if i == 0 {
                    if j > 1 {
                        lemma_seq_lt_transitive(x, acc[0], acc[j - 1]);
                    }
                } else {
                    assert(r[i] == acc[i - 1] && r[j] == acc[j - 1]);
                }
            }
        } else {
            let rest = acc.drop_first();
            assert(bytes_ascending(rest)) by {
                assert forall|i: int, j: int| 0 <= i < j < rest.len() implies seq_lt(#[trigger] rest[i], #[trigger] rest[j]) by {
                    assert(rest[i] == acc[i + 1] && rest[j] == acc[j + 1]);
                }
            }
            lemma_bytes_ins_ascending(rest, x);
            let t = bytes_ins(rest, x);
            lemma_seq_lt_total(acc[0], x);
            assert forall|i: int, j: int| 0 <= i < j < r.len() implies seq_lt(#[trigger] r[i], #[trigger] r[j]) by {
                if i == 0 {
                    assert(r[j] == t[j - 1]);
                    lemma_bytes_ins_contains(rest, x, t[j - 1]);
                    assert(t.contains(t[j - 1]));
                    if t[j - 1] != x {
                        let k = choose|k: int| 0 <= k < rest.len() && rest[k] == t[j - 1];
                        assert(acc[k + 1] == rest[k]);
                    }
                } else {
                    assert(r[i] == t[i - 1] && r[j] == t[j - 1]);
                }
            }
        }
    }
}

pub proof fn lemma_bytes_ins_all_ascending(acc: Seq<Seq<u8>>, xs: Seq<Seq<u8>>)
    requires
        bytes_ascending(acc),
    ensures
        bytes_ascending(bytes_ins_all(acc, xs)),
    decreases xs.len(),
{
    if xs.len() > 0 {
        lemma_bytes_ins_ascending(acc, xs[0]);
        lemma_bytes_ins_all_ascending(bytes_ins(acc, xs[0]), xs.drop_first());
    }
}

} // verus!
