use vstd::prelude::*;
use crate::bytes::{bytes_eq, prefix_of, stem_of_key};
use crate::bytes::to_vec;
use crate::order::{bytes_lt, lt_at, seq_lt};
use crate::node::{BranchChild, VerkleError};
use crate::storage::{DbModel, ReadOnlyHigherDb};
use crate::table::lookup;

verus! {

/// A node opening that a proof needs.
#[derive(Debug)]
pub enum Opening {
    /// The branch at `path`, evaluated at child index `index`.
    Branch { path: Vec<u8>, index: u8 },
    /// The extension of `stem`: its marker and its stem.
    Extension { stem: [u8; 31] },
    /// The extension of `stem` evaluated at C1 (`half` 0) or C2 (`half` 1).
    Half { stem: [u8; 31], half: u8 },
    /// The value at `suffix` under `stem`, in C1 or C2.
    Suffix { stem: [u8; 31], suffix: u8 },
}

/// The mathematical value of an `Opening`.
pub enum OpeningView {
    Branch(Seq<u8>, u8),
    Extension(Seq<u8>),
    Half(Seq<u8>, u8),
    Suffix(Seq<u8>, u8),
}

impl Opening {
    pub open spec fn view(&self) -> OpeningView {
        match self {
            Opening::Branch { path, index } => OpeningView::Branch(path@, *index),
            Opening::Extension { stem } => OpeningView::Extension(stem@),
            Opening::Half { stem, half } => OpeningView::Half(stem@, *half),
            Opening::Suffix { stem, suffix } => OpeningView::Suffix(stem@, *suffix),
        }
    }
}

pub open spec fn views(s: Seq<Opening>) -> Seq<OpeningView> {
    s.map_values(|o: Opening| o.view())
}

/// How the walk for one stem ended.
pub enum WalkEnd {
    /// The slot on the stem's path was empty.
    Absent,
    /// The slot held this stem (the queried one, or another).
    Found(Seq<u8>),
    /// A branch stood where only a stem can.
    Corrupt,
}

/// The walk down `stem`'s path from depth `d`, where a branch stands at
/// `stem[0..d]`: the branch openings on the way, how it ends, and the length
/// of the path of the slot where it ends.
pub open spec fn walk(b: Map<Seq<u8>, BranchChild>, stem: Seq<u8>, d: nat) -> (Seq<OpeningView>, WalkEnd, nat)
    decreases 31 - d,
{
    if d >= 31 || d >= stem.len() {
        (Seq::empty(), WalkEnd::Corrupt, d)
    } else {
        let here = OpeningView::Branch(stem.subrange(0, d as int), stem[d as int]);
        match lookup(b, stem.subrange(0, d + 1 as int)) {
            None => (seq![here], WalkEnd::Absent, d + 1),
            Some(BranchChild::Stem(s)) => (seq![here], WalkEnd::Found(s@), d + 1),
            Some(BranchChild::Branch(_)) => {
                let r = walk(b, stem, d + 1);
                (seq![here] + r.0, r.1, r.2)
            },
        }
    }
}

/// All openings that one key asks for, root first.
pub open spec fn key_openings(db: DbModel, key: Seq<u8>) -> Seq<OpeningView> {
    let stem = key.subrange(0, 31);
    let w = walk(db.branches, stem, 0);
    w.0 + match w.1 {
        WalkEnd::Found(s) => seq![OpeningView::Extension(s)] + if s == stem && db.leaves.contains_key(key) {
            seq![OpeningView::Half(stem, key[31] / 128), OpeningView::Suffix(stem, key[31])]
        } else {
            Seq::empty()
        },
        _ => Seq::empty(),
    }
}

/// Whether some key's walk meets a branch where only a stem can stand.
pub open spec fn any_corrupt(db: DbModel, keys: Seq<Seq<u8>>) -> bool {
    exists|i: int| 0 <= i < keys.len() && #[trigger] walk(db.branches, keys[i].subrange(0, 31), 0).1 is Corrupt
}

/// The sort key of an opening: the path it belongs to (a branch's path,
/// or the stem itself for the stem's own openings), the opening's kind, and
/// its evaluation point.
pub open spec fn opening_key(o: OpeningView) -> (Seq<u8>, nat, nat) {
    match o {
        OpeningView::Branch(p, i) => (p, 0, i as nat),
        OpeningView::Extension(s) => (s, 1, 0),
        OpeningView::Half(s, h) => (s, 2, h as nat),
        OpeningView::Suffix(s, x) => (s, 3, x as nat),
    }
}

/// Path order: by path, lexicographically (so each ancestor comes before
/// its descendants), then by kind, then by point.
pub open spec fn opening_lt(a: OpeningView, b: OpeningView) -> bool {
    let ka = opening_key(a);
    let kb = opening_key(b);
    seq_lt(ka.0, kb.0) || (ka.0 == kb.0 && (ka.1 < kb.1 || (ka.1 == kb.1 && ka.2 < kb.2)))
}

/// `acc` with `x` inserted before the first element that is not before it
/// in path order, unless `x` is there already.
pub open spec fn ins_one(acc: Seq<OpeningView>, x: OpeningView) -> Seq<OpeningView>
    decreases acc.len(),
{
    if acc.len() == 0 {
        seq![x]
    } else if acc[0] == x {
        acc
    } else if opening_lt(x, acc[0]) {
        seq![x] + acc
    } else {
        seq![acc[0]] + ins_one(acc.drop_first(), x)
    }
}

/// Inserts each element of `xs` in turn.
pub open spec fn ins_all(acc: Seq<OpeningView>, xs: Seq<OpeningView>) -> Seq<OpeningView>
    decreases xs.len(),
{
    if xs.len() == 0 {
        acc
    } else {
        ins_all(ins_one(acc, xs[0]), xs.drop_first())
    }
}

pub proof fn lemma_ins_all_cons(acc: Seq<OpeningView>, x: OpeningView, rest: Seq<OpeningView>)
    ensures
        ins_all(acc, seq![x] + rest) == ins_all(ins_one(acc, x), rest),
{
    let xs = seq![x] + rest;
    assert(xs[0] == x);
    assert(xs.drop_first() =~= rest);
}

pub proof fn lemma_ins_all_single(acc: Seq<OpeningView>, x: OpeningView)
    ensures
        ins_all(acc, seq![x]) == ins_one(acc, x),
{
    lemma_ins_all_cons(acc, x, Seq::empty());
    assert(seq![x] + Seq::<OpeningView>::empty() =~= seq![x]);
}

pub proof fn lemma_ins_all_append(acc: Seq<OpeningView>, a: Seq<OpeningView>, b: Seq<OpeningView>)
    ensures
        ins_all(acc, a + b) == ins_all(ins_all(acc, a), b),
    decreases a.len(),
{
    if a.len() > 0 {
        assert((a + b)[0] == a[0]);
        assert((a + b).drop_first() =~= a.drop_first() + b);
        lemma_ins_all_append(ins_one(acc, a[0]), a.drop_first(), b);
    } else {
        assert(a + b =~= b);
    }
}

/// Inserting brings in nothing but `x`.
pub proof fn lemma_ins_one_contains(acc: Seq<OpeningView>, x: OpeningView, y: OpeningView)
    ensures
        ins_one(acc, x).contains(y) ==> acc.contains(y) || y == x,
    decreases acc.len(),
{
    let r = ins_one(acc, x);
    if acc.len() > 0 && acc[0] != x && r.contains(y) {
        if opening_lt(x, acc[0]) {
            let j = choose|j: int| 0 <= j < r.len() && r[j] == y;
            if j > 0 {
                assert(acc[j - 1] == y);
            }
        } else {
            let rest = ins_one(acc.drop_first(), x);
            lemma_ins_one_contains(acc.drop_first(), x, y);
            let j = choose|j: int| 0 <= j < r.len() && r[j] == y;
            if j == 0 {
                assert(acc[0] == y);
            } else {
                assert(rest[j - 1] == y);
                if acc.drop_first().contains(y) {
                    let k = choose|k: int| 0 <= k < acc.drop_first().len() && acc.drop_first()[k] == y;
                    assert(acc[k + 1] == y);
                }
            }
        }
    } else if acc.len() == 0 && r.contains(y) {
        let j = choose|j: int| 0 <= j < r.len() && r[j] == y;
        assert(r[j] == x);
    }
}

/// Inserting brings in nothing but the elements of `xs`.
pub proof fn lemma_ins_all_contains(acc: Seq<OpeningView>, xs: Seq<OpeningView>, y: OpeningView)
    ensures
        ins_all(acc, xs).contains(y) ==> acc.contains(y) || xs.contains(y),
    decreases xs.len(),
{
    if xs.len() > 0 {
        let a1 = ins_one(acc, xs[0]);
        lemma_ins_all_contains(a1, xs.drop_first(), y);
        lemma_ins_one_contains(acc, xs[0], y);
        if xs.drop_first().contains(y) {
            let i = choose|i: int| 0 <= i < xs.drop_first().len() && xs.drop_first()[i] == y;
            assert(xs[i + 1] == y);
        }
        if y == xs[0] {
            assert(xs.contains(y));
        }
    }
}

/// A sequence that starts with an opening of the root branch.
pub open spec fn root_first(s: Seq<OpeningView>) -> bool {
    s.len() > 0 && (s[0] matches OpeningView::Branch(p, _) && p == Seq::<u8>::empty())
}

pub proof fn lemma_ins_one_root_first(acc: Seq<OpeningView>, x: OpeningView)
    requires
        root_first(acc),
    ensures
        root_first(ins_one(acc, x)),
{
    if acc[0] != x && opening_lt(x, acc[0]) {
        let kx = opening_key(x);
        if seq_lt(kx.0, Seq::empty()) {
            let j = choose|j: int| lt_at(kx.0, Seq::empty(), j);
        }
    }
}

pub proof fn lemma_ins_all_root_first(acc: Seq<OpeningView>, xs: Seq<OpeningView>)
    requires
        root_first(acc),
    ensures
        root_first(ins_all(acc, xs)),
    decreases xs.len(),
{
    if xs.len() > 0 {
        lemma_ins_one_root_first(acc, xs[0]);
        lemma_ins_all_root_first(ins_one(acc, xs[0]), xs.drop_first());
    }
}

pub proof fn lemma_collect_root_first(db: DbModel, acc: Seq<OpeningView>, keys: Seq<Seq<u8>>)
    requires
        root_first(acc),
    ensures
        root_first(collect_from(db, acc, keys)),
    decreases keys.len(),
{
    if keys.len() > 0 {
        lemma_ins_all_root_first(acc, key_openings(db, keys[0]));
        lemma_collect_root_first(db, ins_all(acc, key_openings(db, keys[0])), keys.drop_first());
    }
}

/// The openings of `keys` in turn, inserted into `acc`.
pub open spec fn collect_from(db: DbModel, acc: Seq<OpeningView>, keys: Seq<Seq<u8>>) -> Seq<OpeningView>
    decreases keys.len(),
{
    if keys.len() == 0 {
        acc
    } else {
        collect_from(db, ins_all(acc, key_openings(db, keys[0])), keys.drop_first())
    }
}

/// The openings of `keys`, each once, in path order (see `opening_lt`).
pub open spec fn collect_openings(db: DbModel, keys: Seq<Seq<u8>>) -> Seq<OpeningView> {
    collect_from(db, Seq::empty(), keys)
}

pub open spec fn keys_view(keys: Seq<[u8; 32]>) -> Seq<Seq<u8>> {
    keys.map_values(|k: [u8; 32]| k@)
}

/// Whether `a` and `b` are the same opening.
fn same_opening(a: &Opening, b: &Opening) -> (r: bool)
    ensures
        r == (a.view() == b.view()),
{
    match (a, b) {
        (Opening::Branch { path: p1, index: i1 }, Opening::Branch { path: p2, index: i2 }) => *i1 == *i2
            && bytes_eq(p1.as_slice(), p2.as_slice()),
        (Opening::Extension { stem: s1 }, Opening::Extension { stem: s2 }) => bytes_eq(s1, s2),
        (Opening::Half { stem: s1, half: h1 }, Opening::Half { stem: s2, half: h2 }) => *h1 == *h2
            && bytes_eq(s1, s2),
        (Opening::Suffix { stem: s1, suffix: x1 }, Opening::Suffix { stem: s2, suffix: x2 }) => *x1 == *x2
            && bytes_eq(s1, s2),
        _ => false,
    }
}

/// The sort key of `o`: its path, its kind, and its point.
fn key_parts(o: &Opening) -> (r: (Vec<u8>, u8, u8))
    ensures
        r.0@ == opening_key(o.view()).0,
        r.1 as nat == opening_key(o.view()).1,
        r.2 as nat == opening_key(o.view()).2,
{
    match o {
        Opening::Branch { path, index } => (to_vec(path.as_slice()), 0, *index),
        Opening::Extension { stem } => (to_vec(stem), 1, 0),
        Opening::Half { stem, half } => (to_vec(stem), 2, *half),
        Opening::Suffix { stem, suffix } => (to_vec(stem), 3, *suffix),
    }
}

/// Whether `a` comes strictly before `b` in path order.
fn opening_lt_exec(a: &Opening, b: &Opening) -> (r: bool)
    ensures
        r == opening_lt(a.view(), b.view()),
{
    let (pa, ra, na) = key_parts(a);
    let (pb, rb, nb) = key_parts(b);
    bytes_lt(pa.as_slice(), pb.as_slice()) || (bytes_eq(pa.as_slice(), pb.as_slice()) && (ra < rb || (ra
        == rb && na < nb)))
}

/// Inserts `o` at its place in path order, unless it is already there.
fn insert_opening(openings: &mut Vec<Opening>, o: Opening)
    ensures
        views(final(openings)@) == ins_one(views(old(openings)@), o.view()),
{
    let ghost v = views(openings@);
    let ghost x = o.view();
    let ghost n = v.len() as int;
    let mut i: usize = 0;
    assert(v.subrange(0, 0) + v.subrange(0, n) =~= v);
    while i < openings.len()
        invariant
            v == views(openings@),
            v == views(old(openings)@),
            x == o.view(),
            n == v.len(),
            0 <= i <= n,
            ins_one(v, x) == v.subrange(0, i as int) + ins_one(v.subrange(i as int, n), x),
        decreases n - i,
    {
        let ghost sub = v.subrange(i as int, n);
        assert(sub[0] == v[i as int]);
        if same_opening(&openings[i], &o) {
            assert(ins_one(sub, x) == sub);
            assert(v.subrange(0, i as int) + sub =~= v);
            return ;
        }
        if opening_lt_exec(&o, &openings[i]) {
            assert(ins_one(sub, x) == seq![x] + sub);
            openings.insert(i, o);
            assert(views(openings@) =~= v.subrange(0, i as int) + (seq![x] + sub));
            return ;
        }
        assert(sub.drop_first() =~= v.subrange(i + 1, n));
        assert(v.subrange(0, i as int) + (seq![v[i as int]] + ins_one(sub.drop_first(), x)) =~= v.subrange(
            0,
            i + 1,
        ) + ins_one(v.subrange(i + 1, n), x));
        i = i + 1;
    }
    assert(v.subrange(n, n) =~= Seq::<OpeningView>::empty());
    assert(v.subrange(0, n) =~= v);
    openings.push(o);
    assert(views(openings@) =~= v + seq![x]);
}

/// How the walk of one stem ended, for a well-formed store.
#[derive(Clone, Copy, Debug)]
pub enum StemSlot {
    Absent,
    Found([u8; 31]),
}

impl StemSlot {
    pub open spec fn view(&self) -> WalkEnd {
        match self {
            StemSlot::Absent => WalkEnd::Absent,
            StemSlot::Found(s) => WalkEnd::Found(s@),
        }
    }
}

/// Walks down `stem`'s path from the root, adding the branch openings on the
/// way to `openings`; returns how the walk ended and the depth of its last
/// slot.
fn walk_stem<S: ReadOnlyHigherDb>(storage: &S, stem: &[u8; 31], openings: &mut Vec<Opening>) -> (r: Result<
    (StemSlot, u8),
    VerkleError,
>)
    requires
        storage.inv(),
    ensures
        ({
            let w = walk(storage.model().branches, stem@, 0);
            match r {
                Ok((slot, depth)) => {
                    &&& !(w.1 is Corrupt)
                    &&& slot.view() == w.1
                    &&& depth as nat == w.2
                    &&& views(final(openings)@) == ins_all(views(old(openings)@), w.0)
                },
                Err(e) => e == VerkleError::PathMismatch && w.1 is Corrupt,
            }
        }),
{
    let ghost b = storage.model().branches;
    let ghost target = ins_all(views(openings@), walk(b, stem@, 0).0);
    let mut d: usize = 0;
    while d < 31
        invariant
            storage.inv(),
            b == storage.model().branches,
            stem@.len() == 31,
            0 <= d <= 31,
            ins_all(views(openings@), walk(b, stem@, d as nat).0) == target,
            target == ins_all(views(old(openings)@), walk(b, stem@, 0).0),
            walk(b, stem@, d as nat).1 == walk(b, stem@, 0).1,
            walk(b, stem@, d as nat).2 == walk(b, stem@, 0).2,
        decreases 31 - d,
    {
        let path = prefix_of(stem, d);
        let index = stem[d];
        let ghost here = OpeningView::Branch(stem@.subrange(0, d as int), index);
        let ghost w = walk(b, stem@, d as nat);
        let child = storage.get_branch_child(path.as_slice(), index);
        assert(path@.push(index) == stem@.subrange(0, d + 1 as int)) by {
            assert(path@.push(index) =~= stem@.subrange(0, d + 1 as int));
        }
        let ghost before = views(openings@);
        let depth: u8 = (d + 1) as u8;
        insert_opening(openings, Opening::Branch { path, index });
        match child {
            None => {
                proof {
                    lemma_ins_all_single(before, here);
                    assert(w.0 == seq![here]);
                }
                return Ok((StemSlot::Absent, depth));
            },
            Some(BranchChild::Stem(s)) => {
                proof {
                    lemma_ins_all_single(before, here);
                    assert(w.0 == seq![here]);
                }
                return Ok((StemSlot::Found(s), depth));
            },
            Some(BranchChild::Branch(_)) => {
                proof {
                    lemma_ins_all_cons(before, here, walk(b, stem@, (d + 1) as nat).0);
                }
                d = d + 1;
            },
        }
    }
    Err(VerkleError::PathMismatch)
}

} // verus!

verus! {

/// The openings of all `keys`, each once, in path order, and
/// for each key how its stem's walk ended and at which depth.
pub fn collect_opening_data<S: ReadOnlyHigherDb>(keys: &Vec<[u8; 32]>, storage: &S) -> (r: Result<
    (Vec<Opening>, Vec<(StemSlot, u8)>),
    VerkleError,
>)
    requires
        storage.inv(),
    ensures
        ({
            let db = storage.model();
            let kv = keys_view(keys@);
            match r {
                Ok((openings, ends)) => {
                    &&& !any_corrupt(db, kv)
                    &&& views(openings@) == collect_openings(db, kv)
                    &&& ends@.len() == keys@.len()
                    &&& forall|i: int|
                        0 <= i < keys@.len() ==> {
                            let w = walk(db.branches, kv[i].subrange(0, 31), 0);
                            &&& (#[trigger] ends@[i]).0.view() == w.1
                            &&& ends@[i].1 as nat == w.2
                        }
                },
                Err(e) => e == VerkleError::PathMismatch && any_corrupt(db, kv),
            }
        }),
{
    let ghost db = storage.model();
    let ghost kv = keys_view(keys@);
    let mut openings: Vec<Opening> = Vec::new();
    let mut ends: Vec<(StemSlot, u8)> = Vec::new();
    let mut k: usize = 0;
    assert(views(openings@) =~= Seq::<OpeningView>::empty());
    assert(kv.subrange(0, kv.len() as int) =~= kv);
    while k < keys.len()
        invariant
            storage.inv(),
            db == storage.model(),
            kv == keys_view(keys@),
            0 <= k <= keys@.len(),
            ends@.len() == k,
            collect_from(db, views(openings@), kv.subrange(k as int, kv.len() as int)) == collect_openings(
                db,
                kv,
            ),
            forall|i: int|
                0 <= i < k ==> {
                    let w = walk(db.branches, kv[i].subrange(0, 31), 0);
                    &&& (#[trigger] ends@[i]).0.view() == w.1
                    &&& ends@[i].1 as nat == w.2
                },
        decreases keys@.len() - k,
    {
        let key = keys[k];
        let stem = stem_of_key(&key);
        let ghost w = walk(db.branches, stem@, 0);
        let ghost acc = views(openings@);
        assert(kv[k as int] == key@);
        let walked = walk_stem(storage, &stem, &mut openings);
        let (slot, depth) = match walked {
            Ok(x) => x,
            Err(e) => {
                assert(walk(db.branches, kv[k as int].subrange(0, 31), 0).1 is Corrupt);
                return Err(e);
            },
        };
        let ghost mid = views(openings@);
        match slot {
            StemSlot::Absent => {
                proof {
                    assert(key_openings(db, key@) =~= w.0);
                }
            },
            StemSlot::Found(found) => {
                insert_opening(&mut openings, Opening::Extension { stem: found });
                let ghost ext = OpeningView::Extension(found@);
                let ghost mid2 = views(openings@);
                let same = bytes_eq(&found, &stem);
                let present = match storage.get_leaf(key) {
                    Some(_) => true,
                    None => false,
                };
                if same && present {
                    let ghost hv = OpeningView::Half(stem@, key[31] / 128);
                    let ghost suf = OpeningView::Suffix(stem@, key[31]);
                    insert_opening(&mut openings, Opening::Half { stem, half: key[31] / 128 });
                    insert_opening(&mut openings, Opening::Suffix { stem, suffix: key[31] });
                    proof {
                        assert(key_openings(db, key@) =~= w.0 + (seq![ext] + (seq![hv] + seq![suf])));
                        lemma_ins_all_append(acc, w.0, seq![ext] + (seq![hv] + seq![suf]));
                        lemma_ins_all_cons(mid, ext, seq![hv] + seq![suf]);
                        lemma_ins_all_cons(ins_one(mid, ext), hv, seq![suf]);
                        lemma_ins_all_single(ins_one(ins_one(mid, ext), hv), suf);
                    }
                } else {
                    proof {
                        assert(key_openings(db, key@) =~= w.0 + seq![ext]);
                        lemma_ins_all_append(acc, w.0, seq![ext]);
                        lemma_ins_all_single(mid, ext);
                    }
                }
            },
        }
        proof {
            let rest = kv.subrange(k as int, kv.len() as int);
            assert(rest[0] == key@);
            assert(rest.drop_first() =~= kv.subrange(k + 1, kv.len() as int));
            assert(views(openings@) == ins_all(acc, key_openings(db, key@)));
        }
        ends.push((slot, depth));
        k = k + 1;
    }
    proof {
        assert(kv.subrange(k as int, kv.len() as int) =~= Seq::<Seq<u8>>::empty());
        assert forall|i: int| 0 <= i < kv.len() implies !(#[trigger] walk(
            db.branches,
            kv[i].subrange(0, 31),
            0,
        ).1 is Corrupt) by {
            assert(ends@[i].0.view() == walk(db.branches, kv[i].subrange(0, 31), 0).1);
        }
    }
    Ok((openings, ends))
}

} // verus!

verus! {

/// The first opening of a non-empty key list is one of the root branch.
pub proof fn lemma_first_opening(db: DbModel, kv: Seq<Seq<u8>>)
    requires
        kv.len() > 0,
        kv[0].len() == 32,
    ensures
        root_first(collect_openings(db, kv)),
{
    let stem = kv[0].subrange(0, 31);
    let here = OpeningView::Branch(stem.subrange(0, 0), stem[0]);
    assert(stem.subrange(0, 0) =~= Seq::<u8>::empty());
    let w = walk(db.branches, stem, 0);
    assert(w.0.len() > 0 && w.0[0] == here);
    let ko = key_openings(db, kv[0]);
    assert(ko[0] == here);
    assert(ko =~= seq![here] + ko.drop_first());
    lemma_ins_all_cons(Seq::empty(), here, ko.drop_first());
    assert(root_first(ins_one(Seq::<OpeningView>::empty(), here)));
    lemma_ins_all_root_first(seq![here], ko.drop_first());
    lemma_collect_root_first(db, ins_all(Seq::empty(), ko), kv.drop_first());
}

} // verus!

verus! {

/// Every element comes strictly before all later ones in path order.
pub open spec fn path_ordered(s: Seq<OpeningView>) -> bool {
    forall|i: int, j: int| 0 <= i < j < s.len() ==> opening_lt(#[trigger] s[i], #[trigger] s[j])
}

proof fn lemma_opening_lt_order(a: OpeningView, b: OpeningView, c: OpeningView)
    ensures
        !opening_lt(a, a),
        opening_lt(a, b) && opening_lt(b, c) ==> opening_lt(a, c),
        a != b ==> opening_lt(a, b) || opening_lt(b, a),
{
    let (ka, kb, kc) = (opening_key(a), opening_key(b), opening_key(c));
    crate::order::lemma_seq_lt_irreflexive(ka.0);
    if seq_lt(ka.0, kb.0) && seq_lt(kb.0, kc.0) {
        crate::order::lemma_seq_lt_transitive(ka.0, kb.0, kc.0);
    }
    if ka.0 != kb.0 {
        crate::order::lemma_seq_lt_total(ka.0, kb.0);
    }
}

proof fn lemma_ins_one_ordered(acc: Seq<OpeningView>, x: OpeningView)
    requires
        path_ordered(acc),
    ensures
        path_ordered(ins_one(acc, x)),
    decreases acc.len(),
{
    if acc.len() > 0 && acc[0] != x {
        let r = ins_one(acc, x);
        if opening_lt(x, acc[0]) {
            assert forall|i: int, j: int| 0 <= i < j < r.len() implies opening_lt(#[trigger] r[i], #[trigger] r[j]) by {
                if i == 0 {
                    if j > 1 {
                        lemma_opening_lt_order(x, acc[0], acc[j - 1]);
                    }
                } else {
                    assert(r[i] == acc[i - 1] && r[j] == acc[j - 1]);
                }
            }
        } else {
            let rest = acc.drop_first();
            assert(path_ordered(rest)) by {
                assert forall|i: int, j: int| 0 <= i < j < rest.len() implies opening_lt(#[trigger] rest[i], #[trigger] rest[j]) by {
                    assert(rest[i] == acc[i + 1] && rest[j] == acc[j + 1]);
                }
            }
            lemma_ins_one_ordered(rest, x);
            let t = ins_one(rest, x);
            lemma_opening_lt_order(acc[0], x, x);
            assert forall|i: int, j: int| 0 <= i < j < r.len() implies opening_lt(#[trigger] r[i], #[trigger] r[j]) by {
                if i == 0 {
                    assert(r[j] == t[j - 1]);
                    lemma_ins_one_contains(rest, x, t[j - 1]);
                    assert(t.contains(t[j - 1]));
                    if t[j - 1] != x {
                        let k = choose|k: int| 0 <= k < rest.len() && rest[k] == t[j - 1];
                        assert(acc[k + 1] == rest[k]);
                    }
                } else {
                    assert(r[i] == t[i - 1] && r[j] == t[j - 1]);
                }
            }
        }
    }
}

proof fn lemma_ins_all_ordered(acc: Seq<OpeningView>, xs: Seq<OpeningView>)
    requires
        path_ordered(acc),
    ensures
        path_ordered(ins_all(acc, xs)),
    decreases xs.len(),
{
    if xs.len() > 0 {
        lemma_ins_one_ordered(acc, xs[0]);
        lemma_ins_all_ordered(ins_one(acc, xs[0]), xs.drop_first());
    }
}

proof fn lemma_collect_from_ordered(db: DbModel, acc: Seq<OpeningView>, keys: Seq<Seq<u8>>)
    requires
        path_ordered(acc),
    ensures
        path_ordered(collect_from(db, acc, keys)),
    decreases keys.len(),
{
    if keys.len() > 0 {
        lemma_ins_all_ordered(acc, key_openings(db, keys[0]));
        lemma_collect_from_ordered(db, ins_all(acc, key_openings(db, keys[0])), keys.drop_first());
    }
}

/// The openings of a key list are in strictly ascending path order: each
/// node's openings stand together, ancestors before descendants, and no
/// opening appears twice.
pub proof fn lemma_openings_path_ordered(db: DbModel, kv: Seq<Seq<u8>>)
    ensures
        path_ordered(collect_openings(db, kv)),
        collect_openings(db, kv).no_duplicates(),
{
    lemma_collect_from_ordered(db, Seq::empty(), kv);
    let s = collect_openings(db, kv);
    assert forall|i: int, j: int| 0 <= i < s.len() && 0 <= j < s.len() && i != j implies s[i] != s[j] by {
        lemma_opening_lt_order(s[i], s[j], s[i]);
    }
}

} // verus!

verus! {

proof fn lemma_ins_one_keeps(acc: Seq<OpeningView>, x: OpeningView, y: OpeningView)
    ensures
        (acc.contains(y) || y == x) ==> ins_one(acc, x).contains(y),
    decreases acc.len(),
{
    let r = ins_one(acc, x);
    if acc.len() == 0 {
        if y == x {
            assert(r[0] == x);
        }
    } else if acc[0] == x {
        if y == x {
            assert(r[0] == y);
        }
    } else if opening_lt(x, acc[0]) {
        if y == x {
            assert(r[0] == y);
        } else if acc.contains(y) {
            let j = choose|j: int| 0 <= j < acc.len() && acc[j] == y;
            assert(r[j + 1] == y);
        }
    } else {
        let rest = acc.drop_first();
        lemma_ins_one_keeps(rest, x, y);
        if acc.contains(y) && y != acc[0] {
            let j = choose|j: int| 0 <= j < acc.len() && acc[j] == y;
            assert(rest[j - 1] == y);
        }
        if y == acc[0] {
            assert(r[0] == y);
        } else if acc.contains(y) || y == x {
            let t = ins_one(rest, x);
            let j = choose|j: int| 0 <= j < t.len() && t[j] == y;
            assert(r[j + 1] == y);
        }
    }
}

/// Inserting loses nothing.
pub proof fn lemma_ins_all_keeps(acc: Seq<OpeningView>, xs: Seq<OpeningView>, y: OpeningView)
    ensures
        (acc.contains(y) || xs.contains(y)) ==> ins_all(acc, xs).contains(y),
    decreases xs.len(),
{
    if xs.len() > 0 {
        let a1 = ins_one(acc, xs[0]);
        lemma_ins_one_keeps(acc, xs[0], y);
        lemma_ins_all_keeps(a1, xs.drop_first(), y);
        if xs.contains(y) && y != xs[0] {
            let j = choose|j: int| 0 <= j < xs.len() && xs[j] == y;
            assert(xs.drop_first()[j - 1] == y);
        }
    }
}

} // verus!
