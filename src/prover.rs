use vstd::prelude::*;
use crate::bytes::{bytes_eq, key_of};
use crate::order::{bytes_ins, bytes_ins_all, bytes_position};
use crate::node::{BranchChild, Commitment, VerkleError};
use crate::opening::{
    collect_from, collect_opening_data, collect_openings, ins_all, key_openings, keys_view, views, walk, Opening, OpeningView, StemSlot, WalkEnd,
};
use crate::storage::{DbModel, ReadOnlyHigherDb};
use crate::table::lookup;

verus! {

/// One evaluation to be proved: `commitment` opens to `result` at `point`.
#[derive(Clone, Copy, Debug, PartialEq, Eq)]
pub struct ProverQuery {
    pub commitment: Commitment,
    pub point: usize,
    pub result: [u8; 32],
}

/// The mathematical value of a `ProverQuery`.
pub struct QueryView {
    pub commitment: Seq<u8>,
    pub point: nat,
    pub result: Seq<u8>,
}

impl ProverQuery {
    pub open spec fn view(&self) -> QueryView {
        QueryView { commitment: self.commitment@, point: self.point as nat, result: self.result@ }
    }
}

pub open spec fn qviews(s: Seq<ProverQuery>) -> Seq<QueryView> {
    s.map_values(|q: ProverQuery| q.view())
}

/// The scalar one, as 32 little-endian bytes: the extension marker.
pub open spec fn one_scalar() -> Seq<u8> {
    Seq::new(32, |i: int| if i == 0 { 1u8 } else { 0u8 })
}

/// The scalar 0, as 32 bytes: the value of an empty slot.
pub open spec fn zero_scalar() -> Seq<u8> {
    Seq::new(32, |i: int| 0u8)
}

/// A stem as a scalar: its 31 bytes followed by a zero byte.
pub open spec fn stem_scalar(stem: Seq<u8>) -> Seq<u8> {
    stem.push(0)
}

/// The commitment value of the slot at `path`: zero when empty, the branch's
/// commitment, or the stem's extension commitment.
pub open spec fn slot_value(db: DbModel, path: Seq<u8>) -> Result<Seq<u8>, VerkleError> {
    match lookup(db.branches, path) {
        None => Ok(zero_scalar()),
        Some(BranchChild::Branch(m)) => Ok(m.commitment@),
        Some(BranchChild::Stem(s)) => match lookup(db.stems, s@) {
            Some(sm) => Ok(sm.stem_commitment@),
            None => Err(VerkleError::MissingExpectedNode),
        },
    }
}

/// The queries that prove one opening.
pub open spec fn query_of(db: DbModel, o: OpeningView) -> Result<Seq<QueryView>, VerkleError> {
    match o {
        OpeningView::Branch(p, i) => match lookup(db.branches, p) {
            Some(BranchChild::Branch(m)) => match slot_value(db, p.push(i)) {
                Ok(v) => Ok(seq![QueryView { commitment: m.commitment@, point: i as nat, result: v }]),
                Err(e) => Err(e),
            },
            Some(BranchChild::Stem(_)) => Err(VerkleError::PathMismatch),
            None => Err(VerkleError::MissingExpectedNode),
        },
        OpeningView::Extension(s) => match lookup(db.stems, s) {
            Some(sm) => Ok(
                seq![
                    QueryView { commitment: sm.stem_commitment@, point: 0, result: one_scalar() },
                    QueryView { commitment: sm.stem_commitment@, point: 1, result: stem_scalar(s) },
                ],
            ),
            None => Err(VerkleError::MissingExpectedNode),
        },
        OpeningView::Half(s, h) => match lookup(db.stems, s) {
            Some(sm) => Ok(
                seq![
                    QueryView {
                        commitment: sm.stem_commitment@,
                        point: (2 + h) as nat,
                        result: if h == 0 { sm.c_1@ } else { sm.c_2@ },
                    },
                ],
            ),
            None => Err(VerkleError::MissingExpectedNode),
        },
        OpeningView::Suffix(s, x) => match lookup(db.stems, s) {
            Some(sm) => match lookup(db.leaves, s.push(x)) {
                Some(v) => {
                    let half = if x < 128 { sm.c_1@ } else { sm.c_2@ };
                    Ok(seq![QueryView { commitment: half, point: (x % 128) as nat, result: v@ }])
                },
                None => Err(VerkleError::MissingExpectedNode),
            },
            None => Err(VerkleError::MissingExpectedNode),
        },
    }
}

/// The queries of `os` in turn, after `acc`; the first failing opening's
/// error.
pub open spec fn queries_from(db: DbModel, acc: Seq<QueryView>, os: Seq<OpeningView>) -> Result<
    Seq<QueryView>,
    VerkleError,
>
    decreases os.len(),
{
    if os.len() == 0 {
        Ok(acc)
    } else {
        match query_of(db, os[0]) {
            Ok(q) => queries_from(db, acc + q, os.drop_first()),
            Err(e) => Err(e),
        }
    }
}

fn one_bytes() -> (r: [u8; 32])
    ensures
        r@ == one_scalar(),
{
    let mut r: [u8; 32] = [0u8; 32];
    r[0] = 1;
    assert(r@ =~= one_scalar());
    r
}

fn zero_bytes() -> (r: [u8; 32])
    ensures
        r@ == zero_scalar(),
{
    let r: [u8; 32] = [0u8; 32];
    assert(r@ =~= zero_scalar());
    r
}

/// Appends the queries of opening `o` to `queries`.
fn open_query<S: ReadOnlyHigherDb>(storage: &S, o: &Opening, queries: &mut Vec<ProverQuery>) -> (r: Result<
    (),
    VerkleError,
>)
    requires
        storage.inv(),
    ensures
        match query_of(storage.model(), o.view()) {
            Ok(q) => r is Ok && qviews(final(queries)@) == qviews(old(queries)@) + q,
            Err(e) => r == Err::<(), VerkleError>(e),
        },
{
    let ghost pre = qviews(queries@);
    match o {
        Opening::Branch { path, index } => {
            let meta = match storage.get_branch_meta(path.as_slice()) {
                Ok(Some(m)) => m,
                Ok(None) => return Err(VerkleError::MissingExpectedNode),
                Err(e) => return Err(e),
            };
            let value = match storage.get_branch_child(path.as_slice(), *index) {
                None => zero_bytes(),
                Some(BranchChild::Branch(m)) => m.commitment,
                Some(BranchChild::Stem(s)) => match storage.get_stem_meta(s) {
                    Some(sm) => sm.stem_commitment,
                    None => return Err(VerkleError::MissingExpectedNode),
                },
            };
            let q = ProverQuery { commitment: meta.commitment, point: *index as usize, result: value };
            queries.push(q);
            assert(qviews(queries@) =~= pre + seq![q.view()]);
        },
        Opening::Extension { stem } => {
            let sm = match storage.get_stem_meta(*stem) {
                Some(sm) => sm,
                None => return Err(VerkleError::MissingExpectedNode),
            };
            let q0 = ProverQuery { commitment: sm.stem_commitment, point: 0, result: one_bytes() };
            let q1 = ProverQuery { commitment: sm.stem_commitment, point: 1, result: key_of(stem, 0) };
            queries.push(q0);
            queries.push(q1);
            assert(qviews(queries@) =~= pre + seq![q0.view(), q1.view()]);
        },
        Opening::Suffix { stem, suffix } => {
            let sm = match storage.get_stem_meta(*stem) {
                Some(sm) => sm,
                None => return Err(VerkleError::MissingExpectedNode),
            };
            let value = match storage.get_leaf(key_of(stem, *suffix)) {
                Some(v) => v,
                None => return Err(VerkleError::MissingExpectedNode),
            };
            let half = if *suffix < 128 { sm.c_1 } else { sm.c_2 };
            let q = ProverQuery { commitment: half, point: (*suffix % 128) as usize, result: value };
            queries.push(q);
            assert(qviews(queries@) =~= pre + seq![q.view()]);
        },
        Opening::Half { stem, half } => {
            let sm = match storage.get_stem_meta(*stem) {
                Some(sm) => sm,
                None => return Err(VerkleError::MissingExpectedNode),
            };
            let c = if *half == 0 { sm.c_1 } else { sm.c_2 };
            let q = ProverQuery { commitment: sm.stem_commitment, point: 2 + *half as usize, result: c };
            queries.push(q);
            assert(qviews(queries@) =~= pre + seq![q.view()]);
        },
    }
    Ok(())
}

/// The queries of all `openings`, in order.
fn open_queries<S: ReadOnlyHigherDb>(storage: &S, openings: &Vec<Opening>) -> (r: Result<
    Vec<ProverQuery>,
    VerkleError,
>)
    requires
        storage.inv(),
    ensures
        match queries_from(storage.model(), Seq::empty(), views(openings@)) {
            Ok(q) => r is Ok && qviews(r.unwrap()@) == q,
            Err(e) => r == Err::<Vec<ProverQuery>, VerkleError>(e),
        },
{
    let ghost db = storage.model();
    let ghost os = views(openings@);
    let mut queries: Vec<ProverQuery> = Vec::new();
    let mut i: usize = 0;
    assert(qviews(queries@) =~= Seq::<QueryView>::empty());
    assert(os.subrange(0, os.len() as int) =~= os);
    while i < openings.len()
        invariant
            storage.inv(),
            db == storage.model(),
            os == views(openings@),
            0 <= i <= openings@.len(),
            queries_from(db, qviews(queries@), os.subrange(i as int, os.len() as int)) == queries_from(
                db,
                Seq::empty(),
                os,
            ),
        decreases openings@.len() - i,
    {
        let ghost rest = os.subrange(i as int, os.len() as int);
        assert(rest[0] == openings@[i as int].view());
        assert(rest.drop_first() =~= os.subrange(i + 1, os.len() as int));
        match open_query(storage, &openings[i], &mut queries) {
            Ok(()) => {},
            Err(e) => return Err(e),
        }
        i = i + 1;
    }
    assert(os.subrange(i as int, os.len() as int) =~= Seq::<OpeningView>::empty());
    Ok(queries)
}

} // verus!

verus! {

/// What a verifier learns of a stem's slot.
#[derive(Clone, Copy, Debug, PartialEq, Eq, Structural)]
pub enum ExtPresent {
    /// The slot on the stem's path is empty.
    Absent,
    /// Another stem occupies the slot.
    DifferentStem,
    /// The stem itself is in the trie.
    Present,
}

pub open spec fn ext_status(stem: Seq<u8>, end: WalkEnd) -> ExtPresent {
    match end {
        WalkEnd::Found(s) => if s == stem {
            ExtPresent::Present
        } else {
            ExtPresent::DifferentStem
        },
        _ => ExtPresent::Absent,
    }
}

pub open spec fn stem_seq(kv: Seq<Seq<u8>>) -> Seq<Seq<u8>> {
    kv.map_values(|k: Seq<u8>| k.subrange(0, 31))
}

/// The stems of the keys, each once, in ascending order.
pub open spec fn distinct_stems(kv: Seq<Seq<u8>>) -> Seq<Seq<u8>> {
    bytes_ins_all(Seq::empty(), stem_seq(kv))
}

/// Going through `rest`, the stems found in the slot of another stem of
/// `all`, that are not themselves among `all`, inserted into `acc` once each
/// in ascending order.
pub open spec fn foreign_from(
    b: Map<Seq<u8>, BranchChild>,
    all: Seq<Seq<u8>>,
    rest: Seq<Seq<u8>>,
    acc: Seq<Seq<u8>>,
) -> Seq<Seq<u8>>
    decreases rest.len(),
{
    if rest.len() == 0 {
        acc
    } else {
        let s = rest[0];
        let acc2 = match walk(b, s, 0).1 {
            WalkEnd::Found(f) => if f != s && !all.contains(f) {
                bytes_ins(acc, f)
            } else {
                acc
            },
            _ => acc,
        };
        foreign_from(b, all, rest.drop_first(), acc2)
    }
}

/// The stems that stand only as proof of another stem's absence.
pub open spec fn foreign_stems(b: Map<Seq<u8>, BranchChild>, kv: Seq<Seq<u8>>) -> Seq<Seq<u8>> {
    foreign_from(b, distinct_stems(kv), distinct_stems(kv), Seq::empty())
}

pub open spec fn stem_views(s: Seq<[u8; 31]>) -> Seq<Seq<u8>> {
    s.map_values(|x: [u8; 31]| x@)
}

/// What a verifier needs, besides the commitments, to rebuild the shape of
/// the trie along the queried keys: for each distinct stem of the keys, in
/// ascending order, the depth of its slot and what the slot held; and, in
/// ascending order, the stems met only as proof of absence.
#[derive(Clone, Debug, PartialEq, Eq)]
pub struct VerificationHint {
    pub depths: Vec<u8>,
    pub extension_present: Vec<ExtPresent>,
    pub diff_stem_no_proof: Vec<[u8; 31]>,
}

pub open spec fn hint_matches(b: Map<Seq<u8>, BranchChild>, kv: Seq<Seq<u8>>, h: VerificationHint) -> bool {
    let stems = distinct_stems(kv);
    &&& h.depths@.len() == stems.len()
    &&& h.extension_present@.len() == stems.len()
    &&& forall|i: int|
        0 <= i < stems.len() ==> {
            let w = walk(b, stems[i], 0);
            &&& (#[trigger] h.depths@[i]) as nat == w.2
            &&& h.extension_present@[i] == ext_status(stems[i], w.1)
        }
    &&& stem_views(h.diff_stem_no_proof@) == foreign_stems(b, kv)
}

fn contains_stem(v: &Vec<[u8; 31]>, s: &[u8; 31]) -> (r: bool)
    ensures
        r == stem_views(v@).contains(s@),
{
    let mut i: usize = 0;
    while i < v.len()
        invariant
            0 <= i <= v@.len(),
            forall|j: int| 0 <= j < i ==> v@[j]@ != s@,
        decreases v@.len() - i,
    {
        if bytes_eq(&v[i], s) {
            assert(stem_views(v@)[i as int] == s@);
            return true;
        }
        i = i + 1;
    }
    assert forall|j: int| 0 <= j < stem_views(v@).len() implies stem_views(v@)[j] != s@ by {
        assert(v@[j]@ != s@);
    }
    false
}

/// The hint for `keys`, from how each key's walk ended.
fn build_hint(
    b: Ghost<Map<Seq<u8>, BranchChild>>,
    keys: &Vec<[u8; 32]>,
    ends: &Vec<(StemSlot, u8)>,
) -> (r: VerificationHint)
    requires
        ends@.len() == keys@.len(),
        forall|i: int|
            0 <= i < keys@.len() ==> {
                let w = walk(b@, keys_view(keys@)[i].subrange(0, 31), 0);
                &&& (#[trigger] ends@[i]).0.view() == w.1
                &&& ends@[i].1 as nat == w.2
            },
    ensures
        hint_matches(b@, keys_view(keys@), r),
{
    let ghost kv = keys_view(keys@);
    let ghost ss = stem_seq(kv);
    let mut stems: Vec<[u8; 31]> = Vec::new();
    let mut slots: Vec<StemSlot> = Vec::new();
    let mut depths: Vec<u8> = Vec::new();
    let mut extension_present: Vec<ExtPresent> = Vec::new();
    let mut k: usize = 0;
    assert(ss.subrange(0, 0) =~= Seq::<Seq<u8>>::empty());
    assert(stem_views(stems@) =~= Seq::<Seq<u8>>::empty());
    while k < keys.len()
        invariant
            ends@.len() == keys@.len(),
            kv == keys_view(keys@),
            ss == stem_seq(kv),
            forall|i: int|
                0 <= i < keys@.len() ==> {
                    let w = walk(b@, kv[i].subrange(0, 31), 0);
                    &&& (#[trigger] ends@[i]).0.view() == w.1
                    &&& ends@[i].1 as nat == w.2
                },
            0 <= k <= keys@.len(),
            stem_views(stems@) == bytes_ins_all(Seq::empty(), ss.subrange(0, k as int)),
            slots@.len() == stems@.len(),
            depths@.len() == stems@.len(),
            extension_present@.len() == stems@.len(),
            forall|i: int|
                0 <= i < stems@.len() ==> {
                    let w = walk(b@, stems@[i]@, 0);
                    &&& (#[trigger] slots@[i]).view() == w.1
                    &&& depths@[i] as nat == w.2
                    &&& extension_present@[i] == ext_status(stems@[i]@, w.1)
                },
        decreases keys@.len() - k,
    {
        let stem = crate::bytes::stem_of_key(&keys[k]);
        let ghost prev = stem_views(stems@);
        proof {
            assert(ss[k as int] == stem@);
            assert(ss.subrange(0, k + 1) =~= ss.subrange(0, k as int).push(stem@));
            crate::order::lemma_bytes_ins_all_push(Seq::empty(), ss.subrange(0, k as int), stem@);
        }
        let (pos, found) = bytes_position(&stems, &stem);
        if !found {
            let slot = ends[k].0;
            let status = match slot {
                StemSlot::Absent => ExtPresent::Absent,
                StemSlot::Found(f) => if bytes_eq(&f, &stem) {
                    ExtPresent::Present
                } else {
                    ExtPresent::DifferentStem
                },
            };
            let ghost (os, osl, od, oe) = (stems@, slots@, depths@, extension_present@);
            let depth = ends[k].1;
            stems.insert(pos, stem);
            slots.insert(pos, slot);
            depths.insert(pos, depth);
            extension_present.insert(pos, status);
            proof {
                assert(stem_views(stems@) =~= prev.insert(pos as int, stem@));
                assert forall|i: int| 0 <= i < stems@.len() implies {
                    let w = walk(b@, stems@[i]@, 0);
                    &&& (#[trigger] slots@[i]).view() == w.1
                    &&& depths@[i] as nat == w.2
                    &&& extension_present@[i] == ext_status(stems@[i]@, w.1)
                } by {
                    if i < pos {
                        assert(stems@[i] == os[i] && slots@[i] == osl[i] && depths@[i] == od[i]
                            && extension_present@[i] == oe[i]);
                    } else if i > pos {
                        assert(stems@[i] == os[i - 1] && slots@[i] == osl[i - 1] && depths@[i] == od[i - 1]
                            && extension_present@[i] == oe[i - 1]);
                    }
                }
            }
        }
        k = k + 1;
    }
    assert(ss.subrange(0, k as int) =~= ss);
    let ghost all = stem_views(stems@);
    let mut foreign: Vec<[u8; 31]> = Vec::new();
    let mut i: usize = 0;
    assert(stem_views(foreign@) =~= Seq::<Seq<u8>>::empty());
    assert(all.subrange(0, all.len() as int) =~= all);
    while i < stems.len()
        invariant
            all == stem_views(stems@),
            all == distinct_stems(kv),
            slots@.len() == stems@.len(),
            depths@.len() == stems@.len(),
            extension_present@.len() == stems@.len(),
            forall|j: int|
                0 <= j < stems@.len() ==> {
                    let w = walk(b@, stems@[j]@, 0);
                    &&& (#[trigger] slots@[j]).view() == w.1
                    &&& depths@[j] as nat == w.2
                    &&& extension_present@[j] == ext_status(stems@[j]@, w.1)
                },
            0 <= i <= stems@.len(),
            foreign_from(b@, all, all.subrange(i as int, all.len() as int), stem_views(foreign@))
                == foreign_from(b@, all, all, Seq::empty()),
        decreases stems@.len() - i,
    {
        let ghost rest = all.subrange(i as int, all.len() as int);
        let ghost prev = stem_views(foreign@);
        assert(rest[0] == stems@[i as int]@);
        assert(rest.drop_first() =~= all.subrange(i + 1, all.len() as int));
        assert(slots@[i as int].view() == walk(b@, stems@[i as int]@, 0).1);
        if let StemSlot::Found(f) = slots[i] {
            if !bytes_eq(&f, &stems[i]) && !contains_stem(&stems, &f) {
                let (pos, found) = bytes_position(&foreign, &f);
                if !found {
                    foreign.insert(pos, f);
                    assert(stem_views(foreign@) =~= prev.insert(pos as int, f@));
                }
            }
        }
        i = i + 1;
    }
    assert(all.subrange(i as int, all.len() as int) =~= Seq::<Seq<u8>>::empty());
    assert forall|j: int| 0 <= j < all.len() implies all[j] == stems@[j]@ by {}
    let r = VerificationHint { depths, extension_present, diff_stem_no_proof: foreign };
    assert(r.depths@.len() == all.len());
    assert(stem_views(r.diff_stem_no_proof@) == foreign_stems(b@, kv));
    assert forall|j: int| 0 <= j < all.len() implies {
        let w = walk(b@, all[j], 0);
        &&& (#[trigger] r.depths@[j]) as nat == w.2
        &&& r.extension_present@[j] == ext_status(all[j], w.1)
    } by {
        assert(all[j] == stems@[j]@);
        assert(slots@[j].view() == walk(b@, stems@[j]@, 0).1);
    }
    r
}

} // verus!

verus! {

/// The queries that prove `kv` against `db`, in path order, or
/// the error that stops their construction.
pub open spec fn prover_queries(db: DbModel, kv: Seq<Seq<u8>>) -> Result<Seq<QueryView>, VerkleError> {
    if kv.len() == 0 {
        Err(VerkleError::EmptyKeySet)
    } else {
        match lookup(db.branches, Seq::empty()) {
            None => Err(VerkleError::MissingExpectedNode),
            Some(BranchChild::Stem(_)) => Err(VerkleError::PathMismatch),
            Some(BranchChild::Branch(_)) => if crate::opening::any_corrupt(db, kv) {
                Err(VerkleError::PathMismatch)
            } else {
                queries_from(db, Seq::empty(), collect_openings(db, kv))
            },
        }
    }
}

/// The polynomial queries that prove membership or absence of each of
/// `keys`, with the hint a verifier needs. The first query is against the
/// root branch.
pub fn create_prover_queries<S: ReadOnlyHigherDb>(storage: &S, keys: Vec<[u8; 32]>) -> (r: Result<
    (Vec<ProverQuery>, VerificationHint),
    VerkleError,
>)
    requires
        storage.inv(),
    ensures
        match prover_queries(storage.model(), keys_view(keys@)) {
            Ok(q) => r is Ok && qviews(r.unwrap().0@) == q && hint_matches(
                storage.model().branches,
                keys_view(keys@),
                r.unwrap().1,
            ),
            Err(e) => r == Err::<(Vec<ProverQuery>, VerificationHint), VerkleError>(e),
        },
{
    if keys.len() == 0 {
        return Err(VerkleError::EmptyKeySet);
    }
    let root: Vec<u8> = Vec::new();
    assert(root@ =~= Seq::<u8>::empty());
    match storage.get_branch_meta(root.as_slice()) {
        Ok(Some(_)) => {},
        Ok(None) => return Err(VerkleError::MissingExpectedNode),
        Err(e) => return Err(e),
    }
    let (openings, ends) = match collect_opening_data(&keys, storage) {
        Ok(x) => x,
        Err(e) => return Err(e),
    };
    let queries = match open_queries(storage, &openings) {
        Ok(q) => q,
        Err(e) => return Err(e),
    };
    let hint = build_hint(Ghost(storage.model().branches), &keys, &ends);
    Ok((queries, hint))
}

} // verus!

verus! {

pub proof fn lemma_queries_from_prefix(db: DbModel, acc: Seq<QueryView>, os: Seq<OpeningView>)
    ensures
        queries_from(db, acc, os) is Ok ==> {
            let q = queries_from(db, acc, os).unwrap();
            q.len() >= acc.len() && q.subrange(0, acc.len() as int) == acc
        },
    decreases os.len(),
{
    if os.len() == 0 {
        assert(acc.subrange(0, acc.len() as int) =~= acc);
    } else if let Ok(q0) = query_of(db, os[0]) {
        let a1 = acc + q0;
        lemma_queries_from_prefix(db, a1, os.drop_first());
        if queries_from(db, a1, os.drop_first()) is Ok {
            let q = queries_from(db, a1, os.drop_first()).unwrap();
            assert(q.subrange(0, acc.len() as int) =~= q.subrange(0, a1.len() as int).subrange(0, acc.len() as int));
            assert(a1.subrange(0, acc.len() as int) =~= acc);
        }
    }
}

/// The commitment of the root branch.
pub open spec fn root_commitment(db: DbModel) -> Seq<u8> {
    match lookup(db.branches, Seq::empty()) {
        Some(BranchChild::Branch(m)) => m.commitment@,
        _ => Seq::empty(),
    }
}

/// Whenever queries can be built for a key list, there is at least one, and
/// the first is against the root branch's commitment.
pub proof fn lemma_first_query_is_root(db: DbModel, kv: Seq<Seq<u8>>)
    requires
        forall|i: int| 0 <= i < kv.len() ==> (#[trigger] kv[i]).len() == 32,
        prover_queries(db, kv) is Ok,
    ensures
        prover_queries(db, kv).unwrap().len() > 0,
        prover_queries(db, kv).unwrap()[0].commitment == root_commitment(db),
{
    let os = collect_openings(db, kv);
    crate::opening::lemma_first_opening(db, kv);
    let q0 = query_of(db, os[0]).unwrap();
    assert(q0.len() == 1);
    assert(Seq::<QueryView>::empty() + q0 =~= q0);
    lemma_queries_from_prefix(db, q0, os.drop_first());
    let q = queries_from(db, q0, os.drop_first()).unwrap();
    assert(q.subrange(0, 1)[0] == q[0]);
}

/// `acc` with `x` appended, unless `acc` already holds it.
pub open spec fn add_one<A>(acc: Seq<A>, x: A) -> Seq<A> {
    if acc.contains(x) {
        acc
    } else {
        acc.push(x)
    }
}

pub open spec fn comm_views(s: Seq<Commitment>) -> Seq<Seq<u8>> {
    s.map_values(|c: Commitment| c@)
}

/// Going through `qs`, the commitments other than `root`, added after `acc`
/// once each, in order of first appearance.
pub open spec fn comms_from(qs: Seq<QueryView>, root: Seq<u8>, acc: Seq<Seq<u8>>) -> Seq<Seq<u8>>
    decreases qs.len(),
{
    if qs.len() == 0 {
        acc
    } else {
        let c = qs[0].commitment;
        comms_from(qs.drop_first(), root, if c != root { add_one(acc, c) } else { acc })
    }
}

/// The aggregation of many openings into one proof.
pub trait CommitmentEngine {
    /// One proof of all `queries`.
    fn open(&self, queries: Vec<ProverQuery>) -> Vec<u8>;
}

/// A proof of membership or absence for a set of keys: the commitments it
/// opens (without the root, each once, in the order of the queries), the hint,
/// and the aggregated opening.
#[derive(Clone, Debug)]
pub struct VerkleProof {
    pub comms_sorted: Vec<Commitment>,
    pub verification_hint: VerificationHint,
    pub proof: Vec<u8>,
}

fn contains_comm(v: &Vec<Commitment>, c: &Commitment) -> (r: bool)
    ensures
        r == comm_views(v@).contains(c@),
{
    let mut i: usize = 0;
    while i < v.len()
        invariant
            0 <= i <= v@.len(),
            forall|j: int| 0 <= j < i ==> v@[j]@ != c@,
        decreases v@.len() - i,
    {
        if bytes_eq(&v[i], c) {
            assert(comm_views(v@)[i as int] == c@);
            return true;
        }
        i = i + 1;
    }
    assert forall|j: int| 0 <= j < comm_views(v@).len() implies comm_views(v@)[j] != c@ by {
        assert(v@[j]@ != c@);
    }
    false
}

/// The commitments of `queries` but `root`, each once, in order.
fn distinct_commitments(queries: &Vec<ProverQuery>, root: &Commitment) -> (r: Vec<Commitment>)
    ensures
        comm_views(r@) == comms_from(qviews(queries@), root@, Seq::empty()),
        comm_views(r@).no_duplicates(),
        !comm_views(r@).contains(root@),
{
    let ghost qs = qviews(queries@);
    let mut comms: Vec<Commitment> = Vec::new();
    let mut i: usize = 0;
    assert(comm_views(comms@) =~= Seq::<Seq<u8>>::empty());
    assert(qs.subrange(0, qs.len() as int) =~= qs);
    while i < queries.len()
        invariant
            qs == qviews(queries@),
            0 <= i <= queries@.len(),
            comms_from(qs.subrange(i as int, qs.len() as int), root@, comm_views(comms@)) == comms_from(
                qs,
                root@,
                Seq::empty(),
            ),
            comm_views(comms@).no_duplicates(),
            !comm_views(comms@).contains(root@),
        decreases queries@.len() - i,
    {
        let ghost rest = qs.subrange(i as int, qs.len() as int);
        let ghost prev = comm_views(comms@);
        assert(rest[0] == queries@[i as int].view());
        assert(rest.drop_first() =~= qs.subrange(i + 1, qs.len() as int));
        let c = queries[i].commitment;
        if !bytes_eq(&c, root) && !contains_comm(&comms, &c) {
            comms.push(c);
            assert(comm_views(comms@) =~= prev.push(c@));
            assert forall|a: int, b: int|
                0 <= a < comm_views(comms@).len() && 0 <= b < comm_views(comms@).len() && a != b implies comm_views(
                comms@,
            )[a] != comm_views(comms@)[b] by {
                if a == prev.len() as int {
                    assert(prev[b] == comm_views(comms@)[b]);
                } else if b == prev.len() as int {
                    assert(prev[a] == comm_views(comms@)[a]);
                }
            }
            assert(!comm_views(comms@).contains(root@)) by {
                if comm_views(comms@).contains(root@) {
                    let j = choose|j: int| 0 <= j < comm_views(comms@).len() && comm_views(comms@)[j] == root@;
                    if j < prev.len() {
                        assert(prev[j] == root@);
                    }
                }
            }
        }
        i = i + 1;
    }
    assert(qs.subrange(i as int, qs.len() as int) =~= Seq::<QueryView>::empty());
    comms
}

/// Builds the proof for `keys`: the queries, the commitments they open
/// other than the root, and one aggregated opening of all queries.
pub fn create_verkle_proof<S: ReadOnlyHigherDb, E: CommitmentEngine>(
    storage: &S,
    keys: Vec<[u8; 32]>,
    engine: &E,
) -> (r: Result<VerkleProof, VerkleError>)
    requires
        storage.inv(),
    ensures
        match prover_queries(storage.model(), keys_view(keys@)) {
            Ok(q) => {
                &&& r is Ok
                &&& q.len() > 0
                &&& q[0].commitment == root_commitment(storage.model())
                &&& comm_views(r.unwrap().comms_sorted@) == comms_from(q, root_commitment(storage.model()), Seq::empty())
                &&& comm_views(r.unwrap().comms_sorted@).no_duplicates()
                &&& !comm_views(r.unwrap().comms_sorted@).contains(root_commitment(storage.model()))
                &&& hint_matches(storage.model().branches, keys_view(keys@), r.unwrap().verification_hint)
            },
            Err(e) => r == Err::<VerkleProof, VerkleError>(e),
        },
{
    if keys.len() == 0 {
        return Err(VerkleError::EmptyKeySet);
    }
    let ghost kv = keys_view(keys@);
    let (queries, verification_hint) = match create_prover_queries(storage, keys) {
        Ok(x) => x,
        Err(e) => return Err(e),
    };
    proof {
        assert forall|i: int| 0 <= i < kv.len() implies (#[trigger] kv[i]).len() == 32 by {}
        lemma_first_query_is_root(storage.model(), kv);
    }
    let root_comm = queries[0].commitment;
    let comms_sorted = distinct_commitments(&queries, &root_comm);
    let proof = engine.open(queries);
    Ok(VerkleProof { comms_sorted, verification_hint, proof })
}

} // verus!

verus! {

/// A trie whose shape the proof walk can rely on: the root is a branch, no
/// branch sits at a full stem's depth, and every stem that a slot names has
/// its metadata.
pub open spec fn populated_trie(db: DbModel) -> bool {
    &&& lookup(db.branches, Seq::empty()) matches Some(BranchChild::Branch(_))
    &&& forall|p: Seq<u8>| #[trigger] db.branches.contains_key(p) && db.branches[p] is Branch ==> p.len() < 31
    &&& forall|p: Seq<u8>|
        #[trigger] db.branches.contains_key(p) && db.branches[p] is Stem ==> db.stems.contains_key(
            db.branches[p]->Stem_0@,
        )
}

pub open spec fn all_open(db: DbModel, os: Seq<OpeningView>) -> bool {
    forall|i: int| 0 <= i < os.len() ==> query_of(db, #[trigger] os[i]) is Ok
}

proof fn lemma_walk_sound(db: DbModel, stem: Seq<u8>, d: nat)
    requires
        populated_trie(db),
        stem.len() == 31,
        d <= 31,
        lookup(db.branches, stem.subrange(0, d as int)) matches Some(BranchChild::Branch(_)),
    ensures
        !(walk(db.branches, stem, d).1 is Corrupt),
        all_open(db, walk(db.branches, stem, d).0),
        walk(db.branches, stem, d).1 matches WalkEnd::Found(s) ==> db.stems.contains_key(s),
    decreases 31 - d,
{
    let b = db.branches;
    let p = stem.subrange(0, d as int);
    assert(b.contains_key(p) && b[p] is Branch);
    assert(d < 31);
    let here = OpeningView::Branch(p, stem[d as int]);
    assert(p.push(stem[d as int]) =~= stem.subrange(0, d + 1 as int));
    let w = walk(b, stem, d);
    assert(query_of(db, here) is Ok);
    match lookup(b, stem.subrange(0, d + 1 as int)) {
        Some(BranchChild::Branch(_)) => {
            lemma_walk_sound(db, stem, d + 1);
            let r = walk(b, stem, d + 1);
            assert forall|i: int| 0 <= i < w.0.len() implies query_of(db, #[trigger] w.0[i]) is Ok by {
                if i > 0 {
                    assert(w.0[i] == r.0[i - 1]);
                }
            }
        },
        _ => {
            assert forall|i: int| 0 <= i < w.0.len() implies query_of(db, #[trigger] w.0[i]) is Ok by {
                assert(w.0[i] == here);
            }
        },
    }
}

proof fn lemma_key_sound(db: DbModel, key: Seq<u8>)
    requires
        populated_trie(db),
        key.len() == 32,
    ensures
        !(walk(db.branches, key.subrange(0, 31), 0).1 is Corrupt),
        all_open(db, key_openings(db, key)),
{
    let stem = key.subrange(0, 31);
    assert(stem.subrange(0, 0) =~= Seq::<u8>::empty());
    lemma_walk_sound(db, stem, 0);
    let w = walk(db.branches, stem, 0);
    let ko = key_openings(db, key);
    assert forall|i: int| 0 <= i < ko.len() implies query_of(db, #[trigger] ko[i]) is Ok by {
        if i < w.0.len() {
            assert(ko[i] == w.0[i]);
        } else if let WalkEnd::Found(s) = w.1 {
            if i == w.0.len() {
                assert(ko[i] == OpeningView::Extension(s));
            } else if i == w.0.len() + 1 {
                assert(ko[i] == OpeningView::Half(stem, key[31] / 128));
            } else {
                assert(stem.push(key[31]) =~= key);
                assert(ko[i] == OpeningView::Suffix(stem, key[31]));
            }
        }
    }
}

proof fn lemma_ins_all_open(db: DbModel, acc: Seq<OpeningView>, xs: Seq<OpeningView>)
    requires
        all_open(db, acc),
        all_open(db, xs),
    ensures
        all_open(db, ins_all(acc, xs)),
{
    let r = ins_all(acc, xs);
    assert forall|i: int| 0 <= i < r.len() implies query_of(db, #[trigger] r[i]) is Ok by {
        crate::opening::lemma_ins_all_contains(acc, xs, r[i]);
        assert(r.contains(r[i]));
        if acc.contains(r[i]) {
            let j = choose|j: int| 0 <= j < acc.len() && acc[j] == r[i];
            assert(query_of(db, acc[j]) is Ok);
        } else {
            let j = choose|j: int| 0 <= j < xs.len() && xs[j] == r[i];
            assert(query_of(db, xs[j]) is Ok);
        }
    }
}

proof fn lemma_collect_open(db: DbModel, acc: Seq<OpeningView>, keys: Seq<Seq<u8>>)
    requires
        populated_trie(db),
        forall|i: int| 0 <= i < keys.len() ==> (#[trigger] keys[i]).len() == 32,
        all_open(db, acc),
    ensures
        all_open(db, collect_from(db, acc, keys)),
    decreases keys.len(),
{
    if keys.len() > 0 {
        lemma_key_sound(db, keys[0]);
        lemma_ins_all_open(db, acc, key_openings(db, keys[0]));
        assert forall|i: int| 0 <= i < keys.drop_first().len() implies (#[trigger] keys.drop_first()[i]).len()
            == 32 by {
            assert(keys.drop_first()[i] == keys[i + 1]);
        }
        lemma_collect_open(db, ins_all(acc, key_openings(db, keys[0])), keys.drop_first());
    }
}

proof fn lemma_queries_ok(db: DbModel, acc: Seq<QueryView>, os: Seq<OpeningView>)
    requires
        all_open(db, os),
    ensures
        queries_from(db, acc, os) is Ok,
    decreases os.len(),
{
    if os.len() > 0 {
        assert(query_of(db, os[0]) is Ok);
        assert forall|i: int| 0 <= i < os.drop_first().len() implies query_of(db, #[trigger] os.drop_first()[i]) is Ok by {
            assert(os.drop_first()[i] == os[i + 1]);
        }
        lemma_queries_ok(db, acc + query_of(db, os[0]).unwrap(), os.drop_first());
    }
}

/// Over a populated trie, queries can be built for every non-empty key
/// list, and the first of them is against the root branch's commitment.
pub proof fn lemma_populated_trie_proves(db: DbModel, kv: Seq<Seq<u8>>)
    requires
        populated_trie(db),
        kv.len() > 0,
        forall|i: int| 0 <= i < kv.len() ==> (#[trigger] kv[i]).len() == 32,
    ensures
        prover_queries(db, kv) is Ok,
        prover_queries(db, kv).unwrap().len() > 0,
        prover_queries(db, kv).unwrap()[0].commitment == root_commitment(db),
{
    assert(!crate::opening::any_corrupt(db, kv)) by {
        assert forall|i: int| 0 <= i < kv.len() implies !(#[trigger] walk(db.branches, kv[i].subrange(0, 31), 0).1 is Corrupt) by {
            lemma_key_sound(db, kv[i]);
        }
    }
    lemma_collect_open(db, Seq::empty(), kv);
    lemma_queries_ok(db, Seq::empty(), collect_openings(db, kv));
    lemma_first_query_is_root(db, kv);
}

} // verus!

verus! {

proof fn lemma_array_eq<const N: usize>(x: [u8; N], y: [u8; N])
    requires
        x@ == y@,
    ensures
        x == y,
{
    broadcast use vstd::array::group_array_axioms;

    assert forall|j: int| 0 <= j < N implies x[j] == y[j] by {
        assert(x@[j] == y@[j]);
    }
    assert(x =~= y);
}

/// Two query lists with their hints, each built for the same keys over the
/// same store, are identical.
pub proof fn lemma_prover_queries_deterministic(
    db: DbModel,
    kv: Seq<Seq<u8>>,
    a: (Vec<ProverQuery>, VerificationHint),
    b: (Vec<ProverQuery>, VerificationHint),
)
    requires
        prover_queries(db, kv) is Ok,
        qviews(a.0@) == prover_queries(db, kv).unwrap(),
        qviews(b.0@) == prover_queries(db, kv).unwrap(),
        hint_matches(db.branches, kv, a.1),
        hint_matches(db.branches, kv, b.1),
    ensures
        a.0@ == b.0@,
        a.1.depths@ == b.1.depths@,
        a.1.extension_present@ == b.1.extension_present@,
        a.1.diff_stem_no_proof@ == b.1.diff_stem_no_proof@,
{
    assert(a.0@.len() == qviews(a.0@).len());
    assert forall|i: int| 0 <= i < a.0@.len() implies a.0@[i] == b.0@[i] by {
        assert(qviews(a.0@)[i] == qviews(b.0@)[i]);
        assert(qviews(a.0@)[i] == a.0@[i].view());
        assert(qviews(b.0@)[i] == b.0@[i].view());
        lemma_array_eq(a.0@[i].commitment, b.0@[i].commitment);
        lemma_array_eq(a.0@[i].result, b.0@[i].result);
    }
    assert(a.0@ =~= b.0@);
    let stems = distinct_stems(kv);
    assert forall|i: int| 0 <= i < stems.len() implies a.1.depths@[i] == b.1.depths@[i] by {
        assert(a.1.depths@[i] as nat == walk(db.branches, stems[i], 0).2);
        assert(b.1.depths@[i] as nat == walk(db.branches, stems[i], 0).2);
    }
    assert(a.1.depths@ =~= b.1.depths@);
    assert forall|i: int| 0 <= i < stems.len() implies a.1.extension_present@[i] == b.1.extension_present@[i] by {
        assert(a.1.depths@[i] as nat == walk(db.branches, stems[i], 0).2);
        assert(a.1.extension_present@[i] == ext_status(stems[i], walk(db.branches, stems[i], 0).1));
        assert(b.1.extension_present@[i] == ext_status(stems[i], walk(db.branches, stems[i], 0).1));
    }
    assert(a.1.extension_present@ =~= b.1.extension_present@);
    let fa = a.1.diff_stem_no_proof@;
    let fb = b.1.diff_stem_no_proof@;
    assert(fa.len() == stem_views(fa).len());
    assert forall|i: int| 0 <= i < fa.len() implies fa[i] == fb[i] by {
        assert(stem_views(fa)[i] == stem_views(fb)[i]);
        assert(stem_views(fa)[i] == fa[i]@);
        assert(stem_views(fb)[i] == fb[i]@);
        lemma_array_eq(fa[i], fb[i]);
    }
    assert(fa =~= fb);
}

} // verus!

verus! {

/// For a single key `k` whose walk ends on a stem: when the stem is `k`'s
/// own and `k` is stored, the openings are the branch openings of the walk,
/// the stem's extension, the half holding `k`'s suffix and `k`'s suffix,
/// and no stem is foreign; when another stem `s` occupies the slot, `s` is
/// opened as an extension, recorded as foreign, and nothing under any stem
/// is opened past its extension.
pub proof fn lemma_single_key_openings(db: DbModel, k: Seq<u8>)
    requires
        k.len() == 32,
    ensures
        ({
            let stem = k.subrange(0, 31);
            let w = walk(db.branches, stem, 0);
            let os = collect_openings(db, seq![k]);
            &&& (w.1 == WalkEnd::Found(stem) && db.leaves.contains_key(k)) ==> {
                &&& key_openings(db, k) == w.0 + seq![
                    OpeningView::Extension(stem),
                    OpeningView::Half(stem, k[31] / 128),
                    OpeningView::Suffix(stem, k[31]),
                ]
                &&& os.contains(OpeningView::Extension(stem))
                &&& os.contains(OpeningView::Half(stem, k[31] / 128))
                &&& os.contains(OpeningView::Suffix(stem, k[31]))
                &&& foreign_stems(db.branches, seq![k]) == Seq::<Seq<u8>>::empty()
            }
            &&& (w.1 matches WalkEnd::Found(s) && s != stem) ==> {
                &&& os.contains(OpeningView::Extension(w.1->Found_0))
                &&& forall|i: int| 0 <= i < os.len() ==> !(#[trigger] os[i] is Suffix) && !(os[i] is Half)
                &&& foreign_stems(db.branches, seq![k]) == seq![w.1->Found_0]
            }
        }),
{
    let stem = k.subrange(0, 31);
    let w = walk(db.branches, stem, 0);
    let ko = key_openings(db, k);
    let os = collect_openings(db, seq![k]);
    assert(seq![k].drop_first() =~= Seq::<Seq<u8>>::empty());
    assert(seq![k][0] == k);
    reveal_with_fuel(collect_from, 2);
    assert(os == ins_all(Seq::empty(), ko));
    let ss = stem_seq(seq![k]);
    assert(ss =~= seq![stem]);
    assert(ss.drop_first() =~= Seq::<Seq<u8>>::empty());
    let ds = distinct_stems(seq![k]);
    assert(ss[0] == stem);
    reveal_with_fuel(bytes_ins_all, 2);
    assert(ds == bytes_ins(Seq::empty(), stem));
    assert(ds =~= seq![stem]);
    assert(ds.drop_first() =~= Seq::<Seq<u8>>::empty());
    assert(ds.contains(stem)) by {
        assert(ds[0] == stem);
    }
    lemma_ins_all_members(ko);
    reveal_with_fuel(foreign_from, 2);
    assert(ds[0] == stem);
    if let WalkEnd::Found(s) = w.1 {
        if s != stem {
            assert(!ds.contains(s)) by {
                if ds.contains(s) {
                    let j = choose|j: int| 0 <= j < ds.len() && ds[j] == s;
                }
            }
            assert(bytes_ins(Seq::empty(), s) == seq![s]);
            assert(ko =~= w.0 + seq![OpeningView::Extension(s)]);
            assert(ko[w.0.len() as int] == OpeningView::Extension(s));
            assert(ko.contains(OpeningView::Extension(s)));
            assert(foreign_stems(db.branches, seq![k]) == foreign_from(db.branches, ds, ds.drop_first(), seq![s]));
            assert forall|i: int| 0 <= i < os.len() implies !(#[trigger] os[i] is Suffix) && !(os[i] is Half) by {
                crate::opening::lemma_ins_all_contains(Seq::empty(), ko, os[i]);
                assert(os.contains(os[i]));
                let j = choose|j: int| 0 <= j < ko.len() && ko[j] == os[i];
                if j < w.0.len() {
                    lemma_walk_branches(db.branches, stem, 0, j);
                }
            }
        } else if db.leaves.contains_key(k) {
            assert(ko =~= w.0 + seq![
                OpeningView::Extension(stem),
                OpeningView::Half(stem, k[31] / 128),
                OpeningView::Suffix(stem, k[31]),
            ]);
            assert(ko[w.0.len() as int] == OpeningView::Extension(stem));
            assert(ko[w.0.len() + 1 as int] == OpeningView::Half(stem, k[31] / 128));
            assert(ko[w.0.len() + 2 as int] == OpeningView::Suffix(stem, k[31]));
            assert(ko.contains(OpeningView::Extension(stem)));
            assert(ko.contains(OpeningView::Half(stem, k[31] / 128)));
            assert(ko.contains(OpeningView::Suffix(stem, k[31])));
        }
    }
}

/// Every opening of a walk is a branch opening.
proof fn lemma_walk_branches(b: Map<Seq<u8>, BranchChild>, stem: Seq<u8>, d: nat, j: int)
    requires
        0 <= j < walk(b, stem, d).0.len(),
    ensures
        walk(b, stem, d).0[j] is Branch,
    decreases 31 - d,
{
    if d < 31 && d < stem.len() {
        if lookup(b, stem.subrange(0, d + 1 as int)) matches Some(BranchChild::Branch(_)) {
            if j > 0 {
                lemma_walk_branches(b, stem, d + 1, j - 1);
            }
        }
    }
}

/// Each element of `xs` ends up in `ins_all(Seq::empty(), xs)`.
proof fn lemma_ins_all_members(xs: Seq<OpeningView>)
    ensures
        forall|y: OpeningView| xs.contains(y) ==> #[trigger] ins_all(Seq::empty(), xs).contains(y),
{
    assert forall|y: OpeningView| xs.contains(y) implies #[trigger] ins_all(Seq::empty(), xs).contains(y) by {
        crate::opening::lemma_ins_all_keeps(Seq::empty(), xs, y);
    }
}

} // verus!

verus! {

/// Two stored keys `k1`, `k2` under one stem that the walk finds: the
/// openings hold the stem's extension and each key's suffix, and, having no
/// repeats, hold each of them exactly once.
pub proof fn lemma_shared_stem_openings(db: DbModel, k1: Seq<u8>, k2: Seq<u8>)
    requires
        k1.len() == 32,
        k2.len() == 32,
        k1.subrange(0, 31) == k2.subrange(0, 31),
        walk(db.branches, k1.subrange(0, 31), 0).1 == WalkEnd::Found(k1.subrange(0, 31)),
        db.leaves.contains_key(k1),
        db.leaves.contains_key(k2),
    ensures
        ({
            let stem = k1.subrange(0, 31);
            let os = collect_openings(db, seq![k1, k2]);
            &&& os.no_duplicates()
            &&& os.contains(OpeningView::Extension(stem))
            &&& os.contains(OpeningView::Suffix(stem, k1[31]))
            &&& os.contains(OpeningView::Suffix(stem, k2[31]))
        }),
{
    let stem = k1.subrange(0, 31);
    let kv = seq![k1, k2];
    let ko1 = key_openings(db, k1);
    let ko2 = key_openings(db, k2);
    let w = walk(db.branches, stem, 0);
    assert(kv[0] == k1 && kv[1] == k2);
    assert(kv.drop_first() =~= seq![k2]);
    assert(kv.drop_first()[0] == k2);
    assert(kv.drop_first().drop_first() =~= Seq::<Seq<u8>>::empty());
    reveal_with_fuel(collect_from, 3);
    let a1 = ins_all(Seq::empty(), ko1);
    let os = collect_openings(db, kv);
    assert(os == ins_all(a1, ko2));
    crate::opening::lemma_openings_path_ordered(db, kv);
    assert(ko1 =~= w.0 + seq![
        OpeningView::Extension(stem),
        OpeningView::Half(stem, k1[31] / 128),
        OpeningView::Suffix(stem, k1[31]),
    ]);
    assert(ko2 =~= w.0 + seq![
        OpeningView::Extension(stem),
        OpeningView::Half(stem, k2[31] / 128),
        OpeningView::Suffix(stem, k2[31]),
    ]);
    assert(ko1[w.0.len() as int] == OpeningView::Extension(stem));
    assert(ko1.contains(OpeningView::Extension(stem)));
    assert(ko1[w.0.len() + 2 as int] == OpeningView::Suffix(stem, k1[31]));
    assert(ko1.contains(OpeningView::Suffix(stem, k1[31])));
    assert(ko2[w.0.len() + 2 as int] == OpeningView::Suffix(stem, k2[31]));
    assert(ko2.contains(OpeningView::Suffix(stem, k2[31])));
    crate::opening::lemma_ins_all_keeps(Seq::empty(), ko1, OpeningView::Extension(stem));
    crate::opening::lemma_ins_all_keeps(Seq::empty(), ko1, OpeningView::Suffix(stem, k1[31]));
    crate::opening::lemma_ins_all_keeps(a1, ko2, OpeningView::Extension(stem));
    crate::opening::lemma_ins_all_keeps(a1, ko2, OpeningView::Suffix(stem, k1[31]));
    crate::opening::lemma_ins_all_keeps(a1, ko2, OpeningView::Suffix(stem, k2[31]));
}

} // verus!

verus! {

proof fn lemma_foreign_from_ascending(
    b: Map<Seq<u8>, BranchChild>,
    all: Seq<Seq<u8>>,
    rest: Seq<Seq<u8>>,
    acc: Seq<Seq<u8>>,
)
    requires
        crate::order::bytes_ascending(acc),
    ensures
        crate::order::bytes_ascending(foreign_from(b, all, rest, acc)),
    decreases rest.len(),
{
    if rest.len() > 0 {
        let s = rest[0];
        crate::order::lemma_bytes_ins_ascending(acc, match walk(b, s, 0).1 {
            WalkEnd::Found(f) => f,
            _ => s,
        });
        let acc2 = match walk(b, s, 0).1 {
            WalkEnd::Found(f) => if f != s && !all.contains(f) {
                bytes_ins(acc, f)
            } else {
                acc
            },
            _ => acc,
        };
        lemma_foreign_from_ascending(b, all, rest.drop_first(), acc2);
    }
}

/// The hint's stems, and its foreign stems, are in strictly ascending order.
pub proof fn lemma_hint_stems_ascending(b: Map<Seq<u8>, BranchChild>, kv: Seq<Seq<u8>>)
    ensures
        crate::order::bytes_ascending(distinct_stems(kv)),
        crate::order::bytes_ascending(foreign_stems(b, kv)),
{
    crate::order::lemma_bytes_ins_all_ascending(Seq::empty(), stem_seq(kv));
    lemma_foreign_from_ascending(b, distinct_stems(kv), distinct_stems(kv), Seq::empty());
}

} // verus!
