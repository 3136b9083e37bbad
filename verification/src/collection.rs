use crate::record::{
    clone_byte_list, clone_bytes, clone_meta_list, clone_record, eligible, eligible_spec,
    record_wf, str_ok, PatchRecord, RecordView,
};
use crate::SyncError;
use vstd::prelude::*;

verus! {

/// An ordered collection of patch records. Order is significant for
/// serialization; the set operations join records by `identity` alone.
pub struct PatchCollection {
    pub patches: Vec<PatchRecord>,
}

impl View for PatchCollection {
    type V = Seq<RecordView>;

    open spec fn view(&self) -> Seq<RecordView> {
        self.patches@.map_values(|p: PatchRecord| p@)
    }
}

/// First record of `c` whose identity is `id`, if any.
pub open spec fn lookup(c: Seq<RecordView>, id: Seq<u8>) -> Option<RecordView>
    decreases c.len(),
{
    if c.len() == 0 {
        None
    } else if c[0].identity == id {
        Some(c[0])
    } else {
        lookup(c.drop_first(), id)
    }
}

/// Whether some record of `c` has identity `id`.
pub open spec fn has_id(c: Seq<RecordView>, id: Seq<u8>) -> bool {
    lookup(c, id) is Some
}

/// Whether `x` occurs in the string list `s`.
pub open spec fn contains_str(s: Seq<Seq<u8>>, x: Seq<u8>) -> bool {
    exists|i: int| 0 <= i < s.len() && s[i] == x
}

/// Well-formedness of a collection: every record well-formed, no two records
/// sharing an identity.
pub open spec fn coll_wf(c: Seq<RecordView>) -> bool {
    &&& forall|i: int| 0 <= i < c.len() ==> record_wf(#[trigger] c[i])
    &&& forall|i: int, j: int| 0 <= i < j < c.len() ==> c[i].identity != c[j].identity
}

/// Records of `a` whose identity does not occur in `b`, in `a`'s order.
pub open spec fn sub_spec(a: Seq<RecordView>, b: Seq<RecordView>) -> Seq<RecordView>
    decreases a.len(),
{
    if a.len() == 0 {
        Seq::empty()
    } else if has_id(b, a[0].identity) {
        sub_spec(a.drop_first(), b)
    } else {
        seq![a[0]] + sub_spec(a.drop_first(), b)
    }
}

/// Records of `c` eligible at toolchain version `v`, in order.
pub open spec fn filt_spec(c: Seq<RecordView>, v: u64) -> Seq<RecordView>
    decreases c.len(),
{
    if c.len() == 0 {
        Seq::empty()
    } else if eligible_spec(c[0], v) {
        seq![c[0]] + filt_spec(c.drop_first(), v)
    } else {
        filt_spec(c.drop_first(), v)
    }
}

/// Records of `c` merged on platform `tag`, each narrowed to exactly that tag.
pub open spec fn narrow_spec(c: Seq<RecordView>, tag: Seq<u8>) -> Seq<RecordView>
    decreases c.len(),
{
    if c.len() == 0 {
        Seq::empty()
    } else if contains_str(c[0].platforms, tag) {
        seq![RecordView { platforms: seq![tag], ..c[0] }] + narrow_spec(c.drop_first(), tag)
    } else {
        narrow_spec(c.drop_first(), tag)
    }
}

/// Elements of `b` that do not occur in `a`, in `b`'s order.
pub open spec fn plat_extra(a: Seq<Seq<u8>>, b: Seq<Seq<u8>>) -> Seq<Seq<u8>>
    decreases b.len(),
{
    if b.len() == 0 {
        Seq::empty()
    } else if contains_str(a, b[0]) {
        plat_extra(a, b.drop_first())
    } else {
        seq![b[0]] + plat_extra(a, b.drop_first())
    }
}

/// Order-preserving union of two platform lists: all of `a`, then the
/// elements of `b` not already present.
pub open spec fn plat_merge(a: Seq<Seq<u8>>, b: Seq<Seq<u8>>) -> Seq<Seq<u8>> {
    a + plat_extra(a, b)
}

/// The merged record for an identity present on both sides: platform sets
/// united, every other field taken from `r` (the left side wins).
pub open spec fn merge_rec(r: RecordView, o: RecordView) -> RecordView {
    RecordView { platforms: plat_merge(r.platforms, o.platforms), ..r }
}

/// `a` with each record merged against `b`'s record of the same identity.
pub open spec fn merged_part(a: Seq<RecordView>, b: Seq<RecordView>) -> Seq<RecordView>
    decreases a.len(),
{
    if a.len() == 0 {
        Seq::empty()
    } else {
        let h = match lookup(b, a[0].identity) {
            Some(o) => merge_rec(a[0], o),
            None => a[0],
        };
        seq![h] + merged_part(a.drop_first(), b)
    }
}

/// Union of two collections: `a`'s records (platform sets united with `b`'s
/// for shared identities, all other fields from `a`), then `b`'s records
/// whose identity is new.
pub open spec fn union_spec(a: Seq<RecordView>, b: Seq<RecordView>) -> Seq<RecordView> {
    merged_part(a, b) + sub_spec(b, a)
}

/// `c` with every record's platform list replaced by exactly `tag`.
pub open spec fn retag_all(c: Seq<RecordView>, tag: Seq<u8>) -> Seq<RecordView>
    decreases c.len(),
{
    if c.len() == 0 {
        Seq::empty()
    } else {
        seq![RecordView { platforms: seq![tag], ..c[0] }] + retag_all(c.drop_first(), tag)
    }
}

/// The destination collection after a transposition: the new records appended
/// at the end, each carrying the originating platform tag.
pub open spec fn transpose_spec(dest: Seq<RecordView>, new: Seq<RecordView>, tag: Seq<u8>)
    -> Seq<RecordView> {
    dest + retag_all(new, tag)
}

/// One step of a sequence: dropping the first element of a suffix.
pub proof fn lemma_skip_head<A>(s: Seq<A>, i: int)
    requires
        0 <= i < s.len(),
    ensures
        s.skip(i).drop_first() == s.skip(i + 1),
        s.skip(i)[0] == s[i],
        s.skip(i).len() == s.len() - i,
{
    assert(s.skip(i).drop_first() =~= s.skip(i + 1));
}

/// Byte-string equality.
pub fn bytes_eq(a: &Vec<u8>, b: &Vec<u8>) -> (r: bool)
    ensures
        r == (a@ == b@),
{
    if a.len() != b.len() {
        proof {
            assert(a@ != b@);
        }
        return false;
    }
    let mut i: usize = 0;
    while i < a.len()
        invariant
            a.len() == b.len(),
            i <= a.len(),
            forall|j: int| 0 <= j < i ==> a@[j] == b@[j],
        decreases a.len() - i,
    {
        if a[i] != b[i] {
            proof {
                assert(a@[i as int] != b@[i as int]);
                assert(a@ != b@);
            }
            return false;
        }
        i = i + 1;
    }
    proof {
        assert(a@ =~= b@);
    }
    true
}

/// Whether `x` occurs in the string list `l`.
pub fn list_contains(l: &Vec<Vec<u8>>, x: &Vec<u8>) -> (r: bool)
    ensures
        r == contains_str(l.deep_view(), x@),
{
    let mut i: usize = 0;
    proof {
        assert(l.deep_view().len() == l@.len());
    }
    while i < l.len()
        invariant
            i <= l.len(),
            l.deep_view().len() == l@.len(),
            forall|j: int| 0 <= j < i ==> l.deep_view()[j] != x@,
        decreases l.len() - i,
    {
        if bytes_eq(&l[i], x) {
            proof {
                crate::record::lemma_bytes_deep_view(l@[i as int]);
                assert(l.deep_view()[i as int] == x@);
            }
            return true;
        }
        proof {
            crate::record::lemma_bytes_deep_view(l@[i as int]);
        }
        i = i + 1;
    }
    proof {
        assert(!contains_str(l.deep_view(), x@));
    }
    false
}

/// If no record before position `i` matches, the first match in `c` is the
/// first match in the suffix from `i`.
pub proof fn lemma_lookup_skip(c: Seq<RecordView>, id: Seq<u8>, i: int)
    requires
        0 <= i <= c.len(),
        forall|j: int| 0 <= j < i ==> c[j].identity != id,
    ensures
        lookup(c, id) == lookup(c.skip(i), id),
    decreases i,
{
    if i > 0 {
        assert(c.skip(0) =~= c);
        lemma_lookup_skip(c, id, i - 1);
        lemma_skip_head(c, i - 1);
        assert(lookup(c.skip(i - 1), id) == lookup(c.skip(i), id));
    } else {
        assert(c.skip(0) =~= c);
    }
}

impl PatchCollection {
    /// A collection with no records.
    pub fn empty() -> (r: PatchCollection)
        ensures
            r@ == Seq::<RecordView>::empty(),
    {
        let r = PatchCollection { patches: Vec::new() };
        proof {
            assert(r@ =~= Seq::<RecordView>::empty());
        }
        r
    }

    /// Whether the collection has no records.
    pub fn is_empty(&self) -> (r: bool)
        ensures
            r == (self@.len() == 0),
    {
        self.patches.len() == 0
    }

    /// Position of the first record with identity `id`, together with the
    /// fact that it realizes `lookup`.
    pub fn find_by_id(&self, id: &Vec<u8>) -> (r: Option<usize>)
        ensures
            match r {
                Some(j) => {
                    &&& j < self@.len()
                    &&& self@[j as int].identity == id@
                    &&& lookup(self@, id@) == Some(self@[j as int])
                },
                None => lookup(self@, id@) is None,
            },
    {
        let mut i: usize = 0;
        while i < self.patches.len()
            invariant
                i <= self@.len(),
                self@.len() == self.patches.len(),
                forall|j: int| 0 <= j < i ==> self@[j].identity != id@,
            decreases self.patches.len() - i,
        {
            if bytes_eq(&self.patches[i].identity, id) {
                proof {
                    lemma_lookup_skip(self@, id@, i as int);
                    lemma_skip_head(self@, i as int);
                }
                return Some(i);
            }
            i = i + 1;
        }
        proof {
            lemma_lookup_skip(self@, id@, i as int);
            assert(self@.skip(i as int).len() == 0);
        }
        None
    }

    /// Whether some record has identity `id`.
    pub fn contains_id(&self, id: &Vec<u8>) -> (r: bool)
        ensures
            r == has_id(self@, id@),
    {
        match self.find_by_id(id) {
            Some(_) => true,
            None => false,
        }
    }

    /// Records of `self` whose identity does not occur in `other`: what is
    /// still missing on the other side.
    pub fn subtract(&self, other: &PatchCollection) -> (r: PatchCollection)
        ensures
            r@ == sub_spec(self@, other@),
    {
        let mut out: Vec<PatchRecord> = Vec::new();
        let mut i: usize = 0;
        proof {
            assert(self@.skip(0) =~= self@);
            assert(out@.map_values(|p: PatchRecord| p@) + sub_spec(self@.skip(0), other@)
                =~= sub_spec(self@, other@));
        }
        while i < self.patches.len()
            invariant
                i <= self@.len(),
                self@.len() == self.patches.len(),
                out@.map_values(|p: PatchRecord| p@) + sub_spec(self@.skip(i as int), other@)
                    == sub_spec(self@, other@),
            decreases self.patches.len() - i,
        {
            let ghost prev = out@.map_values(|p: PatchRecord| p@);
            proof {
                lemma_skip_head(self@, i as int);
            }
            if !other.contains_id(&self.patches[i].identity) {
                out.push(clone_record(&self.patches[i]));
                proof {
                    assert(out@.map_values(|p: PatchRecord| p@) =~= prev.push(self@[i as int]));
                    assert(prev.push(self@[i as int]) + sub_spec(self@.skip(i as int + 1), other@)
                        =~= prev + sub_spec(self@.skip(i as int), other@));
                }
            }
            i = i + 1;
        }
        proof {
            assert(self@.skip(i as int).len() == 0);
            assert(out@.map_values(|p: PatchRecord| p@) =~= sub_spec(self@, other@));
        }
        let r = PatchCollection { patches: out };
        proof {
            assert(r@ =~= sub_spec(self@, other@));
        }
        r
    }

    /// Records of `self` eligible at toolchain version `v`.
    pub fn filter_eligible(&self, v: u64) -> (r: PatchCollection)
        ensures
            r@ == filt_spec(self@, v),
    {
        let mut out: Vec<PatchRecord> = Vec::new();
        let mut i: usize = 0;
        proof {
            assert(self@.skip(0) =~= self@);
            assert(out@.map_values(|p: PatchRecord| p@) + filt_spec(self@.skip(0), v)
                =~= filt_spec(self@, v));
        }
        while i < self.patches.len()
            invariant
                i <= self@.len(),
                self@.len() == self.patches.len(),
                out@.map_values(|p: PatchRecord| p@) + filt_spec(self@.skip(i as int), v)
                    == filt_spec(self@, v),
            decreases self.patches.len() - i,
        {
            let ghost prev = out@.map_values(|p: PatchRecord| p@);
            proof {
                lemma_skip_head(self@, i as int);
            }
            if eligible(&self.patches[i], v) {
                out.push(clone_record(&self.patches[i]));
                proof {
                    assert(out@.map_values(|p: PatchRecord| p@) =~= prev.push(self@[i as int]));
                    assert(prev.push(self@[i as int]) + filt_spec(self@.skip(i as int + 1), v)
                        =~= prev + filt_spec(self@.skip(i as int), v));
                }
            }
            i = i + 1;
        }
        proof {
            assert(self@.skip(i as int).len() == 0);
            assert(out@.map_values(|p: PatchRecord| p@) =~= filt_spec(self@, v));
        }
        let r = PatchCollection { patches: out };
        proof {
            assert(r@ =~= filt_spec(self@, v));
        }
        r
    }

    /// The merged view for one platform: keep the records merged on `tag`,
    /// and narrow each kept record's platform set to exactly `tag`.
    pub fn narrow_to_platform(&self, tag: &Vec<u8>) -> (r: PatchCollection)
        ensures
            r@ == narrow_spec(self@, tag@),
    {
        let mut out: Vec<PatchRecord> = Vec::new();
        let mut i: usize = 0;
        proof {
            assert(self@.skip(0) =~= self@);
            assert(out@.map_values(|p: PatchRecord| p@) + narrow_spec(self@.skip(0), tag@)
                =~= narrow_spec(self@, tag@));
        }
        while i < self.patches.len()
            invariant
                i <= self@.len(),
                self@.len() == self.patches.len(),
                out@.map_values(|p: PatchRecord| p@) + narrow_spec(self@.skip(i as int), tag@)
                    == narrow_spec(self@, tag@),
            decreases self.patches.len() - i,
        {
            let ghost prev = out@.map_values(|p: PatchRecord| p@);
            proof {
                lemma_skip_head(self@, i as int);
            }
            if list_contains(&self.patches[i].platforms, tag) {
                let mut plats: Vec<Vec<u8>> = Vec::new();
                plats.push(clone_bytes(tag));
                let rec = PatchRecord {
                    identity: clone_bytes(&self.patches[i].identity),
                    platforms: plats,
                    start_version: self.patches[i].start_version,
                    end_version: self.patches[i].end_version,
                    metadata: clone_meta_list(&self.patches[i].metadata),
                };
                proof {
                    crate::record::lemma_bytes_deep_view(rec.platforms@[0]);
                    assert(rec.platforms.deep_view() =~= seq![tag@]);
                    assert(rec@ =~= (RecordView { platforms: seq![tag@], ..self@[i as int] }));
                }
                out.push(rec);
                proof {
                    assert(out@.map_values(|p: PatchRecord| p@) =~= prev.push(
                        RecordView { platforms: seq![tag@], ..self@[i as int] },
                    ));
                    assert(prev.push(RecordView { platforms: seq![tag@], ..self@[i as int] })
                        + narrow_spec(self@.skip(i as int + 1), tag@) =~= prev + narrow_spec(
                        self@.skip(i as int),
                        tag@,
                    ));
                }
            }
            i = i + 1;
        }
        proof {
            assert(self@.skip(i as int).len() == 0);
            assert(out@.map_values(|p: PatchRecord| p@) =~= narrow_spec(self@, tag@));
        }
        let r = PatchCollection { patches: out };
        proof {
            assert(r@ =~= narrow_spec(self@, tag@));
        }
        r
    }
}

/// Order-preserving union of two platform lists.
pub fn merge_plats(a: &Vec<Vec<u8>>, b: &Vec<Vec<u8>>) -> (r: Vec<Vec<u8>>)
    ensures
        r.deep_view() == plat_merge(a.deep_view(), b.deep_view()),
{
    let mut r = clone_byte_list(a);
    let mut i: usize = 0;
    proof {
        assert(b.deep_view().len() == b@.len());
        assert(b.deep_view().skip(0) =~= b.deep_view());
        assert(r.deep_view() + plat_extra(a.deep_view(), b.deep_view().skip(0)) =~= plat_merge(
            a.deep_view(),
            b.deep_view(),
        ));
    }
    while i < b.len()
        invariant
            i <= b.len(),
            b.deep_view().len() == b@.len(),
            r.deep_view() + plat_extra(a.deep_view(), b.deep_view().skip(i as int)) == plat_merge(
                a.deep_view(),
                b.deep_view(),
            ),
        decreases b.len() - i,
    {
        let ghost prev = r.deep_view();
        proof {
            lemma_skip_head(b.deep_view(), i as int);
            crate::record::lemma_bytes_deep_view(b@[i as int]);
        }
        if !list_contains(a, &b[i]) {
            let c = clone_bytes(&b[i]);
            proof {
                crate::record::lemma_bytes_deep_view(c);
            }
            r.push(c);
            proof {
                assert(r.deep_view() =~= prev.push(b.deep_view()[i as int]));
                assert(prev.push(b.deep_view()[i as int]) + plat_extra(
                    a.deep_view(),
                    b.deep_view().skip(i as int + 1),
                ) =~= prev + plat_extra(a.deep_view(), b.deep_view().skip(i as int)));
            }
        }
        i = i + 1;
    }
    proof {
        assert(b.deep_view().skip(i as int).len() == 0);
        assert(r.deep_view() =~= plat_merge(a.deep_view(), b.deep_view()));
    }
    r
}

impl PatchCollection {
    /// Union of two collections: records present in either; for a shared
    /// identity the platform sets are united and every other field is taken
    /// from `self`; `other`'s new records follow in their order.
    pub fn union(&self, other: &PatchCollection) -> (r: PatchCollection)
        ensures
            r@ == union_spec(self@, other@),
    {
        let mut out: Vec<PatchRecord> = Vec::new();
        let mut i: usize = 0;
        proof {
            assert(self@.skip(0) =~= self@);
            assert(out@.map_values(|p: PatchRecord| p@) + merged_part(self@.skip(0), other@)
                =~= merged_part(self@, other@));
        }
        while i < self.patches.len()
            invariant
                i <= self@.len(),
                self@.len() == self.patches.len(),
                other@.len() == other.patches.len(),
                out@.map_values(|p: PatchRecord| p@) + merged_part(self@.skip(i as int), other@)
                    == merged_part(self@, other@),
            decreases self.patches.len() - i,
        {
            let ghost prev = out@.map_values(|p: PatchRecord| p@);
            proof {
                lemma_skip_head(self@, i as int);
            }
            match other.find_by_id(&self.patches[i].identity) {
                Some(j) => {
                    let rec = PatchRecord {
                        identity: clone_bytes(&self.patches[i].identity),
                        platforms: merge_plats(
                            &self.patches[i].platforms,
                            &other.patches[j].platforms,
                        ),
                        start_version: self.patches[i].start_version,
                        end_version: self.patches[i].end_version,
                        metadata: clone_meta_list(&self.patches[i].metadata),
                    };
                    proof {
                        assert(rec@ =~= merge_rec(self@[i as int], other@[j as int]));
                    }
                    out.push(rec);
                    proof {
                        assert(out@.map_values(|p: PatchRecord| p@) =~= prev.push(
                            merge_rec(self@[i as int], other@[j as int]),
                        ));
                        assert(prev.push(merge_rec(self@[i as int], other@[j as int]))
                            + merged_part(self@.skip(i as int + 1), other@) =~= prev
                            + merged_part(self@.skip(i as int), other@));
                    }
                },
                None => {
                    out.push(clone_record(&self.patches[i]));
                    proof {
                        assert(out@.map_values(|p: PatchRecord| p@) =~= prev.push(
                            self@[i as int],
                        ));
                        assert(prev.push(self@[i as int]) + merged_part(
                            self@.skip(i as int + 1),
                            other@,
                        ) =~= prev + merged_part(self@.skip(i as int), other@));
                    }
                },
            }
            i = i + 1;
        }
        proof {
            assert(self@.skip(i as int).len() == 0);
            assert(out@.map_values(|p: PatchRecord| p@) =~= merged_part(self@, other@));
        }
        let mut k: usize = 0;
        proof {
            assert(other@.skip(0) =~= other@);
            assert(out@.map_values(|p: PatchRecord| p@) + sub_spec(other@.skip(0), self@)
                =~= merged_part(self@, other@) + sub_spec(other@, self@));
        }
        while k < other.patches.len()
            invariant
                k <= other@.len(),
                other@.len() == other.patches.len(),
                out@.map_values(|p: PatchRecord| p@) + sub_spec(other@.skip(k as int), self@)
                    == merged_part(self@, other@) + sub_spec(other@, self@),
            decreases other.patches.len() - k,
        {
            let ghost prev = out@.map_values(|p: PatchRecord| p@);
            proof {
                lemma_skip_head(other@, k as int);
            }
            if !self.contains_id(&other.patches[k].identity) {
                out.push(clone_record(&other.patches[k]));
                proof {
                    assert(out@.map_values(|p: PatchRecord| p@) =~= prev.push(other@[k as int]));
                    assert(prev.push(other@[k as int]) + sub_spec(other@.skip(k as int + 1), self@)
                        =~= prev + sub_spec(other@.skip(k as int), self@));
                }
            }
            k = k + 1;
        }
        proof {
            assert(other@.skip(k as int).len() == 0);
            assert(out@.map_values(|p: PatchRecord| p@) =~= union_spec(self@, other@));
        }
        let r = PatchCollection { patches: out };
        proof {
            assert(r@ =~= union_spec(self@, other@));
        }
        r
    }

    /// Transposes `self` (a set of new records) onto a destination
    /// collection: fails with a path collision when any new record's identity
    /// already exists at the destination, otherwise appends each new record
    /// at the end, retagged with the originating platform `tag`.
    pub fn transpose_onto(&self, tag: &Vec<u8>, dest: &PatchCollection) -> (r: Result<
        PatchCollection,
        SyncError,
    >)
        ensures
            match r {
                Ok(c) => {
                    &&& forall|i: int|
                        0 <= i < self@.len() ==> !has_id(dest@, (#[trigger] self@[i]).identity)
                    &&& c@ == transpose_spec(dest@, self@, tag@)
                },
                Err(e) => {
                    &&& e == SyncError::PathCollisionError
                    &&& exists|i: int|
                        0 <= i < self@.len() && has_id(dest@, (#[trigger] self@[i]).identity)
                },
            },
    {
        let mut i: usize = 0;
        while i < self.patches.len()
            invariant
                i <= self@.len(),
                self@.len() == self.patches.len(),
                forall|j: int| 0 <= j < i ==> !has_id(dest@, (#[trigger] self@[j]).identity),
            decreases self.patches.len() - i,
        {
            if dest.contains_id(&self.patches[i].identity) {
                proof {
                    assert(has_id(dest@, self@[i as int].identity));
                }
                return Err(SyncError::PathCollisionError);
            }
            i = i + 1;
        }
        let mut out: Vec<PatchRecord> = Vec::new();
        let mut d: usize = 0;
        while d < dest.patches.len()
            invariant
                d <= dest@.len(),
                dest@.len() == dest.patches.len(),
                out@.map_values(|p: PatchRecord| p@) == dest@.take(d as int),
            decreases dest.patches.len() - d,
        {
            let ghost prev = out@.map_values(|p: PatchRecord| p@);
            out.push(clone_record(&dest.patches[d]));
            d = d + 1;
            proof {
                assert(out@.map_values(|p: PatchRecord| p@) =~= prev.push(dest@[d as int - 1]));
                assert(prev.push(dest@[d as int - 1]) =~= dest@.take(d as int));
            }
        }
        proof {
            assert(dest@.take(d as int) =~= dest@);
        }
        let mut k: usize = 0;
        proof {
            assert(self@.skip(0) =~= self@);
            assert(out@.map_values(|p: PatchRecord| p@) + retag_all(self@.skip(0), tag@) =~= dest@
                + retag_all(self@, tag@));
        }
        while k < self.patches.len()
            invariant
                k <= self@.len(),
                self@.len() == self.patches.len(),
                out@.map_values(|p: PatchRecord| p@) + retag_all(self@.skip(k as int), tag@)
                    == dest@ + retag_all(self@, tag@),
            decreases self.patches.len() - k,
        {
            let ghost prev = out@.map_values(|p: PatchRecord| p@);
            proof {
                lemma_skip_head(self@, k as int);
            }
            let mut plats: Vec<Vec<u8>> = Vec::new();
            plats.push(clone_bytes(tag));
            let rec = PatchRecord {
                identity: clone_bytes(&self.patches[k].identity),
                platforms: plats,
                start_version: self.patches[k].start_version,
                end_version: self.patches[k].end_version,
                metadata: clone_meta_list(&self.patches[k].metadata),
            };
            proof {
                crate::record::lemma_bytes_deep_view(rec.platforms@[0]);
                assert(rec.platforms.deep_view() =~= seq![tag@]);
                assert(rec@ =~= (RecordView { platforms: seq![tag@], ..self@[k as int] }));
            }
            out.push(rec);
            k = k + 1;
            proof {
                assert(out@.map_values(|p: PatchRecord| p@) =~= prev.push(
                    RecordView { platforms: seq![tag@], ..self@[k as int - 1] },
                ));
                assert(prev.push(RecordView { platforms: seq![tag@], ..self@[k as int - 1] })
                    + retag_all(self@.skip(k as int), tag@) =~= prev + retag_all(
                    self@.skip(k as int - 1),
                    tag@,
                ));
            }
        }
        proof {
            assert(self@.skip(k as int).len() == 0);
            assert(out@.map_values(|p: PatchRecord| p@) =~= transpose_spec(dest@, self@, tag@));
        }
        let r = PatchCollection { patches: out };
        proof {
            assert(r@ =~= transpose_spec(dest@, self@, tag@));
        }
        Ok(r)
    }
}

/// Subtracting a collection in which every identity of `a` occurs leaves
/// nothing.
pub proof fn lemma_sub_all_present(a: Seq<RecordView>, b: Seq<RecordView>)
    requires
        forall|i: int| 0 <= i < a.len() ==> has_id(b, (#[trigger] a[i]).identity),
    ensures
        sub_spec(a, b).len() == 0,
    decreases a.len(),
{
    if a.len() > 0 {
        assert(a[0] == a[0]);
        lemma_sub_all_present(a.drop_first(), b);
    }
}

/// A record is its own witness: its identity occurs in any sequence holding it.
pub proof fn lemma_has_own_id(c: Seq<RecordView>, i: int)
    requires
        0 <= i < c.len(),
    ensures
        has_id(c, c[i].identity),
    decreases i,
{
    if c[0].identity == c[i].identity {
    } else {
        lemma_has_own_id(c.drop_first(), i - 1);
    }
}

/// Subtracting a collection from itself leaves nothing: every record's
/// identity is present on the right side.
pub proof fn lemma_subtract_self(a: Seq<RecordView>)
    ensures
        sub_spec(a, a).len() == 0,
{
    assert forall|i: int| 0 <= i < a.len() implies has_id(a, (#[trigger] a[i]).identity) by {
        lemma_has_own_id(a, i);
    }
    lemma_sub_all_present(a, a);
}

/// Subtracting the empty collection changes nothing.
pub proof fn lemma_subtract_empty(a: Seq<RecordView>)
    ensures
        sub_spec(a, Seq::<RecordView>::empty()) == a,
    decreases a.len(),
{
    if a.len() > 0 {
        lemma_subtract_empty(a.drop_first());
        assert(sub_spec(a, Seq::<RecordView>::empty()) =~= a);
    } else {
        assert(sub_spec(a, Seq::<RecordView>::empty()) =~= a);
    }
}

/// Every record of a subtraction comes from the left side and has an identity
/// absent from the right side.
pub proof fn lemma_sub_ids(a: Seq<RecordView>, b: Seq<RecordView>)
    ensures
        forall|k: int|
            0 <= k < sub_spec(a, b).len() ==> !has_id(b, (#[trigger] sub_spec(a, b)[k]).identity),
        forall|k: int|
            0 <= k < sub_spec(a, b).len() ==> exists|i: int|
                0 <= i < a.len() && (#[trigger] a[i]) == (#[trigger] sub_spec(a, b)[k]),
    decreases a.len(),
{
    if a.len() > 0 {
        lemma_sub_ids(a.drop_first(), b);
        assert forall|k: int| 0 <= k < sub_spec(a, b).len() implies !has_id(
            b,
            (#[trigger] sub_spec(a, b)[k]).identity,
        ) && exists|i: int| 0 <= i < a.len() && (#[trigger] a[i]) == sub_spec(a, b)[k] by {
            if has_id(b, a[0].identity) {
                let s = sub_spec(a.drop_first(), b);
                assert(sub_spec(a, b)[k] == s[k]);
                let i0 = choose|i: int| 0 <= i < a.drop_first().len() && a.drop_first()[i] == s[k];
                assert(a[i0 + 1] == sub_spec(a, b)[k]);
            } else {
                if k == 0 {
                    assert(a[0] == sub_spec(a, b)[0]);
                } else {
                    let s = sub_spec(a.drop_first(), b);
                    assert(sub_spec(a, b)[k] == s[k - 1]);
                    let i0 = choose|i: int|
                        0 <= i < a.drop_first().len() && a.drop_first()[i] == s[k - 1];
                    assert(a[i0 + 1] == sub_spec(a, b)[k]);
                }
            }
        }
    }
}

/// Every record of a filtered collection comes from the input.
pub proof fn lemma_filt_elems(c: Seq<RecordView>, v: u64)
    ensures
        forall|k: int|
            0 <= k < filt_spec(c, v).len() ==> exists|i: int|
                0 <= i < c.len() && (#[trigger] c[i]) == (#[trigger] filt_spec(c, v)[k]),
    decreases c.len(),
{
    if c.len() > 0 {
        lemma_filt_elems(c.drop_first(), v);
        assert forall|k: int| #![trigger filt_spec(c, v)[k]] 0 <= k < filt_spec(c, v).len()
            implies exists|i: int| 0 <= i < c.len() && (#[trigger] c[i]) == filt_spec(c, v)[k] by {
            let s = filt_spec(c.drop_first(), v);
            if eligible_spec(c[0], v) {
                if k == 0 {
                    assert(c[0] == filt_spec(c, v)[0]);
                } else {
                    assert(filt_spec(c, v)[k] == s[k - 1]);
                    let i0 = choose|i: int|
                        0 <= i < c.drop_first().len() && c.drop_first()[i] == s[k - 1];
                    assert(c[i0 + 1] == filt_spec(c, v)[k]);
                }
            } else {
                assert(filt_spec(c, v)[k] == s[k]);
                let i0 = choose|i: int|
                    0 <= i < c.drop_first().len() && c.drop_first()[i] == s[k];
                assert(c[i0 + 1] == filt_spec(c, v)[k]);
            }
        }
    }
}

/// A first match in a concatenation: the left side is searched first.
pub proof fn lemma_lookup_concat(x: Seq<RecordView>, y: Seq<RecordView>, id: Seq<u8>)
    ensures
        lookup(x + y, id) == match lookup(x, id) {
            Some(r) => Some(r),
            None => lookup(y, id),
        },
    decreases x.len(),
{
    if x.len() == 0 {
        assert(x + y =~= y);
    } else {
        assert((x + y)[0] == x[0]);
        if x[0].identity == id {
        } else {
            assert((x + y).drop_first() =~= x.drop_first() + y);
            lemma_lookup_concat(x.drop_first(), y, id);
        }
    }
}

/// Looking an identity up in the merged part: the left record, its platforms
/// united with the right side's when the identity is shared.
pub proof fn lemma_merged_lookup(a: Seq<RecordView>, b: Seq<RecordView>, id: Seq<u8>)
    ensures
        lookup(merged_part(a, b), id) == match lookup(a, id) {
            Some(r) => Some(
                match lookup(b, id) {
                    Some(o) => merge_rec(r, o),
                    None => r,
                },
            ),
            None => None::<RecordView>,
        },
    decreases a.len(),
{
    if a.len() > 0 {
        let h = match lookup(b, a[0].identity) {
            Some(o) => merge_rec(a[0], o),
            None => a[0],
        };
        assert(merged_part(a, b) == seq![h] + merged_part(a.drop_first(), b));
        assert(merged_part(a, b)[0] == h);
        assert(h.identity == a[0].identity);
        if a[0].identity == id {
        } else {
            assert(merged_part(a, b).drop_first() =~= merged_part(a.drop_first(), b));
            lemma_merged_lookup(a.drop_first(), b, id);
        }
    }
}

/// Looking an identity up in a subtraction: found exactly when it is in `b`
/// and not in `a`, and then it is `b`'s record.
pub proof fn lemma_sub_lookup(b: Seq<RecordView>, a: Seq<RecordView>, id: Seq<u8>)
    ensures
        lookup(sub_spec(b, a), id) == if has_id(a, id) {
            None::<RecordView>
        } else {
            lookup(b, id)
        },
    decreases b.len(),
{
    if b.len() > 0 {
        lemma_sub_lookup(b.drop_first(), a, id);
        if has_id(a, b[0].identity) {
            if b[0].identity == id {
            }
        } else {
            assert(sub_spec(b, a) == seq![b[0]] + sub_spec(b.drop_first(), a));
            assert(sub_spec(b, a)[0] == b[0]);
            if b[0].identity == id {
            } else {
                assert(sub_spec(b, a).drop_first() =~= sub_spec(b.drop_first(), a));
            }
        }
    }
}

/// Looking an identity up in a union: `a`'s record with united platforms for
/// a shared identity, otherwise whichever side has it.
pub proof fn lemma_union_lookup(a: Seq<RecordView>, b: Seq<RecordView>, id: Seq<u8>)
    ensures
        lookup(union_spec(a, b), id) == match (lookup(a, id), lookup(b, id)) {
            (Some(r), Some(o)) => Some(merge_rec(r, o)),
            (Some(r), None) => Some(r),
            (None, o) => o,
        },
{
    lemma_lookup_concat(merged_part(a, b), sub_spec(b, a), id);
    lemma_merged_lookup(a, b, id);
    lemma_sub_lookup(b, a, id);
}

/// The set of identities of a collection.
pub open spec fn id_set(c: Seq<RecordView>) -> Set<Seq<u8>> {
    Set::new(|id: Seq<u8>| has_id(c, id))
}

/// The platform tags of the record with identity `id`, as a set; empty when
/// the identity is absent.
pub open spec fn plat_set_of(c: Seq<RecordView>, id: Seq<u8>) -> Set<Seq<u8>> {
    match lookup(c, id) {
        Some(r) => Set::new(|p: Seq<u8>| contains_str(r.platforms, p)),
        None => Set::empty(),
    }
}

/// Membership in a concatenation of string lists.
pub proof fn lemma_contains_concat(x: Seq<Seq<u8>>, y: Seq<Seq<u8>>, p: Seq<u8>)
    ensures
        contains_str(x + y, p) == (contains_str(x, p) || contains_str(y, p)),
{
    if contains_str(x, p) {
        let i = choose|i: int| 0 <= i < x.len() && x[i] == p;
        assert((x + y)[i] == p);
    } else if contains_str(y, p) {
        let i = choose|i: int| 0 <= i < y.len() && y[i] == p;
        assert((x + y)[x.len() + i] == p);
    } else {
        assert forall|i: int| 0 <= i < (x + y).len() implies (x + y)[i] != p by {
            if i < x.len() {
                assert((x + y)[i] == x[i]);
            } else {
                assert((x + y)[i] == y[i - x.len()]);
            }
        }
    }
}

/// Membership in the deduplicated remainder of a platform union.
pub proof fn lemma_plat_extra_mem(a: Seq<Seq<u8>>, b: Seq<Seq<u8>>, p: Seq<u8>)
    ensures
        contains_str(plat_extra(a, b), p) == (contains_str(b, p) && !contains_str(a, p)),
    decreases b.len(),
{
    if b.len() == 0 {
        assert(!contains_str(b, p));
    } else {
        lemma_plat_extra_mem(a, b.drop_first(), p);
        assert(contains_str(b, p) == (b[0] == p || contains_str(b.drop_first(), p))) by {
            if contains_str(b, p) {
                let i = choose|i: int| 0 <= i < b.len() && b[i] == p;
                if i > 0 {
                    assert(b.drop_first()[i - 1] == p);
                }
            } else {
                if contains_str(b.drop_first(), p) {
                    let i = choose|i: int| 0 <= i < b.drop_first().len() && b.drop_first()[i] == p;
                    assert(b[i + 1] == p);
                }
            }
        }
        if contains_str(a, b[0]) {
        } else {
            assert(plat_extra(a, b) == seq![b[0]] + plat_extra(a, b.drop_first()));
            lemma_contains_concat(seq![b[0]], plat_extra(a, b.drop_first()), p);
            assert(contains_str(seq![b[0]], p) == (b[0] == p)) by {
                if b[0] == p {
                    assert(seq![b[0]][0] == p);
                }
            }
        }
    }
}

/// The platform set of a merged platform list is the union of both sets.
pub proof fn lemma_plat_merge_set(x: Seq<Seq<u8>>, y: Seq<Seq<u8>>)
    ensures
        Set::new(|p: Seq<u8>| contains_str(plat_merge(x, y), p)) == Set::new(
            |p: Seq<u8>| contains_str(x, p),
        ).union(Set::new(|p: Seq<u8>| contains_str(y, p))),
{
    assert forall|p: Seq<u8>|
        contains_str(plat_merge(x, y), p) == (contains_str(x, p) || contains_str(y, p)) by {
        lemma_contains_concat(x, plat_extra(x, y), p);
        lemma_plat_extra_mem(x, y, p);
    }
    assert(Set::new(|p: Seq<u8>| contains_str(plat_merge(x, y), p)) =~= Set::new(
        |p: Seq<u8>| contains_str(x, p),
    ).union(Set::new(|p: Seq<u8>| contains_str(y, p))));
}

/// A found record is an element of the collection.
pub proof fn lemma_lookup_elem(c: Seq<RecordView>, id: Seq<u8>)
    requires
        lookup(c, id) is Some,
    ensures
        exists|i: int| 0 <= i < c.len() && (#[trigger] c[i]) == lookup(c, id).unwrap(),
    decreases c.len(),
{
    if c[0].identity == id {
        assert(c[0] == lookup(c, id).unwrap());
    } else {
        lemma_lookup_elem(c.drop_first(), id);
        let i0 = choose|i: int|
            0 <= i < c.drop_first().len() && (#[trigger] c.drop_first()[i]) == lookup(
                c.drop_first(),
                id,
            ).unwrap();
        assert(c[i0 + 1] == lookup(c, id).unwrap());
    }
}

/// Subtraction keeps well-formedness: the result's records come from the left
/// side and identities stay unique.
pub proof fn lemma_sub_wf(a: Seq<RecordView>, b: Seq<RecordView>)
    requires
        coll_wf(a),
    ensures
        coll_wf(sub_spec(a, b)),
    decreases a.len(),
{
    if a.len() > 0 {
        let a1 = a.drop_first();
        assert(coll_wf(a1)) by {
            assert(forall|i: int| 0 <= i < a1.len() ==> #[trigger] a1[i] == a[i + 1]);
        }
        lemma_sub_wf(a1, b);
        lemma_sub_ids(a1, b);
        if !has_id(b, a[0].identity) {
            let s = sub_spec(a1, b);
            assert forall|i: int, j: int| 0 <= i < j < sub_spec(a, b).len() implies sub_spec(
                a,
                b,
            )[i].identity != sub_spec(a, b)[j].identity by {
                if i == 0 {
                    assert(sub_spec(a, b)[j] == s[j - 1]);
                    let i0 = choose|t: int| 0 <= t < a1.len() && (#[trigger] a1[t]) == s[j - 1];
                    assert(a[i0 + 1] == s[j - 1]);
                    assert(a[0].identity != a[i0 + 1].identity);
                } else {
                    assert(sub_spec(a, b)[i] == s[i - 1]);
                    assert(sub_spec(a, b)[j] == s[j - 1]);
                }
            }
            assert forall|i: int| 0 <= i < sub_spec(a, b).len() implies record_wf(
                #[trigger] sub_spec(a, b)[i],
            ) by {
                if i > 0 {
                    assert(sub_spec(a, b)[i] == s[i - 1]);
                }
            }
        }
    }
}

/// The version filter keeps well-formedness: the kept records come from the
/// input and identities stay unique.
pub proof fn lemma_filt_wf(c: Seq<RecordView>, v: u64)
    requires
        coll_wf(c),
    ensures
        coll_wf(filt_spec(c, v)),
    decreases c.len(),
{
    if c.len() > 0 {
        let c1 = c.drop_first();
        assert(coll_wf(c1)) by {
            assert(forall|i: int| 0 <= i < c1.len() ==> #[trigger] c1[i] == c[i + 1]);
        }
        lemma_filt_wf(c1, v);
        lemma_filt_elems(c1, v);
        if eligible_spec(c[0], v) {
            let s = filt_spec(c1, v);
            assert forall|i: int, j: int| 0 <= i < j < filt_spec(c, v).len() implies filt_spec(
                c,
                v,
            )[i].identity != filt_spec(c, v)[j].identity by {
                if i == 0 {
                    assert(filt_spec(c, v)[j] == s[j - 1]);
                    let i0 = choose|t: int| 0 <= t < c1.len() && (#[trigger] c1[t]) == s[j - 1];
                    assert(c[i0 + 1] == s[j - 1]);
                    assert(c[0].identity != c[i0 + 1].identity);
                } else {
                    assert(filt_spec(c, v)[i] == s[i - 1]);
                    assert(filt_spec(c, v)[j] == s[j - 1]);
                }
            }
            assert forall|i: int| 0 <= i < filt_spec(c, v).len() implies record_wf(
                #[trigger] filt_spec(c, v)[i],
            ) by {
                if i > 0 {
                    assert(filt_spec(c, v)[i] == s[i - 1]);
                }
            }
        }
    }
}

/// Every record of a narrowed view is a record of the input with its
/// platform set replaced by the tag.
pub proof fn lemma_narrow_elems(c: Seq<RecordView>, tag: Seq<u8>)
    ensures
        forall|k: int|
            0 <= k < narrow_spec(c, tag).len() ==> exists|i: int|
                0 <= i < c.len() && (RecordView { platforms: seq![tag], ..#[trigger] c[i] })
                    == (#[trigger] narrow_spec(c, tag)[k]),
    decreases c.len(),
{
    if c.len() > 0 {
        lemma_narrow_elems(c.drop_first(), tag);
        assert forall|k: int|
            #![trigger narrow_spec(c, tag)[k]]
            0 <= k < narrow_spec(c, tag).len() implies exists|i: int|
            0 <= i < c.len() && (RecordView { platforms: seq![tag], ..#[trigger] c[i] })
                == narrow_spec(c, tag)[k] by {
            let s = narrow_spec(c.drop_first(), tag);
            if contains_str(c[0].platforms, tag) {
                if k == 0 {
                    assert((RecordView { platforms: seq![tag], ..c[0] }) == narrow_spec(c, tag)[0]);
                } else {
                    assert(narrow_spec(c, tag)[k] == s[k - 1]);
                    let i0 = choose|i: int|
                        0 <= i < c.drop_first().len() && (RecordView {
                            platforms: seq![tag],
                            ..#[trigger] c.drop_first()[i]
                        }) == s[k - 1];
                    assert((RecordView { platforms: seq![tag], ..c[i0 + 1] }) == narrow_spec(
                        c,
                        tag,
                    )[k]);
                }
            } else {
                assert(narrow_spec(c, tag)[k] == s[k]);
                let i0 = choose|i: int|
                    0 <= i < c.drop_first().len() && (RecordView {
                        platforms: seq![tag],
                        ..#[trigger] c.drop_first()[i]
                    }) == s[k];
                assert((RecordView { platforms: seq![tag], ..c[i0 + 1] }) == narrow_spec(
                    c,
                    tag,
                )[k]);
            }
        }
    }
}

/// Platform narrowing keeps well-formedness when the tag is quote-free.
pub proof fn lemma_narrow_wf(c: Seq<RecordView>, tag: Seq<u8>)
    requires
        coll_wf(c),
        str_ok(tag),
    ensures
        coll_wf(narrow_spec(c, tag)),
    decreases c.len(),
{
    if c.len() > 0 {
        let c1 = c.drop_first();
        assert(coll_wf(c1)) by {
            assert(forall|i: int| 0 <= i < c1.len() ==> #[trigger] c1[i] == c[i + 1]);
        }
        lemma_narrow_wf(c1, tag);
        lemma_narrow_elems(c1, tag);
        if contains_str(c[0].platforms, tag) {
            let s = narrow_spec(c1, tag);
            let h = RecordView { platforms: seq![tag], ..c[0] };
            assert(record_wf(h)) by {
                assert(h.platforms.len() == 1);
                assert(h.platforms[0] == tag);
            }
            assert forall|i: int, j: int| 0 <= i < j < narrow_spec(c, tag).len() implies
                narrow_spec(c, tag)[i].identity != narrow_spec(c, tag)[j].identity by {
                if i == 0 {
                    assert(narrow_spec(c, tag)[j] == s[j - 1]);
                    let i0 = choose|t: int|
                        0 <= t < c1.len() && (RecordView {
                            platforms: seq![tag],
                            ..#[trigger] c1[t]
                        }) == s[j - 1];
                    assert(c[0].identity != c[i0 + 1].identity);
                } else {
                    assert(narrow_spec(c, tag)[i] == s[i - 1]);
                    assert(narrow_spec(c, tag)[j] == s[j - 1]);
                }
            }
            assert forall|i: int| 0 <= i < narrow_spec(c, tag).len() implies record_wf(
                #[trigger] narrow_spec(c, tag)[i],
            ) by {
                if i > 0 {
                    assert(narrow_spec(c, tag)[i] == s[i - 1]);
                }
            }
        }
    }
}

/// The deduplicated remainder of a platform union: drawn from the right side,
/// absent from the left, and free of duplicates when the right side is.
pub proof fn lemma_plat_extra_nodup(x: Seq<Seq<u8>>, y: Seq<Seq<u8>>)
    requires
        forall|i: int, j: int| 0 <= i < j < y.len() ==> y[i] != y[j],
    ensures
        forall|k: int|
            0 <= k < plat_extra(x, y).len() ==> contains_str(y, #[trigger] plat_extra(x, y)[k])
                && !contains_str(x, plat_extra(x, y)[k]),
        forall|i: int, j: int|
            0 <= i < j < plat_extra(x, y).len() ==> plat_extra(x, y)[i] != plat_extra(x, y)[j],
    decreases y.len(),
{
    if y.len() > 0 {
        let y1 = y.drop_first();
        assert(forall|i: int| 0 <= i < y1.len() ==> #[trigger] y1[i] == y[i + 1]);
        lemma_plat_extra_nodup(x, y1);
        let e1 = plat_extra(x, y1);
        assert forall|k: int| 0 <= k < e1.len() implies contains_str(y, #[trigger] e1[k]) by {
            let w = choose|i: int| 0 <= i < y1.len() && y1[i] == e1[k];
            assert(y[w + 1] == e1[k]);
        }
        if !contains_str(x, y[0]) {
            let e = plat_extra(x, y);
            assert(e == seq![y[0]] + e1);
            assert forall|i: int, j: int| 0 <= i < j < e.len() implies e[i] != e[j] by {
                if i == 0 {
                    assert(e[j] == e1[j - 1]);
                    if y[0] == e1[j - 1] {
                        let w = choose|t: int| 0 <= t < y1.len() && y1[t] == e1[j - 1];
                        assert(y[w + 1] == y[0]);
                        assert(false);
                    }
                } else {
                    assert(e[i] == e1[i - 1]);
                    assert(e[j] == e1[j - 1]);
                }
            }
        }
    }
}

/// Merging a well-formed record with another well-formed record of the same
/// identity gives a well-formed record.
pub proof fn lemma_merge_rec_wf(r: RecordView, o: RecordView)
    requires
        record_wf(r),
        record_wf(o),
    ensures
        record_wf(merge_rec(r, o)),
{
    lemma_plat_extra_nodup(r.platforms, o.platforms);
    let e = plat_extra(r.platforms, o.platforms);
    let m = plat_merge(r.platforms, o.platforms);
    assert forall|i: int| 0 <= i < m.len() implies str_ok(#[trigger] m[i]) by {
        if i >= r.platforms.len() {
            assert(m[i] == e[i - r.platforms.len()]);
            let w = choose|t: int|
                0 <= t < o.platforms.len() && o.platforms[t] == e[i - r.platforms.len()];
        } else {
            assert(m[i] == r.platforms[i]);
        }
    }
    assert forall|i: int, j: int| 0 <= i < j < m.len() implies m[i] != m[j] by {
        if j < r.platforms.len() {
        } else if i < r.platforms.len() {
            assert(m[j] == e[j - r.platforms.len()]);
            assert(m[i] == r.platforms[i]);
            assert(!contains_str(r.platforms, e[j - r.platforms.len()]));
            if m[i] == m[j] {
                assert(contains_str(r.platforms, e[j - r.platforms.len()]));
                assert(false);
            }
        } else {
            assert(m[i] == e[i - r.platforms.len()]);
            assert(m[j] == e[j - r.platforms.len()]);
        }
    }
}

/// The merged part pointwise: the same length and identities as the left
/// side, each record merged with the right side's record of its identity.
pub proof fn lemma_merged_pointwise(a: Seq<RecordView>, b: Seq<RecordView>)
    ensures
        merged_part(a, b).len() == a.len(),
        forall|k: int|
            0 <= k < a.len() ==> #[trigger] merged_part(a, b)[k] == (match lookup(
                b,
                a[k].identity,
            ) {
                Some(o) => merge_rec(a[k], o),
                None => a[k],
            }),
    decreases a.len(),
{
    if a.len() > 0 {
        lemma_merged_pointwise(a.drop_first(), b);
        assert forall|k: int| 0 <= k < a.len() implies #[trigger] merged_part(a, b)[k] == (
        match lookup(b, a[k].identity) {
            Some(o) => merge_rec(a[k], o),
            None => a[k],
        }) by {
            if k > 0 {
                assert(merged_part(a, b)[k] == merged_part(a.drop_first(), b)[k - 1]);
                assert(a.drop_first()[k - 1] == a[k]);
            }
        }
    }
}

/// The union of two well-formed collections is well-formed.
pub proof fn lemma_union_wf(a: Seq<RecordView>, b: Seq<RecordView>)
    requires
        coll_wf(a),
        coll_wf(b),
    ensures
        coll_wf(union_spec(a, b)),
{
    lemma_merged_pointwise(a, b);
    lemma_sub_wf(b, a);
    lemma_sub_ids(b, a);
    let m = merged_part(a, b);
    let s = sub_spec(b, a);
    let u = union_spec(a, b);
    assert forall|i: int| 0 <= i < u.len() implies record_wf(#[trigger] u[i]) by {
        if i < m.len() {
            assert(u[i] == m[i]);
            match lookup(b, a[i].identity) {
                Some(o) => {
                    lemma_lookup_elem(b, a[i].identity);
                    let w = choose|t: int| 0 <= t < b.len() && (#[trigger] b[t]) == o;
                    lemma_merge_rec_wf(a[i], o);
                },
                None => {},
            }
        } else {
            assert(u[i] == s[i - m.len()]);
        }
    }
    assert forall|i: int, j: int| 0 <= i < j < u.len() implies u[i].identity != u[j].identity by {
        if j < m.len() {
            assert(u[i] == m[i] && u[j] == m[j]);
            assert(m[i].identity == a[i].identity);
            assert(m[j].identity == a[j].identity);
        } else if i < m.len() {
            assert(u[i] == m[i]);
            assert(u[j] == s[j - m.len()]);
            assert(m[i].identity == a[i].identity);
            lemma_has_own_id(a, i);
            assert(!has_id(a, s[j - m.len()].identity));
            if u[i].identity == u[j].identity {
                assert(false);
            }
        } else {
            assert(u[i] == s[i - m.len()]);
            assert(u[j] == s[j - m.len()]);
        }
    }
}

/// A transposition's staged result is well-formed: well-formed new records
/// with fresh identities, appended under a quote-free tag, keep every
/// invariant.
pub proof fn lemma_transpose_wf(dest: Seq<RecordView>, new: Seq<RecordView>, tag: Seq<u8>)
    requires
        coll_wf(dest),
        coll_wf(new),
        str_ok(tag),
        forall|i: int| 0 <= i < new.len() ==> !has_id(dest, (#[trigger] new[i]).identity),
    ensures
        coll_wf(transpose_spec(dest, new, tag)),
{
    lemma_retag_pointwise(new, tag);
    let r = retag_all(new, tag);
    let u = transpose_spec(dest, new, tag);
    assert forall|i: int| 0 <= i < u.len() implies record_wf(#[trigger] u[i]) by {
        if i < dest.len() {
            assert(u[i] == dest[i]);
        } else {
            assert(u[i] == r[i - dest.len()]);
            assert(record_wf(new[i - dest.len()]));
        }
    }
    assert forall|i: int, j: int| 0 <= i < j < u.len() implies u[i].identity != u[j].identity by {
        if j < dest.len() {
        } else if i < dest.len() {
            assert(u[i] == dest[i]);
            assert(u[j] == r[j - dest.len()]);
            assert(u[j].identity == new[j - dest.len()].identity);
            lemma_has_own_id(dest, i);
            if u[i].identity == u[j].identity {
                assert(has_id(dest, new[j - dest.len()].identity));
                assert(false);
            }
        } else {
            assert(u[i].identity == new[i - dest.len()].identity);
            assert(u[j].identity == new[j - dest.len()].identity);
        }
    }
}

/// Retagging pointwise: the same length and records, each with platform set
/// exactly the tag.
pub proof fn lemma_retag_pointwise(c: Seq<RecordView>, tag: Seq<u8>)
    ensures
        retag_all(c, tag).len() == c.len(),
        forall|k: int|
            0 <= k < c.len() ==> #[trigger] retag_all(c, tag)[k] == (RecordView {
                platforms: seq![tag],
                ..c[k]
            }),
    decreases c.len(),
{
    if c.len() > 0 {
        lemma_retag_pointwise(c.drop_first(), tag);
        assert forall|k: int| 0 <= k < c.len() implies #[trigger] retag_all(c, tag)[k] == (
        RecordView { platforms: seq![tag], ..c[k] }) by {
            if k > 0 {
                assert(retag_all(c, tag)[k] == retag_all(c.drop_first(), tag)[k - 1]);
                assert(c.drop_first()[k - 1] == c[k]);
            }
        }
    }
}

/// The union of two collections holds exactly the identities of either side,
/// in whichever order the union is taken; and for an identity shared by both
/// sides, its platform set in the union is the union of the two sides'
/// platform sets.
pub proof fn lemma_union_identities(a: Seq<RecordView>, b: Seq<RecordView>)
    ensures
        id_set(union_spec(a, b)) == id_set(a).union(id_set(b)),
        id_set(union_spec(b, a)) == id_set(union_spec(a, b)),
        forall|id: Seq<u8>|
            has_id(a, id) && has_id(b, id) ==> #[trigger] plat_set_of(union_spec(a, b), id)
                == plat_set_of(a, id).union(plat_set_of(b, id)),
{
    assert forall|id: Seq<u8>|
        #[trigger] has_id(union_spec(a, b), id) == (has_id(a, id) || has_id(b, id)) && has_id(
            union_spec(b, a),
            id,
        ) == (has_id(a, id) || has_id(b, id)) by {
        lemma_union_lookup(a, b, id);
        lemma_union_lookup(b, a, id);
    }
    assert(id_set(union_spec(a, b)) =~= id_set(a).union(id_set(b)));
    assert(id_set(union_spec(b, a)) =~= id_set(union_spec(a, b)));
    assert forall|id: Seq<u8>| has_id(a, id) && has_id(b, id) implies #[trigger] plat_set_of(
        union_spec(a, b),
        id,
    ) == plat_set_of(a, id).union(plat_set_of(b, id)) by {
        lemma_union_lookup(a, b, id);
        let r = lookup(a, id).unwrap();
        let o = lookup(b, id).unwrap();
        lemma_plat_merge_set(r.platforms, o.platforms);
    }
}

} // verus!
