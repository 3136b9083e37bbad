use vstd::prelude::*;

verus! {

/// One free-form metadata value attached to a patch record. The engine never
/// interprets these; every transformation carries them through unchanged.
pub enum MetaVal {
    Str(Vec<u8>),
    UInt(u64),
    Bool(bool),
    Null,
}

/// Mathematical model of a metadata value.
#[verifier::ext_equal]
pub enum MetaView {
    Str(Seq<u8>),
    UInt(u64),
    Bool(bool),
    Null,
}

impl View for MetaVal {
    type V = MetaView;

    open spec fn view(&self) -> MetaView {
        match self {
            MetaVal::Str(s) => MetaView::Str(s@),
            MetaVal::UInt(n) => MetaView::UInt(*n),
            MetaVal::Bool(b) => MetaView::Bool(*b),
            MetaVal::Null => MetaView::Null,
        }
    }
}

/// One entry of a patch manifest: a patch file (named by its checkout-relative
/// path), the platforms it is merged on, the half-open toolchain version
/// window `[start_version, end_version)` in which it applies, and an opaque
/// bag of further fields.
pub struct PatchRecord {
    pub identity: Vec<u8>,
    pub platforms: Vec<Vec<u8>>,
    pub start_version: Option<u64>,
    pub end_version: Option<u64>,
    pub metadata: Vec<(Vec<u8>, MetaVal)>,
}

/// Mathematical model of a patch record.
#[verifier::ext_equal]
pub struct RecordView {
    pub identity: Seq<u8>,
    pub platforms: Seq<Seq<u8>>,
    pub start_version: Option<u64>,
    pub end_version: Option<u64>,
    pub metadata: Seq<(Seq<u8>, MetaView)>,
}

/// The model of an executable metadata list.
pub open spec fn meta_list_view(m: Seq<(Vec<u8>, MetaVal)>) -> Seq<(Seq<u8>, MetaView)> {
    m.map_values(|kv: (Vec<u8>, MetaVal)| (kv.0@, kv.1@))
}

impl View for PatchRecord {
    type V = RecordView;

    open spec fn view(&self) -> RecordView {
        RecordView {
            identity: self.identity@,
            platforms: self.platforms.deep_view(),
            start_version: self.start_version,
            end_version: self.end_version,
            metadata: meta_list_view(self.metadata@),
        }
    }
}

/// Strings stored in a manifest may not contain a double quote, so that the
/// serialized form needs no escape sequences.
pub open spec fn str_ok(s: Seq<u8>) -> bool {
    forall|i: int| 0 <= i < s.len() ==> s[i] != 34u8
}

/// The manifest object key naming the patch file path.
pub open spec fn key_path() -> Seq<u8> {
    seq![112u8, 97u8, 116u8, 104u8]
}

/// The manifest object key naming the platform list.
pub open spec fn key_platforms() -> Seq<u8> {
    seq![112u8, 108u8, 97u8, 116u8, 102u8, 111u8, 114u8, 109u8, 115u8]
}

/// The manifest object key naming the inclusive lower version bound.
pub open spec fn key_from() -> Seq<u8> {
    seq![102u8, 114u8, 111u8, 109u8]
}

/// The manifest object key naming the exclusive upper version bound.
pub open spec fn key_until() -> Seq<u8> {
    seq![117u8, 110u8, 116u8, 105u8, 108u8]
}

/// Keys that name typed fields of a record; metadata may not reuse them.
pub open spec fn reserved_key(k: Seq<u8>) -> bool {
    k == key_path() || k == key_platforms() || k == key_from() || k == key_until()
}

pub open spec fn meta_view_ok(v: MetaView) -> bool {
    match v {
        MetaView::Str(s) => str_ok(s),
        _ => true,
    }
}

/// Well-formedness of one record: quote-free strings, a non-empty duplicate-free
/// platform set, an ordered version window, and metadata keys that do not
/// collide with the typed fields.
pub open spec fn record_wf(r: RecordView) -> bool {
    &&& str_ok(r.identity)
    &&& r.platforms.len() >= 1
    &&& forall|i: int| 0 <= i < r.platforms.len() ==> str_ok(#[trigger] r.platforms[i])
    &&& forall|i: int, j: int|
        0 <= i < j < r.platforms.len() ==> r.platforms[i] != r.platforms[j]
    &&& match (r.start_version, r.end_version) {
        (Some(s), Some(e)) => s < e,
        _ => true,
    }
    &&& forall|i: int|
        0 <= i < r.metadata.len() ==> {
            &&& str_ok((#[trigger] r.metadata[i]).0)
            &&& !reserved_key(r.metadata[i].0)
            &&& meta_view_ok(r.metadata[i].1)
        }
}

/// Version-eligibility: membership of `v` in the half-open window
/// `[start_version, end_version)`, where an absent bound does not constrain.
pub open spec fn eligible_spec(r: RecordView, v: u64) -> bool {
    match (r.start_version, r.end_version) {
        (Some(s), Some(e)) => s <= v < e,
        (Some(s), None) => s <= v,
        (None, Some(e)) => v < e,
        (None, None) => true,
    }
}

/// Decides whether a record applies at toolchain version `v`: both bounds
/// present means `start <= v < end`; a missing bound does not constrain.
pub fn eligible(r: &PatchRecord, v: u64) -> (b: bool)
    ensures
        b == eligible_spec(r@, v),
{
    match (r.start_version, r.end_version) {
        (Some(s), Some(e)) => s <= v && v < e,
        (Some(s), None) => s <= v,
        (None, Some(e)) => v < e,
        (None, None) => true,
    }
}

/// Byte-for-byte copy of a byte string.
pub fn clone_bytes(v: &Vec<u8>) -> (r: Vec<u8>)
    ensures
        r@ == v@,
{
    let mut r: Vec<u8> = Vec::new();
    let mut i: usize = 0;
    while i < v.len()
        invariant
            i <= v.len(),
            r@ == v@.take(i as int),
        decreases v.len() - i,
    {
        r.push(v[i]);
        i = i + 1;
        proof {
            assert(r@ =~= v@.take(i as int));
        }
    }
    proof {
        assert(r@ =~= v@);
    }
    r
}

/// The deep model of a byte string is its view.
pub proof fn lemma_bytes_deep_view(x: Vec<u8>)
    ensures
        x.deep_view() == x@,
{
    assert(x.deep_view() =~= x@);
}

/// Copy of a list of byte strings, preserving order and contents.
pub fn clone_byte_list(v: &Vec<Vec<u8>>) -> (r: Vec<Vec<u8>>)
    ensures
        r.deep_view() == v.deep_view(),
{
    let mut r: Vec<Vec<u8>> = Vec::new();
    let mut i: usize = 0;
    while i < v.len()
        invariant
            i <= v.len(),
            r.len() == i,
            r.deep_view() == v.deep_view().take(i as int),
        decreases v.len() - i,
    {
        let ghost prev = r.deep_view();
        let c = clone_bytes(&v[i]);
        proof {
            lemma_bytes_deep_view(c);
            lemma_bytes_deep_view(v@[i as int]);
        }
        r.push(c);
        i = i + 1;
        proof {
            assert forall|j: int| 0 <= j < i as int implies r.deep_view()[j]
                == v.deep_view()[j] by {
                if j < i as int - 1 {
                    assert(prev[j] == v.deep_view().take(i as int - 1)[j]);
                }
            }
            assert(r.deep_view() =~= v.deep_view().take(i as int));
        }
    }
    proof {
        assert(r.deep_view() =~= v.deep_view());
    }
    r
}

/// Copy of one metadata value.
pub fn clone_meta(m: &MetaVal) -> (r: MetaVal)
    ensures
        r@ == m@,
{
    match m {
        MetaVal::Str(s) => MetaVal::Str(clone_bytes(s)),
        MetaVal::UInt(n) => MetaVal::UInt(*n),
        MetaVal::Bool(b) => MetaVal::Bool(*b),
        MetaVal::Null => MetaVal::Null,
    }
}

/// Copy of a metadata list, preserving order, keys and values.
pub fn clone_meta_list(m: &Vec<(Vec<u8>, MetaVal)>) -> (r: Vec<(Vec<u8>, MetaVal)>)
    ensures
        meta_list_view(r@) == meta_list_view(m@),
{
    let mut r: Vec<(Vec<u8>, MetaVal)> = Vec::new();
    let mut i: usize = 0;
    while i < m.len()
        invariant
            i <= m.len(),
            r.len() == i,
            meta_list_view(r@) == meta_list_view(m@).take(i as int),
        decreases m.len() - i,
    {
        let ghost prev = meta_list_view(r@);
        let key = clone_bytes(&m[i].0);
        let val = clone_meta(&m[i].1);
        r.push((key, val));
        i = i + 1;
        proof {
            assert forall|j: int| 0 <= j < i as int implies meta_list_view(r@)[j]
                == meta_list_view(m@)[j] by {
                if j < i as int - 1 {
                    assert(prev[j] == meta_list_view(m@).take(i as int - 1)[j]);
                }
            }
            assert(meta_list_view(r@) =~= meta_list_view(m@).take(i as int));
        }
    }
    proof {
        assert(meta_list_view(r@) =~= meta_list_view(m@));
    }
    r
}

/// Copy of a whole record; the copy has the same model.
pub fn clone_record(r: &PatchRecord) -> (c: PatchRecord)
    ensures
        c@ == r@,
{
    let c = PatchRecord {
        identity: clone_bytes(&r.identity),
        platforms: clone_byte_list(&r.platforms),
        start_version: r.start_version,
        end_version: r.end_version,
        metadata: clone_meta_list(&r.metadata),
    };
    proof {
        assert(c@ =~~= r@);
    }
    c
}

} // verus!
