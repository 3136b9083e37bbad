use crate::codec::{parse, ser_coll, serialize, sp_coll};
use crate::collection::{
    coll_wf, filt_spec, lemma_sub_ids, narrow_spec, sub_spec, transpose_spec, union_spec,
    PatchCollection,
};
use crate::record::RecordView;
use crate::SyncError;
use vstd::prelude::*;

verus! {

/// The platform tag of the toolchain-distribution side: `chromiumos`.
pub open spec fn spec_cros_tag() -> Seq<u8> {
    seq![99u8, 104u8, 114u8, 111u8, 109u8, 105u8, 117u8, 109u8, 111u8, 115u8]
}

/// The platform tag of the mobile-OS side: `android`.
pub open spec fn spec_android_tag() -> Seq<u8> {
    seq![97u8, 110u8, 100u8, 114u8, 111u8, 105u8, 100u8]
}

/// The tag `chromiumos` as a value.
pub fn cros_tag() -> (v: Vec<u8>)
    ensures
        v@ == spec_cros_tag(),
{
    let mut v: Vec<u8> = Vec::new();
    v.push(99);
    v.push(104);
    v.push(114);
    v.push(111);
    v.push(109);
    v.push(105);
    v.push(117);
    v.push(109);
    v.push(111);
    v.push(115);
    proof {
        assert(v@ =~= spec_cros_tag());
    }
    v
}

/// The tag `android` as a value.
pub fn android_tag() -> (v: Vec<u8>)
    ensures
        v@ == spec_android_tag(),
{
    let mut v: Vec<u8> = Vec::new();
    v.push(97);
    v.push(110);
    v.push(100);
    v.push(114);
    v.push(111);
    v.push(105);
    v.push(100);
    proof {
        assert(v@ =~= spec_android_tag());
    }
    v
}

/// The baseline diff: parses the live manifest and a historical snapshot of
/// it, and returns the live collection together with the records whose
/// identity the baseline does not know. A record whose identity exists in the
/// baseline is never reported, however much it changed.
pub fn new_patches(current_text: &Vec<u8>, baseline_text: &Vec<u8>) -> (r: Result<
    (PatchCollection, PatchCollection),
    SyncError,
>)
    ensures
        match r {
            Ok(p) => {
                &&& sp_coll(current_text@) == Some(p.0@)
                &&& coll_wf(p.0@)
                &&& sp_coll(baseline_text@) is Some
                &&& p.1@ == sub_spec(p.0@, sp_coll(baseline_text@).unwrap())
            },
            Err(e) => if sp_coll(current_text@) is None {
                e == SyncError::ParseError
            } else {
                e == SyncError::BaselineParseError && sp_coll(baseline_text@) is None
            },
        },
{
    let cur = match parse(current_text) {
        Ok(c) => c,
        Err(_) => {
            return Err(SyncError::ParseError);
        },
    };
    let base = match parse(baseline_text) {
        Ok(c) => c,
        Err(_) => {
            return Err(SyncError::BaselineParseError);
        },
    };
    let fresh = cur.subtract(&base);
    Ok((cur, fresh))
}

/// One side's collection as the merged view shows it: unchanged when
/// unmerged records are kept, otherwise narrowed to the side's own tag.
pub open spec fn show_view(c: Seq<RecordView>, tag: Seq<u8>, keep_unmerged: bool) -> Seq<
    RecordView,
> {
    if keep_unmerged {
        c
    } else {
        narrow_spec(c, tag)
    }
}

/// The combined view of both manifests: parses both sides, narrows each to
/// its own platform tag unless `keep_unmerged`, unites them (the
/// toolchain-distribution side wins shared fields), and serializes the
/// union. Nothing is modified.
pub fn run_show(cros_text: &Vec<u8>, android_text: &Vec<u8>, keep_unmerged: bool) -> (r: Result<
    Vec<u8>,
    SyncError,
>)
    ensures
        match r {
            Ok(out) => {
                &&& sp_coll(cros_text@) is Some
                &&& sp_coll(android_text@) is Some
                &&& out@ == ser_coll(
                    union_spec(
                        show_view(sp_coll(cros_text@).unwrap(), spec_cros_tag(), keep_unmerged),
                        show_view(
                            sp_coll(android_text@).unwrap(),
                            spec_android_tag(),
                            keep_unmerged,
                        ),
                    ),
                )
                &&& sp_coll(out@) == Some(
                    union_spec(
                        show_view(sp_coll(cros_text@).unwrap(), spec_cros_tag(), keep_unmerged),
                        show_view(
                            sp_coll(android_text@).unwrap(),
                            spec_android_tag(),
                            keep_unmerged,
                        ),
                    ),
                )
            },
            Err(e) => e == SyncError::ParseError && (sp_coll(cros_text@) is None || sp_coll(
                android_text@,
            ) is None),
        },
{
    let cros = match parse(cros_text) {
        Ok(c) => c,
        Err(_) => {
            return Err(SyncError::ParseError);
        },
    };
    let android = match parse(android_text) {
        Ok(c) => c,
        Err(_) => {
            return Err(SyncError::ParseError);
        },
    };
    if keep_unmerged {
        let merged = cros.union(&android);
        proof {
            crate::collection::lemma_union_wf(cros@, android@);
            crate::codec::lemma_round_trip(merged@);
        }
        Ok(serialize(&merged))
    } else {
        let ct = cros_tag();
        let at = android_tag();
        let cros_view = cros.narrow_to_platform(&ct);
        let android_view = android.narrow_to_platform(&at);
        let merged = cros_view.union(&android_view);
        proof {
            assert(crate::record::str_ok(spec_cros_tag()));
            assert(crate::record::str_ok(spec_android_tag()));
            crate::collection::lemma_narrow_wf(cros@, spec_cros_tag());
            crate::collection::lemma_narrow_wf(android@, spec_android_tag());
            crate::collection::lemma_union_wf(cros_view@, android_view@);
            crate::codec::lemma_round_trip(merged@);
        }
        Ok(serialize(&merged))
    }
}

/// The records new on the toolchain-distribution side that belong on the
/// mobile-OS side: new since the baseline, minus what the destination
/// already has, and eligible at the mobile-OS toolchain version — that side
/// takes no patch outside its version window.
pub open spec fn pipeline_new_cros(
    cc: Seq<RecordView>,
    bc: Seq<RecordView>,
    ca: Seq<RecordView>,
    v: u64,
) -> Seq<RecordView> {
    filt_spec(sub_spec(sub_spec(cc, bc), ca), v)
}

/// The records new on the mobile-OS side that belong on the other side: new
/// since the baseline, minus what the destination already has. This
/// direction carries all new records; only the mobile-OS side gates by
/// version.
pub open spec fn pipeline_new_android(
    ca: Seq<RecordView>,
    ba: Seq<RecordView>,
    cc: Seq<RecordView>,
) -> Seq<RecordView> {
    sub_spec(sub_spec(ca, ba), cc)
}

/// Everything a transposition run decides, staged in memory. The caller
/// copies each new record's patch file (named by its identity) into the
/// destination checkout and atomically replaces a manifest file only where
/// an updated text is present.
pub struct TransposeOutcome {
    /// The new toolchain-distribution records to carry to the mobile-OS side.
    pub new_cros: PatchCollection,
    /// The new mobile-OS records to carry to the toolchain-distribution side.
    pub new_android: PatchCollection,
    /// The updated mobile-OS manifest, present exactly when `new_cros` is
    /// non-empty.
    pub updated_android_text: Option<Vec<u8>>,
    /// The updated toolchain-distribution manifest, present exactly when
    /// `new_android` is non-empty.
    pub updated_cros_text: Option<Vec<u8>>,
    /// Whether the toolchain-distribution side must be uploaded for review.
    pub upload_cros: bool,
    /// Whether the mobile-OS side must be uploaded for review.
    pub upload_android: bool,
}

#[verifier::rlimit(100)]
/// The whole transposition pipeline on in-memory texts: diff each side
/// against its baseline, drop candidates the other side already has, gate
/// the mobile-OS-bound candidates by toolchain version, and stage each
/// side's updated manifest with the new records appended at the end under
/// the originating platform tag. The two directions are independent; a side
/// with nothing new stays untouched.
pub fn run_transpose(
    cros_text: &Vec<u8>,
    cros_baseline_text: &Vec<u8>,
    android_text: &Vec<u8>,
    android_baseline_text: &Vec<u8>,
    version_text: &Vec<u8>,
) -> (r: Result<TransposeOutcome, SyncError>)
    ensures
        match r {
            Ok(o) => {
                &&& sp_coll(cros_text@) is Some
                &&& sp_coll(cros_baseline_text@) is Some
                &&& sp_coll(android_text@) is Some
                &&& sp_coll(android_baseline_text@) is Some
                &&& crate::codec::version_of(version_text@) is Some
                &&& o.new_cros@ == pipeline_new_cros(
                    sp_coll(cros_text@).unwrap(),
                    sp_coll(cros_baseline_text@).unwrap(),
                    sp_coll(android_text@).unwrap(),
                    crate::codec::version_of(version_text@).unwrap(),
                )
                &&& o.new_android@ == pipeline_new_android(
                    sp_coll(android_text@).unwrap(),
                    sp_coll(android_baseline_text@).unwrap(),
                    sp_coll(cros_text@).unwrap(),
                )
                &&& (o.new_cros@.len() == 0 ==> o.updated_android_text is None)
                &&& (o.new_cros@.len() > 0 ==> (o.updated_android_text matches Some(t)
                    && t@ == ser_coll(
                    transpose_spec(sp_coll(android_text@).unwrap(), o.new_cros@, spec_cros_tag()),
                )
                    && sp_coll(t@) == Some(
                    transpose_spec(sp_coll(android_text@).unwrap(), o.new_cros@, spec_cros_tag()),
                )))
                &&& (o.new_android@.len() == 0 ==> o.updated_cros_text is None)
                &&& (o.new_android@.len() > 0 ==> (o.updated_cros_text matches Some(t)
                    && t@ == ser_coll(
                    transpose_spec(sp_coll(cros_text@).unwrap(), o.new_android@, spec_android_tag()),
                )
                    && sp_coll(t@) == Some(
                    transpose_spec(sp_coll(cros_text@).unwrap(), o.new_android@, spec_android_tag()),
                )))
                &&& o.upload_cros == (o.new_android@.len() > 0)
                &&& o.upload_android == (o.new_cros@.len() > 0)
            },
            Err(e) => if sp_coll(cros_text@) is None {
                e == SyncError::ParseError
            } else if sp_coll(cros_baseline_text@) is None {
                e == SyncError::BaselineParseError
            } else if sp_coll(android_text@) is None {
                e == SyncError::ParseError
            } else if sp_coll(android_baseline_text@) is None {
                e == SyncError::BaselineParseError
            } else {
                e == SyncError::VersionFormatError && crate::codec::version_of(version_text@)
                    is None
            },
        },
{
    let (cur_cros, new_cros0) = match new_patches(cros_text, cros_baseline_text) {
        Ok(p) => p,
        Err(e) => {
            return Err(e);
        },
    };
    let (cur_android, new_android0) = match new_patches(android_text, android_baseline_text) {
        Ok(p) => p,
        Err(e) => {
            return Err(e);
        },
    };
    // Records already present at the destination are not new there.
    let new_cros1 = new_cros0.subtract(&cur_android);
    let new_android = new_android0.subtract(&cur_cros);
    // The mobile-OS side takes no patch outside its version window.
    let version = match crate::codec::parse_version(version_text) {
        Ok(v) => v,
        Err(e) => {
            return Err(e);
        },
    };
    let new_cros = new_cros1.filter_eligible(version);
    let mut updated_android_text: Option<Vec<u8>> = None;
    let mut updated_cros_text: Option<Vec<u8>> = None;
    if !new_cros.is_empty() {
        let tag = cros_tag();
        match new_cros.transpose_onto(&tag, &cur_android) {
            Ok(merged) => {
                proof {
                    assert(crate::record::str_ok(spec_cros_tag()));
                    crate::collection::lemma_sub_wf(
                        cur_cros@,
                        sp_coll(cros_baseline_text@).unwrap(),
                    );
                    crate::collection::lemma_sub_wf(new_cros0@, cur_android@);
                    crate::collection::lemma_filt_wf(new_cros1@, version);
                    crate::collection::lemma_transpose_wf(
                        cur_android@,
                        new_cros@,
                        spec_cros_tag(),
                    );
                    crate::codec::lemma_round_trip(merged@);
                }
                updated_android_text = Some(serialize(&merged));
            },
            Err(_) => {
                proof {
                    lemma_sub_ids(new_cros0@, cur_android@);
                    crate::collection::lemma_filt_elems(new_cros1@, version);
                    assert(false);
                }
            },
        }
    }
    if !new_android.is_empty() {
        let tag = android_tag();
        match new_android.transpose_onto(&tag, &cur_cros) {
            Ok(merged) => {
                proof {
                    assert(crate::record::str_ok(spec_android_tag()));
                    crate::collection::lemma_sub_wf(
                        cur_android@,
                        sp_coll(android_baseline_text@).unwrap(),
                    );
                    crate::collection::lemma_sub_wf(new_android0@, cur_cros@);
                    crate::collection::lemma_transpose_wf(
                        cur_cros@,
                        new_android@,
                        spec_android_tag(),
                    );
                    crate::codec::lemma_round_trip(merged@);
                }
                updated_cros_text = Some(serialize(&merged));
            },
            Err(_) => {
                proof {
                    lemma_sub_ids(new_android0@, cur_cros@);
                    assert(false);
                }
            },
        }
    }
    let upload_cros = !new_android.is_empty();
    let upload_android = !new_cros.is_empty();
    Ok(
        TransposeOutcome {
            new_cros,
            new_android,
            updated_android_text,
            updated_cros_text,
            upload_cros,
            upload_android,
        },
    )
}

} // verus!
