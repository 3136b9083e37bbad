use crate::collection::{coll_wf, PatchCollection};
use crate::record::{
    key_from, key_path, key_platforms, key_until, lemma_bytes_deep_view, meta_list_view,
    record_wf, str_ok, MetaVal, MetaView, PatchRecord, RecordView,
};
use crate::SyncError;
use vstd::prelude::*;

verus! {

// ---------------------------------------------------------------------------
// The canonical textual form of a manifest: a JSON array of objects, one per
// record, with the typed fields first ("path", "platforms", "from", "until" —
// an absent bound is written null) and the free-form metadata pairs after
// them, in stored order. Strings carry no escapes, which is why well-formed
// strings contain no double quote.
// ---------------------------------------------------------------------------
/// The opening of a record object, up to the path value: `{"path":`.
pub open spec fn lit_obj_path() -> Seq<u8> {
    seq![123u8, 34u8, 112u8, 97u8, 116u8, 104u8, 34u8, 58u8]
}

/// The platform-list field header: `,"platforms":[`.
pub open spec fn lit_platforms() -> Seq<u8> {
    seq![
        44u8,
        34u8,
        112u8,
        108u8,
        97u8,
        116u8,
        102u8,
        111u8,
        114u8,
        109u8,
        115u8,
        34u8,
        58u8,
        91u8,
    ]
}

/// The lower-bound field header: `,"from":`.
pub open spec fn lit_from() -> Seq<u8> {
    seq![44u8, 34u8, 102u8, 114u8, 111u8, 109u8, 34u8, 58u8]
}

/// The upper-bound field header: `,"until":`.
pub open spec fn lit_until() -> Seq<u8> {
    seq![44u8, 34u8, 117u8, 110u8, 116u8, 105u8, 108u8, 34u8, 58u8]
}

/// The token `true`.
pub open spec fn lit_true() -> Seq<u8> {
    seq![116u8, 114u8, 117u8, 101u8]
}

/// The token `false`.
pub open spec fn lit_false() -> Seq<u8> {
    seq![102u8, 97u8, 108u8, 115u8, 101u8]
}

/// The token `null`.
pub open spec fn lit_null() -> Seq<u8> {
    seq![110u8, 117u8, 108u8, 108u8]
}

/// A quoted string: the bytes between double quotes, verbatim.
pub open spec fn ser_str(s: Seq<u8>) -> Seq<u8> {
    seq![34u8] + s + seq![34u8]
}

/// Decimal digits of `n`, most significant first.
pub open spec fn dec(n: nat) -> Seq<u8>
    decreases n,
{
    if n < 10 {
        seq![(48 + n) as u8]
    } else {
        dec(n / 10).push((48 + n % 10) as u8)
    }
}

/// An optional bound: its decimal digits, or `null`.
pub open spec fn ser_numnull(o: Option<u64>) -> Seq<u8> {
    match o {
        Some(n) => dec(n as nat),
        None => lit_null(),
    }
}

/// One metadata value.
pub open spec fn ser_val(v: MetaView) -> Seq<u8> {
    match v {
        MetaView::Str(s) => ser_str(s),
        MetaView::UInt(n) => dec(n as nat),
        MetaView::Bool(b) => if b {
            lit_true()
        } else {
            lit_false()
        },
        MetaView::Null => lit_null(),
    }
}

/// The platform list after its first element: `,"x"` for each further
/// element, then the closing bracket.
pub open spec fn ser_plats_rest(ps: Seq<Seq<u8>>) -> Seq<u8>
    decreases ps.len(),
{
    if ps.len() == 0 {
        seq![93u8]
    } else {
        seq![44u8] + ser_str(ps[0]) + ser_plats_rest(ps.drop_first())
    }
}

/// The platform list body after the opening bracket.
pub open spec fn ser_plats(ps: Seq<Seq<u8>>) -> Seq<u8> {
    if ps.len() == 0 {
        seq![93u8]
    } else {
        ser_str(ps[0]) + ser_plats_rest(ps.drop_first())
    }
}

/// The metadata pairs, each `,"key":value`, then the closing brace.
pub open spec fn ser_pairs(m: Seq<(Seq<u8>, MetaView)>) -> Seq<u8>
    decreases m.len(),
{
    if m.len() == 0 {
        seq![125u8]
    } else {
        seq![44u8] + ser_str(m[0].0) + seq![58u8] + ser_val(m[0].1) + ser_pairs(m.drop_first())
    }
}

/// One record object.
pub open spec fn ser_record(r: RecordView) -> Seq<u8> {
    lit_obj_path() + ser_str(r.identity) + lit_platforms() + ser_plats(r.platforms) + lit_from()
        + ser_numnull(r.start_version) + lit_until() + ser_numnull(r.end_version) + ser_pairs(
        r.metadata,
    )
}

/// The record array after its first record: `,{...}` for each further
/// record, then the closing bracket.
pub open spec fn ser_records_rest(c: Seq<RecordView>) -> Seq<u8>
    decreases c.len(),
{
    if c.len() == 0 {
        seq![93u8]
    } else {
        seq![44u8] + ser_record(c[0]) + ser_records_rest(c.drop_first())
    }
}

/// The canonical textual form of a whole collection.
pub open spec fn ser_coll(c: Seq<RecordView>) -> Seq<u8> {
    if c.len() == 0 {
        seq![91u8, 93u8]
    } else {
        seq![91u8] + ser_record(c[0]) + ser_records_rest(c.drop_first())
    }
}

// ---------------------------------------------------------------------------
// The parser, as a mathematical function. Each piece takes the remaining
// input and yields the parsed value and the rest, or nothing. List parsers
// carry fuel to bound their recursion; any fuel at least the element count
// plus one behaves alike, and callers pass the input length.
// ---------------------------------------------------------------------------
/// ASCII whitespace, allowed only after the closing bracket.
pub open spec fn is_ws(b: u8) -> bool {
    b == 32 || b == 9 || b == 10 || b == 13
}

pub open spec fn all_ws(s: Seq<u8>) -> bool {
    forall|i: int| 0 <= i < s.len() ==> is_ws(#[trigger] s[i])
}

pub open spec fn is_digit(b: u8) -> bool {
    48 <= b <= 57
}

/// No two records of `c` share an identity.
pub open spec fn unique_ids(c: Seq<RecordView>) -> bool {
    forall|i: int, j: int| 0 <= i < j < c.len() ==> c[i].identity != c[j].identity
}

/// A fixed token at the head of the input.
pub open spec fn sp_lit(s: Seq<u8>, lit: Seq<u8>) -> Option<Seq<u8>> {
    if lit.len() <= s.len() && s.take(lit.len() as int) == lit {
        Some(s.skip(lit.len() as int))
    } else {
        None
    }
}

/// String content up to and including the closing quote.
pub open spec fn sp_chars(s: Seq<u8>) -> Option<(Seq<u8>, Seq<u8>)>
    decreases s.len(),
{
    if s.len() == 0 {
        None
    } else if s[0] == 34 {
        Some((Seq::empty(), s.drop_first()))
    } else {
        match sp_chars(s.drop_first()) {
            Some((c, r)) => Some((seq![s[0]] + c, r)),
            None => None,
        }
    }
}

/// A quoted string.
pub open spec fn sp_str(s: Seq<u8>) -> Option<(Seq<u8>, Seq<u8>)> {
    if s.len() > 0 && s[0] == 34 {
        sp_chars(s.drop_first())
    } else {
        None
    }
}

/// The longest digit prefix and the rest.
pub open spec fn sp_digits(s: Seq<u8>) -> (Seq<u8>, Seq<u8>)
    decreases s.len(),
{
    if s.len() == 0 || !is_digit(s[0]) {
        (Seq::empty(), s)
    } else {
        let (d, r) = sp_digits(s.drop_first());
        (seq![s[0]] + d, r)
    }
}

/// The number a digit string denotes.
pub open spec fn val_of(ds: Seq<u8>) -> int
    decreases ds.len(),
{
    if ds.len() == 0 {
        0
    } else {
        val_of(ds.drop_last()) * 10 + (ds.last() - 48)
    }
}

/// An unsigned decimal number that fits in a machine word.
pub open spec fn sp_num(s: Seq<u8>) -> Option<(u64, Seq<u8>)> {
    let (ds, r) = sp_digits(s);
    if ds.len() == 0 {
        None
    } else if val_of(ds) > u64::MAX {
        None
    } else {
        Some((val_of(ds) as u64, r))
    }
}

/// A version bound: a number, or `null` for an absent bound.
pub open spec fn sp_numnull(s: Seq<u8>) -> Option<(Option<u64>, Seq<u8>)> {
    if s.len() > 0 && s[0] == 110 {
        match sp_lit(s, lit_null()) {
            Some(r) => Some((None, r)),
            None => None,
        }
    } else {
        match sp_num(s) {
            Some((n, r)) => Some((Some(n), r)),
            None => None,
        }
    }
}

/// One metadata value: a string, a number, `true`, `false` or `null`.
pub open spec fn sp_val(s: Seq<u8>) -> Option<(MetaView, Seq<u8>)> {
    if s.len() == 0 {
        None
    } else if s[0] == 34 {
        match sp_str(s) {
            Some((c, r)) => Some((MetaView::Str(c), r)),
            None => None,
        }
    } else if s[0] == 116 {
        match sp_lit(s, lit_true()) {
            Some(r) => Some((MetaView::Bool(true), r)),
            None => None,
        }
    } else if s[0] == 102 {
        match sp_lit(s, lit_false()) {
            Some(r) => Some((MetaView::Bool(false), r)),
            None => None,
        }
    } else if s[0] == 110 {
        match sp_lit(s, lit_null()) {
            Some(r) => Some((MetaView::Null, r)),
            None => None,
        }
    } else {
        match sp_num(s) {
            Some((n, r)) => Some((MetaView::UInt(n), r)),
            None => None,
        }
    }
}

/// The platform list after its first element.
pub open spec fn sp_plats_rest(s: Seq<u8>, fuel: nat) -> Option<(Seq<Seq<u8>>, Seq<u8>)>
    decreases fuel,
{
    if fuel == 0 || s.len() == 0 {
        None
    } else if s[0] == 93 {
        Some((Seq::empty(), s.drop_first()))
    } else if s[0] == 44 {
        match sp_str(s.drop_first()) {
            Some((p, r)) => if r.len() < s.len() {
                match sp_plats_rest(r, (fuel - 1) as nat) {
                    Some((ps, r2)) => Some((seq![p] + ps, r2)),
                    None => None,
                }
            } else {
                None
            },
            None => None,
        }
    } else {
        None
    }
}

/// The platform list body after the opening bracket.
pub open spec fn sp_plats(s: Seq<u8>, fuel: nat) -> Option<(Seq<Seq<u8>>, Seq<u8>)> {
    if s.len() > 0 && s[0] == 93 {
        Some((Seq::empty(), s.drop_first()))
    } else {
        match sp_str(s) {
            Some((p, r)) => match sp_plats_rest(r, fuel) {
                Some((ps, r2)) => Some((seq![p] + ps, r2)),
                None => None,
            },
            None => None,
        }
    }
}

/// The metadata pairs and the closing brace.
pub open spec fn sp_pairs(s: Seq<u8>, fuel: nat) -> Option<(Seq<(Seq<u8>, MetaView)>, Seq<u8>)>
    decreases fuel,
{
    if fuel == 0 || s.len() == 0 {
        None
    } else if s[0] == 125 {
        Some((Seq::empty(), s.drop_first()))
    } else if s[0] == 44 {
        match sp_str(s.drop_first()) {
            Some((k, r1)) => if r1.len() > 0 && r1[0] == 58 {
                match sp_val(r1.drop_first()) {
                    Some((v, r2)) => if r2.len() < s.len() {
                        match sp_pairs(r2, (fuel - 1) as nat) {
                            Some((m, r3)) => Some((seq![(k, v)] + m, r3)),
                            None => None,
                        }
                    } else {
                        None
                    },
                    None => None,
                }
            } else {
                None
            },
            None => None,
        }
    } else {
        None
    }
}

/// One record object; only well-formed records parse.
pub open spec fn sp_record(s: Seq<u8>, fuel: nat) -> Option<(RecordView, Seq<u8>)> {
    match sp_lit(s, lit_obj_path()) {
        Some(r0) => match sp_str(r0) {
            Some((id, r1)) => match sp_lit(r1, lit_platforms()) {
                Some(r2) => match sp_plats(r2, fuel) {
                    Some((ps, r3)) => match sp_lit(r3, lit_from()) {
                        Some(r4) => match sp_numnull(r4) {
                            Some((sv, r5)) => match sp_lit(r5, lit_until()) {
                                Some(r6) => match sp_numnull(r6) {
                                    Some((ev, r7)) => match sp_pairs(r7, fuel) {
                                        Some((meta, r8)) => {
                                            let rv = RecordView {
                                                identity: id,
                                                platforms: ps,
                                                start_version: sv,
                                                end_version: ev,
                                                metadata: meta,
                                            };
                                            if record_wf(rv) {
                                                Some((rv, r8))
                                            } else {
                                                None
                                            }
                                        },
                                        None => None,
                                    },
                                    None => None,
                                },
                                None => None,
                            },
                            None => None,
                        },
                        None => None,
                    },
                    None => None,
                },
                None => None,
            },
            None => None,
        },
        None => None,
    }
}

/// The record array after its first record.
pub open spec fn sp_records_rest(s: Seq<u8>, fuel: nat) -> Option<(Seq<RecordView>, Seq<u8>)>
    decreases fuel,
{
    if fuel == 0 || s.len() == 0 {
        None
    } else if s[0] == 93 {
        Some((Seq::empty(), s.drop_first()))
    } else if s[0] == 44 {
        match sp_record(s.drop_first(), fuel) {
            Some((rv, r)) => if r.len() < s.len() {
                match sp_records_rest(r, (fuel - 1) as nat) {
                    Some((c, r2)) => Some((seq![rv] + c, r2)),
                    None => None,
                }
            } else {
                None
            },
            None => None,
        }
    } else {
        None
    }
}

/// A whole manifest document: the record array, trailing whitespace allowed,
/// identities unique. This is the meaning of the executable parser.
pub open spec fn sp_coll(s: Seq<u8>) -> Option<Seq<RecordView>> {
    if s.len() > 0 && s[0] == 91 {
        let t = s.drop_first();
        if t.len() > 0 && t[0] == 93 {
            if all_ws(t.drop_first()) {
                Some(Seq::empty())
            } else {
                None
            }
        } else {
            match sp_record(t, s.len() as nat) {
                Some((rv, r)) => match sp_records_rest(r, s.len() as nat) {
                    Some((c, r2)) => {
                        let full = seq![rv] + c;
                        if all_ws(r2) && unique_ids(full) {
                            Some(full)
                        } else {
                            None
                        }
                    },
                    None => None,
                },
                None => None,
            }
        }
    } else {
        None
    }
}

// ---------------------------------------------------------------------------
// Inversion: parsing a canonical serialization yields the original value.
// ---------------------------------------------------------------------------
/// A fixed token parses off the front of what it heads.
proof fn lemma_lit(lit: Seq<u8>, rest: Seq<u8>)
    ensures
        sp_lit(lit + rest, lit) == Some(rest),
{
    assert((lit + rest).take(lit.len() as int) =~= lit);
    assert((lit + rest).skip(lit.len() as int) =~= rest);
}

/// Quote-free content parses up to the closing quote.
proof fn lemma_chars(s: Seq<u8>, rest: Seq<u8>)
    requires
        str_ok(s),
    ensures
        sp_chars(s + seq![34u8] + rest) == Some((s, rest)),
    decreases s.len(),
{
    let input = s + seq![34u8] + rest;
    if s.len() == 0 {
        assert(input[0] == 34);
        assert(input.drop_first() =~= rest);
    } else {
        assert(input[0] == s[0]);
        assert(s[0] != 34);
        assert(input.drop_first() =~= s.drop_first() + seq![34u8] + rest);
        lemma_chars(s.drop_first(), rest);
        assert(seq![s[0]] + s.drop_first() =~= s);
    }
}

/// A serialized string parses back to itself.
proof fn lemma_str(s: Seq<u8>, rest: Seq<u8>)
    requires
        str_ok(s),
    ensures
        sp_str(ser_str(s) + rest) == Some((s, rest)),
{
    let input = ser_str(s) + rest;
    assert(input[0] == 34);
    assert(input.len() > 0);
    assert(input.drop_first() =~= s + seq![34u8] + rest);
    lemma_chars(s, rest);
}

/// The decimal digits of `n`: at least one, all digits, denoting `n`.
proof fn lemma_dec(n: nat)
    ensures
        dec(n).len() >= 1,
        forall|i: int| 0 <= i < dec(n).len() ==> is_digit(#[trigger] dec(n)[i]),
        val_of(dec(n)) == n,
    decreases n,
{
    if n < 10 {
        assert(dec(n).drop_last() =~= Seq::<u8>::empty());
        assert(dec(n).last() == (48 + n) as u8);
        assert(val_of(Seq::<u8>::empty()) == 0);
        assert(((48 + n) as u8) as nat == 48 + n);
        assert(val_of(dec(n)) == n);
    } else {
        lemma_dec(n / 10);
        let d = ((48 + n % 10) as u8);
        assert(dec(n) == dec(n / 10).push(d));
        assert(dec(n).drop_last() =~= dec(n / 10));
        assert(dec(n).last() == d);
        assert(val_of(dec(n)) == val_of(dec(n / 10)) * 10 + (d - 48));
        assert(n / 10 * 10 + n % 10 == n);
    }
}

/// A digit run followed by a non-digit splits exactly there.
proof fn lemma_digits_split(ds: Seq<u8>, rest: Seq<u8>)
    requires
        forall|i: int| 0 <= i < ds.len() ==> is_digit(#[trigger] ds[i]),
        rest.len() == 0 || !is_digit(rest[0]),
    ensures
        sp_digits(ds + rest) == (ds, rest),
    decreases ds.len(),
{
    let input = ds + rest;
    if ds.len() == 0 {
        assert(input =~= rest);
    } else {
        assert(input[0] == ds[0]);
        assert(input.drop_first() =~= ds.drop_first() + rest);
        lemma_digits_split(ds.drop_first(), rest);
        assert(seq![ds[0]] + ds.drop_first() =~= ds);
    }
}

/// A serialized number parses back to itself when what follows starts with
/// no digit.
proof fn lemma_num(n: u64, rest: Seq<u8>)
    requires
        rest.len() == 0 || !is_digit(rest[0]),
    ensures
        sp_num(dec(n as nat) + rest) == Some((n, rest)),
{
    lemma_dec(n as nat);
    lemma_digits_split(dec(n as nat), rest);
}

/// A serialized bound parses back to itself.
proof fn lemma_numnull(o: Option<u64>, rest: Seq<u8>)
    requires
        rest.len() == 0 || !is_digit(rest[0]),
    ensures
        sp_numnull(ser_numnull(o) + rest) == Some((o, rest)),
{
    match o {
        Some(n) => {
            lemma_dec(n as nat);
            let input = dec(n as nat) + rest;
            assert(input[0] == dec(n as nat)[0]);
            assert(is_digit(input[0]));
            assert(input[0] != 110);
            lemma_num(n, rest);
        },
        None => {
            let input = lit_null() + rest;
            assert(input[0] == 110);
            lemma_lit(lit_null(), rest);
        },
    }
}

/// A serialized metadata value parses back to itself.
proof fn lemma_val(v: MetaView, rest: Seq<u8>)
    requires
        crate::record::meta_view_ok(v),
        rest.len() == 0 || !is_digit(rest[0]),
    ensures
        sp_val(ser_val(v) + rest) == Some((v, rest)),
{
    match v {
        MetaView::Str(s) => {
            let input = ser_str(s) + rest;
            assert(input[0] == 34);
            lemma_str(s, rest);
        },
        MetaView::UInt(n) => {
            lemma_dec(n as nat);
            let input = dec(n as nat) + rest;
            assert(input[0] == dec(n as nat)[0]);
            assert(is_digit(input[0]));
            lemma_num(n, rest);
        },
        MetaView::Bool(b) => {
            if b {
                let input = lit_true() + rest;
                assert(input[0] == 116);
                lemma_lit(lit_true(), rest);
            } else {
                let input = lit_false() + rest;
                assert(input[0] == 102);
                lemma_lit(lit_false(), rest);
            }
        },
        MetaView::Null => {
            let input = lit_null() + rest;
            assert(input[0] == 110);
            lemma_lit(lit_null(), rest);
        },
    }
}

/// A serialized platform-list tail parses back to itself.
proof fn lemma_plats_rest(ps: Seq<Seq<u8>>, rest: Seq<u8>, fuel: nat)
    requires
        forall|i: int| 0 <= i < ps.len() ==> str_ok(#[trigger] ps[i]),
        fuel >= ps.len() + 1,
    ensures
        sp_plats_rest(ser_plats_rest(ps) + rest, fuel) == Some((ps, rest)),
    decreases ps.len(),
{
    let input = ser_plats_rest(ps) + rest;
    if ps.len() == 0 {
        assert(input[0] == 93);
        assert(input.drop_first() =~= rest);
    } else {
        let tail = ser_plats_rest(ps.drop_first()) + rest;
        assert(input[0] == 44);
        assert(input.drop_first() =~= ser_str(ps[0]) + tail);
        lemma_str(ps[0], tail);
        assert(tail.len() < input.len());
        lemma_plats_rest(ps.drop_first(), rest, (fuel - 1) as nat);
        assert(seq![ps[0]] + ps.drop_first() =~= ps);
    }
}

/// A serialized platform list parses back to itself.
proof fn lemma_plats(ps: Seq<Seq<u8>>, rest: Seq<u8>, fuel: nat)
    requires
        forall|i: int| 0 <= i < ps.len() ==> str_ok(#[trigger] ps[i]),
        fuel >= ps.len(),
    ensures
        sp_plats(ser_plats(ps) + rest, fuel) == Some((ps, rest)),
{
    let input = ser_plats(ps) + rest;
    if ps.len() == 0 {
        assert(input[0] == 93);
        assert(input.drop_first() =~= rest);
    } else {
        let tail = ser_plats_rest(ps.drop_first()) + rest;
        assert(input[0] == 34);
        assert(input[0] != 93);
        assert(input =~= ser_str(ps[0]) + tail);
        lemma_str(ps[0], tail);
        lemma_plats_rest(ps.drop_first(), rest, fuel);
        assert(seq![ps[0]] + ps.drop_first() =~= ps);
    }
}

/// The first byte of serialized metadata pairs: a comma or the closing brace.
proof fn lemma_pairs_head(m: Seq<(Seq<u8>, MetaView)>)
    ensures
        ser_pairs(m).len() >= 1,
        ser_pairs(m)[0] == 44 || ser_pairs(m)[0] == 125,
        !is_digit(ser_pairs(m)[0]),
{
    if m.len() == 0 {
    } else {
        assert(ser_pairs(m)[0] == 44);
    }
}

/// Serialized metadata pairs parse back to themselves.
proof fn lemma_pairs(m: Seq<(Seq<u8>, MetaView)>, rest: Seq<u8>, fuel: nat)
    requires
        forall|i: int|
            0 <= i < m.len() ==> str_ok((#[trigger] m[i]).0) && crate::record::meta_view_ok(
                m[i].1,
            ),
        fuel >= m.len() + 1,
    ensures
        sp_pairs(ser_pairs(m) + rest, fuel) == Some((m, rest)),
    decreases m.len(),
{
    let input = ser_pairs(m) + rest;
    if m.len() == 0 {
        assert(input[0] == 125);
        assert(input.drop_first() =~= rest);
    } else {
        let tail = ser_pairs(m.drop_first()) + rest;
        let after_key = seq![58u8] + ser_val(m[0].1) + tail;
        assert(input[0] == 44);
        assert(input.drop_first() =~= ser_str(m[0].0) + after_key);
        lemma_str(m[0].0, after_key);
        assert(after_key[0] == 58);
        assert(after_key.drop_first() =~= ser_val(m[0].1) + tail);
        lemma_pairs_head(m.drop_first());
        assert(tail[0] == ser_pairs(m.drop_first())[0]);
        lemma_val(m[0].1, tail);
        assert(tail.len() < input.len());
        lemma_pairs(m.drop_first(), rest, (fuel - 1) as nat);
        assert(seq![m[0]] + m.drop_first() =~= m);
    }
}

/// Serialization lengths dominate the element counts the parser's fuel needs.
proof fn lemma_ser_lens(r: RecordView)
    ensures
        ser_record(r).len() >= r.platforms.len() + 1,
        ser_record(r).len() >= r.metadata.len() + 1,
        ser_record(r).len() >= 1,
{
    lemma_ser_plats_rest_len(r.platforms);
    lemma_ser_pairs_len(r.metadata);
    if r.platforms.len() == 0 {
    } else {
        assert(ser_plats(r.platforms).len() >= 1 + ser_plats_rest(r.platforms.drop_first()).len());
    }
}

proof fn lemma_ser_plats_rest_len(ps: Seq<Seq<u8>>)
    ensures
        ser_plats_rest(ps).len() >= ps.len() + 1,
    decreases ps.len(),
{
    if ps.len() > 0 {
        lemma_ser_plats_rest_len(ps.drop_first());
    }
}

proof fn lemma_ser_pairs_len(m: Seq<(Seq<u8>, MetaView)>)
    ensures
        ser_pairs(m).len() >= m.len() + 1,
    decreases m.len(),
{
    if m.len() > 0 {
        lemma_ser_pairs_len(m.drop_first());
    }
}

/// A serialized record parses back to itself.
#[verifier::rlimit(100)]
proof fn lemma_record(r: RecordView, rest: Seq<u8>, fuel: nat)
    requires
        record_wf(r),
        fuel >= r.platforms.len() + 1,
        fuel >= r.metadata.len() + 1,
    ensures
        sp_record(ser_record(r) + rest, fuel) == Some((r, rest)),
{
    let s5 = ser_pairs(r.metadata);
    let x8 = s5 + rest;
    let x7 = ser_numnull(r.end_version) + x8;
    let x6 = lit_until() + x7;
    let x5 = ser_numnull(r.start_version) + x6;
    let x4 = lit_from() + x5;
    let x3 = ser_plats(r.platforms) + x4;
    let x2 = lit_platforms() + x3;
    let x1 = ser_str(r.identity) + x2;
    let input = ser_record(r) + rest;
    assert(input =~= lit_obj_path() + x1);
    lemma_lit(lit_obj_path(), x1);
    lemma_str(r.identity, x2);
    assert(x1 =~= ser_str(r.identity) + x2);
    lemma_lit(lit_platforms(), x3);
    lemma_plats(r.platforms, x4, fuel);
    assert(x4[0] == 44);
    lemma_lit(lit_from(), x5);
    assert(x6[0] == 44);
    lemma_numnull(r.start_version, x6);
    lemma_lit(lit_until(), x7);
    lemma_pairs_head(r.metadata);
    assert(x8[0] == s5[0]);
    lemma_numnull(r.end_version, x8);
    lemma_pairs(r.metadata, rest, fuel);
    let rv = RecordView {
        identity: r.identity,
        platforms: r.platforms,
        start_version: r.start_version,
        end_version: r.end_version,
        metadata: r.metadata,
    };
    assert(rv =~= r);
}

/// A serialized record-array tail parses back to itself.
#[verifier::rlimit(100)]
proof fn lemma_records_rest(c: Seq<RecordView>, rest: Seq<u8>, fuel: nat)
    requires
        forall|i: int| 0 <= i < c.len() ==> record_wf(#[trigger] c[i]),
        fuel >= ser_records_rest(c).len(),
    ensures
        sp_records_rest(ser_records_rest(c) + rest, fuel) == Some((c, rest)),
    decreases c.len(),
{
    let input = ser_records_rest(c) + rest;
    if c.len() == 0 {
        assert(input[0] == 93);
        assert(input.drop_first() =~= rest);
    } else {
        let tail = ser_records_rest(c.drop_first()) + rest;
        assert(input[0] == 44);
        assert(input.drop_first() =~= ser_record(c[0]) + tail);
        lemma_ser_lens(c[0]);
        lemma_ser_plats_rest_len(c.drop_first().map_values(|x: RecordView| x.identity));
        assert(fuel >= 1 + ser_record(c[0]).len() + ser_records_rest(c.drop_first()).len());
        lemma_record(c[0], tail, fuel);
        assert(tail.len() < input.len());
        lemma_records_rest(c.drop_first(), rest, (fuel - 1) as nat);
        assert(seq![c[0]] + c.drop_first() =~= c);
    }
}

/// Round trip: parsing the serialization of any well-formed collection
/// yields that collection, record for record and field for field.
#[verifier::rlimit(100)]
pub proof fn lemma_round_trip(c: Seq<RecordView>)
    requires
        coll_wf(c),
    ensures
        sp_coll(ser_coll(c)) == Some(c),
{
    let s = ser_coll(c);
    if c.len() == 0 {
        assert(s[0] == 91);
        let t = s.drop_first();
        assert(t.len() == 1 && t[0] == 93);
        assert(all_ws(t.drop_first()));
    } else {
        assert(s[0] == 91);
        let t = s.drop_first();
        assert(t =~= ser_record(c[0]) + ser_records_rest(c.drop_first()));
        lemma_ser_lens(c[0]);
        assert(t[0] == 123);
        assert(!(t.len() > 0 && t[0] == 93));
        lemma_ser_rest_total_len(c.drop_first());
        assert(s.len() >= ser_record(c[0]).len());
        assert(s.len() >= ser_records_rest(c.drop_first()).len());
        lemma_record(c[0], ser_records_rest(c.drop_first()), s.len() as nat);
        lemma_records_rest(c.drop_first(), Seq::empty(), s.len() as nat);
        assert(ser_records_rest(c.drop_first()) + Seq::<u8>::empty() =~= ser_records_rest(
            c.drop_first(),
        ));
        assert(all_ws(Seq::<u8>::empty()));
        assert(seq![c[0]] + c.drop_first() =~= c);
    }
}

proof fn lemma_ser_rest_total_len(c: Seq<RecordView>)
    ensures
        ser_records_rest(c).len() >= 1,
{
}

// ---------------------------------------------------------------------------
// The executable serializer.
// ---------------------------------------------------------------------------
/// Appends `{"path":`.
fn push_obj_path(out: &mut Vec<u8>)
    ensures
        final(out)@ == old(out)@ + lit_obj_path(),
{
    out.push(123);
    out.push(34);
    out.push(112);
    out.push(97);
    out.push(116);
    out.push(104);
    out.push(34);
    out.push(58);
    proof {
        assert(out@ =~= old(out)@ + lit_obj_path());
    }
}

/// Appends `,"platforms":[`.
fn push_platforms_key(out: &mut Vec<u8>)
    ensures
        final(out)@ == old(out)@ + lit_platforms(),
{
    out.push(44);
    out.push(34);
    out.push(112);
    out.push(108);
    out.push(97);
    out.push(116);
    out.push(102);
    out.push(111);
    out.push(114);
    out.push(109);
    out.push(115);
    out.push(34);
    out.push(58);
    out.push(91);
    proof {
        assert(out@ =~= old(out)@ + lit_platforms());
    }
}

/// Appends `,"from":`.
fn push_from_key(out: &mut Vec<u8>)
    ensures
        final(out)@ == old(out)@ + lit_from(),
{
    out.push(44);
    out.push(34);
    out.push(102);
    out.push(114);
    out.push(111);
    out.push(109);
    out.push(34);
    out.push(58);
    proof {
        assert(out@ =~= old(out)@ + lit_from());
    }
}

/// Appends `,"until":`.
fn push_until_key(out: &mut Vec<u8>)
    ensures
        final(out)@ == old(out)@ + lit_until(),
{
    out.push(44);
    out.push(34);
    out.push(117);
    out.push(110);
    out.push(116);
    out.push(105);
    out.push(108);
    out.push(34);
    out.push(58);
    proof {
        assert(out@ =~= old(out)@ + lit_until());
    }
}

/// Appends `true`, `false` or `null`.
fn push_token(out: &mut Vec<u8>, which: u8)
    requires
        which == 0 || which == 1 || which == 2,
    ensures
        which == 0 ==> final(out)@ == old(out)@ + lit_true(),
        which == 1 ==> final(out)@ == old(out)@ + lit_false(),
        which == 2 ==> final(out)@ == old(out)@ + lit_null(),
{
    if which == 0 {
        out.push(116);
        out.push(114);
        out.push(117);
        out.push(101);
        proof {
            assert(out@ =~= old(out)@ + lit_true());
        }
    } else if which == 1 {
        out.push(102);
        out.push(97);
        out.push(108);
        out.push(115);
        out.push(101);
        proof {
            assert(out@ =~= old(out)@ + lit_false());
        }
    } else {
        out.push(110);
        out.push(117);
        out.push(108);
        out.push(108);
        proof {
            assert(out@ =~= old(out)@ + lit_null());
        }
    }
}

/// Appends a quoted string.
fn push_str(out: &mut Vec<u8>, s: &Vec<u8>)
    ensures
        final(out)@ == old(out)@ + ser_str(s@),
{
    out.push(34);
    let mut i: usize = 0;
    while i < s.len()
        invariant
            i <= s.len(),
            out@ == old(out)@ + seq![34u8] + s@.take(i as int),
        decreases s.len() - i,
    {
        out.push(s[i]);
        i = i + 1;
        proof {
            assert(out@ =~= old(out)@ + seq![34u8] + s@.take(i as int));
        }
    }
    out.push(34);
    proof {
        assert(s@.take(s@.len() as int) =~= s@);
        assert(out@ =~= old(out)@ + ser_str(s@));
    }
}

/// Appends the decimal digits of `n`.
fn push_num(out: &mut Vec<u8>, n: u64)
    ensures
        final(out)@ == old(out)@ + dec(n as nat),
    decreases n,
{
    if n < 10 {
        out.push(48 + n as u8);
        proof {
            assert(out@ =~= old(out)@ + dec(n as nat));
        }
    } else {
        push_num(out, n / 10);
        out.push(48 + (n % 10) as u8);
        proof {
            assert(out@ =~= old(out)@ + dec(n as nat));
        }
    }
}

/// Appends a version bound.
fn push_numnull(out: &mut Vec<u8>, o: &Option<u64>)
    ensures
        final(out)@ == old(out)@ + ser_numnull(*o),
{
    match o {
        Some(n) => push_num(out, *n),
        None => push_token(out, 2),
    }
}

/// Appends one metadata value.
fn push_val(out: &mut Vec<u8>, v: &MetaVal)
    ensures
        final(out)@ == old(out)@ + ser_val(v@),
{
    match v {
        MetaVal::Str(s) => push_str(out, s),
        MetaVal::UInt(n) => push_num(out, *n),
        MetaVal::Bool(b) => if *b {
            push_token(out, 0)
        } else {
            push_token(out, 1)
        },
        MetaVal::Null => push_token(out, 2),
    }
}

/// Appends the platform list from position `i` on, then the closing bracket.
fn push_plats_rest(out: &mut Vec<u8>, ps: &Vec<Vec<u8>>, i: usize)
    requires
        i <= ps.len(),
    ensures
        final(out)@ == old(out)@ + ser_plats_rest(ps.deep_view().skip(i as int)),
    decreases ps.len() - i,
{
    proof {
        assert(ps.deep_view().len() == ps@.len());
    }
    if i == ps.len() {
        out.push(93);
        proof {
            assert(ps.deep_view().skip(i as int).len() == 0);
            assert(out@ =~= old(out)@ + ser_plats_rest(ps.deep_view().skip(i as int)));
        }
    } else {
        out.push(44);
        push_str(out, &ps[i]);
        push_plats_rest(out, ps, i + 1);
        proof {
            crate::collection::lemma_skip_head(ps.deep_view(), i as int);
            lemma_bytes_deep_view(ps@[i as int]);
            assert(out@ =~= old(out)@ + ser_plats_rest(ps.deep_view().skip(i as int)));
        }
    }
}

/// Appends the whole platform list body after the opening bracket.
fn push_plats(out: &mut Vec<u8>, ps: &Vec<Vec<u8>>)
    ensures
        final(out)@ == old(out)@ + ser_plats(ps.deep_view()),
{
    proof {
        assert(ps.deep_view().len() == ps@.len());
    }
    if ps.len() == 0 {
        out.push(93);
        proof {
            assert(out@ =~= old(out)@ + ser_plats(ps.deep_view()));
        }
    } else {
        push_str(out, &ps[0]);
        push_plats_rest(out, ps, 1);
        proof {
            crate::collection::lemma_skip_head(ps.deep_view(), 0);
            lemma_bytes_deep_view(ps@[0]);
            assert(ps.deep_view().skip(1) =~= ps.deep_view().drop_first());
            assert(out@ =~= old(out)@ + ser_plats(ps.deep_view()));
        }
    }
}

/// Appends the metadata pairs from position `i` on, then the closing brace.
fn push_pairs(out: &mut Vec<u8>, m: &Vec<(Vec<u8>, MetaVal)>, i: usize)
    requires
        i <= m.len(),
    ensures
        final(out)@ == old(out)@ + ser_pairs(meta_list_view(m@).skip(i as int)),
    decreases m.len() - i,
{
    proof {
        assert(meta_list_view(m@).len() == m@.len());
    }
    if i == m.len() {
        out.push(125);
        proof {
            assert(meta_list_view(m@).skip(i as int).len() == 0);
            assert(out@ =~= old(out)@ + ser_pairs(meta_list_view(m@).skip(i as int)));
        }
    } else {
        out.push(44);
        push_str(out, &m[i].0);
        out.push(58);
        push_val(out, &m[i].1);
        push_pairs(out, m, i + 1);
        proof {
            crate::collection::lemma_skip_head(meta_list_view(m@), i as int);
            assert(meta_list_view(m@)[i as int] == (m@[i as int].0@, m@[i as int].1@));
            assert(out@ =~= old(out)@ + ser_pairs(meta_list_view(m@).skip(i as int)));
        }
    }
}

/// Appends one record object.
fn push_record(out: &mut Vec<u8>, r: &PatchRecord)
    ensures
        final(out)@ == old(out)@ + ser_record(r@),
{
    push_obj_path(out);
    push_str(out, &r.identity);
    push_platforms_key(out);
    push_plats(out, &r.platforms);
    push_from_key(out);
    push_numnull(out, &r.start_version);
    push_until_key(out);
    push_numnull(out, &r.end_version);
    push_pairs(out, &r.metadata, 0);
    proof {
        assert(meta_list_view(r.metadata@).skip(0) =~= meta_list_view(r.metadata@));
        assert(out@ =~= old(out)@ + ser_record(r@));
    }
}

/// Appends the record array from position `i` on, then the closing bracket.
fn push_records_rest(out: &mut Vec<u8>, c: &PatchCollection, i: usize)
    requires
        i <= c.patches.len(),
    ensures
        final(out)@ == old(out)@ + ser_records_rest(c@.skip(i as int)),
    decreases c.patches.len() - i,
{
    proof {
        assert(c@.len() == c.patches@.len());
    }
    if i == c.patches.len() {
        out.push(93);
        proof {
            assert(c@.skip(i as int).len() == 0);
            assert(out@ =~= old(out)@ + ser_records_rest(c@.skip(i as int)));
        }
    } else {
        out.push(44);
        push_record(out, &c.patches[i]);
        push_records_rest(out, c, i + 1);
        proof {
            crate::collection::lemma_skip_head(c@, i as int);
            assert(out@ =~= old(out)@ + ser_records_rest(c@.skip(i as int)));
        }
    }
}

/// The canonical textual form of a collection. Re-parsing the output of a
/// well-formed collection reproduces the collection (see
/// `lemma_round_trip`).
pub fn serialize(c: &PatchCollection) -> (r: Vec<u8>)
    ensures
        r@ == ser_coll(c@),
{
    let mut out: Vec<u8> = Vec::new();
    proof {
        assert(c@.len() == c.patches@.len());
    }
    if c.patches.len() == 0 {
        out.push(91);
        out.push(93);
        proof {
            assert(out@ =~= ser_coll(c@));
        }
    } else {
        out.push(91);
        push_record(&mut out, &c.patches[0]);
        push_records_rest(&mut out, c, 1);
        proof {
            crate::collection::lemma_skip_head(c@, 0);
            assert(c@.skip(1) =~= c@.drop_first());
            assert(out@ =~= ser_coll(c@));
        }
    }
    out
}

// ---------------------------------------------------------------------------
// The executable parser. Each function returns the parsed value and the
// position after it, and means exactly what the corresponding spec parser
// says of the remaining input.
// ---------------------------------------------------------------------------
/// The bytes of `{"path":` as a value.
fn lit_obj_path_vec() -> (v: Vec<u8>)
    ensures
        v@ == lit_obj_path(),
{
    let mut v: Vec<u8> = Vec::new();
    v.push(123);
    v.push(34);
    v.push(112);
    v.push(97);
    v.push(116);
    v.push(104);
    v.push(34);
    v.push(58);
    proof {
        assert(v@ =~= lit_obj_path());
    }
    v
}

/// The bytes of `,"platforms":[` as a value.
fn lit_platforms_vec() -> (v: Vec<u8>)
    ensures
        v@ == lit_platforms(),
{
    let mut v: Vec<u8> = Vec::new();
    v.push(44);
    v.push(34);
    v.push(112);
    v.push(108);
    v.push(97);
    v.push(116);
    v.push(102);
    v.push(111);
    v.push(114);
    v.push(109);
    v.push(115);
    v.push(34);
    v.push(58);
    v.push(91);
    proof {
        assert(v@ =~= lit_platforms());
    }
    v
}

/// The bytes of `,"from":` as a value.
fn lit_from_vec() -> (v: Vec<u8>)
    ensures
        v@ == lit_from(),
{
    let mut v: Vec<u8> = Vec::new();
    v.push(44);
    v.push(34);
    v.push(102);
    v.push(114);
    v.push(111);
    v.push(109);
    v.push(34);
    v.push(58);
    proof {
        assert(v@ =~= lit_from());
    }
    v
}

/// The bytes of `,"until":` as a value.
fn lit_until_vec() -> (v: Vec<u8>)
    ensures
        v@ == lit_until(),
{
    let mut v: Vec<u8> = Vec::new();
    v.push(44);
    v.push(34);
    v.push(117);
    v.push(110);
    v.push(116);
    v.push(105);
    v.push(108);
    v.push(34);
    v.push(58);
    proof {
        assert(v@ =~= lit_until());
    }
    v
}

/// The bytes of a token: `true`, `false` or `null`.
fn lit_token_vec(which: u8) -> (v: Vec<u8>)
    requires
        which == 0 || which == 1 || which == 2,
    ensures
        which == 0 ==> v@ == lit_true(),
        which == 1 ==> v@ == lit_false(),
        which == 2 ==> v@ == lit_null(),
{
    let mut v: Vec<u8> = Vec::new();
    if which == 0 {
        v.push(116);
        v.push(114);
        v.push(117);
        v.push(101);
        proof {
            assert(v@ =~= lit_true());
        }
    } else if which == 1 {
        v.push(102);
        v.push(97);
        v.push(108);
        v.push(115);
        v.push(101);
        proof {
            assert(v@ =~= lit_false());
        }
    } else {
        v.push(110);
        v.push(117);
        v.push(108);
        v.push(108);
        proof {
            assert(v@ =~= lit_null());
        }
    }
    v
}

/// One reserved field key as a value.
fn key_vec(which: u8) -> (v: Vec<u8>)
    requires
        which < 4,
    ensures
        which == 0 ==> v@ == key_path(),
        which == 1 ==> v@ == key_platforms(),
        which == 2 ==> v@ == key_from(),
        which == 3 ==> v@ == key_until(),
{
    let mut v: Vec<u8> = Vec::new();
    if which == 0 {
        v.push(112);
        v.push(97);
        v.push(116);
        v.push(104);
        proof {
            assert(v@ =~= key_path());
        }
    } else if which == 1 {
        v.push(112);
        v.push(108);
        v.push(97);
        v.push(116);
        v.push(102);
        v.push(111);
        v.push(114);
        v.push(109);
        v.push(115);
        proof {
            assert(v@ =~= key_platforms());
        }
    } else if which == 2 {
        v.push(102);
        v.push(114);
        v.push(111);
        v.push(109);
        proof {
            assert(v@ =~= key_from());
        }
    } else {
        v.push(117);
        v.push(110);
        v.push(116);
        v.push(105);
        v.push(108);
        proof {
            assert(v@ =~= key_until());
        }
    }
    v
}

/// Puts `x` in front of a string list.
fn prepend_str(list: Vec<Vec<u8>>, x: Vec<u8>) -> (r: Vec<Vec<u8>>)
    ensures
        r.deep_view() == seq![x@] + list.deep_view(),
{
    let ghost olddv = list.deep_view();
    let ghost oldraw = list@;
    let ghost xv = x@;
    proof {
        lemma_bytes_deep_view(x);
        assert(olddv.len() == list@.len());
    }
    let mut list = list;
    list.insert(0, x);
    proof {
        assert forall|k: int| 0 <= k < list@.len() implies list.deep_view()[k] == (seq![xv]
            + olddv)[k] by {
            if k > 0 {
                assert(list@[k] == oldraw.insert(0, x)[k]);
                assert(oldraw.insert(0, x)[k] == oldraw[k - 1]);
            }
        }
        assert(list.deep_view() =~= seq![xv] + olddv);
    }
    list
}

/// Puts one key/value pair in front of a metadata list.
fn prepend_pair(list: Vec<(Vec<u8>, MetaVal)>, k: Vec<u8>, v: MetaVal) -> (r: Vec<
    (Vec<u8>, MetaVal),
>)
    ensures
        meta_list_view(r@) == seq![(k@, v@)] + meta_list_view(list@),
{
    let ghost oldv = meta_list_view(list@);
    let ghost oldraw = list@;
    let ghost kv = (k@, v@);
    let ghost pair_ghost = (k, v);
    let mut list = list;
    list.insert(0, (k, v));
    proof {
        assert forall|t: int| 0 <= t < list@.len() implies meta_list_view(list@)[t] == (seq![kv]
            + oldv)[t] by {
            if t > 0 {
                assert(list@[t] == oldraw.insert(0, pair_ghost)[t]);
                assert(oldraw.insert(0, pair_ghost)[t] == oldraw[t - 1]);
            }
        }
        assert(meta_list_view(list@) =~= seq![kv] + oldv);
    }
    list
}

/// Puts one record in front of a record list.
fn prepend_record(list: Vec<PatchRecord>, rec: PatchRecord) -> (r: Vec<PatchRecord>)
    ensures
        r@.map_values(|p: PatchRecord| p@) == seq![rec@] + list@.map_values(
            |p: PatchRecord| p@,
        ),
{
    let ghost oldv = list@.map_values(|p: PatchRecord| p@);
    let ghost oldraw = list@;
    let ghost rec_ghost = rec;
    let ghost rv = rec@;
    let mut list = list;
    list.insert(0, rec);
    proof {
        assert forall|t: int| 0 <= t < list@.len() implies list@.map_values(|p: PatchRecord| p@)[t]
            == (seq![rv] + oldv)[t] by {
            if t > 0 {
                assert(list@[t] == oldraw.insert(0, rec_ghost)[t]);
                assert(oldraw.insert(0, rec_ghost)[t] == oldraw[t - 1]);
            }
        }
        assert(list@.map_values(|p: PatchRecord| p@) =~= seq![rv] + oldv);
    }
    list
}

/// Whether a byte string is quote-free.
fn str_ok_exec(v: &Vec<u8>) -> (b: bool)
    ensures
        b == str_ok(v@),
{
    let mut i: usize = 0;
    while i < v.len()
        invariant
            i <= v.len(),
            forall|j: int| 0 <= j < i ==> v@[j] != 34u8,
        decreases v.len() - i,
    {
        if v[i] == 34 {
            return false;
        }
        i = i + 1;
    }
    true
}

/// Decides well-formedness of one record.
fn check_record_wf(r: &PatchRecord) -> (b: bool)
    ensures
        b == record_wf(r@),
{
    if !str_ok_exec(&r.identity) {
        return false;
    }
    if r.platforms.len() == 0 {
        return false;
    }
    proof {
        assert(r.platforms.deep_view().len() == r.platforms@.len());
    }
    let mut i: usize = 0;
    while i < r.platforms.len()
        invariant
            i <= r.platforms.len(),
            r.platforms.deep_view().len() == r.platforms@.len(),
            forall|j: int| 0 <= j < i ==> str_ok(#[trigger] r.platforms.deep_view()[j]),
            forall|j: int, t: int|
                0 <= j < t < i ==> r.platforms.deep_view()[j] != r.platforms.deep_view()[t],
        decreases r.platforms.len() - i,
    {
        proof {
            lemma_bytes_deep_view(r.platforms@[i as int]);
        }
        if !str_ok_exec(&r.platforms[i]) {
            proof {
                assert(r@.platforms[i as int] == r.platforms@[i as int]@);
                assert(!record_wf(r@));
            }
            return false;
        }
        let mut j: usize = 0;
        while j < i
            invariant
                j <= i < r.platforms.len(),
                r.platforms.deep_view().len() == r.platforms@.len(),
                forall|t: int|
                    0 <= t < j ==> r.platforms.deep_view()[t]
                        != r.platforms.deep_view()[i as int],
            decreases i - j,
        {
            proof {
                lemma_bytes_deep_view(r.platforms@[j as int]);
                lemma_bytes_deep_view(r.platforms@[i as int]);
            }
            if crate::collection::bytes_eq(&r.platforms[j], &r.platforms[i]) {
                proof {
                    assert(r@.platforms[j as int] == r@.platforms[i as int]);
                    assert(!record_wf(r@));
                }
                return false;
            }
            j = j + 1;
        }
        i = i + 1;
    }
    match (r.start_version, r.end_version) {
        (Some(s), Some(e)) => {
            if !(s < e) {
                return false;
            }
        },
        _ => {},
    }
    let kp = key_vec(0);
    let kl = key_vec(1);
    let kf = key_vec(2);
    let ku = key_vec(3);
    let mut m: usize = 0;
    while m < r.metadata.len()
        invariant
            m <= r.metadata.len(),
            kp@ == key_path(),
            kl@ == key_platforms(),
            kf@ == key_from(),
            ku@ == key_until(),
            forall|j: int|
                0 <= j < m ==> {
                    &&& str_ok((#[trigger] meta_list_view(r.metadata@)[j]).0)
                    &&& !crate::record::reserved_key(meta_list_view(r.metadata@)[j].0)
                    &&& crate::record::meta_view_ok(meta_list_view(r.metadata@)[j].1)
                },
        decreases r.metadata.len() - m,
    {
        proof {
            assert(meta_list_view(r.metadata@)[m as int] == (
                r.metadata@[m as int].0@,
                r.metadata@[m as int].1@,
            ));
        }
        if !str_ok_exec(&r.metadata[m].0) {
            proof {
                assert(!str_ok(r@.metadata[m as int].0));
                assert(!record_wf(r@));
            }
            return false;
        }
        if crate::collection::bytes_eq(&r.metadata[m].0, &kp) {
            proof {
                assert(crate::record::reserved_key(r@.metadata[m as int].0));
                assert(!record_wf(r@));
            }
            return false;
        }
        if crate::collection::bytes_eq(&r.metadata[m].0, &kl) {
            proof {
                assert(crate::record::reserved_key(r@.metadata[m as int].0));
                assert(!record_wf(r@));
            }
            return false;
        }
        if crate::collection::bytes_eq(&r.metadata[m].0, &kf) {
            proof {
                assert(crate::record::reserved_key(r@.metadata[m as int].0));
                assert(!record_wf(r@));
            }
            return false;
        }
        if crate::collection::bytes_eq(&r.metadata[m].0, &ku) {
            proof {
                assert(crate::record::reserved_key(r@.metadata[m as int].0));
                assert(!record_wf(r@));
            }
            return false;
        }
        match &r.metadata[m].1 {
            MetaVal::Str(sv) => {
                if !str_ok_exec(sv) {
                    proof {
                        assert(!crate::record::meta_view_ok(r@.metadata[m as int].1));
                        assert(!record_wf(r@));
                    }
                    return false;
                }
            },
            _ => {},
        }
        m = m + 1;
    }
    proof {
        assert(record_wf(r@));
    }
    true
}

/// Matches a fixed token at position `i`.
fn p_lit(s: &Vec<u8>, i: usize, lit: &Vec<u8>) -> (r: Option<usize>)
    requires
        i <= s@.len(),
    ensures
        match r {
            Some(j) => i <= j <= s@.len() && sp_lit(s@.skip(i as int), lit@) == Some(
                s@.skip(j as int),
            ),
            None => sp_lit(s@.skip(i as int), lit@) is None,
        },
{
    if s.len() - i < lit.len() {
        proof {
            assert(s@.skip(i as int).len() < lit@.len());
        }
        return None;
    }
    let mut k: usize = 0;
    while k < lit.len()
        invariant
            i <= s@.len(),
            lit.len() <= s.len() - i,
            k <= lit.len(),
            forall|t: int| 0 <= t < k ==> s@[i + t] == lit@[t],
        decreases lit.len() - k,
    {
        if s[i + k] != lit[k] {
            proof {
                assert(s@.skip(i as int).take(lit@.len() as int)[k as int] == s@[i + k]);
                assert(s@.skip(i as int).take(lit@.len() as int) != lit@);
            }
            return None;
        }
        k = k + 1;
    }
    proof {
        assert(s@.skip(i as int).take(lit@.len() as int) =~= lit@);
        assert(s@.skip(i as int).skip(lit@.len() as int) =~= s@.skip(i as int + lit@.len() as int));
    }
    Some(i + lit.len())
}

/// Parses a quoted string at position `i`.
fn p_str(s: &Vec<u8>, i: usize) -> (r: Option<(Vec<u8>, usize)>)
    requires
        i <= s@.len(),
    ensures
        match r {
            Some(p) => i < p.1 <= s@.len() && sp_str(s@.skip(i as int)) == Some(
                (p.0@, s@.skip(p.1 as int)),
            ),
            None => sp_str(s@.skip(i as int)) is None,
        },
{
    if i >= s.len() || s[i] != 34 {
        proof {
            if i < s.len() {
                assert(s@.skip(i as int)[0] == s@[i as int]);
            }
        }
        return None;
    }
    proof {
        assert(s@.skip(i as int)[0] == 34);
        assert(s@.skip(i as int).drop_first() =~= s@.skip(i as int + 1));
    }
    let mut content: Vec<u8> = Vec::new();
    let mut k: usize = i + 1;
    while k < s.len()
        invariant
            i + 1 <= k <= s@.len(),
            i < s@.len(),
            s@[i as int] == 34,
            sp_str(s@.skip(i as int)) == sp_chars(s@.skip(i as int + 1)),
            match sp_chars(s@.skip(k as int)) {
                Some(p) => sp_chars(s@.skip(i as int + 1)) == Some(
                    (content@ + p.0, p.1),
                ),
                None => sp_chars(s@.skip(i as int + 1)) is None,
            },
        decreases s@.len() - k,
    {
        let ghost prev = content@;
        if s[k] == 34 {
            proof {
                assert(s@.skip(k as int)[0] == 34);
                assert(s@.skip(k as int).len() > 0);
                assert(sp_chars(s@.skip(k as int)) == Some(
                    (Seq::<u8>::empty(), s@.skip(k as int).drop_first()),
                ));
                assert(s@.skip(k as int).drop_first() =~= s@.skip(k as int + 1));
                assert(content@ + Seq::<u8>::empty() =~= content@);
                assert(sp_chars(s@.skip(i as int + 1)) == Some(
                    (content@, s@.skip(k as int + 1)),
                ));
                assert(sp_str(s@.skip(i as int)) == Some((content@, s@.skip(k as int + 1))));
            }
            return Some((content, k + 1));
        }
        content.push(s[k]);
        k = k + 1;
        proof {
            assert(s@.skip(k as int - 1)[0] == s@[k - 1]);
            assert(s@[k - 1] != 34);
            assert(s@.skip(k as int - 1).len() > 0);
            assert(s@.skip(k as int - 1).drop_first() =~= s@.skip(k as int));
            match sp_chars(s@.skip(k as int)) {
                Some(p) => {
                    assert(sp_chars(s@.skip(k as int - 1)) == Some(
                        (seq![s@[k - 1]] + p.0, p.1),
                    ));
                    assert(prev + (seq![s@[k - 1]] + p.0) =~= content@ + p.0);
                },
                None => {},
            }
        }
    }
    proof {
        assert(s@.skip(k as int).len() == 0);
    }
    None
}

/// Parses a decimal number at position `i`.
fn p_num(s: &Vec<u8>, i: usize) -> (r: Option<(u64, usize)>)
    requires
        i <= s@.len(),
    ensures
        match r {
            Some(p) => i < p.1 <= s@.len() && sp_num(s@.skip(i as int)) == Some(
                (p.0, s@.skip(p.1 as int)),
            ),
            None => sp_num(s@.skip(i as int)) is None,
        },
{
    let mut k: usize = i;
    while k < s.len() && 48 <= s[k] && s[k] <= 57
        invariant
            i <= k <= s@.len(),
            forall|t: int| i <= t < k ==> is_digit(#[trigger] s@[t]),
        decreases s@.len() - k,
    {
        k = k + 1;
    }
    let ghost ds = s@.subrange(i as int, k as int);
    proof {
        assert(s@.skip(i as int) =~= ds + s@.skip(k as int));
        assert forall|t: int| 0 <= t < ds.len() implies is_digit(#[trigger] ds[t]) by {
            assert(ds[t] == s@[i + t]);
        }
        if k < s.len() {
            assert(s@.skip(k as int)[0] == s@[k as int]);
            assert(!is_digit(s@.skip(k as int)[0]));
        } else {
            assert(s@.skip(k as int).len() == 0);
        }
        lemma_digits_split(ds, s@.skip(k as int));
    }
    if k == i {
        proof {
            assert(ds.len() == 0);
        }
        return None;
    }
    let mut v: u64 = 0;
    let mut over: bool = false;
    let mut m: usize = i;
    while m < k
        invariant
            i <= m <= k <= s@.len(),
            ds == s@.subrange(i as int, k as int),
            forall|t: int| 0 <= t < ds.len() ==> is_digit(#[trigger] ds[t]),
            !over ==> v == val_of(s@.subrange(i as int, m as int)),
            over ==> val_of(s@.subrange(i as int, m as int)) > u64::MAX,
        decreases k - m,
    {
        proof {
            assert(is_digit(s@[m as int])) by {
                assert(ds[m - i] == s@[m as int]);
            }
        }
        let d: u64 = (s[m] - 48) as u64;
        proof {
            assert(s@.subrange(i as int, m as int + 1).drop_last() =~= s@.subrange(
                i as int,
                m as int,
            ));
            assert(s@.subrange(i as int, m as int + 1).last() == s@[m as int]);
        }
        if !over {
            if v > (u64::MAX - d) / 10 {
                over = true;
                proof {
                    let q = (u64::MAX - d) / 10;
                    assert(u64::MAX - d == q * 10 + (u64::MAX - d) % 10) by {
                        vstd::arithmetic::div_mod::lemma_fundamental_div_mod(
                            (u64::MAX - d) as int,
                            10,
                        );
                    }
                    assert(v * 10 >= (q + 1) * 10) by (nonlinear_arith)
                        requires
                            v >= q + 1,
                    ;
                    assert(val_of(s@.subrange(i as int, m as int + 1)) > u64::MAX);
                }
            } else {
                proof {
                    let q = (u64::MAX - d) / 10;
                    assert(u64::MAX - d == q * 10 + (u64::MAX - d) % 10) by {
                        vstd::arithmetic::div_mod::lemma_fundamental_div_mod(
                            (u64::MAX - d) as int,
                            10,
                        );
                    }
                    assert(v * 10 <= q * 10) by (nonlinear_arith)
                        requires
                            v <= q,
                    ;
                }
                v = v * 10 + d;
            }
        } else {
            proof {
                let pv = val_of(s@.subrange(i as int, m as int));
                assert(pv * 10 > u64::MAX * 10) by (nonlinear_arith)
                    requires
                        pv > u64::MAX,
                ;
                assert(val_of(s@.subrange(i as int, m as int + 1)) > u64::MAX);
            }
        }
        m = m + 1;
    }
    proof {
        assert(s@.subrange(i as int, k as int) == ds);
    }
    if over {
        return None;
    }
    proof {
        assert(val_of(ds) == v);
    }
    Some((v, k))
}

/// Parses a version bound (`null` or a number) at position `i`.
fn p_numnull(s: &Vec<u8>, i: usize) -> (r: Option<(Option<u64>, usize)>)
    requires
        i <= s@.len(),
    ensures
        match r {
            Some(p) => i < p.1 <= s@.len() && sp_numnull(s@.skip(i as int)) == Some(
                (p.0, s@.skip(p.1 as int)),
            ),
            None => sp_numnull(s@.skip(i as int)) is None,
        },
{
    if i < s.len() && s[i] == 110 {
        proof {
            assert(s@.skip(i as int)[0] == 110);
        }
        let nul = lit_token_vec(2);
        match p_lit(s, i, &nul) {
            Some(j) => {
                proof {
                    assert(j > i) by {
                        assert(s@.skip(j as int).len() == s@.skip(i as int).len()
                            - lit_null().len());
                    }
                }
                Some((None, j))
            },
            None => None,
        }
    } else {
        proof {
            if i < s.len() {
                assert(s@.skip(i as int)[0] == s@[i as int]);
            }
        }
        match p_num(s, i) {
            Some(p) => Some((Some(p.0), p.1)),
            None => None,
        }
    }
}

/// Parses one metadata value at position `i`.
fn p_val(s: &Vec<u8>, i: usize) -> (r: Option<(MetaVal, usize)>)
    requires
        i <= s@.len(),
    ensures
        match r {
            Some(p) => i < p.1 <= s@.len() && sp_val(s@.skip(i as int)) == Some(
                (p.0@, s@.skip(p.1 as int)),
            ),
            None => sp_val(s@.skip(i as int)) is None,
        },
{
    if i >= s.len() {
        proof {
            assert(s@.skip(i as int).len() == 0);
        }
        return None;
    }
    proof {
        assert(s@.skip(i as int)[0] == s@[i as int]);
    }
    let b = s[i];
    if b == 34 {
        match p_str(s, i) {
            Some(p) => Some((MetaVal::Str(p.0), p.1)),
            None => None,
        }
    } else if b == 116 {
        let t = lit_token_vec(0);
        match p_lit(s, i, &t) {
            Some(j) => {
                proof {
                    assert(j > i) by {
                        assert(s@.skip(j as int).len() == s@.skip(i as int).len()
                            - lit_true().len());
                    }
                }
                Some((MetaVal::Bool(true), j))
            },
            None => None,
        }
    } else if b == 102 {
        let t = lit_token_vec(1);
        match p_lit(s, i, &t) {
            Some(j) => {
                proof {
                    assert(j > i) by {
                        assert(s@.skip(j as int).len() == s@.skip(i as int).len()
                            - lit_false().len());
                    }
                }
                Some((MetaVal::Bool(false), j))
            },
            None => None,
        }
    } else if b == 110 {
        let t = lit_token_vec(2);
        match p_lit(s, i, &t) {
            Some(j) => {
                proof {
                    assert(j > i) by {
                        assert(s@.skip(j as int).len() == s@.skip(i as int).len()
                            - lit_null().len());
                    }
                }
                Some((MetaVal::Null, j))
            },
            None => None,
        }
    } else {
        match p_num(s, i) {
            Some(p) => Some((MetaVal::UInt(p.0), p.1)),
            None => None,
        }
    }
}

/// The toolchain version a byte string denotes: the whole string must be
/// decimal digits and the value must fit in a machine word.
pub open spec fn version_of(s: Seq<u8>) -> Option<u64> {
    match sp_num(s) {
        Some((n, r)) => if r.len() == 0 {
            Some(n)
        } else {
            None
        },
        None => None,
    }
}

/// Reads a toolchain version: the whole input as a decimal unsigned integer,
/// `VersionFormatError` on anything else.
pub fn parse_version(s: &Vec<u8>) -> (r: Result<u64, SyncError>)
    ensures
        match r {
            Ok(n) => version_of(s@) == Some(n),
            Err(e) => e == SyncError::VersionFormatError && version_of(s@) is None,
        },
{
    proof {
        assert(s@.skip(0) =~= s@);
    }
    match p_num(s, 0) {
        Some(p) => {
            if p.1 == s.len() {
                proof {
                    assert(s@.skip(p.1 as int).len() == 0);
                    assert(s@.skip(p.1 as int) =~= Seq::<u8>::empty());
                }
                Ok(p.0)
            } else {
                proof {
                    assert(s@.skip(p.1 as int).len() > 0);
                }
                Err(SyncError::VersionFormatError)
            }
        },
        None => Err(SyncError::VersionFormatError),
    }
}

/// Parses the platform list after its first element.
fn p_plats_rest(s: &Vec<u8>, i: usize) -> (r: Option<(Vec<Vec<u8>>, usize)>)
    requires
        i <= s@.len(),
    ensures
        match r {
            Some(p) => i < p.1 <= s@.len() && forall|fuel: nat|
                fuel >= s@.len() - i ==> sp_plats_rest(s@.skip(i as int), fuel) == Some(
                    (p.0.deep_view(), s@.skip(p.1 as int)),
                ),
            None => forall|fuel: nat|
                fuel >= s@.len() - i ==> sp_plats_rest(s@.skip(i as int), fuel) is None,
        },
    decreases s@.len() - i,
{
    if i >= s.len() {
        proof {
            assert(s@.skip(i as int).len() == 0);
        }
        return None;
    }
    proof {
        assert(s@.skip(i as int)[0] == s@[i as int]);
        assert(s@.skip(i as int).drop_first() =~= s@.skip(i as int + 1));
    }
    let b = s[i];
    if b == 93 {
        let v: Vec<Vec<u8>> = Vec::new();
        proof {
            assert(v.deep_view() =~= Seq::<Seq<u8>>::empty());
        }
        return Some((v, i + 1));
    }
    if b != 44 {
        return None;
    }
    match p_str(s, i + 1) {
        None => {
            return None;
        },
        Some(p) => {
            let pstr = p.0;
            let j = p.1;
            let ghost pv = pstr@;
            match p_plats_rest(s, j) {
                None => {
                    proof {
                        assert forall|fuel: nat| fuel >= s@.len() - i implies sp_plats_rest(
                            s@.skip(i as int),
                            fuel,
                        ) is None by {
                            assert(s@.skip(j as int).len() < s@.skip(i as int).len());
                            assert((fuel - 1) as nat >= s@.len() - j);
                            assert(sp_plats_rest(s@.skip(j as int), (fuel - 1) as nat) is None);
                        }
                    }
                    return None;
                },
                Some(q) => {
                    let ps = q.0;
                    let j2 = q.1;
                    let ghost psdv = ps.deep_view();
                    let out = prepend_str(ps, pstr);
                    proof {
                        assert forall|fuel: nat| fuel >= s@.len() - i implies sp_plats_rest(
                            s@.skip(i as int),
                            fuel,
                        ) == Some((out.deep_view(), s@.skip(j2 as int))) by {
                            assert(s@.skip(j as int).len() < s@.skip(i as int).len());
                            assert((fuel - 1) as nat >= s@.len() - j);
                            assert(sp_plats_rest(s@.skip(j as int), (fuel - 1) as nat) == Some(
                                (psdv, s@.skip(j2 as int)),
                            ));
                            assert(out.deep_view() == seq![pv] + psdv);
                        }
                    }
                    return Some((out, j2));
                },
            }
        },
    }
}

/// Parses the platform list body after the opening bracket.
fn p_plats(s: &Vec<u8>, i: usize) -> (r: Option<(Vec<Vec<u8>>, usize)>)
    requires
        i <= s@.len(),
    ensures
        match r {
            Some(p) => i < p.1 <= s@.len() && forall|fuel: nat|
                fuel >= s@.len() - i ==> sp_plats(s@.skip(i as int), fuel) == Some(
                    (p.0.deep_view(), s@.skip(p.1 as int)),
                ),
            None => forall|fuel: nat|
                fuel >= s@.len() - i ==> sp_plats(s@.skip(i as int), fuel) is None,
        },
{
    if i < s.len() && s[i] == 93 {
        proof {
            assert(s@.skip(i as int)[0] == 93);
            assert(s@.skip(i as int).drop_first() =~= s@.skip(i as int + 1));
        }
        let v: Vec<Vec<u8>> = Vec::new();
        proof {
            assert(v.deep_view() =~= Seq::<Seq<u8>>::empty());
        }
        return Some((v, i + 1));
    }
    proof {
        if i < s.len() {
            assert(s@.skip(i as int)[0] == s@[i as int]);
        }
    }
    match p_str(s, i) {
        None => {
            return None;
        },
        Some(p) => {
            let pstr = p.0;
            let j = p.1;
            let ghost pv = pstr@;
            match p_plats_rest(s, j) {
                None => {
                    proof {
                        assert forall|fuel: nat| fuel >= s@.len() - i implies sp_plats(
                            s@.skip(i as int),
                            fuel,
                        ) is None by {
                            assert(fuel >= s@.len() - j);
                        }
                    }
                    return None;
                },
                Some(q) => {
                    let ps = q.0;
                    let j2 = q.1;
                    let ghost psdv = ps.deep_view();
                    let out = prepend_str(ps, pstr);
                    proof {
                        assert forall|fuel: nat| fuel >= s@.len() - i implies sp_plats(
                            s@.skip(i as int),
                            fuel,
                        ) == Some((out.deep_view(), s@.skip(j2 as int))) by {
                            assert(fuel >= s@.len() - j);
                            assert(sp_plats_rest(s@.skip(j as int), fuel) == Some(
                                (psdv, s@.skip(j2 as int)),
                            ));
                            assert(out.deep_view() == seq![pv] + psdv);
                        }
                    }
                    return Some((out, j2));
                },
            }
        },
    }
}

/// Parses the metadata pairs and the closing brace.
fn p_pairs(s: &Vec<u8>, i: usize) -> (r: Option<(Vec<(Vec<u8>, MetaVal)>, usize)>)
    requires
        i <= s@.len(),
    ensures
        match r {
            Some(p) => i < p.1 <= s@.len() && forall|fuel: nat|
                fuel >= s@.len() - i ==> sp_pairs(s@.skip(i as int), fuel) == Some(
                    (meta_list_view(p.0@), s@.skip(p.1 as int)),
                ),
            None => forall|fuel: nat|
                fuel >= s@.len() - i ==> sp_pairs(s@.skip(i as int), fuel) is None,
        },
    decreases s@.len() - i,
{
    if i >= s.len() {
        proof {
            assert(s@.skip(i as int).len() == 0);
        }
        return None;
    }
    proof {
        assert(s@.skip(i as int)[0] == s@[i as int]);
        assert(s@.skip(i as int).drop_first() =~= s@.skip(i as int + 1));
    }
    let b = s[i];
    if b == 125 {
        let v: Vec<(Vec<u8>, MetaVal)> = Vec::new();
        proof {
            assert(meta_list_view(v@) =~= Seq::<(Seq<u8>, MetaView)>::empty());
        }
        return Some((v, i + 1));
    }
    if b != 44 {
        return None;
    }
    match p_str(s, i + 1) {
        None => {
            return None;
        },
        Some(p) => {
            let kstr = p.0;
            let j1 = p.1;
            let ghost kv = kstr@;
            if !(j1 < s.len()) {
                proof {
                    assert(s@.skip(j1 as int).len() == 0);
                }
                return None;
            }
            proof {
                assert(s@.skip(j1 as int)[0] == s@[j1 as int]);
                assert(s@.skip(j1 as int).drop_first() =~= s@.skip(j1 as int + 1));
            }
            if s[j1] != 58 {
                return None;
            }
            match p_val(s, j1 + 1) {
                None => {
                    return None;
                },
                Some(q) => {
                    let val = q.0;
                    let j2 = q.1;
                    let ghost vv = val@;
                    match p_pairs(s, j2) {
                        None => {
                            proof {
                                assert forall|fuel: nat| fuel >= s@.len() - i implies sp_pairs(
                                    s@.skip(i as int),
                                    fuel,
                                ) is None by {
                                    assert(s@.skip(j2 as int).len() < s@.skip(i as int).len());
                                    assert((fuel - 1) as nat >= s@.len() - j2);
                                    assert(sp_pairs(s@.skip(j2 as int), (fuel - 1) as nat)
                                        is None);
                                }
                            }
                            return None;
                        },
                        Some(w) => {
                            let m = w.0;
                            let j3 = w.1;
                            let ghost mv = meta_list_view(m@);
                            let out = prepend_pair(m, kstr, val);
                            proof {
                                assert forall|fuel: nat| fuel >= s@.len() - i implies sp_pairs(
                                    s@.skip(i as int),
                                    fuel,
                                ) == Some((meta_list_view(out@), s@.skip(j3 as int))) by {
                                    assert(s@.skip(j2 as int).len() < s@.skip(i as int).len());
                                    assert((fuel - 1) as nat >= s@.len() - j2);
                                    assert(sp_pairs(s@.skip(j2 as int), (fuel - 1) as nat) == Some(
                                        (mv, s@.skip(j3 as int)),
                                    ));
                                    assert(meta_list_view(out@) == seq![(kv, vv)] + mv);
                                }
                            }
                            return Some((out, j3));
                        },
                    }
                },
            }
        },
    }
}

/// Parses one record object at position `i`; only a well-formed record
/// parses.
fn p_record(s: &Vec<u8>, i: usize) -> (r: Option<(PatchRecord, usize)>)
    requires
        i <= s@.len(),
    ensures
        match r {
            Some(p) => {
                &&& i < p.1 <= s@.len()
                &&& record_wf(p.0@)
                &&& forall|fuel: nat|
                    fuel >= s@.len() - i ==> sp_record(s@.skip(i as int), fuel) == Some(
                        (p.0@, s@.skip(p.1 as int)),
                    )
            },
            None => forall|fuel: nat|
                fuel >= s@.len() - i ==> sp_record(s@.skip(i as int), fuel) is None,
        },
{
    let lp = lit_obj_path_vec();
    let j0 = match p_lit(s, i, &lp) {
        Some(j) => j,
        None => {
            return None;
        },
    };
    let (ident, j1) = match p_str(s, j0) {
        Some(p) => p,
        None => {
            return None;
        },
    };
    let ll = lit_platforms_vec();
    let j2 = match p_lit(s, j1, &ll) {
        Some(j) => j,
        None => {
            return None;
        },
    };
    let (plats, j3) = match p_plats(s, j2) {
        Some(p) => p,
        None => {
            proof {
                assert forall|fuel: nat| fuel >= s@.len() - i implies sp_record(
                    s@.skip(i as int),
                    fuel,
                ) is None by {
                    assert(fuel >= s@.len() - j2);
                }
            }
            return None;
        },
    };
    let lf = lit_from_vec();
    let j4 = match p_lit(s, j3, &lf) {
        Some(j) => j,
        None => {
            proof {
                assert forall|fuel: nat| fuel >= s@.len() - i implies sp_record(
                    s@.skip(i as int),
                    fuel,
                ) is None by {
                    assert(fuel >= s@.len() - j2);
                }
            }
            return None;
        },
    };
    let (sv, j5) = match p_numnull(s, j4) {
        Some(p) => p,
        None => {
            proof {
                assert forall|fuel: nat| fuel >= s@.len() - i implies sp_record(
                    s@.skip(i as int),
                    fuel,
                ) is None by {
                    assert(fuel >= s@.len() - j2);
                }
            }
            return None;
        },
    };
    let lu = lit_until_vec();
    let j6 = match p_lit(s, j5, &lu) {
        Some(j) => j,
        None => {
            proof {
                assert forall|fuel: nat| fuel >= s@.len() - i implies sp_record(
                    s@.skip(i as int),
                    fuel,
                ) is None by {
                    assert(fuel >= s@.len() - j2);
                }
            }
            return None;
        },
    };
    let (ev, j7) = match p_numnull(s, j6) {
        Some(p) => p,
        None => {
            proof {
                assert forall|fuel: nat| fuel >= s@.len() - i implies sp_record(
                    s@.skip(i as int),
                    fuel,
                ) is None by {
                    assert(fuel >= s@.len() - j2);
                }
            }
            return None;
        },
    };
    let (meta, j8) = match p_pairs(s, j7) {
        Some(p) => p,
        None => {
            proof {
                assert forall|fuel: nat| fuel >= s@.len() - i implies sp_record(
                    s@.skip(i as int),
                    fuel,
                ) is None by {
                    assert(fuel >= s@.len() - j2);
                    assert(fuel >= s@.len() - j7);
                }
            }
            return None;
        },
    };
    let rec = PatchRecord {
        identity: ident,
        platforms: plats,
        start_version: sv,
        end_version: ev,
        metadata: meta,
    };
    let wf = check_record_wf(&rec);
    proof {
        assert forall|fuel: nat| fuel >= s@.len() - i implies sp_record(s@.skip(i as int), fuel)
            == (if record_wf(rec@) {
            Some((rec@, s@.skip(j8 as int)))
        } else {
            None::<(RecordView, Seq<u8>)>
        }) by {
            assert(fuel >= s@.len() - j2);
            assert(fuel >= s@.len() - j7);
            let rv = RecordView {
                identity: rec@.identity,
                platforms: rec@.platforms,
                start_version: rec@.start_version,
                end_version: rec@.end_version,
                metadata: rec@.metadata,
            };
            assert(rv =~= rec@);
        }
    }
    if !wf {
        return None;
    }
    Some((rec, j8))
}

/// Parses the record array after its first record.
fn p_records_rest(s: &Vec<u8>, i: usize) -> (r: Option<(Vec<PatchRecord>, usize)>)
    requires
        i <= s@.len(),
    ensures
        match r {
            Some(p) => {
                &&& i < p.1 <= s@.len()
                &&& forall|t: int| 0 <= t < p.0@.len() ==> record_wf((#[trigger] p.0@[t])@)
                &&& forall|fuel: nat|
                    fuel >= s@.len() - i ==> sp_records_rest(s@.skip(i as int), fuel) == Some(
                        (p.0@.map_values(|x: PatchRecord| x@), s@.skip(p.1 as int)),
                    )
            },
            None => forall|fuel: nat|
                fuel >= s@.len() - i ==> sp_records_rest(s@.skip(i as int), fuel) is None,
        },
    decreases s@.len() - i,
{
    if i >= s.len() {
        proof {
            assert(s@.skip(i as int).len() == 0);
        }
        return None;
    }
    proof {
        assert(s@.skip(i as int)[0] == s@[i as int]);
        assert(s@.skip(i as int).drop_first() =~= s@.skip(i as int + 1));
    }
    let b = s[i];
    if b == 93 {
        let v: Vec<PatchRecord> = Vec::new();
        proof {
            assert(v@.map_values(|x: PatchRecord| x@) =~= Seq::<RecordView>::empty());
        }
        return Some((v, i + 1));
    }
    if b != 44 {
        return None;
    }
    match p_record(s, i + 1) {
        None => {
            proof {
                assert forall|fuel: nat| fuel >= s@.len() - i implies sp_records_rest(
                    s@.skip(i as int),
                    fuel,
                ) is None by {
                    assert(fuel >= s@.len() - (i + 1));
                }
            }
            return None;
        },
        Some(p) => {
            let rec = p.0;
            let j = p.1;
            let ghost rv = rec@;
            match p_records_rest(s, j) {
                None => {
                    proof {
                        assert forall|fuel: nat| fuel >= s@.len() - i implies sp_records_rest(
                            s@.skip(i as int),
                            fuel,
                        ) is None by {
                            assert(fuel >= s@.len() - (i + 1));
                            assert(s@.skip(j as int).len() < s@.skip(i as int).len());
                            assert((fuel - 1) as nat >= s@.len() - j);
                            assert(sp_records_rest(s@.skip(j as int), (fuel - 1) as nat) is None);
                        }
                    }
                    return None;
                },
                Some(q) => {
                    let recs = q.0;
                    let j2 = q.1;
                    let ghost recsv = recs@;
                    let ghost rvs = recs@.map_values(|x: PatchRecord| x@);
                    let out = prepend_record(recs, rec);
                    proof {
                        assert forall|fuel: nat| fuel >= s@.len() - i implies sp_records_rest(
                            s@.skip(i as int),
                            fuel,
                        ) == Some((out@.map_values(|x: PatchRecord| x@), s@.skip(j2 as int))) by {
                            assert(fuel >= s@.len() - (i + 1));
                            assert(s@.skip(j as int).len() < s@.skip(i as int).len());
                            assert((fuel - 1) as nat >= s@.len() - j);
                            assert(sp_records_rest(s@.skip(j as int), (fuel - 1) as nat) == Some(
                                (rvs, s@.skip(j2 as int)),
                            ));
                            assert(out@.map_values(|x: PatchRecord| x@) == seq![rv] + rvs);
                        }
                        assert forall|t: int| 0 <= t < out@.len() implies record_wf(
                            (#[trigger] out@[t])@,
                        ) by {
                            assert(out@.map_values(|x: PatchRecord| x@) == seq![rv] + rvs);
                            assert(out@.map_values(|x: PatchRecord| x@).len() == out@.len());
                            assert(out@.map_values(|x: PatchRecord| x@)[t] == out@[t]@);
                            if t > 0 {
                                assert(rvs.len() == recsv.len());
                                assert(rvs[t - 1] == recsv.map_values(|x: PatchRecord| x@)[t - 1]);
                                assert(recsv.map_values(|x: PatchRecord| x@)[t - 1] == recsv[t
                                    - 1]@);
                                assert(record_wf(recsv[t - 1]@));
                            }
                        }
                    }
                    return Some((out, j2));
                },
            }
        },
    }
}

/// Whether everything from position `i` on is whitespace.
fn check_all_ws(s: &Vec<u8>, i: usize) -> (b: bool)
    requires
        i <= s@.len(),
    ensures
        b == all_ws(s@.skip(i as int)),
{
    let mut k: usize = i;
    while k < s.len()
        invariant
            i <= k <= s@.len(),
            forall|t: int| i <= t < k ==> is_ws(#[trigger] s@[t]),
        decreases s@.len() - k,
    {
        let c = s[k];
        if !(c == 32 || c == 9 || c == 10 || c == 13) {
            proof {
                assert(s@.skip(i as int)[k - i] == s@[k as int]);
            }
            return false;
        }
        k = k + 1;
    }
    proof {
        assert forall|t: int| 0 <= t < s@.skip(i as int).len() implies is_ws(
            #[trigger] s@.skip(i as int)[t],
        ) by {
            assert(s@.skip(i as int)[t] == s@[i + t]);
        }
    }
    true
}

/// Whether no two records of the list share an identity.
fn check_unique(v: &Vec<PatchRecord>) -> (b: bool)
    ensures
        b == unique_ids(v@.map_values(|x: PatchRecord| x@)),
{
    let ghost mv = v@.map_values(|x: PatchRecord| x@);
    let mut i: usize = 1;
    while i < v.len()
        invariant
            1 <= i || v@.len() == 0,
            i <= v@.len() || v@.len() == 0,
            mv == v@.map_values(|x: PatchRecord| x@),
            mv.len() == v@.len(),
            forall|a: int, b2: int| 0 <= a < b2 < i ==> mv[a].identity != mv[b2].identity,
        decreases v@.len() - i,
    {
        let mut j: usize = 0;
        while j < i
            invariant
                j <= i < v@.len(),
                mv == v@.map_values(|x: PatchRecord| x@),
                mv.len() == v@.len(),
                forall|t: int| 0 <= t < j ==> mv[t].identity != mv[i as int].identity,
            decreases i - j,
        {
            if crate::collection::bytes_eq(&v[j].identity, &v[i].identity) {
                proof {
                    assert(mv[j as int].identity == mv[i as int].identity);
                }
                return false;
            }
            j = j + 1;
        }
        i = i + 1;
    }
    true
}

/// Parses a manifest document. Succeeds exactly on the canonical form the
/// spec-level parser accepts, returning a well-formed collection in manifest
/// order; fails with `ParseError` on anything else, a repeated identity
/// included.
pub fn parse(s: &Vec<u8>) -> (r: Result<PatchCollection, SyncError>)
    ensures
        match r {
            Ok(c) => sp_coll(s@) == Some(c@) && coll_wf(c@),
            Err(e) => e == SyncError::ParseError && sp_coll(s@) is None,
        },
{
    if s.len() == 0 || s[0] != 91 {
        return Err(SyncError::ParseError);
    }
    proof {
        assert(s@.drop_first() =~= s@.skip(1));
    }
    if s.len() >= 2 && s[1] == 93 {
        proof {
            assert(s@.skip(1)[0] == s@[1]);
            assert(s@.skip(1).drop_first() =~= s@.skip(2));
        }
        if check_all_ws(s, 2) {
            let c = PatchCollection::empty();
            proof {
                assert(coll_wf(c@));
            }
            return Ok(c);
        } else {
            return Err(SyncError::ParseError);
        }
    }
    proof {
        if s@.len() >= 2 {
            assert(s@.skip(1)[0] == s@[1]);
        }
        assert(!(s@.skip(1).len() > 0 && s@.skip(1)[0] == 93));
    }
    let (rec0, j) = match p_record(s, 1) {
        Some(p) => p,
        None => {
            proof {
                assert(s@.len() as nat >= s@.len() - 1);
            }
            return Err(SyncError::ParseError);
        },
    };
    let (recs, j2) = match p_records_rest(s, j) {
        Some(p) => p,
        None => {
            proof {
                assert(s@.len() as nat >= s@.len() - j);
            }
            return Err(SyncError::ParseError);
        },
    };
    let ghost rv0 = rec0@;
    let ghost rvs = recs@.map_values(|x: PatchRecord| x@);
    let full = prepend_record(recs, rec0);
    let ws_ok = check_all_ws(s, j2);
    let uniq = check_unique(&full);
    proof {
        assert(s@.len() as nat >= s@.len() - 1);
        assert(s@.len() as nat >= s@.len() - j);
        assert(sp_record(s@.skip(1), s@.len() as nat) == Some((rv0, s@.skip(j as int))));
        assert(sp_records_rest(s@.skip(j as int), s@.len() as nat) == Some(
            (rvs, s@.skip(j2 as int)),
        ));
        assert(full@.map_values(|x: PatchRecord| x@) == seq![rv0] + rvs);
    }
    if ws_ok && uniq {
        let c = PatchCollection { patches: full };
        proof {
            assert(c@ == seq![rv0] + rvs);
            assert(coll_wf(c@)) by {
                assert forall|t: int| 0 <= t < c@.len() implies record_wf(#[trigger] c@[t]) by {
                    if t > 0 {
                        assert(c@[t] == rvs[t - 1]);
                    }
                }
            }
        }
        Ok(c)
    } else {
        Err(SyncError::ParseError)
    }
}

} // verus!
