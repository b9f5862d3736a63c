//! The wire format of jobs and envelopes.
//!
//! A job or an envelope is written as one object with a fixed field order;
//! optional metadata fields are omitted when absent. The printer emits the
//! canonical form and the parser accepts exactly the canonical form, so the
//! codec is lossless: parsing an encoding yields the encoded value, and
//! whatever parses is the canonical encoding of its result.

use vstd::prelude::*;

use crate::common::JobId;
use crate::gxf::{
    GxfEnvelope, GxfEnvelopeView,
    GxfError, GxfJob, GxfJobView, GxfMetadata, GxfMetadataView, PrecisionLevel,
};
use crate::wire::{
    check_wire_str, enc_pairs, enc_string, enc_u8_list, expect_lit, is_digit, pairs_view,
    parse_pairs, parse_u64, parse_u8_list, push_lit, push_pairs, push_string, push_u64,
    push_u8_list, spec_dec, spec_lit_at, spec_num_at, spec_pairs_at, spec_u8_list_at, str_bytes,
    wire_pairs_ok, wire_str_ok, lemma_seq_join, lemma_seq_split, lemma_lit_differs,
};

verus! {

/// The wire spelling of a precision level.
pub open spec fn precision_str(p: PrecisionLevel) -> Seq<char> {
    match p {
        PrecisionLevel::BF16 => "BF16"@,
        PrecisionLevel::FP8 => "FP8"@,
        PrecisionLevel::E5M2 => "E5M2"@,
        PrecisionLevel::INT8 => "INT8"@,
    }
}

/// The wire spelling of a precision level between quotes.
pub open spec fn precision_quoted(p: PrecisionLevel) -> Seq<char> {
    match p {
        PrecisionLevel::BF16 => "\"BF16\""@,
        PrecisionLevel::FP8 => "\"FP8\""@,
        PrecisionLevel::E5M2 => "\"E5M2\""@,
        PrecisionLevel::INT8 => "\"INT8\""@,
    }
}

/// The quoted spelling of a precision level is the encoding of its bare
/// spelling, which is fit for the wire.
pub proof fn lemma_precision_tokens(p: PrecisionLevel)
    ensures
        wire_str_ok(precision_str(p)),
        enc_string(precision_str(p)) == str_bytes(precision_quoted(p)),
{
    reveal_strlit("BF16");
    reveal_strlit("FP8");
    reveal_strlit("E5M2");
    reveal_strlit("INT8");
    reveal_strlit("\"BF16\"");
    reveal_strlit("\"FP8\"");
    reveal_strlit("\"E5M2\"");
    reveal_strlit("\"INT8\"");
    match p {
        PrecisionLevel::BF16 => {
            crate::wire::lemma_esc_plain(precision_str(p));
            assert(enc_string(precision_str(p)) =~= str_bytes(precision_quoted(p)));
        },
        PrecisionLevel::FP8 => {
            crate::wire::lemma_esc_plain(precision_str(p));
            assert(enc_string(precision_str(p)) =~= str_bytes(precision_quoted(p)));
        },
        PrecisionLevel::E5M2 => {
            crate::wire::lemma_esc_plain(precision_str(p));
            assert(enc_string(precision_str(p)) =~= str_bytes(precision_quoted(p)));
        },
        PrecisionLevel::INT8 => {
            crate::wire::lemma_esc_plain(precision_str(p));
            assert(enc_string(precision_str(p)) =~= str_bytes(precision_quoted(p)));
        },
    }
}

/// At one position at most one quoted precision spelling can stand: they
/// all differ in their second character.
pub proof fn lemma_precision_unique(s: Seq<u8>, i: int, p: PrecisionLevel, q: PrecisionLevel)
    requires
        spec_lit_at(s, i, precision_quoted(p)),
        spec_lit_at(s, i, precision_quoted(q)),
    ensures
        p == q,
{
    reveal_strlit("\"BF16\"");
    reveal_strlit("\"FP8\"");
    reveal_strlit("\"E5M2\"");
    reveal_strlit("\"INT8\"");
    if p != q {
        let a = precision_quoted(p);
        let b = precision_quoted(q);
        assert(s[i + 1] == s.subrange(i, i + a.len())[1]);
        assert(s[i + 1] == s.subrange(i, i + b.len())[1]);
        assert(str_bytes(a)[1] == a[1] as u8);
        assert(str_bytes(b)[1] == b[1] as u8);
        assert(false);
    }
}

/// Reads a quoted precision spelling at position `i`.
pub fn parse_precision(s: &[u8], i: usize) -> (r: Option<(PrecisionLevel, usize)>)
    requires
        i <= s@.len(),
    ensures
        r matches Some(p) ==> spec_lit_at(s@, i as int, precision_quoted(p.0)) && p.1 == i
            + precision_quoted(p.0).len(),
        forall|p: PrecisionLevel|
            spec_lit_at(s@, i as int, precision_quoted(p)) ==> (r matches Some(q) && q.0 == p
                && q.1 == i + precision_quoted(p).len()),
{
    proof {
        reveal_strlit("\"BF16\"");
        reveal_strlit("\"FP8\"");
        reveal_strlit("\"E5M2\"");
        reveal_strlit("\"INT8\"");
        assert(vstd::string::is_ascii("\"BF16\""));
        assert(vstd::string::is_ascii("\"FP8\""));
        assert(vstd::string::is_ascii("\"E5M2\""));
        assert(vstd::string::is_ascii("\"INT8\""));
    }
    if let Some(j) = expect_lit(s, i, "\"BF16\"") {
        proof {
            assert forall|p: PrecisionLevel|
                spec_lit_at(s@, i as int, precision_quoted(p)) implies p
                == PrecisionLevel::BF16 by {
                lemma_precision_unique(s@, i as int, p, PrecisionLevel::BF16);
            }
        }
        return Some((PrecisionLevel::BF16, j));
    }
    if let Some(j) = expect_lit(s, i, "\"FP8\"") {
        proof {
            assert forall|p: PrecisionLevel|
                spec_lit_at(s@, i as int, precision_quoted(p)) implies p == PrecisionLevel::FP8 by {
                lemma_precision_unique(s@, i as int, p, PrecisionLevel::FP8);
            }
        }
        return Some((PrecisionLevel::FP8, j));
    }
    if let Some(j) = expect_lit(s, i, "\"E5M2\"") {
        proof {
            assert forall|p: PrecisionLevel|
                spec_lit_at(s@, i as int, precision_quoted(p)) implies p
                == PrecisionLevel::E5M2 by {
                lemma_precision_unique(s@, i as int, p, PrecisionLevel::E5M2);
            }
        }
        return Some((PrecisionLevel::E5M2, j));
    }
    if let Some(j) = expect_lit(s, i, "\"INT8\"") {
        proof {
            assert forall|p: PrecisionLevel|
                spec_lit_at(s@, i as int, precision_quoted(p)) implies p
                == PrecisionLevel::INT8 by {
                lemma_precision_unique(s@, i as int, p, PrecisionLevel::INT8);
            }
        }
        return Some((PrecisionLevel::INT8, j));
    }
    proof {
        assert forall|p: PrecisionLevel| !spec_lit_at(s@, i as int, precision_quoted(p)) by {
            match p {
                PrecisionLevel::BF16 => {},
                PrecisionLevel::FP8 => {},
                PrecisionLevel::E5M2 => {},
                PrecisionLevel::INT8 => {},
            }
        }
    }
    None
}

/// Appends the quoted spelling of a precision level.
pub fn push_precision(out: &mut Vec<u8>, p: PrecisionLevel)
    ensures
        final(out)@ == old(out)@ + enc_string(precision_str(p)),
{
    proof {
        reveal_strlit("\"BF16\"");
        reveal_strlit("\"FP8\"");
        reveal_strlit("\"E5M2\"");
        reveal_strlit("\"INT8\"");
        assert(vstd::string::is_ascii("\"BF16\""));
        assert(vstd::string::is_ascii("\"FP8\""));
        assert(vstd::string::is_ascii("\"E5M2\""));
        assert(vstd::string::is_ascii("\"INT8\""));
        lemma_precision_tokens(p);
    }
    match p {
        PrecisionLevel::BF16 => push_lit(out, "\"BF16\""),
        PrecisionLevel::FP8 => push_lit(out, "\"FP8\""),
        PrecisionLevel::E5M2 => push_lit(out, "\"E5M2\""),
        PrecisionLevel::INT8 => push_lit(out, "\"INT8\""),
    }
}

/// Whether a job can stand on the wire: its parameters are wire-safe
/// strings. (Its identifier is sixteen raw bytes by construction.)
pub open spec fn wire_job_ok(j: GxfJobView) -> bool {
    &&& j.job_id.len() == 16
    &&& wire_pairs_ok(j.parameters)
}

/// The canonical encoding of a job.
pub open spec fn enc_job(j: GxfJobView) -> Seq<u8> {
    str_bytes("{\"job_id\":"@) + enc_u8_list(j.job_id) + str_bytes(",\"precision\":"@)
        + enc_string(precision_str(j.precision)) + str_bytes(",\"kv_cache_seq_len\":"@) + spec_dec(
        j.kv_cache_seq_len as nat,
    ) + str_bytes(",\"parameters\":"@) + enc_pairs(j.parameters) + str_bytes("}"@)
}

/// The positions of the fields inside an encoded job.
pub open spec fn job_fields_at(s: Seq<u8>, jv: GxfJobView) -> bool {
    let o1 = "{\"job_id\":"@.len() as int;
    let o2 = o1 + enc_u8_list(jv.job_id).len();
    let o3 = o2 + ",\"precision\":"@.len();
    let o4 = o3 + precision_quoted(jv.precision).len();
    let o5 = o4 + ",\"kv_cache_seq_len\":"@.len();
    let o6 = o5 + spec_dec(jv.kv_cache_seq_len as nat).len();
    let o7 = o6 + ",\"parameters\":"@.len();
    let o8 = o7 + enc_pairs(jv.parameters).len();
    &&& spec_lit_at(s, 0, "{\"job_id\":"@)
    &&& spec_u8_list_at(s, o1, jv.job_id)
    &&& spec_lit_at(s, o2, ",\"precision\":"@)
    &&& spec_lit_at(s, o3, precision_quoted(jv.precision))
    &&& spec_lit_at(s, o4, ",\"kv_cache_seq_len\":"@)
    &&& spec_num_at(s, o5, jv.kv_cache_seq_len as nat)
    &&& spec_lit_at(s, o6, ",\"parameters\":"@)
    &&& spec_pairs_at(s, o7, jv.parameters)
    &&& spec_lit_at(s, o8, "}"@)
    &&& o8 + 1 == s.len()
}

/// Shape facts about the job field literals.
proof fn lemma_job_literals()
    ensures
        vstd::string::is_ascii("{\"job_id\":"),
        vstd::string::is_ascii(",\"precision\":"),
        vstd::string::is_ascii(",\"kv_cache_seq_len\":"),
        vstd::string::is_ascii(",\"parameters\":"),
        vstd::string::is_ascii("}"),
        ",\"parameters\":"@.len() > 0 && (",\"parameters\":"@[0] as u8) == 0x2c,
        "}"@.len() == 1 && ("}"@[0] as u8) == 0x7d,
        "{\"job_id\":"@.len() > 0,
{
    reveal_strlit("{\"job_id\":");
    reveal_strlit(",\"precision\":");
    reveal_strlit(",\"kv_cache_seq_len\":");
    reveal_strlit(",\"parameters\":");
    reveal_strlit("}");
}

/// An encoded job splits into its fields at the expected positions.
proof fn lemma_job_fields(s: Seq<u8>, jv: GxfJobView)
    requires
        wire_job_ok(jv),
        s == enc_job(jv),
    ensures
        job_fields_at(s, jv),
{
    lemma_job_literals();
    lemma_precision_tokens(jv.precision);
    crate::wire::lemma_dec_props(jv.kv_cache_seq_len as nat);
    let p1 = str_bytes("{\"job_id\":"@);
    let p2 = enc_u8_list(jv.job_id);
    let p3 = str_bytes(",\"precision\":"@);
    let p4 = enc_string(precision_str(jv.precision));
    let p5 = str_bytes(",\"kv_cache_seq_len\":"@);
    let p6 = spec_dec(jv.kv_cache_seq_len as nat);
    let p7 = str_bytes(",\"parameters\":"@);
    let p8 = enc_pairs(jv.parameters);
    let p9 = str_bytes("}"@);
    assert(s =~= p1 + (p2 + (p3 + (p4 + (p5 + (p6 + (p7 + (p8 + p9))))))));
    assert(s.subrange(0, s.len() as int) =~= s);
    lemma_seq_split(s, 0, p1, p2 + (p3 + (p4 + (p5 + (p6 + (p7 + (p8 + p9)))))));
    let o1: int = p1.len() as int;
    lemma_seq_split(s, o1, p2, p3 + (p4 + (p5 + (p6 + (p7 + (p8 + p9))))));
    let o2: int = o1 + p2.len() as int;
    lemma_seq_split(s, o2, p3, p4 + (p5 + (p6 + (p7 + (p8 + p9)))));
    let o3: int = o2 + p3.len() as int;
    lemma_seq_split(s, o3, p4, p5 + (p6 + (p7 + (p8 + p9))));
    let o4: int = o3 + p4.len() as int;
    lemma_seq_split(s, o4, p5, p6 + (p7 + (p8 + p9)));
    let o5: int = o4 + p5.len() as int;
    lemma_seq_split(s, o5, p6, p7 + (p8 + p9));
    let o6: int = o5 + p6.len() as int;
    lemma_seq_split(s, o6, p7, p8 + p9);
    let o7: int = o6 + p7.len() as int;
    lemma_seq_split(s, o7, p8, p9);
    let o8: int = o7 + p8.len() as int;
    // the byte after the sequence length number is the comma of the next
    // field literal, which is no digit
    assert(s[o6] == s.subrange(o6, o6 + p7.len())[0]);
    assert(s[o6] == ",\"parameters\":"@[0] as u8);
    assert(!is_digit(0x2cu8));
    assert(spec_num_at(s, o5, jv.kv_cache_seq_len as nat));
    // the quoted precision literal stands where the encoded string does
    assert(spec_lit_at(s, o3, precision_quoted(jv.precision)));
}

/// Writes a job in the wire format. Fails with a serialization error
/// exactly when some parameter string cannot stand on the wire.
pub fn job_to_wire(job: &GxfJob) -> (r: Result<Vec<u8>, GxfError>)
    ensures
        r matches Ok(v) ==> wire_job_ok(job@) && v@ == enc_job(job@),
        r matches Err(e) ==> e == GxfError::Serialization && !wire_job_ok(job@),
{
    let n = job.parameters.len();
    let mut t: usize = 0;
    while t < n
        invariant
            n == job.parameters.len(),
            0 <= t <= n,
            forall|u: int|
                0 <= u < t ==> crate::wire::wire_pair_ok(#[trigger] pairs_view(job.parameters@)[u]),
        decreases n - t,
    {
        proof {
            assert(pairs_view(job.parameters@)[t as int] == (
                job.parameters@[t as int].0@,
                job.parameters@[t as int].1@,
            ));
        }
        if !check_wire_str(job.parameters[t].0.as_str()) {
            return Err(GxfError::Serialization);
        }
        if !check_wire_str(job.parameters[t].1.as_str()) {
            return Err(GxfError::Serialization);
        }
        t += 1;
    }
    proof {
        lemma_job_literals();
        assert(wire_pairs_ok(job@.parameters));
        assert(job@.job_id.len() == 16);
    }
    let mut out: Vec<u8> = Vec::new();
    push_lit(&mut out, "{\"job_id\":");
    let id_bytes = job_id_bytes(&job.job_id);
    push_u8_list(&mut out, &id_bytes);
    push_lit(&mut out, ",\"precision\":");
    push_precision(&mut out, job.precision);
    push_lit(&mut out, ",\"kv_cache_seq_len\":");
    push_u64(&mut out, job.kv_cache_seq_len as u64);
    push_lit(&mut out, ",\"parameters\":");
    push_pairs(&mut out, &job.parameters);
    push_lit(&mut out, "}");
    proof {
        assert(out@ =~= enc_job(job@));
    }
    Ok(out)
}

/// The sixteen identifier bytes as a vector.
fn job_id_bytes(id: &JobId) -> (r: Vec<u8>)
    ensures
        r@ == id.0@,
{
    let mut v: Vec<u8> = Vec::new();
    let mut k: usize = 0;
    while k < 16
        invariant
            0 <= k <= 16,
            v@ =~= id.0@.subrange(0, k as int),
        decreases 16 - k,
    {
        v.push(id.0[k]);
        proof {
            assert(v@ =~= id.0@.subrange(0, k + 1));
        }
        k += 1;
    }
    proof {
        assert(id.0@.subrange(0, 16) =~= id.0@);
    }
    v
}

/// Reads a job from the wire format. The whole input must be one canonical
/// job encoding.
pub fn job_from_wire(s: &[u8]) -> (r: Result<GxfJob, GxfError>)
    ensures
        r matches Ok(job) ==> wire_job_ok(job@) && s@ == enc_job(job@),
        r matches Err(e) ==> e == GxfError::Deserialization,
        forall|jv: GxfJobView|
            wire_job_ok(jv) && s@ == enc_job(jv) ==> (r matches Ok(job) && job@ == jv),
{
    proof {
        lemma_job_literals();
        assert forall|jv: GxfJobView|
            wire_job_ok(jv) && s@ == enc_job(jv) implies job_fields_at(s@, jv) by {
            lemma_job_fields(s@, jv);
        }
    }
    let i0: usize = 0;
    let j1 = match expect_lit(s, i0, "{\"job_id\":") {
        Some(j) => j,
        None => {
            return Err(GxfError::Deserialization);
        },
    };
    let (id_vec, j2) = match parse_u8_list(s, j1) {
        Some(p) => p,
        None => {
            return Err(GxfError::Deserialization);
        },
    };
    if id_vec.len() != 16 {
        return Err(GxfError::Deserialization);
    }
    let j3 = match expect_lit(s, j2, ",\"precision\":") {
        Some(j) => j,
        None => {
            return Err(GxfError::Deserialization);
        },
    };
    let (precision, j4) = match parse_precision(s, j3) {
        Some(p) => p,
        None => {
            return Err(GxfError::Deserialization);
        },
    };
    let j5 = match expect_lit(s, j4, ",\"kv_cache_seq_len\":") {
        Some(j) => j,
        None => {
            return Err(GxfError::Deserialization);
        },
    };
    proof {
        assert forall|jv: GxfJobView|
            wire_job_ok(jv) && s@ == enc_job(jv) implies spec_num_at(
            s@,
            j5 as int,
            (jv.kv_cache_seq_len as u64) as nat,
        ) by {
            assert(spec_num_at(s@, j5 as int, jv.kv_cache_seq_len as nat));
        }
    }
    let (kv64, j6) = match parse_u64(s, j5) {
        Some(p) => p,
        None => {
            return Err(GxfError::Deserialization);
        },
    };
    if kv64 > 0xFFFF_FFFFu64 {
        return Err(GxfError::Deserialization);
    }
    let kv: u32 = kv64 as u32;
    let j7 = match expect_lit(s, j6, ",\"parameters\":") {
        Some(j) => j,
        None => {
            return Err(GxfError::Deserialization);
        },
    };
    let (params, j8) = match parse_pairs(s, j7) {
        Some(p) => p,
        None => {
            return Err(GxfError::Deserialization);
        },
    };
    let j9 = match expect_lit(s, j8, "}") {
        Some(j) => j,
        None => {
            return Err(GxfError::Deserialization);
        },
    };
    if j9 != s.len() {
        return Err(GxfError::Deserialization);
    }
    let id_arr: [u8; 16] = [
        id_vec[0],
        id_vec[1],
        id_vec[2],
        id_vec[3],
        id_vec[4],
        id_vec[5],
        id_vec[6],
        id_vec[7],
        id_vec[8],
        id_vec[9],
        id_vec[10],
        id_vec[11],
        id_vec[12],
        id_vec[13],
        id_vec[14],
        id_vec[15],
    ];
    let job = GxfJob {
        job_id: JobId(id_arr),
        precision,
        kv_cache_seq_len: kv,
        parameters: params,
    };
    proof {
        assert(id_arr@ =~= id_vec@);
        // soundness: the consumed pieces joined are the whole input, which
        // is then the canonical encoding of the result
        lemma_seq_join(s@, 0, j1 as int, j2 as int);
        lemma_seq_join(s@, 0, j2 as int, j3 as int);
        lemma_seq_join(s@, 0, j3 as int, j4 as int);
        lemma_seq_join(s@, 0, j4 as int, j5 as int);
        lemma_seq_join(s@, 0, j5 as int, j6 as int);
        lemma_seq_join(s@, 0, j6 as int, j7 as int);
        lemma_seq_join(s@, 0, j7 as int, j8 as int);
        lemma_seq_join(s@, 0, j8 as int, j9 as int);
        lemma_precision_tokens(precision);
        assert(s@.subrange(0, j9 as int) =~= s@);
        assert(s@ =~= enc_job(job@));
        assert(wire_job_ok(job@));
    }
    Ok(job)
}

// ---------------------------------------------------------------------
// Metadata
// ---------------------------------------------------------------------
/// Whether metadata can stand on the wire: its optional strings and its
/// additional fields are wire-safe.
pub open spec fn wire_meta_ok(m: GxfMetadataView) -> bool {
    &&& (m.source_slp is Some ==> wire_str_ok(m.source_slp->0))
    &&& (m.target_lane is Some ==> wire_str_ok(m.target_lane->0))
    &&& wire_pairs_ok(m.additional_fields)
}

/// The encoding of the expiry field, empty when absent.
pub open spec fn enc_expires(m: GxfMetadataView) -> Seq<u8> {
    if m.expires_at is Some {
        str_bytes(",\"expires_at\":"@) + spec_dec(m.expires_at->0 as nat)
    } else {
        Seq::empty()
    }
}

/// The encoding of the source field, empty when absent.
pub open spec fn enc_source(m: GxfMetadataView) -> Seq<u8> {
    if m.source_slp is Some {
        str_bytes(",\"source_slp\":"@) + enc_string(m.source_slp->0)
    } else {
        Seq::empty()
    }
}

/// The encoding of the target-lane field, empty when absent.
pub open spec fn enc_target(m: GxfMetadataView) -> Seq<u8> {
    if m.target_lane is Some {
        str_bytes(",\"target_lane\":"@) + enc_string(m.target_lane->0)
    } else {
        Seq::empty()
    }
}

/// The canonical encoding of envelope metadata.
pub open spec fn enc_meta(m: GxfMetadataView) -> Seq<u8> {
    str_bytes("{\"schema_version\":"@) + spec_dec(m.schema_version as nat) + str_bytes(
        ",\"priority\":"@,
    ) + spec_dec(m.priority as nat) + str_bytes(",\"created_at\":"@) + spec_dec(m.created_at as nat)
        + enc_expires(m) + enc_source(m) + enc_target(m) + str_bytes(",\"additional_fields\":"@)
        + enc_pairs(m.additional_fields) + str_bytes("}"@)
}

/// Whether position `i` of `s` holds the encoding of the metadata `mv`.
pub open spec fn spec_meta_at(s: Seq<u8>, i: int, mv: GxfMetadataView) -> bool {
    &&& 0 <= i
    &&& wire_meta_ok(mv)
    &&& i + enc_meta(mv).len() <= s.len()
    &&& s.subrange(i, i + enc_meta(mv).len()) == enc_meta(mv)
}

/// The positions of the fields inside encoded metadata.
pub open spec fn meta_fields_at(s: Seq<u8>, i: int, mv: GxfMetadataView) -> bool {
    let oa = i + "{\"schema_version\":"@.len();
    let ob = oa + spec_dec(mv.schema_version as nat).len();
    let oc = ob + ",\"priority\":"@.len();
    let od = oc + spec_dec(mv.priority as nat).len();
    let oe = od + ",\"created_at\":"@.len();
    let of0 = oe + spec_dec(mv.created_at as nat).len();
    let og = of0 + enc_expires(mv).len();
    let oh = og + enc_source(mv).len();
    let oi = oh + enc_target(mv).len();
    let oj = oi + ",\"additional_fields\":"@.len();
    let ok0 = oj + enc_pairs(mv.additional_fields).len();
    &&& spec_lit_at(s, i, "{\"schema_version\":"@)
    &&& spec_num_at(s, oa, mv.schema_version as nat)
    &&& spec_lit_at(s, ob, ",\"priority\":"@)
    &&& spec_num_at(s, oc, mv.priority as nat)
    &&& spec_lit_at(s, od, ",\"created_at\":"@)
    &&& spec_num_at(s, oe, mv.created_at as nat)
    &&& (mv.expires_at is Some ==> spec_lit_at(s, of0, ",\"expires_at\":"@) && spec_num_at(
        s,
        of0 + ",\"expires_at\":"@.len(),
        mv.expires_at->0 as nat,
    ))
    &&& (mv.expires_at is None ==> of0 + 2 < s.len() && s[of0 + 2] != 0x65)
    &&& (mv.source_slp is Some ==> spec_lit_at(s, og, ",\"source_slp\":"@) && crate::wire::spec_string_at(
        s,
        og + ",\"source_slp\":"@.len(),
        mv.source_slp->0,
    ))
    &&& (mv.source_slp is None ==> og + 2 < s.len() && s[og + 2] != 0x73)
    &&& (mv.target_lane is Some ==> spec_lit_at(s, oh, ",\"target_lane\":"@) && crate::wire::spec_string_at(
        s,
        oh + ",\"target_lane\":"@.len(),
        mv.target_lane->0,
    ))
    &&& (mv.target_lane is None ==> oh + 2 < s.len() && s[oh + 2] != 0x74)
    &&& spec_lit_at(s, oi, ",\"additional_fields\":"@)
    &&& spec_pairs_at(s, oj, mv.additional_fields)
    &&& spec_lit_at(s, ok0, "}"@)
    &&& ok0 + 1 == i + enc_meta(mv).len()
}

/// Shape facts about the metadata field literals.
proof fn lemma_meta_literals()
    ensures
        vstd::string::is_ascii("{\"schema_version\":"),
        vstd::string::is_ascii(",\"priority\":"),
        vstd::string::is_ascii(",\"created_at\":"),
        vstd::string::is_ascii(",\"expires_at\":"),
        vstd::string::is_ascii(",\"source_slp\":"),
        vstd::string::is_ascii(",\"target_lane\":"),
        vstd::string::is_ascii(",\"additional_fields\":"),
        vstd::string::is_ascii("}"),
        ",\"priority\":"@.len() > 2 && (",\"priority\":"@[0] as u8) == 0x2c,
        ",\"created_at\":"@.len() > 2 && (",\"created_at\":"@[0] as u8) == 0x2c,
        ",\"expires_at\":"@.len() > 2 && (",\"expires_at\":"@[0] as u8) == 0x2c && (
        ",\"expires_at\":"@[2] as u8) == 0x65,
        ",\"source_slp\":"@.len() > 2 && (",\"source_slp\":"@[0] as u8) == 0x2c && (
        ",\"source_slp\":"@[2] as u8) == 0x73,
        ",\"target_lane\":"@.len() > 2 && (",\"target_lane\":"@[0] as u8) == 0x2c && (
        ",\"target_lane\":"@[2] as u8) == 0x74,
        ",\"additional_fields\":"@.len() > 2 && (",\"additional_fields\":"@[0] as u8) == 0x2c && (
        ",\"additional_fields\":"@[2] as u8) == 0x61,
        "}"@.len() == 1 && ("}"@[0] as u8) == 0x7d,
{
    reveal_strlit("{\"schema_version\":");
    reveal_strlit(",\"priority\":");
    reveal_strlit(",\"created_at\":");
    reveal_strlit(",\"expires_at\":");
    reveal_strlit(",\"source_slp\":");
    reveal_strlit(",\"target_lane\":");
    reveal_strlit(",\"additional_fields\":");
    reveal_strlit("}");
}

/// Encoded metadata splits into its fields at the expected positions.
#[verifier::rlimit(100)]
#[verifier::spinoff_prover]
proof fn lemma_meta_fields(s: Seq<u8>, i: int, mv: GxfMetadataView)
    requires
        spec_meta_at(s, i, mv),
    ensures
        meta_fields_at(s, i, mv),
{
    lemma_meta_literals();
    crate::wire::lemma_dec_props(mv.schema_version as nat);
    crate::wire::lemma_dec_props(mv.priority as nat);
    crate::wire::lemma_dec_props(mv.created_at as nat);
    let p1 = str_bytes("{\"schema_version\":"@);
    let p2 = spec_dec(mv.schema_version as nat);
    let p3 = str_bytes(",\"priority\":"@);
    let p4 = spec_dec(mv.priority as nat);
    let p5 = str_bytes(",\"created_at\":"@);
    let p6 = spec_dec(mv.created_at as nat);
    let p7 = enc_expires(mv);
    let p8 = enc_source(mv);
    let p9 = enc_target(mv);
    let p10 = str_bytes(",\"additional_fields\":"@);
    let p11 = enc_pairs(mv.additional_fields);
    let p12 = str_bytes("}"@);
    let e = enc_meta(mv);
    assert(e =~= p1 + (p2 + (p3 + (p4 + (p5 + (p6 + (p7 + (p8 + (p9 + (p10 + (p11 + p12)))))))))));
    lemma_seq_split(s, i, p1, p2 + (p3 + (p4 + (p5 + (p6 + (p7 + (p8 + (p9 + (p10 + (p11 + p12))))))))));
    let oa: int = i + p1.len() as int;
    lemma_seq_split(s, oa, p2, p3 + (p4 + (p5 + (p6 + (p7 + (p8 + (p9 + (p10 + (p11 + p12)))))))));
    let ob: int = oa + p2.len() as int;
    lemma_seq_split(s, ob, p3, p4 + (p5 + (p6 + (p7 + (p8 + (p9 + (p10 + (p11 + p12))))))));
    let oc: int = ob + p3.len() as int;
    lemma_seq_split(s, oc, p4, p5 + (p6 + (p7 + (p8 + (p9 + (p10 + (p11 + p12)))))));
    let od: int = oc + p4.len() as int;
    lemma_seq_split(s, od, p5, p6 + (p7 + (p8 + (p9 + (p10 + (p11 + p12))))));
    let oe: int = od + p5.len() as int;
    lemma_seq_split(s, oe, p6, p7 + (p8 + (p9 + (p10 + (p11 + p12)))));
    let of0: int = oe + p6.len() as int;
    lemma_seq_split(s, of0, p7, p8 + (p9 + (p10 + (p11 + p12))));
    let og: int = of0 + p7.len() as int;
    lemma_seq_split(s, og, p8, p9 + (p10 + (p11 + p12)));
    let oh: int = og + p8.len() as int;
    lemma_seq_split(s, oh, p9, p10 + (p11 + p12));
    let oi: int = oh + p9.len() as int;
    lemma_seq_split(s, oi, p10, p11 + p12);
    let oj: int = oi + p10.len() as int;
    lemma_seq_split(s, oj, p11, p12);
    let ok0: int = oj + p11.len() as int;
    // split the optional fields into their literal and their value
    if mv.expires_at is Some {
        crate::wire::lemma_dec_props(mv.expires_at->0 as nat);
        let q1 = str_bytes(",\"expires_at\":"@);
        let q2 = spec_dec(mv.expires_at->0 as nat);
        assert(p7 =~= q1 + q2);
        lemma_seq_split(s, of0, q1, q2);
    }
    if mv.source_slp is Some {
        let q1 = str_bytes(",\"source_slp\":"@);
        let q2 = enc_string(mv.source_slp->0);
        assert(p8 =~= q1 + q2);
        lemma_seq_split(s, og, q1, q2);
    }
    if mv.target_lane is Some {
        let q1 = str_bytes(",\"target_lane\":"@);
        let q2 = enc_string(mv.target_lane->0);
        assert(p9 =~= q1 + q2);
        lemma_seq_split(s, oh, q1, q2);
    }
    // the byte after each number field is the comma that opens the next
    // field, which is no digit
    assert(s[ob] == s.subrange(ob, ob + p3.len())[0]);
    assert(s[od] == s.subrange(od, od + p5.len())[0]);
    assert(!is_digit(0x2cu8));
    lemma_meta_next_comma(s, of0, mv, 0);
    if mv.expires_at is Some {
        lemma_meta_next_comma(s, og, mv, 1);
    }
    // a missing optional field leaves the key of a later field in place,
    // whose third byte differs
    if mv.expires_at is None {
        lemma_meta_next_key_byte(s, of0, mv, 0);
    }
    if mv.source_slp is None {
        lemma_meta_next_key_byte(s, og, mv, 1);
    }
    if mv.target_lane is None {
        lemma_meta_next_key_byte(s, oh, mv, 2);
    }
}

/// After position `pos` — the end of the created-at number (`stage` 0) or
/// of the expiry number (`stage` 1) — the next byte is a comma.
proof fn lemma_meta_next_comma(s: Seq<u8>, pos: int, mv: GxfMetadataView, stage: int)
    requires
        0 <= stage <= 1,
        spec_meta_at_suffix(s, pos, mv, stage),
    ensures
        pos < s.len(),
        s[pos] == 0x2c,
        !is_digit(s[pos]),
{
    lemma_meta_literals();
    if stage == 0 && mv.expires_at is Some {
        let q = str_bytes(",\"expires_at\":"@);
        assert(s[pos] == s.subrange(pos, pos + q.len())[0]);
    } else if stage <= 1 && mv.source_slp is Some {
        let q = str_bytes(",\"source_slp\":"@);
        assert(s[pos] == s.subrange(pos, pos + q.len())[0]);
    } else if stage <= 2 && mv.target_lane is Some {
        let q = str_bytes(",\"target_lane\":"@);
        assert(s[pos] == s.subrange(pos, pos + q.len())[0]);
    } else {
        let q = str_bytes(",\"additional_fields\":"@);
        assert(s[pos] == s.subrange(pos, pos + q.len())[0]);
    }
}

/// What stands at `pos`: the first of the remaining field literals, by
/// stage: 0 before the expiry field, 1 before the source field, 2 before
/// the target field.
pub open spec fn spec_meta_at_suffix(s: Seq<u8>, pos: int, mv: GxfMetadataView, stage: int) -> bool {
    if stage == 0 && mv.expires_at is Some {
        spec_lit_at(s, pos, ",\"expires_at\":"@)
    } else if stage <= 1 && mv.source_slp is Some {
        spec_lit_at(s, pos, ",\"source_slp\":"@)
    } else if stage <= 2 && mv.target_lane is Some {
        spec_lit_at(s, pos, ",\"target_lane\":"@)
    } else {
        spec_lit_at(s, pos, ",\"additional_fields\":"@)
    }
}

/// The third byte at `pos` is the distinguishing letter of whichever field
/// key stands there, so it differs from the letter of each key that is
/// absent.
proof fn lemma_meta_next_key_byte(s: Seq<u8>, pos: int, mv: GxfMetadataView, stage: int)
    requires
        spec_meta_at_suffix(s, pos, mv, stage),
        stage == 0 ==> mv.expires_at is None,
        stage == 1 ==> mv.source_slp is None,
        stage == 2 ==> mv.target_lane is None,
        0 <= stage <= 2,
    ensures
        pos + 2 < s.len(),
        stage == 0 ==> s[pos + 2] != 0x65,
        stage == 1 ==> s[pos + 2] != 0x73,
        stage == 2 ==> s[pos + 2] != 0x74,
{
    lemma_meta_literals();
    if stage == 0 && mv.expires_at is Some {
        let q = str_bytes(",\"expires_at\":"@);
        assert(s[pos + 2] == s.subrange(pos, pos + q.len())[2]);
    } else if stage <= 1 && mv.source_slp is Some {
        let q = str_bytes(",\"source_slp\":"@);
        assert(s[pos + 2] == s.subrange(pos, pos + q.len())[2]);
    } else if stage <= 2 && mv.target_lane is Some {
        let q = str_bytes(",\"target_lane\":"@);
        assert(s[pos + 2] == s.subrange(pos, pos + q.len())[2]);
    } else {
        let q = str_bytes(",\"additional_fields\":"@);
        assert(s[pos + 2] == s.subrange(pos, pos + q.len())[2]);
    }
}

/// Decides whether metadata can stand on the wire.
pub fn check_wire_meta(m: &GxfMetadata) -> (r: bool)
    ensures
        r == wire_meta_ok(m@),
{
    if let Some(sv) = &m.source_slp {
        if !check_wire_str(sv.as_str()) {
            return false;
        }
    }
    if let Some(tv) = &m.target_lane {
        if !check_wire_str(tv.as_str()) {
            return false;
        }
    }
    let n = m.additional_fields.len();
    let mut t: usize = 0;
    while t < n
        invariant
            n == m.additional_fields.len(),
            0 <= t <= n,
            forall|u: int|
                0 <= u < t ==> crate::wire::wire_pair_ok(
                    #[trigger] pairs_view(m.additional_fields@)[u],
                ),
        decreases n - t,
    {
        proof {
            assert(pairs_view(m.additional_fields@)[t as int] == (
                m.additional_fields@[t as int].0@,
                m.additional_fields@[t as int].1@,
            ));
        }
        if !check_wire_str(m.additional_fields[t].0.as_str()) {
            return false;
        }
        if !check_wire_str(m.additional_fields[t].1.as_str()) {
            return false;
        }
        t += 1;
    }
    true
}

/// Appends the encoding of metadata.
#[verifier::rlimit(100)]
#[verifier::spinoff_prover]
pub fn push_meta(out: &mut Vec<u8>, m: &GxfMetadata)
    requires
        wire_meta_ok(m@),
    ensures
        final(out)@ == old(out)@ + enc_meta(m@),
{
    proof {
        lemma_meta_literals();
    }
    push_lit(out, "{\"schema_version\":");
    push_u64(out, m.schema_version as u64);
    push_lit(out, ",\"priority\":");
    push_u64(out, m.priority as u64);
    push_lit(out, ",\"created_at\":");
    push_u64(out, m.created_at);
    if let Some(v) = m.expires_at {
        push_lit(out, ",\"expires_at\":");
        push_u64(out, v);
    }
    if let Some(sv) = &m.source_slp {
        push_lit(out, ",\"source_slp\":");
        push_string(out, sv.as_str());
    }
    if let Some(tv) = &m.target_lane {
        push_lit(out, ",\"target_lane\":");
        push_string(out, tv.as_str());
    }
    push_lit(out, ",\"additional_fields\":");
    push_pairs(out, &m.additional_fields);
    push_lit(out, "}");
    proof {
        assert(final(out)@ =~= old(out)@ + enc_meta(m@));
    }
}

/// Reads the optional expiry field at position `pos`: the field's key and
/// number where the key stands there, nothing where a key with another
/// third letter follows.
fn parse_opt_expires(s: &[u8], pos: usize) -> (r: Option<(Option<u64>, usize)>)
    requires
        pos <= s@.len(),
    ensures
        r matches Some(p) ==> {
            &&& pos <= p.1 <= s@.len()
            &&& match p.0 {
                Some(v) => s@.subrange(pos as int, p.1 as int) == str_bytes(",\"expires_at\":"@)
                    + spec_dec(v as nat),
                None => p.1 == pos,
            }
        },
        forall|v: u64|
            spec_lit_at(s@, pos as int, ",\"expires_at\":"@) && #[trigger] spec_num_at(
                s@,
                pos + ",\"expires_at\":"@.len(),
                v as nat,
            ) ==> (r matches Some(p) && p.0 == Some(v) && p.1 == pos + ",\"expires_at\":"@.len()
                + spec_dec(v as nat).len()),
        (pos + 2 < s@.len() && s@[pos + 2] != 0x65) ==> (r matches Some(p) && p.0 is None && p.1
            == pos),
{
    proof {
        lemma_meta_literals();
    }
    if let Some(je) = expect_lit(s, pos, ",\"expires_at\":") {
        let (ev, je2) = match parse_u64(s, je) {
            Some(p) => p,
            None => {
                proof {
                    if pos + 2 < s@.len() && s@[pos + 2] != 0x65 {
                        reveal_strlit(",\"expires_at\":");
                        lemma_lit_differs(s@, pos as int, ",\"expires_at\":"@, 2);
                    }
                }
                return None;
            },
        };
        proof {
            lemma_seq_join(s@, pos as int, je as int, je2 as int);
            if pos + 2 < s@.len() && s@[pos + 2] != 0x65 {
                reveal_strlit(",\"expires_at\":");
                lemma_lit_differs(s@, pos as int, ",\"expires_at\":"@, 2);
            }
        }
        Some((Some(ev), je2))
    } else {
        proof {
            assert forall|v: u64|
                !(spec_lit_at(s@, pos as int, ",\"expires_at\":"@) && #[trigger] spec_num_at(
                    s@,
                    pos + ",\"expires_at\":"@.len(),
                    v as nat,
                )) by {
            }
        }
        Some((None, pos))
    }
}

/// Reads an optional string field with the given key at position `pos`:
/// the key and its string where the key stands there, nothing where a key
/// with another third letter follows.
fn parse_opt_string(s: &[u8], pos: usize, key: &str) -> (r: Option<(Option<String>, usize)>)
    requires
        pos <= s@.len(),
        key.is_ascii(),
        key@.len() > 2,
    ensures
        r matches Some(p) ==> {
            &&& pos <= p.1 <= s@.len()
            &&& match p.0 {
                Some(st) => wire_str_ok(st@) && s@.subrange(pos as int, p.1 as int) == str_bytes(
                    key@,
                ) + enc_string(st@),
                None => p.1 == pos,
            }
        },
        forall|sv: Seq<char>|
            spec_lit_at(s@, pos as int, key@) && #[trigger] crate::wire::spec_string_at(
                s@,
                pos + key@.len(),
                sv,
            ) ==> (r matches Some(p) && p.0 matches Some(st) && st@ == sv && p.1 == pos
                + key@.len() + enc_string(sv).len()),
        (pos + 2 < s@.len() && s@[pos + 2] != (key@[2] as u8)) ==> (r matches Some(p)
            && p.0 is None && p.1 == pos),
{
    if let Some(jk) = expect_lit(s, pos, key) {
        let (st, jk2) = match crate::wire::parse_string(s, jk) {
            Some(p) => p,
            None => {
                proof {
                    if pos + 2 < s@.len() && s@[pos + 2] != (key@[2] as u8) {
                        lemma_lit_differs(s@, pos as int, key@, 2);
                    }
                }
                return None;
            },
        };
        proof {
            lemma_seq_join(s@, pos as int, jk as int, jk2 as int);
            if pos + 2 < s@.len() && s@[pos + 2] != (key@[2] as u8) {
                lemma_lit_differs(s@, pos as int, key@, 2);
            }
        }
        Some((Some(st), jk2))
    } else {
        Some((None, pos))
    }
}

/// Reads metadata at position `i`: returns the metadata and the position
/// after its closing brace, exactly where encoded metadata stands there.
#[verifier::rlimit(100)]
pub fn parse_meta(s: &[u8], i: usize) -> (r: Option<(GxfMetadata, usize)>)
    requires
        i <= s@.len(),
    ensures
        r matches Some(p) ==> {
            &&& i < p.1 <= s@.len()
            &&& wire_meta_ok(p.0@)
            &&& s@.subrange(i as int, p.1 as int) == enc_meta(p.0@)
            &&& p.1 == i + enc_meta(p.0@).len()
        },
        forall|mv: GxfMetadataView|
            spec_meta_at(s@, i as int, mv) ==> (r matches Some(p) && p.0@ == mv && p.1 == i
                + enc_meta(mv).len()),
{
    proof {
        lemma_meta_literals();
        assert forall|mv: GxfMetadataView|
            spec_meta_at(s@, i as int, mv) implies meta_fields_at(s@, i as int, mv) by {
            lemma_meta_fields(s@, i as int, mv);
        }
    }
    let j1 = match expect_lit(s, i, "{\"schema_version\":") {
        Some(j) => j,
        None => {
            return None;
        },
    };
    proof {
        assert forall|mv: GxfMetadataView|
            spec_meta_at(s@, i as int, mv) implies spec_num_at(
            s@,
            j1 as int,
            (mv.schema_version as u64) as nat,
        ) by {
            assert(spec_num_at(s@, j1 as int, mv.schema_version as nat));
        }
    }
    let (sv64, j2) = match parse_u64(s, j1) {
        Some(p) => p,
        None => {
            return None;
        },
    };
    if sv64 > 255 {
        return None;
    }
    let j3 = match expect_lit(s, j2, ",\"priority\":") {
        Some(j) => j,
        None => {
            return None;
        },
    };
    proof {
        assert forall|mv: GxfMetadataView|
            spec_meta_at(s@, i as int, mv) implies spec_num_at(
            s@,
            j3 as int,
            (mv.priority as u64) as nat,
        ) by {
            assert(spec_num_at(s@, j3 as int, mv.priority as nat));
        }
    }
    let (pr64, j4) = match parse_u64(s, j3) {
        Some(p) => p,
        None => {
            return None;
        },
    };
    if pr64 > 255 {
        return None;
    }
    let j5 = match expect_lit(s, j4, ",\"created_at\":") {
        Some(j) => j,
        None => {
            return None;
        },
    };
    let (created, j6) = match parse_u64(s, j5) {
        Some(p) => p,
        None => {
            return None;
        },
    };
    let (expires_at, p7) = match parse_opt_expires(s, j6) {
        Some(p) => p,
        None => {
            return None;
        },
    };
    let ghost g7: int = p7 as int;
    let (source_slp, p8) = match parse_opt_string(s, p7, ",\"source_slp\":") {
        Some(p) => p,
        None => {
            return None;
        },
    };
    let ghost g8: int = p8 as int;
    let (target_lane, p9) = match parse_opt_string(s, p8, ",\"target_lane\":") {
        Some(p) => p,
        None => {
            return None;
        },
    };
    let ghost g9: int = p9 as int;
    let pos = p9;
    let ja = match expect_lit(s, pos, ",\"additional_fields\":") {
        Some(j) => j,
        None => {
            return None;
        },
    };
    let (afs, jb) = match parse_pairs(s, ja) {
        Some(p) => p,
        None => {
            return None;
        },
    };
    let jc = match expect_lit(s, jb, "}") {
        Some(j) => j,
        None => {
            return None;
        },
    };
    let m = GxfMetadata {
        schema_version: sv64 as u8,
        priority: pr64 as u8,
        created_at: created,
        expires_at,
        source_slp,
        target_lane,
        additional_fields: afs,
    };
    proof {
        // soundness: each consumed piece is the respective encoding piece
        // of the result; joined they are its whole encoding
        assert(s@.subrange(j6 as int, g7) =~= enc_expires(m@));
        assert(s@.subrange(g7, g8) =~= enc_source(m@));
        assert(s@.subrange(g8, g9) =~= enc_target(m@));
        lemma_meta_assemble(
            s@,
            i as int,
            j1 as int,
            j2 as int,
            j3 as int,
            j4 as int,
            j5 as int,
            j6 as int,
            g7,
            g8,
            g9,
            ja as int,
            jb as int,
            jc as int,
            m@,
        );
        assert forall|mv: GxfMetadataView| spec_meta_at(s@, i as int, mv) implies m@ =~= mv by {
        }
    }
    Some((m, jc))
}

/// Joins the consumed pieces of a metadata parse into the whole encoding.
#[verifier::rlimit(100)]
proof fn lemma_meta_assemble(
    s: Seq<u8>,
    i: int,
    j1: int,
    j2: int,
    j3: int,
    j4: int,
    j5: int,
    j6: int,
    g7: int,
    g8: int,
    g9: int,
    ja: int,
    jb: int,
    jc: int,
    m: GxfMetadataView,
)
    requires
        0 <= i <= j1 <= j2 <= j3 <= j4 <= j5 <= j6 <= g7 <= g8 <= g9 <= ja <= jb <= jc <= s.len(),
        s.subrange(i, j1) == str_bytes("{\"schema_version\":"@),
        s.subrange(j1, j2) == spec_dec(m.schema_version as nat),
        s.subrange(j2, j3) == str_bytes(",\"priority\":"@),
        s.subrange(j3, j4) == spec_dec(m.priority as nat),
        s.subrange(j4, j5) == str_bytes(",\"created_at\":"@),
        s.subrange(j5, j6) == spec_dec(m.created_at as nat),
        s.subrange(j6, g7) == enc_expires(m),
        s.subrange(g7, g8) == enc_source(m),
        s.subrange(g8, g9) == enc_target(m),
        s.subrange(g9, ja) == str_bytes(",\"additional_fields\":"@),
        s.subrange(ja, jb) == enc_pairs(m.additional_fields),
        s.subrange(jb, jc) == str_bytes("}"@),
    ensures
        s.subrange(i, jc) == enc_meta(m),
        jc == i + enc_meta(m).len(),
{
    lemma_seq_join(s, i, j1, j2);
    lemma_seq_join(s, i, j2, j3);
    lemma_seq_join(s, i, j3, j4);
    lemma_seq_join(s, i, j4, j5);
    lemma_seq_join(s, i, j5, j6);
    lemma_seq_join(s, i, j6, g7);
    lemma_seq_join(s, i, g7, g8);
    lemma_seq_join(s, i, g8, g9);
    lemma_seq_join(s, i, g9, ja);
    lemma_seq_join(s, i, ja, jb);
    lemma_seq_join(s, i, jb, jc);
    assert(s.subrange(i, jc) =~= enc_meta(m));
}

// ---------------------------------------------------------------------
// Envelopes
// ---------------------------------------------------------------------
/// Whether an envelope can stand on the wire: its metadata can. The
/// payload is a raw byte array and always can.
pub open spec fn wire_env_ok(e: GxfEnvelopeView) -> bool {
    wire_meta_ok(e.meta)
}

/// The canonical encoding of an envelope.
pub open spec fn enc_env(e: GxfEnvelopeView) -> Seq<u8> {
    str_bytes("{\"meta\":"@) + enc_meta(e.meta) + str_bytes(",\"payload\":"@) + enc_u8_list(
        e.payload,
    ) + str_bytes("}"@)
}

/// The positions of the fields inside an encoded envelope.
pub open spec fn env_fields_at(s: Seq<u8>, ev: GxfEnvelopeView) -> bool {
    let o1 = "{\"meta\":"@.len() as int;
    let o2 = o1 + enc_meta(ev.meta).len();
    let o3 = o2 + ",\"payload\":"@.len();
    let o4 = o3 + enc_u8_list(ev.payload).len();
    &&& spec_lit_at(s, 0, "{\"meta\":"@)
    &&& spec_meta_at(s, o1, ev.meta)
    &&& spec_lit_at(s, o2, ",\"payload\":"@)
    &&& spec_u8_list_at(s, o3, ev.payload)
    &&& spec_lit_at(s, o4, "}"@)
    &&& o4 + 1 == s.len()
}

/// Shape facts about the envelope field literals.
proof fn lemma_env_literals()
    ensures
        vstd::string::is_ascii("{\"meta\":"),
        vstd::string::is_ascii(",\"payload\":"),
        vstd::string::is_ascii("}"),
        "}"@.len() == 1,
{
    reveal_strlit("{\"meta\":");
    reveal_strlit(",\"payload\":");
    reveal_strlit("}");
}

/// An encoded envelope splits into its fields at the expected positions.
proof fn lemma_env_fields(s: Seq<u8>, ev: GxfEnvelopeView)
    requires
        wire_env_ok(ev),
        s == enc_env(ev),
    ensures
        env_fields_at(s, ev),
{
    lemma_env_literals();
    let p1 = str_bytes("{\"meta\":"@);
    let p2 = enc_meta(ev.meta);
    let p3 = str_bytes(",\"payload\":"@);
    let p4 = enc_u8_list(ev.payload);
    let p5 = str_bytes("}"@);
    assert(s =~= p1 + (p2 + (p3 + (p4 + p5))));
    assert(s.subrange(0, s.len() as int) =~= s);
    lemma_seq_split(s, 0, p1, p2 + (p3 + (p4 + p5)));
    let o1: int = p1.len() as int;
    lemma_seq_split(s, o1, p2, p3 + (p4 + p5));
    let o2: int = o1 + p2.len() as int;
    lemma_seq_split(s, o2, p3, p4 + p5);
    let o3: int = o2 + p3.len() as int;
    lemma_seq_split(s, o3, p4, p5);
}

/// Whether the bytes spell exactly one job in the wire format.
pub open spec fn payload_parses(bytes: Seq<u8>) -> bool {
    exists|jv: GxfJobView| wire_job_ok(jv) && bytes == enc_job(jv)
}

/// The job the bytes spell, where they spell one.
pub open spec fn payload_job(bytes: Seq<u8>) -> GxfJobView {
    choose|jv: GxfJobView| wire_job_ok(jv) && bytes == enc_job(jv)
}

/// The validation verdict on an envelope at time `now`: its metadata must
/// validate, its payload must be nonempty and spell a well-formed job. A
/// payload that spells no job is an invalid payload.
pub open spec fn spec_env_validate(e: GxfEnvelopeView, now: u64) -> Result<(), GxfError> {
    match crate::gxf::spec_meta_validate(e.meta, now) {
        Err(err) => Err(err),
        Ok(_) => if e.payload.len() == 0 {
            Err(GxfError::InvalidPayload)
        } else if !payload_parses(e.payload) {
            Err(GxfError::InvalidPayload)
        } else if !crate::gxf::spec_job_valid(payload_job(e.payload)) {
            Err(GxfError::InvalidSequenceLength(payload_job(e.payload).kv_cache_seq_len))
        } else {
            Ok(())
        },
    }
}

impl GxfEnvelope {
    /// Builds an envelope around a job: validates the job, stamps fresh
    /// metadata of the given priority, and serializes the job into the
    /// payload.
    pub fn from_job(job: GxfJob, priority: u8) -> (r: Result<Self, GxfError>)
        ensures
            !crate::gxf::spec_job_valid(job@) ==> r == Result::<Self, GxfError>::Err(
                GxfError::InvalidSequenceLength(job.kv_cache_seq_len),
            ),
            crate::gxf::spec_job_valid(job@) && !wire_job_ok(job@) ==> r == Result::<
                Self,
                GxfError,
            >::Err(GxfError::Serialization),
            crate::gxf::spec_job_valid(job@) && wire_job_ok(job@) ==> (r matches Ok(env) && {
                &&& env@.payload == enc_job(job@)
                &&& env@.meta.schema_version == crate::gxf::GXF_VERSION
                &&& env@.meta.priority == priority
                &&& env@.meta.expires_at is None
                &&& env@.meta.source_slp is None
                &&& env@.meta.target_lane is None
                &&& env@.meta.additional_fields.len() == 0
            }),
    {
        if let Err(e) = job.validate() {
            return Err(e);
        }
        let meta = match GxfMetadata::new(priority) {
            Ok(m) => m,
            Err(e) => {
                return Err(e);
            },
        };
        let payload = match job_to_wire(&job) {
            Ok(p) => p,
            Err(e) => {
                return Err(e);
            },
        };
        Ok(GxfEnvelope { meta, payload })
    }

    /// Reads the job the payload spells.
    pub fn deserialize_job(&self) -> (r: Result<GxfJob, GxfError>)
        ensures
            r matches Ok(job) ==> wire_job_ok(job@) && self@.payload == enc_job(job@) && job@
                == payload_job(self@.payload),
            r matches Err(e) ==> e == GxfError::Deserialization && !payload_parses(self@.payload),
            payload_parses(self@.payload) ==> r is Ok,
    {
        let r = job_from_wire(self.payload.as_slice());
        proof {
            if r is Ok {
                let ghost job = r->Ok_0;
                assert(payload_parses(self@.payload));
                let jv = payload_job(self@.payload);
                assert(wire_job_ok(jv) && self@.payload == enc_job(jv));
            } else {
                if payload_parses(self@.payload) {
                    let jv = payload_job(self@.payload);
                    assert(wire_job_ok(jv) && self@.payload == enc_job(jv));
                    assert(false);
                }
            }
        }
        r
    }

    /// The validation verdict at time `now`.
    pub fn validate_at(&self, now: u64) -> (r: Result<(), GxfError>)
        ensures
            r == spec_env_validate(self@, now),
    {
        if let Err(e) = self.meta.validate_at(now) {
            return Err(e);
        }
        if self.payload.len() == 0 {
            return Err(GxfError::InvalidPayload);
        }
        match self.deserialize_job() {
            Err(_) => Err(GxfError::InvalidPayload),
            Ok(job) => {
                match job.validate() {
                    Err(e) => Err(e),
                    Ok(_) => Ok(()),
                }
            },
        }
    }

    /// The validation verdict against the system clock.
    pub fn validate(&self) -> (r: Result<(), GxfError>)
        ensures
            exists|now: u64| r == spec_env_validate(self@, now),
    {
        let now = crate::clock::current_unix_seconds();
        let r = self.validate_at(now);
        proof {
            assert(r == spec_env_validate(self@, now));
        }
        r
    }

    /// Writes the envelope in the wire format. Fails with a serialization
    /// error exactly when some metadata string cannot stand on the wire.
    pub fn to_json(&self) -> (r: Result<Vec<u8>, GxfError>)
        ensures
            wire_env_ok(self@) ==> (r matches Ok(v) && v@ == enc_env(self@)),
            !wire_env_ok(self@) ==> r == Result::<Vec<u8>, GxfError>::Err(GxfError::Serialization),
    {
        if !check_wire_meta(&self.meta) {
            return Err(GxfError::Serialization);
        }
        proof {
            lemma_env_literals();
        }
        let mut out: Vec<u8> = Vec::new();
        push_lit(&mut out, "{\"meta\":");
        push_meta(&mut out, &self.meta);
        push_lit(&mut out, ",\"payload\":");
        push_u8_list(&mut out, &self.payload);
        push_lit(&mut out, "}");
        proof {
            assert(out@ =~= enc_env(self@));
        }
        Ok(out)
    }

    /// Reads an envelope from the wire format. The whole input must be one
    /// canonical envelope encoding.
    pub fn from_json(data: &[u8]) -> (r: Result<Self, GxfError>)
        ensures
            r matches Ok(env) ==> wire_env_ok(env@) && data@ == enc_env(env@),
            r matches Err(e) ==> e == GxfError::Deserialization,
            forall|ev: GxfEnvelopeView|
                wire_env_ok(ev) && data@ == enc_env(ev) ==> (r matches Ok(env) && env@ == ev),
    {
        proof {
            lemma_env_literals();
            assert forall|ev: GxfEnvelopeView|
                wire_env_ok(ev) && data@ == enc_env(ev) implies env_fields_at(data@, ev) by {
                lemma_env_fields(data@, ev);
            }
        }
        let s = data;
        let i0: usize = 0;
        let j1 = match expect_lit(s, i0, "{\"meta\":") {
            Some(j) => j,
            None => {
                return Err(GxfError::Deserialization);
            },
        };
        let (meta, j2) = match parse_meta(s, j1) {
            Some(p) => p,
            None => {
                return Err(GxfError::Deserialization);
            },
        };
        let j3 = match expect_lit(s, j2, ",\"payload\":") {
            Some(j) => j,
            None => {
                return Err(GxfError::Deserialization);
            },
        };
        let (payload, j4) = match parse_u8_list(s, j3) {
            Some(p) => p,
            None => {
                return Err(GxfError::Deserialization);
            },
        };
        let j5 = match expect_lit(s, j4, "}") {
            Some(j) => j,
            None => {
                return Err(GxfError::Deserialization);
            },
        };
        if j5 != s.len() {
            return Err(GxfError::Deserialization);
        }
        let env = GxfEnvelope { meta, payload };
        proof {
            lemma_seq_join(s@, 0, j1 as int, j2 as int);
            lemma_seq_join(s@, 0, j2 as int, j3 as int);
            lemma_seq_join(s@, 0, j3 as int, j4 as int);
            lemma_seq_join(s@, 0, j4 as int, j5 as int);
            assert(s@.subrange(0, j5 as int) =~= s@);
            assert(s@ =~= enc_env(env@));
            assert forall|ev: GxfEnvelopeView|
                wire_env_ok(ev) && data@ == enc_env(ev) implies env@ =~= ev by {
            }
        }
        Ok(env)
    }
}

/// The validation verdict on an envelope against the system clock.
pub fn validate_envelope(envelope: &GxfEnvelope) -> (r: Result<(), GxfError>)
    ensures
        exists|now: u64| r == spec_env_validate(envelope@, now),
{
    envelope.validate()
}

} // verus!
