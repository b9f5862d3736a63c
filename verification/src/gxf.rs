//! The job-envelope exchange format: jobs, metadata, envelopes, and their
//! validation rules.
//!
//! An envelope is a pair of metadata and an opaque payload holding one
//! serialized job. Every daemon re-validates the envelope it receives:
//! the schema version must match, a set expiry must lie in the future and
//! after creation, and the payload must hold a well-formed job.

use vstd::prelude::*;
use vstd::string::StringSliceAdditionalSpecFns;

use crate::clock::current_unix_seconds;
use crate::common::JobId;

verus! {

/// The schema version this library speaks.
pub const GXF_VERSION: u8 = 3;

/// Errors of envelope construction and validation.
#[derive(Debug, Clone, PartialEq, Eq, Structural)]
pub enum GxfError {
    /// The envelope's schema version is not the one this library speaks.
    InvalidVersion { expected: u8, actual: u8 },
    /// A job identifier could not be read.
    InvalidJobId,
    /// The payload is empty or does not hold a job.
    InvalidPayload,
    /// The metadata is inconsistent (an expiry not after creation).
    InvalidMetadata,
    /// The envelope expired at `expires_at`; the clock read `current_time`.
    Expired { expires_at: u64, current_time: u64 },
    /// The precision tag is outside the closed precision set.
    InvalidPrecision,
    /// The sequence length must be strictly positive.
    InvalidSequenceLength(u32),
    /// A value could not be written in the wire format.
    Serialization,
    /// The bytes do not spell a value of the wire format.
    Deserialization,
}

/// The closed set of precision levels a job may ask for.
#[derive(Debug, Clone, Copy, PartialEq, Eq, Hash, Structural)]
pub enum PrecisionLevel {
    /// Brain float, 16 bits.
    BF16,
    /// Float, 8 bits.
    FP8,
    /// E5M2 float, 8 bits.
    E5M2,
    /// Integer, 8 bits.
    INT8,
}

impl PrecisionLevel {
    /// Whether the precision level lies in the closed set. Every value of
    /// this enum does.
    pub fn is_valid(&self) -> (r: bool)
        ensures
            r,
    {
        match self {
            PrecisionLevel::BF16 => true,
            PrecisionLevel::FP8 => true,
            PrecisionLevel::E5M2 => true,
            PrecisionLevel::INT8 => true,
        }
    }
}

/// The ASCII uppercase of a character: the letters a through z are
/// raised; every other character stands.
pub open spec fn spec_ascii_upper(c: char) -> char {
    if 'a' <= c && c <= 'z' {
        ((((c as u8) - 0x20) as u8) as char)
    } else {
        c
    }
}

/// A string raised to ASCII uppercase.
pub open spec fn spec_upper_str(s: Seq<char>) -> Seq<char> {
    s.map_values(|c: char| spec_ascii_upper(c))
}

/// How a precision tag reads, ignoring ASCII case: one of the closed
/// set's spellings, or nothing.
pub open spec fn spec_parse_precision(s: Seq<char>) -> Option<PrecisionLevel> {
    if spec_upper_str(s) == "BF16"@ {
        Some(PrecisionLevel::BF16)
    } else if spec_upper_str(s) == "FP8"@ {
        Some(PrecisionLevel::FP8)
    } else if spec_upper_str(s) == "E5M2"@ {
        Some(PrecisionLevel::E5M2)
    } else if spec_upper_str(s) == "INT8"@ {
        Some(PrecisionLevel::INT8)
    } else {
        None
    }
}

/// The ASCII uppercase of a byte.
pub open spec fn spec_upper_byte(b: u8) -> u8 {
    if 0x61 <= b && b <= 0x7a {
        (b - 0x20) as u8
    } else {
        b
    }
}

/// Raising an ASCII character reads the same on its code byte.
proof fn lemma_upper_char_byte(c: char)
    requires
        (c as u32) < 0x80,
    ensures
        (spec_ascii_upper(c) as u32) < 0x80,
        spec_ascii_upper(c) as u8 == spec_upper_byte(c as u8),
{
    crate::wire::lemma_ascii_char_byte(c);
    let b = c as u8;
    assert('a' as u32 == 0x61 && 'z' as u32 == 0x7a);
    if 'a' <= c && c <= 'z' {
        crate::wire::lemma_byte_char_round((b - 0x20) as u8);
    }
}

/// Reads a precision tag, ignoring ASCII case; an unknown tag is an
/// invalid precision.
pub fn parse_precision_tag(s: &str) -> (r: Result<PrecisionLevel, GxfError>)
    ensures
        r == match spec_parse_precision(s@) {
            Some(p) => Result::<PrecisionLevel, GxfError>::Ok(p),
            None => Result::<PrecisionLevel, GxfError>::Err(GxfError::InvalidPrecision),
        },
{
    proof {
        reveal_strlit("BF16");
        reveal_strlit("FP8");
        reveal_strlit("E5M2");
        reveal_strlit("INT8");
        assert(vstd::string::is_ascii("BF16"));
        assert(vstd::string::is_ascii("FP8"));
        assert(vstd::string::is_ascii("E5M2"));
        assert(vstd::string::is_ascii("INT8"));
    }
    if tag_eq(s, "BF16") {
        return Ok(PrecisionLevel::BF16);
    }
    if tag_eq(s, "FP8") {
        return Ok(PrecisionLevel::FP8);
    }
    if tag_eq(s, "E5M2") {
        return Ok(PrecisionLevel::E5M2);
    }
    if tag_eq(s, "INT8") {
        return Ok(PrecisionLevel::INT8);
    }
    Err(GxfError::InvalidPrecision)
}

/// Whether the string, raised to ASCII uppercase, reads as the tag.
fn tag_eq(s: &str, tag: &str) -> (r: bool)
    requires
        vstd::string::is_ascii(tag),
    ensures
        r == (spec_upper_str(s@) == tag@),
{
    let sb: &[u8] = s.as_bytes();
    let tb: &[u8] = tag.as_bytes();
    proof {
        broadcast use vstd::string::is_ascii_spec_bytes;

        assert(tb@ =~= crate::wire::str_bytes(tag@));
    }
    proof {
        assert forall|t: int|
            0 <= t < tag@.len() implies ((#[trigger] tag@[t]) as u32) < 0x80 by {
            assert('\u{7f}' as u32 == 0x7f);
            assert(tag@[t] <= '\u{7f}');
        }
    }
    let m = sb.len();
    if m != tb.len() {
        proof {
            if spec_upper_str(s@) == tag@ {
                lemma_tag_forces_ascii(s, tag@);
            }
        }
        return false;
    }
    let mut k: usize = 0;
    while k < m
        invariant
            m == sb@.len() == tb@.len(),
            sb@ == s.spec_bytes(),
            tb@ == crate::wire::str_bytes(tag@),
            tag@.len() == tb@.len(),
            forall|t: int| 0 <= t < tag@.len() ==> ((#[trigger] tag@[t]) as u32) < 0x80,
            0 <= k <= m,
            forall|t: int| 0 <= t < k ==> spec_upper_byte(#[trigger] sb@[t]) == tb@[t],
            forall|t: int| 0 <= t < k ==> #[trigger] sb@[t] < 0x80,
        decreases m - k,
    {
        let b = sb[k];
        let ub: u8 = if 0x61 <= b && b <= 0x7a {
            b - 0x20
        } else {
            b
        };
        proof {
            assert(ub == spec_upper_byte(b));
            assert(tb@[k as int] == tag@[k as int] as u8);
            crate::wire::lemma_ascii_char_byte(tag@[k as int]);
        }
        if ub != tb[k] {
            proof {
                if spec_upper_str(s@) == tag@ {
                    lemma_tag_forces_ascii(s, tag@);
                    crate::wire::lemma_ascii_str_chars(s);
                    assert(sb@[k as int] == s@[k as int] as u8);
                    lemma_upper_char_byte(s@[k as int]);
                    assert(spec_upper_str(s@)[k as int] == spec_ascii_upper(s@[k as int]));
                    crate::wire::lemma_ascii_char_byte(spec_ascii_upper(s@[k as int]));
                }
            }
            return false;
        }
        proof {
            // the matched byte lies below 0x80, so this byte does too
            if b >= 0x80 {
                assert(ub == b);
                assert(false);
            }
        }
        k += 1;
    }
    proof {
        assert(s.spec_bytes() == vstd::utf8::encode_utf8(s@));
        crate::wire::lemma_ascii_str_chars(s);
        assert forall|t: int|
            0 <= t < s@.len() implies #[trigger] spec_upper_str(s@)[t] == tag@[t] by {
            assert(sb@[t] == s@[t] as u8);
            lemma_upper_char_byte(s@[t]);
            assert(spec_upper_str(s@)[t] == spec_ascii_upper(s@[t]));
            assert(spec_ascii_upper(s@[t]) as u8 == spec_upper_byte(sb@[t]));
            assert(tag@[t] as u8 == tb@[t]);
            crate::wire::lemma_ascii_char_byte(spec_ascii_upper(s@[t]));
            crate::wire::lemma_ascii_char_byte(tag@[t]);
        }
        assert(spec_upper_str(s@) =~= tag@);
    }
    true
}

/// A string that raises to an ASCII tag is itself ASCII, and its byte and
/// character counts agree with the tag's.
proof fn lemma_tag_forces_ascii(s: &str, tag: Seq<char>)
    requires
        spec_upper_str(s@) == tag,
        forall|t: int| 0 <= t < tag.len() ==> ((#[trigger] tag[t]) as u32) < 0x80,
    ensures
        crate::wire::wire_str_ok(s@),
        s.spec_bytes().len() == tag.len(),
        s.spec_bytes() == crate::wire::str_bytes(s@),
{
    assert forall|t: int| 0 <= t < s@.len() implies ((#[trigger] s@[t]) as u32) < 0x80 by {
        assert(spec_upper_str(s@)[t] == spec_ascii_upper(s@[t]));
        assert((tag[t] as u32) < 0x80);
        if 'a' <= s@[t] && s@[t] <= 'z' {
            assert('a' as u32 == 0x61 && 'z' as u32 == 0x7a);
        }
    }
    crate::wire::lemma_wire_str_bytes(s);
}

/// A counter per precision level.
#[derive(Debug, Clone, Copy, PartialEq, Eq, Structural)]
pub struct PrecisionCounts {
    /// Count for brain float 16.
    pub bf16: u64,
    /// Count for float 8.
    pub fp8: u64,
    /// Count for E5M2.
    pub e5m2: u64,
    /// Count for integer 8.
    pub int8: u64,
}

/// The count a precision level holds.
pub open spec fn spec_precision_count(c: PrecisionCounts, p: PrecisionLevel) -> u64 {
    match p {
        PrecisionLevel::BF16 => c.bf16,
        PrecisionLevel::FP8 => c.fp8,
        PrecisionLevel::E5M2 => c.e5m2,
        PrecisionLevel::INT8 => c.int8,
    }
}

/// The counters after one precision's count grew by one, sticking at the
/// greatest value instead of wrapping.
pub open spec fn spec_precision_bump(c: PrecisionCounts, p: PrecisionLevel) -> PrecisionCounts {
    match p {
        PrecisionLevel::BF16 => PrecisionCounts { bf16: sat_inc64(c.bf16), ..c },
        PrecisionLevel::FP8 => PrecisionCounts { fp8: sat_inc64(c.fp8), ..c },
        PrecisionLevel::E5M2 => PrecisionCounts { e5m2: sat_inc64(c.e5m2), ..c },
        PrecisionLevel::INT8 => PrecisionCounts { int8: sat_inc64(c.int8), ..c },
    }
}

/// An increment that sticks at the greatest value instead of wrapping.
pub open spec fn sat_inc64(x: u64) -> u64 {
    if x == u64::MAX {
        u64::MAX
    } else {
        (x + 1) as u64
    }
}

impl PrecisionCounts {
    /// All counters at zero.
    pub fn zero() -> (r: Self)
        ensures
            r == (PrecisionCounts { bf16: 0, fp8: 0, e5m2: 0, int8: 0 }),
    {
        PrecisionCounts { bf16: 0, fp8: 0, e5m2: 0, int8: 0 }
    }

    /// The count a precision level holds.
    pub fn get(&self, p: PrecisionLevel) -> (r: u64)
        ensures
            r == spec_precision_count(*self, p),
    {
        match p {
            PrecisionLevel::BF16 => self.bf16,
            PrecisionLevel::FP8 => self.fp8,
            PrecisionLevel::E5M2 => self.e5m2,
            PrecisionLevel::INT8 => self.int8,
        }
    }

    /// Grows one precision's count by one, sticking at the greatest value.
    pub fn bump(&mut self, p: PrecisionLevel)
        ensures
            *final(self) == spec_precision_bump(*old(self), p),
    {
        match p {
            PrecisionLevel::BF16 => {
                if self.bf16 < u64::MAX {
                    self.bf16 = self.bf16 + 1;
                }
            },
            PrecisionLevel::FP8 => {
                if self.fp8 < u64::MAX {
                    self.fp8 = self.fp8 + 1;
                }
            },
            PrecisionLevel::E5M2 => {
                if self.e5m2 < u64::MAX {
                    self.e5m2 = self.e5m2 + 1;
                }
            },
            PrecisionLevel::INT8 => {
                if self.int8 < u64::MAX {
                    self.int8 = self.int8 + 1;
                }
            },
        }
    }
}

/// Priority bands over the 8-bit priority value.
#[derive(Debug, Clone, Copy, PartialEq, Eq, Structural)]
pub enum JobPriority {
    /// Priorities 0 through 63.
    Low,
    /// Priorities 64 through 127.
    Normal,
    /// Priorities 128 through 191.
    High,
    /// Priorities 192 through 255.
    Critical,
}

/// The band a priority value falls in.
pub open spec fn spec_priority_band(value: u8) -> JobPriority {
    if value < 64 {
        JobPriority::Low
    } else if value < 128 {
        JobPriority::Normal
    } else if value < 192 {
        JobPriority::High
    } else {
        JobPriority::Critical
    }
}

/// The representative value of a priority band: the lowest value of the band.
pub open spec fn spec_priority_value(p: JobPriority) -> u8 {
    match p {
        JobPriority::Low => 0,
        JobPriority::Normal => 64,
        JobPriority::High => 128,
        JobPriority::Critical => 192,
    }
}

impl JobPriority {
    /// The band an 8-bit priority value falls in.
    pub fn from_u8(value: u8) -> (r: Self)
        ensures
            r == spec_priority_band(value),
    {
        if value < 64 {
            JobPriority::Low
        } else if value < 128 {
            JobPriority::Normal
        } else if value < 192 {
            JobPriority::High
        } else {
            JobPriority::Critical
        }
    }

    /// The lowest 8-bit value of this band.
    pub fn as_u8(&self) -> (r: u8)
        ensures
            r == spec_priority_value(*self),
    {
        match self {
            JobPriority::Low => 0,
            JobPriority::Normal => 64,
            JobPriority::High => 128,
            JobPriority::Critical => 192,
        }
    }
}

/// A compute job: identifier, precision, sequence length, and free-form
/// string parameters with unique keys.
#[derive(Debug, Clone, PartialEq, Eq)]
pub struct GxfJob {
    /// Job identifier.
    pub job_id: JobId,
    /// Precision level the job asks for.
    pub precision: PrecisionLevel,
    /// Key-value cache sequence length; must be strictly positive.
    pub kv_cache_seq_len: u32,
    /// Further parameters, looked up by key; the first entry of a key wins.
    pub parameters: Vec<(String, String)>,
}

/// Mathematical model of a job.
#[verifier::ext_equal]
pub ghost struct GxfJobView {
    /// The sixteen identifier bytes.
    pub job_id: Seq<u8>,
    /// Precision level.
    pub precision: PrecisionLevel,
    /// Sequence length.
    pub kv_cache_seq_len: u32,
    /// Parameter entries in insertion order.
    pub parameters: Seq<(Seq<char>, Seq<char>)>,
}

impl View for GxfJob {
    type V = GxfJobView;

    open spec fn view(&self) -> GxfJobView {
        GxfJobView {
            job_id: self.job_id.0@,
            precision: self.precision,
            kv_cache_seq_len: self.kv_cache_seq_len,
            parameters: crate::wire::pairs_view(self.parameters@),
        }
    }
}

/// The value the first entry of `key` holds, if any.
pub open spec fn spec_param_lookup(ps: Seq<(Seq<char>, Seq<char>)>, key: Seq<char>) -> Option<
    Seq<char>,
>
    decreases ps.len(),
{
    if ps.len() == 0 {
        None
    } else if ps[0].0 == key {
        Some(ps[0].1)
    } else {
        spec_param_lookup(ps.drop_first(), key)
    }
}

/// Whether a job is well formed: its sequence length is strictly positive.
/// (Its precision is always in the closed set.)
pub open spec fn spec_job_valid(j: GxfJobView) -> bool {
    j.kv_cache_seq_len > 0
}

/// Looking a key up after skipping a prefix of entries that do not hold it
/// finds the same entry.
proof fn lemma_param_lookup_skip(ps: Seq<(Seq<char>, Seq<char>)>, key: Seq<char>, n: int)
    requires
        0 <= n <= ps.len(),
        forall|t: int| 0 <= t < n ==> (#[trigger] ps[t]).0 != key,
    ensures
        spec_param_lookup(ps, key) == spec_param_lookup(ps.skip(n), key),
    decreases n,
{
    if n > 0 {
        assert(ps.drop_first().skip(n - 1) =~= ps.skip(n));
        lemma_param_lookup_skip(ps.drop_first(), key, n - 1);
    } else {
        assert(ps.skip(0) =~= ps);
    }
}

impl GxfJob {
    /// A job with the given identifier, precision and sequence length, and
    /// no parameters.
    pub fn new(job_id: JobId, precision: PrecisionLevel, kv_cache_seq_len: u32) -> (r: Self)
        ensures
            r@ == (GxfJobView {
                job_id: job_id.0@,
                precision,
                kv_cache_seq_len,
                parameters: Seq::<(Seq<char>, Seq<char>)>::empty(),
            }),
    {
        let r = GxfJob { job_id, precision, kv_cache_seq_len, parameters: Vec::new() };
        proof {
            assert(r@.parameters =~= Seq::<(Seq<char>, Seq<char>)>::empty());
        }
        r
    }

    /// Rejects a job whose sequence length is zero; accepts every other.
    pub fn validate(&self) -> (r: Result<(), GxfError>)
        ensures
            r == if spec_job_valid(self@) {
                Result::<(), GxfError>::Ok(())
            } else {
                Result::<(), GxfError>::Err(GxfError::InvalidSequenceLength(self.kv_cache_seq_len))
            },
    {
        if !self.precision.is_valid() {
            return Err(GxfError::InvalidPrecision);
        }
        if self.kv_cache_seq_len == 0 {
            return Err(GxfError::InvalidSequenceLength(self.kv_cache_seq_len));
        }
        Ok(())
    }

    /// The value stored under `key`, if any.
    pub fn get_parameter(&self, key: &String) -> (r: Option<&String>)
        ensures
            match r {
                Some(v) => spec_param_lookup(self@.parameters, key@) == Some(v@),
                None => spec_param_lookup(self@.parameters, key@) is None,
            },
    {
        let ghost ps = self@.parameters;
        let n = self.parameters.len();
        let mut i: usize = 0;
        while i < n
            invariant
                n == self.parameters.len(),
                0 <= i <= n,
                ps == self@.parameters,
                forall|t: int| 0 <= t < i ==> (#[trigger] ps[t]).0 != key@,
            decreases n - i,
        {
            if self.parameters[i].0 == *key {
                proof {
                    lemma_param_lookup_skip(ps, key@, i as int);
                    assert(ps.skip(i as int)[0] == ps[i as int]);
                }
                return Some(&self.parameters[i].1);
            }
            i += 1;
        }
        proof {
            lemma_param_lookup_skip(ps, key@, n as int);
            assert(ps.skip(n as int) =~= Seq::<(Seq<char>, Seq<char>)>::empty());
        }
        None
    }

    /// Stores `value` under `key`: replaces the first entry of the key, or
    /// appends a new entry when the key is absent.
    pub fn set_parameter(&mut self, key: String, value: String)
        ensures
            spec_param_lookup(final(self)@.parameters, key@) == Some(value@),
            final(self).job_id == old(self).job_id,
            final(self).precision == old(self).precision,
            final(self).kv_cache_seq_len == old(self).kv_cache_seq_len,
            forall|k: Seq<char>|
                k != key@ ==> #[trigger] spec_param_lookup(final(self)@.parameters, k)
                    == spec_param_lookup(old(self)@.parameters, k),
    {
        let n = self.parameters.len();
        let mut i: usize = 0;
        while i < n
            invariant
                *self == *old(self),
                n == self.parameters.len(),
                0 <= i <= n,
                forall|t: int| 0 <= t < i ==> (#[trigger] self@.parameters[t]).0 != key@,
            decreases n - i,
        {
            if self.parameters[i].0 == key {
                let ghost before = self@.parameters;
                self.parameters.set(i, (key, value));
                proof {
                    let after = self@.parameters;
                    assert(after =~= before.update(i as int, (key@, value@)));
                    lemma_param_lookup_update_hit(before, i as int, key@, value@);
                    assert forall|k: Seq<char>| k != key@ implies #[trigger] spec_param_lookup(
                        after,
                        k,
                    ) == spec_param_lookup(before, k) by {
                        lemma_param_lookup_update_other(before, i as int, key@, value@, k);
                    }
                }
                return ;
            }
            i += 1;
        }
        let ghost before = self@.parameters;
        self.parameters.push((key, value));
        proof {
            let after = self@.parameters;
            assert(after =~= before.push((key@, value@)));
            lemma_param_lookup_push(before, key@, value@);
            assert forall|k: Seq<char>| k != key@ implies #[trigger] spec_param_lookup(after, k)
                == spec_param_lookup(before, k) by {
                lemma_param_lookup_push_other(before, key@, value@, k);
            }
        }
    }
}

/// After updating the first entry of `key` in place, looking `key` up finds
/// the new value.
proof fn lemma_param_lookup_update_hit(
    ps: Seq<(Seq<char>, Seq<char>)>,
    i: int,
    key: Seq<char>,
    value: Seq<char>,
)
    requires
        0 <= i < ps.len(),
        ps[i].0 == key,
        forall|t: int| 0 <= t < i ==> (#[trigger] ps[t]).0 != key,
    ensures
        spec_param_lookup(ps.update(i, (key, value)), key) == Some(value),
    decreases i,
{
    if i == 0 {
        assert(ps.update(0, (key, value))[0] == (key, value));
    } else {
        assert(ps.update(i, (key, value)).drop_first() =~= ps.drop_first().update(
            i - 1,
            (key, value),
        ));
        lemma_param_lookup_update_hit(ps.drop_first(), i - 1, key, value);
    }
}

/// Updating an entry of one key leaves every other key's lookup unchanged.
proof fn lemma_param_lookup_update_other(
    ps: Seq<(Seq<char>, Seq<char>)>,
    i: int,
    key: Seq<char>,
    value: Seq<char>,
    k: Seq<char>,
)
    requires
        0 <= i < ps.len(),
        ps[i].0 == key,
        k != key,
    ensures
        spec_param_lookup(ps.update(i, (key, value)), k) == spec_param_lookup(ps, k),
    decreases i,
{
    let updated = ps.update(i, (key, value));
    if i == 0 {
        assert(updated[0] == (key, value));
        assert(updated.drop_first() =~= ps.drop_first());
    } else {
        assert(updated[0] == ps[0]);
        if ps[0].0 != k {
            assert(updated.drop_first() =~= ps.drop_first().update(i - 1, (key, value)));
            lemma_param_lookup_update_other(ps.drop_first(), i - 1, key, value, k);
        }
    }
}

/// Appending an entry of an absent key makes its lookup find the new value.
proof fn lemma_param_lookup_push(ps: Seq<(Seq<char>, Seq<char>)>, key: Seq<char>, value: Seq<char>)
    requires
        forall|t: int| 0 <= t < ps.len() ==> (#[trigger] ps[t]).0 != key,
    ensures
        spec_param_lookup(ps.push((key, value)), key) == Some(value),
    decreases ps.len(),
{
    if ps.len() == 0 {
        assert(ps.push((key, value))[0] == (key, value));
    } else {
        assert(ps.push((key, value)).drop_first() =~= ps.drop_first().push((key, value)));
        lemma_param_lookup_push(ps.drop_first(), key, value);
    }
}

/// Appending an entry of one key leaves every other key's lookup unchanged.
proof fn lemma_param_lookup_push_other(
    ps: Seq<(Seq<char>, Seq<char>)>,
    key: Seq<char>,
    value: Seq<char>,
    k: Seq<char>,
)
    requires
        k != key,
    ensures
        spec_param_lookup(ps.push((key, value)), k) == spec_param_lookup(ps, k),
    decreases ps.len(),
{
    reveal_with_fuel(spec_param_lookup, 3);
    let pushed = ps.push((key, value));
    if ps.len() == 0 {
        assert(pushed[0] == (key, value));
        assert(pushed.drop_first() =~= Seq::<(Seq<char>, Seq<char>)>::empty());
    } else {
        assert(pushed[0] == ps[0]);
        if ps[0].0 != k {
            assert(pushed.drop_first() =~= ps.drop_first().push((key, value)));
            lemma_param_lookup_push_other(ps.drop_first(), key, value, k);
        }
    }
}

/// Envelope metadata: version, priority, timestamps, optional addressing,
/// and free-form additional fields.
#[derive(Debug, Clone, PartialEq, Eq)]
pub struct GxfMetadata {
    /// Schema version; must equal [`GXF_VERSION`].
    pub schema_version: u8,
    /// Priority value, 0 through 255.
    pub priority: u8,
    /// Creation time, Unix seconds.
    pub created_at: u64,
    /// Expiry time, Unix seconds; `None` for an envelope that does not expire.
    pub expires_at: Option<u64>,
    /// Identity of the submitting provider, if any.
    pub source_slp: Option<String>,
    /// A lane the sender asks for, if any.
    pub target_lane: Option<String>,
    /// Further metadata entries; the first entry of a key wins.
    pub additional_fields: Vec<(String, String)>,
}

/// Mathematical model of envelope metadata.
#[verifier::ext_equal]
pub ghost struct GxfMetadataView {
    /// Schema version.
    pub schema_version: u8,
    /// Priority value.
    pub priority: u8,
    /// Creation time.
    pub created_at: u64,
    /// Expiry time, if set.
    pub expires_at: Option<u64>,
    /// Submitting provider, if set.
    pub source_slp: Option<Seq<char>>,
    /// Requested lane, if set.
    pub target_lane: Option<Seq<char>>,
    /// Additional entries in insertion order.
    pub additional_fields: Seq<(Seq<char>, Seq<char>)>,
}

impl View for GxfMetadata {
    type V = GxfMetadataView;

    open spec fn view(&self) -> GxfMetadataView {
        GxfMetadataView {
            schema_version: self.schema_version,
            priority: self.priority,
            created_at: self.created_at,
            expires_at: self.expires_at,
            source_slp: match self.source_slp {
                Some(s) => Some(s@),
                None => None,
            },
            target_lane: match self.target_lane {
                Some(s) => Some(s@),
                None => None,
            },
            additional_fields: crate::wire::pairs_view(self.additional_fields@),
        }
    }
}

/// The validation verdict on metadata at time `now`: the version must match,
/// and a set expiry must lie strictly in the future and strictly after
/// creation.
pub open spec fn spec_meta_validate(m: GxfMetadataView, now: u64) -> Result<(), GxfError> {
    if m.schema_version != GXF_VERSION {
        Err(GxfError::InvalidVersion { expected: GXF_VERSION, actual: m.schema_version })
    } else if m.expires_at is Some && m.expires_at->0 <= now {
        Err(GxfError::Expired { expires_at: m.expires_at->0, current_time: now })
    } else if m.expires_at is Some && m.expires_at->0 <= m.created_at {
        Err(GxfError::InvalidMetadata)
    } else {
        Ok(())
    }
}

/// Whether metadata is expired at time `now`: an expiry is set and has been
/// reached.
pub open spec fn spec_meta_expired(m: GxfMetadataView, now: u64) -> bool {
    m.expires_at is Some && m.expires_at->0 <= now
}

impl GxfMetadata {
    /// Metadata of the current schema version with the given priority,
    /// created at time `now`, without expiry, addressing or additional
    /// fields.
    pub fn new_at(priority: u8, now: u64) -> (r: Self)
        ensures
            r.schema_version == GXF_VERSION,
            r.priority == priority,
            r.created_at == now,
            r.expires_at is None,
            r.source_slp is None,
            r.target_lane is None,
            r@.additional_fields.len() == 0,
    {
        GxfMetadata {
            schema_version: GXF_VERSION,
            priority,
            created_at: now,
            expires_at: None,
            source_slp: None,
            target_lane: None,
            additional_fields: Vec::new(),
        }
    }

    /// Metadata of the current schema version with the given priority,
    /// created at the system clock's reading.
    pub fn new(priority: u8) -> (r: Result<Self, GxfError>)
        ensures
            r matches Ok(m) && m.schema_version == GXF_VERSION && m.priority == priority
                && m.expires_at is None && m.source_slp is None && m.target_lane is None
                && m@.additional_fields.len() == 0,
    {
        let now = current_unix_seconds();
        Ok(GxfMetadata::new_at(priority, now))
    }

    /// The validation verdict at time `now`.
    pub fn validate_at(&self, now: u64) -> (r: Result<(), GxfError>)
        ensures
            r == spec_meta_validate(self@, now),
    {
        if self.schema_version != GXF_VERSION {
            return Err(
                GxfError::InvalidVersion { expected: GXF_VERSION, actual: self.schema_version },
            );
        }
        if let Some(expires_at) = self.expires_at {
            if expires_at <= now {
                return Err(GxfError::Expired { expires_at, current_time: now });
            }
            if expires_at <= self.created_at {
                return Err(GxfError::InvalidMetadata);
            }
        }
        Ok(())
    }

    /// The validation verdict against the system clock.
    pub fn validate(&self) -> (r: Result<(), GxfError>)
        ensures
            exists|now: u64| r == spec_meta_validate(self@, now),
    {
        let now = current_unix_seconds();
        self.validate_at(now)
    }

    /// Whether the metadata is expired at time `now`.
    pub fn is_expired_at(&self, now: u64) -> (r: bool)
        ensures
            r == spec_meta_expired(self@, now),
    {
        match self.expires_at {
            Some(expires_at) => expires_at <= now,
            None => false,
        }
    }

    /// Whether the metadata is expired against the system clock.
    pub fn is_expired(&self) -> (r: bool)
        ensures
            exists|now: u64| r == spec_meta_expired(self@, now),
    {
        let now = current_unix_seconds();
        self.is_expired_at(now)
    }
}

/// An envelope: metadata beside an opaque payload that holds one serialized
/// job.
#[derive(Debug, Clone, PartialEq, Eq)]
pub struct GxfEnvelope {
    /// The metadata.
    pub meta: GxfMetadata,
    /// The payload: the job in the wire format.
    pub payload: Vec<u8>,
}

/// Mathematical model of an envelope.
#[verifier::ext_equal]
pub ghost struct GxfEnvelopeView {
    /// The metadata.
    pub meta: GxfMetadataView,
    /// The payload bytes.
    pub payload: Seq<u8>,
}

impl View for GxfEnvelope {
    type V = GxfEnvelopeView;

    open spec fn view(&self) -> GxfEnvelopeView {
        GxfEnvelopeView { meta: self.meta@, payload: self.payload@ }
    }
}

impl GxfEnvelope {
    /// An envelope of the given metadata and payload.
    pub fn new(meta: GxfMetadata, payload: Vec<u8>) -> (r: Self)
        ensures
            r@.meta == meta@,
            r@.payload == payload@,
    {
        GxfEnvelope { meta, payload }
    }
}

/// Rejects a job whose sequence length is zero; accepts every other.
pub fn validate_job(job: &GxfJob) -> (r: Result<(), GxfError>)
    ensures
        r == if spec_job_valid(job@) {
            Result::<(), GxfError>::Ok(())
        } else {
            Result::<(), GxfError>::Err(GxfError::InvalidSequenceLength(job.kv_cache_seq_len))
        },
{
    job.validate()
}

} // verus!
