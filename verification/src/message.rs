//! What a refusal says.

use vstd::prelude::*;
use vstd::string::*;

use crate::model::{DecayFault, Distance, ExpandField, QueryFault};
use crate::store::StoreError;

verus! {

/// The marker that every refusal of a caller's query carries.
pub const BAD_QUERY: &'static str = "invalid query option";

/// The decimal digit `d`.
pub open spec fn digit(d: nat) -> char {
    if d == 0 {
        '0'
    } else if d == 1 {
        '1'
    } else if d == 2 {
        '2'
    } else if d == 3 {
        '3'
    } else if d == 4 {
        '4'
    } else if d == 5 {
        '5'
    } else if d == 6 {
        '6'
    } else if d == 7 {
        '7'
    } else if d == 8 {
        '8'
    } else {
        '9'
    }
}

/// `n` in decimal digits.
pub open spec fn digits(n: nat) -> Seq<char>
    decreases n,
{
    if n < 10 {
        seq![digit(n)]
    } else {
        digits(n / 10).push(digit(n % 10))
    }
}

fn digit_text(d: u64) -> (r: &'static str)
    requires
        d < 10,
    ensures
        r@ == seq![digit(d as nat)],
{
    proof {
        reveal_strlit("0");
        reveal_strlit("1");
        reveal_strlit("2");
        reveal_strlit("3");
        reveal_strlit("4");
        reveal_strlit("5");
        reveal_strlit("6");
        reveal_strlit("7");
        reveal_strlit("8");
        reveal_strlit("9");
    }
    let r = if d == 0 {
        "0"
    } else if d == 1 {
        "1"
    } else if d == 2 {
        "2"
    } else if d == 3 {
        "3"
    } else if d == 4 {
        "4"
    } else if d == 5 {
        "5"
    } else if d == 6 {
        "6"
    } else if d == 7 {
        "7"
    } else if d == 8 {
        "8"
    } else {
        "9"
    };
    proof {
        assert(r@ =~= seq![digit(d as nat)]);
    }
    r
}

/// `n` in decimal digits.
pub fn decimal(n: u64) -> (r: String)
    ensures
        r@ == digits(n as nat),
    decreases n,
{
    if n < 10 {
        return digit_text(n).to_owned();
    }
    let mut r = decimal(n / 10);
    let ghost head = r@;
    r.append(digit_text(n % 10));
    proof {
        assert(r@ =~= head.push(digit((n % 10) as nat)));
    }
    r
}

/// `n` in decimal digits, behind its sign where that is a minus.
pub open spec fn signed(n: i64) -> Seq<char> {
    if n < 0 {
        "-"@ + digits(-n as nat)
    } else {
        digits(n as nat)
    }
}

fn signed_decimal(n: i64) -> (r: String)
    ensures
        r@ == signed(n),
{
    if n >= 0 {
        return decimal(n as u64);
    }
    let mut r = "-".to_owned();
    let size: u64 = if n == i64::MIN {
        9_223_372_036_854_775_808
    } else {
        (-n) as u64
    };
    r.append(decimal(size).as_str());
    r
}

/// The name of a metric.
pub open spec fn metric_name(d: Distance) -> Seq<char> {
    match d {
        Distance::Cosine => "Cosine"@,
        Distance::DotProduct => "DotProduct"@,
        Distance::Euclidean => "Euclidean"@,
    }
}

fn metric_text(d: Distance) -> (r: &'static str)
    ensures
        r@ == metric_name(d),
{
    match d {
        Distance::Cosine => "Cosine",
        Distance::DotProduct => "DotProduct",
        Distance::Euclidean => "Euclidean",
    }
}

/// What is wrong with a query.
pub open spec fn fault_text(f: QueryFault) -> Seq<char> {
    match f {
        QueryFault::Decay(DecayFault::Field) => "Decay needs a timestamp field name"@,
        QueryFault::Decay(DecayFault::Scale(n)) => "Decay scale must be positive, got "@ + signed(n),
        QueryFault::Decay(DecayFault::Decay) => "Decay decay must be in (0, 1)"@,
        QueryFault::Decay(DecayFault::Lambda) => "Decay lambda must be finite and non-negative"@,
        QueryFault::Decay(DecayFault::Missing) => "Decay missing must be in [0, 1]"@,
        QueryFault::Decay(DecayFault::CountScale) => "Decay count_scale must be positive"@,
        QueryFault::Decay(DecayFault::CountLambda) => "Decay count_lambda must be finite and non-negative"@,
        QueryFault::LimitPerField => "limit_per needs a field name"@,
        QueryFault::LimitPerMax => "limit_per max must be at least 1"@,
        QueryFault::Diversity => "diversity must be a finite lambda in [0.0, 1.0]"@,
        QueryFault::Expand(ExpandField::Parent) => "expand needs a parent_field"@,
        QueryFault::Expand(ExpandField::Index) => "expand needs a index_field"@,
        QueryFault::Expand(ExpandField::Text) => "expand needs a text_field"@,
        QueryFault::VectorWeight => "vector_weight must be finite and non-negative"@,
        QueryFault::TextWeight => "text_weight must be finite and non-negative"@,
        QueryFault::NoClauses => "a text query needs at least one clause"@,
        QueryFault::Filter => "the filter is malformed"@,
        QueryFault::NoRecord => "no record has this id"@,
        QueryFault::TextOnly => "the record is text-only and has no vector to search with"@,
    }
}

fn fault(f: QueryFault) -> (r: String)
    ensures
        r@ == fault_text(f),
{
    match f {
        QueryFault::Decay(DecayFault::Field) => "Decay needs a timestamp field name".to_owned(),
        QueryFault::Decay(DecayFault::Scale(n)) => {
            let mut r = "Decay scale must be positive, got ".to_owned();
            r.append(signed_decimal(n).as_str());
            r
        },
        QueryFault::Decay(DecayFault::Decay) => "Decay decay must be in (0, 1)".to_owned(),
        QueryFault::Decay(DecayFault::Lambda) => "Decay lambda must be finite and non-negative".to_owned(),
        QueryFault::Decay(DecayFault::Missing) => "Decay missing must be in [0, 1]".to_owned(),
        QueryFault::Decay(DecayFault::CountScale) => "Decay count_scale must be positive".to_owned(),
        QueryFault::Decay(DecayFault::CountLambda) => "Decay count_lambda must be finite and non-negative".to_owned(),
        QueryFault::LimitPerField => "limit_per needs a field name".to_owned(),
        QueryFault::LimitPerMax => "limit_per max must be at least 1".to_owned(),
        QueryFault::Diversity => "diversity must be a finite lambda in [0.0, 1.0]".to_owned(),
        QueryFault::Expand(ExpandField::Parent) => "expand needs a parent_field".to_owned(),
        QueryFault::Expand(ExpandField::Index) => "expand needs a index_field".to_owned(),
        QueryFault::Expand(ExpandField::Text) => "expand needs a text_field".to_owned(),
        QueryFault::VectorWeight => "vector_weight must be finite and non-negative".to_owned(),
        QueryFault::TextWeight => "text_weight must be finite and non-negative".to_owned(),
        QueryFault::NoClauses => "a text query needs at least one clause".to_owned(),
        QueryFault::Filter => "the filter is malformed".to_owned(),
        QueryFault::NoRecord => "no record has this id".to_owned(),
        QueryFault::TextOnly => "the record is text-only and has no vector to search with".to_owned(),
    }
}

/// What a refusal says.
pub open spec fn refusal_text(e: StoreError) -> Seq<char> {
    match e {
        StoreError::ReadOnly => "the store was opened read-only"@,
        StoreError::Cancelled => "the query was cancelled"@,
        StoreError::Fenced => "writer lease lost: this writer was superseded and is fenced"@,
        StoreError::Locked => "store is locked by another writer"@,
        StoreError::VectorLength { got, want } => "vector length "@ + digits(got as nat) + " does not match store dimension "@ + digits(want as nat),
        StoreError::QueryLength { got, want } => "query length "@ + digits(got as nat) + " does not match store dimension "@ + digits(want as nat),
        StoreError::OverCap { bytes, cap } => "vectors of "@ + digits(bytes as nat) + " bytes would exceed max_vector_bytes "@ + digits(cap as nat),
        StoreError::Full => "the store has no room for another operation"@,
        StoreError::FtsParams => "a full-text field needs a finite, non-negative k1 and a b in [0, 1]"@,
        StoreError::BinaryNeedsCosine => "binary quantization requires Distance::Cosine (sign codes are an angular proxy and ignore magnitude); use int8 quantization for a dot-product or Euclidean store"@,
        StoreError::SegmentIndexWithQuantization => "segment_index_min_rows and quantization cannot be combined"@,
        StoreError::ClusterNeedsObjectStore => "cluster mode requires a shared object-store persistence backend (s3://… or gs://…); a local-filesystem store is single-node"@,
        StoreError::ClusterNeedsMemoryTier => "cluster mode requires a shared memory tier (e.g. redis://…); the process-local working set cannot be shared between instances"@,
        StoreError::ClusterNeedsCas => "cluster mode requires a persistence backend with compare-and-swap (S3 If-Match / GCS ifGenerationMatch); this backend has none, so the writer lease would be advisory only and a superseded writer could overwrite committed data"@,
        StoreError::StoredDimension { stored, want } => "store dimension mismatch: manifest has "@ + digits(stored as nat) + ", requested "@ + digits(want as nat),
        StoreError::StoredDistance { stored, want } => "store distance metric mismatch: manifest has "@ + metric_name(stored) + ", requested "@ + metric_name(want),
        StoreError::SwappedDimension { stored, opened } => "store dimension mismatch on refresh: manifest has "@ + digits(stored as nat) + ", store opened with "@ + digits(opened as nat),
        StoreError::SwappedDistance { stored, opened } => "store distance metric mismatch on refresh: manifest has "@ + metric_name(stored) + ", store opened with "@ + metric_name(opened),
        StoreError::VersionAhead { version, current } => "version "@ + digits(version as nat) + " does not exist yet: the store's current commit version is "@ + digits(current as nat),
        StoreError::VersionGone { version, oldest, current } => "version "@ + digits(version as nat) + " is no longer readable (its segments were reclaimed by a compaction, or it was pruned): the oldest readable version is "@ + digits(oldest as nat) + ", current is "@ + digits(current as nat),
        StoreError::VersionUnrecorded { version, oldest, current } => "version "@ + digits(version as nat) + " is not readable: the oldest recorded version is "@ + digits(oldest as nat) + ", current is "@ + digits(current as nat),
        StoreError::NoHistory { version, current } => "version "@ + digits(version as nat) + " is not readable: this store records no history (Config::history_versions is off); only the current version "@ + digits(current as nat) + " is readable"@,
        StoreError::VersionReclaimed { version, rows, expected } => "version "@ + digits(version as nat) + " is no longer readable (its segments were reclaimed by a compaction, or it was pruned): the live segment set now holds "@ + digits(rows as nat) + " rows, fewer than the "@ + digits(expected as nat) + " this snapshot expects"@,
        StoreError::DamagedRows => "the stored segments are damaged"@,
        StoreError::PinnedWriter => "a handle that is pinned to a version cannot write"@,
        StoreError::NotARefreshableReader => "refresh_to requires a durable ReadOnly store"@,
        StoreError::Query(f) => BAD_QUERY@ + ": "@ + fault_text(f),
    }
}

/// What a refusal says of the record that the query named.
pub open spec fn refusal_about(e: StoreError, collection: Seq<char>, id: Seq<char>) -> Seq<char> {
    match e {
        StoreError::Query(QueryFault::NoRecord) => BAD_QUERY@ + ": no record `"@ + id
            + "` in collection `"@ + collection + "`"@,
        StoreError::Query(QueryFault::TextOnly) => BAD_QUERY@ + ": record `"@ + collection + "/"@
            + id + "` is text-only and has no vector to search with"@,
        _ => refusal_text(e),
    }
}

impl StoreError {
    /// What the refusal says.
    pub fn message(&self) -> (r: String)
        ensures
            r@ == refusal_text(*self),
    {
        match self {
            StoreError::ReadOnly => "the store was opened read-only".to_owned(),
            StoreError::Cancelled => "the query was cancelled".to_owned(),
            StoreError::Fenced => "writer lease lost: this writer was superseded and is fenced".to_owned(),
            StoreError::Locked => "store is locked by another writer".to_owned(),
            StoreError::VectorLength { got, want } => {
                let mut r = "vector length ".to_owned();
                r.append(decimal(*got as u64).as_str());
                r.append(" does not match store dimension ");
                r.append(decimal(*want as u64).as_str());
                r
            },
            StoreError::QueryLength { got, want } => {
                let mut r = "query length ".to_owned();
                r.append(decimal(*got as u64).as_str());
                r.append(" does not match store dimension ");
                r.append(decimal(*want as u64).as_str());
                r
            },
            StoreError::OverCap { bytes, cap } => {
                let mut r = "vectors of ".to_owned();
                r.append(decimal(*bytes as u64).as_str());
                r.append(" bytes would exceed max_vector_bytes ");
                r.append(decimal(*cap as u64).as_str());
                r
            },
            StoreError::Full => "the store has no room for another operation".to_owned(),
            StoreError::FtsParams => "a full-text field needs a finite, non-negative k1 and a b in [0, 1]".to_owned(),
            StoreError::BinaryNeedsCosine => "binary quantization requires Distance::Cosine (sign codes are an angular proxy and ignore magnitude); use int8 quantization for a dot-product or Euclidean store".to_owned(),
            StoreError::SegmentIndexWithQuantization => "segment_index_min_rows and quantization cannot be combined".to_owned(),
            StoreError::ClusterNeedsObjectStore => "cluster mode requires a shared object-store persistence backend (s3://… or gs://…); a local-filesystem store is single-node".to_owned(),
            StoreError::ClusterNeedsMemoryTier => "cluster mode requires a shared memory tier (e.g. redis://…); the process-local working set cannot be shared between instances".to_owned(),
            StoreError::ClusterNeedsCas => "cluster mode requires a persistence backend with compare-and-swap (S3 If-Match / GCS ifGenerationMatch); this backend has none, so the writer lease would be advisory only and a superseded writer could overwrite committed data".to_owned(),
            StoreError::StoredDimension { stored, want } => {
                let mut r = "store dimension mismatch: manifest has ".to_owned();
                r.append(decimal(*stored as u64).as_str());
                r.append(", requested ");
                r.append(decimal(*want as u64).as_str());
                r
            },
            StoreError::StoredDistance { stored, want } => {
                let mut r = "store distance metric mismatch: manifest has ".to_owned();
                r.append(metric_text(*stored));
                r.append(", requested ");
                r.append(metric_text(*want));
                r
            },
            StoreError::SwappedDimension { stored, opened } => {
                let mut r = "store dimension mismatch on refresh: manifest has ".to_owned();
                r.append(decimal(*stored as u64).as_str());
                r.append(", store opened with ");
                r.append(decimal(*opened as u64).as_str());
                r
            },
            StoreError::SwappedDistance { stored, opened } => {
                let mut r = "store distance metric mismatch on refresh: manifest has ".to_owned();
                r.append(metric_text(*stored));
                r.append(", store opened with ");
                r.append(metric_text(*opened));
                r
            },
            StoreError::VersionAhead { version, current } => {
                let mut r = "version ".to_owned();
                r.append(decimal(*version as u64).as_str());
                r.append(" does not exist yet: the store's current commit version is ");
                r.append(decimal(*current as u64).as_str());
                r
            },
            StoreError::VersionGone { version, oldest, current } => {
                let mut r = "version ".to_owned();
                r.append(decimal(*version as u64).as_str());
                r.append(" is no longer readable (its segments were reclaimed by a compaction, or it was pruned): the oldest readable version is ");
                r.append(decimal(*oldest as u64).as_str());
                r.append(", current is ");
                r.append(decimal(*current as u64).as_str());
                r
            },
            StoreError::VersionUnrecorded { version, oldest, current } => {
                let mut r = "version ".to_owned();
                r.append(decimal(*version as u64).as_str());
                r.append(" is not readable: the oldest recorded version is ");
                r.append(decimal(*oldest as u64).as_str());
                r.append(", current is ");
                r.append(decimal(*current as u64).as_str());
                r
            },
            StoreError::NoHistory { version, current } => {
                let mut r = "version ".to_owned();
                r.append(decimal(*version as u64).as_str());
                r.append(" is not readable: this store records no history (Config::history_versions is off); only the current version ");
                r.append(decimal(*current as u64).as_str());
                r.append(" is readable");
                r
            },
            StoreError::VersionReclaimed { version, rows, expected } => {
                let mut r = "version ".to_owned();
                r.append(decimal(*version as u64).as_str());
                r.append(" is no longer readable (its segments were reclaimed by a compaction, or it was pruned): the live segment set now holds ");
                r.append(decimal(*rows as u64).as_str());
                r.append(" rows, fewer than the ");
                r.append(decimal(*expected as u64).as_str());
                r.append(" this snapshot expects");
                r
            },
            StoreError::DamagedRows => "the stored segments are damaged".to_owned(),
            StoreError::PinnedWriter => "a handle that is pinned to a version cannot write".to_owned(),
            StoreError::NotARefreshableReader => "refresh_to requires a durable ReadOnly store".to_owned(),
            StoreError::Query(f) => {
                let mut r = BAD_QUERY.to_owned();
                r.append(": ");
                r.append(fault(*f).as_str());
                r
            },
        }
    }

    /// What the refusal says of the record that the query named.
    pub fn about(&self, collection: &str, id: &str) -> (r: String)
        ensures
            r@ == refusal_about(*self, collection@, id@),
    {
        match self {
            StoreError::Query(QueryFault::NoRecord) => {
                let mut r = BAD_QUERY.to_owned();
                r.append(": no record `");
                r.append(id);
                r.append("` in collection `");
                r.append(collection);
                r.append("`");
                r
            },
            StoreError::Query(QueryFault::TextOnly) => {
                let mut r = BAD_QUERY.to_owned();
                r.append(": record `");
                r.append(collection);
                r.append("/");
                r.append(id);
                r.append("` is text-only and has no vector to search with");
                r
            },
            _ => self.message(),
        }
    }
}

} // verus!
