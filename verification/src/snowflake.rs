//! Time-ordered 63-bit identifiers.
//!
//! An identifier packs a 43-bit millisecond timestamp (relative to a fixed
//! epoch), an 8-bit node tag and a 12-bit per-millisecond sequence counter
//! into one non-negative `i64`:
//!
//! ```text
//! id = timestamp * 2^20 + node * 2^12 + sequence
//! ```
//!
//! Identifiers are ordered by value, which orders them by time first.

use vstd::prelude::*;

verus! {

use vstd::arithmetic::div_mod::lemma_fundamental_div_mod_converse;
use vstd::string::StringSliceAdditionalSpecFns;

#[derive(Clone, Copy, PartialEq, Eq, Structural, Debug, Hash)]
pub struct Snowflake {
    pub id: i64,
}

impl Snowflake {
    /// Every identifier ever issued or accepted is non-negative.
    pub open spec fn valid(self) -> bool {
        0 <= self.id
    }

    /// The millisecond timestamp packed into this identifier.
    pub open spec fn spec_ts(self) -> int {
        self.id as int / 0x100000
    }

    /// The node tag packed into this identifier.
    pub open spec fn spec_node(self) -> int {
        (self.id as int / 0x1000) % 0x100
    }

    /// The per-millisecond sequence number packed into this identifier.
    pub open spec fn spec_seq(self) -> int {
        self.id as int % 0x1000
    }

    /// The packed integer value.
    pub fn id(&self) -> (r: i64)
        ensures
            r == self.id,
    {
        self.id
    }

    /// Packs a (timestamp, node, sequence) triple into an identifier.
    pub fn from_parts(ts: i64, node: i64, seq: i64) -> (r: Snowflake)
        requires
            0 <= ts < 0x80000000000,
            0 <= node < 0x100,
            0 <= seq < 0x1000,
        ensures
            r.valid(),
            r.spec_ts() == ts,
            r.spec_node() == node,
            r.spec_seq() == seq,
            r.id == ts * 0x100000 + node * 0x1000 + seq,
    {
        let id = ts * 0x100000 + node * 0x1000 + seq;
        proof {
            lemma_unpack_parts(ts as int, node as int, seq as int);
        }
        Snowflake { id }
    }

    /// Accepts any non-negative integer as an identifier; rejects the rest.
    pub fn try_from(value: i64) -> (r: Result<Snowflake, IdError>)
        ensures
            r is Ok <==> value >= 0,
            r is Ok ==> r->Ok_0 == (Snowflake { id: value }) && r->Ok_0.valid(),
            r is Err ==> r->Err_0 == IdError::InvalidId,
    {
        if value >= 0 {
            Ok(Snowflake { id: value })
        } else {
            Err(IdError::InvalidId)
        }
    }

    /// The textual form every wire payload carries: the decimal digits of
    /// the packed value.
    pub fn to_dec_string(&self) -> (r: String)
        requires
            self.valid(),
        ensures
            vstd::utf8::encode_utf8(r@) == crate::codec::dec_bytes(self.id as nat),
    {
        crate::codec::i64_to_string(self.id)
    }

    /// Reads an identifier back from its decimal form: accepts exactly the
    /// decimal strings whose value is a valid identifier.
    pub fn from_str(s: &str) -> (r: Option<Snowflake>)
        ensures
            ({
                let p = crate::codec::parsed_i64(s.spec_bytes());
                match p {
                    Some(v) => if v >= 0 {
                        r == Some(Snowflake { id: v })
                    } else {
                        r is None
                    },
                    None => r is None,
                }
            }),
    {
        match crate::codec::parse_i64_dec(s.as_bytes()) {
            Some(v) => {
                if v >= 0 {
                    Some(Snowflake { id: v })
                } else {
                    None
                }
            },
            None => None,
        }
    }

    /// The millisecond timestamp of this identifier.
    pub fn timestamp(&self) -> (r: i64)
        requires
            self.valid(),
        ensures
            r == self.spec_ts(),
    {
        self.id / 0x100000
    }

    /// The node tag of this identifier.
    pub fn node_id(&self) -> (r: i64)
        requires
            self.valid(),
        ensures
            r == self.spec_node(),
    {
        (self.id / 0x1000) % 0x100
    }

    /// The sequence number of this identifier.
    pub fn sequence(&self) -> (r: i64)
        requires
            self.valid(),
        ensures
            r == self.spec_seq(),
    {
        self.id % 0x1000
    }
}

/// Reasons an identifier or the identifier generator can refuse to work.
#[derive(Clone, Copy, PartialEq, Eq, Structural, Debug)]
pub enum IdError {
    /// A negative integer was offered as an identifier.
    InvalidId,
    /// The configured node tag does not fit in 8 bits.
    NodeOutOfRange,
    /// The configured epoch lies in the future.
    EpochInFuture,
    /// The clock moved backwards; retry after a delay.
    ClockRegression,
    /// All 4096 sequence values of the current millisecond are used up.
    SequenceExhausted,
    /// The 43-bit timestamp range since the epoch is exhausted.
    TimestampOverflow,
}

/// Packing is inverted exactly by the three `spec_*` projections.
proof fn lemma_unpack_parts(ts: int, node: int, seq: int)
    requires
        0 <= ts < 0x80000000000,
        0 <= node < 0x100,
        0 <= seq < 0x1000,
    ensures
        (ts * 0x100000 + node * 0x1000 + seq) / 0x100000 == ts,
        ((ts * 0x100000 + node * 0x1000 + seq) / 0x1000) % 0x100 == node,
        (ts * 0x100000 + node * 0x1000 + seq) % 0x1000 == seq,
{
    let id = ts * 0x100000 + node * 0x1000 + seq;
    lemma_fundamental_div_mod_converse(id, 0x100000, ts, node * 0x1000 + seq);
    lemma_fundamental_div_mod_converse(id, 0x1000, ts * 0x100 + node, seq);
    lemma_fundamental_div_mod_converse(ts * 0x100 + node, 0x100, ts, node);
}

} // verus!
