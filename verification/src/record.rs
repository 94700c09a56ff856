//! The records that the vault keeps: satellites by catalog id, and orbit
//! data in one of the supported formats.
use vstd::prelude::*;
use vstd::string::StrSliceExecFns;

pub mod order;
pub mod tle;

pub use tle::Tle;

verus! {

/// A shared buffer of bytes, carried through as the raw data of an orbit record.
#[verifier::external_type_specification]
#[verifier::external_body]
pub struct ExBytes(bytes::Bytes);

/// `Bytes::clone`: a new handle on the same buffer. Nothing is stated of the
/// handle that comes back; the library only carries it.
pub assume_specification[ <bytes::Bytes as std::clone::Clone>::clone ](b: &bytes::Bytes) -> bytes::Bytes;

/// An instant in UTC, as the epoch of an orbit record: whole seconds since
/// 1970-01-01T00:00:00Z and the nanoseconds past that second (at or above
/// one second during a leap second).
#[derive(Debug, Clone, Copy, PartialEq, Eq, Structural)]
pub struct Epoch {
    pub unix_seconds: i64,
    pub subsec_nanos: u32,
}

/// The format in which orbit data is written.
#[derive(Debug, Clone, Copy, PartialEq, Eq, Structural)]
pub enum OrbitFormat {
    TLE,
    OMM,
}

impl OrbitFormat {
    /// The name under which a format is shown and stored.
    pub open spec fn name(self) -> Seq<char> {
        match self {
            OrbitFormat::TLE => seq!['T', 'L', 'E'],
            OrbitFormat::OMM => seq!['O', 'M', 'M'],
        }
    }

    /// The format that a stored name stands for: "OMM" for OMM, and TLE for
    /// every other name.
    pub open spec fn from_name(s: Seq<char>) -> OrbitFormat {
        if s == seq!['O', 'M', 'M'] {
            OrbitFormat::OMM
        } else {
            OrbitFormat::TLE
        }
    }

    /// The name of the format: "TLE" or "OMM".
    pub fn as_str(&self) -> (r: &'static str)
        ensures
            r@ == self.name(),
    {
        match self {
            OrbitFormat::TLE => {
                let s = "TLE";
                proof {
                    reveal_strlit("TLE");
                }
                assert(s@ =~= seq!['T', 'L', 'E']);
                s
            },
            OrbitFormat::OMM => {
                let s = "OMM";
                proof {
                    reveal_strlit("OMM");
                }
                assert(s@ =~= seq!['O', 'M', 'M']);
                s
            },
        }
    }

    /// The format that a stored name stands for; names other than "OMM" are
    /// read as TLE.
    pub fn from_db_str(s: &str) -> (r: OrbitFormat)
        ensures
            r == Self::from_name(s@),
    {
        if s.unicode_len() == 3 && s.get_char(0) == 'O' && s.get_char(1) == 'M' && s.get_char(2)
            == 'M' {
            assert(s@ =~= seq!['O', 'M', 'M']);
            OrbitFormat::OMM
        } else {
            OrbitFormat::TLE
        }
    }
}

/// Reading back the stored name of a format gives the same format.
pub proof fn lemma_format_name_round_trip(f: OrbitFormat)
    ensures
        OrbitFormat::from_name(f.name()) == f,
{
    if f == OrbitFormat::TLE {
        assert(seq!['T', 'L', 'E'] != seq!['O', 'M', 'M']) by {
            assert(seq!['T', 'L', 'E'][0] != seq!['O', 'M', 'M'][0]);
        }
    }
}

/// A satellite, known by its catalog id, with its name.
///
/// Records are equal, and ordered, by their catalog ids alone; the names
/// take no part.
#[derive(Debug, Clone)]
pub struct SatelliteIdRecord {
    /// The satellite's catalog id.
    pub catalog_id: String,
    /// The satellite's name.
    pub satellite_name: String,
}

impl SatelliteIdRecord {
    pub fn new(catalog_id: String, satellite_name: String) -> (r: Self)
        ensures
            r.catalog_id == catalog_id,
            r.satellite_name == satellite_name,
    {
        SatelliteIdRecord { catalog_id, satellite_name }
    }
}

/// Orbit data of one satellite at one epoch, as the vault stores it.
///
/// Records are ordered by `db_id` alone.
#[derive(Debug, Clone, PartialEq, Eq)]
pub struct OrbitRecord {
    /// The key under which the vault stores the record.
    pub db_id: usize,
    pub format: OrbitFormat,
    /// The satellite's catalog id.
    pub catalog_id: String,
    pub epoch: Epoch,
    /// The orbit data as it was read.
    pub raw_data: bytes::Bytes,
}

impl OrbitRecord {
    pub fn new(
        db_id: usize,
        format: OrbitFormat,
        catalog_id: String,
        epoch: Epoch,
        raw_data: bytes::Bytes,
    ) -> (r: Self)
        ensures
            r.db_id == db_id,
            r.format == format,
            r.catalog_id == catalog_id,
            r.epoch == epoch,
            r.raw_data == raw_data,
    {
        OrbitRecord { db_id, format, catalog_id, epoch, raw_data }
    }
}

} // verus!
