//! The fixed-layout octant record of the spatial-index file: an 8-byte
//! identifier, three center and three extent fields kept as raw 32-bit
//! patterns, eight child identifiers (`-1` meaning "no child"), and four
//! 32-bit counters.  A record occupies exactly 112 bytes.

use vstd::prelude::*;

use crate::codec::{
    be32_at, be32_bytes, be64_at, be64_bytes, i32_bits, i32_from_bits, i32_to_bits, i64_bits,
    i64_from_bits, i64_to_bits, lemma_be32_at_bytes, lemma_be64_at_bytes, push_u32_be, push_u64_be,
    read_i32_be, read_i64_be, read_u32_be, spec_file_header, FileHeader,
};

verus! {

pub const OCTANT_CHILDREN_COUNT: usize = 8;

pub const OCTANT_RECORD_BYTES: usize = 112;

/// One decoded spatial-index record.  The center and extent fields of the
/// file are IEEE-754 patterns; they are carried through as raw bits, since
/// turning them into fixed-point coordinates is unit conversion left to the
/// caller.
#[derive(Clone, Debug)]
pub struct OctantRecord {
    pub octant_id: i64,
    pub center_bits: [u32; 3],
    pub extent_bits: [u32; 3],
    pub children: [i64; 8],
    pub depth: i32,
    pub cumulative_star_count: i32,
    pub star_count: i32,
    pub child_count: i32,
}

/// Mathematical image of an `OctantRecord`.
#[verifier::ext_equal]
pub struct OctantRecordView {
    pub octant_id: i64,
    pub center_bits: Seq<u32>,
    pub extent_bits: Seq<u32>,
    pub children: Seq<i64>,
    pub depth: i32,
    pub cumulative_star_count: i32,
    pub star_count: i32,
    pub child_count: i32,
}

impl View for OctantRecord {
    type V = OctantRecordView;

    open spec fn view(&self) -> OctantRecordView {
        OctantRecordView {
            octant_id: self.octant_id,
            center_bits: self.center_bits@,
            extent_bits: self.extent_bits@,
            children: self.children@,
            depth: self.depth,
            cumulative_star_count: self.cumulative_star_count,
            star_count: self.star_count,
            child_count: self.child_count,
        }
    }
}

/// The record laid out at offset `p` of `b`.
pub open spec fn spec_octant_record(b: Seq<u8>, p: int) -> OctantRecordView {
    OctantRecordView {
        octant_id: i64_from_bits(be64_at(b, p)),
        center_bits: Seq::new(3, |j: int| be32_at(b, p + 8 + 4 * j)),
        extent_bits: Seq::new(3, |j: int| be32_at(b, p + 20 + 4 * j)),
        children: Seq::new(8, |j: int| i64_from_bits(be64_at(b, p + 32 + 8 * j))),
        depth: i32_from_bits(be32_at(b, p + 96)),
        cumulative_star_count: i32_from_bits(be32_at(b, p + 100)),
        star_count: i32_from_bits(be32_at(b, p + 104)),
        child_count: i32_from_bits(be32_at(b, p + 108)),
    }
}

/// The sequence of records laid out from offset `p`, at most `count` of
/// them; a record that would run past the end of `b` truncates the
/// sequence.
pub open spec fn spec_octant_records(b: Seq<u8>, p: int, count: nat) -> Seq<OctantRecordView>
    decreases count,
{
    if count == 0 {
        Seq::empty()
    } else if 0 <= p && p + 112 <= b.len() {
        seq![spec_octant_record(b, p)] + spec_octant_records(b, p + 112, (count - 1) as nat)
    } else {
        Seq::empty()
    }
}

/// Number of records a header announces; a negative count announces none.
pub open spec fn header_count(h: FileHeader) -> nat {
    if h.size < 0 {
        0
    } else {
        h.size as nat
    }
}

/// Views of a decoded record vector.
pub open spec fn octant_records_view(v: Seq<OctantRecord>) -> Seq<OctantRecordView> {
    v.map_values(|x: OctantRecord| x@)
}

impl OctantRecord {
    /// Decode one record at `pos`; `None` exactly when fewer than 112
    /// bytes remain.
    pub fn from_reader(b: &Vec<u8>, pos: usize) -> (r: Option<OctantRecord>)
        requires
            pos <= b.len(),
        ensures
            match r {
                Some(rec) => pos + 112 <= b@.len() && rec@ == spec_octant_record(b@, pos as int),
                None => pos + 112 > b@.len(),
            },
    {
        if b.len() - pos < 112 {
            return None;
        }
        let octant_id = read_i64_be(b, pos);
        let center_bits = [read_u32_be(b, pos + 8), read_u32_be(b, pos + 12), read_u32_be(
            b,
            pos + 16,
        )];
        let extent_bits = [read_u32_be(b, pos + 20), read_u32_be(b, pos + 24), read_u32_be(
            b,
            pos + 28,
        )];
        let children = [
            read_i64_be(b, pos + 32),
            read_i64_be(b, pos + 40),
            read_i64_be(b, pos + 48),
            read_i64_be(b, pos + 56),
            read_i64_be(b, pos + 64),
            read_i64_be(b, pos + 72),
            read_i64_be(b, pos + 80),
            read_i64_be(b, pos + 88),
        ];
        let depth = read_i32_be(b, pos + 96);
        let cumulative_star_count = read_i32_be(b, pos + 100);
        let star_count = read_i32_be(b, pos + 104);
        let child_count = read_i32_be(b, pos + 108);
        let rec = OctantRecord {
            octant_id,
            center_bits,
            extent_bits,
            children,
            depth,
            cumulative_star_count,
            star_count,
            child_count,
        };
        proof {
            assert(rec@.center_bits =~= spec_octant_record(b@, pos as int).center_bits);
            assert(rec@.extent_bits =~= spec_octant_record(b@, pos as int).extent_bits);
            assert(rec@.children =~= spec_octant_record(b@, pos as int).children);
            assert(rec@ =~= spec_octant_record(b@, pos as int));
        }
        Some(rec)
    }

    /// Encode the record in the file layout.  The postcondition is the
    /// round-trip law: decoding the encoded bytes reproduces the record,
    /// identifier, raw bounds fields, children and counts alike.
    #[verifier::rlimit(100)]
    pub fn encode(&self) -> (r: Vec<u8>)
        ensures
            r@.len() == 112,
            spec_octant_record(r@, 0) == self@,
    {
        // After each append, restate where every byte so far landed; the
        // final field reads then discharge against flat facts instead of
        // walking the whole chain of appends.
        let mut v: Vec<u8> = Vec::new();
        push_u64_be(&mut v, i64_bits(self.octant_id));
        proof {
            assert(forall|t: int| 0 <= t < 8 ==> v@[0 + t] == be64_bytes(i64_to_bits(self.octant_id))[t]);
        }
        push_u32_be(&mut v, self.center_bits[0]);
        proof {
            assert(forall|t: int| 0 <= t < 8 ==> v@[0 + t] == be64_bytes(i64_to_bits(self.octant_id))[t]);
            assert(forall|t: int| 0 <= t < 4 ==> v@[8 + t] == be32_bytes(self.center_bits[0])[t]);
        }
        push_u32_be(&mut v, self.center_bits[1]);
        proof {
            assert(forall|t: int| 0 <= t < 8 ==> v@[0 + t] == be64_bytes(i64_to_bits(self.octant_id))[t]);
            assert(forall|t: int| 0 <= t < 4 ==> v@[8 + t] == be32_bytes(self.center_bits[0])[t]);
            assert(forall|t: int| 0 <= t < 4 ==> v@[12 + t] == be32_bytes(self.center_bits[1])[t]);
        }
        push_u32_be(&mut v, self.center_bits[2]);
        proof {
            assert(forall|t: int| 0 <= t < 8 ==> v@[0 + t] == be64_bytes(i64_to_bits(self.octant_id))[t]);
            assert(forall|t: int| 0 <= t < 4 ==> v@[8 + t] == be32_bytes(self.center_bits[0])[t]);
            assert(forall|t: int| 0 <= t < 4 ==> v@[12 + t] == be32_bytes(self.center_bits[1])[t]);
            assert(forall|t: int| 0 <= t < 4 ==> v@[16 + t] == be32_bytes(self.center_bits[2])[t]);
        }
        push_u32_be(&mut v, self.extent_bits[0]);
        proof {
            assert(forall|t: int| 0 <= t < 8 ==> v@[0 + t] == be64_bytes(i64_to_bits(self.octant_id))[t]);
            assert(forall|t: int| 0 <= t < 4 ==> v@[8 + t] == be32_bytes(self.center_bits[0])[t]);
            assert(forall|t: int| 0 <= t < 4 ==> v@[12 + t] == be32_bytes(self.center_bits[1])[t]);
            assert(forall|t: int| 0 <= t < 4 ==> v@[16 + t] == be32_bytes(self.center_bits[2])[t]);
            assert(forall|t: int| 0 <= t < 4 ==> v@[20 + t] == be32_bytes(self.extent_bits[0])[t]);
        }
        push_u32_be(&mut v, self.extent_bits[1]);
        proof {
            assert(forall|t: int| 0 <= t < 8 ==> v@[0 + t] == be64_bytes(i64_to_bits(self.octant_id))[t]);
            assert(forall|t: int| 0 <= t < 4 ==> v@[8 + t] == be32_bytes(self.center_bits[0])[t]);
            assert(forall|t: int| 0 <= t < 4 ==> v@[12 + t] == be32_bytes(self.center_bits[1])[t]);
            assert(forall|t: int| 0 <= t < 4 ==> v@[16 + t] == be32_bytes(self.center_bits[2])[t]);
            assert(forall|t: int| 0 <= t < 4 ==> v@[20 + t] == be32_bytes(self.extent_bits[0])[t]);
            assert(forall|t: int| 0 <= t < 4 ==> v@[24 + t] == be32_bytes(self.extent_bits[1])[t]);
        }
        push_u32_be(&mut v, self.extent_bits[2]);
        proof {
            assert(forall|t: int| 0 <= t < 8 ==> v@[0 + t] == be64_bytes(i64_to_bits(self.octant_id))[t]);
            assert(forall|t: int| 0 <= t < 4 ==> v@[8 + t] == be32_bytes(self.center_bits[0])[t]);
            assert(forall|t: int| 0 <= t < 4 ==> v@[12 + t] == be32_bytes(self.center_bits[1])[t]);
            assert(forall|t: int| 0 <= t < 4 ==> v@[16 + t] == be32_bytes(self.center_bits[2])[t]);
            assert(forall|t: int| 0 <= t < 4 ==> v@[20 + t] == be32_bytes(self.extent_bits[0])[t]);
            assert(forall|t: int| 0 <= t < 4 ==> v@[24 + t] == be32_bytes(self.extent_bits[1])[t]);
            assert(forall|t: int| 0 <= t < 4 ==> v@[28 + t] == be32_bytes(self.extent_bits[2])[t]);
        }
        push_u64_be(&mut v, i64_bits(self.children[0]));
        proof {
            assert(forall|t: int| 0 <= t < 8 ==> v@[0 + t] == be64_bytes(i64_to_bits(self.octant_id))[t]);
            assert(forall|t: int| 0 <= t < 4 ==> v@[8 + t] == be32_bytes(self.center_bits[0])[t]);
            assert(forall|t: int| 0 <= t < 4 ==> v@[12 + t] == be32_bytes(self.center_bits[1])[t]);
            assert(forall|t: int| 0 <= t < 4 ==> v@[16 + t] == be32_bytes(self.center_bits[2])[t]);
            assert(forall|t: int| 0 <= t < 4 ==> v@[20 + t] == be32_bytes(self.extent_bits[0])[t]);
            assert(forall|t: int| 0 <= t < 4 ==> v@[24 + t] == be32_bytes(self.extent_bits[1])[t]);
            assert(forall|t: int| 0 <= t < 4 ==> v@[28 + t] == be32_bytes(self.extent_bits[2])[t]);
            assert(forall|t: int| 0 <= t < 8 ==> v@[32 + t] == be64_bytes(i64_to_bits(self.children[0]))[t]);
        }
        push_u64_be(&mut v, i64_bits(self.children[1]));
        proof {
            assert(forall|t: int| 0 <= t < 8 ==> v@[0 + t] == be64_bytes(i64_to_bits(self.octant_id))[t]);
            assert(forall|t: int| 0 <= t < 4 ==> v@[8 + t] == be32_bytes(self.center_bits[0])[t]);
            assert(forall|t: int| 0 <= t < 4 ==> v@[12 + t] == be32_bytes(self.center_bits[1])[t]);
            assert(forall|t: int| 0 <= t < 4 ==> v@[16 + t] == be32_bytes(self.center_bits[2])[t]);
            assert(forall|t: int| 0 <= t < 4 ==> v@[20 + t] == be32_bytes(self.extent_bits[0])[t]);
            assert(forall|t: int| 0 <= t < 4 ==> v@[24 + t] == be32_bytes(self.extent_bits[1])[t]);
            assert(forall|t: int| 0 <= t < 4 ==> v@[28 + t] == be32_bytes(self.extent_bits[2])[t]);
            assert(forall|t: int| 0 <= t < 8 ==> v@[32 + t] == be64_bytes(i64_to_bits(self.children[0]))[t]);
            assert(forall|t: int| 0 <= t < 8 ==> v@[40 + t] == be64_bytes(i64_to_bits(self.children[1]))[t]);
        }
        push_u64_be(&mut v, i64_bits(self.children[2]));
        proof {
            assert(forall|t: int| 0 <= t < 8 ==> v@[0 + t] == be64_bytes(i64_to_bits(self.octant_id))[t]);
            assert(forall|t: int| 0 <= t < 4 ==> v@[8 + t] == be32_bytes(self.center_bits[0])[t]);
            assert(forall|t: int| 0 <= t < 4 ==> v@[12 + t] == be32_bytes(self.center_bits[1])[t]);
            assert(forall|t: int| 0 <= t < 4 ==> v@[16 + t] == be32_bytes(self.center_bits[2])[t]);
            assert(forall|t: int| 0 <= t < 4 ==> v@[20 + t] == be32_bytes(self.extent_bits[0])[t]);
            assert(forall|t: int| 0 <= t < 4 ==> v@[24 + t] == be32_bytes(self.extent_bits[1])[t]);
            assert(forall|t: int| 0 <= t < 4 ==> v@[28 + t] == be32_bytes(self.extent_bits[2])[t]);
            assert(forall|t: int| 0 <= t < 8 ==> v@[32 + t] == be64_bytes(i64_to_bits(self.children[0]))[t]);
            assert(forall|t: int| 0 <= t < 8 ==> v@[40 + t] == be64_bytes(i64_to_bits(self.children[1]))[t]);
            assert(forall|t: int| 0 <= t < 8 ==> v@[48 + t] == be64_bytes(i64_to_bits(self.children[2]))[t]);
        }
        push_u64_be(&mut v, i64_bits(self.children[3]));
        proof {
            assert(forall|t: int| 0 <= t < 8 ==> v@[0 + t] == be64_bytes(i64_to_bits(self.octant_id))[t]);
            assert(forall|t: int| 0 <= t < 4 ==> v@[8 + t] == be32_bytes(self.center_bits[0])[t]);
            assert(forall|t: int| 0 <= t < 4 ==> v@[12 + t] == be32_bytes(self.center_bits[1])[t]);
            assert(forall|t: int| 0 <= t < 4 ==> v@[16 + t] == be32_bytes(self.center_bits[2])[t]);
            assert(forall|t: int| 0 <= t < 4 ==> v@[20 + t] == be32_bytes(self.extent_bits[0])[t]);
            assert(forall|t: int| 0 <= t < 4 ==> v@[24 + t] == be32_bytes(self.extent_bits[1])[t]);
            assert(forall|t: int| 0 <= t < 4 ==> v@[28 + t] == be32_bytes(self.extent_bits[2])[t]);
            assert(forall|t: int| 0 <= t < 8 ==> v@[32 + t] == be64_bytes(i64_to_bits(self.children[0]))[t]);
            assert(forall|t: int| 0 <= t < 8 ==> v@[40 + t] == be64_bytes(i64_to_bits(self.children[1]))[t]);
            assert(forall|t: int| 0 <= t < 8 ==> v@[48 + t] == be64_bytes(i64_to_bits(self.children[2]))[t]);
            assert(forall|t: int| 0 <= t < 8 ==> v@[56 + t] == be64_bytes(i64_to_bits(self.children[3]))[t]);
        }
        push_u64_be(&mut v, i64_bits(self.children[4]));
        proof {
            assert(forall|t: int| 0 <= t < 8 ==> v@[0 + t] == be64_bytes(i64_to_bits(self.octant_id))[t]);
            assert(forall|t: int| 0 <= t < 4 ==> v@[8 + t] == be32_bytes(self.center_bits[0])[t]);
            assert(forall|t: int| 0 <= t < 4 ==> v@[12 + t] == be32_bytes(self.center_bits[1])[t]);
            assert(forall|t: int| 0 <= t < 4 ==> v@[16 + t] == be32_bytes(self.center_bits[2])[t]);
            assert(forall|t: int| 0 <= t < 4 ==> v@[20 + t] == be32_bytes(self.extent_bits[0])[t]);
            assert(forall|t: int| 0 <= t < 4 ==> v@[24 + t] == be32_bytes(self.extent_bits[1])[t]);
            assert(forall|t: int| 0 <= t < 4 ==> v@[28 + t] == be32_bytes(self.extent_bits[2])[t]);
            assert(forall|t: int| 0 <= t < 8 ==> v@[32 + t] == be64_bytes(i64_to_bits(self.children[0]))[t]);
            assert(forall|t: int| 0 <= t < 8 ==> v@[40 + t] == be64_bytes(i64_to_bits(self.children[1]))[t]);
            assert(forall|t: int| 0 <= t < 8 ==> v@[48 + t] == be64_bytes(i64_to_bits(self.children[2]))[t]);
            assert(forall|t: int| 0 <= t < 8 ==> v@[56 + t] == be64_bytes(i64_to_bits(self.children[3]))[t]);
            assert(forall|t: int| 0 <= t < 8 ==> v@[64 + t] == be64_bytes(i64_to_bits(self.children[4]))[t]);
        }
        push_u64_be(&mut v, i64_bits(self.children[5]));
        proof {
            assert(forall|t: int| 0 <= t < 8 ==> v@[0 + t] == be64_bytes(i64_to_bits(self.octant_id))[t]);
            assert(forall|t: int| 0 <= t < 4 ==> v@[8 + t] == be32_bytes(self.center_bits[0])[t]);
            assert(forall|t: int| 0 <= t < 4 ==> v@[12 + t] == be32_bytes(self.center_bits[1])[t]);
            assert(forall|t: int| 0 <= t < 4 ==> v@[16 + t] == be32_bytes(self.center_bits[2])[t]);
            assert(forall|t: int| 0 <= t < 4 ==> v@[20 + t] == be32_bytes(self.extent_bits[0])[t]);
            assert(forall|t: int| 0 <= t < 4 ==> v@[24 + t] == be32_bytes(self.extent_bits[1])[t]);
            assert(forall|t: int| 0 <= t < 4 ==> v@[28 + t] == be32_bytes(self.extent_bits[2])[t]);
            assert(forall|t: int| 0 <= t < 8 ==> v@[32 + t] == be64_bytes(i64_to_bits(self.children[0]))[t]);
            assert(forall|t: int| 0 <= t < 8 ==> v@[40 + t] == be64_bytes(i64_to_bits(self.children[1]))[t]);
            assert(forall|t: int| 0 <= t < 8 ==> v@[48 + t] == be64_bytes(i64_to_bits(self.children[2]))[t]);
            assert(forall|t: int| 0 <= t < 8 ==> v@[56 + t] == be64_bytes(i64_to_bits(self.children[3]))[t]);
            assert(forall|t: int| 0 <= t < 8 ==> v@[64 + t] == be64_bytes(i64_to_bits(self.children[4]))[t]);
            assert(forall|t: int| 0 <= t < 8 ==> v@[72 + t] == be64_bytes(i64_to_bits(self.children[5]))[t]);
        }
        push_u64_be(&mut v, i64_bits(self.children[6]));
        proof {
            assert(forall|t: int| 0 <= t < 8 ==> v@[0 + t] == be64_bytes(i64_to_bits(self.octant_id))[t]);
            assert(forall|t: int| 0 <= t < 4 ==> v@[8 + t] == be32_bytes(self.center_bits[0])[t]);
            assert(forall|t: int| 0 <= t < 4 ==> v@[12 + t] == be32_bytes(self.center_bits[1])[t]);
            assert(forall|t: int| 0 <= t < 4 ==> v@[16 + t] == be32_bytes(self.center_bits[2])[t]);
            assert(forall|t: int| 0 <= t < 4 ==> v@[20 + t] == be32_bytes(self.extent_bits[0])[t]);
            assert(forall|t: int| 0 <= t < 4 ==> v@[24 + t] == be32_bytes(self.extent_bits[1])[t]);
            assert(forall|t: int| 0 <= t < 4 ==> v@[28 + t] == be32_bytes(self.extent_bits[2])[t]);
            assert(forall|t: int| 0 <= t < 8 ==> v@[32 + t] == be64_bytes(i64_to_bits(self.children[0]))[t]);
            assert(forall|t: int| 0 <= t < 8 ==> v@[40 + t] == be64_bytes(i64_to_bits(self.children[1]))[t]);
            assert(forall|t: int| 0 <= t < 8 ==> v@[48 + t] == be64_bytes(i64_to_bits(self.children[2]))[t]);
            assert(forall|t: int| 0 <= t < 8 ==> v@[56 + t] == be64_bytes(i64_to_bits(self.children[3]))[t]);
            assert(forall|t: int| 0 <= t < 8 ==> v@[64 + t] == be64_bytes(i64_to_bits(self.children[4]))[t]);
            assert(forall|t: int| 0 <= t < 8 ==> v@[72 + t] == be64_bytes(i64_to_bits(self.children[5]))[t]);
            assert(forall|t: int| 0 <= t < 8 ==> v@[80 + t] == be64_bytes(i64_to_bits(self.children[6]))[t]);
        }
        push_u64_be(&mut v, i64_bits(self.children[7]));
        proof {
            assert(forall|t: int| 0 <= t < 8 ==> v@[0 + t] == be64_bytes(i64_to_bits(self.octant_id))[t]);
            assert(forall|t: int| 0 <= t < 4 ==> v@[8 + t] == be32_bytes(self.center_bits[0])[t]);
            assert(forall|t: int| 0 <= t < 4 ==> v@[12 + t] == be32_bytes(self.center_bits[1])[t]);
            assert(forall|t: int| 0 <= t < 4 ==> v@[16 + t] == be32_bytes(self.center_bits[2])[t]);
            assert(forall|t: int| 0 <= t < 4 ==> v@[20 + t] == be32_bytes(self.extent_bits[0])[t]);
            assert(forall|t: int| 0 <= t < 4 ==> v@[24 + t] == be32_bytes(self.extent_bits[1])[t]);
            assert(forall|t: int| 0 <= t < 4 ==> v@[28 + t] == be32_bytes(self.extent_bits[2])[t]);
            assert(forall|t: int| 0 <= t < 8 ==> v@[32 + t] == be64_bytes(i64_to_bits(self.children[0]))[t]);
            assert(forall|t: int| 0 <= t < 8 ==> v@[40 + t] == be64_bytes(i64_to_bits(self.children[1]))[t]);
            assert(forall|t: int| 0 <= t < 8 ==> v@[48 + t] == be64_bytes(i64_to_bits(self.children[2]))[t]);
            assert(forall|t: int| 0 <= t < 8 ==> v@[56 + t] == be64_bytes(i64_to_bits(self.children[3]))[t]);
            assert(forall|t: int| 0 <= t < 8 ==> v@[64 + t] == be64_bytes(i64_to_bits(self.children[4]))[t]);
            assert(forall|t: int| 0 <= t < 8 ==> v@[72 + t] == be64_bytes(i64_to_bits(self.children[5]))[t]);
            assert(forall|t: int| 0 <= t < 8 ==> v@[80 + t] == be64_bytes(i64_to_bits(self.children[6]))[t]);
            assert(forall|t: int| 0 <= t < 8 ==> v@[88 + t] == be64_bytes(i64_to_bits(self.children[7]))[t]);
        }
        push_u32_be(&mut v, i32_bits(self.depth));
        proof {
            assert(forall|t: int| 0 <= t < 8 ==> v@[0 + t] == be64_bytes(i64_to_bits(self.octant_id))[t]);
            assert(forall|t: int| 0 <= t < 4 ==> v@[8 + t] == be32_bytes(self.center_bits[0])[t]);
            assert(forall|t: int| 0 <= t < 4 ==> v@[12 + t] == be32_bytes(self.center_bits[1])[t]);
            assert(forall|t: int| 0 <= t < 4 ==> v@[16 + t] == be32_bytes(self.center_bits[2])[t]);
            assert(forall|t: int| 0 <= t < 4 ==> v@[20 + t] == be32_bytes(self.extent_bits[0])[t]);
            assert(forall|t: int| 0 <= t < 4 ==> v@[24 + t] == be32_bytes(self.extent_bits[1])[t]);
            assert(forall|t: int| 0 <= t < 4 ==> v@[28 + t] == be32_bytes(self.extent_bits[2])[t]);
            assert(forall|t: int| 0 <= t < 8 ==> v@[32 + t] == be64_bytes(i64_to_bits(self.children[0]))[t]);
            assert(forall|t: int| 0 <= t < 8 ==> v@[40 + t] == be64_bytes(i64_to_bits(self.children[1]))[t]);
            assert(forall|t: int| 0 <= t < 8 ==> v@[48 + t] == be64_bytes(i64_to_bits(self.children[2]))[t]);
            assert(forall|t: int| 0 <= t < 8 ==> v@[56 + t] == be64_bytes(i64_to_bits(self.children[3]))[t]);
            assert(forall|t: int| 0 <= t < 8 ==> v@[64 + t] == be64_bytes(i64_to_bits(self.children[4]))[t]);
            assert(forall|t: int| 0 <= t < 8 ==> v@[72 + t] == be64_bytes(i64_to_bits(self.children[5]))[t]);
            assert(forall|t: int| 0 <= t < 8 ==> v@[80 + t] == be64_bytes(i64_to_bits(self.children[6]))[t]);
            assert(forall|t: int| 0 <= t < 8 ==> v@[88 + t] == be64_bytes(i64_to_bits(self.children[7]))[t]);
            assert(forall|t: int| 0 <= t < 4 ==> v@[96 + t] == be32_bytes(i32_to_bits(self.depth))[t]);
        }
        push_u32_be(&mut v, i32_bits(self.cumulative_star_count));
        proof {
            assert(forall|t: int| 0 <= t < 8 ==> v@[0 + t] == be64_bytes(i64_to_bits(self.octant_id))[t]);
            assert(forall|t: int| 0 <= t < 4 ==> v@[8 + t] == be32_bytes(self.center_bits[0])[t]);
            assert(forall|t: int| 0 <= t < 4 ==> v@[12 + t] == be32_bytes(self.center_bits[1])[t]);
            assert(forall|t: int| 0 <= t < 4 ==> v@[16 + t] == be32_bytes(self.center_bits[2])[t]);
            assert(forall|t: int| 0 <= t < 4 ==> v@[20 + t] == be32_bytes(self.extent_bits[0])[t]);
            assert(forall|t: int| 0 <= t < 4 ==> v@[24 + t] == be32_bytes(self.extent_bits[1])[t]);
            assert(forall|t: int| 0 <= t < 4 ==> v@[28 + t] == be32_bytes(self.extent_bits[2])[t]);
            assert(forall|t: int| 0 <= t < 8 ==> v@[32 + t] == be64_bytes(i64_to_bits(self.children[0]))[t]);
            assert(forall|t: int| 0 <= t < 8 ==> v@[40 + t] == be64_bytes(i64_to_bits(self.children[1]))[t]);
            assert(forall|t: int| 0 <= t < 8 ==> v@[48 + t] == be64_bytes(i64_to_bits(self.children[2]))[t]);
            assert(forall|t: int| 0 <= t < 8 ==> v@[56 + t] == be64_bytes(i64_to_bits(self.children[3]))[t]);
            assert(forall|t: int| 0 <= t < 8 ==> v@[64 + t] == be64_bytes(i64_to_bits(self.children[4]))[t]);
            assert(forall|t: int| 0 <= t < 8 ==> v@[72 + t] == be64_bytes(i64_to_bits(self.children[5]))[t]);
            assert(forall|t: int| 0 <= t < 8 ==> v@[80 + t] == be64_bytes(i64_to_bits(self.children[6]))[t]);
            assert(forall|t: int| 0 <= t < 8 ==> v@[88 + t] == be64_bytes(i64_to_bits(self.children[7]))[t]);
            assert(forall|t: int| 0 <= t < 4 ==> v@[96 + t] == be32_bytes(i32_to_bits(self.depth))[t]);
            assert(forall|t: int| 0 <= t < 4 ==> v@[100 + t] == be32_bytes(i32_to_bits(self.cumulative_star_count))[t]);
        }
        push_u32_be(&mut v, i32_bits(self.star_count));
        proof {
            assert(forall|t: int| 0 <= t < 8 ==> v@[0 + t] == be64_bytes(i64_to_bits(self.octant_id))[t]);
            assert(forall|t: int| 0 <= t < 4 ==> v@[8 + t] == be32_bytes(self.center_bits[0])[t]);
            assert(forall|t: int| 0 <= t < 4 ==> v@[12 + t] == be32_bytes(self.center_bits[1])[t]);
            assert(forall|t: int| 0 <= t < 4 ==> v@[16 + t] == be32_bytes(self.center_bits[2])[t]);
            assert(forall|t: int| 0 <= t < 4 ==> v@[20 + t] == be32_bytes(self.extent_bits[0])[t]);
            assert(forall|t: int| 0 <= t < 4 ==> v@[24 + t] == be32_bytes(self.extent_bits[1])[t]);
            assert(forall|t: int| 0 <= t < 4 ==> v@[28 + t] == be32_bytes(self.extent_bits[2])[t]);
            assert(forall|t: int| 0 <= t < 8 ==> v@[32 + t] == be64_bytes(i64_to_bits(self.children[0]))[t]);
            assert(forall|t: int| 0 <= t < 8 ==> v@[40 + t] == be64_bytes(i64_to_bits(self.children[1]))[t]);
            assert(forall|t: int| 0 <= t < 8 ==> v@[48 + t] == be64_bytes(i64_to_bits(self.children[2]))[t]);
            assert(forall|t: int| 0 <= t < 8 ==> v@[56 + t] == be64_bytes(i64_to_bits(self.children[3]))[t]);
            assert(forall|t: int| 0 <= t < 8 ==> v@[64 + t] == be64_bytes(i64_to_bits(self.children[4]))[t]);
            assert(forall|t: int| 0 <= t < 8 ==> v@[72 + t] == be64_bytes(i64_to_bits(self.children[5]))[t]);
            assert(forall|t: int| 0 <= t < 8 ==> v@[80 + t] == be64_bytes(i64_to_bits(self.children[6]))[t]);
            assert(forall|t: int| 0 <= t < 8 ==> v@[88 + t] == be64_bytes(i64_to_bits(self.children[7]))[t]);
            assert(forall|t: int| 0 <= t < 4 ==> v@[96 + t] == be32_bytes(i32_to_bits(self.depth))[t]);
            assert(forall|t: int| 0 <= t < 4 ==> v@[100 + t] == be32_bytes(i32_to_bits(self.cumulative_star_count))[t]);
            assert(forall|t: int| 0 <= t < 4 ==> v@[104 + t] == be32_bytes(i32_to_bits(self.star_count))[t]);
        }
        push_u32_be(&mut v, i32_bits(self.child_count));
        proof {
            assert(forall|t: int| 0 <= t < 8 ==> v@[0 + t] == be64_bytes(i64_to_bits(self.octant_id))[t]);
            assert(forall|t: int| 0 <= t < 4 ==> v@[8 + t] == be32_bytes(self.center_bits[0])[t]);
            assert(forall|t: int| 0 <= t < 4 ==> v@[12 + t] == be32_bytes(self.center_bits[1])[t]);
            assert(forall|t: int| 0 <= t < 4 ==> v@[16 + t] == be32_bytes(self.center_bits[2])[t]);
            assert(forall|t: int| 0 <= t < 4 ==> v@[20 + t] == be32_bytes(self.extent_bits[0])[t]);
            assert(forall|t: int| 0 <= t < 4 ==> v@[24 + t] == be32_bytes(self.extent_bits[1])[t]);
            assert(forall|t: int| 0 <= t < 4 ==> v@[28 + t] == be32_bytes(self.extent_bits[2])[t]);
            assert(forall|t: int| 0 <= t < 8 ==> v@[32 + t] == be64_bytes(i64_to_bits(self.children[0]))[t]);
            assert(forall|t: int| 0 <= t < 8 ==> v@[40 + t] == be64_bytes(i64_to_bits(self.children[1]))[t]);
            assert(forall|t: int| 0 <= t < 8 ==> v@[48 + t] == be64_bytes(i64_to_bits(self.children[2]))[t]);
            assert(forall|t: int| 0 <= t < 8 ==> v@[56 + t] == be64_bytes(i64_to_bits(self.children[3]))[t]);
            assert(forall|t: int| 0 <= t < 8 ==> v@[64 + t] == be64_bytes(i64_to_bits(self.children[4]))[t]);
            assert(forall|t: int| 0 <= t < 8 ==> v@[72 + t] == be64_bytes(i64_to_bits(self.children[5]))[t]);
            assert(forall|t: int| 0 <= t < 8 ==> v@[80 + t] == be64_bytes(i64_to_bits(self.children[6]))[t]);
            assert(forall|t: int| 0 <= t < 8 ==> v@[88 + t] == be64_bytes(i64_to_bits(self.children[7]))[t]);
            assert(forall|t: int| 0 <= t < 4 ==> v@[96 + t] == be32_bytes(i32_to_bits(self.depth))[t]);
            assert(forall|t: int| 0 <= t < 4 ==> v@[100 + t] == be32_bytes(i32_to_bits(self.cumulative_star_count))[t]);
            assert(forall|t: int| 0 <= t < 4 ==> v@[104 + t] == be32_bytes(i32_to_bits(self.star_count))[t]);
            assert(forall|t: int| 0 <= t < 4 ==> v@[108 + t] == be32_bytes(i32_to_bits(self.child_count))[t]);
        }
        proof {
            assert(v@.len() == 112);
            assert(be64_at(v@, 0) == i64_to_bits(self.octant_id)) by {
                lemma_be64_at_bytes(v@, 0, i64_to_bits(self.octant_id));
            }
            assert(be32_at(v@, 8) == self.center_bits[0]) by {
                lemma_be32_at_bytes(v@, 8, self.center_bits[0]);
            }
            assert(be32_at(v@, 12) == self.center_bits[1]) by {
                lemma_be32_at_bytes(v@, 12, self.center_bits[1]);
            }
            assert(be32_at(v@, 16) == self.center_bits[2]) by {
                lemma_be32_at_bytes(v@, 16, self.center_bits[2]);
            }
            assert(be32_at(v@, 20) == self.extent_bits[0]) by {
                lemma_be32_at_bytes(v@, 20, self.extent_bits[0]);
            }
            assert(be32_at(v@, 24) == self.extent_bits[1]) by {
                lemma_be32_at_bytes(v@, 24, self.extent_bits[1]);
            }
            assert(be32_at(v@, 28) == self.extent_bits[2]) by {
                lemma_be32_at_bytes(v@, 28, self.extent_bits[2]);
            }
            assert(be64_at(v@, 32) == i64_to_bits(self.children[0])) by {
                lemma_be64_at_bytes(v@, 32, i64_to_bits(self.children[0]));
            }
            assert(be64_at(v@, 40) == i64_to_bits(self.children[1])) by {
                lemma_be64_at_bytes(v@, 40, i64_to_bits(self.children[1]));
            }
            assert(be64_at(v@, 48) == i64_to_bits(self.children[2])) by {
                lemma_be64_at_bytes(v@, 48, i64_to_bits(self.children[2]));
            }
            assert(be64_at(v@, 56) == i64_to_bits(self.children[3])) by {
                lemma_be64_at_bytes(v@, 56, i64_to_bits(self.children[3]));
            }
            assert(be64_at(v@, 64) == i64_to_bits(self.children[4])) by {
                lemma_be64_at_bytes(v@, 64, i64_to_bits(self.children[4]));
            }
            assert(be64_at(v@, 72) == i64_to_bits(self.children[5])) by {
                lemma_be64_at_bytes(v@, 72, i64_to_bits(self.children[5]));
            }
            assert(be64_at(v@, 80) == i64_to_bits(self.children[6])) by {
                lemma_be64_at_bytes(v@, 80, i64_to_bits(self.children[6]));
            }
            assert(be64_at(v@, 88) == i64_to_bits(self.children[7])) by {
                lemma_be64_at_bytes(v@, 88, i64_to_bits(self.children[7]));
            }
            assert(be32_at(v@, 96) == i32_to_bits(self.depth)) by {
                lemma_be32_at_bytes(v@, 96, i32_to_bits(self.depth));
            }
            assert(be32_at(v@, 100) == i32_to_bits(self.cumulative_star_count)) by {
                lemma_be32_at_bytes(v@, 100, i32_to_bits(self.cumulative_star_count));
            }
            assert(be32_at(v@, 104) == i32_to_bits(self.star_count)) by {
                lemma_be32_at_bytes(v@, 104, i32_to_bits(self.star_count));
            }
            assert(be32_at(v@, 108) == i32_to_bits(self.child_count)) by {
                lemma_be32_at_bytes(v@, 108, i32_to_bits(self.child_count));
            }
            assert(spec_octant_record(v@, 0).center_bits =~= self@.center_bits);
            assert(spec_octant_record(v@, 0).extent_bits =~= self@.extent_bits);
            assert(spec_octant_record(v@, 0).children =~= self@.children);
            assert(spec_octant_record(v@, 0) =~= self@);
        }
        v
    }

    /// Decode a whole spatial-index file: the record-count header, then as
    /// many of the announced records as the bytes actually hold.  `None`
    /// exactly when even the header is incomplete.
    pub fn iter_from_reader(b: &Vec<u8>) -> (r: Option<Vec<OctantRecord>>)
        ensures
            match r {
                Some(v) => spec_file_header(b@) matches Some((h, off)) && octant_records_view(v@)
                    == spec_octant_records(b@, off, header_count(h)),
                None => spec_file_header(b@) is None,
            },
    {
        let (header, off) = match FileHeader::from_reader(b) {
            None => {
                return None;
            },
            Some(x) => x,
        };
        let n: usize = if header.size < 0 {
            0
        } else {
            header.size as usize
        };
        let mut out: Vec<OctantRecord> = Vec::new();
        let mut pos: usize = off;
        let mut i: usize = 0;
        proof {
            assert(octant_records_view(out@) =~= Seq::<OctantRecordView>::empty());
        }
        while i < n
            invariant
                i <= n,
                pos <= b.len(),
                out@.len() == i,
                spec_file_header(b@) == Some((header, off as int)),
                n as nat == header_count(header),
                octant_records_view(out@) + spec_octant_records(
                    b@,
                    pos as int,
                    (n - i) as nat,
                ) == spec_octant_records(b@, off as int, n as nat),
            decreases n - i,
        {
            match OctantRecord::from_reader(b, pos) {
                None => {
                    assert(spec_octant_records(b@, pos as int, (n - i) as nat) =~= Seq::<
                        OctantRecordView,
                    >::empty());
                    assert(octant_records_view(out@) =~= spec_octant_records(
                        b@,
                        off as int,
                        n as nat,
                    ));
                    return Some(out);
                },
                Some(rec) => {
                    let ghost prev = out@;
                    out.push(rec);
                    proof {
                        assert(octant_records_view(out@) =~= octant_records_view(prev).push(rec@));
                        assert(spec_octant_records(b@, pos as int, (n - i) as nat) == seq![
                            spec_octant_record(b@, pos as int),
                        ] + spec_octant_records(b@, pos + 112, (n - i - 1) as nat));
                        assert(octant_records_view(out@) + spec_octant_records(
                            b@,
                            pos + 112,
                            (n - i - 1) as nat,
                        ) =~= spec_octant_records(b@, off as int, n as nat));
                    }
                    pos = pos + 112;
                    i = i + 1;
                },
            }
        }
        proof {
            assert(octant_records_view(out@) =~= spec_octant_records(b@, off as int, n as nat));
        }
        Some(out)
    }
}

} // verus!
