//! Catalog bootstrap decisions: which of the files a description lists is
//! the spatial-index file and which entry is the payload directory, and
//! how a cell's payload file is named.  Locating, opening and reading the
//! files is the caller's concern; the rules live here.

use vstd::prelude::*;

use crate::loader::ParticleLoader;
use crate::util::{count_dec_digits, dec_bytes, push_dec_bytes};

verus! {

/// `s` ends in `suffix`.
pub open spec fn has_suffix(s: Seq<u8>, suffix: Seq<u8>) -> bool {
    s.len() >= suffix.len() && s.skip(s.len() - suffix.len()) == suffix
}

/// Byte-wise equality of two names.
fn bytes_eq(a: &Vec<u8>, b: &Vec<u8>) -> (r: bool)
    ensures
        r == (a@ == b@),
{
    if a.len() != b.len() {
        return false;
    }
    let mut i: usize = 0;
    while i < a.len()
        invariant
            a@.len() == b@.len(),
            i <= a@.len(),
            forall|j: int| 0 <= j < i ==> a@[j] == b@[j],
        decreases a@.len() - i,
    {
        if a[i] != b[i] {
            return false;
        }
        i = i + 1;
    }
    proof {
        assert(a@ =~= b@);
    }
    true
}

/// `name` ends in `suffix`, executably.
fn bytes_has_suffix(name: &Vec<u8>, suffix: &Vec<u8>) -> (r: bool)
    ensures
        r == has_suffix(name@, suffix@),
{
    if name.len() < suffix.len() {
        return false;
    }
    let off = name.len() - suffix.len();
    let mut i: usize = 0;
    while i < suffix.len()
        invariant
            suffix@.len() <= name@.len(),
            off + suffix.len() == name.len(),
            i <= suffix@.len(),
            forall|j: int| 0 <= j < i ==> name@[off + j] == suffix@[j],
        decreases suffix@.len() - i,
    {
        if name[off + i] != suffix[i] {
            proof {
                if has_suffix(name@, suffix@) {
                    assert(name@.skip(off as int)[i as int] == suffix@[i as int]);
                }
            }
            return false;
        }
        i = i + 1;
    }
    proof {
        assert(name@.skip(off as int) =~= suffix@);
    }
    true
}

/// The first name equal to `target`: the index construction wants exactly
/// the entry called `metadata.bin`, and the payload directory the entry
/// called `particles`.
pub fn select_named(names: &Vec<Vec<u8>>, target: &Vec<u8>) -> (r: Option<usize>)
    ensures
        match r {
            Some(i) => i < names@.len() && names@[i as int]@ == target@ && forall|j: int|
                0 <= j < i ==> names@[j]@ != target@,
            None => forall|j: int| 0 <= j < names@.len() ==> names@[j]@ != target@,
        },
{
    let mut i: usize = 0;
    while i < names.len()
        invariant
            i <= names@.len(),
            forall|j: int| 0 <= j < i ==> names@[j]@ != target@,
        decreases names@.len() - i,
    {
        if bytes_eq(&names[i], target) {
            return Some(i);
        }
        i = i + 1;
    }
    None
}

/// The first name with the given suffix: catalog discovery takes the first
/// file whose name ends in the description extension.
pub fn select_with_suffix(names: &Vec<Vec<u8>>, suffix: &Vec<u8>) -> (r: Option<usize>)
    ensures
        match r {
            Some(i) => i < names@.len() && has_suffix(names@[i as int]@, suffix@) && forall|j: int|
                0 <= j < i ==> !has_suffix(names@[j]@, suffix@),
            None => forall|j: int| 0 <= j < names@.len() ==> !has_suffix(names@[j]@, suffix@),
        },
{
    let mut i: usize = 0;
    while i < names.len()
        invariant
            i <= names@.len(),
            forall|j: int| 0 <= j < i ==> !has_suffix(names@[j]@, suffix@),
        decreases names@.len() - i,
    {
        if bytes_has_suffix(&names[i], suffix) {
            return Some(i);
        }
        i = i + 1;
    }
    None
}

/// The decimal digits of `id`, left-padded with zeros to at least six
/// characters.
pub open spec fn padded_id(id: nat) -> Seq<u8> {
    if dec_bytes(id).len() >= 6 {
        dec_bytes(id)
    } else {
        Seq::new((6 - dec_bytes(id).len()) as nat, |j: int| 0x30u8) + dec_bytes(id)
    }
}

/// The payload file name of a cell: `particles_` then the zero-padded
/// identifier, with the `.bin` extension.
pub open spec fn payload_name(id: nat) -> Seq<u8> {
    seq![0x70u8, 0x61u8, 0x72u8, 0x74u8, 0x69u8, 0x63u8, 0x6cu8, 0x65u8, 0x73u8, 0x5fu8]
        + padded_id(id) + seq![0x2eu8, 0x62u8, 0x69u8, 0x6eu8]
}

/// Build a cell's payload file name.
pub fn payload_file_name(id: u64) -> (r: Vec<u8>)
    ensures
        r@ == payload_name(id as nat),
{
    let mut out: Vec<u8> = Vec::new();
    out.push(0x70);
    out.push(0x61);
    out.push(0x72);
    out.push(0x74);
    out.push(0x69);
    out.push(0x63);
    out.push(0x6c);
    out.push(0x65);
    out.push(0x73);
    out.push(0x5f);
    let ghost prefix = out@;
    let digits = count_dec_digits(id);
    let mut pad: usize = 0;
    let pad_target: usize = if digits >= 6 {
        0
    } else {
        6 - digits
    };
    while pad < pad_target
        invariant
            pad <= pad_target,
            out@ =~= prefix + Seq::new(pad as nat, |j: int| 0x30u8),
        decreases pad_target - pad,
    {
        out.push(0x30);
        proof {
            assert(out@ =~= prefix + Seq::new(pad as nat + 1, |j: int| 0x30u8));
        }
        pad = pad + 1;
    }
    push_dec_bytes(id, &mut out);
    proof {
        if dec_bytes(id as nat).len() >= 6 {
            assert(Seq::new(0nat, |j: int| 0x30u8) =~= Seq::<u8>::empty());
            assert(out@ =~= prefix + padded_id(id as nat));
        } else {
            assert(out@ =~= prefix + padded_id(id as nat));
        }
    }
    out.push(0x2e);
    out.push(0x62);
    out.push(0x69);
    out.push(0x6e);
    proof {
        assert(out@ =~= payload_name(id as nat));
    }
    out
}

/// A named catalog, once its description, spatial-index file and payload
/// directory have been located and decoded by the caller.
pub struct Catalog {
    pub particle_loader: ParticleLoader,
}

impl Catalog {
    pub fn new(particle_loader: ParticleLoader) -> (r: Catalog)
        requires
            particle_loader.wf(),
        ensures
            r.particle_loader == particle_loader,
            r.particle_loader.wf(),
    {
        Catalog { particle_loader }
    }
}

} // verus!
