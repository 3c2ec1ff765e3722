//! The variable-length data-point record of a per-cell payload file:
//! position, velocity, proper-motion and magnitude fields kept as raw
//! IEEE-754 patterns, a packed color, a catalog cross-reference, a source
//! identifier, and a UTF-16 name field split on a literal pipe into alias
//! names.

use vstd::prelude::*;

use crate::codec::{
    be16_at, be32_at, be64_at, i32_from_bits, i64_from_bits, read_i32_be, read_i64_be, read_u16_be,
    read_u32_be, read_u64_be, spec_file_header, FileHeader,
};

verus! {

/// The alpha byte of the packed color, rescaled by 255/254 and saturated.
pub open spec fn scale_alpha(a: u8) -> u8 {
    if a * 255 / 254 > 255 {
        255
    } else {
        (a * 255 / 254) as u8
    }
}

/// Reassemble the packed color field: the four big-endian bytes of the
/// stored word are alpha, blue, green, red; the result is RGBA with alpha
/// rescaled.
pub fn rgba_from_float(abgr: [u8; 4]) -> (r: [u8; 4])
    ensures
        r@ == seq![abgr[3], abgr[2], abgr[1], scale_alpha(abgr[0])],
{
    let scaled: u32 = abgr[0] as u32 * 255 / 254;
    let a: u8 = if scaled > 255 {
        255
    } else {
        scaled as u8
    };
    let r = [abgr[3], abgr[2], abgr[1], a];
    proof {
        assert(r@ =~= seq![abgr[3], abgr[2], abgr[1], scale_alpha(abgr[0])]);
    }
    r
}

/// The color a record is displayed with: nearly black points are lifted to
/// white so that they stay visible, all else passes through.
pub fn display_color(c: [u8; 4]) -> (r: [u8; 4])
    ensures
        (c[0] < 5 && c[1] < 5 && c[2] < 5) ==> r@ == seq![255u8, 255u8, 255u8, c[3]],
        !(c[0] < 5 && c[1] < 5 && c[2] < 5) ==> r@ == c@,
{
    let r = if c[0] < 5 && c[1] < 5 && c[2] < 5 {
        [255, 255, 255, c[3]]
    } else {
        c
    };
    proof {
        if c[0] < 5 && c[1] < 5 && c[2] < 5 {
            assert(r@ =~= seq![255u8, 255u8, 255u8, c[3]]);
        } else {
            assert(r@ =~= c@);
        }
    }
    r
}

/// Split a sequence of UTF-16 code units on the pipe code unit (124).
/// An empty input yields one empty piece, as splitting a string does.
pub open spec fn split_units(s: Seq<u16>) -> Seq<Seq<u16>>
    decreases s.len(),
{
    if s.len() == 0 {
        seq![Seq::<u16>::empty()]
    } else if s[0] == 124 {
        seq![Seq::<u16>::empty()] + split_units(s.drop_first())
    } else {
        let rest = split_units(s.drop_first());
        seq![seq![s[0]] + rest[0]] + rest.drop_first()
    }
}

pub proof fn lemma_split_units_nonempty(s: Seq<u16>)
    ensures
        split_units(s).len() >= 1,
    decreases s.len(),
{
    if s.len() == 0 {
    } else if s[0] == 124 {
    } else {
        lemma_split_units_nonempty(s.drop_first())
    }
}

/// The text that decoding a sequence of UTF-16 code units yields; it is a
/// function of the code units alone.
pub uninterp spec fn utf16_text(units: Seq<u16>) -> Seq<char>;

/// Relies on String::from_utf16_lossy: deterministic decoding of UTF-16
/// code units into text.
#[verifier::external_body]
fn utf16_to_string(units: &Vec<u16>) -> (r: String)
    ensures
        r@ == utf16_text(units@),
{
    String::from_utf16_lossy(units.as_slice())
}

/// The pieces of `rem` once `cur` is extended by everything up to the next
/// separator; describes the state of a split in progress.
pub open spec fn split_append(cur: Seq<u16>, rem: Seq<u16>) -> Seq<Seq<u16>> {
    let sp = split_units(rem);
    seq![cur + sp[0]] + sp.drop_first()
}

/// Split the code units on the pipe separator and decode each piece.
fn split_and_decode(units: &Vec<u16>) -> (r: Vec<String>)
    ensures
        r.deep_view() == split_units(units@).map_values(|u: Seq<u16>| utf16_text(u)),
{
    let mut pieces: Vec<Vec<u16>> = Vec::new();
    let mut cur: Vec<u16> = Vec::new();
    let mut k: usize = 0;
    proof {
        lemma_split_units_nonempty(units@);
        assert(units@.skip(0) =~~= units@);
        let sp = split_units(units@);
        assert(split_append(Seq::<u16>::empty(), units@) =~~= sp);
        assert(pieces.deep_view() + split_append(cur@, units@.skip(0)) =~~= sp);
    }
    while k < units.len()
        invariant
            k <= units.len(),
            pieces.deep_view() + split_append(cur@, units@.skip(k as int)) =~~= split_units(
                units@,
            ),
        decreases units.len() - k,
    {
        let u = units[k];
        proof {
            assert(units@.skip(k as int)[0] == u);
            assert(units@.skip(k as int).drop_first() =~~= units@.skip(k as int + 1));
            lemma_split_units_nonempty(units@.skip(k as int + 1));
        }
        let ghost old_pieces = pieces.deep_view();
        let ghost old_cur = cur@;
        if u == 124 {
            pieces.push(cur);
            cur = Vec::new();
            proof {
                assert(pieces.deep_view() =~~= old_pieces.push(old_cur));
                assert(split_append(old_cur, units@.skip(k as int)) =~~= seq![old_cur]
                    + split_units(units@.skip(k as int + 1)));
                assert(split_append(cur@, units@.skip(k as int + 1)) =~~= split_units(
                    units@.skip(k as int + 1),
                ));
                assert(pieces.deep_view() + split_append(cur@, units@.skip(k as int + 1))
                    =~~= old_pieces + split_append(old_cur, units@.skip(k as int)));
            }
        } else {
            cur.push(u);
            proof {
                let rest = split_units(units@.skip(k as int + 1));
                assert(split_units(units@.skip(k as int)) =~~= seq![seq![u] + rest[0]]
                    + rest.drop_first());
                assert(old_cur + (seq![u] + rest[0]) =~~= cur@ + rest[0]);
                assert(split_append(old_cur, units@.skip(k as int)) =~~= split_append(
                    cur@,
                    units@.skip(k as int + 1),
                ));
            }
        }
        k = k + 1;
    }
    proof {
        assert(units@.skip(units@.len() as int) =~~= Seq::<u16>::empty());
        assert(split_append(cur@, Seq::<u16>::empty()) =~~= seq![cur@]);
    }
    let ghost all_pieces = pieces.deep_view().push(cur@);
    pieces.push(cur);
    proof {
        assert(pieces.deep_view() =~~= all_pieces);
        assert(pieces.deep_view() =~~= split_units(units@));
    }
    let mut names: Vec<String> = Vec::new();
    let mut j: usize = 0;
    while j < pieces.len()
        invariant
            j <= pieces.len(),
            pieces.deep_view() =~~= split_units(units@),
            names.deep_view() =~~= pieces.deep_view().take(j as int).map_values(
                |u: Seq<u16>| utf16_text(u),
            ),
        decreases pieces.len() - j,
    {
        let s = utf16_to_string(&pieces[j]);
        let ghost old_names = names.deep_view();
        names.push(s);
        proof {
            assert(names.deep_view() =~~= old_names.push(utf16_text(pieces@[j as int]@)));
            assert(pieces.deep_view().take(j as int + 1) =~~= pieces.deep_view().take(
                j as int,
            ).push(pieces@[j as int]@));
            assert(names.deep_view() =~~= pieces.deep_view().take(j as int + 1).map_values(
                |u: Seq<u16>| utf16_text(u),
            ));
        }
        j = j + 1;
    }
    proof {
        assert(pieces.deep_view().take(pieces@.len() as int) =~~= pieces.deep_view());
        assert(names.deep_view() =~~= split_units(units@).map_values(|u: Seq<u16>| utf16_text(u)));
    }
    names
}

/// One decoded data-point record.  Position, velocity, proper-motion,
/// magnitude and size fields of the file are IEEE-754 patterns carried
/// through as raw bits; turning them into display units is left to the
/// caller.
#[derive(Clone, Debug)]
pub struct Particle {
    pub x_bits: u64,
    pub y_bits: u64,
    pub z_bits: u64,
    pub vx_bits: u32,
    pub vy_bits: u32,
    pub vz_bits: u32,
    pub mu_alpha_bits: u32,
    pub mu_delta_bits: u32,
    pub rad_vel_bits: u32,
    pub app_mag_bits: u32,
    pub abs_mag_bits: u32,
    pub color: [u8; 4],
    pub size_bits: u32,
    pub hip_number: i32,
    pub source_id: i64,
    pub name_len: i32,
    pub names: Vec<String>,
}

/// Mathematical image of a `Particle`.
#[verifier::ext_equal]
pub struct ParticleView {
    pub x_bits: u64,
    pub y_bits: u64,
    pub z_bits: u64,
    pub vx_bits: u32,
    pub vy_bits: u32,
    pub vz_bits: u32,
    pub mu_alpha_bits: u32,
    pub mu_delta_bits: u32,
    pub rad_vel_bits: u32,
    pub app_mag_bits: u32,
    pub abs_mag_bits: u32,
    pub color: Seq<u8>,
    pub size_bits: u32,
    pub hip_number: i32,
    pub source_id: i64,
    pub name_len: i32,
    pub names: Seq<Seq<char>>,
}

impl View for Particle {
    type V = ParticleView;

    open spec fn view(&self) -> ParticleView {
        ParticleView {
            x_bits: self.x_bits,
            y_bits: self.y_bits,
            z_bits: self.z_bits,
            vx_bits: self.vx_bits,
            vy_bits: self.vy_bits,
            vz_bits: self.vz_bits,
            mu_alpha_bits: self.mu_alpha_bits,
            mu_delta_bits: self.mu_delta_bits,
            rad_vel_bits: self.rad_vel_bits,
            app_mag_bits: self.app_mag_bits,
            abs_mag_bits: self.abs_mag_bits,
            color: self.color@,
            size_bits: self.size_bits,
            hip_number: self.hip_number,
            source_id: self.source_id,
            name_len: self.name_len,
            names: self.names.deep_view(),
        }
    }
}

/// The record laid out at offset `p` of `b`, with the offset just past it;
/// `None` when the bytes end inside the record or the stored name length
/// is negative.
pub open spec fn spec_particle_at(b: Seq<u8>, p: int) -> Option<(ParticleView, int)> {
    if p + 80 > b.len() {
        None
    } else {
        let nl = i32_from_bits(be32_at(b, p + 76));
        if nl < 0 || p + 80 + 2 * nl > b.len() {
            None
        } else {
            let units = Seq::new(nl as nat, |j: int| be16_at(b, p + 80 + 2 * j));
            Some(
                (
                    ParticleView {
                        x_bits: be64_at(b, p),
                        y_bits: be64_at(b, p + 8),
                        z_bits: be64_at(b, p + 16),
                        vx_bits: be32_at(b, p + 24),
                        vy_bits: be32_at(b, p + 28),
                        vz_bits: be32_at(b, p + 32),
                        mu_alpha_bits: be32_at(b, p + 36),
                        mu_delta_bits: be32_at(b, p + 40),
                        rad_vel_bits: be32_at(b, p + 44),
                        app_mag_bits: be32_at(b, p + 48),
                        abs_mag_bits: be32_at(b, p + 52),
                        color: seq![b[p + 59], b[p + 58], b[p + 57], scale_alpha(b[p + 56])],
                        size_bits: be32_at(b, p + 60),
                        hip_number: i32_from_bits(be32_at(b, p + 64)),
                        source_id: i64_from_bits(be64_at(b, p + 68)),
                        name_len: nl,
                        names: split_units(units).map_values(|u: Seq<u16>| utf16_text(u)),
                    },
                    p + 80 + 2 * nl,
                ),
            )
        }
    }
}

/// The sequence of records laid out from offset `p`, at most `count` of
/// them; a record that fails to decode truncates the sequence.
pub open spec fn spec_particles(b: Seq<u8>, p: int, count: nat) -> Seq<ParticleView>
    decreases count,
{
    if count == 0 {
        Seq::empty()
    } else {
        match spec_particle_at(b, p) {
            None => Seq::empty(),
            Some((rec, next)) => seq![rec] + spec_particles(b, next, (count - 1) as nat),
        }
    }
}

/// Views of a decoded record vector.
pub open spec fn particles_view(v: Seq<Particle>) -> Seq<ParticleView> {
    v.map_values(|x: Particle| x@)
}

impl Particle {
    /// Decode one record at `pos`; the second component is the offset just
    /// past it.
    pub fn from_reader(b: &Vec<u8>, pos: usize) -> (r: Option<(Particle, usize)>)
        requires
            pos <= b.len(),
        ensures
            match r {
                Some((rec, next)) => spec_particle_at(b@, pos as int) == Some(
                    (rec@, next as int),
                ) && pos < next <= b.len(),
                None => spec_particle_at(b@, pos as int) is None,
            },
    {
        if b.len() - pos < 80 {
            return None;
        }
        let name_len = read_i32_be(b, pos + 76);
        if name_len < 0 {
            return None;
        }
        let nl: usize = name_len as usize;
        if 2 * (name_len as u64) > (b.len() - pos - 80) as u64 {
            return None;
        }
        let mut units: Vec<u16> = Vec::new();
        let mut j: usize = 0;
        let ghost spec_units = Seq::new(nl as nat, |j: int| be16_at(b@, pos + 80 + 2 * j));
        while j < nl
            invariant
                j <= nl,
                pos + 80 + 2 * nl <= b.len(),
                units@ =~= spec_units.take(j as int),
                spec_units == Seq::new(nl as nat, |j: int| be16_at(b@, pos + 80 + 2 * j)),
            decreases nl - j,
        {
            let u = read_u16_be(b, pos + 80 + 2 * j);
            let ghost old_units = units@;
            units.push(u);
            proof {
                assert(units@ =~= spec_units.take(j as int + 1));
            }
            j = j + 1;
        }
        proof {
            assert(units@ =~= spec_units);
        }
        let names = split_and_decode(&units);
        let rec = Particle {
            x_bits: read_u64_be(b, pos),
            y_bits: read_u64_be(b, pos + 8),
            z_bits: read_u64_be(b, pos + 16),
            vx_bits: read_u32_be(b, pos + 24),
            vy_bits: read_u32_be(b, pos + 28),
            vz_bits: read_u32_be(b, pos + 32),
            mu_alpha_bits: read_u32_be(b, pos + 36),
            mu_delta_bits: read_u32_be(b, pos + 40),
            rad_vel_bits: read_u32_be(b, pos + 44),
            app_mag_bits: read_u32_be(b, pos + 48),
            abs_mag_bits: read_u32_be(b, pos + 52),
            color: rgba_from_float([b[pos + 56], b[pos + 57], b[pos + 58], b[pos + 59]]),
            size_bits: read_u32_be(b, pos + 60),
            hip_number: read_i32_be(b, pos + 64),
            source_id: read_i64_be(b, pos + 68),
            name_len,
            names,
        };
        let next = pos + 80 + 2 * nl;
        proof {
            let spec_rec = spec_particle_at(b@, pos as int)->Some_0.0;
            assert(rec@.color =~= spec_rec.color);
            assert(rec@ =~= spec_rec);
        }
        Some((rec, next))
    }

    /// Decode a whole payload file: the record-count header, then as many
    /// of the announced records as the bytes actually hold.  `None`
    /// exactly when even the header is incomplete.
    pub fn iter_from_reader(b: &Vec<u8>) -> (r: Option<Vec<Particle>>)
        ensures
            match r {
                Some(v) => spec_file_header(b@) matches Some((h, off)) && particles_view(v@)
                    == spec_particles(b@, off, crate::octant::header_count(h)),
                None => spec_file_header(b@) is None,
            },
    {
        let (header, off) = match FileHeader::from_reader(b) {
            None => {
                return None;
            },
            Some(x) => x,
        };
        let n: usize = if header.size < 0 {
            0
        } else {
            header.size as usize
        };
        let mut out: Vec<Particle> = Vec::new();
        let mut pos: usize = off;
        let mut i: usize = 0;
        proof {
            assert(particles_view(out@) =~= Seq::<ParticleView>::empty());
        }
        while i < n
            invariant
                i <= n,
                pos <= b.len(),
                out@.len() == i,
                spec_file_header(b@) == Some((header, off as int)),
                n as nat == crate::octant::header_count(header),
                particles_view(out@) + spec_particles(b@, pos as int, (n - i) as nat)
                    == spec_particles(b@, off as int, n as nat),
            decreases n - i,
        {
            match Particle::from_reader(b, pos) {
                None => {
                    assert(spec_particles(b@, pos as int, (n - i) as nat) =~= Seq::<
                        ParticleView,
                    >::empty());
                    assert(particles_view(out@) =~= spec_particles(b@, off as int, n as nat));
                    return Some(out);
                },
                Some((rec, next)) => {
                    let ghost prev = out@;
                    out.push(rec);
                    proof {
                        assert(particles_view(out@) =~= particles_view(prev).push(rec@));
                        assert(spec_particles(b@, pos as int, (n - i) as nat) == seq![rec@]
                            + spec_particles(b@, next as int, (n - i - 1) as nat));
                        assert(particles_view(out@) + spec_particles(
                            b@,
                            next as int,
                            (n - i - 1) as nat,
                        ) =~= spec_particles(b@, off as int, n as nat));
                    }
                    pos = next;
                    i = i + 1;
                },
            }
        }
        proof {
            assert(particles_view(out@) =~= spec_particles(b@, off as int, n as nat));
        }
        Some(out)
    }
}

} // verus!
