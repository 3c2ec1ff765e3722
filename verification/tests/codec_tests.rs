use octree_stream::codec::FileHeader;
use octree_stream::octant::OctantRecord;
use octree_stream::particle::{rgba_from_float, Particle};

fn push_u16(v: &mut Vec<u8>, x: u16) {
    v.extend_from_slice(&x.to_be_bytes());
}

fn push_u32(v: &mut Vec<u8>, x: u32) {
    v.extend_from_slice(&x.to_be_bytes());
}

fn push_u64(v: &mut Vec<u8>, x: u64) {
    v.extend_from_slice(&x.to_be_bytes());
}

fn push_i32(v: &mut Vec<u8>, x: i32) {
    v.extend_from_slice(&x.to_be_bytes());
}

fn push_i64(v: &mut Vec<u8>, x: i64) {
    v.extend_from_slice(&x.to_be_bytes());
}

fn push_f32(v: &mut Vec<u8>, x: f32) {
    v.extend_from_slice(&x.to_be_bytes());
}

fn push_f64(v: &mut Vec<u8>, x: f64) {
    v.extend_from_slice(&x.to_be_bytes());
}

/// One particle record with the given name field.
fn push_particle(v: &mut Vec<u8>, names: &str) {
    push_f64(v, 1.0);
    push_f64(v, 2.0);
    push_f64(v, 3.0);
    push_f32(v, 0.1);
    push_f32(v, 0.2);
    push_f32(v, 0.3);
    push_f32(v, 0.4);
    push_f32(v, 0.5);
    push_f32(v, 0.6);
    push_f32(v, 4.5);
    push_f32(v, -1.5);
    // packed color: big-endian bytes are alpha, blue, green, red
    v.extend_from_slice(&[254u8, 10, 20, 30]);
    push_f32(v, 2.0f32.powi(20));
    push_i32(v, 77);
    push_i64(v, 123456789);
    let units: Vec<u16> = names.encode_utf16().collect();
    push_i32(v, units.len() as i32);
    for u in units {
        push_u16(v, u);
    }
}

#[test]
fn plain_header() {
    let mut bytes = Vec::new();
    push_i32(&mut bytes, 7);
    let (h, off) = FileHeader::from_reader(&bytes).unwrap();
    assert_eq!(off, 4);
    assert_eq!(h.token, 7);
    assert_eq!(h.version, 0);
    assert_eq!(h.size, 7);
}

#[test]
fn extended_header() {
    let mut bytes = Vec::new();
    push_i32(&mut bytes, -1);
    push_i32(&mut bytes, 2);
    push_i32(&mut bytes, 5);
    let (h, off) = FileHeader::from_reader(&bytes).unwrap();
    assert_eq!(off, 12);
    assert_eq!(h.token, -1);
    assert_eq!(h.version, 2);
    assert_eq!(h.size, 5);
}

#[test]
fn short_header_is_refused() {
    let bytes = vec![0u8, 0, 1];
    assert!(FileHeader::from_reader(&bytes).is_none());
    let mut ext = Vec::new();
    push_i32(&mut ext, -1);
    push_i32(&mut ext, 2);
    assert!(FileHeader::from_reader(&ext).is_none());
}

#[test]
fn octant_record_round_trip() {
    let rec = OctantRecord {
        octant_id: 42,
        center_bits: [1.5f32.to_bits(), (-2.0f32).to_bits(), 0.25f32.to_bits()],
        extent_bits: [4.0f32.to_bits(), 8.0f32.to_bits(), 16.0f32.to_bits()],
        children: [-1, 7, -1, 9, -1, -1, -1, 11],
        depth: 3,
        cumulative_star_count: 1000,
        star_count: 10,
        child_count: 3,
    };
    let bytes = rec.encode();
    assert_eq!(bytes.len(), 112);
    let mut file = Vec::new();
    push_i32(&mut file, 1);
    file.extend_from_slice(&bytes);
    let recs = OctantRecord::iter_from_reader(&file).unwrap();
    assert_eq!(recs.len(), 1);
    let back = &recs[0];
    assert_eq!(back.octant_id, 42);
    assert_eq!(back.center_bits, rec.center_bits);
    assert_eq!(back.extent_bits, rec.extent_bits);
    assert_eq!(back.children, rec.children);
    assert_eq!(back.depth, 3);
    assert_eq!(back.cumulative_star_count, 1000);
    assert_eq!(back.star_count, 10);
    assert_eq!(back.child_count, 3);
}

#[test]
fn truncated_octant_record_ends_sequence() {
    let rec = OctantRecord {
        octant_id: 1,
        center_bits: [0, 0, 0],
        extent_bits: [0, 0, 0],
        children: [-1; 8],
        depth: 0,
        cumulative_star_count: 0,
        star_count: 0,
        child_count: 0,
    };
    let bytes = rec.encode();
    let mut file = Vec::new();
    push_i32(&mut file, 2);
    file.extend_from_slice(&bytes);
    // the second announced record is cut short
    file.extend_from_slice(&bytes[..50]);
    let recs = OctantRecord::iter_from_reader(&file).unwrap();
    assert_eq!(recs.len(), 1);
}

#[test]
fn payload_extended_header_two_records_ignores_trailing() {
    let mut file = Vec::new();
    push_i32(&mut file, -1);
    push_i32(&mut file, 1);
    push_i32(&mut file, 2);
    push_particle(&mut file, "Sirius|Alpha CMa");
    push_particle(&mut file, "Vega");
    // trailing garbage that must be ignored
    file.extend_from_slice(&[0xde, 0xad, 0xbe, 0xef, 0x01]);
    let recs = Particle::iter_from_reader(&file).unwrap();
    assert_eq!(recs.len(), 2);
    assert_eq!(recs[0].x_bits, 1.0f64.to_bits());
    assert_eq!(recs[0].y_bits, 2.0f64.to_bits());
    assert_eq!(recs[0].z_bits, 3.0f64.to_bits());
    assert_eq!(recs[0].hip_number, 77);
    assert_eq!(recs[0].source_id, 123456789);
    assert_eq!(recs[0].names, vec!["Sirius".to_string(), "Alpha CMa".to_string()]);
    assert_eq!(recs[1].names, vec!["Vega".to_string()]);
    // color: [r, g, b, alpha * 255 / 254] of the stored alpha, blue, green, red
    assert_eq!(recs[0].color, [30, 20, 10, 255]);
}

#[test]
fn particle_count_larger_than_data_truncates() {
    let mut file = Vec::new();
    push_i32(&mut file, 5);
    push_particle(&mut file, "only");
    let recs = Particle::iter_from_reader(&file).unwrap();
    assert_eq!(recs.len(), 1);
}

#[test]
fn rgba_scaling() {
    assert_eq!(rgba_from_float([254, 1, 2, 3]), [3, 2, 1, 255]);
    assert_eq!(rgba_from_float([0, 1, 2, 3]), [3, 2, 1, 0]);
    assert_eq!(rgba_from_float([255, 9, 8, 7]), [7, 8, 9, 255]);
    assert_eq!(rgba_from_float([127, 9, 8, 7]), [7, 8, 9, 127]);
}
