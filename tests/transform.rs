use dot_vox::dict::Dict;
use dot_vox::rotation::rotation_from_byte;
use dot_vox::text::{parse_i32, parse_u8};
use dot_vox::frame::translation_from_bytes;
use dot_vox::transform::Transform;

const ID: [[i8; 3]; 3] = [[1, 0, 0], [0, 1, 0], [0, 0, 1]];

fn code_of(m: [[i8; 3]; 3]) -> u8 {
    let col = |row: [i8; 3]| -> u8 {
        if row[0] != 0 {
            0
        } else if row[1] != 0 {
            1
        } else {
            2
        }
    };
    let neg = |row: [i8; 3]| -> u8 { if row[0] + row[1] + row[2] < 0 { 1 } else { 0 } };
    col(m[0]) + 4 * col(m[1]) + 16 * neg(m[0]) + 32 * neg(m[1]) + 64 * neg(m[2])
}

#[test]
fn rotation_round_trip_all_valid_bytes() {
    for b in 0..=255u8 {
        let i1 = b & 3;
        let i2 = (b >> 2) & 3;
        if i1 < 3 && i2 < 3 && i1 != i2 {
            let m = rotation_from_byte(b).expect("valid byte");
            assert_eq!(code_of(m), b & 0x7f);
            for j in 0..3 {
                let nonzero = (0..3).filter(|&i| m[i][j] != 0).count();
                assert_eq!(nonzero, 1);
            }
        }
    }
}

#[test]
fn rotation_rejects_index_three() {
    for b in 0..=255u8 {
        if b & 3 == 3 || (b >> 2) & 3 == 3 {
            assert_eq!(rotation_from_byte(b), None);
        }
    }
    assert_eq!(rotation_from_byte(3), None);
    assert_eq!(rotation_from_byte(12), None);
    assert_eq!(rotation_from_byte(15), None);
    assert_eq!(rotation_from_byte(28), None);
}

#[test]
fn rotation_rejects_equal_indices() {
    assert_eq!(rotation_from_byte(0), None);
    assert_eq!(rotation_from_byte(5), None);
    assert_eq!(rotation_from_byte(10), None);
}

#[test]
fn rotation_identity_and_signs() {
    assert_eq!(rotation_from_byte(4), Some(ID));
    assert_eq!(rotation_from_byte(4 + 128), Some(ID));
    assert_eq!(
        rotation_from_byte(81),
        Some([[0, -1, 0], [1, 0, 0], [0, 0, -1]])
    );
    assert_eq!(
        rotation_from_byte(0b0100110),
        Some([[0, 0, 1], [0, -1, 0], [1, 0, 0]])
    );
}

#[test]
fn identity_is_two_sided_unit() {
    let x = Transform { t: [3, -7, 11], r: [[0, -1, 0], [1, 0, 0], [0, 0, 1]] };
    assert_eq!(Transform::default().apply(x), x);
    assert_eq!(x.apply(Transform::default()), x);
}

#[test]
fn apply_exact_value() {
    let inner = Transform { t: [1, 0, 0], r: ID };
    let outer = Transform { t: [0, 0, 5], r: [[0, -1, 0], [1, 0, 0], [0, 0, 1]] };
    let c = inner.apply(outer);
    assert_eq!(c.t, [0, 1, 5]);
    assert_eq!(c.r, [[0, -1, 0], [1, 0, 0], [0, 0, 1]]);
    let a = Transform { t: [1, 2, 3], r: [[0, 0, 1], [1, 0, 0], [0, 1, 0]] };
    let b = Transform { t: [-4, 0, 2], r: [[-1, 0, 0], [0, 0, 1], [0, 1, 0]] };
    let ab = a.apply(b);
    assert_eq!(ab.t, [-5, 3, 4]);
    assert_eq!(ab.r, [[0, 0, -1], [0, 1, 0], [1, 0, 0]]);
}

#[test]
fn apply_is_associative_on_samples() {
    let mut samples = Vec::new();
    for (k, b) in [4u8, 81, 0b0100110, 0b1111001, 0b0011000, 0b1000110].iter().enumerate() {
        let r = rotation_from_byte(*b).unwrap();
        let k = k as i32;
        samples.push(Transform { t: [k - 2, 3 * k, -k], r });
    }
    for a in &samples {
        for b in &samples {
            for c in &samples {
                assert_eq!(a.apply(*b).apply(*c), a.apply(b.apply(*c)));
            }
        }
    }
}

fn dict(pairs: &[(&str, &str)]) -> Dict {
    Dict {
        entries: pairs
            .iter()
            .map(|(k, v)| (k.as_bytes().to_vec(), v.as_bytes().to_vec()))
            .collect(),
    }
}

#[test]
fn from_dict_reads_translation_and_rotation() {
    let t = Transform::from_dict(dict(&[("_t", "1 -2 30"), ("_r", "81")]));
    assert_eq!(t.t, [1, -2, 30]);
    assert_eq!(t.r, [[0, -1, 0], [1, 0, 0], [0, 0, -1]]);
}

#[test]
fn from_dict_defaults() {
    let t = Transform::from_dict(dict(&[]));
    assert_eq!(t, Transform::default());
    let t = Transform::from_dict(dict(&[("_t", "1 2"), ("_r", "3")]));
    assert_eq!(t, Transform::default());
    let t = Transform::from_dict(dict(&[("_t", "1 2 3 4"), ("_r", "300")]));
    assert_eq!(t, Transform::default());
    let t = Transform::from_dict(dict(&[("_r", "-4"), ("_name", "x")]));
    assert_eq!(t, Transform::default());
}

#[test]
fn from_dict_runs_of_spaces() {
    let t = Transform::from_dict(dict(&[("_t", "1  2 3")]));
    assert_eq!(t.t, [1, 2, 3]);
    let t = Transform::from_dict(dict(&[("_t", " 1 2 +3 ")]));
    assert_eq!(t.t, [1, 2, 3]);
}

#[test]
fn from_dict_unreadable_translation_is_zero() {
    let t = Transform::from_dict(dict(&[("_t", "1 x 2 +3")]));
    assert_eq!(t.t, [0, 0, 0]);
    let t = Transform::from_dict(dict(&[("_t", "1 x 2 3")]));
    assert_eq!(t.t, [0, 0, 0]);
    let t = Transform::from_dict(dict(&[("_t", "a b c")]));
    assert_eq!(t.t, [0, 0, 0]);
    let t = Transform::from_dict(dict(&[("_t", "1,2,3")]));
    assert_eq!(t.t, [0, 0, 0]);
}

#[test]
fn from_dict_last_entry_wins() {
    let t = Transform::from_dict(dict(&[("_t", "1 1 1"), ("_t", "4 5 6")]));
    assert_eq!(t.t, [4, 5, 6]);
}

#[test]
fn dict_get() {
    let d = dict(&[("a", "1"), ("_t", "x"), ("a", "2")]);
    assert_eq!(d.get(b"a"), Some(&b"2".to_vec()));
    assert_eq!(d.get(b"_t"), Some(&b"x".to_vec()));
    assert_eq!(d.get(b"b"), None);
}

#[test]
fn translation_values() {
    assert_eq!(translation_from_bytes(b"-1 0 7"), Some([-1, 0, 7]));
    assert_eq!(translation_from_bytes(b""), None);
    assert_eq!(translation_from_bytes(b"1 2 3 "), Some([1, 2, 3]));
    assert_eq!(translation_from_bytes(b"1 2 99999999999"), None);
    assert_eq!(translation_from_bytes(b"1 2 3x"), None);
}

#[test]
fn numerals() {
    let p = |s: &str| parse_i32(s.as_bytes(), 0, s.len());
    assert_eq!(p("+5"), Some(5));
    assert_eq!(p("-2147483648"), Some(i32::MIN));
    assert_eq!(p("2147483647"), Some(i32::MAX));
    assert_eq!(p("2147483648"), None);
    assert_eq!(p("-2147483649"), None);
    assert_eq!(p("000000000000000000042"), Some(42));
    assert_eq!(p(""), None);
    assert_eq!(p("-"), None);
    assert_eq!(p("+-1"), None);
    assert_eq!(p("1a"), None);
    let q = |s: &str| parse_u8(s.as_bytes(), 0, s.len());
    assert_eq!(q("255"), Some(255));
    assert_eq!(q("+7"), Some(7));
    assert_eq!(q("256"), None);
    assert_eq!(q("-0"), None);
    assert_eq!(parse_i32(b"ab12cd", 2, 4), Some(12));
}

#[test]
fn apply_checked_refuses_overflow() {
    let big = Transform { t: [i32::MAX, 0, 0], r: ID };
    let one = Transform { t: [1, 0, 0], r: ID };
    assert_eq!(big.apply_checked(one), None);
    let neg = Transform { t: [0, 0, 0], r: [[-1, 0, 0], [0, 1, 0], [0, 0, 1]] };
    let c = big.apply_checked(neg).unwrap();
    assert_eq!(c.t, [-i32::MAX, 0, 0]);
    let wide = Transform { t: [0, 0, 0], r: [[100, 0, 0], [0, 1, 0], [0, 0, 1]] };
    assert_eq!(wide.apply_checked(wide), None);
    assert_eq!(one.apply_checked(one), Some(one.apply(one)));
}
