//! The transform of a frame, read from its attribute dictionary: `_t` holds
//! the translation as three numerals apart by spaces, `_r` the rotation byte
//! as a numeral. What is missing or unreadable leaves the identity's part:
//! a zero translation, or the identity rotation.
use vstd::prelude::*;
use crate::dict::{Dict, lookup};
use crate::rotation::{rotation_from_byte, rotation_of, valid_rotation_byte};
use crate::text::{i32_value, parse_i32, parse_u8, u8_value};
use crate::transform::{Affine, Transform, identity_matrix, mat_model, vec_model};

verus! {

/// The key `_t`.
pub open spec fn translation_key() -> Seq<u8> {
    seq![95u8, 116u8]
}

/// The key `_r`.
pub open spec fn rotation_key() -> Seq<u8> {
    seq![95u8, 114u8]
}

/// The pieces of `s` between spaces, empty ones included.
pub open spec fn fields(s: Seq<u8>) -> Seq<Seq<u8>>
    decreases s.len(),
{
    if s.len() == 0 {
        seq![Seq::empty()]
    } else {
        let f = fields(s.drop_last());
        if s.last() == 32 {
            f.push(Seq::empty())
        } else {
            f.update(f.len() - 1, f.last().push(s.last()))
        }
    }
}

/// The values read so far, after one more piece: an empty piece (between two
/// spaces in a row, or at either end) adds nothing; any other piece must be an
/// `i32` numeral, else the whole value is unreadable.
pub open spec fn piece_step(acc: Option<Seq<int>>, f: Seq<u8>) -> Option<Seq<int>> {
    match acc {
        Some(v) => if f.len() == 0 {
            Some(v)
        } else {
            match i32_value(f) {
                Some(x) => Some(v.push(x)),
                None => None,
            }
        },
        None => None,
    }
}

/// The values of the pieces, in order, where every piece that is not empty
/// is an `i32` numeral.
pub open spec fn field_values(fs: Seq<Seq<u8>>) -> Option<Seq<int>>
    decreases fs.len(),
{
    if fs.len() == 0 {
        Some(seq![])
    } else {
        piece_step(field_values(fs.drop_last()), fs.last())
    }
}

/// The translation that a `_t` value names: exactly three numbers apart by
/// spaces, and nothing else.
pub open spec fn translation_value(s: Seq<u8>) -> Option<Seq<int>> {
    match field_values(fields(s)) {
        Some(v) => if v.len() == 3 {
            Some(v)
        } else {
            None
        },
        None => None,
    }
}

/// The translation of a frame: the zero vector where `_t` is missing or is
/// not exactly three `i32` numerals apart by spaces.
pub open spec fn frame_translation(d: Seq<(Seq<u8>, Seq<u8>)>) -> Seq<int> {
    match lookup(d, translation_key()) {
        Some(s) => match translation_value(s) {
            Some(v) => v,
            None => seq![0int, 0int, 0int],
        },
        None => seq![0int, 0int, 0int],
    }
}

/// The rotation of a frame: the identity where `_r` is missing, is no `u8`
/// numeral, or names no rotation.
pub open spec fn frame_rotation(d: Seq<(Seq<u8>, Seq<u8>)>) -> Seq<Seq<int>> {
    match lookup(d, rotation_key()) {
        Some(s) => match u8_value(s) {
            Some(b) => if valid_rotation_byte(b as u8) {
                rotation_of(b as u8)
            } else {
                identity_matrix()
            },
            None => identity_matrix(),
        },
        None => identity_matrix(),
    }
}

proof fn lemma_fields_nonempty(s: Seq<u8>)
    ensures
        fields(s).len() >= 1,
    decreases s.len(),
{
    if s.len() > 0 {
        lemma_fields_nonempty(s.drop_last());
    }
}

pub open spec fn int_values(v: Seq<i32>) -> Seq<int> {
    v.map_values(|x: i32| x as int)
}

fn add_piece(s: &[u8], start: usize, end: usize, vals: &mut Vec<i32>, ok: &mut bool)
    requires
        start <= end <= s@.len(),
    ensures
        (if *final(ok) {
            Some(int_values(final(vals)@))
        } else {
            None
        }) == piece_step(
            if *old(ok) {
                Some(int_values(old(vals)@))
            } else {
                None
            },
            s@.subrange(start as int, end as int),
        ),
{
    if *ok && start < end {
        match parse_i32(s, start, end) {
            Some(x) => {
                let ghost before = int_values(vals@);
                vals.push(x);
                assert(int_values(vals@) =~= before.push(x as int));
            },
            None => {
                *ok = false;
            },
        }
    }
}

/// Reads a `_t` value: three `i32` numerals apart by spaces. Runs of spaces,
/// and spaces at either end, are allowed; any other text makes it unreadable.
pub fn translation_from_bytes(s: &[u8]) -> (r: Option<[i32; 3]>)
    ensures
        match r {
            Some(t) => translation_value(s@) == Some(vec_model(t)),
            None => translation_value(s@) is None,
        },
{
    let mut vals: Vec<i32> = Vec::new();
    let mut ok = true;
    let mut start: usize = 0;
    let mut i: usize = 0;
    assert(s@.take(0) =~= Seq::<u8>::empty());
    assert(fields(Seq::<u8>::empty()).drop_last() =~= Seq::<Seq<u8>>::empty());
    assert(s@.subrange(0, 0) =~= Seq::<u8>::empty());
    assert(int_values(vals@) =~= Seq::<int>::empty());
    while i < s.len()
        invariant
            start <= i <= s@.len(),
            fields(s@.take(i as int)).len() >= 1,
            fields(s@.take(i as int)).last() == s@.subrange(start as int, i as int),
            field_values(fields(s@.take(i as int)).drop_last()) == (if ok {
                Some(int_values(vals@))
            } else {
                None
            }),
        decreases s.len() - i,
    {
        let ghost f = fields(s@.take(i as int));
        assert(s@.take(i + 1).drop_last() =~= s@.take(i as int));
        assert(s@.take(i + 1).last() == s@[i as int]);
        if s[i] == 32 {
            assert(fields(s@.take(i + 1)) == f.push(Seq::empty()));
            assert(f.push(Seq::empty()).drop_last() =~= f);
            assert(f =~= f.drop_last().push(f.last()));
            add_piece(s, start, i, &mut vals, &mut ok);
            start = i + 1;
            i = i + 1;
            assert(s@.subrange(start as int, i as int) =~= Seq::<u8>::empty());
        } else {
            let ghost g = f.update(f.len() - 1, f.last().push(s@[i as int]));
            assert(fields(s@.take(i + 1)) == g);
            assert(g.drop_last() =~= f.drop_last());
            assert(s@.subrange(start as int, i + 1) =~= f.last().push(s@[i as int]));
            i = i + 1;
        }
    }
    let ghost f = fields(s@.take(i as int));
    assert(s@.take(i as int) =~= s@);
    assert(f =~= f.drop_last().push(f.last()));
    add_piece(s, start, i, &mut vals, &mut ok);
    if ok && vals.len() == 3 {
        let t = [vals[0], vals[1], vals[2]];
        assert(vec_model(t) =~= int_values(vals@));
        Some(t)
    } else {
        None
    }
}

impl Transform {
    /// The transform of a frame's attribute dictionary. A `_t` that is
    /// missing or unreadable leaves the translation zero; an `_r` that is
    /// missing, unreadable or names no rotation leaves the identity rotation.
    pub fn from_dict(dict: Dict) -> (r: Self)
        ensures
            r@ == (Affine { t: frame_translation(dict@), r: frame_rotation(dict@) }),
    {
        let tk: [u8; 2] = [95, 116];
        let rk: [u8; 2] = [95, 114];
        assert(tk@ =~= translation_key());
        assert(rk@ =~= rotation_key());
        let t: [i32; 3] = match dict.get(tk.as_slice()) {
            Some(s) => match translation_from_bytes(s.as_slice()) {
                Some(t) => t,
                None => [0, 0, 0],
            },
            None => [0, 0, 0],
        };
        let id: [[i8; 3]; 3] = [[1, 0, 0], [0, 1, 0], [0, 0, 1]];
        assert(mat_model(id) =~~= identity_matrix());
        let r: [[i8; 3]; 3] = match dict.get(rk.as_slice()) {
            Some(s) => match parse_u8(s.as_slice(), 0, s.len()) {
                Some(b) => {
                    assert(s@.subrange(0, s@.len() as int) =~= s@);
                    assert(u8_value(s@) == Some(b as int));
                    match rotation_from_byte(b) {
                    Some(m) => m,
                    None => id,
                }},
                None => {
                    assert(s@.subrange(0, s@.len() as int) =~= s@);
                    id
                },
            },
            None => id,
        };
        let out = Transform { t, r };
        assert(vec_model([0i32, 0, 0]) =~= seq![0int, 0int, 0int]);
        assert(out@.t =~= frame_translation(dict@));
        assert(out@.r == frame_rotation(dict@));
        out
    }
}

} // verus!
