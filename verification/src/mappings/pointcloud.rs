//! Point clouds: the fields of their messages, and the points with their
//! colours. Coordinates are the bit patterns of 32-bit floats.

use vstd::prelude::*;
use crate::text::str_eq;
use crate::wire::{
    fits, has_bytes, header_end, le_u32, read_bool, read_string, read_u32_le, read_u8,
    skip_header, string_at, DecodeError, Field,
};

verus! {

/// The description of one field of a point.
#[derive(Clone, Debug, PartialEq, Eq)]
pub struct PointField {
    pub name: String,
    /// Where the field starts within a point.
    pub offset: u32,
    pub datatype: u8,
    pub count: u32,
}

/// A field description as plain values.
pub struct PointFieldView {
    pub name: Seq<char>,
    pub offset: u32,
    pub datatype: u8,
    pub count: u32,
}

impl View for PointField {
    type V = PointFieldView;

    open spec fn view(&self) -> PointFieldView {
        PointFieldView {
            name: self.name@,
            offset: self.offset,
            datatype: self.datatype,
            count: self.count,
        }
    }
}

/// The views of the field descriptions.
pub open spec fn field_views(fields: Seq<PointField>) -> Seq<PointFieldView> {
    Seq::new(fields.len(), |i: int| fields[i]@)
}

/// The field description at `pos` and the position after it: the name as a
/// string, the offset, one byte of datatype, the count.
pub open spec fn field_at(s: Seq<u8>, pos: int) -> Result<(PointFieldView, int), DecodeError> {
    match string_at(s, pos, Field::FieldNameLength, Field::FieldName) {
        Err(e) => Err(e),
        Ok((name, at)) => if !fits(s, at, 4) {
            Err(DecodeError::Truncated(Field::FieldOffset))
        } else if !fits(s, at + 4, 1) {
            Err(DecodeError::Truncated(Field::FieldDatatype))
        } else if !fits(s, at + 5, 4) {
            Err(DecodeError::Truncated(Field::FieldRepeat))
        } else {
            Ok(
                (
                    PointFieldView {
                        name,
                        offset: le_u32(s, at) as u32,
                        datatype: s[at + 4],
                        count: le_u32(s, at + 5) as u32,
                    },
                    at + 9,
                ),
            )
        },
    }
}

/// `count` field descriptions in a row from `pos` on, and the position after
/// them.
pub open spec fn fields_from(s: Seq<u8>, pos: int, count: nat) -> Result<
    (Seq<PointFieldView>, int),
    DecodeError,
>
    decreases count,
{
    if count == 0 {
        Ok((Seq::empty(), pos))
    } else {
        match field_at(s, pos) {
            Err(e) => Err(e),
            Ok((first, next)) => match fields_from(s, next, (count - 1) as nat) {
                Err(e) => Err(e),
                Ok((rest, end)) => Ok((seq![first] + rest, end)),
            },
        }
    }
}

/// The field descriptions at `pos`, their number first, and the position
/// after them.
pub open spec fn fields_at(s: Seq<u8>, pos: int) -> Result<
    (Seq<PointFieldView>, int),
    DecodeError,
> {
    if !fits(s, pos, 4) {
        Err(DecodeError::Truncated(Field::FieldCount))
    } else {
        fields_from(s, pos + 4, le_u32(s, pos) as nat)
    }
}

/// Reads the field descriptions of a point cloud.
pub fn parse_fields(payload: &[u8], cursor: &mut usize) -> (r: Result<Vec<PointField>, DecodeError>)
    ensures
        match r {
            Ok(fields) => fields_at(payload@, *old(cursor) as int) == Ok::<
                (Seq<PointFieldView>, int),
                DecodeError,
            >((field_views(fields@), *final(cursor) as int)),
            Err(e) => fields_at(payload@, *old(cursor) as int) == Err::<
                (Seq<PointFieldView>, int),
                DecodeError,
            >(e),
        },
{
    let ghost start = *cursor as int;
    let count = match read_u32_le(payload, cursor, Field::FieldCount) {
        Ok(v) => v,
        Err(e) => {
            return Err(e);
        },
    };
    let mut fields: Vec<PointField> = Vec::new();
    let mut i: u32 = 0;
    while i < count
        invariant
            i <= count,
            start == *old(cursor) as int,
            fields_at(payload@, start) == fields_from(payload@, start + 4, count as nat),
            fields_from(payload@, start + 4, count as nat) == match fields_from(
                payload@,
                *cursor as int,
                (count - i) as nat,
            ) {
                Ok((rest, end)) => Ok::<(Seq<PointFieldView>, int), DecodeError>(
                    (field_views(fields@) + rest, end),
                ),
                Err(e) => Err(e),
            },
        decreases count - i,
    {
        let ghost done = field_views(fields@);
        let ghost at = *cursor as int;
        let name = match read_string(payload, cursor, Field::FieldNameLength, Field::FieldName) {
            Ok(v) => v,
            Err(e) => {
                assert(field_at(payload@, at) == Err::<(PointFieldView, int), DecodeError>(e));
                assert(fields_from(payload@, at, (count - i) as nat) == Err::<
                    (Seq<PointFieldView>, int),
                    DecodeError,
                >(e));
                return Err(e);
            },
        };
        let offset = match read_u32_le(payload, cursor, Field::FieldOffset) {
            Ok(v) => v,
            Err(e) => {
                assert(field_at(payload@, at) == Err::<(PointFieldView, int), DecodeError>(e));
                assert(fields_from(payload@, at, (count - i) as nat) == Err::<
                    (Seq<PointFieldView>, int),
                    DecodeError,
                >(e));
                return Err(e);
            },
        };
        let datatype = match read_u8(payload, cursor, Field::FieldDatatype) {
            Ok(v) => v,
            Err(e) => {
                assert(field_at(payload@, at) == Err::<(PointFieldView, int), DecodeError>(e));
                assert(fields_from(payload@, at, (count - i) as nat) == Err::<
                    (Seq<PointFieldView>, int),
                    DecodeError,
                >(e));
                return Err(e);
            },
        };
        let count_in_field = match read_u32_le(payload, cursor, Field::FieldRepeat) {
            Ok(v) => v,
            Err(e) => {
                assert(field_at(payload@, at) == Err::<(PointFieldView, int), DecodeError>(e));
                assert(fields_from(payload@, at, (count - i) as nat) == Err::<
                    (Seq<PointFieldView>, int),
                    DecodeError,
                >(e));
                return Err(e);
            },
        };
        let field = PointField { name, offset, datatype, count: count_in_field };
        proof {
            assert(field_at(payload@, at) == Ok::<(PointFieldView, int), DecodeError>(
                (field@, *cursor as int),
            ));
            match fields_from(payload@, *cursor as int, (count - i - 1) as nat) {
                Ok((rest, end)) => {
                    assert(done + (seq![field@] + rest) =~= done.push(field@) + rest);
                },
                Err(_) => {},
            }
        }
        fields.push(field);
        assert(field_views(fields@) =~= done.push(field@));
        i = i + 1;
    }
    proof {
        assert(field_views(fields@) + Seq::<PointFieldView>::empty() =~= field_views(fields@));
    }
    Ok(fields)
}

/// The offset of the first field called `name`.
pub open spec fn offset_named(fields: Seq<PointFieldView>, name: Seq<char>) -> Option<int>
    decreases fields.len(),
{
    if fields.len() == 0 {
        None
    } else if fields[0].name == name {
        Some(fields[0].offset as int)
    } else {
        offset_named(fields.drop_first(), name)
    }
}

/// The offset of the first field called `rgb` or `rgba`.
pub open spec fn colour_offset(fields: Seq<PointFieldView>) -> Option<int>
    decreases fields.len(),
{
    if fields.len() == 0 {
        None
    } else if fields[0].name == "rgb"@ || fields[0].name == "rgba"@ {
        Some(fields[0].offset as int)
    } else {
        colour_offset(fields.drop_first())
    }
}

fn find_offset(fields: &Vec<PointField>, name: &str) -> (r: Option<usize>)
    ensures
        match r {
            Some(off) => offset_named(field_views(fields@), name@) == Some(off as int),
            None => offset_named(field_views(fields@), name@) is None,
        },
{
    let ghost all = field_views(fields@);
    assert(all.skip(0) =~= all);
    let mut i: usize = 0;
    while i < fields.len()
        invariant
            i <= fields@.len(),
            all == field_views(fields@),
            offset_named(all, name@) == offset_named(all.skip(i as int), name@),
        decreases fields@.len() - i,
    {
        assert(all.skip(i as int).drop_first() =~= all.skip(i + 1));
        assert(all.skip(i as int)[0] == fields@[i as int]@);
        if str_eq(fields[i].name.as_str(), name) {
            return Some(fields[i].offset as usize);
        }
        i = i + 1;
    }
    None
}

fn find_colour_offset(fields: &Vec<PointField>) -> (r: Option<usize>)
    ensures
        match r {
            Some(off) => colour_offset(field_views(fields@)) == Some(off as int),
            None => colour_offset(field_views(fields@)) is None,
        },
{
    let ghost all = field_views(fields@);
    assert(all.skip(0) =~= all);
    let mut i: usize = 0;
    while i < fields.len()
        invariant
            i <= fields@.len(),
            all == field_views(fields@),
            colour_offset(all) == colour_offset(all.skip(i as int)),
        decreases fields@.len() - i,
    {
        assert(all.skip(i as int).drop_first() =~= all.skip(i + 1));
        assert(all.skip(i as int)[0] == fields@[i as int]@);
        if str_eq(fields[i].name.as_str(), "rgb") || str_eq(fields[i].name.as_str(), "rgba") {
            return Some(fields[i].offset as usize);
        }
        i = i + 1;
    }
    None
}

/// Whether the 32-bit float with these bits is a number, neither infinite nor
/// undefined: whether its exponent is not all ones.
pub open spec fn finite_bits(bits: int) -> bool {
    (bits / 0x80_0000) % 256 != 255
}

/// Whether the 32-bit float with these bits is finite.
pub fn is_finite_f32(bits: u32) -> (r: bool)
    ensures
        r == finite_bits(bits as int),
{
    (bits / 0x80_0000) % 256 != 255
}

/// Reads the bits of a 32-bit float at the offset `off` of a point.
pub fn read_f32_le_at(data: &[u8], off: usize, field: Field) -> (r: Result<u32, DecodeError>)
    ensures
        match r {
            Ok(bits) => fits(data@, off as int, 4) && bits == le_u32(data@, off as int),
            Err(e) => !fits(data@, off as int, 4) && e == DecodeError::Truncated(field),
        },
{
    let mut at: usize = off;
    read_u32_le(data, &mut at, field)
}

/// Reads a colour at the offset `off` of a point: four bytes that hold blue,
/// green and red, in this order, and are returned as red, green, blue.
pub fn read_color_at(data: &[u8], off: usize) -> (r: Result<[u8; 3], DecodeError>)
    ensures
        match r {
            Ok(rgb) => fits(data@, off as int, 4) && rgb@ == seq![
                data@[off + 2],
                data@[off + 1],
                data@[off as int],
            ],
            Err(e) => !fits(data@, off as int, 4) && e == DecodeError::Truncated(
                Field::PointColor,
            ),
        },
{
    if !has_bytes(data, off, 4) {
        return Err(DecodeError::Truncated(Field::PointColor));
    }
    let rgb = [data[off + 2], data[off + 1], data[off]];
    assert(rgb@ =~= seq![data@[off + 2], data@[off + 1], data@[off as int]]);
    Ok(rgb)
}

/// The points of a cloud, and their colours where the points have any.
#[derive(Clone, Debug, PartialEq, Eq)]
pub struct PointCloud {
    /// `[x, y, z]` of each point.
    pub positions: Vec<[u32; 3]>,
    /// `[red, green, blue]` of each point.
    pub colors: Option<Vec<[u8; 3]>>,
}

/// A cloud as plain values.
pub struct PointCloudView {
    pub positions: Seq<Seq<u32>>,
    pub colors: Option<Seq<Seq<u8>>>,
}

/// The arrays as sequences.
pub open spec fn triple_views<T>(triples: Seq<[T; 3]>) -> Seq<Seq<T>> {
    Seq::new(triples.len(), |i: int| triples[i]@)
}

impl View for PointCloud {
    type V = PointCloudView;

    open spec fn view(&self) -> PointCloudView {
        PointCloudView {
            positions: triple_views(self.positions@),
            colors: match self.colors {
                Some(c) => Some(triple_views(c@)),
                None => None,
            },
        }
    }
}

/// Where the fields of a point stand within it.
pub struct PointLayout {
    /// The length of a point.
    pub step: int,
    pub x: int,
    pub y: int,
    pub z: int,
    pub colour: Option<int>,
}

/// Up to `count` points from `start` on, each `layout.step` bytes long, and
/// their colours; the points end where `data` has no room for another. A
/// point with a coordinate that is not finite is left out, with its colour.
pub open spec fn points_from(data: Seq<u8>, start: int, count: nat, layout: PointLayout) -> Result<
    (Seq<Seq<u32>>, Seq<Seq<u8>>),
    DecodeError,
>
    decreases count,
{
    if count == 0 || layout.step < 0 || start < 0 || start + layout.step > data.len() {
        Ok((Seq::empty(), Seq::empty()))
    } else {
        let point = data.subrange(start, start + layout.step);
        if !fits(point, layout.x, 4) {
            Err(DecodeError::Truncated(Field::PointX))
        } else if !fits(point, layout.y, 4) {
            Err(DecodeError::Truncated(Field::PointY))
        } else if !fits(point, layout.z, 4) {
            Err(DecodeError::Truncated(Field::PointZ))
        } else {
            let x = le_u32(point, layout.x);
            let y = le_u32(point, layout.y);
            let z = le_u32(point, layout.z);
            let next = points_from(data, start + layout.step, (count - 1) as nat, layout);
            if !(finite_bits(x) && finite_bits(y) && finite_bits(z)) {
                next
            } else {
                match layout.colour {
                    Some(c) => if !fits(point, c, 4) {
                        Err(DecodeError::Truncated(Field::PointColor))
                    } else {
                        match next {
                            Err(e) => Err(e),
                            Ok((ps, cs)) => Ok(
                                (
                                    seq![seq![x as u32, y as u32, z as u32]] + ps,
                                    seq![seq![point[c + 2], point[c + 1], point[c]]] + cs,
                                ),
                            ),
                        }
                    },
                    None => match next {
                        Err(e) => Err(e),
                        Ok((ps, cs)) => Ok((seq![seq![x as u32, y as u32, z as u32]] + ps, cs)),
                    },
                }
            }
        }
    }
}

/// A cloud without points.
pub open spec fn empty_cloud() -> PointCloudView {
    PointCloudView { positions: Seq::empty(), colors: None }
}

/// The cloud that starts after the field descriptions, at `pos`: one byte of
/// endianness, the length of a point, the row step, then the length of the
/// data and the data. A big-endian cloud, and one without a field `x`, `y` or
/// `z`, has no points.
pub open spec fn cloud_body(
    s: Seq<u8>,
    pos: int,
    count: nat,
    fields: Seq<PointFieldView>,
) -> Result<PointCloudView, DecodeError> {
    if !fits(s, pos, 1) {
        Err(DecodeError::Truncated(Field::Endianness))
    } else if s[pos] != 0 {
        Ok(empty_cloud())
    } else if !fits(s, pos + 1, 4) {
        Err(DecodeError::Truncated(Field::Step))
    } else if !fits(s, pos + 5, 4) {
        Err(DecodeError::Truncated(Field::RowStep))
    } else if !fits(s, pos + 9, 4) {
        Err(DecodeError::Truncated(Field::DataLength))
    } else if !fits(s, pos + 13, le_u32(s, pos + 9)) {
        Err(DecodeError::Truncated(Field::Data))
    } else {
        let x = offset_named(fields, "x"@);
        let y = offset_named(fields, "y"@);
        let z = offset_named(fields, "z"@);
        if x is None || y is None || z is None {
            Ok(empty_cloud())
        } else {
            let layout = PointLayout {
                step: le_u32(s, pos + 1),
                x: x->0,
                y: y->0,
                z: z->0,
                colour: colour_offset(fields),
            };
            let data = s.subrange(pos + 13, pos + 13 + le_u32(s, pos + 9));
            match points_from(data, 0, count, layout) {
                Err(e) => Err(e),
                Ok((positions, colors)) => Ok(
                    PointCloudView {
                        positions,
                        colors: if layout.colour is Some {
                            Some(colors)
                        } else {
                            None
                        },
                    },
                ),
            }
        }
    }
}

/// The cloud that `s` holds: after the header, height and width, whose product
/// is the number of points, then the field descriptions and the rest.
pub open spec fn cloud_of(s: Seq<u8>) -> Result<PointCloudView, DecodeError> {
    match header_end(s, 0) {
        Err(e) => Err(e),
        Ok(at) => if !fits(s, at, 4) {
            Err(DecodeError::Truncated(Field::Height))
        } else if !fits(s, at + 4, 4) {
            Err(DecodeError::Truncated(Field::Width))
        } else {
            match fields_at(s, at + 8) {
                Err(e) => Err(e),
                Ok((fields, next)) => cloud_body(
                    s,
                    next,
                    (le_u32(s, at) * le_u32(s, at + 4)) as nat,
                    fields,
                ),
            }
        },
    }
}

fn read_points(
    data: &[u8],
    count: u64,
    step: usize,
    x: usize,
    y: usize,
    z: usize,
    colour: Option<usize>,
) -> (r: Result<(Vec<[u32; 3]>, Vec<[u8; 3]>), DecodeError>)
    ensures
        match r {
            Ok((ps, cs)) => points_from(
                data@,
                0,
                count as nat,
                PointLayout {
                    step: step as int,
                    x: x as int,
                    y: y as int,
                    z: z as int,
                    colour: match colour {
                        Some(c) => Some(c as int),
                        None => None,
                    },
                },
            ) == Ok::<(Seq<Seq<u32>>, Seq<Seq<u8>>), DecodeError>(
                (triple_views(ps@), triple_views(cs@)),
            ),
            Err(e) => points_from(
                data@,
                0,
                count as nat,
                PointLayout {
                    step: step as int,
                    x: x as int,
                    y: y as int,
                    z: z as int,
                    colour: match colour {
                        Some(c) => Some(c as int),
                        None => None,
                    },
                },
            ) == Err::<(Seq<Seq<u32>>, Seq<Seq<u8>>), DecodeError>(e),
        },
{
    let ghost layout = PointLayout {
        step: step as int,
        x: x as int,
        y: y as int,
        z: z as int,
        colour: match colour {
            Some(c) => Some(c as int),
            None => None,
        },
    };
    let len: usize = data.len();
    let mut positions: Vec<[u32; 3]> = Vec::new();
    let mut colors: Vec<[u8; 3]> = Vec::new();
    let mut start: usize = 0;
    let mut i: u64 = 0;
    while i < count && step <= len - start
        invariant
            i <= count,
            start <= len,
            len == data@.len(),
            layout == (PointLayout {
                step: step as int,
                x: x as int,
                y: y as int,
                z: z as int,
                colour: match colour {
                    Some(c) => Some(c as int),
                    None => None,
                },
            }),
            points_from(data@, 0, count as nat, layout) == match points_from(
                data@,
                start as int,
                (count - i) as nat,
                layout,
            ) {
                Ok((ps, cs)) => Ok::<(Seq<Seq<u32>>, Seq<Seq<u8>>), DecodeError>(
                    (triple_views(positions@) + ps, triple_views(colors@) + cs),
                ),
                Err(e) => Err(e),
            },
        decreases count - i,
    {
        let ghost done_p = triple_views(positions@);
        let ghost done_c = triple_views(colors@);
        let ghost next = points_from(data@, start + step, (count - i - 1) as nat, layout);
        let point = &data[start..start + step];
        let px = match read_f32_le_at(point, x, Field::PointX) {
            Ok(v) => v,
            Err(e) => {
                return Err(e);
            },
        };
        let py = match read_f32_le_at(point, y, Field::PointY) {
            Ok(v) => v,
            Err(e) => {
                return Err(e);
            },
        };
        let pz = match read_f32_le_at(point, z, Field::PointZ) {
            Ok(v) => v,
            Err(e) => {
                return Err(e);
            },
        };
        if is_finite_f32(px) && is_finite_f32(py) && is_finite_f32(pz) {
            let position = [px, py, pz];
            assert(position@ =~= seq![px, py, pz]);
            match colour {
                Some(c) => {
                    let rgb = match read_color_at(point, c) {
                        Ok(v) => v,
                        Err(e) => {
                            return Err(e);
                        },
                    };
                    proof {
                        match next {
                            Ok((ps, cs)) => {
                                assert(done_p + (seq![position@] + ps) =~= done_p.push(position@)
                                    + ps);
                                assert(done_c + (seq![rgb@] + cs) =~= done_c.push(rgb@) + cs);
                            },
                            Err(_) => {},
                        }
                    }
                    colors.push(rgb);
                    assert(triple_views(colors@) =~= done_c.push(rgb@));
                },
                None => {
                    proof {
                        match next {
                            Ok((ps, cs)) => {
                                assert(done_p + (seq![position@] + ps) =~= done_p.push(position@)
                                    + ps);
                            },
                            Err(_) => {},
                        }
                    }
                },
            }
            positions.push(position);
            assert(triple_views(positions@) =~= done_p.push(position@));
        }
        start = start + step;
        i = i + 1;
    }
    proof {
        assert(triple_views(positions@) + Seq::<Seq<u32>>::empty() =~= triple_views(positions@));
        assert(triple_views(colors@) + Seq::<Seq<u8>>::empty() =~= triple_views(colors@));
    }
    Ok((positions, colors))
}

/// Reads a point cloud message.
pub fn parse_pointcloud2(payload: &[u8]) -> (r: Result<PointCloud, DecodeError>)
    ensures
        crate::wire::viewed(r) == cloud_of(payload@),
{
    let mut cursor = match skip_header(payload, 0) {
        Ok(at) => at,
        Err(e) => {
            return Err(e);
        },
    };
    let height = match read_u32_le(payload, &mut cursor, Field::Height) {
        Ok(v) => v,
        Err(e) => {
            return Err(e);
        },
    };
    let width = match read_u32_le(payload, &mut cursor, Field::Width) {
        Ok(v) => v,
        Err(e) => {
            return Err(e);
        },
    };
    let fields = match parse_fields(payload, &mut cursor) {
        Ok(v) => v,
        Err(e) => {
            return Err(e);
        },
    };
    let is_bigendian = match read_bool(payload, &mut cursor, Field::Endianness) {
        Ok(v) => v,
        Err(e) => {
            return Err(e);
        },
    };
    if is_bigendian {
        let empty = PointCloud { positions: Vec::new(), colors: None };
        assert(empty@.positions =~= Seq::<Seq<u32>>::empty());
        return Ok(empty);
    }
    let point_step = match read_u32_le(payload, &mut cursor, Field::Step) {
        Ok(v) => v as usize,
        Err(e) => {
            return Err(e);
        },
    };
    match read_u32_le(payload, &mut cursor, Field::RowStep) {
        Ok(_) => {},
        Err(e) => {
            return Err(e);
        },
    }
    let data_len = match read_u32_le(payload, &mut cursor, Field::DataLength) {
        Ok(v) => v as usize,
        Err(e) => {
            return Err(e);
        },
    };
    if !has_bytes(payload, cursor, data_len) {
        return Err(DecodeError::Truncated(Field::Data));
    }
    let data = &payload[cursor..cursor + data_len];
    let x_off = find_offset(&fields, "x");
    let y_off = find_offset(&fields, "y");
    let z_off = find_offset(&fields, "z");
    let (x, y, z) = match (x_off, y_off, z_off) {
        (Some(x), Some(y), Some(z)) => (x, y, z),
        _ => {
            let empty = PointCloud { positions: Vec::new(), colors: None };
            assert(empty@.positions =~= Seq::<Seq<u32>>::empty());
            return Ok(empty);
        },
    };
    let colour = find_colour_offset(&fields);
    assert(height as u64 * width as u64 <= u64::MAX) by (nonlinear_arith)
        requires
            height <= 0xffff_ffff,
            width <= 0xffff_ffff,
    ;
    let count: u64 = height as u64 * width as u64;
    match read_points(data, count, point_step, x, y, z, colour) {
        Ok((positions, colors)) => Ok(
            PointCloud {
                positions,
                colors: match colour {
                    Some(_) => Some(colors),
                    None => None,
                },
            },
        ),
        Err(e) => Err(e),
    }
}

} // verus!
