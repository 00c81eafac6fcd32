//! Buffer views, accessors and the values that they give access to.

use crate::float::Float32;
use crate::gltf::collect::{collected, lemma_collected_all, lemma_collected_next};
use crate::gltf::error::{gives, yields, GltfError, Outcome};
use crate::gltf::fields::{
    as_object, field, get, get_optional_bool, get_optional_usize, get_string, get_u32, get_usize,
    object_of, optional_bool, optional_usize, required_text, required_u32, required_usize,
};
use crate::json::{models, Model, Value};
use crate::text::{decimal_digits, decimal_text, join3, same_text};
use vstd::prelude::*;
use vstd::string::*;

verus! {

/// A range of a buffer.
#[derive(Clone, Copy, PartialEq, Eq, Structural, Debug)]
pub struct BufferView {
    pub buffer: usize,
    pub offset: usize,
    pub length: usize,
    pub stride: Option<usize>,
}

/// The shape of an accessor's elements.
#[derive(Clone, Copy, PartialEq, Eq, Structural, Debug)]
pub enum AccessorKind {
    Scalar,
    Vec2,
    Vec3,
    Vec4,
    Mat4,
}

/// A typed list of elements in a buffer view.
#[derive(Clone, Copy, PartialEq, Eq, Structural, Debug)]
pub struct Accessor {
    pub view: Option<usize>,
    pub offset: usize,
    pub count: usize,
    pub component_type: u32,
    pub kind: AccessorKind,
    pub normalized: bool,
}

/// The component type of signed bytes.
pub const BYTE: u32 = 5120;

/// The component type of unsigned bytes.
pub const UNSIGNED_BYTE: u32 = 5121;

/// The component type of signed 16-bit integers.
pub const SHORT: u32 = 5122;

/// The component type of unsigned 16-bit integers.
pub const UNSIGNED_SHORT: u32 = 5123;

/// The component type of signed 32-bit integers.
pub const INT: u32 = 5124;

/// The component type of unsigned 32-bit integers.
pub const UNSIGNED_INT: u32 = 5125;

/// The component type of single-precision values.
pub const FLOAT: u32 = 5126;

pub open spec fn view_from(value: Model) -> Outcome<BufferView> {
    match object_of(value, "bufferView"@) {
        Err(message) => Err(message),
        Ok(o) => match required_usize(o, "buffer"@) {
            Err(message) => Err(message),
            Ok(buffer) => match optional_usize(o, "byteOffset"@) {
                Err(message) => Err(message),
                Ok(offset) => match required_usize(o, "byteLength"@) {
                    Err(message) => Err(message),
                    Ok(length) => match optional_usize(o, "byteStride"@) {
                        Err(message) => Err(message),
                        Ok(stride) => Ok(
                            BufferView {
                                buffer,
                                offset: if offset is Some {
                                    offset->0
                                } else {
                                    0
                                },
                                length,
                                stride,
                            },
                        ),
                    },
                },
            },
        },
    }
}

pub open spec fn views_from(items: Seq<Model>) -> Outcome<Seq<BufferView>> {
    collected(items, |i: int, value: Model| view_from(value))
}

fn parse_view(value: &Value) -> (result: Result<BufferView, GltfError>)
    ensures
        gives(result, view_from(value@)),
{
    let o: &[(String, Value)] = as_object(value, "bufferView")?;
    let buffer: usize = get_usize(o, "buffer")?;
    let offset: Option<usize> = get_optional_usize(o, "byteOffset")?;
    let length: usize = get_usize(o, "byteLength")?;
    let stride: Option<usize> = get_optional_usize(o, "byteStride")?;
    Ok(BufferView { buffer, offset: offset.unwrap_or(0), length, stride })
}

pub fn parse_views(items: &[Value]) -> (result: Result<Vec<BufferView>, GltfError>)
    ensures
        yields(result, views_from(models(items@)), |views: Vec<BufferView>| views@),
{
    let ghost all = models(items@);
    let ghost read = |i: int, value: Model| view_from(value);
    let mut views: Vec<BufferView> = Vec::new();
    let mut i: usize = 0;
    proof {
        lemma_collected_all(all, read);
    }
    while i < items.len()
        invariant
            i <= items@.len(),
            all == models(items@),
            read == (|i: int, value: Model| view_from(value)),
            collected(all.take(i as int), read) == Ok::<Seq<BufferView>, Seq<char>>(views@),
        decreases items@.len() - i,
    {
        proof {
            lemma_collected_next(all, read, i as int);
        }
        match parse_view(&items[i]) {
            Ok(view) => {
                views.push(view);
            },
            Err(error) => {
                return Err(error);
            },
        }
        i += 1;
    }
    proof {
        lemma_collected_all(all, read);
    }
    Ok(views)
}

/// The element shape that a type name stands for.
pub open spec fn kind_named(name: Seq<char>) -> Option<AccessorKind> {
    if name == "SCALAR"@ {
        Some(AccessorKind::Scalar)
    } else if name == "VEC2"@ {
        Some(AccessorKind::Vec2)
    } else if name == "VEC3"@ {
        Some(AccessorKind::Vec3)
    } else if name == "VEC4"@ {
        Some(AccessorKind::Vec4)
    } else if name == "MAT4"@ {
        Some(AccessorKind::Mat4)
    } else {
        None
    }
}

impl AccessorKind {
    /// How many components an element has.
    pub open spec fn components(self) -> nat {
        match self {
            AccessorKind::Scalar => 1,
            AccessorKind::Vec2 => 2,
            AccessorKind::Vec3 => 3,
            AccessorKind::Vec4 => 4,
            AccessorKind::Mat4 => 16,
        }
    }

    /// The type name in a document.
    pub open spec fn name(self) -> Seq<char> {
        match self {
            AccessorKind::Scalar => "SCALAR"@,
            AccessorKind::Vec2 => "VEC2"@,
            AccessorKind::Vec3 => "VEC3"@,
            AccessorKind::Vec4 => "VEC4"@,
            AccessorKind::Mat4 => "MAT4"@,
        }
    }
}

pub fn component_count(kind: AccessorKind) -> (result: usize)
    ensures
        result == kind.components(),
{
    match kind {
        AccessorKind::Scalar => 1,
        AccessorKind::Vec2 => 2,
        AccessorKind::Vec3 => 3,
        AccessorKind::Vec4 => 4,
        AccessorKind::Mat4 => 16,
    }
}

fn parse_kind(name: &str) -> (result: Option<AccessorKind>)
    ensures
        result == kind_named(name@),
{
    if same_text(name, "SCALAR") {
        Some(AccessorKind::Scalar)
    } else if same_text(name, "VEC2") {
        Some(AccessorKind::Vec2)
    } else if same_text(name, "VEC3") {
        Some(AccessorKind::Vec3)
    } else if same_text(name, "VEC4") {
        Some(AccessorKind::Vec4)
    } else if same_text(name, "MAT4") {
        Some(AccessorKind::Mat4)
    } else {
        None
    }
}

/// The value that was found, or `default`.
pub open spec fn or_default<T>(value: Option<T>, default: T) -> T {
    match value {
        Some(found) => found,
        None => default,
    }
}

pub open spec fn accessor_from(value: Model) -> Outcome<Accessor> {
    match object_of(value, "accessor"@) {
        Err(message) => Err(message),
        Ok(o) => if field(o, "sparse"@) is Some {
            Err("sparse accessors are unsupported"@)
        } else {
            match required_u32(o, "componentType"@) {
                Err(message) => Err(message),
                Ok(component_type) => if !(BYTE <= component_type <= FLOAT) {
                    Err("unsupported accessor component type"@)
                } else {
                    match required_text(o, "type"@) {
                        Err(message) => Err(message),
                        Ok(name) => match kind_named(name) {
                            None => Err("unsupported accessor type"@),
                            Some(kind) => match optional_usize(o, "bufferView"@) {
                                Err(message) => Err(message),
                                Ok(view) => match optional_usize(o, "byteOffset"@) {
                                    Err(message) => Err(message),
                                    Ok(offset) => match required_usize(o, "count"@) {
                                        Err(message) => Err(message),
                                        Ok(count) => match optional_bool(o, "normalized"@) {
                                            Err(message) => Err(message),
                                            Ok(normalized) => Ok(
                                                Accessor {
                                                    view,
                                                    offset: or_default(offset, 0),
                                                    count,
                                                    component_type,
                                                    kind,
                                                    normalized: or_default(normalized, false),
                                                },
                                            ),
                                        },
                                    },
                                },
                            },
                        },
                    }
                },
            }
        },
    }
}

pub open spec fn accessors_from(items: Seq<Model>) -> Outcome<Seq<Accessor>> {
    collected(items, |i: int, value: Model| accessor_from(value))
}

fn parse_accessor(value: &Value) -> (result: Result<Accessor, GltfError>)
    ensures
        gives(result, accessor_from(value@)),
{
    let o: &[(String, Value)] = as_object(value, "accessor")?;
    if get(o, "sparse").is_some() {
        return Err(GltfError::new("sparse accessors are unsupported"));
    }
    let component_type: u32 = get_u32(o, "componentType")?;
    if component_type < BYTE || component_type > FLOAT {
        return Err(GltfError::new("unsupported accessor component type"));
    }
    let kind: AccessorKind = match parse_kind(get_string(o, "type")?) {
        Some(kind) => kind,
        None => return Err(GltfError::new("unsupported accessor type")),
    };
    let view: Option<usize> = get_optional_usize(o, "bufferView")?;
    let offset: Option<usize> = get_optional_usize(o, "byteOffset")?;
    let count: usize = get_usize(o, "count")?;
    let normalized: Option<bool> = get_optional_bool(o, "normalized")?;
    Ok(
        Accessor {
            view,
            offset: offset.unwrap_or(0),
            count,
            component_type,
            kind,
            normalized: normalized.unwrap_or(false),
        },
    )
}

pub fn parse_accessors(items: &[Value]) -> (result: Result<Vec<Accessor>, GltfError>)
    ensures
        yields(result, accessors_from(models(items@)), |accessors: Vec<Accessor>| accessors@),
{
    let ghost all = models(items@);
    let ghost read = |i: int, value: Model| accessor_from(value);
    let mut accessors: Vec<Accessor> = Vec::new();
    let mut i: usize = 0;
    proof {
        lemma_collected_all(all, read);
    }
    while i < items.len()
        invariant
            i <= items@.len(),
            all == models(items@),
            read == (|i: int, value: Model| accessor_from(value)),
            collected(all.take(i as int), read) == Ok::<Seq<Accessor>, Seq<char>>(accessors@),
        decreases items@.len() - i,
    {
        proof {
            lemma_collected_next(all, read, i as int);
        }
        match parse_accessor(&items[i]) {
            Ok(accessor) => {
                accessors.push(accessor);
            },
            Err(error) => {
                return Err(error);
            },
        }
        i += 1;
    }
    proof {
        lemma_collected_all(all, read);
    }
    Ok(accessors)
}

/// How many bytes a component has.
pub open spec fn component_bytes(component_type: u32) -> Option<nat> {
    if component_type == BYTE || component_type == UNSIGNED_BYTE {
        Some(1)
    } else if component_type == SHORT || component_type == UNSIGNED_SHORT {
        Some(2)
    } else if INT <= component_type <= FLOAT {
        Some(4)
    } else {
        None
    }
}

pub fn component_size(component_type: u32) -> (result: Result<usize, GltfError>)
    ensures
        match result {
            Ok(size) => component_bytes(component_type) == Some(size as nat) && 1 <= size <= 4,
            Err(error) => component_bytes(component_type) is None && error.says(
                "unsupported component type"@,
            ),
        },
{
    if component_type == BYTE || component_type == UNSIGNED_BYTE {
        Ok(1)
    } else if component_type == SHORT || component_type == UNSIGNED_SHORT {
        Ok(2)
    } else if component_type >= INT && component_type <= FLOAT {
        Ok(4)
    } else {
        Err(GltfError::new("unsupported component type"))
    }
}

/// The contents of a list of buffers.
pub open spec fn contents(buffers: Seq<Vec<u8>>) -> Seq<Seq<u8>> {
    Seq::new(buffers.len(), |i: int| buffers[i]@)
}

/// Where the elements of an accessor lie.
#[derive(Clone, Copy, PartialEq, Eq, Structural, Debug)]
pub struct Layout {
    /// The buffer.
    pub buffer: usize,
    /// Where its first element begins.
    pub start: usize,
    /// How far apart its elements begin.
    pub stride: usize,
}

/// The end of the last element of an accessor, counted from the start of its view.
pub open spec fn last_end(accessor: Accessor, stride: int, element_size: int) -> int {
    (accessor.count - 1) * stride + accessor.offset + element_size
}

/// Where the elements of an accessor lie, each of `element_size` bytes.
pub open spec fn layout_of(
    buffers: Seq<Seq<u8>>,
    views: Seq<BufferView>,
    accessor: Accessor,
    element_size: int,
) -> Outcome<Layout> {
    if accessor.view is None {
        Err("accessor without bufferView is unsupported"@)
    } else if accessor.view->0 >= views.len() {
        Err("bufferView index is out of range"@)
    } else {
        let view = views[accessor.view->0 as int];
        let stride = match view.stride {
            Some(stride) => stride as int,
            None => element_size,
        };
        let last = last_end(accessor, stride, element_size);
        if view.buffer >= buffers.len() {
            Err("bufferView buffer index is out of range"@)
        } else if view.offset + view.length > usize::MAX {
            Err("bufferView range overflow"@)
        } else if view.offset + view.length > buffers[view.buffer as int].len() {
            Err("bufferView exceeds its buffer"@)
        } else if stride < element_size {
            Err("byteStride is smaller than the accessor element"@)
        } else if accessor.count == 0 || last > usize::MAX {
            Err("accessor range overflow"@)
        } else if last > view.length {
            Err(
                "accessor overruns its bufferView: end "@ + decimal_digits(last as nat)
                    + ", length "@ + decimal_digits(view.length as nat),
            )
        } else {
            Ok(
                Layout {
                    buffer: view.buffer,
                    start: (view.offset + accessor.offset) as usize,
                    stride: stride as usize,
                },
            )
        }
    }
}

/// Every element that a layout admits lies inside the buffer.
proof fn lemma_elements_fit(
    buffers: Seq<Seq<u8>>,
    views: Seq<BufferView>,
    accessor: Accessor,
    element_size: int,
    layout: Layout,
    element: int,
)
    requires
        0 <= element_size,
        layout_of(buffers, views, accessor, element_size) == Ok::<Layout, Seq<char>>(layout),
        0 <= element < accessor.count,
        forall|i: int| 0 <= i < buffers.len() ==> (#[trigger] buffers[i]).len() <= usize::MAX,
    ensures
        layout.buffer < buffers.len(),
        0 <= element * layout.stride <= usize::MAX,
        layout.start + element * layout.stride + element_size
            <= buffers[layout.buffer as int].len() <= usize::MAX,
{
    let view = views[accessor.view->0 as int];
    let stride = layout.stride as int;
    let rest = accessor.count - 1 - element;
    let last = accessor.count - 1;
    assert(element * stride <= last * stride && 0 <= element * stride) by (nonlinear_arith)
        requires
            0 <= element <= last,
            0 <= stride,
    ;
    assert(last * stride >= 0);
}

/// The end of the last element of an accessor; `None` where it is out of range.
fn find_last_end(accessor: Accessor, stride: usize, element_size: usize) -> (result: Option<usize>)
    ensures
        match result {
            Some(last) => accessor.count > 0 && last == last_end(
                accessor,
                stride as int,
                element_size as int,
            ),
            None => accessor.count == 0 || last_end(accessor, stride as int, element_size as int)
                > usize::MAX,
        },
{
    if accessor.count == 0 {
        return None;
    }
    assert((accessor.count - 1) * stride >= 0) by (nonlinear_arith)
        requires
            accessor.count >= 1,
            stride >= 0,
    ;
    let steps: usize = match (accessor.count - 1).checked_mul(stride) {
        Some(steps) => steps,
        None => return None,
    };
    let start: usize = match steps.checked_add(accessor.offset) {
        Some(start) => start,
        None => return None,
    };
    start.checked_add(element_size)
}

fn accessor_data(
    buffers: &[Vec<u8>],
    views: &[BufferView],
    accessor: Accessor,
    element_size: usize,
) -> (result: Result<Layout, GltfError>)
    ensures
        gives(result, layout_of(contents(buffers@), views@, accessor, element_size as int)),
{
    let view_index: usize = match accessor.view {
        Some(index) => index,
        None => return Err(GltfError::new("accessor without bufferView is unsupported")),
    };
    if view_index >= views.len() {
        return Err(GltfError::new("bufferView index is out of range"));
    }
    let view: BufferView = views[view_index];
    if view.buffer >= buffers.len() {
        return Err(GltfError::new("bufferView buffer index is out of range"));
    }
    let data: &Vec<u8> = &buffers[view.buffer];
    let end: usize = match view.offset.checked_add(view.length) {
        Some(end) => end,
        None => return Err(GltfError::new("bufferView range overflow")),
    };
    if end > data.len() {
        return Err(GltfError::new("bufferView exceeds its buffer"));
    }
    let stride: usize = view.stride.unwrap_or(element_size);
    if stride < element_size {
        return Err(GltfError::new("byteStride is smaller than the accessor element"));
    }
    let last: usize = match find_last_end(accessor, stride, element_size) {
        Some(last) => last,
        None => return Err(GltfError::new("accessor range overflow")),
    };
    if last > view.length {
        let mut message: String = join3(
            "accessor overruns its bufferView: end ",
            decimal_text(last as u64).as_str(),
            ", length ",
        );
        message.append(decimal_text(view.length as u64).as_str());
        return Err(GltfError { offset: None, message });
    }
    assert((accessor.count - 1) * stride >= 0) by (nonlinear_arith)
        requires
            accessor.count >= 1,
            stride >= 0,
    ;
    Ok(Layout { buffer: view.buffer, start: view.offset + accessor.offset, stride })
}

/// The two bytes at `at` as a number, the lower byte first.
pub open spec fn low_first_u16(data: Seq<u8>, at: int) -> int {
    data[at] + 0x100 * data[at + 1]
}

/// The four bytes at `at` as a number, the lowest byte first.
pub open spec fn low_first_u32(data: Seq<u8>, at: int) -> int {
    data[at] + 0x100 * data[at + 1] + 0x1_0000 * data[at + 2] + 0x100_0000 * data[at + 3]
}

/// The value nearest to an integer.
pub open spec fn single_of(value: int) -> Float32 {
    if value < 0 {
        Float32::of_integer(true, (-value) as nat)
    } else {
        Float32::of_integer(false, value as nat)
    }
}

/// The signed number that an unsigned one stands for, both modulo `modulus`.
pub open spec fn as_signed(value: int, modulus: int) -> int {
    if value < modulus / 2 {
        value
    } else {
        value - modulus
    }
}

/// The component at `at` before normalization.
pub open spec fn raw_component(data: Seq<u8>, at: int, component_type: u32) -> Float32 {
    if component_type == BYTE {
        single_of(as_signed(data[at] as int, 0x100))
    } else if component_type == UNSIGNED_BYTE {
        single_of(data[at] as int)
    } else if component_type == SHORT {
        single_of(as_signed(low_first_u16(data, at), 0x1_0000))
    } else if component_type == UNSIGNED_SHORT {
        single_of(low_first_u16(data, at))
    } else if component_type == INT {
        single_of(as_signed(low_first_u32(data, at), 0x1_0000_0000))
    } else if component_type == UNSIGNED_INT {
        single_of(low_first_u32(data, at))
    } else {
        Float32 { bits: low_first_u32(data, at) as u32 }
    }
}

/// Minus one where the value is less than it.
pub open spec fn at_least_minus_one(value: Float32) -> Float32 {
    let minus_one = Float32 { bits: 0xbf80_0000 };
    if value.less(minus_one) {
        minus_one
    } else {
        value
    }
}

/// The component at `at`. A normalized integer stands for a fraction of its largest value, which
/// for 32-bit integers is rounded to single precision first.
pub open spec fn component_at(
    data: Seq<u8>,
    at: int,
    component_type: u32,
    normalized: bool,
) -> Float32 {
    let raw = raw_component(data, at, component_type);
    if !normalized {
        raw
    } else if component_type == BYTE {
        at_least_minus_one(raw.quotient(127))
    } else if component_type == UNSIGNED_BYTE {
        raw.quotient(255)
    } else if component_type == SHORT {
        at_least_minus_one(raw.quotient(32767))
    } else if component_type == UNSIGNED_SHORT {
        raw.quotient(65535)
    } else if component_type == INT {
        at_least_minus_one(raw.quotient(0x8000_0000))
    } else if component_type == UNSIGNED_INT {
        raw.quotient(0x1_0000_0000)
    } else {
        raw
    }
}

fn single_from(value: i64) -> (result: Float32)
    requires
        -0x8000_0000 <= value <= 0xffff_ffff,
    ensures
        result == single_of(value as int),
{
    if value < 0 {
        Float32::from_integer(true, (-value) as u64)
    } else {
        Float32::from_integer(false, value as u64)
    }
}

fn signed_from(value: i64, modulus: i64) -> (result: i64)
    requires
        0 <= value < modulus,
        modulus <= 0x1_0000_0000,
    ensures
        result == as_signed(value as int, modulus as int),
{
    if value < modulus / 2 {
        value
    } else {
        value - modulus
    }
}

fn hold_at_minus_one(value: Float32) -> (result: Float32)
    ensures
        result == at_least_minus_one(value),
{
    let minus_one: Float32 = Float32 { bits: 0xbf80_0000 };
    if value.is_less(minus_one) {
        minus_one
    } else {
        value
    }
}

fn read_component(data: &[u8], at: usize, component_type: u32, normalized: bool) -> (result: Float32)
    requires
        component_bytes(component_type) is Some,
        at + component_bytes(component_type)->0 <= data@.len() <= usize::MAX,
    ensures
        result == component_at(data@, at as int, component_type, normalized),
{
    let raw: Float32 = if component_type == BYTE {
        single_from(signed_from(data[at] as i64, 0x100))
    } else if component_type == UNSIGNED_BYTE {
        single_from(data[at] as i64)
    } else if component_type == SHORT || component_type == UNSIGNED_SHORT {
        let pair: i64 = data[at] as i64 + 0x100 * data[at + 1] as i64;
        if component_type == SHORT {
            single_from(signed_from(pair, 0x1_0000))
        } else {
            single_from(pair)
        }
    } else {
        let word: i64 = data[at] as i64 + 0x100 * data[at + 1] as i64 + 0x1_0000 * data[at
            + 2] as i64 + 0x100_0000 * data[at + 3] as i64;
        if component_type == INT {
            single_from(signed_from(word, 0x1_0000_0000))
        } else if component_type == UNSIGNED_INT {
            single_from(word)
        } else {
            Float32 { bits: word as u32 }
        }
    };
    if !normalized {
        raw
    } else if component_type == BYTE {
        hold_at_minus_one(raw.divide_by(127))
    } else if component_type == UNSIGNED_BYTE {
        raw.divide_by(255)
    } else if component_type == SHORT {
        hold_at_minus_one(raw.divide_by(32767))
    } else if component_type == UNSIGNED_SHORT {
        raw.divide_by(65535)
    } else if component_type == INT {
        hold_at_minus_one(raw.divide_by(0x8000_0000))
    } else if component_type == UNSIGNED_INT {
        raw.divide_by(0x1_0000_0000)
    } else {
        raw
    }
}

/// The components of the element at `start`.
pub open spec fn row_at(data: Seq<u8>, start: int, accessor: Accessor) -> Seq<Float32> {
    let size = component_bytes(accessor.component_type)->0;
    Seq::new(
        accessor.kind.components(),
        |c: int|
            component_at(data, start + c * size, accessor.component_type, accessor.normalized),
    )
}

/// The elements of an accessor whose place is known.
pub open spec fn rows_at(data: Seq<u8>, layout: Layout, accessor: Accessor) -> Seq<Seq<Float32>> {
    Seq::new(
        accessor.count as nat,
        |e: int| row_at(data, layout.start + e * layout.stride, accessor),
    )
}

/// The elements of accessor `index`, which must have `expected` components each.
pub open spec fn rows_of(
    buffers: Seq<Seq<u8>>,
    views: Seq<BufferView>,
    accessors: Seq<Accessor>,
    index: int,
    expected: nat,
) -> Outcome<Seq<Seq<Float32>>> {
    if !(0 <= index < accessors.len()) {
        Err("accessor index is out of range"@)
    } else {
        let accessor = accessors[index];
        let size = component_bytes(accessor.component_type);
        if accessor.kind.components() != expected {
            Err("accessor has the wrong component count"@)
        } else if size is None {
            Err("unsupported component type"@)
        } else {
            match layout_of(buffers, views, accessor, (size->0 * expected) as int) {
                Err(message) => Err(message),
                Ok(layout) => Ok(rows_at(buffers[layout.buffer as int], layout, accessor)),
            }
        }
    }
}

/// The contents of a list of rows.
pub open spec fn row_contents(rows: Seq<Vec<Float32>>) -> Seq<Seq<Float32>> {
    Seq::new(rows.len(), |i: int| rows[i]@)
}

fn read_row(data: &Vec<u8>, start: usize, accessor: Accessor, size: usize) -> (result: Vec<Float32>)
    requires
        component_bytes(accessor.component_type) == Some(size as nat),
        1 <= size <= 4,
        start + size * accessor.kind.components() <= data@.len() <= usize::MAX,
    ensures
        result@ == row_at(data@, start as int, accessor),
{
    let components: usize = component_count(accessor.kind);
    let mut row: Vec<Float32> = Vec::new();
    let mut c: usize = 0;
    while c < components
        invariant
            c <= components <= 16,
            components == accessor.kind.components(),
            component_bytes(accessor.component_type) == Some(size as nat),
            1 <= size <= 4,
            start + size * components <= data@.len() <= usize::MAX,
            row@ =~= row_at(data@, start as int, accessor).take(c as int),
        decreases components - c,
    {
        assert(c * size + size <= size * components && c * size <= 64) by (nonlinear_arith)
            requires
                c + 1 <= components <= 16,
                1 <= size <= 4,
        ;
        row.push(
            read_component(
                data.as_slice(),
                start + c * size,
                accessor.component_type,
                accessor.normalized,
            ),
        );
        c += 1;
    }
    assert(row@ =~= row_at(data@, start as int, accessor));
    row
}

/// The elements of an accessor.
pub fn read_accessor(
    buffers: &[Vec<u8>],
    views: &[BufferView],
    accessors: &[Accessor],
    index: usize,
    expected: usize,
) -> (result: Result<Vec<Vec<Float32>>, GltfError>)
    ensures
        yields(
            result,
            rows_of(contents(buffers@), views@, accessors@, index as int, expected as nat),
            |rows: Vec<Vec<Float32>>| row_contents(rows@),
        ),
{
    if index >= accessors.len() {
        return Err(GltfError::new("accessor index is out of range"));
    }
    let accessor: Accessor = accessors[index];
    let components: usize = component_count(accessor.kind);
    if components != expected {
        return Err(GltfError::new("accessor has the wrong component count"));
    }
    let size: usize = component_size(accessor.component_type)?;
    assert(size * components <= 64) by (nonlinear_arith)
        requires
            size <= 4,
            components <= 16,
    ;
    let element_size: usize = size * components;
    let layout: Layout = accessor_data(buffers, views, accessor, element_size)?;
    let data: &Vec<u8> = &buffers[layout.buffer];
    let ghost expected_rows = rows_at(data@, layout, accessor);
    let mut rows: Vec<Vec<Float32>> = Vec::new();
    let mut element: usize = 0;
    proof {
        assert forall|i: int| 0 <= i < contents(buffers@).len() implies (#[trigger] contents(
            buffers@,
        )[i]).len() <= usize::MAX by {
            assert(buffers@[i].len() == buffers@[i]@.len());
        }
    }
    while element < accessor.count
        invariant
            element <= accessor.count,
            rows@.len() == element,
            element_size == size * components,
            components == accessor.kind.components(),
            1 <= size <= 4,
            component_bytes(accessor.component_type) == Some(size as nat),
            layout_of(contents(buffers@), views@, accessor, element_size as int) == Ok::<
                Layout,
                Seq<char>,
            >(layout),
            layout.buffer < buffers@.len(),
            data@ == buffers@[layout.buffer as int]@,
            forall|i: int|
                0 <= i < contents(buffers@).len() ==> (#[trigger] contents(buffers@)[i]).len()
                    <= usize::MAX,
            expected_rows == rows_at(data@, layout, accessor),
            row_contents(rows@) =~= expected_rows.take(element as int),
        decreases accessor.count - element,
    {
        proof {
            lemma_elements_fit(
                contents(buffers@),
                views@,
                accessor,
                element_size as int,
                layout,
                element as int,
            );
        }
        let start: usize = layout.start + element * layout.stride;
        let ghost before = row_contents(rows@);
        let row: Vec<Float32> = read_row(data, start, accessor, size);
        let ghost found = row@;
        rows.push(row);
        assert(row_contents(rows@) =~= before.push(found));
        element += 1;
    }
    assert(row_contents(rows@) =~= expected_rows);
    Ok(rows)
}

} // verus!
