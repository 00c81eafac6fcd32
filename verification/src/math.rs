//! Vectors, matrices and quaternions.
//!
//! Matrices are stored column after column: the element at row `r` and column `c` stands at
//! `c * size + r`, and vectors are columns that are multiplied from the right. The coordinate
//! system is right-handed, a view looks along its negative third axis, and projections map depth
//! to the range from minus one to one. Quaternions use Hamilton products and active rotations.

use crate::arith::NOT_A_NUMBER;
use crate::float::{Float32, ONE, TWO};
use vstd::prelude::*;

verus! {

/// A vector of two components.
#[derive(Clone, Copy, Debug)]
pub struct Vec2 {
    pub x: Float32,
    pub y: Float32,
}

impl Vec2 {
    pub fn new(x: Float32, y: Float32) -> (result: Vec2)
        ensures
            result == (Vec2 { x, y }),
    {
        Vec2 { x, y }
    }

    pub open spec fn spec_add(self, other: Vec2) -> Vec2 {
        Vec2 { x: self.x + other.x, y: self.y + other.y }
    }

    pub open spec fn spec_sub(self, other: Vec2) -> Vec2 {
        Vec2 { x: self.x - other.x, y: self.y - other.y }
    }

    /// The vector in the other direction.
    pub open spec fn opposite(self) -> Vec2 {
        Vec2 { x: self.x.opposite(), y: self.y.opposite() }
    }

    pub open spec fn spec_mul(self, factor: Float32) -> Vec2 {
        Vec2 { x: self.x * factor, y: self.y * factor }
    }

    pub open spec fn spec_euclidean_or_real_div(self, divisor: Float32) -> Vec2 {
        Vec2 { x: self.x / divisor, y: self.y / divisor }
    }

    /// The products of the components.
    pub open spec fn each_times(self, other: Vec2) -> Vec2 {
        Vec2 { x: self.x * other.x, y: self.y * other.y }
    }

    /// The quotients of the components.
    pub open spec fn each_over(self, other: Vec2) -> Vec2 {
        Vec2 { x: self.x / other.x, y: self.y / other.y }
    }

    /// The inner product.
    pub open spec fn dot_product(self, other: Vec2) -> Float32 {
        self.x * other.x + self.y * other.y
    }

    /// The length of the vector.
    pub open spec fn norm(self) -> Float32 {
        self.dot_product(self).root()
    }

    /// The vector divided by its length. One without length stays.
    pub open spec fn unit(self) -> Vec2 {
        if self.norm().magnitude() == 0 {
            self
        } else {
            self / self.norm()
        }
    }

    pub fn dot(self, other: Vec2) -> (result: Float32)
        ensures
            result == self.dot_product(other),
    {
        self.x * other.x + self.y * other.y
    }

    pub fn length(self) -> (result: Float32)
        ensures
            result == self.norm(),
    {
        self.dot(self).sqrt()
    }

    pub fn normalize(self) -> (result: Vec2)
        ensures
            result == self.unit(),
    {
        let length: Float32 = self.length();
        if length.is_zero() {
            self
        } else {
            self / length
        }
    }
}

impl std::ops::Add for Vec2 {
    type Output = Vec2;

    fn add(self, other: Vec2) -> (result: Vec2) {
        Vec2 { x: self.x + other.x, y: self.y + other.y }
    }
}

impl vstd::std_specs::ops::AddSpecImpl for Vec2 {
    open spec fn obeys_add_spec() -> bool {
        true
    }

    open spec fn add_req(self, other: Vec2) -> bool {
        true
    }

    open spec fn add_spec(self, other: Vec2) -> Vec2 {
        self + other
    }
}

impl std::ops::Sub for Vec2 {
    type Output = Vec2;

    fn sub(self, other: Vec2) -> (result: Vec2) {
        Vec2 { x: self.x - other.x, y: self.y - other.y }
    }
}

impl vstd::std_specs::ops::SubSpecImpl for Vec2 {
    open spec fn obeys_sub_spec() -> bool {
        true
    }

    open spec fn sub_req(self, other: Vec2) -> bool {
        true
    }

    open spec fn sub_spec(self, other: Vec2) -> Vec2 {
        self - other
    }
}

impl std::ops::Neg for Vec2 {
    type Output = Vec2;

    fn neg(self) -> (result: Vec2) {
        Vec2 { x: self.x.negate(), y: self.y.negate() }
    }
}

impl vstd::std_specs::ops::NegSpecImpl for Vec2 {
    open spec fn obeys_neg_spec() -> bool {
        true
    }

    open spec fn neg_req(self) -> bool {
        true
    }

    open spec fn neg_spec(self) -> Vec2 {
        self.opposite()
    }
}

impl std::ops::Mul<Float32> for Vec2 {
    type Output = Vec2;

    fn mul(self, other: Float32) -> (result: Vec2) {
        Vec2 { x: self.x * other, y: self.y * other }
    }
}

impl vstd::std_specs::ops::MulSpecImpl<Float32> for Vec2 {
    open spec fn obeys_mul_spec() -> bool {
        true
    }

    open spec fn mul_req(self, other: Float32) -> bool {
        true
    }

    open spec fn mul_spec(self, other: Float32) -> Vec2 {
        self * other
    }
}

impl std::ops::Mul for Vec2 {
    type Output = Vec2;

    fn mul(self, other: Vec2) -> (result: Vec2) {
        Vec2 { x: self.x * other.x, y: self.y * other.y }
    }
}

impl vstd::std_specs::ops::MulSpecImpl for Vec2 {
    open spec fn obeys_mul_spec() -> bool {
        true
    }

    open spec fn mul_req(self, other: Vec2) -> bool {
        true
    }

    open spec fn mul_spec(self, other: Vec2) -> Vec2 {
        self.each_times(other)
    }
}

impl std::ops::Div<Float32> for Vec2 {
    type Output = Vec2;

    fn div(self, other: Float32) -> (result: Vec2) {
        Vec2 { x: self.x / other, y: self.y / other }
    }
}

impl vstd::std_specs::ops::DivSpecImpl<Float32> for Vec2 {
    open spec fn obeys_div_spec() -> bool {
        true
    }

    open spec fn div_req(self, other: Float32) -> bool {
        true
    }

    open spec fn div_spec(self, other: Float32) -> Vec2 {
        self / other
    }
}

impl std::ops::Div for Vec2 {
    type Output = Vec2;

    fn div(self, other: Vec2) -> (result: Vec2) {
        Vec2 { x: self.x / other.x, y: self.y / other.y }
    }
}

impl vstd::std_specs::ops::DivSpecImpl for Vec2 {
    open spec fn obeys_div_spec() -> bool {
        true
    }

    open spec fn div_req(self, other: Vec2) -> bool {
        true
    }

    open spec fn div_spec(self, other: Vec2) -> Vec2 {
        self.each_over(other)
    }
}

impl std::ops::Mul<Vec2> for Float32 {
    type Output = Vec2;

    fn mul(self, other: Vec2) -> (result: Vec2) {
        other * self
    }
}

impl vstd::std_specs::ops::MulSpecImpl<Vec2> for Float32 {
    open spec fn obeys_mul_spec() -> bool {
        true
    }

    open spec fn mul_req(self, other: Vec2) -> bool {
        true
    }

    open spec fn mul_spec(self, other: Vec2) -> Vec2 {
        other * self
    }
}

/// A vector of three components.
#[derive(Clone, Copy, Debug)]
pub struct Vec3 {
    pub x: Float32,
    pub y: Float32,
    pub z: Float32,
}

impl Vec3 {
    pub fn new(x: Float32, y: Float32, z: Float32) -> (result: Vec3)
        ensures
            result == (Vec3 { x, y, z }),
    {
        Vec3 { x, y, z }
    }

    pub open spec fn spec_add(self, other: Vec3) -> Vec3 {
        Vec3 { x: self.x + other.x, y: self.y + other.y, z: self.z + other.z }
    }

    pub open spec fn spec_sub(self, other: Vec3) -> Vec3 {
        Vec3 { x: self.x - other.x, y: self.y - other.y, z: self.z - other.z }
    }

    /// The vector in the other direction.
    pub open spec fn opposite(self) -> Vec3 {
        Vec3 { x: self.x.opposite(), y: self.y.opposite(), z: self.z.opposite() }
    }

    pub open spec fn spec_mul(self, factor: Float32) -> Vec3 {
        Vec3 { x: self.x * factor, y: self.y * factor, z: self.z * factor }
    }

    pub open spec fn spec_euclidean_or_real_div(self, divisor: Float32) -> Vec3 {
        Vec3 { x: self.x / divisor, y: self.y / divisor, z: self.z / divisor }
    }

    /// The products of the components.
    pub open spec fn each_times(self, other: Vec3) -> Vec3 {
        Vec3 { x: self.x * other.x, y: self.y * other.y, z: self.z * other.z }
    }

    /// The quotients of the components.
    pub open spec fn each_over(self, other: Vec3) -> Vec3 {
        Vec3 { x: self.x / other.x, y: self.y / other.y, z: self.z / other.z }
    }

    /// The inner product.
    pub open spec fn dot_product(self, other: Vec3) -> Float32 {
        self.x * other.x + self.y * other.y + self.z * other.z
    }

    /// The length of the vector.
    pub open spec fn norm(self) -> Float32 {
        self.dot_product(self).root()
    }

    /// The vector divided by its length. One without length stays.
    pub open spec fn unit(self) -> Vec3 {
        if self.norm().magnitude() == 0 {
            self
        } else {
            self / self.norm()
        }
    }

    pub fn dot(self, other: Vec3) -> (result: Float32)
        ensures
            result == self.dot_product(other),
    {
        self.x * other.x + self.y * other.y + self.z * other.z
    }

    pub fn length(self) -> (result: Float32)
        ensures
            result == self.norm(),
    {
        self.dot(self).sqrt()
    }

    pub fn normalize(self) -> (result: Vec3)
        ensures
            result == self.unit(),
    {
        let length: Float32 = self.length();
        if length.is_zero() {
            self
        } else {
            self / length
        }
    }

    /// The outer product.
    pub open spec fn cross_product(self, other: Vec3) -> Vec3 {
        Vec3 {
            x: self.y * other.z - self.z * other.y,
            y: self.z * other.x - self.x * other.z,
            z: self.x * other.y - self.y * other.x,
        }
    }

    pub fn cross(self, other: Vec3) -> (result: Vec3)
        ensures
            result == self.cross_product(other),
    {
        Vec3 {
            x: self.y * other.z - self.z * other.y,
            y: self.z * other.x - self.x * other.z,
            z: self.x * other.y - self.y * other.x,
        }
    }

    /// Whether every component is finite.
    pub open spec fn finite(self) -> bool {
        self.x.finite() && self.y.finite() && self.z.finite()
    }

    pub fn is_finite(self) -> (result: bool)
        ensures
            result == self.finite(),
    {
        self.x.is_finite() && self.y.is_finite() && self.z.is_finite()
    }
}

impl std::ops::Add for Vec3 {
    type Output = Vec3;

    fn add(self, other: Vec3) -> (result: Vec3) {
        Vec3 { x: self.x + other.x, y: self.y + other.y, z: self.z + other.z }
    }
}

impl vstd::std_specs::ops::AddSpecImpl for Vec3 {
    open spec fn obeys_add_spec() -> bool {
        true
    }

    open spec fn add_req(self, other: Vec3) -> bool {
        true
    }

    open spec fn add_spec(self, other: Vec3) -> Vec3 {
        self + other
    }
}

impl std::ops::Sub for Vec3 {
    type Output = Vec3;

    fn sub(self, other: Vec3) -> (result: Vec3) {
        Vec3 { x: self.x - other.x, y: self.y - other.y, z: self.z - other.z }
    }
}

impl vstd::std_specs::ops::SubSpecImpl for Vec3 {
    open spec fn obeys_sub_spec() -> bool {
        true
    }

    open spec fn sub_req(self, other: Vec3) -> bool {
        true
    }

    open spec fn sub_spec(self, other: Vec3) -> Vec3 {
        self - other
    }
}

impl std::ops::Neg for Vec3 {
    type Output = Vec3;

    fn neg(self) -> (result: Vec3) {
        Vec3 { x: self.x.negate(), y: self.y.negate(), z: self.z.negate() }
    }
}

impl vstd::std_specs::ops::NegSpecImpl for Vec3 {
    open spec fn obeys_neg_spec() -> bool {
        true
    }

    open spec fn neg_req(self) -> bool {
        true
    }

    open spec fn neg_spec(self) -> Vec3 {
        self.opposite()
    }
}

impl std::ops::Mul<Float32> for Vec3 {
    type Output = Vec3;

    fn mul(self, other: Float32) -> (result: Vec3) {
        Vec3 { x: self.x * other, y: self.y * other, z: self.z * other }
    }
}

impl vstd::std_specs::ops::MulSpecImpl<Float32> for Vec3 {
    open spec fn obeys_mul_spec() -> bool {
        true
    }

    open spec fn mul_req(self, other: Float32) -> bool {
        true
    }

    open spec fn mul_spec(self, other: Float32) -> Vec3 {
        self * other
    }
}

impl std::ops::Mul for Vec3 {
    type Output = Vec3;

    fn mul(self, other: Vec3) -> (result: Vec3) {
        Vec3 { x: self.x * other.x, y: self.y * other.y, z: self.z * other.z }
    }
}

impl vstd::std_specs::ops::MulSpecImpl for Vec3 {
    open spec fn obeys_mul_spec() -> bool {
        true
    }

    open spec fn mul_req(self, other: Vec3) -> bool {
        true
    }

    open spec fn mul_spec(self, other: Vec3) -> Vec3 {
        self.each_times(other)
    }
}

impl std::ops::Div<Float32> for Vec3 {
    type Output = Vec3;

    fn div(self, other: Float32) -> (result: Vec3) {
        Vec3 { x: self.x / other, y: self.y / other, z: self.z / other }
    }
}

impl vstd::std_specs::ops::DivSpecImpl<Float32> for Vec3 {
    open spec fn obeys_div_spec() -> bool {
        true
    }

    open spec fn div_req(self, other: Float32) -> bool {
        true
    }

    open spec fn div_spec(self, other: Float32) -> Vec3 {
        self / other
    }
}

impl std::ops::Div for Vec3 {
    type Output = Vec3;

    fn div(self, other: Vec3) -> (result: Vec3) {
        Vec3 { x: self.x / other.x, y: self.y / other.y, z: self.z / other.z }
    }
}

impl vstd::std_specs::ops::DivSpecImpl for Vec3 {
    open spec fn obeys_div_spec() -> bool {
        true
    }

    open spec fn div_req(self, other: Vec3) -> bool {
        true
    }

    open spec fn div_spec(self, other: Vec3) -> Vec3 {
        self.each_over(other)
    }
}

impl std::ops::Mul<Vec3> for Float32 {
    type Output = Vec3;

    fn mul(self, other: Vec3) -> (result: Vec3) {
        other * self
    }
}

impl vstd::std_specs::ops::MulSpecImpl<Vec3> for Float32 {
    open spec fn obeys_mul_spec() -> bool {
        true
    }

    open spec fn mul_req(self, other: Vec3) -> bool {
        true
    }

    open spec fn mul_spec(self, other: Vec3) -> Vec3 {
        other * self
    }
}

/// A vector of four components.
#[derive(Clone, Copy, Debug)]
pub struct Vec4 {
    pub x: Float32,
    pub y: Float32,
    pub z: Float32,
    pub w: Float32,
}

impl Vec4 {
    pub fn new(x: Float32, y: Float32, z: Float32, w: Float32) -> (result: Vec4)
        ensures
            result == (Vec4 { x, y, z, w }),
    {
        Vec4 { x, y, z, w }
    }

    pub open spec fn spec_add(self, other: Vec4) -> Vec4 {
        Vec4 { x: self.x + other.x, y: self.y + other.y, z: self.z + other.z, w: self.w + other.w }
    }

    pub open spec fn spec_sub(self, other: Vec4) -> Vec4 {
        Vec4 { x: self.x - other.x, y: self.y - other.y, z: self.z - other.z, w: self.w - other.w }
    }

    /// The vector in the other direction.
    pub open spec fn opposite(self) -> Vec4 {
        Vec4 { x: self.x.opposite(), y: self.y.opposite(), z: self.z.opposite(), w: self.w.opposite() }
    }

    pub open spec fn spec_mul(self, factor: Float32) -> Vec4 {
        Vec4 { x: self.x * factor, y: self.y * factor, z: self.z * factor, w: self.w * factor }
    }

    pub open spec fn spec_euclidean_or_real_div(self, divisor: Float32) -> Vec4 {
        Vec4 { x: self.x / divisor, y: self.y / divisor, z: self.z / divisor, w: self.w / divisor }
    }

    /// The products of the components.
    pub open spec fn each_times(self, other: Vec4) -> Vec4 {
        Vec4 { x: self.x * other.x, y: self.y * other.y, z: self.z * other.z, w: self.w * other.w }
    }

    /// The quotients of the components.
    pub open spec fn each_over(self, other: Vec4) -> Vec4 {
        Vec4 { x: self.x / other.x, y: self.y / other.y, z: self.z / other.z, w: self.w / other.w }
    }

    /// The inner product.
    pub open spec fn dot_product(self, other: Vec4) -> Float32 {
        self.x * other.x + self.y * other.y + self.z * other.z + self.w * other.w
    }

    /// The length of the vector.
    pub open spec fn norm(self) -> Float32 {
        self.dot_product(self).root()
    }

    /// The vector divided by its length. One without length stays.
    pub open spec fn unit(self) -> Vec4 {
        if self.norm().magnitude() == 0 {
            self
        } else {
            self / self.norm()
        }
    }

    pub fn dot(self, other: Vec4) -> (result: Float32)
        ensures
            result == self.dot_product(other),
    {
        self.x * other.x + self.y * other.y + self.z * other.z + self.w * other.w
    }

    pub fn length(self) -> (result: Float32)
        ensures
            result == self.norm(),
    {
        self.dot(self).sqrt()
    }

    pub fn normalize(self) -> (result: Vec4)
        ensures
            result == self.unit(),
    {
        let length: Float32 = self.length();
        if length.is_zero() {
            self
        } else {
            self / length
        }
    }
}

impl std::ops::Add for Vec4 {
    type Output = Vec4;

    fn add(self, other: Vec4) -> (result: Vec4) {
        Vec4 { x: self.x + other.x, y: self.y + other.y, z: self.z + other.z, w: self.w + other.w }
    }
}

impl vstd::std_specs::ops::AddSpecImpl for Vec4 {
    open spec fn obeys_add_spec() -> bool {
        true
    }

    open spec fn add_req(self, other: Vec4) -> bool {
        true
    }

    open spec fn add_spec(self, other: Vec4) -> Vec4 {
        self + other
    }
}

impl std::ops::Sub for Vec4 {
    type Output = Vec4;

    fn sub(self, other: Vec4) -> (result: Vec4) {
        Vec4 { x: self.x - other.x, y: self.y - other.y, z: self.z - other.z, w: self.w - other.w }
    }
}

impl vstd::std_specs::ops::SubSpecImpl for Vec4 {
    open spec fn obeys_sub_spec() -> bool {
        true
    }

    open spec fn sub_req(self, other: Vec4) -> bool {
        true
    }

    open spec fn sub_spec(self, other: Vec4) -> Vec4 {
        self - other
    }
}

impl std::ops::Neg for Vec4 {
    type Output = Vec4;

    fn neg(self) -> (result: Vec4) {
        Vec4 { x: self.x.negate(), y: self.y.negate(), z: self.z.negate(), w: self.w.negate() }
    }
}

impl vstd::std_specs::ops::NegSpecImpl for Vec4 {
    open spec fn obeys_neg_spec() -> bool {
        true
    }

    open spec fn neg_req(self) -> bool {
        true
    }

    open spec fn neg_spec(self) -> Vec4 {
        self.opposite()
    }
}

impl std::ops::Mul<Float32> for Vec4 {
    type Output = Vec4;

    fn mul(self, other: Float32) -> (result: Vec4) {
        Vec4 { x: self.x * other, y: self.y * other, z: self.z * other, w: self.w * other }
    }
}

impl vstd::std_specs::ops::MulSpecImpl<Float32> for Vec4 {
    open spec fn obeys_mul_spec() -> bool {
        true
    }

    open spec fn mul_req(self, other: Float32) -> bool {
        true
    }

    open spec fn mul_spec(self, other: Float32) -> Vec4 {
        self * other
    }
}

impl std::ops::Mul for Vec4 {
    type Output = Vec4;

    fn mul(self, other: Vec4) -> (result: Vec4) {
        Vec4 { x: self.x * other.x, y: self.y * other.y, z: self.z * other.z, w: self.w * other.w }
    }
}

impl vstd::std_specs::ops::MulSpecImpl for Vec4 {
    open spec fn obeys_mul_spec() -> bool {
        true
    }

    open spec fn mul_req(self, other: Vec4) -> bool {
        true
    }

    open spec fn mul_spec(self, other: Vec4) -> Vec4 {
        self.each_times(other)
    }
}

impl std::ops::Div<Float32> for Vec4 {
    type Output = Vec4;

    fn div(self, other: Float32) -> (result: Vec4) {
        Vec4 { x: self.x / other, y: self.y / other, z: self.z / other, w: self.w / other }
    }
}

impl vstd::std_specs::ops::DivSpecImpl<Float32> for Vec4 {
    open spec fn obeys_div_spec() -> bool {
        true
    }

    open spec fn div_req(self, other: Float32) -> bool {
        true
    }

    open spec fn div_spec(self, other: Float32) -> Vec4 {
        self / other
    }
}

impl std::ops::Div for Vec4 {
    type Output = Vec4;

    fn div(self, other: Vec4) -> (result: Vec4) {
        Vec4 { x: self.x / other.x, y: self.y / other.y, z: self.z / other.z, w: self.w / other.w }
    }
}

impl vstd::std_specs::ops::DivSpecImpl for Vec4 {
    open spec fn obeys_div_spec() -> bool {
        true
    }

    open spec fn div_req(self, other: Vec4) -> bool {
        true
    }

    open spec fn div_spec(self, other: Vec4) -> Vec4 {
        self.each_over(other)
    }
}

impl std::ops::Mul<Vec4> for Float32 {
    type Output = Vec4;

    fn mul(self, other: Vec4) -> (result: Vec4) {
        other * self
    }
}

impl vstd::std_specs::ops::MulSpecImpl<Vec4> for Float32 {
    open spec fn obeys_mul_spec() -> bool {
        true
    }

    open spec fn mul_req(self, other: Vec4) -> bool {
        true
    }

    open spec fn mul_spec(self, other: Vec4) -> Vec4 {
        other * self
    }
}

/// A matrix of three rows and columns.
#[derive(Clone, Copy, PartialEq, Debug)]
pub struct Mat3 {
    pub data: [Float32; 9],
}

/// A matrix of four rows and columns.
#[derive(Clone, Copy, PartialEq, Debug)]
pub struct Mat4 {
    pub data: [Float32; 16],
}

/// A quaternion, its scalar part last.
#[derive(Clone, Copy, Debug)]
pub struct Quat {
    pub x: Float32,
    pub y: Float32,
    pub z: Float32,
    pub w: Float32,
}

impl View for Mat3 {
    type V = Seq<Float32>;

    open spec fn view(&self) -> Seq<Float32> {
        self.data@
    }
}

impl View for Mat4 {
    type V = Seq<Float32>;

    open spec fn view(&self) -> Seq<Float32> {
        self.data@
    }
}

/// The matrix with these nine elements.
pub open spec fn small_matrix_of(v: Seq<Float32>) -> Mat3 {
    Mat3 { data: [v[0], v[1], v[2], v[3], v[4], v[5], v[6], v[7], v[8]] }
}

/// The matrix with these sixteen elements.
pub open spec fn matrix_of(v: Seq<Float32>) -> Mat4 {
    Mat4 {
        data: [
            v[0],
            v[1],
            v[2],
            v[3],
            v[4],
            v[5],
            v[6],
            v[7],
            v[8],
            v[9],
            v[10],
            v[11],
            v[12],
            v[13],
            v[14],
            v[15],
        ],
    }
}

proof fn lemma_small_matrix(matrix: Mat3, values: Seq<Float32>)
    requires
        values.len() == 9,
        matrix@ =~= values,
    ensures
        matrix == small_matrix_of(values),
{
    assert(matrix.data@ =~= small_matrix_of(values).data@);
    assert(matrix.data =~= small_matrix_of(values).data);
}

/// A matrix is made of its elements.
pub proof fn lemma_matrix(matrix: Mat4, values: Seq<Float32>)
    requires
        values.len() == 16,
        matrix@ =~= values,
    ensures
        matrix == matrix_of(values),
{
    assert(matrix.data@ =~= matrix_of(values).data@);
    assert(matrix.data =~= matrix_of(values).data);
}

/// Makes a matrix of sixteen elements.
pub fn make_matrix(v: &Vec<Float32>) -> (result: Mat4)
    requires
        v@.len() == 16,
    ensures
        result == matrix_of(v@),
{
    let result: Mat4 = Mat4 {
        data: [
            v[0],
            v[1],
            v[2],
            v[3],
            v[4],
            v[5],
            v[6],
            v[7],
            v[8],
            v[9],
            v[10],
            v[11],
            v[12],
            v[13],
            v[14],
            v[15],
        ],
    };
    proof {
        lemma_matrix(result, v@);
    }
    result
}

/// The elements of the larger matrix that maps every vector to itself.
pub open spec fn identity_elements() -> Seq<Float32> {
    Seq::new(
        16,
        |i: int|
            if i % 5 == 0 {
                Float32 { bits: ONE }
            } else {
                Float32 { bits: 0 }
            },
    )
}

/// The matrix that maps every vector to itself.
pub open spec fn identity_matrix() -> Mat4 {
    matrix_of(identity_elements())
}

/// The smaller matrix that maps every vector to itself.
pub open spec fn small_identity() -> Mat3 {
    small_matrix_of(
        Seq::new(
            9,
            |i: int|
                if i % 4 == 0 {
                    Float32 { bits: ONE }
                } else {
                    Float32 { bits: 0 }
                },
        ),
    )
}

/// The elements of a matrix with its rows and columns exchanged.
pub open spec fn transposed(m: Seq<Float32>) -> Seq<Float32> {
    seq![m[0], m[3], m[6], m[1], m[4], m[7], m[2], m[5], m[8]]
}

/// The determinant of a matrix.
pub open spec fn determinant(m: Seq<Float32>) -> Float32 {
    m[0] * (m[4] * m[8] - m[7] * m[5]) - m[3] * (m[1] * m[8] - m[7] * m[2]) + m[6] * (m[1] * m[5]
        - m[4] * m[2])
}

/// The elements of the matrix of cofactors, transposed and scaled.
pub open spec fn scaled_adjugate(m: Seq<Float32>, factor: Float32) -> Seq<Float32> {
    seq![
        (m[4] * m[8] - m[7] * m[5]) * factor,
        (m[7] * m[2] - m[1] * m[8]) * factor,
        (m[1] * m[5] - m[4] * m[2]) * factor,
        (m[6] * m[5] - m[3] * m[8]) * factor,
        (m[0] * m[8] - m[6] * m[2]) * factor,
        (m[3] * m[2] - m[0] * m[5]) * factor,
        (m[3] * m[7] - m[6] * m[4]) * factor,
        (m[6] * m[1] - m[0] * m[7]) * factor,
        (m[0] * m[4] - m[3] * m[1]) * factor,
    ]
}

impl Mat3 {
    pub fn new(data: [Float32; 9]) -> (result: Mat3)
        ensures
            result == (Mat3 { data }),
    {
        Mat3 { data }
    }

    /// The matrix that maps every vector to itself.
    pub fn identity() -> (result: Mat3)
        ensures
            result == small_identity(),
    {
        let o: Float32 = Float32 { bits: ONE };
        let n: Float32 = Float32 { bits: 0 };
        let result: Mat3 = Mat3 { data: [o, n, n, n, o, n, n, n, o] };
        proof {
            lemma_small_matrix(result, small_identity()@);
            assert(small_identity()@ =~= result@);
        }
        result
    }

    /// The element in a row and a column.
    pub fn get(self, row: usize, column: usize) -> (result: Float32)
        requires
            column * 3 + row < 9,
        ensures
            result == self@[column * 3 + row],
    {
        self.data[column * 3 + row]
    }

    /// The matrix with its rows and columns exchanged.
    pub fn transpose(self) -> (result: Mat3)
        ensures
            result == small_matrix_of(transposed(self@)),
    {
        let m: [Float32; 9] = self.data;
        let result: Mat3 = Mat3 { data: [m[0], m[3], m[6], m[1], m[4], m[7], m[2], m[5], m[8]] };
        proof {
            lemma_small_matrix(result, transposed(self@));
        }
        result
    }

    /// The inverse of a matrix, where its determinant is finite and not zero.
    pub open spec fn inverted(self) -> Option<Mat3> {
        let whole = determinant(self@);
        if whole.magnitude() == 0 || !whole.finite() {
            None
        } else {
            Some(small_matrix_of(scaled_adjugate(self@, Float32 { bits: ONE } / whole)))
        }
    }

    /// The inverse, where there is one.
    pub fn inverse(self) -> (result: Option<Mat3>)
        ensures
            result == self.inverted(),
    {
        let m: [Float32; 9] = self.data;
        let whole: Float32 = m[0] * (m[4] * m[8] - m[7] * m[5]) - m[3] * (m[1] * m[8] - m[7] * m[2])
            + m[6] * (m[1] * m[5] - m[4] * m[2]);
        assert(whole == determinant(self@));
        if whole.is_zero() || !whole.is_finite() {
            return None;
        }
        let factor: Float32 = Float32 { bits: ONE } / whole;
        let result: Mat3 = Mat3 {
            data: [
                (m[4] * m[8] - m[7] * m[5]) * factor,
                (m[7] * m[2] - m[1] * m[8]) * factor,
                (m[1] * m[5] - m[4] * m[2]) * factor,
                (m[6] * m[5] - m[3] * m[8]) * factor,
                (m[0] * m[8] - m[6] * m[2]) * factor,
                (m[3] * m[2] - m[0] * m[5]) * factor,
                (m[3] * m[7] - m[6] * m[4]) * factor,
                (m[6] * m[1] - m[0] * m[7]) * factor,
                (m[0] * m[4] - m[3] * m[1]) * factor,
            ],
        };
        proof {
            lemma_small_matrix(result, scaled_adjugate(self@, factor));
        }
        Some(result)
    }

    /// The image of a vector.
    pub open spec fn applied(self, vector: Vec3) -> Vec3 {
        let m = self@;
        Vec3 {
            x: m[0] * vector.x + m[3] * vector.y + m[6] * vector.z,
            y: m[1] * vector.x + m[4] * vector.y + m[7] * vector.z,
            z: m[2] * vector.x + m[5] * vector.y + m[8] * vector.z,
        }
    }
}

impl Default for Mat3 {
    fn default() -> (result: Mat3)
        ensures
            result == small_identity(),
    {
        Mat3::identity()
    }
}

impl std::ops::Mul<Vec3> for Mat3 {
    type Output = Vec3;

    fn mul(self, other: Vec3) -> (result: Vec3) {
        let m: [Float32; 9] = self.data;
        Vec3 {
            x: m[0] * other.x + m[3] * other.y + m[6] * other.z,
            y: m[1] * other.x + m[4] * other.y + m[7] * other.z,
            z: m[2] * other.x + m[5] * other.y + m[8] * other.z,
        }
    }
}

impl vstd::std_specs::ops::MulSpecImpl<Vec3> for Mat3 {
    open spec fn obeys_mul_spec() -> bool {
        true
    }

    open spec fn mul_req(self, other: Vec3) -> bool {
        true
    }

    open spec fn mul_spec(self, other: Vec3) -> Vec3 {
        self.applied(other)
    }
}

/// The element of a product in a row and a column.
#[verifier::opaque]
pub open spec fn product_element(
    first: Seq<Float32>,
    second: Seq<Float32>,
    row: int,
    column: int,
) -> Float32 {
    first[row] * second[column * 4] + first[4 + row] * second[column * 4 + 1] + first[8 + row]
        * second[column * 4 + 2] + first[12 + row] * second[column * 4 + 3]
}

/// The elements of a product.
pub open spec fn product_elements(first: Seq<Float32>, second: Seq<Float32>) -> Seq<Float32> {
    Seq::new(16, |i: int| product_element(first, second, i % 4, i / 4))
}

fn element(first: &[Float32; 16], second: &[Float32; 16], row: usize, column: usize) -> (result:
    Float32)
    requires
        row < 4,
        column < 4,
    ensures
        result == product_element(first@, second@, row as int, column as int),
{
    proof {
        reveal(product_element);
    }
    first[row] * second[column * 4] + first[4 + row] * second[column * 4 + 1] + first[8 + row]
        * second[column * 4 + 2] + first[12 + row] * second[column * 4 + 3]
}

/// The elements of a rotation by a unit quaternion.
pub open spec fn rotation_elements(q: Quat) -> Seq<Float32> {
    let o = Float32 { bits: ONE };
    let n = Float32 { bits: 0 };
    let two = Float32 { bits: TWO };
    seq![
        o - two * (q.y * q.y + q.z * q.z),
        two * (q.x * q.y + q.z * q.w),
        two * (q.x * q.z - q.y * q.w),
        n,
        two * (q.x * q.y - q.z * q.w),
        o - two * (q.x * q.x + q.z * q.z),
        two * (q.y * q.z + q.x * q.w),
        n,
        two * (q.x * q.z + q.y * q.w),
        two * (q.y * q.z - q.x * q.w),
        o - two * (q.x * q.x + q.y * q.y),
        n,
        n,
        n,
        n,
        o,
    ]
}

/// The elements of a perspective projection whose focal length is known.
pub open spec fn perspective_elements(
    focal: Float32,
    aspect: Float32,
    near: Float32,
    far: Float32,
) -> Seq<Float32> {
    let o = Float32 { bits: ONE };
    let n = Float32 { bits: 0 };
    let two = Float32 { bits: TWO };
    seq![
        focal / aspect,
        n,
        n,
        n,
        n,
        focal,
        n,
        n,
        n,
        n,
        (far + near) / (near - far),
        o.opposite(),
        n,
        n,
        (two * far * near) / (near - far),
        n,
    ]
}

/// The elements of an orthographic projection.
pub open spec fn orthographic_elements(
    left: Float32,
    right: Float32,
    bottom: Float32,
    top: Float32,
    near: Float32,
    far: Float32,
) -> Seq<Float32> {
    let o = Float32 { bits: ONE };
    let n = Float32 { bits: 0 };
    let two = Float32 { bits: TWO };
    seq![
        two / (right - left),
        n,
        n,
        n,
        n,
        two / (top - bottom),
        n,
        n,
        n,
        n,
        two.opposite() / (far - near),
        n,
        (right + left).opposite() / (right - left),
        (top + bottom).opposite() / (top - bottom),
        (far + near).opposite() / (far - near),
        o,
    ]
}

/// The direction from an eye to a target.
pub open spec fn view_forward(eye: Vec3, target: Vec3) -> Vec3 {
    (target - eye).unit()
}

/// The direction to the right of a view.
pub open spec fn view_right(eye: Vec3, target: Vec3, up: Vec3) -> Vec3 {
    view_forward(eye, target).cross_product(up).unit()
}

/// The elements of a view from an eye to a target.
pub open spec fn view_elements(eye: Vec3, target: Vec3, up: Vec3) -> Seq<Float32> {
    let o = Float32 { bits: ONE };
    let n = Float32 { bits: 0 };
    let forward = view_forward(eye, target);
    let right = view_right(eye, target, up);
    let upright = right.cross_product(forward);
    seq![
        right.x,
        upright.x,
        forward.x.opposite(),
        n,
        right.y,
        upright.y,
        forward.y.opposite(),
        n,
        right.z,
        upright.z,
        forward.z.opposite(),
        n,
        right.dot_product(eye).opposite(),
        upright.dot_product(eye).opposite(),
        forward.dot_product(eye),
        o,
    ]
}

impl Mat4 {
    pub fn new(data: [Float32; 16]) -> (result: Mat4)
        ensures
            result == (Mat4 { data }),
    {
        Mat4 { data }
    }

    /// The matrix that maps every vector to itself.
    pub fn identity() -> (result: Mat4)
        ensures
            result == identity_matrix(),
    {
        let o: Float32 = Float32 { bits: ONE };
        let n: Float32 = Float32 { bits: 0 };
        let result: Mat4 = Mat4 { data: [o, n, n, n, n, o, n, n, n, n, o, n, n, n, n, o] };
        proof {
            lemma_matrix(result, identity_elements());
        }
        result
    }

    /// The element in a row and a column.
    pub fn get(self, row: usize, column: usize) -> (result: Float32)
        requires
            column * 4 + row < 16,
        ensures
            result == self@[column * 4 + row],
    {
        self.data[column * 4 + row]
    }

    /// The matrix that moves by an offset.
    pub open spec fn translation(offset: Vec3) -> Mat4 {
        matrix_of(
            identity_elements().update(12, offset.x).update(13, offset.y).update(14, offset.z),
        )
    }

    pub fn translate(offset: Vec3) -> (result: Mat4)
        ensures
            result == Mat4::translation(offset),
    {
        let o: Float32 = Float32 { bits: ONE };
        let n: Float32 = Float32 { bits: 0 };
        let result: Mat4 = Mat4 {
            data: [o, n, n, n, n, o, n, n, n, n, o, n, offset.x, offset.y, offset.z, o],
        };
        proof {
            lemma_matrix(
                result,
                identity_elements().update(12, offset.x).update(13, offset.y).update(14, offset.z),
            );
        }
        result
    }

    /// The matrix that scales each axis.
    pub open spec fn scaling(factors: Vec3) -> Mat4 {
        matrix_of(
            identity_elements().update(0, factors.x).update(5, factors.y).update(10, factors.z),
        )
    }

    pub fn scale(factors: Vec3) -> (result: Mat4)
        ensures
            result == Mat4::scaling(factors),
    {
        let o: Float32 = Float32 { bits: ONE };
        let n: Float32 = Float32 { bits: 0 };
        let result: Mat4 = Mat4 {
            data: [factors.x, n, n, n, n, factors.y, n, n, n, n, factors.z, n, n, n, n, o],
        };
        proof {
            lemma_matrix(
                result,
                identity_elements().update(0, factors.x).update(5, factors.y).update(10, factors.z),
            );
        }
        result
    }

    /// The linear part.
    pub open spec fn linear(self) -> Mat3 {
        let m = self@;
        small_matrix_of(seq![m[0], m[1], m[2], m[4], m[5], m[6], m[8], m[9], m[10]])
    }

    pub fn upper_left3(self) -> (result: Mat3)
        ensures
            result == self.linear(),
    {
        let m: [Float32; 16] = self.data;
        let result: Mat3 = Mat3 { data: [m[0], m[1], m[2], m[4], m[5], m[6], m[8], m[9], m[10]] };
        proof {
            lemma_small_matrix(result, seq![m[0], m[1], m[2], m[4], m[5], m[6], m[8], m[9], m[10]]);
        }
        result
    }

    /// The matrix for normals: the inverse of the linear part, transposed.
    pub open spec fn for_normals(self) -> Option<Mat3> {
        match self.linear().inverted() {
            None => None,
            Some(inverse) => Some(small_matrix_of(transposed(inverse@))),
        }
    }

    pub fn normal_matrix(self) -> (result: Option<Mat3>)
        ensures
            result == self.for_normals(),
    {
        match self.upper_left3().inverse() {
            None => None,
            Some(inverse) => Some(inverse.transpose()),
        }
    }

    /// The rotation about an axis by an angle, half of which has this sine and cosine.
    pub fn rotate(axis: Vec3, sine: Float32, cosine: Float32) -> (result: Mat4)
        ensures
            result == Quat::about(axis, sine, cosine).rotation(),
    {
        Quat::from_axis_angle(axis, sine, cosine).to_mat4()
    }

    /// A right-handed perspective projection, `focal` being the inverse of the tangent of half
    /// the vertical field of view.
    pub fn perspective(focal: Float32, aspect: Float32, near: Float32, far: Float32) -> (
    result: Mat4)
        ensures
            result == matrix_of(perspective_elements(focal, aspect, near, far)),
    {
        let o: Float32 = Float32 { bits: ONE };
        let n: Float32 = Float32 { bits: 0 };
        let two: Float32 = Float32 { bits: TWO };
        let result: Mat4 = Mat4 {
            data: [
                focal / aspect,
                n,
                n,
                n,
                n,
                focal,
                n,
                n,
                n,
                n,
                (far + near) / (near - far),
                o.negate(),
                n,
                n,
                (two * far * near) / (near - far),
                n,
            ],
        };
        proof {
            lemma_matrix(result, perspective_elements(focal, aspect, near, far));
        }
        result
    }

    /// A right-handed orthographic projection.
    pub fn orthographic(
        left: Float32,
        right: Float32,
        bottom: Float32,
        top: Float32,
        near: Float32,
        far: Float32,
    ) -> (result: Mat4)
        ensures
            result == matrix_of(orthographic_elements(left, right, bottom, top, near, far)),
    {
        let o: Float32 = Float32 { bits: ONE };
        let n: Float32 = Float32 { bits: 0 };
        let two: Float32 = Float32 { bits: TWO };
        let result: Mat4 = Mat4 {
            data: [
                two / (right - left),
                n,
                n,
                n,
                n,
                two / (top - bottom),
                n,
                n,
                n,
                n,
                two.negate() / (far - near),
                n,
                (right + left).negate() / (right - left),
                (top + bottom).negate() / (top - bottom),
                (far + near).negate() / (far - near),
                o,
            ],
        };
        proof {
            lemma_matrix(result, orthographic_elements(left, right, bottom, top, near, far));
        }
        result
    }

    /// A right-handed view that looks from an eye to a target.
    pub fn look_at(eye: Vec3, target: Vec3, up: Vec3) -> (result: Mat4)
        ensures
            result == matrix_of(view_elements(eye, target, up)),
    {
        let o: Float32 = Float32 { bits: ONE };
        let n: Float32 = Float32 { bits: 0 };
        let forward: Vec3 = (target - eye).normalize();
        let right: Vec3 = forward.cross(up).normalize();
        let upright: Vec3 = right.cross(forward);
        let result: Mat4 = Mat4 {
            data: [
                right.x,
                upright.x,
                forward.x.negate(),
                n,
                right.y,
                upright.y,
                forward.y.negate(),
                n,
                right.z,
                upright.z,
                forward.z.negate(),
                n,
                right.dot(eye).negate(),
                upright.dot(eye).negate(),
                forward.dot(eye),
                o,
            ],
        };
        proof {
            lemma_matrix(result, view_elements(eye, target, up));
        }
        result
    }

    pub open spec fn spec_mul(self, other: Mat4) -> Mat4 {
        matrix_of(product_elements(self@, other@))
    }

    /// The image of a vector.
    pub open spec fn applied(self, vector: Vec4) -> Vec4 {
        let m = self@;
        Vec4 {
            x: m[0] * vector.x + m[4] * vector.y + m[8] * vector.z + m[12] * vector.w,
            y: m[1] * vector.x + m[5] * vector.y + m[9] * vector.z + m[13] * vector.w,
            z: m[2] * vector.x + m[6] * vector.y + m[10] * vector.z + m[14] * vector.w,
            w: m[3] * vector.x + m[7] * vector.y + m[11] * vector.z + m[15] * vector.w,
        }
    }
}

impl Default for Mat4 {
    fn default() -> (result: Mat4)
        ensures
            result == identity_matrix(),
    {
        Mat4::identity()
    }
}

impl std::ops::Mul for Mat4 {
    type Output = Mat4;

    fn mul(self, other: Mat4) -> (result: Mat4) {
        let a: &[Float32; 16] = &self.data;
        let b: &[Float32; 16] = &other.data;
        let result: Mat4 = Mat4 {
            data: [
                element(a, b, 0, 0),
                element(a, b, 1, 0),
                element(a, b, 2, 0),
                element(a, b, 3, 0),
                element(a, b, 0, 1),
                element(a, b, 1, 1),
                element(a, b, 2, 1),
                element(a, b, 3, 1),
                element(a, b, 0, 2),
                element(a, b, 1, 2),
                element(a, b, 2, 2),
                element(a, b, 3, 2),
                element(a, b, 0, 3),
                element(a, b, 1, 3),
                element(a, b, 2, 3),
                element(a, b, 3, 3),
            ],
        };
        proof {
            lemma_matrix(result, product_elements(self@, other@));
        }
        result
    }
}

impl vstd::std_specs::ops::MulSpecImpl for Mat4 {
    open spec fn obeys_mul_spec() -> bool {
        true
    }

    open spec fn mul_req(self, other: Mat4) -> bool {
        true
    }

    open spec fn mul_spec(self, other: Mat4) -> Mat4 {
        self * other
    }
}

impl std::ops::Mul<Vec4> for Mat4 {
    type Output = Vec4;

    fn mul(self, other: Vec4) -> (result: Vec4) {
        let m: [Float32; 16] = self.data;
        Vec4 {
            x: m[0] * other.x + m[4] * other.y + m[8] * other.z + m[12] * other.w,
            y: m[1] * other.x + m[5] * other.y + m[9] * other.z + m[13] * other.w,
            z: m[2] * other.x + m[6] * other.y + m[10] * other.z + m[14] * other.w,
            w: m[3] * other.x + m[7] * other.y + m[11] * other.z + m[15] * other.w,
        }
    }
}

impl vstd::std_specs::ops::MulSpecImpl<Vec4> for Mat4 {
    open spec fn obeys_mul_spec() -> bool {
        true
    }

    open spec fn mul_req(self, other: Vec4) -> bool {
        true
    }

    open spec fn mul_spec(self, other: Vec4) -> Vec4 {
        self.applied(other)
    }
}

impl Quat {
    pub fn new(x: Float32, y: Float32, z: Float32, w: Float32) -> (result: Quat)
        ensures
            result == (Quat { x, y, z, w }),
    {
        Quat { x, y, z, w }
    }

    /// The rotation by nothing.
    pub open spec fn unturned() -> Quat {
        Quat {
            x: Float32 { bits: 0 },
            y: Float32 { bits: 0 },
            z: Float32 { bits: 0 },
            w: Float32 { bits: ONE },
        }
    }

    /// The rotation by nothing.
    pub fn identity() -> (result: Quat)
        ensures
            result == Quat::unturned(),
    {
        Quat {
            x: Float32 { bits: 0 },
            y: Float32 { bits: 0 },
            z: Float32 { bits: 0 },
            w: Float32 { bits: ONE },
        }
    }

    pub open spec fn spec_mul(self, other: Quat) -> Quat {
        Quat {
            x: self.w * other.x + self.x * other.w + self.y * other.z - self.z * other.y,
            y: self.w * other.y - self.x * other.z + self.y * other.w + self.z * other.x,
            z: self.w * other.z + self.x * other.y - self.y * other.x + self.z * other.w,
            w: self.w * other.w - self.x * other.x - self.y * other.y - self.z * other.z,
        }
    }

    /// The quaternion with each component multiplied.
    pub open spec fn scaled_by(self, factor: Float32) -> Quat {
        Quat {
            x: self.x * factor,
            y: self.y * factor,
            z: self.z * factor,
            w: self.w * factor,
        }
    }

    pub open spec fn spec_euclidean_or_real_div(self, divisor: Float32) -> Quat {
        Quat {
            x: self.x / divisor,
            y: self.y / divisor,
            z: self.z / divisor,
            w: self.w / divisor,
        }
    }

    /// The length of the quaternion.
    pub open spec fn norm(self) -> Float32 {
        (self.x * self.x + self.y * self.y + self.z * self.z + self.w * self.w).root()
    }

    /// The quaternion divided by its length, and the rotation by nothing where it has none.
    pub open spec fn unit(self) -> Quat {
        if self.norm().magnitude() == 0 {
            Quat::unturned()
        } else {
            self / self.norm()
        }
    }

    pub fn normalized(self) -> (result: Quat)
        ensures
            result == self.unit(),
    {
        let length: Float32 = (self.x * self.x + self.y * self.y + self.z * self.z + self.w
            * self.w).sqrt();
        if length.is_zero() {
            Quat::identity()
        } else {
            self / length
        }
    }

    /// The rotation about an axis by an angle, half of which has this sine and cosine.
    pub open spec fn about(axis: Vec3, sine: Float32, cosine: Float32) -> Quat {
        let direction = axis.unit();
        Quat {
            x: direction.x * sine,
            y: direction.y * sine,
            z: direction.z * sine,
            w: cosine,
        }
    }

    /// The rotation about an axis by an angle, half of which has this sine and cosine.
    pub fn from_axis_angle(axis: Vec3, sine: Float32, cosine: Float32) -> (result: Quat)
        ensures
            result == Quat::about(axis, sine, cosine),
    {
        let direction: Vec3 = axis.normalize();
        Quat {
            x: direction.x * sine,
            y: direction.y * sine,
            z: direction.z * sine,
            w: cosine,
        }
    }

    /// The matrix that rotates as the quaternion does.
    pub open spec fn rotation(self) -> Mat4 {
        matrix_of(rotation_elements(self.unit()))
    }

    pub fn to_mat4(self) -> (result: Mat4)
        ensures
            result == self.rotation(),
    {
        let q: Quat = self.normalized();
        let o: Float32 = Float32 { bits: ONE };
        let n: Float32 = Float32 { bits: 0 };
        let two: Float32 = Float32 { bits: TWO };
        let result: Mat4 = Mat4 {
            data: [
                o - two * (q.y * q.y + q.z * q.z),
                two * (q.x * q.y + q.z * q.w),
                two * (q.x * q.z - q.y * q.w),
                n,
                two * (q.x * q.y - q.z * q.w),
                o - two * (q.x * q.x + q.z * q.z),
                two * (q.y * q.z + q.x * q.w),
                n,
                two * (q.x * q.z + q.y * q.w),
                two * (q.y * q.z - q.x * q.w),
                o - two * (q.x * q.x + q.y * q.y),
                n,
                n,
                n,
                n,
                o,
            ],
        };
        proof {
            lemma_matrix(result, rotation_elements(q));
        }
        result
    }

    /// The rotation back.
    pub open spec fn reversed(self) -> Quat {
        Quat { x: self.x.opposite(), y: self.y.opposite(), z: self.z.opposite(), w: self.w }
    }

    pub fn conjugate(self) -> (result: Quat)
        ensures
            result == self.reversed(),
    {
        Quat { x: self.x.negate(), y: self.y.negate(), z: self.z.negate(), w: self.w }
    }

    /// The rotated vector.
    pub open spec fn turned(self, vector: Vec3) -> Vec3 {
        let rotation = self.unit();
        let pure = Quat { x: vector.x, y: vector.y, z: vector.z, w: Float32 { bits: 0 } };
        let result = (rotation * pure) * rotation.reversed();
        Vec3 { x: result.x, y: result.y, z: result.z }
    }

    pub fn rotate_vec3(self, vector: Vec3) -> (result: Vec3)
        ensures
            result == self.turned(vector),
    {
        let rotation: Quat = self.normalized();
        let pure: Quat = Quat { x: vector.x, y: vector.y, z: vector.z, w: Float32 { bits: 0 } };
        let result: Quat = (rotation * pure) * rotation.conjugate();
        Vec3 { x: result.x, y: result.y, z: result.z }
    }
}

impl std::ops::Mul for Quat {
    type Output = Quat;

    fn mul(self, other: Quat) -> (result: Quat) {
        Quat {
            x: self.w * other.x + self.x * other.w + self.y * other.z - self.z * other.y,
            y: self.w * other.y - self.x * other.z + self.y * other.w + self.z * other.x,
            z: self.w * other.z + self.x * other.y - self.y * other.x + self.z * other.w,
            w: self.w * other.w - self.x * other.x - self.y * other.y - self.z * other.z,
        }
    }
}

impl vstd::std_specs::ops::MulSpecImpl for Quat {
    open spec fn obeys_mul_spec() -> bool {
        true
    }

    open spec fn mul_req(self, other: Quat) -> bool {
        true
    }

    open spec fn mul_spec(self, other: Quat) -> Quat {
        self * other
    }
}

impl std::ops::Mul<Float32> for Quat {
    type Output = Quat;

    fn mul(self, other: Float32) -> (result: Quat) {
        Quat { x: self.x * other, y: self.y * other, z: self.z * other, w: self.w * other }
    }
}

impl vstd::std_specs::ops::MulSpecImpl<Float32> for Quat {
    open spec fn obeys_mul_spec() -> bool {
        true
    }

    open spec fn mul_req(self, other: Float32) -> bool {
        true
    }

    open spec fn mul_spec(self, other: Float32) -> Quat {
        self.scaled_by(other)
    }
}

impl std::ops::Div<Float32> for Quat {
    type Output = Quat;

    fn div(self, other: Float32) -> (result: Quat) {
        Quat { x: self.x / other, y: self.y / other, z: self.z / other, w: self.w / other }
    }
}

impl vstd::std_specs::ops::DivSpecImpl<Float32> for Quat {
    open spec fn obeys_div_spec() -> bool {
        true
    }

    open spec fn div_req(self, other: Float32) -> bool {
        true
    }

    open spec fn div_spec(self, other: Float32) -> Quat {
        self / other
    }
}

/// The four rows of a matrix, each followed by the row of the identity.
pub open spec fn augmented(m: Seq<Float32>) -> Seq<Float32> {
    Seq::new(
        32,
        |k: int|
            if k % 8 < 4 {
                m[(k % 8) * 4 + k / 8]
            } else if k % 8 == k / 8 + 4 {
                Float32 { bits: ONE }
            } else {
                Float32 { bits: 0 }
            },
    )
}

/// The row from `column` to `last` that holds the largest magnitude in the column, the last one
/// where several do.
pub open spec fn pivot_row(rows: Seq<Float32>, column: int, last: int) -> int
    decreases last - column,
{
    if last <= column {
        column
    } else {
        let best = pivot_row(rows, column, last - 1);
        if rows[best * 8 + column].magnitude() <= rows[last * 8 + column].magnitude() {
            last
        } else {
            best
        }
    }
}

/// The rows with two of them exchanged.
pub open spec fn exchanged(rows: Seq<Float32>, first: int, second: int) -> Seq<Float32> {
    Seq::new(
        32,
        |k: int|
            if k / 8 == first {
                rows[second * 8 + k % 8]
            } else if k / 8 == second {
                rows[first * 8 + k % 8]
            } else {
                rows[k]
            },
    )
}

/// The rows after one of them has been divided by its element in `column` and its multiples have
/// been taken from the others.
pub open spec fn eliminated(rows: Seq<Float32>, column: int) -> Seq<Float32> {
    Seq::new(
        32,
        |k: int|
            {
                let head = rows[column * 8 + k % 8] / rows[column * 8 + column];
                if k / 8 == column {
                    head
                } else {
                    rows[k] - rows[(k / 8) * 8 + column] * head
                }
            },
    )
}

/// The augmented rows after the first `columns` columns have been reduced, where every pivot was
/// finite and not zero.
pub open spec fn reduced(m: Seq<Float32>, columns: int) -> Option<Seq<Float32>>
    decreases columns,
{
    if columns <= 0 {
        Some(augmented(m))
    } else {
        match reduced(m, columns - 1) {
            None => None,
            Some(rows) => {
                let column = columns - 1;
                let row = pivot_row(rows, column, 3);
                let pivot = rows[row * 8 + column];
                if pivot.magnitude() == 0 || !pivot.finite() {
                    None
                } else {
                    Some(eliminated(exchanged(rows, column, row), column))
                }
            },
        }
    }
}

/// The elements of the right half of the rows.
pub open spec fn right_half(rows: Seq<Float32>) -> Seq<Float32> {
    Seq::new(16, |k: int| rows[(k % 4) * 8 + k / 4 + 4])
}

/// Whether every value is finite.
pub open spec fn all_are_finite(values: Seq<Float32>) -> bool {
    forall|i: int| 0 <= i < values.len() ==> (#[trigger] values[i]).finite()
}

fn find_pivot(rows: &Vec<Float32>, column: usize) -> (result: usize)
    requires
        rows@.len() == 32,
        column < 4,
    ensures
        result == pivot_row(rows@, column as int, 3),
        column <= result < 4,
{
    let mut best: usize = column;
    let mut row: usize = column + 1;
    while row < 4
        invariant
            rows@.len() == 32,
            column <= best < row <= 4,
            best == pivot_row(rows@, column as int, row - 1),
        decreases 4 - row,
    {
        if rows[best * 8 + column].parts().1 <= rows[row * 8 + column].parts().1 {
            best = row;
        }
        row += 1;
    }
    best
}

fn eliminate(rows: &Vec<Float32>, column: usize) -> (result: Vec<Float32>)
    requires
        rows@.len() == 32,
        column < 4,
    ensures
        result@ == eliminated(rows@, column as int),
{
    let divisor: Float32 = rows[column * 8 + column];
    let mut result: Vec<Float32> = Vec::new();
    let mut k: usize = 0;
    while k < 32
        invariant
            rows@.len() == 32,
            column < 4,
            k <= 32,
            divisor == rows@[column * 8 + column],
            result@ =~= eliminated(rows@, column as int).take(k as int),
        decreases 32 - k,
    {
        let head: Float32 = rows[column * 8 + k % 8] / divisor;
        let value: Float32 = if k / 8 == column {
            head
        } else {
            rows[k] - rows[(k / 8) * 8 + column] * head
        };
        result.push(value);
        k += 1;
    }
    assert(result@ =~= eliminated(rows@, column as int));
    result
}

fn exchange(rows: &Vec<Float32>, first: usize, second: usize) -> (result: Vec<Float32>)
    requires
        rows@.len() == 32,
        first < 4,
        second < 4,
    ensures
        result@ == exchanged(rows@, first as int, second as int),
{
    let mut result: Vec<Float32> = Vec::new();
    let mut k: usize = 0;
    while k < 32
        invariant
            rows@.len() == 32,
            first < 4,
            second < 4,
            k <= 32,
            result@ =~= exchanged(rows@, first as int, second as int).take(k as int),
        decreases 32 - k,
    {
        let value: Float32 = if k / 8 == first {
            rows[second * 8 + k % 8]
        } else if k / 8 == second {
            rows[first * 8 + k % 8]
        } else {
            rows[k]
        };
        result.push(value);
        k += 1;
    }
    assert(result@ =~= exchanged(rows@, first as int, second as int));
    result
}

fn augment(m: &[Float32; 16]) -> (result: Vec<Float32>)
    ensures
        result@ == augmented(m@),
{
    let mut result: Vec<Float32> = Vec::new();
    let mut k: usize = 0;
    while k < 32
        invariant
            k <= 32,
            result@ =~= augmented(m@).take(k as int),
        decreases 32 - k,
    {
        let value: Float32 = if k % 8 < 4 {
            m[(k % 8) * 4 + k / 8]
        } else if k % 8 == k / 8 + 4 {
            Float32 { bits: ONE }
        } else {
            Float32 { bits: 0 }
        };
        result.push(value);
        k += 1;
    }
    assert(result@ =~= augmented(m@));
    result
}

impl Mat4 {
    /// The inverse of a matrix, found by elimination: none where a pivot is zero or not finite,
    /// or where an element of the result is not finite.
    pub open spec fn inverted(self) -> Option<Mat4> {
        match reduced(self@, 4) {
            None => None,
            Some(rows) => if all_are_finite(right_half(rows)) {
                Some(matrix_of(right_half(rows)))
            } else {
                None
            },
        }
    }

    /// The inverse, where there is one.
    pub fn inverse(self) -> (result: Option<Mat4>)
        ensures
            result == self.inverted(),
    {
        let mut rows: Vec<Float32> = augment(&self.data);
        let mut column: usize = 0;
        while column < 4
            invariant
                column <= 4,
                rows@.len() == 32,
                reduced(self@, column as int) == Some(rows@),
            decreases 4 - column,
        {
            let row: usize = find_pivot(&rows, column);
            let pivot: Float32 = rows[row * 8 + column];
            if pivot.is_zero() || !pivot.is_finite() {
                proof {
                    assert(reduced(self@, column + 1) == None::<Seq<Float32>>);
                    lemma_reduction_stops(self@, column + 1, 4);
                }
                return None;
            }
            rows = eliminate(&exchange(&rows, column, row), column);
            column += 1;
        }
        let mut values: Vec<Float32> = Vec::new();
        let mut k: usize = 0;
        while k < 16
            invariant
                k <= 16,
                rows@.len() == 32,
                reduced(self@, 4) == Some(rows@),
                values@ =~= right_half(rows@).take(k as int),
                all_are_finite(values@),
            decreases 16 - k,
        {
            let value: Float32 = rows[(k % 4) * 8 + k / 4 + 4];
            assert(value == right_half(rows@)[k as int]);
            if !value.is_finite() {
                return None;
            }
            values.push(value);
            k += 1;
        }
        assert(values@ =~= right_half(rows@));
        Some(make_matrix(&values))
    }
}

proof fn lemma_reduction_stops(m: Seq<Float32>, early: int, late: int)
    requires
        0 <= early <= late,
        reduced(m, early) is None,
    ensures
        reduced(m, late) is None,
    decreases late - early,
{
    if early < late {
        lemma_reduction_stops(m, early, late - 1);
    }
}

/// Exchanging rows and columns twice gives the matrix back.
pub proof fn law_transposing_twice_changes_nothing(matrix: Mat3)
    ensures
        small_matrix_of(transposed(small_matrix_of(transposed(matrix@))@)) == matrix,
{
    let once = small_matrix_of(transposed(matrix@));
    assert(once@ =~= transposed(matrix@));
    assert(transposed(once@) =~= matrix@);
    lemma_small_matrix(matrix, transposed(once@));
}

/// Reversing a rotation twice gives the rotation back.
pub proof fn law_reversing_a_rotation_twice_changes_nothing(rotation: Quat)
    ensures
        rotation.reversed().reversed() == rotation,
{
}

/// The point that a matrix maps a point to, after division by the last coordinate: not a number
/// where that is zero or not finite.
pub open spec fn mapped(matrix: Mat4, point: Vec3) -> Vec3 {
    let image = matrix.applied(
        Vec4 { x: point.x, y: point.y, z: point.z, w: Float32 { bits: ONE } },
    );
    if image.w.magnitude() == 0 || !image.w.finite() {
        let none = Float32 { bits: NOT_A_NUMBER };
        Vec3 { x: none, y: none, z: none }
    } else {
        Vec3 { x: image.x / image.w, y: image.y / image.w, z: image.z / image.w }
    }
}

/// The point that a matrix maps a point to.
pub fn transform_point(matrix: Mat4, point: Vec3) -> (result: Vec3)
    ensures
        result == mapped(matrix, point),
{
    let image: Vec4 = matrix * Vec4 {
        x: point.x,
        y: point.y,
        z: point.z,
        w: Float32 { bits: ONE },
    };
    if image.w.is_zero() || !image.w.is_finite() {
        let none: Float32 = Float32 { bits: NOT_A_NUMBER };
        return Vec3 { x: none, y: none, z: none };
    }
    Vec3 { x: image.x / image.w, y: image.y / image.w, z: image.z / image.w }
}

impl PartialEq for Vec2 {
    fn eq(&self, other: &Vec2) -> (result: bool) {
        self.x == other.x && self.y == other.y
    }
}

impl vstd::std_specs::cmp::PartialEqSpecImpl for Vec2 {
    open spec fn obeys_eq_spec() -> bool {
        true
    }

    open spec fn eq_spec(&self, other: &Vec2) -> bool {
        self.x.same_value(other.x) && self.y.same_value(other.y)
    }
}

impl PartialEq for Vec3 {
    fn eq(&self, other: &Vec3) -> (result: bool) {
        self.x == other.x && self.y == other.y && self.z == other.z
    }
}

impl vstd::std_specs::cmp::PartialEqSpecImpl for Vec3 {
    open spec fn obeys_eq_spec() -> bool {
        true
    }

    open spec fn eq_spec(&self, other: &Vec3) -> bool {
        self.x.same_value(other.x) && self.y.same_value(other.y) && self.z.same_value(other.z)
    }
}

impl PartialEq for Vec4 {
    fn eq(&self, other: &Vec4) -> (result: bool) {
        self.x == other.x && self.y == other.y && self.z == other.z && self.w == other.w
    }
}

impl vstd::std_specs::cmp::PartialEqSpecImpl for Vec4 {
    open spec fn obeys_eq_spec() -> bool {
        true
    }

    open spec fn eq_spec(&self, other: &Vec4) -> bool {
        &&& self.x.same_value(other.x)
        &&& self.y.same_value(other.y)
        &&& self.z.same_value(other.z)
        &&& self.w.same_value(other.w)
    }
}

impl PartialEq for Quat {
    fn eq(&self, other: &Quat) -> (result: bool) {
        self.x == other.x && self.y == other.y && self.z == other.z && self.w == other.w
    }
}

impl vstd::std_specs::cmp::PartialEqSpecImpl for Quat {
    open spec fn obeys_eq_spec() -> bool {
        true
    }

    open spec fn eq_spec(&self, other: &Quat) -> bool {
        &&& self.x.same_value(other.x)
        &&& self.y.same_value(other.y)
        &&& self.z.same_value(other.z)
        &&& self.w.same_value(other.w)
    }
}

} // verus!
