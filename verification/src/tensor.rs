//! Tensors of singles, held as `ndarray` arrays of bit patterns.
//!
//! A tensor is known by its shape and by its elements in row-major order (the
//! last index runs fastest).
use vstd::prelude::*;
use vstd::string::StringExecFns;
use ndarray::{Array2, Array3, Axis};
use crate::error::Error;
use crate::single::Bits;

verus! {

/// A matrix of singles.
#[verifier::external_body]
#[derive(Debug)]
pub struct Tensor2 {
    inner: Array2<Bits>,
}

/// A three-dimensional tensor of singles.
#[verifier::external_body]
#[derive(Debug)]
pub struct Tensor3 {
    inner: Array3<Bits>,
}

/// The elements of a matrix in row-major order.
pub uninterp spec fn tensor2_items(t: Tensor2) -> Seq<Bits>;

/// The number of rows and of columns of a matrix.
pub uninterp spec fn tensor2_shape(t: Tensor2) -> (usize, usize);

/// The elements of a tensor in row-major order.
pub uninterp spec fn tensor3_items(t: Tensor3) -> Seq<Bits>;

/// The lengths of the three axes of a tensor.
pub uninterp spec fn tensor3_shape(t: Tensor3) -> (usize, usize, usize);

/// The length of an axis, counting an empty one as one.
pub open spec fn axis_weight(length: usize) -> int {
    if length == 0 {
        1
    } else {
        length as int
    }
}

/// A shape that an array can have: the product of its non-empty axes is at most
/// `isize::MAX`.
pub open spec fn shape2_fits(shape: (usize, usize)) -> bool {
    axis_weight(shape.0) * axis_weight(shape.1) <= isize::MAX
}

/// A shape that an array can have: the product of its non-empty axes is at most
/// `isize::MAX`.
pub open spec fn shape3_fits(shape: (usize, usize, usize)) -> bool {
    axis_weight(shape.0) * axis_weight(shape.1) * axis_weight(shape.2) <= isize::MAX
}

/// The number of elements of a matrix.
pub open spec fn size2(shape: (usize, usize)) -> int {
    shape.0 * shape.1
}

/// The number of elements of a tensor.
pub open spec fn size3(shape: (usize, usize, usize)) -> int {
    shape.0 * shape.1 * shape.2
}

/// The place of an element among the row-major elements.
pub open spec fn offset3(shape: (usize, usize, usize), i: int, j: int, k: int) -> int {
    (i * shape.1 + j) * shape.2 + k
}

/// `frame` is the tensor of shape `(1, hidden, 1)` that holds time step `k` of
/// the first batch of `encoder_out`, whose shape is `(batch, hidden, time)`.
pub open spec fn is_frame(encoder_out: Tensor3, k: int, frame: Tensor3) -> bool {
    let shape = tensor3_shape(encoder_out);
    &&& tensor3_shape(frame) == (1usize, shape.1, 1usize)
    &&& tensor3_items(frame) == Seq::new(
        shape.1 as nat,
        |j: int| tensor3_items(encoder_out)[offset3(shape, 0, j, k)],
    )
}

/// `t` has the given shape and holds zero everywhere.
pub open spec fn is_zero(t: Tensor3, shape: (usize, usize, usize)) -> bool {
    &&& tensor3_shape(t) == shape
    &&& tensor3_items(t) == Seq::new(size3(shape) as nat, |i: int| 0u32)
}

/// The two tensors have the same shape and the same elements.
pub open spec fn same_tensor(a: Tensor3, b: Tensor3) -> bool {
    tensor3_shape(a) == tensor3_shape(b) && tensor3_items(a) == tensor3_items(b)
}

/// What `ndarray` says of elements that do not make up an array: that no array can
/// have the shape, or that there are too few elements or too many for it.
pub open spec fn shape_error_text(fits: bool, size: int, count: nat) -> Seq<char> {
    if !fits {
        "ShapeError/Overflow: arithmetic overflow"@
    } else if size > count {
        "ShapeError/OutOfBounds: out of bounds indexing"@
    } else {
        "ShapeError/IncompatibleShape: incompatible shapes"@
    }
}

impl Tensor2 {
    /// `ArrayBase::dim` of a matrix. The element count is the product of the two
    /// lengths, and no length exceeds `isize::MAX`, as for every `ndarray` array.
    #[verifier::external_body]
    fn dim(&self) -> (r: (usize, usize))
        ensures
            r == tensor2_shape(*self),
            tensor2_items(*self).len() == size2(r),
            shape2_fits(r),
    {
        self.inner.dim()
    }

    /// `ArrayBase::from_shape_vec`: takes the elements in row-major order, and
    /// refuses exactly a shape that no array can have or one of another size. The
    /// error is handed on as the text that `ShapeError` displays, which tells these
    /// apart: a shape that no array can have comes first, then one with more
    /// elements than were given, then one with fewer.
    #[verifier::external_body]
    fn from_shape_vec(shape: (usize, usize), data: Vec<Bits>) -> (r: Result<Tensor2, String>)
        ensures
            r.is_ok() == (shape2_fits(shape) && size2(shape) == data@.len()),
            r.is_ok() ==> tensor2_shape(r.unwrap()) == shape && tensor2_items(r.unwrap()) == data@,
            r.is_err() ==> r.unwrap_err()@ == shape_error_text(
                shape2_fits(shape),
                size2(shape),
                data@.len(),
            ),
    {
        match Array2::from_shape_vec(shape, data) {
            Ok(inner) => Ok(Tensor2 { inner }),
            Err(error) => Err(format!("{}", error)),
        }
    }

    /// `ArrayBase::row`: the elements of one row, which panics outside the
    /// matrix.
    #[verifier::external_body]
    fn row(&self, i: usize) -> (r: Vec<Bits>)
        requires
            i < tensor2_shape(*self).0,
        ensures
            r@ == Seq::new(
                tensor2_shape(*self).1 as nat,
                |j: int| tensor2_items(*self)[i * tensor2_shape(*self).1 + j],
            ),
    {
        self.inner.row(i).to_vec()
    }

    /// `ArrayBase::t`: the transposed matrix, here as a copy.
    #[verifier::external_body]
    fn t(&self) -> (r: Tensor2)
        ensures
            tensor2_shape(r) == (tensor2_shape(*self).1, tensor2_shape(*self).0),
            tensor2_items(r).len() == size2(tensor2_shape(r)),
            forall|i: int, j: int|
                0 <= i < tensor2_shape(r).0 && 0 <= j < tensor2_shape(r).1
                    ==> #[trigger] tensor2_items(r)[i * tensor2_shape(r).1 + j]
                    == tensor2_items(*self)[j * tensor2_shape(*self).1 + i],
    {
        Tensor2 { inner: self.inner.t().to_owned() }
    }

    /// `ArrayBase::to_shape` in its default order: keeps the row-major elements,
    /// and refuses exactly a shape that no array can have or one of another size,
    /// as incompatible either way. The error is handed on as the text that
    /// `ShapeError` displays.
    #[verifier::external_body]
    fn to_shape(&self, shape: (usize, usize, usize)) -> (r: Result<Tensor3, String>)
        ensures
            r.is_ok() == (shape3_fits(shape) && size3(shape) == tensor2_items(*self).len()),
            r.is_ok() ==> tensor3_shape(r.unwrap()) == shape && tensor3_items(r.unwrap())
                == tensor2_items(*self),
            r.is_err() ==> r.unwrap_err()@ == "ShapeError/IncompatibleShape: incompatible shapes"@,
    {
        match self.inner.to_shape(shape) {
            Ok(view) => Ok(Tensor3 { inner: view.to_owned() }),
            Err(error) => Err(format!("{}", error)),
        }
    }
}

impl Tensor3 {
    /// `ArrayBase::dim` of a tensor. The element count is the product of the
    /// lengths, and no length exceeds `isize::MAX`, as for every `ndarray` array.
    #[verifier::external_body]
    fn dim(&self) -> (r: (usize, usize, usize))
        ensures
            r == tensor3_shape(*self),
            tensor3_items(*self).len() == size3(r),
            shape3_fits(r),
    {
        self.inner.dim()
    }

    /// `ArrayBase::from_shape_vec`: takes the elements in row-major order, and
    /// refuses exactly a shape that no array can have or one of another size. The
    /// error is handed on as the text that `ShapeError` displays, which tells these
    /// apart: a shape that no array can have comes first, then one with more
    /// elements than were given, then one with fewer.
    #[verifier::external_body]
    fn from_shape_vec(shape: (usize, usize, usize), data: Vec<Bits>) -> (r: Result<
        Tensor3,
        String,
    >)
        ensures
            r.is_ok() == (shape3_fits(shape) && size3(shape) == data@.len()),
            r.is_ok() ==> tensor3_shape(r.unwrap()) == shape && tensor3_items(r.unwrap()) == data@,
            r.is_err() ==> r.unwrap_err()@ == shape_error_text(
                shape3_fits(shape),
                size3(shape),
                data@.len(),
            ),
    {
        match Array3::from_shape_vec(shape, data) {
            Ok(inner) => Ok(Tensor3 { inner }),
            Err(error) => Err(format!("{}", error)),
        }
    }

    /// `ArrayBase::zeros`, which panics on a shape that no array can have and on
    /// one whose elements, four bytes each, no allocation can hold.
    #[verifier::external_body]
    fn filled_with_zeros(shape: (usize, usize, usize)) -> (r: Tensor3)
        requires
            shape3_fits(shape),
            4 * size3(shape) <= isize::MAX,
        ensures
            is_zero(r, shape),
    {
        Tensor3 { inner: Array3::zeros(shape) }
    }

    /// `Clone::clone` of an owned array: a value equal in every respect.
    #[verifier::external_body]
    fn duplicate(&self) -> (r: Tensor3)
        ensures
            r == *self,
    {
        Tensor3 { inner: self.inner.clone() }
    }

    /// `ArrayBase::index_axis` on the first and the last axis: the elements
    /// `(0, j, k)` for every `j`. It panics outside the tensor.
    #[verifier::external_body]
    fn column(&self, k: usize) -> (r: Vec<Bits>)
        requires
            tensor3_shape(*self).0 > 0,
            k < tensor3_shape(*self).2,
        ensures
            r@ == Seq::new(
                tensor3_shape(*self).1 as nat,
                |j: int|
                    tensor3_items(*self)[offset3(tensor3_shape(*self), 0, j, k as int)],
            ),
    {
        self.inner.index_axis(Axis(0), 0).index_axis(Axis(1), k).to_vec()
    }

    /// The `Index` operator of an array, which panics outside the tensor.
    #[verifier::external_body]
    fn element(&self, i: usize, j: usize, k: usize) -> (r: Bits)
        requires
            i < tensor3_shape(*self).0,
            j < tensor3_shape(*self).1,
            k < tensor3_shape(*self).2,
        ensures
            r == tensor3_items(*self)[offset3(
                tensor3_shape(*self),
                i as int,
                j as int,
                k as int,
            )],
    {
        self.inner[[i, j, k]]
    }
}

impl Clone for Tensor3 {
    fn clone(&self) -> (r: Self)
        ensures
            r == *self,
    {
        self.duplicate()
    }
}

/// The error for data that does not fill a shape: `Failed to reshape`, the name
/// of what was reshaped, and what the array error says.
fn reshape_error(name: &str, reason: &str) -> (r: Error)
    ensures
        is_reshape_error(r, name@, reason@),
{
    let mut text = String::from_str("Failed to reshape ");
    text.append(name);
    text.append(": ");
    text.append(reason);
    Error::Model(text)
}

/// `error` is a model error that says what was not reshaped, and why.
pub open spec fn is_reshape_error(error: Error, name: Seq<char>, reason: Seq<char>) -> bool {
    error matches Error::Model(text) && text@ == "Failed to reshape "@ + name + ": "@ + reason
}

impl Tensor2 {
    /// The number of rows and of columns.
    pub fn shape(&self) -> (r: (usize, usize))
        ensures
            r == tensor2_shape(*self),
            tensor2_items(*self).len() == size2(r),
            shape2_fits(r),
    {
        self.dim()
    }

    /// A matrix from its elements in row-major order.
    pub fn from_vec(shape: (usize, usize), data: Vec<Bits>, name: &str) -> (r: Result<
        Tensor2,
        Error,
    >)
        ensures
            r is Ok <==> shape2_fits(shape) && size2(shape) == data@.len(),
            r matches Ok(t) ==> tensor2_shape(t) == shape && tensor2_items(t) == data@,
            r matches Err(e) ==> is_reshape_error(
                e,
                name@,
                shape_error_text(shape2_fits(shape), size2(shape), data@.len()),
            ),
    {
        match Tensor2::from_shape_vec(shape, data) {
            Ok(t) => Ok(t),
            Err(reason) => Err(reshape_error(name, reason.as_str())),
        }
    }

    /// The elements of row `i`.
    pub fn row_values(&self, i: usize) -> (r: Vec<Bits>)
        requires
            i < tensor2_shape(*self).0,
        ensures
            r@ == row_items(*self, i as int),
    {
        self.row(i)
    }

    /// The transposed matrix as a tensor with one batch: element `(0, j, i)` of
    /// the result is element `(i, j)` of the matrix.
    pub fn transposed_batch(&self, name: &str) -> (r: Result<Tensor3, Error>)
        ensures
            r is Ok,
            r matches Ok(t) ==> is_transposed_batch(*self, t),
    {
        let (rows, columns) = self.dim();
        let turned = self.t();
        assert(axis_weight(rows) * axis_weight(columns) == 1 * axis_weight(columns) * axis_weight(
            rows,
        )) by (nonlinear_arith);
        assert(1 * columns * rows == columns * rows) by (nonlinear_arith);
        match turned.to_shape((1, columns, rows)) {
            Ok(t) => Ok(t),
            Err(reason) => Err(reshape_error(name, reason.as_str())),
        }
    }
}

/// Row `i` of a matrix.
pub open spec fn row_items(t: Tensor2, i: int) -> Seq<Bits> {
    Seq::new(
        tensor2_shape(t).1 as nat,
        |j: int| tensor2_items(t)[i * tensor2_shape(t).1 + j],
    )
}

/// `t` has the shape `(1, columns, rows)` of a matrix, and its element
/// `(0, j, i)` is element `(i, j)` of the matrix.
pub open spec fn is_transposed_batch(matrix: Tensor2, t: Tensor3) -> bool {
    let (rows, columns) = tensor2_shape(matrix);
    &&& tensor3_shape(t) == (1usize, columns, rows)
    &&& tensor3_items(t).len() == columns * rows
    &&& forall|j: int, i: int|
        0 <= j < columns && 0 <= i < rows ==> #[trigger] tensor3_items(t)[j * rows + i]
            == tensor2_items(matrix)[i * columns + j]
}

/// A matrix has one transposed batch, by shape and elements.
pub proof fn law_one_transposed_batch(matrix: Tensor2, a: Tensor3, b: Tensor3)
    requires
        is_transposed_batch(matrix, a),
        is_transposed_batch(matrix, b),
    ensures
        same_tensor(a, b),
{
    let (rows, columns) = tensor2_shape(matrix);
    assert forall|k: int| 0 <= k < tensor3_items(a).len() implies #[trigger] tensor3_items(a)[k]
        == tensor3_items(b)[k] by {
        let n = rows as int;
        let c = columns as int;
        assert(n > 0) by (nonlinear_arith)
            requires
                0 <= k < c * n,
                n >= 0,
        ;
        let j = k / n;
        let i = k % n;
        assert(k == j * n + i && 0 <= i < n) by (nonlinear_arith)
            requires
                n > 0,
                j == k / n,
                i == k % n,
        ;
        assert(0 <= j < c) by (nonlinear_arith)
            requires
                0 <= k < c * n,
                k == j * n + i,
                0 <= i < n,
        ;
        assert(tensor3_items(a)[j * rows + i] == tensor2_items(matrix)[i * columns + j]);
        assert(tensor3_items(b)[j * rows + i] == tensor2_items(matrix)[i * columns + j]);
    }
    assert(tensor3_items(a) =~= tensor3_items(b));
}

impl Tensor3 {
    /// The lengths of the three axes.
    pub fn shape(&self) -> (r: (usize, usize, usize))
        ensures
            r == tensor3_shape(*self),
            tensor3_items(*self).len() == size3(r),
            shape3_fits(r),
            r.0 <= isize::MAX,
            r.1 <= isize::MAX,
            r.2 <= isize::MAX,
    {
        let r = self.dim();
        proof {
            let a = axis_weight(r.0);
            let b = axis_weight(r.1);
            let c = axis_weight(r.2);
            assert(a <= a * b * c && b <= a * b * c && c <= a * b * c) by (nonlinear_arith)
                requires
                    a >= 1,
                    b >= 1,
                    c >= 1,
            ;
        }
        r
    }

    /// A tensor from its elements in row-major order.
    pub fn from_vec(shape: (usize, usize, usize), data: Vec<Bits>, name: &str) -> (r: Result<
        Tensor3,
        Error,
    >)
        ensures
            r is Ok <==> shape3_fits(shape) && size3(shape) == data@.len(),
            r matches Ok(t) ==> tensor3_shape(t) == shape && tensor3_items(t) == data@,
            r matches Err(e) ==> is_reshape_error(
                e,
                name@,
                shape_error_text(shape3_fits(shape), size3(shape), data@.len()),
            ),
    {
        match Tensor3::from_shape_vec(shape, data) {
            Ok(t) => Ok(t),
            Err(reason) => Err(reshape_error(name, reason.as_str())),
        }
    }

    /// A tensor of zeros.
    pub fn zeros(shape: (usize, usize, usize)) -> (r: Tensor3)
        requires
            shape3_fits(shape),
            4 * size3(shape) <= isize::MAX,
        ensures
            is_zero(r, shape),
    {
        Tensor3::filled_with_zeros(shape)
    }

    /// The element `(i, j, k)`.
    pub fn at(&self, i: usize, j: usize, k: usize) -> (r: Bits)
        requires
            i < tensor3_shape(*self).0,
            j < tensor3_shape(*self).1,
            k < tensor3_shape(*self).2,
        ensures
            r == tensor3_items(*self)[offset3(
                tensor3_shape(*self),
                i as int,
                j as int,
                k as int,
            )],
    {
        self.element(i, j, k)
    }

    /// Time step `k` of the first batch, as a tensor of shape `(1, hidden, 1)`.
    pub fn frame(&self, k: usize, name: &str) -> (r: Result<Tensor3, Error>)
        requires
            tensor3_shape(*self).0 > 0,
            k < tensor3_shape(*self).2,
        ensures
            r is Ok,
            r matches Ok(t) ==> is_frame(*self, k as int, t),
    {
        let (batch, hidden, time) = self.dim();
        assert(axis_weight(hidden) <= isize::MAX) by {
            let h = axis_weight(hidden);
            assert(batch * h * time >= h) by (nonlinear_arith)
                requires
                    batch >= 1,
                    time >= 1,
                    h >= 1,
            ;
        }
        assert(1 * hidden * 1 == hidden) by (nonlinear_arith);
        assert(1 * axis_weight(hidden) * 1 == axis_weight(hidden)) by (nonlinear_arith);
        Tensor3::from_vec((1, hidden, 1), self.column(k), name)
    }
}

/// A frame holds one time step: its place `j` holds what the first batch of the
/// encoder output holds of feature `j` at that step.
pub proof fn law_frame_holds_one_time_step(encoder_out: Tensor3, k: int, frame: Tensor3, j: int)
    requires
        is_frame(encoder_out, k, frame),
        0 <= j < tensor3_shape(encoder_out).1,
    ensures
        tensor3_items(frame).len() == tensor3_shape(encoder_out).1,
        tensor3_items(frame)[j] == tensor3_items(encoder_out)[j * tensor3_shape(encoder_out).2
            + k],
        tensor3_shape(frame).0 == 1,
        tensor3_shape(frame).1 == tensor3_shape(encoder_out).1,
        tensor3_shape(frame).2 == 1,
{
    assert(0 * tensor3_shape(encoder_out).1 == 0) by (nonlinear_arith);
}

/// The rows of a matrix follow one another: row `i` holds what stands behind the `i`
/// rows before it.
pub proof fn law_rows_follow_one_another(t: Tensor2, i: int, j: int)
    requires
        0 <= j < tensor2_shape(t).1,
    ensures
        row_items(t, i).len() == tensor2_shape(t).1,
        row_items(t, i)[j] == tensor2_items(t)[tensor2_shape(t).1 * i + j],
{
    assert(i * tensor2_shape(t).1 == tensor2_shape(t).1 * i) by (nonlinear_arith);
}

/// A transposed batch has a row for each column of the matrix: its place `(0, j, i)`
/// holds what row `i` of the matrix holds at `j`.
pub proof fn law_transposing_turns_rows_to_columns(matrix: Tensor2, t: Tensor3, i: int, j: int)
    requires
        is_transposed_batch(matrix, t),
        0 <= i < tensor2_shape(matrix).0,
        0 <= j < tensor2_shape(matrix).1,
    ensures
        tensor3_shape(t).0 == 1,
        tensor3_shape(t).1 == tensor2_shape(matrix).1,
        tensor3_shape(t).2 == tensor2_shape(matrix).0,
        tensor3_items(t)[offset3(tensor3_shape(t), 0, j, i)] == row_items(matrix, i)[j],
{
    assert(0 * tensor3_shape(t).1 == 0) by (nonlinear_arith);
    assert(tensor3_items(t)[j * tensor2_shape(matrix).0 + i] == tensor2_items(matrix)[i
        * tensor2_shape(matrix).1 + j]);
}

} // verus!
