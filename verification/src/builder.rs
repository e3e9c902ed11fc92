//! The interface through which leaf values are gathered into physical columns.

use vstd::prelude::*;

verus! {

/// Gathers values of scalar kind `N`, present or null, and turns them into a
/// column of type `C`.
///
/// An implementation can say what its primitive steps do to the builder by
/// defining `appends_value`, `appends_null` and `finishes`, which promise
/// nothing unless it does; `append_option` is stated, and in its provided
/// form proved, in terms of the first two.
pub trait ColumnBuilder<N, C> {
    /// Whether `post` is the builder `pre` after the present value `val` was appended.
    open spec fn appends_value(pre: &Self, val: N, post: &Self) -> bool {
        true
    }

    /// Whether `post` is the builder `pre` after a null was appended.
    open spec fn appends_null(pre: &Self, post: &Self) -> bool {
        true
    }

    /// Whether `column` is what the builder `pre` has gathered, and `post`
    /// the builder after it has handed `column` out.
    open spec fn finishes(pre: &Self, column: C, post: &Self) -> bool {
        true
    }

    /// Appends a present value.
    fn append_value(&mut self, val: N)
        ensures
            Self::appends_value(old(self), val, final(self)),
    ;

    /// Appends a null.
    fn append_null(&mut self)
        ensures
            Self::appends_null(old(self), final(self)),
    ;

    /// Appends an optional value: a present one as `append_value` does, an
    /// absent one as `append_null` does.
    fn append_option(&mut self, opt_val: Option<N>)
        ensures
            match opt_val {
                Some(v) => Self::appends_value(old(self), v, final(self)),
                None => Self::appends_null(old(self), final(self)),
            },
    {
        match opt_val {
            Some(v) => self.append_value(v),
            None => self.append_null(),
        }
    }

    /// Hands out the column built from everything appended so far.
    fn finish(&mut self) -> (column: C)
        ensures
            Self::finishes(old(self), column, final(self)),
    ;
}

/// Makes a column without nulls out of plain values.
pub trait NewColumn<N>: Sized {
    /// Makes the column that holds the values of `v`, in their order.
    fn new_from_slice<P: AsRef<[N]>>(v: P) -> Self;

    /// Makes the column that holds the values that `it` yields, in their order.
    fn new_from_iter(it: impl Iterator<Item = N>) -> Self;
}

/// `arrow2::bitmap::Bitmap`, the validity bitmap of a column: one bit per
/// row, set where the row holds a value. The type is only handed through:
/// nothing is claimed of what a value of it holds.
#[verifier::external_type_specification]
#[verifier::external_body]
pub struct ExBitmap(arrow2::bitmap::Bitmap);

/// Makes a column that may hold nulls.
pub trait NewNullableColumn<N>: Sized {
    /// Makes the column whose rows are the entries of `opt_v`, `None` standing for a null.
    fn new_from_opt_slice(opt_v: &[Option<N>]) -> Self;

    /// Makes the column whose rows are the entries that `it` yields, `None` standing for a null.
    fn new_from_opt_iter(it: impl Iterator<Item = Option<N>>) -> Self;

    /// Makes the column that holds the values that `it` yields; where `validity`
    /// is given, the rows whose bit is unset are nulls.
    fn new_from_iter_validity(it: impl Iterator<Item = N>, validity: Option<arrow2::bitmap::Bitmap>) -> Self;
}

} // verus!
