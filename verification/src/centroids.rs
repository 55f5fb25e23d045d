//! The centroid set: an ordered list of vectors of one dimension.
//!
//! The position of a row is the identity of its cluster for as long as the
//! set lives. Rows are replaced in place when a message matches, and new rows
//! are appended when the set is retrained. The set is generic in its scalar:
//! nothing here computes on the numbers, it only keeps them in shape.

use vstd::prelude::*;

verus! {

/// Why a set of vectors was refused.
#[derive(Clone, Copy, Debug, PartialEq, Eq, Structural)]
pub enum ShapeError {
    /// A vector does not have the dimension of the set.
    Dimension { row: usize, expected: usize, found: usize },
    /// The number of vectors is not the number that was asked for.
    RowCount { expected: usize, found: usize },
    /// There is no row at this position.
    NoSuchRow { row: usize, rows: usize },
}

/// The rows of a list of vectors, each as a sequence.
pub open spec fn matrix<T>(rows: Seq<Vec<T>>) -> Seq<Seq<T>> {
    Seq::new(rows.len(), |i: int| rows[i]@)
}

/// Whether every row has `dim` entries.
pub open spec fn uniform<T>(rows: Seq<Seq<T>>, dim: nat) -> bool {
    forall|i: int| 0 <= i < rows.len() ==> (#[trigger] rows[i]).len() == dim
}

/// Whether `row` is the first row that does not have `dim` entries.
pub open spec fn first_ragged<T>(rows: Seq<Seq<T>>, dim: nat, row: int) -> bool {
    &&& 0 <= row < rows.len()
    &&& rows[row].len() != dim
    &&& forall|i: int| 0 <= i < row ==> (#[trigger] rows[i]).len() == dim
}

/// The error that names the first row of `rows` whose dimension is not `dim`.
pub open spec fn ragged_error<T>(rows: Seq<Seq<T>>, dim: nat, e: ShapeError) -> bool {
    e matches ShapeError::Dimension { row, expected, found } && first_ragged(rows, dim, row as int)
        && expected == dim && found == rows[row as int].len()
}

/// Looks for the first of `rows` that does not have `dim` entries.
pub fn check_rows<T>(dim: usize, rows: &Vec<Vec<T>>) -> (result: Result<(), ShapeError>)
    ensures
        result is Ok <==> uniform(matrix(rows@), dim as nat),
        result matches Err(e) ==> ragged_error(matrix(rows@), dim as nat, e),
{
    let mut i: usize = 0;
    while i < rows.len()
        invariant
            i <= rows@.len(),
            forall|j: int| 0 <= j < i ==> (#[trigger] matrix(rows@)[j]).len() == dim,
        decreases rows@.len() - i,
    {
        let found = rows[i].len();
        if found != dim {
            assert(matrix(rows@)[i as int].len() == found);
            return Err(ShapeError::Dimension { row: i, expected: dim, found });
        }
        assert(matrix(rows@)[i as int].len() == dim);
        i = i + 1;
    }
    Ok(())
}

/// An ordered set of centroids, all of one dimension.
#[derive(Debug)]
pub struct CentroidSet<T> {
    rows: Vec<Vec<T>>,
    dim: usize,
}

impl<T> View for CentroidSet<T> {
    type V = Seq<Seq<T>>;

    /// The rows, in order.
    closed spec fn view(&self) -> Seq<Seq<T>> {
        matrix(self.rows@)
    }
}

impl<T> CentroidSet<T> {
    /// The dimension that every row has.
    pub closed spec fn dimension(&self) -> usize {
        self.dim
    }

    /// Every row has the dimension of the set.
    #[verifier::type_invariant]
    spec fn well_shaped(&self) -> bool {
        uniform(matrix(self.rows@), self.dim as nat)
    }

    /// A set without rows, for vectors of dimension `dim`.
    pub fn new(dim: usize) -> (set: Self)
        ensures
            set@.len() == 0,
            set.dimension() == dim,
    {
        CentroidSet { rows: Vec::new(), dim }
    }

    /// The set whose rows are `rows`, in that order, if each of them has
    /// dimension `dim`. Otherwise the first row that has not is named.
    pub fn from_rows(dim: usize, rows: Vec<Vec<T>>) -> (result: Result<Self, ShapeError>)
        ensures
            result is Ok <==> uniform(matrix(rows@), dim as nat),
            result matches Ok(set) ==> set@ == matrix(rows@) && set.dimension() == dim,
            result matches Err(e) ==> ragged_error(matrix(rows@), dim as nat, e),
    {
        match check_rows(dim, &rows) {
            Ok(()) => Ok(CentroidSet { rows, dim }),
            Err(e) => Err(e),
        }
    }

    /// The number of centroids.
    pub fn len(&self) -> (n: usize)
        ensures
            n == self@.len(),
    {
        self.rows.len()
    }

    /// The dimension that every row has.
    pub fn dim(&self) -> (dim: usize)
        ensures
            dim == self.dimension(),
            uniform(self@, dim as nat),
    {
        proof {
            use_type_invariant(self);
        }
        self.dim
    }

    /// The rows, in order.
    pub fn rows(&self) -> (rows: &Vec<Vec<T>>)
        ensures
            matrix(rows@) == self@,
            uniform(self@, self.dimension() as nat),
    {
        proof {
            use_type_invariant(self);
        }
        &self.rows
    }

    /// Gives the rows up, in order.
    pub fn into_rows(self) -> (rows: Vec<Vec<T>>)
        ensures
            matrix(rows@) == self@,
            uniform(self@, self.dimension() as nat),
    {
        proof {
            use_type_invariant(&self);
        }
        self.rows
    }

    /// Puts `row` in the place of the centroid at position `index`. No other
    /// row changes and none is added. A position past the end, or a row of
    /// another dimension, is refused and leaves the set as it was.
    pub fn replace_row(&mut self, index: usize, row: Vec<T>) -> (result: Result<(), ShapeError>)
        ensures
            final(self).dimension() == old(self).dimension(),
            result is Ok <==> index < old(self)@.len() && row@.len() == old(self).dimension(),
            result is Ok ==> final(self)@ == old(self)@.update(index as int, row@),
            result is Err ==> *final(self) == *old(self),
            index >= old(self)@.len() ==> result == Err::<(), ShapeError>(
                ShapeError::NoSuchRow { row: index, rows: old(self)@.len() as usize },
            ),
            index < old(self)@.len() && row@.len() != old(self).dimension() ==> result == Err::<
                (),
                ShapeError,
            >(
                ShapeError::Dimension {
                    row: index,
                    expected: old(self).dimension(),
                    found: row@.len() as usize,
                },
            ),
    {
        proof {
            use_type_invariant(&*self);
        }
        if index >= self.rows.len() {
            return Err(ShapeError::NoSuchRow { row: index, rows: self.rows.len() });
        }
        if row.len() != self.dim {
            return Err(
                ShapeError::Dimension { row: index, expected: self.dim, found: row.len() },
            );
        }
        let ghost before = self.rows@;
        let ghost put = row@;
        let mut rows: Vec<Vec<T>> = Vec::new();
        core::mem::swap(&mut self.rows, &mut rows);
        rows.set(index, row);
        proof {
            assert(matrix(rows@) =~= matrix(before).update(index as int, put));
        }
        core::mem::swap(&mut self.rows, &mut rows);
        Ok(())
    }

    /// Appends `rows` after the rows of the set, unchanged and in order, if
    /// each of them has the dimension of the set. Otherwise the first that
    /// has not is named, and the set stays as it was.
    pub fn append(&mut self, rows: Vec<Vec<T>>) -> (result: Result<(), ShapeError>)
        ensures
            final(self).dimension() == old(self).dimension(),
            result is Ok <==> uniform(matrix(rows@), old(self).dimension() as nat),
            result is Ok ==> final(self)@ == old(self)@ + matrix(rows@),
            result is Err ==> *final(self) == *old(self),
            result matches Err(e) ==> ragged_error(matrix(rows@), old(self).dimension() as nat, e),
    {
        proof {
            use_type_invariant(&*self);
        }
        match check_rows(self.dim, &rows) {
            Ok(()) => {
                let ghost before = self.rows@;
                let ghost added = rows@;
                let mut tail = rows;
                let mut all: Vec<Vec<T>> = Vec::new();
                core::mem::swap(&mut self.rows, &mut all);
                all.append(&mut tail);
                proof {
                    assert(matrix(all@) =~= matrix(before) + matrix(added));
                }
                core::mem::swap(&mut self.rows, &mut all);
                Ok(())
            },
            Err(e) => Err(e),
        }
    }
}

/// Grows a centroid set by a backlog of vectors: each becomes a new centroid,
/// as it is, after the ones the set has. Nothing is averaged, merged or left
/// out. A backlog vector of another dimension stops the whole of it, and the
/// set stays as it was. On success the number of new centroids is returned.
pub fn retrain<T>(centroids: &mut CentroidSet<T>, backlog: Vec<Vec<T>>) -> (result: Result<
    usize,
    ShapeError,
>)
    ensures
        final(centroids).dimension() == old(centroids).dimension(),
        result is Ok <==> uniform(matrix(backlog@), old(centroids).dimension() as nat),
        result matches Ok(added) ==> {
            &&& added == backlog@.len()
            &&& final(centroids)@ == old(centroids)@ + matrix(backlog@)
            &&& final(centroids)@.len() == old(centroids)@.len() + backlog@.len()
        },
        result matches Err(e) ==> ragged_error(
            matrix(backlog@),
            old(centroids).dimension() as nat,
            e,
        ),
        result is Err || backlog@.len() == 0 ==> *final(centroids) == *old(centroids),
{
    let added = backlog.len();
    if added == 0 {
        return Ok(0);
    }
    match centroids.append(backlog) {
        Ok(()) => Ok(added),
        Err(e) => Err(e),
    }
}

} // verus!
